//! Moving between strings and sequences of characters.
use vstd::prelude::*;

verus! {

/// `String::push` of the standard library: the character is appended to the
/// end of the string and nothing else changes.
pub assume_specification[ std::string::String::push ](s: &mut std::string::String, c: char)
    ensures
        final(s)@ == old(s)@.push(c),
;

/// The characters of `s`, in order.
pub fn chars_of(s: &str) -> (chars: Vec<char>)
    ensures
        chars@ == s@,
{
    let mut chars: Vec<char> = Vec::new();
    for c in it: s.chars()
        invariant
            chars@ == it.seq().take(it.index()),
    {
        chars.push(c);
    }
    chars
}

/// The characters of `chars` from position `from` up to position `to`; none
/// where these are not two positions in `chars`, the first before the second.
pub open spec fn between(chars: Seq<char>, from: int, to: int) -> Seq<char> {
    if 0 <= from <= to <= chars.len() {
        chars.subrange(from, to)
    } else {
        Seq::empty()
    }
}

/// The string made of the characters of `chars` from position `from` up to
/// position `to`.
pub fn string_of(chars: &[char], from: usize, to: usize) -> (s: String)
    ensures
        s@ == between(chars@, from as int, to as int),
{
    let mut s = String::new();
    if from <= to && to <= chars.len() {
        let mut i: usize = from;
        while i < to
            invariant
                from <= i <= to <= chars@.len(),
                s@ == chars@.subrange(from as int, i as int),
            decreases to - i,
        {
            s.push(chars[i]);
            i += 1;
        }
    }
    s
}

} // verus!
