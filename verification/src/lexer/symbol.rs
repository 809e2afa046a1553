//! Dotted identifier paths.
use vstd::prelude::*;
use crate::lexer::alphabet::is_symbol_char;

verus! {

/// A dotted identifier path such as `foo.bar.baz`: the first segment and the
/// segments that follow it, in order.
#[derive(Debug, PartialEq, Eq)]
pub struct Symbol {
    pub head: String,
    pub tail: Vec<String>,
}

/// A symbol as sequences of characters.
pub struct SymbolView {
    pub head: Seq<char>,
    pub tail: Seq<Seq<char>>,
}

impl SymbolView {
    /// All the segments of the path, the head first.
    pub open spec fn segments(self) -> Seq<Seq<char>> {
        seq![self.head] + self.tail
    }

    /// No segment is empty, and every segment is made of the symbol alphabet.
    pub open spec fn well_formed(self) -> bool {
        forall|i: int|
            0 <= i < self.segments().len() ==> is_segment(#[trigger] self.segments()[i])
    }
}

/// A segment of a path: one or more characters of the symbol alphabet.
pub open spec fn is_segment(s: Seq<char>) -> bool {
    s.len() > 0 && forall|i: int| 0 <= i < s.len() ==> is_symbol_char(#[trigger] s[i])
}

impl View for Symbol {
    type V = SymbolView;

    open spec fn view(&self) -> SymbolView {
        SymbolView { head: self.head@, tail: string_views(self.tail@) }
    }
}

/// The views of a sequence of strings, in order.
pub open spec fn string_views(strings: Seq<String>) -> Seq<Seq<char>> {
    Seq::new(strings.len(), |i: int| strings[i]@)
}

impl Clone for Symbol {
    fn clone(&self) -> (copy: Self)
        ensures
            copy@ == self@,
    {
        let mut tail: Vec<String> = Vec::new();
        let mut i: usize = 0;
        while i < self.tail.len()
            invariant
                i <= self.tail@.len(),
                tail@.len() == i,
                forall|k: int| 0 <= k < i ==> tail@[k]@ == self.tail@[k]@,
            decreases self.tail@.len() - i,
        {
            tail.push(self.tail[i].clone());
            i += 1;
        }
        assert(string_views(tail@) =~= string_views(self.tail@));
        Symbol { head: self.head.clone(), tail }
    }
}

} // verus!
