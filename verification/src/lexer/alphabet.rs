//! The character classes of the surface syntax.
use vstd::prelude::*;

verus! {

/// The characters with the Unicode property `White_Space`.
pub open spec fn spec_is_whitespace(c: char) -> bool {
    ||| '\u{9}' <= c <= '\u{d}'
    ||| c == ' '
    ||| c == '\u{85}'
    ||| c == '\u{a0}'
    ||| c == '\u{1680}'
    ||| '\u{2000}' <= c <= '\u{200a}'
    ||| c == '\u{2028}'
    ||| c == '\u{2029}'
    ||| c == '\u{202f}'
    ||| c == '\u{205f}'
    ||| c == '\u{3000}'
}

#[verifier::when_used_as_spec(spec_is_whitespace)]
pub fn is_whitespace(c: char) -> (r: bool)
    ensures
        r == spec_is_whitespace(c),
{
    (c >= '\u{9}' && c <= '\u{d}') || c == ' ' || c == '\u{85}' || c == '\u{a0}' || c == '\u{1680}'
        || (c >= '\u{2000}' && c <= '\u{200a}') || c == '\u{2028}' || c == '\u{2029}' || c
        == '\u{202f}' || c == '\u{205f}' || c == '\u{3000}'
}

/// The decimal digits `0` to `9`.
pub open spec fn spec_is_digit(c: char) -> bool {
    '0' <= c <= '9'
}

#[verifier::when_used_as_spec(spec_is_digit)]
pub fn is_digit(c: char) -> (r: bool)
    ensures
        r == spec_is_digit(c),
{
    c >= '0' && c <= '9'
}

/// The keyword alphabet: lowercase letters, digits and `-`.
pub open spec fn spec_is_keyword_char(c: char) -> bool {
    'a' <= c <= 'z' || is_digit(c) || c == '-'
}

#[verifier::when_used_as_spec(spec_is_keyword_char)]
pub fn is_keyword_char(c: char) -> (r: bool)
    ensures
        r == spec_is_keyword_char(c),
{
    (c >= 'a' && c <= 'z') || is_digit(c) || c == '-'
}

/// The punctuation of the symbol alphabet: one of `_-+*/|<>=!?@#$%`.
pub open spec fn spec_is_symbol_punctuation(c: char) -> bool {
    ||| c == '_'
    ||| c == '-'
    ||| c == '+'
    ||| c == '*'
    ||| c == '/'
    ||| c == '|'
    ||| c == '<'
    ||| c == '>'
    ||| c == '='
    ||| c == '!'
    ||| c == '?'
    ||| c == '@'
    ||| c == '#'
    ||| c == '$'
    ||| c == '%'
}

#[verifier::when_used_as_spec(spec_is_symbol_punctuation)]
pub fn is_symbol_punctuation(c: char) -> (r: bool)
    ensures
        r == spec_is_symbol_punctuation(c),
{
    c == '_' || c == '-' || c == '+' || c == '*' || c == '/' || c == '|' || c == '<' || c == '>'
        || c == '=' || c == '!' || c == '?' || c == '@' || c == '#' || c == '$' || c == '%'
}

/// The symbol alphabet: letters of either case, digits and the punctuation
/// above.
pub open spec fn spec_is_symbol_char(c: char) -> bool {
    'a' <= c <= 'z' || 'A' <= c <= 'Z' || is_digit(c) || is_symbol_punctuation(c)
}

#[verifier::when_used_as_spec(spec_is_symbol_char)]
pub fn is_symbol_char(c: char) -> (r: bool)
    ensures
        r == spec_is_symbol_char(c),
{
    (c >= 'a' && c <= 'z') || (c >= 'A' && c <= 'Z') || is_digit(c) || is_symbol_punctuation(c)
}

/// One of the opening brackets `(`, `[` and `{`.
pub open spec fn spec_is_open_bracket(c: char) -> bool {
    c == '(' || c == '[' || c == '{'
}

#[verifier::when_used_as_spec(spec_is_open_bracket)]
pub fn is_open_bracket(c: char) -> (r: bool)
    ensures
        r == spec_is_open_bracket(c),
{
    c == '(' || c == '[' || c == '{'
}

/// One of the closing brackets `)`, `]` and `}`.
pub open spec fn spec_is_close_bracket(c: char) -> bool {
    c == ')' || c == ']' || c == '}'
}

#[verifier::when_used_as_spec(spec_is_close_bracket)]
pub fn is_close_bracket(c: char) -> (r: bool)
    ensures
        r == spec_is_close_bracket(c),
{
    c == ')' || c == ']' || c == '}'
}

/// What `\` followed by `c` stands for inside a string literal, if anything.
pub open spec fn spec_unescape(c: char) -> Option<char> {
    if c == '"' {
        Some('"')
    } else if c == 'n' {
        Some('\n')
    } else if c == 't' {
        Some('\t')
    } else if c == 'r' {
        Some('\r')
    } else if c == '\\' {
        Some('\\')
    } else {
        None
    }
}

#[verifier::when_used_as_spec(spec_unescape)]
pub fn unescape(c: char) -> (r: Option<char>)
    ensures
        r == spec_unescape(c),
{
    if c == '"' {
        Some('"')
    } else if c == 'n' {
        Some('\n')
    } else if c == 't' {
        Some('\t')
    } else if c == 'r' {
        Some('\r')
    } else if c == '\\' {
        Some('\\')
    } else {
        None
    }
}

/// The sets of characters that the body of a token is drawn from.
#[derive(Clone, Copy, Debug, PartialEq, Eq, Structural)]
pub enum Class {
    /// The keyword alphabet.
    Keyword,
    /// The symbol alphabet and `.`, which separates the segments of a path.
    Path,
    /// Digits and `.`.
    Numeric,
    /// Everything but a space: the name of a character literal.
    Name,
    /// Everything but a newline: the text of a line comment.
    Comment,
}

impl Class {
    pub open spec fn spec_contains(self, c: char) -> bool {
        match self {
            Class::Keyword => is_keyword_char(c),
            Class::Path => is_symbol_char(c) || c == '.',
            Class::Numeric => is_digit(c) || c == '.',
            Class::Name => c != ' ',
            Class::Comment => c != '\n',
        }
    }

    /// Whether `c` belongs to the class.
    #[verifier::when_used_as_spec(spec_contains)]
    pub fn contains(self, c: char) -> (r: bool)
        ensures
            r == self.spec_contains(c),
    {
        match self {
            Class::Keyword => is_keyword_char(c),
            Class::Path => is_symbol_char(c) || c == '.',
            Class::Numeric => is_digit(c) || c == '.',
            Class::Name => c != ' ',
            Class::Comment => c != '\n',
        }
    }
}

/// Where the run of characters of `class` that starts at `i` ends: the index
/// of the first character from `i` on that is not in the class, or the length
/// of `s` if there is none.
pub open spec fn run_end(s: Seq<char>, i: int, class: Class) -> int
    decreases s.len() - i,
{
    if 0 <= i < s.len() && class.contains(s[i]) {
        run_end(s, i + 1, class)
    } else {
        i
    }
}

/// A run ends inside the text, holds only characters of its class, and is
/// followed by none of them.
pub proof fn lemma_run_end(s: Seq<char>, i: int, class: Class)
    requires
        0 <= i <= s.len(),
    ensures
        i <= run_end(s, i, class) <= s.len(),
        forall|k: int| i <= k < run_end(s, i, class) ==> class.contains(#[trigger] s[k]),
        run_end(s, i, class) < s.len() ==> !class.contains(s[run_end(s, i, class)]),
    decreases s.len() - i,
{
    if i < s.len() && class.contains(s[i]) {
        lemma_run_end(s, i + 1, class);
    }
}

/// Where every character from `i` on is of the class, the run goes to the end.
pub proof fn lemma_run_to_the_end(s: Seq<char>, i: int, class: Class)
    requires
        0 <= i <= s.len(),
        forall|k: int| i <= k < s.len() ==> class.contains(#[trigger] s[k]),
    ensures
        run_end(s, i, class) == s.len(),
        run(s, i, class) == s.subrange(i, s.len() as int),
{
    lemma_run_end(s, i, class);
}

/// The characters of the run of `class` that starts at `i`. Past the end of
/// the text there is none.
pub open spec fn run(s: Seq<char>, i: int, class: Class) -> Seq<char> {
    if 0 <= i <= s.len() {
        s.subrange(i, run_end(s, i, class))
    } else {
        Seq::empty()
    }
}

/// The end of the run of `class` that starts at `start`.
pub fn scan_run(source: &[char], start: usize, class: Class) -> (end: usize)
    ensures
        end == run_end(source@, start as int, class),
        start <= end,
        start <= source@.len() ==> end <= source@.len(),
{
    let mut end: usize = start;
    while end < source.len() && class.contains(source[end])
        invariant
            start <= end,
            start <= source@.len() ==> end <= source@.len(),
            run_end(source@, start as int, class) == run_end(source@, end as int, class),
        decreases source@.len() - end,
    {
        end += 1;
    }
    end
}

} // verus!
