//! The grammar of tokens: what the tokenizer returns, as a function of the
//! text. A position in a text `s` is an index between `0` and `s.len()`.
use vstd::prelude::*;
use crate::lexer::alphabet::{
    is_close_bracket, is_digit, is_open_bracket, is_symbol_char, is_whitespace, lemma_run_end, run,
    run_end, unescape, Class,
};
use crate::lexer::error::LexErrorView;
use crate::lexer::number::{dot_count, integer_literal, is_float_literal};
use crate::lexer::symbol::{is_segment, SymbolView};
use crate::lexer::token::TokenView;

verus! {

/// What reading one token gives: the token and the position after it.
pub type Scan = Result<(TokenView, int), LexErrorView>;

/// `c` put in front of the text of a string literal.
pub open spec fn prepend(
    c: char,
    rest: Result<(Seq<char>, int), LexErrorView>,
) -> Result<(Seq<char>, int), LexErrorView> {
    match rest {
        Ok((text, end)) => Ok((seq![c] + text, end)),
        Err(e) => Err(e),
    }
}

/// The text of the string literal whose body begins at `i`, right after the
/// opening quote, and the position after its closing quote.
///
/// Characters stand for themselves up to the first unescaped `"`, except that
/// `\` and the character after it stand for one character. The literal fails
/// at the first `\` that is followed by a character that cannot be escaped,
/// and where the text ends before the closing quote.
pub open spec fn string_literal(s: Seq<char>, i: int) -> Result<(Seq<char>, int), LexErrorView>
    decreases s.len() - i,
{
    if !(0 <= i < s.len()) {
        Err(LexErrorView::UnterminatedString)
    } else if s[i] == '"' {
        Ok((Seq::empty(), i + 1))
    } else if s[i] == '\\' {
        if i + 1 >= s.len() {
            Err(LexErrorView::UnterminatedString)
        } else {
            match unescape(s[i + 1]) {
                Some(c) => prepend(c, string_literal(s, i + 2)),
                None => Err(LexErrorView::IllegalEscape(s[i + 1])),
            }
        }
    } else {
        prepend(s[i], string_literal(s, i + 1))
    }
}

/// The string token whose body begins at `i`.
pub open spec fn string_token(s: Seq<char>, i: int) -> Scan {
    match string_literal(s, i) {
        Ok((text, end)) => Ok((TokenView::String(text), end)),
        Err(e) => Err(e),
    }
}

/// The keyword whose name begins at `i`, right after the `:`. The name is the
/// longest run of the keyword alphabet, and it may not be empty.
pub open spec fn keyword_token(s: Seq<char>, i: int) -> Scan {
    let name = run(s, i, Class::Keyword);
    if name.len() == 0 {
        Err(LexErrorView::EmptyKeyword)
    } else {
        Ok((TokenView::Keyword(name), run_end(s, i, Class::Keyword)))
    }
}

/// The character that the text of a character literal stands for: one of the
/// four names, or a single character, which stands for itself.
pub open spec fn named_char(name: Seq<char>) -> Option<char> {
    if name == "newline"@ {
        Some('\n')
    } else if name == "return"@ {
        Some('\r')
    } else if name == "tab"@ {
        Some('\t')
    } else if name == "space"@ {
        Some(' ')
    } else if name.len() == 1 {
        Some(name[0])
    } else {
        None
    }
}

/// The position after a run that began at or before `end`, and after the
/// character that stopped it, if one did.
pub open spec fn after_stop(s: Seq<char>, end: int) -> int {
    if end < s.len() {
        end + 1
    } else {
        end
    }
}

/// The character literal whose text begins at `i`, right after the `\`. The
/// text runs up to the next space or to the end of the input, and the space
/// is consumed with it.
pub open spec fn char_token(s: Seq<char>, i: int) -> Scan {
    let name = run(s, i, Class::Name);
    match named_char(name) {
        Some(c) => Ok((TokenView::Char(c), after_stop(s, run_end(s, i, Class::Name)))),
        None => Err(LexErrorView::InvalidChar(name)),
    }
}

/// The position after the line comment whose text begins at `i`: after the
/// next newline, or at the end of the input.
pub open spec fn comment_end(s: Seq<char>, i: int) -> int {
    after_stop(s, run_end(s, i, Class::Comment))
}

/// Whether a number begins at `i`: with a digit, or with `-` or `.` and a
/// digit right after it.
pub open spec fn starts_number(s: Seq<char>, i: int) -> bool {
    &&& 0 <= i < s.len()
    &&& {
        ||| is_digit(s[i])
        ||| (s[i] == '-' || s[i] == '.') && i + 1 < s.len() && is_digit(s[i + 1])
    }
}

/// The text of the token that begins with `first` and goes on at `i` with
/// the longest run of `class`.
pub open spec fn run_text(s: Seq<char>, i: int, first: char, class: Class) -> Seq<char> {
    seq![first] + run(s, i, class)
}

/// The number that begins with `first` and goes on at `i` with the longest
/// run of digits and `.`. With one `.` it is a floating-point number, with
/// none an integer; it fails where the text is neither, as with a second
/// `.`, and where the integer is outside the 64-bit range.
pub open spec fn number_token(s: Seq<char>, i: int, first: char) -> Scan {
    let text = run_text(s, i, first, Class::Numeric);
    let end = run_end(s, i, Class::Numeric);
    if is_float_literal(text) {
        Ok((TokenView::Float(text), end))
    } else {
        match integer_literal(text) {
            Some(value) => Ok((TokenView::Integer(value), end)),
            None => Err(LexErrorView::InvalidNumber(text)),
        }
    }
}

/// The segments that the dots of `text` cut it into. A text without a dot is
/// one segment; each dot ends a segment and begins the next, which is empty
/// until a character joins it.
pub open spec fn split_path(text: Seq<char>) -> Seq<Seq<char>>
    decreases text.len(),
{
    if text.len() == 0 {
        seq![Seq::empty()]
    } else {
        let before = split_path(text.drop_last());
        if text.last() == '.' {
            before.push(Seq::empty())
        } else {
            before.drop_last().push(before.last().push(text.last()))
        }
    }
}

/// The segments with a dot between each and the next: the path as it is
/// written.
pub open spec fn join_path(segments: Seq<Seq<char>>) -> Seq<char>
    decreases segments.len(),
{
    if segments.len() == 0 {
        Seq::empty()
    } else if segments.len() == 1 {
        segments[0]
    } else {
        join_path(segments.drop_last()) + seq!['.'] + segments.last()
    }
}

/// Cutting a text at its dots is the inverse of joining segments with dots:
/// the segments hold no dot, there is one more of them than there are dots,
/// and joined again they are the text.
pub proof fn lemma_split_path_is_unjoin(text: Seq<char>)
    ensures
        split_path(text).len() == dot_count(text) + 1,
        join_path(split_path(text)) == text,
        forall|k: int, j: int|
            0 <= k < split_path(text).len() && 0 <= j < split_path(text)[k].len()
                ==> #[trigger] split_path(text)[k][j] != '.',
    decreases text.len(),
{
    if text.len() == 0 {
        assert(join_path(split_path(text)) =~= text);
    } else {
        let shorter = text.drop_last();
        let c = text.last();
        let before = split_path(shorter);
        let segments = split_path(text);
        lemma_split_path_is_unjoin(shorter);
        if c == '.' {
            assert(segments.drop_last() =~= before);
            assert(join_path(segments) =~= text);
        } else if before.len() == 1 {
            assert(join_path(segments) =~= text);
        } else {
            assert(segments.drop_last() =~= before.drop_last());
            assert(segments.last() == before.last().push(c));
            assert(join_path(before) == join_path(before.drop_last()) + seq!['.'] + before.last());
            assert(text =~= shorter.push(c));
            assert(join_path(segments) =~= join_path(before).push(c));
        }
    }
}

/// One of the segments is empty.
pub open spec fn has_empty_segment(segments: Seq<Seq<char>>) -> bool {
    exists|k: int| 0 <= k < segments.len() && (#[trigger] segments[k]).len() == 0
}

/// The symbol that begins with `first` and goes on at `i` with the longest
/// run of the symbol alphabet and `.`. Its segments are what the dots cut the
/// text into, and it fails where one of them is empty.
pub open spec fn symbol_token(s: Seq<char>, i: int, first: char) -> Scan {
    let text = run_text(s, i, first, Class::Path);
    let segments = split_path(text);
    if has_empty_segment(segments) {
        Err(LexErrorView::EmptySegment(text))
    } else {
        Ok(
            (
                TokenView::Symbol(SymbolView { head: segments.first(), tail: segments.skip(1) }),
                run_end(s, i, Class::Path),
            ),
        )
    }
}

/// What stands at `i`, a position before the end of the text: a token or
/// nothing (white space, a comment), and the position after it. The rules
/// apply in this order; a character that none of them takes is an error.
pub open spec fn lexeme(s: Seq<char>, i: int) -> Result<(Option<TokenView>, int), LexErrorView> {
    let c = s[i];
    if is_whitespace(c) {
        Ok((None, i + 1))
    } else if is_open_bracket(c) {
        Ok((Some(TokenView::Open(c)), i + 1))
    } else if is_close_bracket(c) {
        Ok((Some(TokenView::Close(c)), i + 1))
    } else if c == '"' {
        some_token(string_token(s, i + 1))
    } else if c == ':' {
        some_token(keyword_token(s, i + 1))
    } else if c == '\\' {
        some_token(char_token(s, i + 1))
    } else if c == ';' {
        Ok((None, comment_end(s, i + 1)))
    } else if starts_number(s, i) {
        some_token(number_token(s, i + 1, c))
    } else if is_symbol_char(c) {
        some_token(symbol_token(s, i + 1, c))
    } else {
        Err(LexErrorView::UnexpectedChar(c))
    }
}

/// A scan as a lexeme that is a token.
pub open spec fn some_token(scan: Scan) -> Result<(Option<TokenView>, int), LexErrorView> {
    match scan {
        Ok((token, end)) => Ok((Some(token), end)),
        Err(e) => Err(e),
    }
}

/// `token`, if there is one, put in front of the tokens that follow.
pub open spec fn followed_by(
    token: Option<TokenView>,
    rest: Result<Seq<TokenView>, LexErrorView>,
) -> Result<Seq<TokenView>, LexErrorView> {
    match rest {
        Ok(tokens) => Ok(
            match token {
                Some(t) => seq![t] + tokens,
                None => tokens,
            },
        ),
        Err(e) => Err(e),
    }
}

/// The tokens of `s` from position `i` on, or the first lexical error.
pub open spec fn tokenize_from(s: Seq<char>, i: int) -> Result<Seq<TokenView>, LexErrorView>
    decreases s.len() - i,
{
    if !(0 <= i < s.len()) {
        Ok(Seq::empty())
    } else {
        match lexeme(s, i) {
            Ok((token, end)) => {
                proof {
                    lemma_lexeme_advances(s, i);
                }
                followed_by(token, tokenize_from(s, end))
            },
            Err(e) => Err(e),
        }
    }
}

/// The tokens of the text `s`, in source order, or the first lexical error
/// met from left to right.
pub open spec fn tokenize(s: Seq<char>) -> Result<Seq<TokenView>, LexErrorView> {
    tokenize_from(s, 0)
}

/// A string literal ends after where its body begins, and inside the text.
pub proof fn lemma_string_literal_advances(s: Seq<char>, i: int)
    requires
        0 <= i <= s.len(),
    ensures
        string_literal(s, i) matches Ok((_, end)) ==> i < end <= s.len(),
    decreases s.len() - i,
{
    if i < s.len() && s[i] != '"' {
        if s[i] == '\\' {
            if i + 1 < s.len() && unescape(s[i + 1]) is Some {
                lemma_string_literal_advances(s, i + 2);
            }
        } else {
            lemma_string_literal_advances(s, i + 1);
        }
    }
}

/// Every lexeme takes at least one character, and none goes past the end.
pub proof fn lemma_lexeme_advances(s: Seq<char>, i: int)
    requires
        0 <= i < s.len(),
    ensures
        lexeme(s, i) matches Ok((_, end)) ==> i < end <= s.len(),
{
    lemma_string_literal_advances(s, i + 1);
    lemma_run_end(s, i + 1, Class::Keyword);
    lemma_run_end(s, i + 1, Class::Name);
    lemma_run_end(s, i + 1, Class::Comment);
    lemma_run_end(s, i + 1, Class::Numeric);
    lemma_run_end(s, i + 1, Class::Path);
}

/// The segments of a path hold the characters of the path that are no dots:
/// where the path is made of the symbol alphabet and dots, its segments are
/// made of the symbol alphabet.
pub proof fn lemma_split_path_keeps_the_alphabet(text: Seq<char>)
    requires
        forall|i: int| 0 <= i < text.len() ==> Class::Path.contains(#[trigger] text[i]),
    ensures
        split_path(text).len() > 0,
        forall|k: int, j: int|
            0 <= k < split_path(text).len() && 0 <= j < split_path(text)[k].len()
                ==> is_symbol_char(#[trigger] split_path(text)[k][j]),
    decreases text.len(),
{
    if text.len() > 0 {
        let shorter = text.drop_last();
        assert forall|i: int| 0 <= i < shorter.len() implies Class::Path.contains(
            #[trigger] shorter[i],
        ) by {
            assert(shorter[i] == text[i]);
        }
        lemma_split_path_keeps_the_alphabet(shorter);
        assert(Class::Path.contains(text[text.len() - 1]));
    }
}

/// The token of a lexeme is well formed.
pub proof fn lemma_lexeme_well_formed(s: Seq<char>, i: int)
    requires
        0 <= i < s.len(),
    ensures
        lexeme(s, i) matches Ok((Some(token), _)) ==> token.well_formed(),
{
    let c = s[i];
    lemma_run_end(s, i + 1, Class::Keyword);
    lemma_run_end(s, i + 1, Class::Path);
    if lexeme(s, i) is Ok && is_symbol_char(c) && !is_whitespace(c) && !is_open_bracket(c)
        && !is_close_bracket(c) && c != '"' && c != ':' && c != '\\' && c != ';' && !starts_number(
        s,
        i,
    ) {
        let text = run_text(s, i + 1, c, Class::Path);
        assert forall|k: int| 0 <= k < text.len() implies Class::Path.contains(
            #[trigger] text[k],
        ) by {
            if k > 0 {
                assert(text[k] == s[i + k]);
            }
        }
        lemma_split_path_keeps_the_alphabet(text);
        let segments = split_path(text);
        let symbol = SymbolView { head: segments.first(), tail: segments.skip(1) };
        assert(symbol.segments() =~= segments);
        assert(!has_empty_segment(segments));
        assert forall|k: int| 0 <= k < symbol.segments().len() implies is_segment(
            #[trigger] symbol.segments()[k],
        ) by {
            assert(segments[k].len() > 0);
        }
    }
}

/// Every token that the tokenizer hands out is well formed.
pub proof fn lemma_tokens_well_formed(s: Seq<char>, i: int)
    requires
        0 <= i <= s.len(),
    ensures
        tokenize_from(s, i) matches Ok(tokens) ==> forall|k: int|
            0 <= k < tokens.len() ==> (#[trigger] tokens[k]).well_formed(),
    decreases s.len() - i,
{
    if i < s.len() {
        if let Ok((token, end)) = lexeme(s, i) {
            lemma_lexeme_advances(s, i);
            lemma_lexeme_well_formed(s, i);
            lemma_tokens_well_formed(s, end);
            if let Ok(rest) = tokenize_from(s, end) {
                if let Some(t) = token {
                    let tokens = seq![t] + rest;
                    assert forall|k: int| 0 <= k < tokens.len() implies (
                    #[trigger] tokens[k]).well_formed() by {
                        if k > 0 {
                            assert(tokens[k] == rest[k - 1]);
                        }
                    }
                }
            }
        }
    }
}

} // verus!
