//! The tokenizer: from source text to a sequence of tokens.
//!
//! [`lex`] cuts a whole text into tokens. What it returns is
//! [`grammar::tokenize`] of the text's characters. The functions that read
//! one kind of token each work on a slice of characters and a position in it,
//! and hand back the token with the position after it. [`Lexer`] is a cursor
//! over the characters of a text, with the line and column it stands on.
use vstd::prelude::*;
use vstd::slice::slice_subrange;
use vstd::string::StringExecFns;
use crate::lexer::alphabet::{
    is_close_bracket, is_digit, is_open_bracket, is_symbol_char, is_whitespace, lemma_run_end, run,
    run_end, scan_run, unescape, Class,
};
use crate::lexer::error::{LexError, LexErrorView};
use crate::lexer::grammar::{
    char_token, followed_by, has_empty_segment, keyword_token, lemma_lexeme_advances,
    lemma_tokens_well_formed, lexeme, number_token, prepend, run_text, split_path, string_literal,
    string_token, symbol_token, tokenize, tokenize_from, Scan,
};
use crate::lexer::number::{is_float, parse_integer};
use crate::lexer::symbol::{string_views, Symbol};
use crate::lexer::token::{token_views, Token, TokenView};
use crate::text::{chars_of, string_of};

pub mod alphabet;
pub mod error;
pub mod grammar;
pub mod number;
pub mod symbol;
pub mod token;

verus! {

/// What a function that reads one token returned, as the grammar states it.
pub open spec fn scan_view(r: Result<(Token, usize), LexError>) -> Scan {
    match r {
        Ok((token, end)) => Ok((token@, end as int)),
        Err(e) => Err(e@),
    }
}

/// What the tokenizer returned, as the grammar states it.
pub open spec fn lex_view(r: Result<Vec<Token>, LexError>) -> Result<Seq<TokenView>, LexErrorView> {
    match r {
        Ok(tokens) => Ok(token_views(tokens@)),
        Err(e) => Err(e@),
    }
}

/// `read` put in front of the rest of a string literal.
spec fn string_after(
    read: Seq<char>,
    rest: Result<(Seq<char>, int), LexErrorView>,
) -> Result<(Seq<char>, int), LexErrorView> {
    match rest {
        Ok((text, end)) => Ok((read + text, end)),
        Err(e) => Err(e),
    }
}

/// `read` put in front of the tokens that follow.
spec fn tokens_after(
    read: Seq<TokenView>,
    rest: Result<Seq<TokenView>, LexErrorView>,
) -> Result<Seq<TokenView>, LexErrorView> {
    match rest {
        Ok(tokens) => Ok(read + tokens),
        Err(e) => Err(e),
    }
}

proof fn lemma_string_after_push(
    read: Seq<char>,
    c: char,
    rest: Result<(Seq<char>, int), LexErrorView>,
)
    ensures
        string_after(read, prepend(c, rest)) == string_after(read.push(c), rest),
{
    if let Ok((text, end)) = rest {
        assert(read + (seq![c] + text) =~= read.push(c) + text);
    }
}

proof fn lemma_tokens_after_push(
    read: Seq<TokenView>,
    token: Option<TokenView>,
    rest: Result<Seq<TokenView>, LexErrorView>,
)
    ensures
        tokens_after(read, followed_by(token, rest)) == match token {
            Some(t) => tokens_after(read.push(t), rest),
            None => tokens_after(read, rest),
        },
{
    if let Ok(tokens) = rest {
        if let Some(t) = token {
            assert(read + (seq![t] + tokens) =~= read.push(t) + tokens);
        }
    }
}

/// Reads the string literal whose body begins at `start`, right after the
/// opening quote.
pub fn lex_string(source: &[char], start: usize) -> (r: Result<(Token, usize), LexError>)
    ensures
        scan_view(r) == string_token(source@, start as int),
{
    let mut text = String::new();
    let mut i: usize = start;
    assert(string_after(text@, string_literal(source@, i as int)) == string_literal(
        source@,
        start as int,
    )) by {
        if let Ok((t, end)) = string_literal(source@, i as int) {
            assert(text@ + t =~= t);
        }
    }
    loop
        invariant
            start <= i,
            string_literal(source@, start as int) == string_after(
                text@,
                string_literal(source@, i as int),
            ),
        decreases source@.len() - i,
    {
        if i >= source.len() {
            return Err(LexError::UnterminatedString);
        }
        let c = source[i];
        if c == '"' {
            assert(text@ + Seq::<char>::empty() =~= text@);
            return Ok((Token::String(text), i + 1));
        }
        if c == '\\' {
            if i + 1 >= source.len() {
                return Err(LexError::UnterminatedString);
            }
            let escaped = source[i + 1];
            match unescape(escaped) {
                Some(e) => {
                    proof {
                        lemma_string_after_push(text@, e, string_literal(source@, i + 2));
                    }
                    text.push(e);
                    i += 2;
                },
                None => {
                    return Err(LexError::IllegalEscape(escaped));
                },
            }
        } else {
            proof {
                lemma_string_after_push(text@, c, string_literal(source@, i + 1));
            }
            text.push(c);
            i += 1;
        }
    }
}

/// The run of `class` that starts at `start`, as a string, and where it ends.
fn take_run(source: &[char], start: usize, class: Class) -> (r: (String, usize))
    ensures
        r.0@ == run(source@, start as int, class),
        r.1 == run_end(source@, start as int, class),
        start <= r.1,
        start <= source@.len() ==> r.1 <= source@.len(),
        start > source@.len() ==> r.1 == start,
{
    let end = scan_run(source, start, class);
    (string_of(source, start, end), end)
}

/// Reads the keyword whose name begins at `start`, right after the `:`.
pub fn lex_keyword(source: &[char], start: usize) -> (r: Result<(Token, usize), LexError>)
    ensures
        scan_view(r) == keyword_token(source@, start as int),
{
    let (name, end) = take_run(source, start, Class::Keyword);
    if end == start {
        assert(name@.len() == 0);
        Err(LexError::EmptyKeyword)
    } else {
        Ok((Token::Keyword(name), end))
    }
}

/// Reads the character literal whose text begins at `start`, right after
/// the `\`.
pub fn lex_char(source: &[char], start: usize) -> (r: Result<(Token, usize), LexError>)
    ensures
        scan_view(r) == char_token(source@, start as int),
{
    let (name, end) = take_run(source, start, Class::Name);
    let next: usize = if end < source.len() {
        end + 1
    } else {
        end
    };
    let c = if name == String::from_str("newline") {
        '\n'
    } else if name == String::from_str("return") {
        '\r'
    } else if name == String::from_str("tab") {
        '\t'
    } else if name == String::from_str("space") {
        ' '
    } else if end - start == 1 && start < source.len() {
        source[start]
    } else {
        proof {
            if start <= source@.len() {
                lemma_run_end(source@, start as int, Class::Name);
            }
        }
        return Err(LexError::InvalidChar(name));
    };
    Ok((Token::Char(c), next))
}

/// The text of the token that begins with `first` and goes on at `start`
/// with the longest run of `class`, and where that run ends.
fn collect_run(source: &[char], start: usize, first: char, class: Class) -> (r: (Vec<char>, usize))
    ensures
        r.0@ == run_text(source@, start as int, first, class),
        r.1 == run_end(source@, start as int, class),
{
    let end = scan_run(source, start, class);
    let mut text: Vec<char> = Vec::new();
    text.push(first);
    let mut i: usize = start;
    assert(text@ =~= seq![first]);
    while i < end
        invariant
            start <= i <= end,
            start < end ==> end <= source@.len(),
            text@ =~= seq![first] + if start <= source@.len() {
                source@.subrange(start as int, i as int)
            } else {
                Seq::empty()
            },
        decreases end - i,
    {
        text.push(source[i]);
        i += 1;
    }
    assert(text@ =~= run_text(source@, start as int, first, class));
    (text, end)
}

/// Reads the number that begins with `first` and goes on at `start`.
pub fn lex_number(source: &[char], start: usize, first: char) -> (r: Result<
    (Token, usize),
    LexError,
>)
    ensures
        scan_view(r) == number_token(source@, start as int, first),
{
    let (text, end) = collect_run(source, start, first, Class::Numeric);
    let literal = string_of(text.as_slice(), 0, text.len());
    assert(literal@ == text@);
    if is_float(text.as_slice()) {
        Ok((Token::Float(literal), end))
    } else {
        match parse_integer(text.as_slice()) {
            Some(value) => Ok((Token::Integer(value), end)),
            None => Err(LexError::InvalidNumber(literal)),
        }
    }
}

/// Cuts `text` at its dots.
fn split_segments(text: &[char]) -> (segments: Vec<String>)
    ensures
        string_views(segments@) == split_path(text@),
        segments@.len() > 0,
{
    let mut segments: Vec<String> = Vec::new();
    let mut current = String::new();
    let mut i: usize = 0;
    assert(text@.take(0) =~= Seq::empty());
    assert(string_views(segments@).push(current@) =~= seq![Seq::<char>::empty()]);
    while i < text.len()
        invariant
            i <= text@.len(),
            split_path(text@.take(i as int)) == string_views(segments@).push(current@),
        decreases text@.len() - i,
    {
        let ghost before = string_views(segments@).push(current@);
        let c = text[i];
        assert(text@.take(i + 1).drop_last() =~= text@.take(i as int));
        assert(text@.take(i + 1).last() == c);
        if c == '.' {
            segments.push(current);
            current = String::new();
            assert(string_views(segments@).push(current@) =~= before.push(Seq::empty()));
        } else {
            current.push(c);
            assert(string_views(segments@).push(current@) =~= before.drop_last().push(
                before.last().push(c),
            ));
        }
        i += 1;
    }
    assert(text@.take(i as int) =~= text@);
    segments.push(current);
    assert(string_views(segments@) =~= split_path(text@));
    segments
}

/// Whether one of the segments is empty.
fn any_empty(segments: &Vec<String>) -> (r: bool)
    ensures
        r == has_empty_segment(string_views(segments@)),
{
    let mut i: usize = 0;
    while i < segments.len()
        invariant
            i <= segments@.len(),
            forall|k: int| 0 <= k < i ==> (#[trigger] string_views(segments@)[k]).len() > 0,
        decreases segments@.len() - i,
    {
        if segments[i].as_str().is_empty() {
            assert(string_views(segments@)[i as int].len() == 0);
            return true;
        }
        i += 1;
    }
    false
}

/// What reading a symbol returned, as the grammar states it.
pub open spec fn symbol_view(r: Result<(Symbol, usize), LexError>) -> Scan {
    match r {
        Ok((symbol, end)) => Ok((TokenView::Symbol(symbol@), end as int)),
        Err(e) => Err(e@),
    }
}

/// Reads the symbol that begins with `first` and goes on at `start`.
pub fn lex_symbol(source: &[char], start: usize, first: char) -> (r: Result<
    (Symbol, usize),
    LexError,
>)
    ensures
        symbol_view(r) == symbol_token(source@, start as int, first),
{
    let (text, end) = collect_run(source, start, first, Class::Path);
    let mut segments = split_segments(text.as_slice());
    if any_empty(&segments) {
        let path = string_of(text.as_slice(), 0, text.len());
        assert(path@ == text@);
        return Err(LexError::EmptySegment(path));
    }
    let ghost all = string_views(segments@);
    let head = segments.remove(0);
    assert(string_views(segments@) =~= all.skip(1));
    Ok((Symbol { head, tail: segments }, end))
}

/// Cuts `source` into tokens.
pub fn lex_chars(source: &[char]) -> (r: Result<Vec<Token>, LexError>)
    ensures
        lex_view(r) == tokenize(source@),
        r matches Ok(tokens) ==> forall|k: int|
            0 <= k < tokens@.len() ==> (#[trigger] tokens@[k])@.well_formed(),
{
    let mut tokens: Vec<Token> = Vec::new();
    let mut i: usize = 0;
    assert(tokens_after(token_views(tokens@), tokenize_from(source@, 0)) == tokenize(source@)) by {
        if let Ok(rest) = tokenize_from(source@, 0) {
            assert(token_views(tokens@) + rest =~= rest);
        }
    }
    while i < source.len()
        invariant
            i <= source@.len(),
            tokenize(source@) == tokens_after(
                token_views(tokens@),
                tokenize_from(source@, i as int),
            ),
        decreases source@.len() - i,
    {
        let c = source[i];
        let ghost read = token_views(tokens@);
        proof {
            lemma_lexeme_advances(source@, i as int);
            if let Ok((token, end)) = lexeme(source@, i as int) {
                lemma_tokens_after_push(read, token, tokenize_from(source@, end));
            }
        }
        let scan = if is_whitespace(c) {
            i += 1;
            continue ;
        } else if is_open_bracket(c) {
            Ok((Token::Open(c), i + 1))
        } else if is_close_bracket(c) {
            Ok((Token::Close(c), i + 1))
        } else if c == '"' {
            lex_string(source, i + 1)
        } else if c == ':' {
            lex_keyword(source, i + 1)
        } else if c == '\\' {
            lex_char(source, i + 1)
        } else if c == ';' {
            let end = scan_run(source, i + 1, Class::Comment);
            i = if end < source.len() {
                end + 1
            } else {
                end
            };
            continue ;
        } else if is_digit(c) || ((c == '-' || c == '.') && i + 1 < source.len() && is_digit(
            source[i + 1],
        )) {
            lex_number(source, i + 1, c)
        } else if is_symbol_char(c) {
            match lex_symbol(source, i + 1, c) {
                Ok((symbol, end)) => Ok((Token::Symbol(symbol), end)),
                Err(e) => Err(e),
            }
        } else {
            Err(LexError::UnexpectedChar(c))
        };
        match scan {
            Ok((token, end)) => {
                assert(lexeme(source@, i as int) == Ok::<_, LexErrorView>((Some(token@), end as int)));
                tokens.push(token);
                assert(token_views(tokens@) =~= read.push(token@));
                i = end;
            },
            Err(e) => {
                return Err(e);
            },
        }
    }
    assert(token_views(tokens@) + Seq::<TokenView>::empty() =~= token_views(tokens@));
    proof {
        lemma_tokens_well_formed(source@, 0);
        assert forall|k: int| 0 <= k < tokens@.len() implies (#[trigger] tokens@[k])@.well_formed() by {
            assert(token_views(tokens@)[k] == tokens@[k]@);
        }
    }
    Ok(tokens)
}

/// Cuts the text `source` into tokens: the tokens in source order, or the
/// first lexical error met from left to right.
pub fn lex(source: &str) -> (r: Result<Vec<Token>, LexError>)
    ensures
        lex_view(r) == tokenize(source@),
        r matches Ok(tokens) ==> forall|k: int|
            0 <= k < tokens@.len() ==> (#[trigger] tokens@[k])@.well_formed(),
{
    let chars = chars_of(source);
    lex_chars(chars.as_slice())
}

/// A place in a text: a line and a column, both counted from one.
#[derive(Clone, Copy, Debug, PartialEq, Eq, Structural)]
pub struct Position {
    pub line: usize,
    pub column: usize,
}

/// A cursor over the characters of a text.
///
/// The cursor stands on one character, the current one, and has taken a
/// number of characters from the text, the current one being the last that it
/// took. On an empty text there is nothing to stand on, and the current
/// character reads as `\0`.
pub struct Lexer {
    source: Vec<char>,
    index: usize,
    next: usize,
    line: usize,
    column: usize,
}

/// The state of a [`Lexer`].
pub struct LexerView {
    /// The characters of the text.
    pub source: Seq<char>,
    /// The index of the current character.
    pub index: nat,
    /// How many characters have been taken from the text.
    pub next: nat,
    /// The line of the current character.
    pub line: nat,
    /// The column of the current character.
    pub column: nat,
}

impl LexerView {
    /// What holds of the state of every cursor: the current character is the
    /// last one taken, unless the text is empty or none was left to take when
    /// the cursor was asked to move further; and the line and the column are
    /// counted from one and are no more than the number of characters taken.
    pub open spec fn well_formed(self) -> bool {
        &&& self.next <= self.source.len()
        &&& self.source.len() == 0 ==> self.index == 0
        &&& self.source.len() > 0 ==> self.index < self.next
        &&& 1 <= self.line
        &&& 1 <= self.column
        &&& self.next > 0 ==> self.line <= self.next && self.column <= self.next
        &&& self.next == 0 ==> self.line == 1 && self.column == 1
    }

    /// The cursor on the first character of `source`.
    pub open spec fn start(source: Seq<char>) -> LexerView {
        LexerView {
            source,
            index: 0,
            next: if source.len() > 0 {
                1
            } else {
                0
            },
            line: 1,
            column: 1,
        }
    }

    /// The current character.
    pub open spec fn current(self) -> char {
        if self.index < self.source.len() {
            self.source[self.index as int]
        } else {
            '\0'
        }
    }

    /// The character after the last one taken, if the text has one.
    pub open spec fn peek(self) -> Option<char> {
        if self.next < self.source.len() {
            Some(self.source[self.next as int])
        } else {
            None
        }
    }

    /// The cursor one character further on. A newline that the cursor moves
    /// onto begins a line; any other character is one column further. At the
    /// end of the text the cursor stays where it is.
    pub open spec fn advance(self) -> LexerView {
        match self.peek() {
            Some(c) => LexerView {
                source: self.source,
                index: self.next,
                next: self.next + 1,
                line: if c == '\n' {
                    self.line + 1
                } else {
                    self.line
                },
                column: if c == '\n' {
                    1
                } else {
                    self.column + 1
                },
            },
            None => self,
        }
    }

    /// Whether the text has `n` more characters to take.
    pub open spec fn has(self, n: nat) -> bool {
        self.next + n <= self.source.len()
    }

    /// The cursor `n` characters further on, `n` columns to the right on the
    /// same line. Where the text has fewer than `n` characters left, the
    /// cursor stays on its character and the rest of the text counts as
    /// taken.
    pub open spec fn advancen(self, n: nat) -> LexerView {
        if n == 0 {
            self
        } else if self.has(n) {
            LexerView {
                source: self.source,
                index: (self.next + n - 1) as nat,
                next: self.next + n,
                line: self.line,
                column: self.column + n,
            }
        } else {
            LexerView { next: self.source.len(), ..self }
        }
    }

    /// The text from the current character up to the `n`-th character not
    /// yet taken; up to the end where there are fewer than `n` of those, and
    /// nothing for `n == 0`.
    pub open spec fn currentn(self, n: nat) -> Seq<char> {
        let end = if n == 0 {
            self.index
        } else if self.has(n) {
            (self.next + n - 1) as nat
        } else {
            self.source.len()
        };
        self.source.subrange(self.index as int, end as int)
    }

    /// The text from the current character on.
    pub open spec fn rest(self) -> Seq<char> {
        self.source.subrange(self.index as int, self.source.len() as int)
    }

    /// The cursor after it has advanced until the text is used up.
    pub open spec fn exhaust(self) -> LexerView
        decreases self.source.len() - self.next,
    {
        if self.next < self.source.len() {
            self.advance().exhaust()
        } else {
            self
        }
    }
}

impl View for Lexer {
    type V = LexerView;

    closed spec fn view(&self) -> LexerView {
        LexerView {
            source: self.source@,
            index: self.index as nat,
            next: self.next as nat,
            line: self.line as nat,
            column: self.column as nat,
        }
    }
}

impl Lexer {
    #[verifier::type_invariant]
    spec fn well_formed(self) -> bool {
        self@.well_formed()
    }

    /// A cursor on the first character of `source`, at line 1 and column 1.
    pub fn new(source: &str) -> (lexer: Self)
        ensures
            lexer@ == LexerView::start(source@),
            lexer@.well_formed(),
    {
        let source = chars_of(source);
        let next: usize = if source.len() > 0 {
            1
        } else {
            0
        };
        Lexer { source, index: 0, next, line: 1, column: 1 }
    }

    /// Moves to the next character and returns it, or returns nothing and
    /// stays where it is at the end of the text.
    pub fn advance(&mut self) -> (c: Option<char>)
        ensures
            c == old(self)@.peek(),
            final(self)@ == old(self)@.advance(),
            final(self)@.well_formed(),
    {
        proof {
            use_type_invariant(&*self);
        }
        if self.next < self.source.len() {
            let c = self.source[self.next];
            self.next += 1;
            self.index = self.next - 1;
            if c == '\n' {
                self.line += 1;
                self.column = 1;
            } else {
                self.column += 1;
            }
            Some(c)
        } else {
            None
        }
    }

    /// Moves `n` characters further on and says whether the text had as
    /// many.
    pub fn advancen(&mut self, n: usize) -> (moved: bool)
        ensures
            moved == (n == 0 || old(self)@.has(n as nat)),
            final(self)@ == old(self)@.advancen(n as nat),
            final(self)@.well_formed(),
    {
        proof {
            use_type_invariant(&*self);
        }
        if n == 0 {
            return true;
        }
        if n <= self.source.len() - self.next {
            self.next += n;
            self.index = self.next - 1;
            self.column += n;
            true
        } else {
            self.next = self.source.len();
            false
        }
    }

    /// The current character.
    pub fn current(&self) -> (c: char)
        ensures
            c == self@.current(),
    {
        proof {
            use_type_invariant(self);
        }
        if self.index < self.source.len() {
            self.source[self.index]
        } else {
            '\0'
        }
    }

    /// The text from the current character up to the `n`-th character not
    /// yet taken.
    pub fn currentn(&self, n: usize) -> (text: String)
        ensures
            text@ == self@.currentn(n as nat),
    {
        proof {
            use_type_invariant(self);
        }
        let end: usize = if n == 0 {
            self.index
        } else if n <= self.source.len() - self.next {
            self.next + (n - 1)
        } else {
            self.source.len()
        };
        string_of(self.source.as_slice(), self.index, end)
    }

    /// The next character, without moving.
    pub fn peek(&self) -> (c: Option<char>)
        ensures
            c == self@.peek(),
    {
        proof {
            use_type_invariant(self);
        }
        if self.next < self.source.len() {
            Some(self.source[self.next])
        } else {
            None
        }
    }

    /// The line and column of the current character.
    pub fn position(&self) -> (position: Position)
        ensures
            position.line == self@.line,
            position.column == self@.column,
    {
        Position { line: self.line, column: self.column }
    }

    /// Cuts the text from the current character on into tokens, and uses the
    /// text up: the cursor ends where advancing one character at a time
    /// takes it.
    pub fn lex(&mut self) -> (r: Result<Vec<Token>, LexError>)
        ensures
            lex_view(r) == tokenize(old(self)@.rest()),
            r matches Ok(tokens) ==> forall|k: int|
                0 <= k < tokens@.len() ==> (#[trigger] tokens@[k])@.well_formed(),
            final(self)@ == old(self)@.exhaust(),
            final(self)@.well_formed(),
    {
        proof {
            use_type_invariant(&*self);
        }
        let r = lex_chars(slice_subrange(self.source.as_slice(), self.index, self.source.len()));
        let ghost start = self@;
        loop
            invariant
                self@.exhaust() == start.exhaust(),
            ensures
                self@ == start.exhaust(),
            decreases self@.source.len() - self@.next,
        {
            proof {
                use_type_invariant(&*self);
            }
            if self.advance().is_none() {
                break ;
            }
        }
        proof {
            use_type_invariant(&*self);
        }
        r
    }
}

} // verus!
