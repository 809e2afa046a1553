//! What the tokenizer reports when the text is not well formed.
use vstd::prelude::*;
use vstd::string::StringExecFns;

verus! {

/// A lexical error, with the character or the text that caused it.
#[derive(Debug, PartialEq, Eq)]
pub enum LexError {
    /// The input ended inside a string literal.
    UnterminatedString,
    /// Inside a string literal, `\` was followed by this character, which
    /// cannot be escaped.
    IllegalEscape(char),
    /// A `:` was followed by no character of the keyword alphabet.
    EmptyKeyword,
    /// The text after a `\` neither names a character nor is one.
    InvalidChar(String),
    /// The text is not a number: it has more than one `.`, no digit, or
    /// denotes an integer outside the 64-bit range.
    InvalidNumber(String),
    /// The symbol has an empty segment: it ends in `.` or holds `..`.
    EmptySegment(String),
    /// No token begins with this character.
    UnexpectedChar(char),
}

/// A lexical error as sequences of characters.
pub enum LexErrorView {
    UnterminatedString,
    IllegalEscape(char),
    EmptyKeyword,
    InvalidChar(Seq<char>),
    InvalidNumber(Seq<char>),
    EmptySegment(Seq<char>),
    UnexpectedChar(char),
}

impl LexErrorView {
    /// The error in words.
    pub open spec fn message(self) -> Seq<char> {
        match self {
            LexErrorView::UnterminatedString => "Unexpected end of input, expected `\"`"@,
            LexErrorView::IllegalEscape(c) => "Unexpected escape character: "@.push(c),
            LexErrorView::EmptyKeyword => "Empty keyword"@,
            LexErrorView::InvalidChar(text) => "Invalid character: "@ + text,
            LexErrorView::InvalidNumber(text) => "Invalid number: "@ + text,
            LexErrorView::EmptySegment(text) => "Empty segment in symbol: "@ + text,
            LexErrorView::UnexpectedChar(c) => "Unexpected character: "@.push(c),
        }
    }
}

impl View for LexError {
    type V = LexErrorView;

    open spec fn view(&self) -> LexErrorView {
        match self {
            LexError::UnterminatedString => LexErrorView::UnterminatedString,
            LexError::IllegalEscape(c) => LexErrorView::IllegalEscape(*c),
            LexError::EmptyKeyword => LexErrorView::EmptyKeyword,
            LexError::InvalidChar(text) => LexErrorView::InvalidChar(text@),
            LexError::InvalidNumber(text) => LexErrorView::InvalidNumber(text@),
            LexError::EmptySegment(text) => LexErrorView::EmptySegment(text@),
            LexError::UnexpectedChar(c) => LexErrorView::UnexpectedChar(*c),
        }
    }
}

impl Clone for LexError {
    fn clone(&self) -> (copy: Self)
        ensures
            copy@ == self@,
    {
        match self {
            LexError::UnterminatedString => LexError::UnterminatedString,
            LexError::IllegalEscape(c) => LexError::IllegalEscape(*c),
            LexError::EmptyKeyword => LexError::EmptyKeyword,
            LexError::InvalidChar(text) => LexError::InvalidChar(text.clone()),
            LexError::InvalidNumber(text) => LexError::InvalidNumber(text.clone()),
            LexError::EmptySegment(text) => LexError::EmptySegment(text.clone()),
            LexError::UnexpectedChar(c) => LexError::UnexpectedChar(*c),
        }
    }
}

impl LexError {
    /// The error in words, for a person to read.
    pub fn message(&self) -> (text: String)
        ensures
            text@ == self@.message(),
    {
        match self {
            LexError::UnterminatedString => String::from_str(
                "Unexpected end of input, expected `\"`",
            ),
            LexError::IllegalEscape(c) => {
                let mut text = String::from_str("Unexpected escape character: ");
                text.push(*c);
                text
            },
            LexError::EmptyKeyword => String::from_str("Empty keyword"),
            LexError::InvalidChar(name) => {
                let mut text = String::from_str("Invalid character: ");
                text.append(name.as_str());
                text
            },
            LexError::InvalidNumber(number) => {
                let mut text = String::from_str("Invalid number: ");
                text.append(number.as_str());
                text
            },
            LexError::EmptySegment(path) => {
                let mut text = String::from_str("Empty segment in symbol: ");
                text.append(path.as_str());
                text
            },
            LexError::UnexpectedChar(c) => {
                let mut text = String::from_str("Unexpected character: ");
                text.push(*c);
                text
            },
        }
    }
}

} // verus!
