//! The lexical units of the surface syntax.
use vstd::prelude::*;
use vstd::string::StringExecFns;
use crate::lexer::alphabet::{is_close_bracket, is_keyword_char, is_open_bracket};
use crate::lexer::number::is_float_literal;
use crate::lexer::symbol::{Symbol, SymbolView};

verus! {

/// One lexical unit.
///
/// A floating-point literal is kept as its decimal text (an optional `-`,
/// digits, and exactly one `.`), so that nothing is rounded here.
#[derive(Debug, PartialEq, Eq)]
pub enum Token {
    Integer(i64),
    Float(String),
    String(String),
    Char(char),
    Symbol(Symbol),
    Keyword(String),
    Open(char),
    Close(char),
}

/// A token as sequences of characters.
pub enum TokenView {
    Integer(i64),
    Float(Seq<char>),
    String(Seq<char>),
    Char(char),
    Symbol(SymbolView),
    Keyword(Seq<char>),
    Open(char),
    Close(char),
}

impl TokenView {
    /// What holds of every token that the tokenizer hands out: a symbol has
    /// no empty segment and is made of the symbol alphabet, a keyword is a
    /// non-empty word of the keyword alphabet, the text of a floating-point
    /// number is a floating-point literal, and a bracket is one of the six.
    pub open spec fn well_formed(self) -> bool {
        match self {
            TokenView::Symbol(symbol) => symbol.well_formed(),
            TokenView::Keyword(name) => name.len() > 0 && forall|i: int|
                0 <= i < name.len() ==> is_keyword_char(#[trigger] name[i]),
            TokenView::Float(text) => is_float_literal(text),
            TokenView::Open(bracket) => is_open_bracket(bracket),
            TokenView::Close(bracket) => is_close_bracket(bracket),
            _ => true,
        }
    }
}

impl TokenView {
    /// The token in a few words, for a message: a bracket as it is written,
    /// any other token by its kind.
    pub open spec fn description(self) -> Seq<char> {
        match self {
            TokenView::Integer(_) => "an integer"@,
            TokenView::Float(_) => "a floating-point number"@,
            TokenView::String(_) => "a string"@,
            TokenView::Char(_) => "a character"@,
            TokenView::Symbol(_) => "a symbol"@,
            TokenView::Keyword(_) => "a keyword"@,
            TokenView::Open(bracket) => "`"@.push(bracket) + "`"@,
            TokenView::Close(bracket) => "`"@.push(bracket) + "`"@,
        }
    }
}

impl View for Token {
    type V = TokenView;

    open spec fn view(&self) -> TokenView {
        match self {
            Token::Integer(i) => TokenView::Integer(*i),
            Token::Float(text) => TokenView::Float(text@),
            Token::String(text) => TokenView::String(text@),
            Token::Char(c) => TokenView::Char(*c),
            Token::Symbol(symbol) => TokenView::Symbol(symbol@),
            Token::Keyword(name) => TokenView::Keyword(name@),
            Token::Open(bracket) => TokenView::Open(*bracket),
            Token::Close(bracket) => TokenView::Close(*bracket),
        }
    }
}

/// The views of a sequence of tokens, in order.
pub open spec fn token_views(tokens: Seq<Token>) -> Seq<TokenView> {
    Seq::new(tokens.len(), |i: int| tokens[i]@)
}

impl Token {
    /// The token in a few words, for a message.
    pub fn description(&self) -> (text: String)
        ensures
            text@ == self@.description(),
    {
        match self {
            Token::Integer(_) => String::from_str("an integer"),
            Token::Float(_) => String::from_str("a floating-point number"),
            Token::String(_) => String::from_str("a string"),
            Token::Char(_) => String::from_str("a character"),
            Token::Symbol(_) => String::from_str("a symbol"),
            Token::Keyword(_) => String::from_str("a keyword"),
            Token::Open(bracket) => {
                let mut text = String::from_str("`");
                text.push(*bracket);
                text.append("`");
                text
            },
            Token::Close(bracket) => {
                let mut text = String::from_str("`");
                text.push(*bracket);
                text.append("`");
                text
            },
        }
    }
}

impl Clone for Token {
    fn clone(&self) -> (copy: Self)
        ensures
            copy@ == self@,
    {
        match self {
            Token::Integer(i) => Token::Integer(*i),
            Token::Float(text) => Token::Float(text.clone()),
            Token::String(text) => Token::String(text.clone()),
            Token::Char(c) => Token::Char(*c),
            Token::Symbol(symbol) => Token::Symbol(symbol.clone()),
            Token::Keyword(name) => Token::Keyword(name.clone()),
            Token::Open(bracket) => Token::Open(*bracket),
            Token::Close(bracket) => Token::Close(*bracket),
        }
    }
}

} // verus!
