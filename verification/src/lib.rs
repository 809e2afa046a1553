//! A reader for a small Lisp-like surface syntax.
//!
//! Source text is first cut into tokens by the [`lexer`], and the tokens are
//! then read into a tree of forms by the [`parser`]. Both stages are pure:
//! what they return is fixed by spec functions over sequences of characters
//! and of tokens, and every executable function is proved against them.
pub mod lexer;
pub mod parser;
pub mod text;
pub mod theorems;
