//! Theorems about the tokenizer and the reader together.
use vstd::prelude::*;
use crate::lexer::alphabet::{is_digit, lemma_run_to_the_end, run_end, Class};
use crate::lexer::error::LexErrorView;
use crate::lexer::grammar::{lexeme, number_token, run_text, starts_number, tokenize, tokenize_from};
use crate::lexer::number::{
    integer_value, is_float_literal, is_integer_literal, is_negative, lemma_digits_hold_no_dot,
    magnitude,
};
use crate::lexer::token::{token_views, Token, TokenView};
use crate::parser::{read_form, read_view, Form, FormView, ParseError, ParseErrorView};

verus! {

/// The text of a number is, after its first character, made of digits and
/// dots alone, so the number takes all of it.
proof fn lemma_number_takes_the_text(text: Seq<char>)
    requires
        text.len() > 0,
        forall|i: int| 0 <= i < magnitude(text).len() ==> Class::Numeric.contains(
            #[trigger] magnitude(text)[i],
        ),
    ensures
        run_text(text, 1, text[0], Class::Numeric) == text,
        run_end(text, 1, Class::Numeric) == text.len(),
{
    assert forall|k: int| 1 <= k < text.len() implies Class::Numeric.contains(
        #[trigger] text[k],
    ) by {
        if is_negative(text) {
            assert(text[k] == magnitude(text)[k - 1]);
        } else {
            assert(text[k] == magnitude(text)[k]);
        }
    }
    lemma_run_to_the_end(text, 1, Class::Numeric);
    assert(run_text(text, 1, text[0], Class::Numeric) =~= text);
}

/// An integer written in decimal reads as its value: the text of an integer
/// literal whose value fits in 64 bits is one token, the integer of that
/// value, and that token is read as the integer form of the same value.
pub proof fn lemma_integer_text_reads_as_its_value(text: Seq<char>)
    requires
        is_integer_literal(text),
        i64::MIN <= integer_value(text) <= i64::MAX,
    ensures
        tokenize(text) == Ok::<_, LexErrorView>(
            seq![TokenView::Integer(integer_value(text) as i64)],
        ),
        read_form(seq![TokenView::Integer(integer_value(text) as i64)], 0) == Ok::<
            _,
            ParseErrorView,
        >((FormView::Integer(integer_value(text) as i64), 1int)),
{
    let digits = magnitude(text);
    let token = TokenView::Integer(integer_value(text) as i64);
    assert(is_digit(digits[0]));
    assert forall|i: int| 0 <= i < digits.len() implies Class::Numeric.contains(
        #[trigger] digits[i],
    ) by {
        assert(is_digit(digits[i]));
    }
    lemma_number_takes_the_text(text);
    lemma_digits_hold_no_dot(digits);
    if is_negative(text) {
        assert(text[1] == digits[0]);
    }
    assert(starts_number(text, 0));
    assert(number_token(text, 1, text[0]) == Ok::<_, LexErrorView>(
        (token, text.len() as int),
    ));
    assert(lexeme(text, 0) == Ok::<_, LexErrorView>(
        (Some(token), text.len() as int),
    ));
    assert(tokenize_from(text, text.len() as int) == Ok::<_, LexErrorView>(
        Seq::<TokenView>::empty(),
    ));
    assert(seq![token] + Seq::<TokenView>::empty() =~= seq![token]);
}

/// A floating-point number reads as it is written: a floating-point literal
/// that begins as a number does, with a digit or with `-` or `.` and then a
/// digit, is one token that holds its text, and that token is read as the
/// floating-point form of the same text.
pub proof fn lemma_float_text_reads_as_itself(text: Seq<char>)
    requires
        is_float_literal(text),
        starts_number(text, 0),
    ensures
        tokenize(text) == Ok::<_, LexErrorView>(
            seq![TokenView::Float(text)],
        ),
        read_form(seq![TokenView::Float(text)], 0) == Ok::<_, ParseErrorView>(
            (FormView::Float(text), 1int),
        ),
{
    let token = TokenView::Float(text);
    lemma_number_takes_the_text(text);
    assert(number_token(text, 1, text[0]) == Ok::<_, LexErrorView>(
        (token, text.len() as int),
    ));
    assert(lexeme(text, 0) == Ok::<_, LexErrorView>(
        (Some(token), text.len() as int),
    ));
    assert(tokenize_from(text, text.len() as int) == Ok::<_, LexErrorView>(
        Seq::<TokenView>::empty(),
    ));
    assert(seq![token] + Seq::<TokenView>::empty() =~= seq![token]);
}

/// Reading is repeatable. Two readings of structurally equal tokens from
/// the same position, each with what the reader is bound to return, give
/// structurally equal results: equal forms and equal positions after them,
/// or equal errors.
pub proof fn lemma_reading_again_gives_the_same(
    tokens: Seq<Token>,
    again: Seq<Token>,
    start: usize,
    first: Result<(Form, usize), ParseError>,
    second: Result<(Form, usize), ParseError>,
)
    requires
        token_views(tokens) == token_views(again),
        read_view(first) == read_form(token_views(tokens), start as int),
        read_view(second) == read_form(token_views(again), start as int),
    ensures
        read_view(first) == read_view(second),
        first matches Ok((form, end)) ==> second matches Ok((same, same_end)) && form@ == same@
            && end == same_end,
        first matches Err(error) ==> second matches Err(same) && error@ == same@,
{
}

} // verus!
