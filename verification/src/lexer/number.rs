//! Decimal literals: which texts are numbers, and what integers are worth.
use vstd::prelude::*;
use crate::lexer::alphabet::is_digit;

verus! {

/// What a decimal digit is worth.
pub open spec fn digit_value(c: char) -> int {
    c as int - '0' as int
}

/// The number that a sequence of decimal digits denotes; the empty sequence
/// denotes zero.
pub open spec fn decimal_value(digits: Seq<char>) -> int
    decreases digits.len(),
{
    if digits.len() == 0 {
        0
    } else {
        10 * decimal_value(digits.drop_last()) + digit_value(digits.last())
    }
}

/// Every character of `s` is a decimal digit.
pub open spec fn all_digits(s: Seq<char>) -> bool {
    forall|i: int| 0 <= i < s.len() ==> is_digit(#[trigger] s[i])
}

/// How many times `.` occurs in `s`.
pub open spec fn dot_count(s: Seq<char>) -> nat
    decreases s.len(),
{
    if s.len() == 0 {
        0
    } else {
        dot_count(s.drop_last()) + if s.last() == '.' {
            1nat
        } else {
            0nat
        }
    }
}

/// The text begins with a minus sign.
pub open spec fn is_negative(text: Seq<char>) -> bool {
    text.len() > 0 && text[0] == '-'
}

/// The text without its minus sign, if it has one.
pub open spec fn magnitude(text: Seq<char>) -> Seq<char> {
    if is_negative(text) {
        text.skip(1)
    } else {
        text
    }
}

/// An integer literal: an optional `-` and then one or more digits.
pub open spec fn is_integer_literal(text: Seq<char>) -> bool {
    magnitude(text).len() > 0 && all_digits(magnitude(text))
}

/// The number that an integer literal denotes.
pub open spec fn integer_value(text: Seq<char>) -> int {
    if is_negative(text) {
        -decimal_value(magnitude(text))
    } else {
        decimal_value(magnitude(text))
    }
}

/// The value of `text` as a 64-bit integer: that of an integer literal that
/// denotes a number within the range of `i64`, and nothing otherwise.
pub open spec fn integer_literal(text: Seq<char>) -> Option<i64> {
    if is_integer_literal(text) && i64::MIN <= integer_value(text) <= i64::MAX {
        Some(integer_value(text) as i64)
    } else {
        None
    }
}

/// A floating-point literal: an optional `-`, and then digits with exactly
/// one `.` before, between or after them. There is at least one digit.
pub open spec fn is_float_literal(text: Seq<char>) -> bool {
    &&& magnitude(text).len() >= 2
    &&& dot_count(magnitude(text)) == 1
    &&& forall|i: int|
        0 <= i < magnitude(text).len() ==> is_digit(#[trigger] magnitude(text)[i]) || magnitude(
            text,
        )[i] == '.'
}

/// The digits read so far are worth no more than all of them.
pub proof fn lemma_decimal_value_grows(digits: Seq<char>, k: int)
    requires
        all_digits(digits),
        0 <= k <= digits.len(),
    ensures
        0 <= decimal_value(digits.take(k)) <= decimal_value(digits),
    decreases digits.len(),
{
    if k == digits.len() {
        assert(digits.take(k) =~= digits);
        if digits.len() > 0 {
            assert(digits.drop_last() =~= digits.take(k - 1));
            lemma_decimal_value_grows(digits.drop_last(), k - 1);
            assert(digits.drop_last().take(k - 1) =~= digits.drop_last());
            assert(is_digit(digits[digits.len() - 1]));
        }
    } else {
        assert(digits.drop_last().take(k) =~= digits.take(k));
        lemma_decimal_value_grows(digits.drop_last(), k);
        assert(is_digit(digits[digits.len() - 1]));
    }
}

/// Among digits there is no `.`.
pub proof fn lemma_digits_hold_no_dot(digits: Seq<char>)
    requires
        all_digits(digits),
    ensures
        dot_count(digits) == 0,
    decreases digits.len(),
{
    if digits.len() > 0 {
        assert(is_digit(digits[digits.len() - 1]));
        assert forall|i: int| 0 <= i < digits.drop_last().len() implies is_digit(
            #[trigger] digits.drop_last()[i],
        ) by {
            assert(digits.drop_last()[i] == digits[i]);
        }
        lemma_digits_hold_no_dot(digits.drop_last());
    }
}

/// How many times `.` occurs in `text`.
pub fn count_dots(text: &[char]) -> (n: usize)
    ensures
        n == dot_count(text@),
{
    let mut n: usize = 0;
    let mut i: usize = 0;
    while i < text.len()
        invariant
            n <= i <= text@.len(),
            n == dot_count(text@.take(i as int)),
        decreases text@.len() - i,
    {
        assert(text@.take(i + 1).drop_last() =~= text@.take(i as int));
        if text[i] == '.' {
            n += 1;
        }
        i += 1;
    }
    assert(text@.take(i as int) =~= text@);
    n
}

/// Whether `text` is a floating-point literal.
pub fn is_float(text: &[char]) -> (r: bool)
    ensures
        r == is_float_literal(text@),
{
    let n = text.len();
    let first: usize = if n > 0 && text[0] == '-' {
        1
    } else {
        0
    };
    let ghost body = magnitude(text@);
    assert(body =~= text@.subrange(first as int, n as int));
    let mut dots: usize = 0;
    let mut i: usize = first;
    while i < n
        invariant
            first <= i <= n == text@.len(),
            body == magnitude(text@),
            body == text@.subrange(first as int, n as int),
            dots <= i - first,
            dots == dot_count(body.take(i - first)),
            forall|k: int| 0 <= k < i - first ==> is_digit(#[trigger] body[k]) || body[k] == '.',
        decreases n - i,
    {
        assert(body.take(i - first + 1).drop_last() =~= body.take(i - first));
        let c = text[i];
        assert(c == body[i - first]);
        if c == '.' {
            dots += 1;
        } else if !is_digit(c) {
            return false;
        }
        i += 1;
    }
    assert(body.take(i - first) =~= body);
    dots == 1 && n - first >= 2
}

/// The value of `text` as a 64-bit integer, if it is an integer literal
/// whose value fits.
pub fn parse_integer(text: &[char]) -> (r: Option<i64>)
    ensures
        r == integer_literal(text@),
{
    let n = text.len();
    let negative = n > 0 && text[0] == '-';
    let first: usize = if negative {
        1
    } else {
        0
    };
    if first == n {
        return None;
    }
    let ghost digits = magnitude(text@);
    assert(digits =~= text@.subrange(first as int, n as int));
    let limit: i128 = if negative {
        -0x8000_0000_0000_0000i128
    } else {
        -0x7fff_ffff_ffff_ffffi128
    };
    // The digits are summed up below zero, where both signs have room.
    let mut below: i128 = 0;
    let mut i: usize = first;
    while i < n
        invariant
            first <= i <= n == text@.len(),
            digits == magnitude(text@),
            digits == text@.subrange(first as int, n as int),
            negative == is_negative(text@),
            all_digits(digits.take(i - first)),
            below == -decimal_value(digits.take(i - first)),
            limit <= below <= 0,
            limit == if negative { i64::MIN as int } else { -i64::MAX },
        decreases n - i,
    {
        let ghost read = digits.take(i - first);
        let ghost more = digits.take(i - first + 1);
        assert(more.drop_last() =~= read);
        let c = text[i];
        assert(c == digits[i - first]);
        assert(more.last() == c);
        if !is_digit(c) {
            return None;
        }
        let d: i128 = (c as u32 - '0' as u32) as i128;
        let next: i128 = below * 10 - d;
        assert(next == -decimal_value(more));
        if next < limit {
            proof {
                if all_digits(digits) {
                    lemma_decimal_value_grows(digits, i - first + 1);
                }
            }
            return None;
        }
        assert forall|k: int| 0 <= k < more.len() implies is_digit(#[trigger] more[k]) by {
            if k < read.len() {
                assert(more[k] == read[k]);
            }
        }
        below = next;
        i += 1;
    }
    assert(digits.take(i - first) =~= digits);
    if negative {
        Some(below as i64)
    } else {
        Some((-below) as i64)
    }
}

} // verus!
