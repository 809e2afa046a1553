use rlispy::lexer::error::LexError;
use rlispy::lexer::number::{count_dots, is_float, parse_integer};
use rlispy::lexer::token::Token;
use rlispy::lexer::{lex, lex_number};

fn chars(text: &str) -> Vec<char> {
    text.chars().collect()
}

fn float_value(token: &Token) -> f64 {
    match token {
        Token::Float(text) => text.parse().unwrap(),
        other => panic!("not a float: {:?}", other),
    }
}

#[test]
fn parse_int_number() {
    let sources = vec![
        ("", '0', 0, ""),
        ("23", '1', 123, ""),
        ("21 foo", '3', 321, " foo"),
        ("123", '-', -123, ""),
    ];

    for (source, first, expected, rest) in sources {
        let source = chars(source);
        let (token, end) = lex_number(&source, 0, first).unwrap();
        assert_eq!(token, Token::Integer(expected));
        assert_eq!(source[end..].iter().collect::<String>(), rest);
    }
}

#[test]
fn parse_float_number() {
    let sources = vec![
        (".0", '0', 0.0, ""),
        ("23.", '1', 123.0, ""),
        ("21.foo", '3', 321.0, "foo"),
        ("123.456", '-', -123.456, ""),
        ("123bar", '.', 0.123, "bar"),
    ];

    for (source, first, expected, rest) in sources {
        let source = chars(source);
        let (token, end) = lex_number(&source, 0, first).unwrap();
        assert_eq!(float_value(&token), expected);
        assert_eq!(source[end..].iter().collect::<String>(), rest);
    }
}

#[test]
fn float_tokens_keep_their_text() {
    assert_eq!(lex("3.14"), Ok(vec![Token::Float("3.14".to_string())]));
    assert_eq!(lex("5."), Ok(vec![Token::Float("5.".to_string())]));
    assert_eq!(lex(".5"), Ok(vec![Token::Float(".5".to_string())]));
    assert_eq!(lex("-2.50"), Ok(vec![Token::Float("-2.50".to_string())]));
    assert_eq!(lex("-7."), Ok(vec![Token::Float("-7.".to_string())]));
}

#[test]
fn integers_of_every_size() {
    assert_eq!(lex("0"), Ok(vec![Token::Integer(0)]));
    assert_eq!(lex("-0"), Ok(vec![Token::Integer(0)]));
    assert_eq!(lex("007"), Ok(vec![Token::Integer(7)]));
    assert_eq!(lex("12345"), Ok(vec![Token::Integer(12345)]));
    assert_eq!(lex("9223372036854775807"), Ok(vec![Token::Integer(i64::MAX)]));
    assert_eq!(lex("-9223372036854775808"), Ok(vec![Token::Integer(i64::MIN)]));
}

#[test]
fn integers_out_of_range_are_errors() {
    assert_eq!(
        lex("9223372036854775808"),
        Err(LexError::InvalidNumber("9223372036854775808".to_string()))
    );
    assert_eq!(
        lex("-9223372036854775809"),
        Err(LexError::InvalidNumber("-9223372036854775809".to_string()))
    );
    assert_eq!(
        lex("99999999999999999999999999999999999999999"),
        Err(LexError::InvalidNumber("99999999999999999999999999999999999999999".to_string()))
    );
}

#[test]
fn a_second_dot_is_an_error() {
    assert_eq!(lex("1.2.3"), Err(LexError::InvalidNumber("1.2.3".to_string())));
    assert_eq!(lex("1.."), Err(LexError::InvalidNumber("1..".to_string())));
    assert_eq!(lex(".5."), Err(LexError::InvalidNumber(".5.".to_string())));
    assert_eq!(lex("(+ 1 2.3.4)"), Err(LexError::InvalidNumber("2.3.4".to_string())));
}

#[test]
fn lex_number_refuses_what_is_no_number() {
    assert_eq!(lex_number(&chars(""), 0, '-'), Err(LexError::InvalidNumber("-".to_string())));
    assert_eq!(lex_number(&chars(""), 0, '.'), Err(LexError::InvalidNumber(".".to_string())));
    assert_eq!(lex_number(&chars("."), 0, '-'), Err(LexError::InvalidNumber("-.".to_string())));
    assert_eq!(lex_number(&chars("12"), 0, 'x'), Err(LexError::InvalidNumber("x12".to_string())));
    assert_eq!(lex_number(&chars("1.5"), 0, '+'), Err(LexError::InvalidNumber("+1.5".to_string())));
    assert_eq!(lex_number(&chars(".5"), 0, '-'), Ok((Token::Float("-.5".to_string()), 2)));
}

#[test]
fn lex_number_from_the_end_or_beyond() {
    let source = chars("12");
    assert_eq!(lex_number(&source, 2, '7'), Ok((Token::Integer(7), 2)));
    assert_eq!(lex_number(&source, 9, '7'), Ok((Token::Integer(7), 9)));
    assert_eq!(lex_number(&source, 1, '7'), Ok((Token::Integer(72), 2)));
}

#[test]
fn a_sign_or_dot_needs_a_digit_to_begin_a_number() {
    assert_eq!(lex("-5"), Ok(vec![Token::Integer(-5)]));
    assert_eq!(lex("1-2"), Ok(vec![Token::Integer(1), Token::Integer(-2)]));
    assert!(matches!(lex("-").unwrap().as_slice(), [Token::Symbol(s)] if s.head == "-"));
    assert!(matches!(
        lex("-.5").unwrap().as_slice(),
        [Token::Symbol(s)] if s.head == "-" && s.tail == vec!["5".to_string()]
    ));
    assert_eq!(lex("."), Err(LexError::UnexpectedChar('.')));
    assert_eq!(lex(".x"), Err(LexError::UnexpectedChar('.')));
}

#[test]
fn parse_integer_agrees_with_the_standard_parser() {
    let texts = [
        "0", "1", "-1", "42", "-42", "0000", "-0", "123456789", "9223372036854775807",
        "9223372036854775808", "-9223372036854775808", "-9223372036854775809",
        "18446744073709551616", "", "-", "--1", "1-", "12a", "a12", "1.5", " 1", "1 ", "٣",
    ];
    for text in texts {
        let expected: Option<i64> = text.parse().ok();
        assert_eq!(parse_integer(&chars(text)), expected, "{:?}", text);
    }
}

#[test]
fn float_texts_parse_as_floats() {
    let texts = ["0.", ".0", "1.5", "-1.5", "-.5", "-5.", "123.456", "000.000"];
    for text in texts {
        assert!(is_float(&chars(text)), "{:?}", text);
        assert!(text.parse::<f64>().is_ok(), "{:?}", text);
    }
    let not_floats = ["", ".", "-", "-.", "1", "-1", "1..", "1.2.3", "1.5e3", "+1.5", "a.5", "1.-5"];
    for text in not_floats {
        assert!(!is_float(&chars(text)), "{:?}", text);
    }
}

#[test]
fn count_dots_counts() {
    assert_eq!(count_dots(&chars("")), 0);
    assert_eq!(count_dots(&chars("abc")), 0);
    assert_eq!(count_dots(&chars("a.b")), 1);
    assert_eq!(count_dots(&chars("..a..")), 4);
}
