use rlispy::lexer::lex;
use rlispy::lexer::symbol::Symbol;
use rlispy::lexer::token::Token;
use rlispy::parser::{parse, parse_all, parse_call, parse_list, parse_map, Form, ParseError};

fn sym(head: &str) -> Form {
    Form::Symbol(Symbol { head: head.to_string(), tail: vec![] })
}

fn keyword(name: &str) -> Form {
    Form::Keyword(name.to_string())
}

fn read(text: &str) -> Result<(Form, usize), ParseError> {
    parse(&lex(text).unwrap(), 0)
}

#[test]
fn a_call_reads_as_a_call() {
    assert_eq!(
        read("(+ 1 2)"),
        Ok((Form::Call(vec![sym("+"), Form::Integer(1), Form::Integer(2)]), 5))
    );
}

#[test]
fn a_list_reads_as_a_list() {
    assert_eq!(
        read("[1 2 3]"),
        Ok((Form::List(vec![Form::Integer(1), Form::Integer(2), Form::Integer(3)]), 5))
    );
}

#[test]
fn a_map_keeps_the_order_of_its_pairs() {
    assert_eq!(
        read("{:a 1 :b 2}"),
        Ok((
            Form::Mapping(vec![
                (keyword("a"), Form::Integer(1)),
                (keyword("b"), Form::Integer(2)),
            ]),
            6
        ))
    );
    assert_eq!(
        read("{:b 2 :a 1}"),
        Ok((
            Form::Mapping(vec![
                (keyword("b"), Form::Integer(2)),
                (keyword("a"), Form::Integer(1)),
            ]),
            6
        ))
    );
}

#[test]
fn a_map_may_repeat_a_key() {
    assert_eq!(
        read("{:a 1 :a 2}"),
        Ok((
            Form::Mapping(vec![
                (keyword("a"), Form::Integer(1)),
                (keyword("a"), Form::Integer(2)),
            ]),
            6
        ))
    );
}

#[test]
fn a_missing_bracket_is_the_end_of_input() {
    assert_eq!(read("(1 2"), Err(ParseError::UnexpectedEnd));
    assert_eq!(read("[1 2"), Err(ParseError::UnexpectedEnd));
    assert_eq!(read("{:a 1"), Err(ParseError::UnexpectedEnd));
    assert_eq!(read("{:a"), Err(ParseError::UnexpectedEnd));
    assert_eq!(read("("), Err(ParseError::UnexpectedEnd));
    assert_eq!(read("((1)"), Err(ParseError::UnexpectedEnd));
    assert_eq!(read(""), Err(ParseError::UnexpectedEnd));
}

#[test]
fn the_wrong_bracket_is_a_mismatch() {
    assert_eq!(read("(1 2]"), Err(ParseError::Mismatched { found: ']', expected: ')' }));
    assert_eq!(read("(1 2}"), Err(ParseError::Mismatched { found: '}', expected: ')' }));
    assert_eq!(read("[1 2)"), Err(ParseError::Mismatched { found: ')', expected: ']' }));
    assert_eq!(read("{:a 1]"), Err(ParseError::Mismatched { found: ']', expected: '}' }));
    assert_eq!(read("(a [b)"), Err(ParseError::Mismatched { found: ')', expected: ']' }));
}

#[test]
fn a_map_with_a_key_and_no_value_meets_its_bracket() {
    assert_eq!(read("{:a}"), Err(ParseError::UnexpectedToken(Token::Close('}'))));
    assert_eq!(read("{:a 1 :b}"), Err(ParseError::UnexpectedToken(Token::Close('}'))));
    assert_eq!(read("{:a )"), Err(ParseError::UnexpectedToken(Token::Close(')'))));
}

#[test]
fn no_form_begins_with_a_closing_bracket() {
    assert_eq!(read(")"), Err(ParseError::UnexpectedToken(Token::Close(')'))));
    assert_eq!(read("] 1"), Err(ParseError::UnexpectedToken(Token::Close(']'))));
    assert_eq!(
        parse(&[Token::Open('<')], 0),
        Err(ParseError::UnexpectedToken(Token::Open('<')))
    );
}

#[test]
fn empty_calls_lists_and_maps_are_read() {
    assert_eq!(read("()"), Ok((Form::Call(vec![]), 2)));
    assert_eq!(read("[]"), Ok((Form::List(vec![]), 2)));
    assert_eq!(read("{}"), Ok((Form::Mapping(vec![]), 2)));
}

#[test]
fn a_literal_is_a_form_by_itself() {
    assert_eq!(read("1 2 3"), Ok((Form::Integer(1), 1)));
    assert_eq!(read("1.5"), Ok((Form::Float("1.5".to_string()), 1)));
    assert_eq!(read("\"s\""), Ok((Form::String("s".to_string()), 1)));
    assert_eq!(read("\\c"), Ok((Form::Char('c'), 1)));
    assert_eq!(read(":k"), Ok((keyword("k"), 1)));
    assert_eq!(
        read("a.b"),
        Ok((Form::Symbol(Symbol { head: "a".to_string(), tail: vec!["b".to_string()] }), 1))
    );
}

#[test]
fn integers_read_as_their_value() {
    for value in [0i64, 1, -1, 42, -42, 1234567890123, i64::MAX, i64::MIN] {
        let text = value.to_string();
        assert_eq!(lex(&text), Ok(vec![Token::Integer(value)]));
        assert_eq!(read(&text), Ok((Form::Integer(value), 1)));
    }
}

#[test]
fn floats_read_as_their_value() {
    for (text, value) in [("0.5", 0.5f64), ("-2.25", -2.25), ("10.", 10.0), (".125", 0.125)] {
        match read(text) {
            Ok((Form::Float(kept), 1)) => {
                assert_eq!(kept, text);
                assert_eq!(kept.parse::<f64>(), Ok(value));
            }
            other => panic!("not a float: {:?}", other),
        }
    }
}

#[test]
fn forms_nest() {
    assert_eq!(
        read("(defn add [a b] (+ a b))"),
        Ok((
            Form::Call(vec![
                sym("defn"),
                sym("add"),
                Form::List(vec![sym("a"), sym("b")]),
                Form::Call(vec![sym("+"), sym("a"), sym("b")]),
            ]),
            13
        ))
    );
    assert_eq!(
        read("{[1] {:a ()}}"),
        Ok((
            Form::Mapping(vec![(
                Form::List(vec![Form::Integer(1)]),
                Form::Mapping(vec![(keyword("a"), Form::Call(vec![]))]),
            )]),
            10
        ))
    );
}

#[test]
fn the_position_after_a_form_is_where_the_next_begins() {
    let tokens = lex("(a) [b] c").unwrap();
    let (first, after_first) = parse(&tokens, 0).unwrap();
    assert_eq!(first, Form::Call(vec![sym("a")]));
    assert_eq!(after_first, 3);
    let (second, after_second) = parse(&tokens, after_first).unwrap();
    assert_eq!(second, Form::List(vec![sym("b")]));
    assert_eq!(after_second, 6);
    let (third, after_third) = parse(&tokens, after_second).unwrap();
    assert_eq!(third, sym("c"));
    assert_eq!(after_third, tokens.len());
    assert_eq!(parse(&tokens, after_third), Err(ParseError::UnexpectedEnd));
    assert_eq!(parse(&tokens, after_third + 7), Err(ParseError::UnexpectedEnd));
}

#[test]
fn reading_twice_gives_equal_forms() {
    let tokens = lex("(a [1 2.5 \"s\"] {:k \\c } b.c)").unwrap();
    let first = parse(&tokens, 0);
    let second = parse(&tokens, 0);
    assert!(first.is_ok());
    assert_eq!(first, second);
    let copies: Vec<Token> = tokens.iter().map(|t| t.clone()).collect();
    assert_eq!(parse(&copies, 0), first);
    assert_eq!(parse(&tokens, 2), parse(&tokens, 2));
    let broken = lex("(a [1 2)").unwrap();
    assert_eq!(parse(&broken, 0), parse(&broken, 0));
    assert!(parse(&broken, 0).is_err());
}

#[test]
fn the_readers_of_calls_lists_and_maps_begin_after_the_bracket() {
    let tokens = lex("(a b) [c] {d e}").unwrap();
    assert_eq!(parse_call(&tokens, 1), Ok((Form::Call(vec![sym("a"), sym("b")]), 4)));
    assert_eq!(parse_list(&tokens, 5), Ok((Form::List(vec![sym("c")]), 7)));
    assert_eq!(parse_map(&tokens, 8), Ok((Form::Mapping(vec![(sym("d"), sym("e"))]), 11)));
    assert_eq!(parse_call(&tokens, 5), Err(ParseError::Mismatched { found: ']', expected: ')' }));
    assert_eq!(parse_list(&tokens, 1), Err(ParseError::Mismatched { found: ')', expected: ']' }));
    assert_eq!(parse_map(&tokens, 1), Err(ParseError::Mismatched { found: ')', expected: '}' }));
    assert_eq!(parse_call(&tokens, 11), Err(ParseError::UnexpectedEnd));
    assert_eq!(parse_list(&tokens, 50), Err(ParseError::UnexpectedEnd));
    assert_eq!(parse_map(&tokens, 9), Err(ParseError::UnexpectedToken(Token::Close('}'))));
}

#[test]
fn all_the_forms_of_a_text() {
    let tokens = lex("(a) [b] c 1").unwrap();
    assert_eq!(
        parse_all(&tokens),
        Ok(vec![
            Form::Call(vec![sym("a")]),
            Form::List(vec![sym("b")]),
            sym("c"),
            Form::Integer(1),
        ])
    );
    assert_eq!(parse_all(&[]), Ok(vec![]));
    assert_eq!(parse_all(&lex("a (b").unwrap()), Err(ParseError::UnexpectedEnd));
    assert_eq!(
        parse_all(&lex("a ) b").unwrap()),
        Err(ParseError::UnexpectedToken(Token::Close(')')))
    );
}

#[test]
fn structural_errors_in_words() {
    assert_eq!(ParseError::UnexpectedEnd.message(), "Unexpected end of input");
    assert_eq!(
        ParseError::Mismatched { found: ']', expected: ')' }.message(),
        "Unexpected token: `]`, expected `)`"
    );
    assert_eq!(
        ParseError::UnexpectedToken(Token::Close('}')).message(),
        "Unexpected token: `}`"
    );
    assert_eq!(
        ParseError::UnexpectedToken(Token::Integer(1)).message(),
        "Unexpected token: an integer"
    );
    assert_eq!(read("{:a}").unwrap_err().message(), "Unexpected token: `}`");
}

#[test]
fn forms_and_errors_can_be_copied() {
    let (form, _) = read("(a [1 2.5 \"s\"] {:k \\c [x {y z}] a} b.c ())").unwrap();
    assert_eq!(form.clone(), form);
    let error = ParseError::UnexpectedToken(Token::Close(')'));
    assert_eq!(error.clone(), error);
    let mismatch = ParseError::Mismatched { found: ']', expected: ')' };
    assert_eq!(mismatch.clone(), mismatch);
}

fn tokens_of(form: &Form) -> Vec<Token> {
    let mut tokens = Vec::new();
    match form {
        Form::Call(items) => {
            tokens.push(Token::Open('('));
            for item in items {
                tokens.extend(tokens_of(item));
            }
            tokens.push(Token::Close(')'));
        }
        Form::List(items) => {
            tokens.push(Token::Open('['));
            for item in items {
                tokens.extend(tokens_of(item));
            }
            tokens.push(Token::Close(']'));
        }
        Form::Mapping(pairs) => {
            tokens.push(Token::Open('{'));
            for (key, value) in pairs {
                tokens.extend(tokens_of(key));
                tokens.extend(tokens_of(value));
            }
            tokens.push(Token::Close('}'));
        }
        Form::Symbol(symbol) => tokens.push(Token::Symbol(symbol.clone())),
        Form::Float(text) => tokens.push(Token::Float(text.clone())),
        Form::Integer(value) => tokens.push(Token::Integer(*value)),
        Form::String(text) => tokens.push(Token::String(text.clone())),
        Form::Char(c) => tokens.push(Token::Char(*c)),
        Form::Keyword(name) => tokens.push(Token::Keyword(name.clone())),
    }
    tokens
}

#[test]
fn a_form_written_out_is_read_back() {
    let form = Form::Call(vec![
        sym("f"),
        Form::List(vec![Form::Integer(1), Form::Float("2.5".to_string()), Form::List(vec![])]),
        Form::Mapping(vec![
            (keyword("k"), Form::String("v".to_string())),
            (Form::Call(vec![]), Form::Char('c')),
        ]),
    ]);
    let written = tokens_of(&form);
    assert_eq!(written.len(), 16);
    assert_eq!(parse(&written, 0), Ok((form.clone(), 16)));

    let mut around = vec![Token::Close(')'), Token::Integer(0)];
    around.extend(written.iter().map(|t| t.clone()));
    around.push(Token::Open('('));
    assert_eq!(parse(&around, 2), Ok((form, 18)));
}

#[test]
fn the_tokens_read_are_the_tokens_of_the_form() {
    let tokens = lex("x (a [b {c d}] \"e\") y").unwrap();
    let (form, end) = parse(&tokens, 1).unwrap();
    assert_eq!(end, 12);
    assert_eq!(tokens_of(&form), tokens[1..end].to_vec());
}
