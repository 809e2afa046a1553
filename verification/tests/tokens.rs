use rlispy::lexer::alphabet::{
    is_close_bracket, is_digit, is_keyword_char, is_open_bracket, is_symbol_char,
    is_symbol_punctuation, is_whitespace, scan_run, unescape, Class,
};
use rlispy::lexer::error::LexError;
use rlispy::lexer::symbol::Symbol;
use rlispy::lexer::token::Token;
use rlispy::lexer::{lex, lex_char, lex_chars, lex_keyword, lex_string, lex_symbol};
use rlispy::text::{chars_of, string_of};

fn chars(text: &str) -> Vec<char> {
    text.chars().collect()
}

fn symbol(head: &str, tail: &[&str]) -> Symbol {
    Symbol { head: head.to_string(), tail: tail.iter().map(|s| s.to_string()).collect() }
}

fn sym(head: &str) -> Token {
    Token::Symbol(symbol(head, &[]))
}

fn keyword(name: &str) -> Token {
    Token::Keyword(name.to_string())
}

fn string(text: &str) -> Token {
    Token::String(text.to_string())
}

#[test]
fn a_call_is_cut_into_its_tokens() {
    assert_eq!(
        lex("(+ 1 2)"),
        Ok(vec![Token::Open('('), sym("+"), Token::Integer(1), Token::Integer(2), Token::Close(')')])
    );
}

#[test]
fn an_escaped_n_is_a_newline() {
    let tokens = lex("\"a\\nb\"").unwrap();
    assert_eq!(tokens, vec![string("a\nb")]);
    match &tokens[0] {
        Token::String(text) => assert_eq!(text.chars().collect::<Vec<char>>(), vec!['a', '\n', 'b']),
        other => panic!("not a string: {:?}", other),
    }
}

#[test]
fn an_unknown_escape_is_an_error() {
    assert_eq!(lex("\"a\\qb\""), Err(LexError::IllegalEscape('q')));
}

#[test]
fn every_escape_stands_for_its_character() {
    assert_eq!(lex(r#""\"\n\t\r\\""#), Ok(vec![string("\"\n\t\r\\")]));
    assert_eq!(lex(r#""say \"hi\"""#), Ok(vec![string("say \"hi\"")]));
    assert_eq!(lex(r#""""#), Ok(vec![string("")]));
    assert_eq!(lex("\"two\nlines ; ( \""), Ok(vec![string("two\nlines ; ( ")]));
}

#[test]
fn an_open_string_is_an_error() {
    assert_eq!(lex("\"abc"), Err(LexError::UnterminatedString));
    assert_eq!(lex("\""), Err(LexError::UnterminatedString));
    assert_eq!(lex("\"abc\\"), Err(LexError::UnterminatedString));
    assert_eq!(lex("\"abc\\\""), Err(LexError::UnterminatedString));
    assert_eq!(lex("(f \"abc)"), Err(LexError::UnterminatedString));
}

#[test]
fn the_first_error_in_a_string_wins() {
    assert_eq!(lex("\"a\\qb"), Err(LexError::IllegalEscape('q')));
    assert_eq!(lex("\"a\\xb\\y\""), Err(LexError::IllegalEscape('x')));
}

#[test]
fn lex_string_returns_the_position_after_the_quote() {
    let source = chars("\"ab\\tc\" rest");
    assert_eq!(lex_string(&source, 1), Ok((string("ab\tc"), 7)));
    assert_eq!(lex_string(&source, 7), Err(LexError::UnterminatedString));
    assert_eq!(lex_string(&source, source.len()), Err(LexError::UnterminatedString));
    assert_eq!(lex_string(&source, source.len() + 5), Err(LexError::UnterminatedString));
}

#[test]
fn a_dotted_path_is_one_symbol() {
    assert_eq!(lex("foo.bar.baz"), Ok(vec![Token::Symbol(symbol("foo", &["bar", "baz"]))]));
    assert_eq!(lex("a.b"), Ok(vec![Token::Symbol(symbol("a", &["b"]))]));
    assert_eq!(lex("foo"), Ok(vec![sym("foo")]));
}

#[test]
fn an_empty_segment_is_an_error() {
    assert_eq!(lex("foo."), Err(LexError::EmptySegment("foo.".to_string())));
    assert_eq!(lex("foo..bar"), Err(LexError::EmptySegment("foo..bar".to_string())));
    assert_eq!(lex("foo.bar."), Err(LexError::EmptySegment("foo.bar.".to_string())));
    assert_eq!(lex("(a. b)"), Err(LexError::EmptySegment("a.".to_string())));
}

#[test]
fn symbols_take_the_whole_alphabet() {
    let all = "abcdefghijklmnopqrstuvwxyzABCDEFGHIJKLMNOPQRSTUVWXYZ0123456789_-+*/|<>=!?@#$%";
    assert_eq!(lex(all), Ok(vec![sym(all)]));
    assert_eq!(lex("<=>"), Ok(vec![sym("<=>")]));
    assert_eq!(lex("a1"), Ok(vec![sym("a1")]));
    assert_eq!(lex("a-5"), Ok(vec![sym("a-5")]));
    assert_eq!(lex("x.1"), Ok(vec![Token::Symbol(symbol("x", &["1"]))]));
}

#[test]
fn a_number_ends_where_a_symbol_begins() {
    assert_eq!(lex("1a"), Ok(vec![Token::Integer(1), sym("a")]));
    assert_eq!(lex("12abc.d"), Ok(vec![Token::Integer(12), Token::Symbol(symbol("abc", &["d"]))]));
}

#[test]
fn lex_symbol_splits_on_dots() {
    let source = chars("oo.bar baz");
    assert_eq!(lex_symbol(&source, 0, 'f'), Ok((symbol("foo", &["bar"]), 6)));
    assert_eq!(lex_symbol(&source, 7, 'x'), Ok((symbol("xbaz", &[]), 10)));
    assert_eq!(lex_symbol(&source, 10, 'x'), Ok((symbol("x", &[]), 10)));
    assert_eq!(lex_symbol(&source, 99, 'x'), Ok((symbol("x", &[]), 99)));
    assert_eq!(lex_symbol(&source, 2, 'x'), Ok((symbol("x", &["bar"]), 6)));
    assert_eq!(lex_symbol(&source, 2, '.'), Err(LexError::EmptySegment("..bar".to_string())));
    assert_eq!(lex_symbol(&source, 6, '.'), Err(LexError::EmptySegment(".".to_string())));
    assert_eq!(lex_symbol(&chars(".b"), 0, 'a'), Ok((symbol("a", &["b"]), 2)));
    assert_eq!(lex_symbol(&chars("..b"), 0, 'a'), Err(LexError::EmptySegment("a..b".to_string())));
}

#[test]
fn keywords_end_at_the_first_foreign_character() {
    assert_eq!(lex(":a"), Ok(vec![keyword("a")]));
    assert_eq!(lex(":foo-bar9 x"), Ok(vec![keyword("foo-bar9"), sym("x")]));
    assert_eq!(lex(":fooBar"), Ok(vec![keyword("foo"), sym("Bar")]));
    assert_eq!(lex(":a:b"), Ok(vec![keyword("a"), keyword("b")]));
    assert_eq!(lex("(:a)"), Ok(vec![Token::Open('('), keyword("a"), Token::Close(')')]));
    assert_eq!(lex(":a.b"), Err(LexError::UnexpectedChar('.')));
}

#[test]
fn an_empty_keyword_is_an_error() {
    assert_eq!(lex(":"), Err(LexError::EmptyKeyword));
    assert_eq!(lex(": a"), Err(LexError::EmptyKeyword));
    assert_eq!(lex("(:)"), Err(LexError::EmptyKeyword));
    assert_eq!(lex(":A"), Err(LexError::EmptyKeyword));
    assert_eq!(lex_keyword(&chars("abc"), 3), Err(LexError::EmptyKeyword));
    assert_eq!(lex_keyword(&chars("abc"), 7), Err(LexError::EmptyKeyword));
    assert_eq!(lex_keyword(&chars("abc"), 1), Ok((keyword("bc"), 3)));
}

#[test]
fn character_literals_by_name_and_by_themselves() {
    assert_eq!(lex("\\newline"), Ok(vec![Token::Char('\n')]));
    assert_eq!(lex("\\return"), Ok(vec![Token::Char('\r')]));
    assert_eq!(lex("\\tab"), Ok(vec![Token::Char('\t')]));
    assert_eq!(lex("\\space"), Ok(vec![Token::Char(' ')]));
    assert_eq!(lex("\\a"), Ok(vec![Token::Char('a')]));
    assert_eq!(lex("\\é"), Ok(vec![Token::Char('é')]));
    assert_eq!(lex("\\( \\)"), Ok(vec![Token::Char('('), Token::Char(')')]));
    assert_eq!(lex("\\a \\b"), Ok(vec![Token::Char('a'), Token::Char('b')]));
    assert_eq!(lex("\\\\"), Ok(vec![Token::Char('\\')]));
}

#[test]
fn a_character_literal_runs_to_the_next_space() {
    assert_eq!(lex("\\ab"), Err(LexError::InvalidChar("ab".to_string())));
    assert_eq!(lex("\\a)"), Err(LexError::InvalidChar("a)".to_string())));
    assert_eq!(lex("\\"), Err(LexError::InvalidChar("".to_string())));
    assert_eq!(lex("\\ a"), Err(LexError::InvalidChar("".to_string())));
    assert_eq!(lex("\\Newline"), Err(LexError::InvalidChar("Newline".to_string())));
    assert_eq!(lex("\\a\nb"), Err(LexError::InvalidChar("a\nb".to_string())));
    let source = chars("\\tab x");
    assert_eq!(lex_char(&source, 1), Ok((Token::Char('\t'), 5)));
    assert_eq!(lex_char(&source, 5), Ok((Token::Char('x'), 6)));
    assert_eq!(lex_char(&source, 6), Err(LexError::InvalidChar("".to_string())));
    assert_eq!(lex_char(&source, 60), Err(LexError::InvalidChar("".to_string())));
}

#[test]
fn comments_run_to_the_end_of_the_line() {
    assert_eq!(lex("; nothing here"), Ok(vec![]));
    assert_eq!(lex("a ; b c\nd"), Ok(vec![sym("a"), sym("d")]));
    assert_eq!(lex(";\n;\n1"), Ok(vec![Token::Integer(1)]));
    assert_eq!(lex("1;\"open"), Ok(vec![Token::Integer(1)]));
    assert_eq!(lex("\";\""), Ok(vec![string(";")]));
}

#[test]
fn white_space_only_separates() {
    assert_eq!(lex(""), Ok(vec![]));
    assert_eq!(lex(" \t\r\n"), Ok(vec![]));
    assert_eq!(lex("\u{a0}a\u{2003}b\u{3000}"), Ok(vec![sym("a"), sym("b")]));
    assert_eq!(lex("  a  "), lex("a"));
}

#[test]
fn brackets_are_not_matched_here() {
    assert_eq!(
        lex(")]}{[("),
        Ok(vec![
            Token::Close(')'),
            Token::Close(']'),
            Token::Close('}'),
            Token::Open('{'),
            Token::Open('['),
            Token::Open('('),
        ])
    );
}

#[test]
fn a_character_of_no_token_is_an_error() {
    assert_eq!(lex("^"), Err(LexError::UnexpectedChar('^')));
    assert_eq!(lex("a , b"), Err(LexError::UnexpectedChar(',')));
    assert_eq!(lex("'a"), Err(LexError::UnexpectedChar('\'')));
    assert_eq!(lex("é"), Err(LexError::UnexpectedChar('é')));
    assert_eq!(lex("~ \"open"), Err(LexError::UnexpectedChar('~')));
    assert_eq!(lex("٣"), Err(LexError::UnexpectedChar('٣')));
}

#[test]
fn a_small_program() {
    let source = r#"
        (defn add [a b]
            (+ a b))
    "#;
    assert_eq!(
        lex(source),
        Ok(vec![
            Token::Open('('),
            sym("defn"),
            sym("add"),
            Token::Open('['),
            sym("a"),
            sym("b"),
            Token::Close(']'),
            Token::Open('('),
            sym("+"),
            sym("a"),
            sym("b"),
            Token::Close(')'),
            Token::Close(')'),
        ])
    );
}

#[test]
fn lex_chars_is_lex_on_characters() {
    let text = "(a \"b\" :c 1.5 \\d) ; e";
    assert_eq!(lex_chars(&chars(text)), lex(text));
    assert_eq!(lex_chars(&[]), Ok(vec![]));
}

#[test]
fn white_space_is_what_the_standard_library_says() {
    for code in 0..=0x10ffffu32 {
        if let Some(c) = char::from_u32(code) {
            assert_eq!(is_whitespace(c), c.is_whitespace(), "U+{:04X}", code);
        }
    }
}

#[test]
fn the_alphabets() {
    let keyword_chars = "abcdefghijklmnopqrstuvwxyz0123456789-";
    let symbol_chars =
        "abcdefghijklmnopqrstuvwxyzABCDEFGHIJKLMNOPQRSTUVWXYZ0123456789_-+*/|<>=!?@#$%";
    for code in 0..=0x10ffffu32 {
        if let Some(c) = char::from_u32(code) {
            assert_eq!(is_keyword_char(c), keyword_chars.contains(c), "U+{:04X}", code);
            assert_eq!(is_symbol_char(c), symbol_chars.contains(c), "U+{:04X}", code);
            assert_eq!(is_digit(c), c.is_ascii_digit(), "U+{:04X}", code);
            assert_eq!(is_symbol_punctuation(c), "_-+*/|<>=!?@#$%".contains(c));
            assert_eq!(is_open_bracket(c), "([{".contains(c));
            assert_eq!(is_close_bracket(c), ")]}".contains(c));
        }
    }
}

#[test]
fn only_five_characters_can_be_escaped() {
    assert_eq!(unescape('"'), Some('"'));
    assert_eq!(unescape('n'), Some('\n'));
    assert_eq!(unescape('t'), Some('\t'));
    assert_eq!(unescape('r'), Some('\r'));
    assert_eq!(unescape('\\'), Some('\\'));
    assert_eq!(unescape('q'), None);
    assert_eq!(unescape('0'), None);
    assert_eq!(unescape('N'), None);
}

#[test]
fn runs_end_at_the_first_foreign_character() {
    let source = chars("abc-1 .x\ny");
    assert_eq!(scan_run(&source, 0, Class::Keyword), 5);
    assert_eq!(scan_run(&source, 0, Class::Path), 5);
    assert_eq!(scan_run(&source, 0, Class::Numeric), 0);
    assert_eq!(scan_run(&source, 4, Class::Numeric), 5);
    assert_eq!(scan_run(&source, 0, Class::Name), 5);
    assert_eq!(scan_run(&source, 0, Class::Comment), 8);
    assert_eq!(scan_run(&source, 9, Class::Comment), 10);
    assert_eq!(scan_run(&source, 10, Class::Comment), 10);
    assert_eq!(scan_run(&source, 12, Class::Comment), 12);
    assert!(Class::Path.contains('.') && !Class::Keyword.contains('.'));
}

#[test]
fn strings_and_characters_go_both_ways() {
    let text = "héllo (wörld)";
    let all = chars_of(text);
    assert_eq!(all, chars(text));
    assert_eq!(string_of(&all, 0, all.len()), text);
    assert_eq!(string_of(&all, 6, 13), "(wörld)");
    assert_eq!(string_of(&all, 3, 3), "");
    assert_eq!(chars_of(""), Vec::<char>::new());
}

#[test]
fn lexical_errors_in_words() {
    assert_eq!(LexError::UnterminatedString.message(), "Unexpected end of input, expected `\"`");
    assert_eq!(LexError::IllegalEscape('q').message(), "Unexpected escape character: q");
    assert_eq!(LexError::EmptyKeyword.message(), "Empty keyword");
    assert_eq!(LexError::InvalidChar("ab".to_string()).message(), "Invalid character: ab");
    assert_eq!(LexError::InvalidNumber("1.2.3".to_string()).message(), "Invalid number: 1.2.3");
    assert_eq!(
        LexError::EmptySegment("foo.".to_string()).message(),
        "Empty segment in symbol: foo."
    );
    assert_eq!(LexError::UnexpectedChar('^').message(), "Unexpected character: ^");
    assert_eq!(lex("1.2.3").unwrap_err().message(), "Invalid number: 1.2.3");
}

#[test]
fn tokens_and_errors_can_be_copied() {
    let tokens = lex("(a.b \"c\" :d 1 2.5 \\e )").unwrap();
    let copies: Vec<Token> = tokens.iter().map(|t| t.clone()).collect();
    assert_eq!(tokens, copies);
    let error = LexError::InvalidNumber("1..".to_string());
    assert_eq!(error.clone(), error);
    assert_eq!(LexError::IllegalEscape('q').clone(), LexError::IllegalEscape('q'));
}

#[test]
fn tokens_in_a_few_words() {
    assert_eq!(Token::Integer(1).description(), "an integer");
    assert_eq!(Token::Float("1.5".to_string()).description(), "a floating-point number");
    assert_eq!(string("s").description(), "a string");
    assert_eq!(Token::Char('c').description(), "a character");
    assert_eq!(sym("s").description(), "a symbol");
    assert_eq!(keyword("k").description(), "a keyword");
    assert_eq!(Token::Open('(').description(), "`(`");
    assert_eq!(Token::Close('}').description(), "`}`");
}

#[test]
fn the_segments_of_a_symbol_joined_by_dots_are_its_text() {
    for text in ["a", "a.b", "foo.bar.baz", "x1.y-2.<=>", "a.b.c.d.e"] {
        match lex(text).unwrap().as_slice() {
            [Token::Symbol(s)] => {
                let mut segments = vec![s.head.clone()];
                segments.extend(s.tail.iter().cloned());
                assert_eq!(segments.join("."), text);
                assert_eq!(segments.len(), text.matches('.').count() + 1);
                assert!(segments.iter().all(|segment| !segment.is_empty()));
            }
            other => panic!("not one symbol: {:?}", other),
        }
    }
}
