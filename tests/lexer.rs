use lisp_calc::{get_escape_sequence, LexError, Lexer, Token};

/// A token with its numeral read as a float, as a caller evaluating the line sees it.
#[derive(Debug, PartialEq)]
enum Tok {
    Number(f64),
    Punctuator(char),
    String(String),
    Symbol(String),
}

fn lex_raw(input: &str) -> Result<Vec<Token>, LexError> {
    let code = input.chars().collect::<Vec<char>>();
    let lexer = Lexer::new(&code);
    lexer.collect()
}

fn lex(input: &str) -> Result<Vec<Tok>, LexError> {
    lex_raw(input).map(|tokens| {
        tokens
            .into_iter()
            .map(|t| match t {
                Token::Number(n) => Tok::Number(n.parse::<f64>().unwrap()),
                Token::Punctuator(c) => Tok::Punctuator(c),
                Token::String(s) => Tok::String(s),
                Token::Symbol(s) => Tok::Symbol(s),
            })
            .collect()
    })
}

#[test]
fn test_empty_code() {
    assert_eq!(lex(""), Ok(Vec::<Tok>::new()));
}

#[test]
fn test_basic_expr() {
    assert_eq!(
        lex("'(+ 2 74.95)"),
        Ok(vec![
            Tok::Punctuator('\''),
            Tok::Punctuator('('),
            Tok::Symbol("+".to_string()),
            Tok::Number(2.0),
            Tok::Number(74.95),
            Tok::Punctuator(')'),
        ])
    );
}

#[test]
fn test_missing_space_merges_number_to_symbol() {
    assert_eq!(
        lex("(+2 4)"),
        Ok(vec![
            Tok::Punctuator('('),
            Tok::Symbol("+2".to_string()),
            Tok::Number(4.0),
            Tok::Punctuator(')'),
        ])
    );
}

#[test]
fn test_missing_space_between_symbol_and_parenthesis() {
    assert_eq!(
        lex("(test)"),
        Ok(vec![
            Tok::Punctuator('('),
            Tok::Symbol("test".to_string()),
            Tok::Punctuator(')'),
        ])
    );
}

#[test]
fn test_all_valid_symbols() {
    assert_eq!(
        lex("+ - * / %"),
        Ok(vec![
            Tok::Symbol("+".to_string()),
            Tok::Symbol("-".to_string()),
            Tok::Symbol("*".to_string()),
            Tok::Symbol("/".to_string()),
            Tok::Symbol("%".to_string()),
        ])
    );
}

#[test]
fn test_invalid_number() {
    assert_eq!(lex("98.23.35"), Err(LexError::InvalidNumber));
}

#[test]
fn test_valid_string() {
    assert_eq!(
        lex("\"Hello, world!\""),
        Ok(vec![Tok::String("Hello, world!".to_string())])
    );
}

#[test]
fn whitespace_only_line_has_no_tokens() {
    assert_eq!(lex("   \t \r\n  "), Ok(Vec::<Tok>::new()));
    assert_eq!(lex(" "), Ok(Vec::<Tok>::new()));
}

#[test]
fn expression_without_quote() {
    assert_eq!(
        lex("(+ 2 74.95)"),
        Ok(vec![
            Tok::Punctuator('('),
            Tok::Symbol("+".to_string()),
            Tok::Number(2.0),
            Tok::Number(74.95),
            Tok::Punctuator(')'),
        ])
    );
}

#[test]
fn numeral_is_kept_as_written() {
    assert_eq!(
        lex_raw("74.95 3."),
        Ok(vec![
            Token::Number("74.95".to_string()),
            Token::Number("3.".to_string()),
        ])
    );
}

#[test]
fn digits_end_at_a_letter() {
    assert_eq!(
        lex("12abc"),
        Ok(vec![Tok::Number(12.0), Tok::Symbol("abc".to_string())])
    );
}

#[test]
fn newline_escape_is_resolved() {
    assert_eq!(lex("\"a\\nb\""), Ok(vec![Tok::String("a\nb".to_string())]));
}

#[test]
fn every_escape_is_resolved() {
    assert_eq!(
        lex("\"\\\"\\r\\t\\\\\""),
        Ok(vec![Tok::String("\"\r\t\\".to_string())])
    );
}

#[test]
fn string_without_closing_quote_ends_at_end_of_line() {
    assert_eq!(lex("\"abc"), Ok(vec![Tok::String("abc".to_string())]));
}

#[test]
fn string_followed_by_symbol() {
    assert_eq!(
        lex("\"x y\"z"),
        Ok(vec![Tok::String("x y".to_string()), Tok::Symbol("z".to_string())])
    );
}

#[test]
fn backslash_at_end_of_line_is_rejected() {
    assert_eq!(lex("\"ab\\"), Err(LexError::UnterminatedEscape));
}

#[test]
fn unknown_escape_is_rejected() {
    assert_eq!(lex("(f \"\\q\")"), Err(LexError::UnrecognizedEscape));
}

#[test]
fn lexer_is_exhausted_after_an_error() {
    let code = "1.2.3 x".chars().collect::<Vec<char>>();
    let mut lexer = Lexer::new(&code);
    assert_eq!(lexer.next(), Err(LexError::InvalidNumber));
    assert_eq!(lexer.next(), Ok(None));
}

#[test]
fn next_hands_out_tokens_in_order() {
    let code = " (a) ".chars().collect::<Vec<char>>();
    let mut lexer = Lexer::new(&code);
    assert_eq!(lexer.next(), Ok(Some(Token::Punctuator('('))));
    assert_eq!(lexer.next(), Ok(Some(Token::Symbol("a".to_string()))));
    assert_eq!(lexer.next(), Ok(Some(Token::Punctuator(')'))));
    assert_eq!(lexer.next(), Ok(None));
    assert_eq!(lexer.next(), Ok(None));
}

#[test]
fn fresh_lexers_agree() {
    let line = "'(define x \"s\\t\" 3.5) ; y";
    assert_eq!(lex_raw(line), lex_raw(line));
    assert_eq!(lex_raw("9..1"), lex_raw("9..1"));
}

#[test]
fn symbols_and_punctuators_hold_no_whitespace() {
    let tokens = lex_raw(" ab\tc  (d)'e\nf ").unwrap();
    assert_eq!(
        tokens,
        vec![
            Token::Symbol("ab".to_string()),
            Token::Symbol("c".to_string()),
            Token::Punctuator('('),
            Token::Symbol("d".to_string()),
            Token::Punctuator(')'),
            Token::Punctuator('\''),
            Token::Symbol("e".to_string()),
            Token::Symbol("f".to_string()),
        ]
    );
    for t in tokens {
        match t {
            Token::Symbol(s) => {
                assert!(!s.is_empty());
                assert!(!s.chars().any(|c| c.is_ascii_whitespace()));
            }
            Token::Punctuator(c) => assert!(!c.is_ascii_whitespace()),
            _ => {}
        }
    }
}

#[test]
fn escape_table() {
    assert_eq!(get_escape_sequence('"'), Some('"'));
    assert_eq!(get_escape_sequence('n'), Some('\n'));
    assert_eq!(get_escape_sequence('r'), Some('\r'));
    assert_eq!(get_escape_sequence('t'), Some('\t'));
    assert_eq!(get_escape_sequence('\\'), Some('\\'));
    assert_eq!(get_escape_sequence('q'), None);
}
