use calculator::ast::lexer::{Lexer, Token, TokenKind};
use calculator::ast::parser::{ParseError, Parser};

fn kinds(input: &str) -> Vec<TokenKind> {
    let mut lexer = Lexer::new();
    lexer
        .lex(input)
        .into_iter()
        .map(|t| t.kind().clone())
        .collect()
}

#[test]
fn lex_numbers_and_operators() {
    assert_eq!(
        kinds("10*(10+1"),
        vec![
            TokenKind::Number(String::from("10")),
            TokenKind::Asterix,
            TokenKind::OpenParen,
            TokenKind::Number(String::from("10")),
            TokenKind::Plus,
            TokenKind::Number(String::from("1")),
        ]
    );
}

#[test]
fn lex_words_case_insensitively() {
    assert_eq!(
        kinds("SIN 1 + Cos 2 * PI"),
        vec![
            TokenKind::Sin,
            TokenKind::Number(String::from("1")),
            TokenKind::Plus,
            TokenKind::Cos,
            TokenKind::Number(String::from("2")),
            TokenKind::Asterix,
            TokenKind::Pi,
        ]
    );
    assert_eq!(kinds("tan log"), vec![TokenKind::Tan, TokenKind::Log]);
}

#[test]
fn lex_unknown_word_becomes_lowercase_identifier() {
    assert_eq!(
        kinds("Foo"),
        vec![TokenKind::Identifier(String::from("foo"))]
    );
}

#[test]
fn lex_skips_unrecognized_characters() {
    assert_eq!(
        kinds("1 @ 2"),
        vec![
            TokenKind::Number(String::from("1")),
            TokenKind::Number(String::from("2")),
        ]
    );
    assert_eq!(kinds("\r\n"), vec![]);
}

#[test]
fn lex_decimal_literal_text() {
    assert_eq!(
        kinds("1.25 ^ 2"),
        vec![
            TokenKind::Number(String::from("1.25")),
            TokenKind::Power,
            TokenKind::Number(String::from("2")),
        ]
    );
}

#[test]
fn token_new_and_kind() {
    let token = Token::new(TokenKind::Slash);
    assert_eq!(*token.kind(), TokenKind::Slash);
}

#[test]
fn token_kind_predicates() {
    assert!(TokenKind::Number(String::from("1")).is_number());
    assert!(!TokenKind::Plus.is_number());
    assert!(TokenKind::Pi.is_operator());
    assert!(TokenKind::Power.is_operator());
    assert!(!TokenKind::OpenParen.is_operator());
    assert!(!TokenKind::Identifier(String::from("x")).is_operator());
    assert!(TokenKind::OpenParen.is_open_paren());
    assert!(!TokenKind::CloseParen.is_open_paren());
    assert!(TokenKind::CloseParen.is_close_paren());
}

#[test]
fn token_kind_precedence_classes() {
    assert_eq!(TokenKind::Plus.precedence(), 1);
    assert_eq!(TokenKind::Minus.precedence(), 1);
    assert_eq!(TokenKind::Asterix.precedence(), 2);
    assert_eq!(TokenKind::Slash.precedence(), 2);
    assert_eq!(TokenKind::Power.precedence(), 3);
    assert_eq!(TokenKind::OpenParen.precedence(), 3);
    assert_eq!(TokenKind::Sin.precedence(), 4);
    assert_eq!(TokenKind::Log.precedence(), 4);
    assert_eq!(TokenKind::Pi.precedence(), 5);
}

#[test]
fn parse_emits_postfix_order() {
    let mut lexer = Lexer::new();
    let mut parser = Parser::new();
    let queue = parser.parse(lexer.lex("1 + 2 * 3")).unwrap();
    let kinds: Vec<TokenKind> = queue.iter().map(|t| t.kind().clone()).collect();
    // the queue's back is evaluated first
    assert_eq!(
        kinds,
        vec![
            TokenKind::Plus,
            TokenKind::Asterix,
            TokenKind::Number(String::from("3")),
            TokenKind::Number(String::from("2")),
            TokenKind::Number(String::from("1")),
        ]
    );
}

#[test]
fn parse_reports_unclosed_paren_at_drain() {
    let mut lexer = Lexer::new();
    let mut parser = Parser::new();
    assert!(matches!(
        parser.parse(lexer.lex("10*(10+1")),
        Err(ParseError::ParensMismatch)
    ));
}

#[test]
fn error_messages() {
    assert_eq!(
        ParseError::MissingExpression.message(),
        "Expression is incomplete!"
    );
    assert_eq!(
        ParseError::ParensMismatch.message(),
        "Parenthesis not closed or never opened!"
    );
    assert_eq!(
        ParseError::ExpressionEmpty.message(),
        "Expression can not be empty"
    );
    assert_eq!(ParseError::DivisionByZero.message(), "Can not divide by 0");
    assert_eq!(
        ParseError::UnexpectedOperator(TokenKind::Plus).message(),
        "Unexpected operator: `Plus`"
    );
}
