use treelox::lexer::{tokenize, LexError, LexErrorKind};
use treelox::token::{Token, TokenType};

fn destructure(token: Token) -> (TokenType, String, String) {
    let Token {
        token_type,
        lexeme,
        literal,
        line_num: _,
    } = token;

    (token_type, lexeme, literal)
}

#[test]
fn comment_tokenization() {
    let (res, _) = tokenize("test// ignore this comment");
    assert_eq!(
        destructure(res[0].clone()),
        (
            TokenType::IDENTIFIER,
            String::from("test"),
            String::from("null")
        )
    );
    assert_eq!(
        destructure(res[1].clone()),
        (TokenType::EOF, String::from(""), String::from("null"))
    );
}

#[test]
fn string_tokenization() {
    let (res, _) = tokenize("\"a string\" not_a_string .*+");
    assert_eq!(
        destructure(res[0].clone()),
        (
            TokenType::STRING,
            String::from("\"a string\""),
            String::from("a string")
        )
    );
    assert_eq!(
        destructure(res[1].clone()),
        (
            TokenType::IDENTIFIER,
            String::from("not_a_string"),
            String::from("null")
        )
    );
    assert_eq!(
        destructure(res[2].clone()),
        (TokenType::DOT, String::from("."), String::from("null"))
    );
    assert_eq!(
        destructure(res[3].clone()),
        (TokenType::STAR, String::from("*"), String::from("null"))
    );
    assert_eq!(
        destructure(res[4].clone()),
        (TokenType::PLUS, String::from("+"), String::from("null"))
    );
    assert_eq!(
        destructure(res[5].clone()),
        (TokenType::EOF, String::from(""), String::from("null"))
    );
}

#[test]
fn number_tokenization() {
    let (res, _) = tokenize("23.000 57 3.1.4");
    assert_eq!(
        destructure(res[0].clone()),
        (
            TokenType::NUMBER,
            String::from("23.000"),
            String::from("23.0")
        )
    );
    assert_eq!(
        destructure(res[1].clone()),
        (TokenType::NUMBER, String::from("57"), String::from("57.0"))
    );
    assert_eq!(
        destructure(res[2].clone()),
        (TokenType::NUMBER, String::from("3.1"), String::from("3.1"))
    );
    assert_eq!(
        destructure(res[3].clone()),
        (TokenType::DOT, String::from("."), String::from("null"))
    );
    assert_eq!(
        destructure(res[4].clone()),
        (TokenType::NUMBER, String::from("4"), String::from("4.0"))
    );
    assert_eq!(
        destructure(res[5].clone()),
        (TokenType::EOF, String::from(""), String::from("null"))
    );
}

#[test]
fn two_char_operators() {
    let (res, errors) = tokenize("== != <= >= = < >");
    assert!(errors.is_empty());
    let kinds: Vec<TokenType> = res.iter().map(|t| t.token_type).collect();
    assert_eq!(
        kinds,
        vec![
            TokenType::EQUAL_EQUAL,
            TokenType::BANG_EQUAL,
            TokenType::LESS_EQUAL,
            TokenType::GREATER_EQUAL,
            TokenType::EQUAL,
            TokenType::LESS,
            TokenType::GREATER,
            TokenType::EOF,
        ]
    );
    assert_eq!(res[0].lexeme, "==");
    assert_eq!(res[1].lexeme, "!=");
}

#[test]
fn reserved_words_and_lines() {
    let (res, errors) = tokenize("var x\nwhile");
    assert!(errors.is_empty());
    assert_eq!(res[0].token_type, TokenType::VAR);
    assert_eq!(res[0].line_num, 1);
    assert_eq!(res[1].token_type, TokenType::IDENTIFIER);
    assert_eq!(res[2].token_type, TokenType::WHILE);
    assert_eq!(res[2].line_num, 2);
}

#[test]
fn unexpected_character_is_reported_and_skipped() {
    let (res, errors) = tokenize("1 @ 2");
    assert_eq!(errors.len(), 1);
    assert_eq!(
        errors[0],
        LexError {
            line: 1,
            kind: LexErrorKind::UnexpectedChar('@')
        }
    );
    assert_eq!(res[0].token_type, TokenType::NUMBER);
    assert_eq!(res[1].token_type, TokenType::NUMBER);
    assert_eq!(res[2].token_type, TokenType::EOF);
}

#[test]
fn unterminated_string_yields_error_and_no_token() {
    let (res, errors) = tokenize("\"abc");
    assert_eq!(errors.len(), 1);
    assert_eq!(
        errors[0],
        LexError {
            line: 1,
            kind: LexErrorKind::UnterminatedString
        }
    );
    assert_eq!(res.len(), 1);
    assert_eq!(res[0].token_type, TokenType::EOF);
}

#[test]
fn whole_number_literal_gets_point_zero() {
    let (res, _) = tokenize("57");
    assert_eq!(res[0].lexeme, "57");
    assert_eq!(res[0].literal, "57.0");
}

#[test]
fn string_literal_round_trip() {
    let (res, errors) = tokenize("\"hello world\"");
    assert!(errors.is_empty());
    assert_eq!(res[0].token_type, TokenType::STRING);
    assert_eq!(res[0].lexeme, "\"hello world\"");
    assert_eq!(res[0].literal, "hello world");
}

#[test]
fn token_describe_lines() {
    let (res, _) = tokenize("57");
    assert_eq!(res[0].describe(), "NUMBER 57 57.0");
    assert_eq!(res[1].describe(), "EOF  null");
}

#[test]
fn leading_zeros_are_canonicalized_in_literal() {
    let (res, _) = tokenize("007 00.500");
    assert_eq!(res[0].lexeme, "007");
    assert_eq!(res[0].literal, "7.0");
    assert_eq!(res[1].lexeme, "00.500");
    assert_eq!(res[1].literal, "0.5");
}
