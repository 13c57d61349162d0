use jsonflat::lexer::Lexer;
use jsonflat::lexer::Token;
use jsonflat::lexer::Value;
use jsonflat::lexer::eat_string;

fn lex_all(input: &str) -> Vec<Token> {
    let mut lexer = Lexer::new(input);
    let mut tokens = Vec::new();
    while let Some(t) = lexer.next() {
        tokens.push(t);
    }
    tokens
}

#[test]
fn lexer_ignore_whitespace() {
    let input = " \t   \n   ";
    let output: Vec<Token> = vec![];

    assert_eq!(lex_all(input), output);
}

#[test]
fn lexer_comma() {
    let input = ",,";
    let output: Vec<Token> = vec![Token::Comma, Token::Comma];

    assert_eq!(lex_all(input), output);
}

#[test]
fn lexer_colon() {
    let input = "::";
    let output: Vec<Token> = vec![Token::Colon, Token::Colon];

    assert_eq!(lex_all(input), output);
}

#[test]
fn lexer_text() {
    let input = "\"test\",\"123\"";
    let output = vec![
        Token::Value(Value::Text("test".to_owned())),
        Token::Comma,
        Token::Value(Value::Text("123".to_owned())),
    ];

    assert_eq!(lex_all(input), output);
}

#[test]
fn lexer_number() {
    let input = "-01.23e-2,123";
    let output = vec![
        Token::Value(Value::Number("-01.23e-2".to_owned())),
        Token::Comma,
        Token::Value(Value::Number("123".to_owned())),
    ];

    assert_eq!(lex_all(input), output);
}

#[test]
fn lexer_array() {
    let input = "[]";
    let output = vec![Token::LBracket, Token::RBracket];

    assert_eq!(lex_all(input), output);
}

#[test]
fn lexer_object() {
    let input = "{}";
    let output = vec![Token::LBrace, Token::RBrace];

    assert_eq!(lex_all(input), output);
}

#[test]
fn lexer_booleans() {
    let input = "true,false";
    let output = vec![
        Token::Value(Value::True),
        Token::Comma,
        Token::Value(Value::False),
    ];

    assert_eq!(lex_all(input), output);
}

#[test]
fn lexer_null() {
    let input = "null,null";
    let output = vec![
        Token::Value(Value::Null),
        Token::Comma,
        Token::Value(Value::Null),
    ];

    assert_eq!(lex_all(input), output);
}

#[test]
fn lexer_escapes() {
    let input = "\"a\\nb\\t\\\\\\\"c\"";
    let output = vec![Token::Value(Value::Text("a\nb\t\\\"c".to_owned()))];

    assert_eq!(lex_all(input), output);
}

#[test]
fn lexer_unicode_escape() {
    let input = "\"x\\u0041y\"";
    let output = vec![Token::Value(Value::Text("xAy".to_owned()))];

    assert_eq!(lex_all(input), output);
}

#[test]
fn lexer_unicode_escape_too_large() {
    // Four hex digits above the byte range decode to nothing.
    let input = "\"x\\u0141y\"";
    let output = vec![Token::Value(Value::Text("xy".to_owned()))];

    assert_eq!(lex_all(input), output);
}

#[test]
fn lexer_illegal_character() {
    let input = "@";
    let output = vec![Token::Illegal("@".to_owned())];

    assert_eq!(lex_all(input), output);
}

#[test]
fn lexer_bad_number_stops_stream() {
    // A number that fails the float grammar yields no token: the stream
    // ends there, as if the source were cut short.
    let input = "1.2.3,true";
    let output: Vec<Token> = vec![];

    assert_eq!(lex_all(input), output);
}

#[test]
fn eat_string_plain() {
    let chars: Vec<char> = "abc\"rest".chars().collect();
    let (text, next) = eat_string(&chars, 0);
    assert_eq!(text, Some("abc".to_owned()));
    assert_eq!(next, 4);
}

#[test]
fn eat_string_ends_after_backslash() {
    let chars: Vec<char> = "ab\\".chars().collect();
    let (text, next) = eat_string(&chars, 0);
    assert_eq!(text, None);
    assert_eq!(next, 3);
}

#[test]
fn lexer_number_trailing_dot() {
    let input = "7.";
    let output = vec![Token::Value(Value::Number("7.".to_owned()))];

    assert_eq!(lex_all(input), output);
}
