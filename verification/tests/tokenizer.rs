use doc_script::ast::LiteralKind;
use doc_script::tokenizer::{tokenize, Token, TokenKind, TokenizeError};

fn kinds(tokens: &[Token]) -> Vec<TokenKind> {
    tokens.iter().map(|t| t.kind).collect()
}

#[test]
fn test_keywords_and_identifiers() {
    let tokens = tokenize(b"const constant struct trait use self true false x_1").expect("tokens");
    assert_eq!(
        kinds(&tokens),
        vec![
            TokenKind::Const,
            TokenKind::Identifier,
            TokenKind::Struct,
            TokenKind::Trait,
            TokenKind::Use,
            TokenKind::SelfKeyword,
            TokenKind::Literal(LiteralKind::Boolean),
            TokenKind::Literal(LiteralKind::Boolean),
            TokenKind::Identifier,
        ]
    );
    assert_eq!((tokens[1].start, tokens[1].end), (6, 14));
}

#[test]
fn test_numbers_strings_and_separators() {
    let tokens = tokenize(b"12 3.5 0x1F 0b10 \"a\\\"b\" (a.b)").expect("tokens");
    assert_eq!(
        kinds(&tokens),
        vec![
            TokenKind::Literal(LiteralKind::Integer),
            TokenKind::Literal(LiteralKind::Floating),
            TokenKind::Literal(LiteralKind::Hex),
            TokenKind::Literal(LiteralKind::Binary),
            TokenKind::Literal(LiteralKind::String),
            TokenKind::Separator(b'('),
            TokenKind::Identifier,
            TokenKind::Separator(b'.'),
            TokenKind::Identifier,
            TokenKind::Separator(b')'),
        ]
    );
}

#[test]
fn test_comments_and_line_breaks_are_skipped() {
    let tokens = tokenize(b"a // note\n\tb\r\n").expect("tokens");
    assert_eq!(kinds(&tokens), vec![TokenKind::Identifier, TokenKind::Identifier]);
    assert_eq!(tokens[1].start, 11);
}

#[test]
fn test_unexpected_character() {
    assert_eq!(tokenize(b"a # b"), Err(TokenizeError::UnexpectedCharacter(2)));
}

#[test]
fn test_unterminated_string() {
    assert_eq!(tokenize(b"x \"abc"), Err(TokenizeError::UnterminatedString(2)));
}
