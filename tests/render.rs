use catchr_core::parse::extract_literal_string;
use catchr_core::render::render;
use catchr_core::{Delimiter, Section, Token};

#[test]
fn renders_tokens_as_source_text() {
    let tokens = vec![
        Token::Ident("a".to_string()),
        Token::Punct(':', true),
        Token::Punct(':', false),
        Token::Ident("b".to_string()),
        Token::Group(Delimiter::Parenthesis, vec![Token::Literal("1".to_string())]),
        Token::Punct(';', false),
    ];
    assert_eq!(render(&tokens), "a :: b (1 ) ; ");
    assert_eq!(render(&[]), "");
}

#[test]
fn extracts_string_literal_values_only() {
    let lit = Token::Literal("\"Hello\\n!\"".to_string());
    assert_eq!(extract_literal_string(&lit), Some("Hello\n!".to_string()));
    assert_eq!(extract_literal_string(&Token::Literal("42".to_string())), None);
    assert_eq!(extract_literal_string(&Token::Literal("b\"x\"".to_string())), None);
    assert_eq!(extract_literal_string(&Token::Ident("x".to_string())), None);
}

#[test]
fn peek_sees_a_block_keyword_only() {
    assert!(Section::peek(&[Token::Ident("then".to_string())]));
    assert!(!Section::peek(&[Token::Literal("\"then\"".to_string())]));
    assert!(!Section::peek(&[]));
}
