use catchr_core::{
    Delimiter, ParseError, Section, SectionBody, SectionItem, SectionKeyword, Token,
};
use proc_macro2::{Spacing, TokenStream, TokenTree};

fn convert(ts: TokenStream) -> Vec<Token> {
    ts.into_iter()
        .map(|tt| match tt {
            TokenTree::Ident(i) => Token::Ident(i.to_string()),
            TokenTree::Punct(p) => Token::Punct(p.as_char(), p.spacing() == Spacing::Joint),
            TokenTree::Literal(l) => Token::Literal(l.to_string()),
            TokenTree::Group(g) => {
                let d = match g.delimiter() {
                    proc_macro2::Delimiter::Parenthesis => Delimiter::Parenthesis,
                    proc_macro2::Delimiter::Brace => Delimiter::Brace,
                    proc_macro2::Delimiter::Bracket => Delimiter::Bracket,
                    proc_macro2::Delimiter::None => Delimiter::Invisible,
                };
                Token::Group(d, convert(g.stream()))
            }
        })
        .collect()
}

fn lex(s: &str) -> Vec<Token> {
    convert(s.parse().unwrap())
}

#[test]
fn empty_when_section() {
    let raw = r#"
        when "Hello!" {

        }
    "#;

    let tokens = lex(raw);
    let section = Section::parse(&tokens).unwrap();

    assert_eq!(
        section,
        Section::new(
            SectionKeyword::When,
            "Hello!".to_string(),
            SectionBody::empty(),
        )
    );
}

#[test]
fn nested_one() {
    let raw = r#"
        when "Hello!" {
            then "Whatever" {
                assert!(false);
            }
        }
    "#;

    let tokens = lex(raw);
    let section = Section::parse(&tokens).unwrap();
    let stmt = lex("assert!(false);");

    assert_eq!(
        section,
        Section::new(
            SectionKeyword::When,
            "Hello!".to_string(),
            SectionBody::new(vec![SectionItem::Sep(Section::new(
                SectionKeyword::Then,
                "Whatever".to_string(),
                SectionBody::new(vec![SectionItem::Stmt(&stmt)]),
            ))]),
        )
    );
}

#[test]
fn body_splits_statements_and_blocks() {
    let tokens = lex(r#"let x = 1; if x == 1 { foo(); } else { bar(); } case "c" { } drop(x);"#);
    let body = SectionBody::parse(&tokens).unwrap();
    let items = body.items();
    assert_eq!(items.len(), 4);
    assert_eq!(items[0], SectionItem::Stmt(&lex("let x = 1;")));
    assert_eq!(
        items[1],
        SectionItem::Stmt(&lex("if x == 1 { foo(); } else { bar(); }"))
    );
    assert!(matches!(&items[2], SectionItem::Sep(s) if s.name == "c"));
    assert_eq!(items[3], SectionItem::Stmt(&lex("drop(x);")));
    assert!(!body.is_top_level());
}

#[test]
fn trailing_expression_without_semicolon_is_malformed() {
    let tokens = lex("let x = 1; x");
    assert_eq!(SectionBody::parse(&tokens), Err(ParseError::MalformedStatement));
}

#[test]
fn name_is_the_literal_value() {
    let tokens = lex(r#"case "a \"quoted\" name" { }"#);
    let section = Section::parse(&tokens).unwrap();
    assert_eq!(section.name, "a \"quoted\" name");
    let tokens = lex(r##"given r#"raw"# { }"##);
    assert_eq!(Section::parse(&tokens).unwrap().name, "raw");
}

#[test]
fn missing_keyword_is_invalid_keyword() {
    let tokens = lex(r#"whenever "x" { }"#);
    assert_eq!(Section::parse(&tokens), Err(ParseError::InvalidKeyword));
    assert_eq!(Section::parse(&[]), Err(ParseError::InvalidKeyword));
}

#[test]
fn keyword_without_string_is_invalid_name() {
    let tokens = lex("when 42 { }");
    assert_eq!(Section::parse(&tokens), Err(ParseError::InvalidName));
    let tokens = lex("section { }");
    assert_eq!(Section::parse(&tokens), Err(ParseError::InvalidName));
    let tokens = lex(r#"let y = 2; when x { }"#);
    assert_eq!(SectionBody::parse(&tokens), Err(ParseError::InvalidName));
}

#[test]
fn name_without_braces_is_unterminated_block() {
    let tokens = lex(r#"when "x" ( )"#);
    assert_eq!(Section::parse(&tokens), Err(ParseError::UnterminatedBlock));
    let tokens = lex(r#"when "x""#);
    assert_eq!(Section::parse(&tokens), Err(ParseError::UnterminatedBlock));
}

#[test]
fn broken_statement_is_malformed_statement() {
    let tokens = lex(r#"when "x" { let = ; }"#);
    assert_eq!(Section::parse(&tokens), Err(ParseError::MalformedStatement));
    let tokens = lex(r#"when "x" { } trailing"#);
    assert_eq!(Section::parse(&tokens), Err(ParseError::MalformedStatement));
}

#[test]
fn c_string_literals_are_ordinary_statements() {
    let tokens = lex(r#"let a = c"x"; when "w" { let b = cr"y"; }"#);
    let body = SectionBody::parse(&tokens).unwrap();
    assert_eq!(body.items().len(), 2);
    assert_eq!(body.items()[0], SectionItem::Stmt(&lex(r#"let a = c"x";"#)));
    let tokens = lex(r#"when c"x" { }"#);
    assert_eq!(Section::parse(&tokens), Err(ParseError::InvalidName));
}

#[test]
fn errors_inside_braces_come_out_unchanged() {
    let tokens = lex(r#"section "s" { then 3 { } }"#);
    assert_eq!(Section::parse(&tokens), Err(ParseError::InvalidName));
    let tokens = lex(r#"section "s" { when "w" { given "g" [ ] } }"#);
    assert_eq!(Section::parse(&tokens), Err(ParseError::UnterminatedBlock));
    let tokens = lex(r#"ok(); when "w" { bad = ; } when 1 { }"#);
    assert_eq!(SectionBody::parse(&tokens), Err(ParseError::MalformedStatement));
}

#[test]
fn statements_around_any_index() {
    let tokens = lex(r#"a(); when "w" { } b(); c();"#);
    let body = SectionBody::parse(&tokens).unwrap();
    let a = lex("a();");
    let b = lex("b();");
    let c = lex("c();");
    assert_eq!(body.get_stmts_before(1), vec![&a[..]]);
    assert_eq!(body.get_stmts_after(1), vec![&b[..], &c[..]]);
    assert_eq!(body.get_stmts_before(99), vec![&a[..], &b[..], &c[..]]);
    assert_eq!(body.get_stmts_after(3), Vec::<&[Token]>::new());
    assert_eq!(body.get_stmts_after(usize::MAX), Vec::<&[Token]>::new());
}
