use catchr_core::{Artifact, CatchrMode, Code, Delimiter, Scope, Section, SectionBody, Token};
use proc_macro2::{Spacing, TokenStream, TokenTree};

fn convert(ts: TokenStream) -> Vec<Token> {
    ts.into_iter()
        .map(|tt| match tt {
            TokenTree::Ident(i) => Token::Ident(i.to_string()),
            TokenTree::Punct(p) => Token::Punct(p.as_char(), p.spacing() == Spacing::Joint),
            TokenTree::Literal(l) => Token::Literal(l.to_string()),
            TokenTree::Group(g) => {
                let d = match g.delimiter() {
                    proc_macro2::Delimiter::Parenthesis => Delimiter::Parenthesis,
                    proc_macro2::Delimiter::Brace => Delimiter::Brace,
                    proc_macro2::Delimiter::Bracket => Delimiter::Bracket,
                    proc_macro2::Delimiter::None => Delimiter::Invisible,
                };
                Token::Group(d, convert(g.stream()))
            }
        })
        .collect()
}

fn lex(s: &str) -> Vec<Token> {
    convert(s.parse().unwrap())
}

fn stmts<'a>(code: &Code<'a>, out: &mut Vec<&'a [Token]>) {
    match code {
        Code::Stmt(s) => out.push(s),
        Code::Block(v) => {
            for c in v {
                stmts(c, out);
            }
        }
    }
}

fn tests<'a, 'b>(art: &'b Artifact<'a>, out: &mut Vec<&'b Artifact<'a>>) {
    match art {
        Artifact::Test { .. } => out.push(art),
        Artifact::Module { items, .. } => {
            for a in items {
                tests(a, out);
            }
        }
    }
}

#[test]
fn scenario_empty_when() {
    let tokens = lex(r#"when "Hello!" { }"#);
    let section = Section::parse(&tokens).unwrap();
    let art = section.generate(CatchrMode::Sync);
    assert_eq!(
        art,
        Artifact::Test {
            name: "when_hello".to_string(),
            mode: CatchrMode::Sync,
            body: Code::Block(vec![]),
        }
    );
}

#[test]
fn scenario_nested_section() {
    let tokens = lex(
        r#"section "tests" {
            let x = 1;
            when "hello" {
                assert!(true);
                then "whatever" {
                    assert!(true);
                }
            }
            assert_eq!(x, 1);
        }"#,
    );
    let section = Section::parse(&tokens).unwrap();
    let art = section.generate(CatchrMode::Sync);

    let let_x = lex("let x = 1;");
    let t = lex("assert!(true);");
    let eq = lex("assert_eq!(x, 1);");
    let expected = Artifact::Module {
        name: "section_tests".to_string(),
        items: vec![Artifact::Module {
            name: "when_hello".to_string(),
            items: vec![Artifact::Test {
                name: "then_whatever".to_string(),
                mode: CatchrMode::Sync,
                body: Code::Block(vec![
                    Code::Stmt(&let_x),
                    Code::Block(vec![
                        Code::Stmt(&t),
                        Code::Block(vec![Code::Stmt(&t)]),
                    ]),
                    Code::Stmt(&eq),
                ]),
            }],
        }],
    };
    assert_eq!(art, expected);

    if let Artifact::Module { items, .. } = &art {
        if let Artifact::Module { items, .. } = &items[0] {
            if let Artifact::Test { body, .. } = &items[0] {
                let mut order = vec![];
                stmts(body, &mut order);
                assert_eq!(order, vec![&let_x[..], &t[..], &t[..], &eq[..]]);
            }
        }
    }
}

#[test]
fn scenario_cases_share_context() {
    let tokens = lex(
        r#"section "tests" {
            assert!(1 == 1);
            case "one" { assert!(2 == 2); }
            assert!(3 == 3);
            case "two" { assert!(4 == 4); }
            assert!(5 == 5);
        }"#,
    );
    let section = Section::parse(&tokens).unwrap();
    let art = section.generate(CatchrMode::Tokio);

    let s1 = lex("assert!(1 == 1);");
    let s2 = lex("assert!(2 == 2);");
    let s3 = lex("assert!(3 == 3);");
    let s4 = lex("assert!(4 == 4);");
    let s5 = lex("assert!(5 == 5);");
    let expected = Artifact::Module {
        name: "section_tests".to_string(),
        items: vec![
            Artifact::Test {
                name: "case_one".to_string(),
                mode: CatchrMode::Tokio,
                body: Code::Block(vec![
                    Code::Stmt(&s1),
                    Code::Block(vec![Code::Stmt(&s2)]),
                    Code::Stmt(&s3),
                    Code::Stmt(&s5),
                ]),
            },
            Artifact::Test {
                name: "case_two".to_string(),
                mode: CatchrMode::Tokio,
                body: Code::Block(vec![
                    Code::Stmt(&s1),
                    Code::Stmt(&s3),
                    Code::Block(vec![Code::Stmt(&s4)]),
                    Code::Stmt(&s5),
                ]),
            },
        ],
    };
    assert_eq!(art, expected);
}

#[test]
fn one_test_per_leaf() {
    let tokens = lex(
        r#"given "g" {
            let a = 0;
            when "w1" { then "t1" { } then "t2" { } }
            when "w2" { a; }
            case "c" { given "deep" { then "t3" { } } }
        }"#,
    );
    let section = Section::parse(&tokens).unwrap();
    let art = section.generate(CatchrMode::Sync);
    let mut found = vec![];
    tests(&art, &mut found);
    let names: Vec<String> = found
        .iter()
        .map(|a| match a {
            Artifact::Test { name, .. } => name.clone(),
            Artifact::Module { name, .. } => name.clone(),
        })
        .collect();
    assert_eq!(names, vec!["then_t1", "then_t2", "when_w2", "then_t3"]);
}

#[test]
fn siblings_do_not_see_each_other() {
    let tokens = lex(
        r#"section "s" {
            before();
            when "b" { only_b(); then "bb" { deep_b(); } }
            between();
            when "c" { only_c(); then "cc" { deep_c(); } }
            after();
        }"#,
    );
    let section = Section::parse(&tokens).unwrap();
    let art = section.generate(CatchrMode::Sync);
    let mut found = vec![];
    tests(&art, &mut found);
    assert_eq!(found.len(), 2);
    let render = |a: &Artifact| {
        let mut order = vec![];
        if let Artifact::Test { body, .. } = a {
            stmts(body, &mut order);
        }
        order
            .iter()
            .map(|s| match &s[0] {
                Token::Ident(i) => i.clone(),
                _ => String::new(),
            })
            .collect::<Vec<_>>()
    };
    assert_eq!(
        render(found[0]),
        vec!["before", "only_b", "deep_b", "between", "after"]
    );
    assert_eq!(
        render(found[1]),
        vec!["before", "between", "only_c", "deep_c", "after"]
    );
}

#[test]
fn distinct_names_give_distinct_identifiers() {
    let tokens = lex(
        r#"section "s" {
            when "A b" { }
            then "A b" { }
            when "a c" { }
            when "" { }
        }"#,
    );
    let section = Section::parse(&tokens).unwrap();
    let art = section.generate(CatchrMode::Sync);
    let mut found = vec![];
    tests(&art, &mut found);
    let names: Vec<String> = found
        .iter()
        .map(|a| match a {
            Artifact::Test { name, .. } => name.clone(),
            Artifact::Module { name, .. } => name.clone(),
        })
        .collect();
    assert_eq!(names, vec!["when_a_b", "then_a_b", "when_a_c", "when_empty"]);
}

#[test]
fn body_gives_one_scenario_module_per_block() {
    let tokens = lex(r#"setup(); when "a" { a(); } middle(); when "b" { b(); }"#);
    let body = SectionBody::parse(&tokens).unwrap();
    let mut scope = Scope::empty();
    let mut out = vec![];
    body.to_tokens_inner(&mut scope, CatchrMode::Sync, &mut out);

    let setup = lex("setup();");
    let a = lex("a();");
    let middle = lex("middle();");
    let b = lex("b();");
    assert_eq!(
        out,
        vec![
            Artifact::Module {
                name: "catchr_scenarios".to_string(),
                items: vec![Artifact::Test {
                    name: "when_a".to_string(),
                    mode: CatchrMode::Sync,
                    body: Code::Block(vec![
                        Code::Stmt(&setup),
                        Code::Block(vec![Code::Stmt(&a)]),
                        Code::Stmt(&middle),
                    ]),
                }],
            },
            Artifact::Module {
                name: "catchr_scenarios".to_string(),
                items: vec![Artifact::Test {
                    name: "when_b".to_string(),
                    mode: CatchrMode::Sync,
                    body: Code::Block(vec![
                        Code::Stmt(&setup),
                        Code::Stmt(&middle),
                        Code::Block(vec![Code::Stmt(&b)]),
                    ]),
                }],
            },
        ]
    );
}
