use catchr_core::{ParseError, SectionKeyword, Token};

#[test]
fn keyword_to_name() {
    assert_eq!(&SectionKeyword::When.to_name(), "when");
    assert_eq!(&SectionKeyword::Given.to_name(), "given");
    assert_eq!(&SectionKeyword::Section.to_name(), "section");
    assert_eq!(&SectionKeyword::Then.to_name(), "then");
    assert_eq!(&SectionKeyword::Case.to_name(), "case");
}

#[test]
fn keyword_parse() {
    let cases = [
        ("when", SectionKeyword::When),
        ("given", SectionKeyword::Given),
        ("section", SectionKeyword::Section),
        ("then", SectionKeyword::Then),
        ("case", SectionKeyword::Case),
    ];
    for (word, kind) in cases {
        let input = vec![Token::Ident(word.to_string())];
        assert_eq!(SectionKeyword::parse(&input), Ok(kind));
        assert!(SectionKeyword::peek(&input));
    }
}

#[test]
fn keyword_parse_rejects_other_words() {
    let input = vec![Token::Ident("whenever".to_string())];
    assert_eq!(SectionKeyword::parse(&input), Err(ParseError::InvalidKeyword));
    assert!(!SectionKeyword::peek(&input));
    assert!(!SectionKeyword::peek(&[]));
    assert_eq!(SectionKeyword::from_word("When"), None);
}
