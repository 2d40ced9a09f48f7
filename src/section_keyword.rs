use vstd::prelude::*;

use crate::token::Token;

verus! {

/// The keywords that open a nested block.
#[derive(Debug, Clone, Copy, PartialEq, Eq)]
pub enum SectionKeyword {
    When,
    Then,
    Given,
    Case,
    Section,
}

/// The naming prefix of each kind of block.
pub open spec fn keyword_name(k: SectionKeyword) -> Seq<char> {
    match k {
        SectionKeyword::When => seq!['w', 'h', 'e', 'n'],
        SectionKeyword::Then => seq!['t', 'h', 'e', 'n'],
        SectionKeyword::Given => seq!['g', 'i', 'v', 'e', 'n'],
        SectionKeyword::Case => seq!['c', 'a', 's', 'e'],
        SectionKeyword::Section => seq!['s', 'e', 'c', 't', 'i', 'o', 'n'],
    }
}

/// The kind of block that a word opens, if it is a keyword.
pub open spec fn keyword_of(w: Seq<char>) -> Option<SectionKeyword> {
    if w == keyword_name(SectionKeyword::When) {
        Some(SectionKeyword::When)
    } else if w == keyword_name(SectionKeyword::Then) {
        Some(SectionKeyword::Then)
    } else if w == keyword_name(SectionKeyword::Given) {
        Some(SectionKeyword::Given)
    } else if w == keyword_name(SectionKeyword::Case) {
        Some(SectionKeyword::Case)
    } else if w == keyword_name(SectionKeyword::Section) {
        Some(SectionKeyword::Section)
    } else {
        None
    }
}

/// Whether a token is a block keyword.
pub open spec fn is_keyword_token(t: Token) -> bool {
    match t {
        Token::Ident(w) => keyword_of(w@).is_some(),
        _ => false,
    }
}

/// Compares two strings character by character.
pub fn same_text(a: &str, b: &str) -> (r: bool)
    ensures
        r == (a@ == b@),
{
    let n = a.unicode_len();
    if n != b.unicode_len() {
        return false;
    }
    let mut i: usize = 0;
    while i < n
        invariant
            n == a@.len(),
            n == b@.len(),
            i <= n,
            forall|k: int| 0 <= k < i ==> a@[k] == b@[k],
        decreases n - i,
    {
        if a.get_char(i) != b.get_char(i) {
            return false;
        }
        i += 1;
    }
    assert(a@ =~= b@);
    true
}

impl SectionKeyword {
    pub fn to_name(&self) -> (r: String)
        ensures
            r@ == keyword_name(*self),
    {
        let s = match self {
            SectionKeyword::When => "when",
            SectionKeyword::Then => "then",
            SectionKeyword::Given => "given",
            SectionKeyword::Case => "case",
            SectionKeyword::Section => "section",
        };
        proof {
            reveal_strlit("when");
            reveal_strlit("then");
            reveal_strlit("given");
            reveal_strlit("case");
            reveal_strlit("section");
        }
        let r = s.to_owned();
        assert(r@ =~= keyword_name(*self));
        r
    }

    /// Recognises a keyword among the words of the input.
    pub fn from_word(w: &str) -> (r: Option<SectionKeyword>)
        ensures
            r == keyword_of(w@),
    {
        proof {
            reveal_strlit("when");
            reveal_strlit("then");
            reveal_strlit("given");
            reveal_strlit("case");
            reveal_strlit("section");
            assert("when"@ =~= keyword_name(SectionKeyword::When));
            assert("then"@ =~= keyword_name(SectionKeyword::Then));
            assert("given"@ =~= keyword_name(SectionKeyword::Given));
            assert("case"@ =~= keyword_name(SectionKeyword::Case));
            assert("section"@ =~= keyword_name(SectionKeyword::Section));
        }
        if same_text(w, "when") {
            Some(SectionKeyword::When)
        } else if same_text(w, "then") {
            Some(SectionKeyword::Then)
        } else if same_text(w, "given") {
            Some(SectionKeyword::Given)
        } else if same_text(w, "case") {
            Some(SectionKeyword::Case)
        } else if same_text(w, "section") {
            Some(SectionKeyword::Section)
        } else {
            None
        }
    }

    /// Whether the next token opens a block; nothing is consumed.
    pub fn peek(input: &[Token]) -> (r: bool)
        ensures
            r == (input@.len() > 0 && is_keyword_token(input@[0])),
    {
        if input.len() == 0 {
            return false;
        }
        match &input[0] {
            Token::Ident(w) => SectionKeyword::from_word(w.as_str()).is_some(),
            _ => false,
        }
    }
}

} // verus!
