use vstd::prelude::*;
use vstd::slice::slice_subrange;

use crate::render::{render, render_seq};
use crate::section::Section;
use crate::section_body::SectionBody;
use crate::section_item::SectionItem;
use crate::section_keyword::{is_keyword_token, keyword_of, SectionKeyword};
use crate::syntax::{is_statement, parses_as_statement, string_literal_value, string_value};
use crate::token::{Delimiter, Token};

verus! {

broadcast use vstd::std_specs::vec::group_vec_axioms;

/// Why the input is not a well-formed block tree.
#[derive(Debug, Clone, Copy, PartialEq, Eq)]
pub enum ParseError {
    /// The input does not open with a block keyword.
    InvalidKeyword,
    /// A block keyword is not followed by a string literal.
    InvalidName,
    /// A block's name is not followed by a braced body.
    UnterminatedBlock,
    /// Tokens that open no block do not form a statement.
    MalformedStatement,
}

/// A statement may end after `j` tokens: at the end of the input, after a
/// semicolon, or after a braced group.
pub open spec fn is_end_candidate(t: Seq<Token>, j: int) -> bool {
    ||| j == t.len()
    ||| (1 <= j <= t.len() && match t[j - 1] {
        Token::Punct(c, _) => c == ';',
        Token::Group(d, _) => d == Delimiter::Brace,
        _ => false,
    })
}

/// The first `j` tokens form one statement.
pub open spec fn statement_ends_at(t: Seq<Token>, j: int) -> bool {
    &&& 1 <= j <= t.len()
    &&& is_end_candidate(t, j)
    &&& parses_as_statement(render_seq(t.subrange(0, j)))
}

/// The statement at the front of `t` is `j` tokens long: it is the longest one.
pub open spec fn longest_statement(t: Seq<Token>, j: int) -> bool {
    &&& statement_ends_at(t, j)
    &&& forall|k: int| j < k <= t.len() ==> !#[trigger] statement_ends_at(t, k)
}

/// The three tokens of a block: a keyword of the kind, a string literal whose
/// value is the name, and a braced group.
pub open spec fn block_header(t: Seq<Token>, kind: SectionKeyword, name: Seq<char>) -> bool {
    &&& t.len() >= 3
    &&& t[0] is Ident && keyword_of(t[0]->Ident_0@) == Some(kind)
    &&& t[1] is Literal && string_literal_value(t[1]->Literal_0@) == Some(name)
    &&& t[2] is Group && t[2]->Group_0 == Delimiter::Brace
}

/// `sec` is what the three tokens `t` say.
pub open spec fn section_parses<'a>(sec: Section<'a>, t: Seq<Token>) -> bool
    decreases sec,
{
    &&& t.len() == 3
    &&& block_header(t, sec.section_kind, sec.name@)
    &&& body_parses(sec.body.items@, t[2]->Group_1@)
}

/// `items` is what the tokens `t` say: each block keyword opens a block, and
/// the tokens between blocks split into statements, each the longest one that
/// the tokens allow.
pub open spec fn body_parses<'a>(items: Seq<SectionItem<'a>>, t: Seq<Token>) -> bool
    decreases items,
{
    if items.len() == 0 {
        t.len() == 0
    } else {
        match items[0] {
            SectionItem::Stmt(s) => {
                &&& !(t.len() > 0 && is_keyword_token(t[0]))
                &&& longest_statement(t, s@.len() as int)
                &&& s@ == t.subrange(0, s@.len() as int)
                &&& body_parses(items.drop_first(), t.subrange(s@.len() as int, t.len() as int))
            },
            SectionItem::Sep(sec) => {
                &&& t.len() >= 3
                &&& section_parses(sec, t.subrange(0, 3))
                &&& body_parses(items.drop_first(), t.subrange(3, t.len() as int))
            },
        }
    }
}

/// Some tree of items is what the tokens `t` say.
pub open spec fn parsable(t: Seq<Token>) -> bool {
    exists|items: Seq<SectionItem>| body_parses(items, t)
}

/// The text of a string literal token.
pub fn extract_literal_string(lit: &Token) -> (r: Option<String>)
    ensures
        match *lit {
            Token::Literal(raw) => match r {
                Some(s) => string_literal_value(raw@) == Some(s@),
                None => string_literal_value(raw@) is None,
            },
            _ => r is None,
        },
{
    match lit {
        Token::Literal(raw) => string_value(raw.as_str()),
        _ => None,
    }
}

fn ends_candidate(input: &[Token], j: usize) -> (r: bool)
    requires
        1 <= j <= input@.len(),
    ensures
        r == is_end_candidate(input@, j as int),
{
    if j == input.len() {
        return true;
    }
    match &input[j - 1] {
        Token::Punct(c, _) => *c == ';',
        Token::Group(d, _) => match d {
            Delimiter::Brace => true,
            _ => false,
        },
        _ => false,
    }
}

proof fn lemma_subrange_shift(t: Seq<Token>, i: int, k: int)
    requires
        0 <= i <= t.len(),
        0 <= k <= t.len() - i,
    ensures
        t.subrange(i, t.len() as int).subrange(0, k) == t.subrange(i, i + k),
        t.subrange(i, t.len() as int).subrange(k, t.len() - i) == t.subrange(i + k, t.len() as int),
{
    assert(t.subrange(i, t.len() as int).subrange(0, k) =~= t.subrange(i, i + k));
    assert(t.subrange(i, t.len() as int).subrange(k, t.len() - i) =~= t.subrange(i + k, t.len() as int));
}

/// Which error reading the tokens `t` as a body ends in, or `None` when they
/// read as a body: blocks and statements are taken in order, and the first
/// thing that fails decides, inside a block's braces before what follows it.
pub open spec fn body_error(t: Seq<Token>) -> Option<ParseError>
    decreases t,
{
    if t.len() == 0 {
        None
    } else if is_keyword_token(t[0]) {
        if !(t.len() > 1 && t[1] is Literal && string_literal_value(t[1]->Literal_0@) is Some) {
            Some(ParseError::InvalidName)
        } else if !(t.len() > 2 && t[2] is Group && t[2]->Group_0 == Delimiter::Brace) {
            Some(ParseError::UnterminatedBlock)
        } else if body_error(t[2]->Group_1@) is Some {
            body_error(t[2]->Group_1@)
        } else {
            body_error(t.subrange(3, t.len() as int))
        }
    } else if exists|j: int| longest_statement(t, j) {
        body_error(t.subrange(choose|j: int| longest_statement(t, j), t.len() as int))
    } else {
        Some(ParseError::MalformedStatement)
    }
}

proof fn lemma_longest_unique(t: Seq<Token>, j: int, k: int)
    requires
        longest_statement(t, j),
        longest_statement(t, k),
    ensures
        j == k,
{
    if j < k {
        assert(statement_ends_at(t, k));
    } else if k < j {
        assert(statement_ends_at(t, j));
    }
}

/// What any reading of a nonempty body shows of its front: a keyword opens a
/// whole block whose inside and whose rest read as bodies; anything else
/// opens the longest statement, and the rest after it reads as a body.
proof fn lemma_parsable_front(t: Seq<Token>)
    requires
        parsable(t),
        t.len() > 0,
    ensures
        is_keyword_token(t[0]) ==> {
            &&& t.len() >= 3
            &&& t[1] is Literal && string_literal_value(t[1]->Literal_0@) is Some
            &&& t[2] is Group && t[2]->Group_0 == Delimiter::Brace
            &&& parsable(t[2]->Group_1@)
            &&& parsable(t.subrange(3, t.len() as int))
        },
        !is_keyword_token(t[0]) ==> exists|j: int| longest_statement(t, j) && parsable(t.subrange(j, t.len() as int)),
{
    let w = choose|w: Seq<SectionItem>| body_parses(w, t);
    let h = t.subrange(0, 3);
    match w[0] {
        SectionItem::Sep(sec) => {
            assert(h[0] == t[0] && h[1] == t[1] && h[2] == t[2]);
            assert(section_parses(sec, h));
            assert(block_header(h, sec.section_kind, sec.name@));
            assert(body_parses(sec.body.items@, t[2]->Group_1@));
            assert(body_parses(w.drop_first(), t.subrange(3, t.len() as int)));
        },
        SectionItem::Stmt(s) => {
            assert(body_parses(w.drop_first(), t.subrange(s@.len() as int, t.len() as int)));
            assert(longest_statement(t, s@.len() as int));
        },
    }
}

/// Reads the items of a body from `input`, starting at `i`.
fn parse_items<'a>(input: &'a [Token], i: usize) -> (r: Result<Vec<SectionItem<'a>>, ParseError>)
    requires
        i <= input@.len(),
    ensures
        r is Ok ==> body_parses(r->Ok_0@, input@.subrange(i as int, input@.len() as int)),
        r is Err ==> !parsable(input@.subrange(i as int, input@.len() as int)),
        match r {
            Ok(_) => body_error(input@.subrange(i as int, input@.len() as int)) is None,
            Err(e) => body_error(input@.subrange(i as int, input@.len() as int)) == Some(e),
        },
    decreases input@, input@.len() - i,
{
    let n = input.len();
    let ghost t = input@.subrange(i as int, n as int);
    if i == n {
        let r: Vec<SectionItem<'a>> = Vec::new();
        assert(body_parses(r@, t));
        return Ok(r);
    }
    let rest_in = slice_subrange(input, i, n);
    assert(rest_in@[0] == t[0]);
    if SectionKeyword::peek(rest_in) {
        let name = if n - i < 2 {
            None
        } else {
            assert(t[1] == input@[i + 1]);
            extract_literal_string(&input[i + 1])
        };
        let name = match name {
            Some(s) => s,
            None => {
                proof {
                    if parsable(t) {
                        lemma_parsable_front(t);
                    }
                }
                return Err(ParseError::InvalidName);
            },
        };
        if n - i < 3 {
            proof {
                if parsable(t) {
                    lemma_parsable_front(t);
                }
            }
            return Err(ParseError::UnterminatedBlock);
        }
        assert(t[2] == input@[i + 2]);
        let inner = match &input[i + 2] {
            Token::Group(Delimiter::Brace, inner) => inner,
            _ => {
                proof {
                    if parsable(t) {
                        lemma_parsable_front(t);
                    }
                }
                return Err(ParseError::UnterminatedBlock);
            },
        };
        proof {
            assert(decreases_to!(input@ => input@[i + 2]));
            assert(decreases_to!(input@[i + 2] => input@[i + 2]->Group_1));
            assert(input@[i + 2]->Group_1 == *inner);
            assert(decreases_to!(*inner => inner@));
        }
        let sub = parse_items(inner.as_slice(), 0);
        assert(inner@.subrange(0, inner@.len() as int) =~= inner@);
        let sub = match sub {
            Ok(v) => v,
            Err(e) => {
                proof {
                    if parsable(t) {
                        lemma_parsable_front(t);
                    }
                }
                return Err(e);
            },
        };
        let rest = parse_items(input, i + 3);
        proof {
            lemma_subrange_shift(input@, i as int, 3);
        }
        let mut rest = match rest {
            Ok(v) => v,
            Err(e) => {
                proof {
                    if parsable(t) {
                        lemma_parsable_front(t);
                    }
                }
                return Err(e);
            },
        };
        let ghost rest_items = rest@;
        let kind = match &input[i] {
            Token::Ident(w) => SectionKeyword::from_word(w.as_str()),
            _ => None,
        };
        let kind = match kind {
            Some(k) => k,
            None => SectionKeyword::When,
        };
        let sec = Section::new(kind, name, SectionBody::new(sub));
        proof {
            assert(t.subrange(0, 3)[0] == t[0]);
            assert(t.subrange(0, 3)[1] == t[1]);
            assert(t.subrange(0, 3)[2] == t[2]);
            assert(section_parses(sec, t.subrange(0, 3)));
        }
        rest.insert(0, SectionItem::Sep(sec));
        proof {
            assert(rest@.drop_first() =~= rest_items);
            assert(body_parses(rest@, t));
        }
        Ok(rest)
    } else {
        let mut j: usize = n;
        let mut found = false;
        while j > i
            invariant_except_break
                !found,
            invariant
                i < n,
                n == input@.len(),
                i <= j <= n,
                t == input@.subrange(i as int, n as int),
                rest_in@ == t,
                forall|k: int| j - i < k <= t.len() ==> !#[trigger] statement_ends_at(t, k),
            ensures
                found ==> i < j && statement_ends_at(t, j - i),
                !found ==> j == i,
            decreases j,
        {
            let cand = ends_candidate(rest_in, j - i);
            if cand {
                let text = render(slice_subrange(input, i, j));
                proof {
                    lemma_subrange_shift(input@, i as int, j - i);
                }
                if is_statement(text.as_str()) {
                    found = true;
                    break;
                }
            }
            j -= 1;
        }
        if !found {
            proof {
                if exists|k: int| longest_statement(t, k) {
                    let k = choose|k: int| longest_statement(t, k);
                    assert(statement_ends_at(t, k));
                }
                if parsable(t) {
                    lemma_parsable_front(t);
                }
            }
            return Err(ParseError::MalformedStatement);
        }
        let ghost len = j - i;
        assert(longest_statement(t, len));
        proof {
            let k = choose|k: int| longest_statement(t, k);
            lemma_longest_unique(t, k, len);
        }
        let stmt = slice_subrange(input, i, j);
        proof {
            lemma_subrange_shift(input@, i as int, len);
        }
        let rest = parse_items(input, j);
        let mut rest = match rest {
            Ok(v) => v,
            Err(e) => {
                proof {
                    if parsable(t) {
                        lemma_parsable_front(t);
                        let k = choose|k: int| longest_statement(t, k) && parsable(t.subrange(k, t.len() as int));
                        lemma_longest_unique(t, k, len);
                    }
                }
                return Err(e);
            },
        };
        let ghost rest_items = rest@;
        rest.insert(0, SectionItem::Stmt(stmt));
        proof {
            assert(rest@.drop_first() =~= rest_items);
            assert(rest@[0] == SectionItem::Stmt(stmt));
            assert(body_parses(rest@, t));
        }
        Ok(rest)
    }
}

/// What is wrong with the tokens of a single block, as far as its three
/// tokens show it; `None` when they are a keyword, a string literal and a
/// braced group.
pub open spec fn header_error(t: Seq<Token>) -> Option<ParseError> {
    if !(t.len() > 0 && is_keyword_token(t[0])) {
        Some(ParseError::InvalidKeyword)
    } else if !(t.len() > 1 && t[1] is Literal && string_literal_value(t[1]->Literal_0@) is Some) {
        Some(ParseError::InvalidName)
    } else if !(t.len() > 2 && t[2] is Group && t[2]->Group_0 == Delimiter::Brace) {
        Some(ParseError::UnterminatedBlock)
    } else if t.len() > 3 {
        Some(ParseError::MalformedStatement)
    } else {
        None
    }
}

impl SectionKeyword {
    /// Reads the keyword that opens a block.
    pub fn parse(input: &[Token]) -> (r: Result<SectionKeyword, ParseError>)
        ensures
            match r {
                Ok(k) => input@.len() > 0 && input@[0] is Ident && keyword_of(input@[0]->Ident_0@) == Some(k),
                Err(e) => e == ParseError::InvalidKeyword && !(input@.len() > 0 && is_keyword_token(input@[0])),
            },
    {
        if input.len() == 0 {
            return Err(ParseError::InvalidKeyword);
        }
        match &input[0] {
            Token::Ident(w) => match SectionKeyword::from_word(w.as_str()) {
                Some(k) => Ok(k),
                None => Err(ParseError::InvalidKeyword),
            },
            _ => Err(ParseError::InvalidKeyword),
        }
    }
}

impl<'a> SectionBody<'a> {
    /// Reads a whole body: statements and blocks, in order.
    pub fn parse(input: &'a [Token]) -> (r: Result<SectionBody<'a>, ParseError>)
        ensures
            match r {
                Ok(b) => body_parses(b.items@, input@) && body_error(input@) is None,
                Err(e) => !parsable(input@) && body_error(input@) == Some(e),
            },
    {
        let r = parse_items(input, 0);
        assert(input@.subrange(0, input@.len() as int) =~= input@);
        match r {
            Ok(items) => Ok(SectionBody::new(items)),
            Err(e) => Err(e),
        }
    }
}

impl<'a> Section<'a> {
    /// Whether the input opens with a block.
    pub fn peek(input: &[Token]) -> (r: bool)
        ensures
            r == (input@.len() > 0 && is_keyword_token(input@[0])),
    {
        SectionKeyword::peek(input)
    }

    /// Reads one block that makes up the whole input.
    pub fn parse(input: &'a [Token]) -> (r: Result<Section<'a>, ParseError>)
        ensures
            match r {
                Ok(s) => section_parses(s, input@),
                Err(e) => match header_error(input@) {
                    Some(h) => e == h,
                    None => !parsable(input@[2]->Group_1@) && body_error(input@[2]->Group_1@) == Some(e),
                },
            },
            r is Err <==> !exists|s: Section<'a>| section_parses(s, input@),
    {
        let kind = match SectionKeyword::parse(input) {
            Ok(k) => k,
            Err(e) => return Err(e),
        };
        if input.len() < 2 {
            return Err(ParseError::InvalidName);
        }
        let name = match extract_literal_string(&input[1]) {
            Some(s) => s,
            None => return Err(ParseError::InvalidName),
        };
        if input.len() < 3 {
            return Err(ParseError::UnterminatedBlock);
        }
        let inner = match &input[2] {
            Token::Group(Delimiter::Brace, inner) => inner,
            _ => return Err(ParseError::UnterminatedBlock),
        };
        if input.len() > 3 {
            return Err(ParseError::MalformedStatement);
        }
        match SectionBody::parse(inner.as_slice()) {
            Ok(body) => {
                let s = Section::new(kind, name, body);
                assert(section_parses(s, input@));
                Ok(s)
            },
            Err(e) => {
                proof {
                    if exists|s: Section<'a>| section_parses(s, input@) {
                        let s = choose|s: Section<'a>| section_parses(s, input@);
                        assert(body_parses(s.body.items@, inner@));
                    }
                }
                Err(e)
            },
        }
    }
}

} // verus!
