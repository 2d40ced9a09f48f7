use vstd::prelude::*;

verus! {

/// How a group of tokens is delimited.
#[derive(Debug, Clone, Copy, PartialEq, Eq)]
pub enum Delimiter {
    Parenthesis,
    Brace,
    Bracket,
    Invisible,
}

/// One token tree of the input, held as plain values: an identifier or keyword,
/// a punctuation character (with whether it is joined to the next one), a
/// literal as written in the source, or a delimited group of tokens.
#[derive(Debug, PartialEq, Eq)]
pub enum Token {
    Ident(String),
    Punct(char, bool),
    Literal(String),
    Group(Delimiter, Vec<Token>),
}

} // verus!
