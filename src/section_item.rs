use vstd::prelude::*;

use crate::section::Section;
use crate::token::Token;

verus! {

/// One item of a block's body: a nested block, or a statement borrowed from the input.
#[derive(Debug, PartialEq, Eq)]
pub enum SectionItem<'a> {
    Sep(Section<'a>),
    Stmt(&'a [Token]),
}

impl<'a> SectionItem<'a> {
    pub fn is_stmt(&self) -> (r: bool)
        ensures
            r == self is Stmt,
    {
        match self {
            SectionItem::Stmt(_) => true,
            SectionItem::Sep(_) => false,
        }
    }

    pub fn stmt(&self) -> (r: Option<&'a [Token]>)
        ensures
            r == (match *self {
                SectionItem::Stmt(s) => Some(s),
                SectionItem::Sep(_) => None,
            }),
    {
        match self {
            SectionItem::Stmt(s) => Some(*s),
            SectionItem::Sep(_) => None,
        }
    }
}

} // verus!
