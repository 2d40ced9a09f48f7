use vstd::prelude::*;

use crate::section::Section;
use crate::section_item::SectionItem;
use crate::token::Token;

verus! {

/// The ordered items of a block.
#[derive(Debug, PartialEq, Eq)]
pub struct SectionBody<'a> {
    pub items: Vec<SectionItem<'a>>,
}

/// The statements among `items`, in order.
pub open spec fn stmts_of<'a>(items: Seq<SectionItem<'a>>) -> Seq<&'a [Token]>
    decreases items.len(),
{
    if items.len() == 0 {
        Seq::empty()
    } else {
        let p = stmts_of(items.drop_last());
        match items.last() {
            SectionItem::Stmt(s) => p.push(s),
            SectionItem::Sep(_) => p,
        }
    }
}

/// A body is a leaf when every item is a statement.
pub open spec fn is_leaf<'a>(items: Seq<SectionItem<'a>>) -> bool {
    forall|i: int| 0 <= i < items.len() ==> #[trigger] items[i] is Stmt
}

/// The statements that precede the item at `idx` (all of them when `idx` is
/// past the end).
pub open spec fn stmts_before<'a>(items: Seq<SectionItem<'a>>, idx: int) -> Seq<&'a [Token]> {
    if idx < items.len() {
        stmts_of(items.subrange(0, idx))
    } else {
        stmts_of(items)
    }
}

/// The statements that follow the item at `idx` (none when `idx` is the last
/// position or past it).
pub open spec fn stmts_after<'a>(items: Seq<SectionItem<'a>>, idx: int) -> Seq<&'a [Token]> {
    if idx < items.len() {
        stmts_of(items.subrange(idx + 1, items.len() as int))
    } else {
        Seq::empty()
    }
}

impl<'a> SectionBody<'a> {
    pub fn empty() -> (r: SectionBody<'a>)
        ensures
            r.items@.len() == 0,
    {
        SectionBody { items: Vec::new() }
    }

    pub fn new(items: Vec<SectionItem<'a>>) -> (r: SectionBody<'a>)
        ensures
            r.items@ == items@,
    {
        SectionBody { items }
    }

    pub fn push_stmt(&mut self, stmt: &'a [Token])
        ensures
            final(self).items@ == old(self).items@.push(SectionItem::Stmt(stmt)),
    {
        self.items.push(SectionItem::Stmt(stmt));
    }

    pub fn push_section(&mut self, item: Section<'a>)
        ensures
            final(self).items@ == old(self).items@.push(SectionItem::Sep(item)),
    {
        self.items.push(SectionItem::Sep(item));
    }

    /// Whether the body holds statements only.
    pub fn is_top_level(&self) -> (r: bool)
        ensures
            r == is_leaf(self.items@),
    {
        let mut i: usize = 0;
        while i < self.items.len()
            invariant
                i <= self.items@.len(),
                forall|k: int| 0 <= k < i ==> #[trigger] self.items@[k] is Stmt,
            decreases self.items@.len() - i,
        {
            if !self.items[i].is_stmt() {
                return false;
            }
            i += 1;
        }
        true
    }

    pub fn get_stmts_before(&self, idx: usize) -> (r: Vec<&'a [Token]>)
        ensures
            r@ == stmts_before(self.items@, idx as int),
    {
        let idx = if idx < self.items.len() {
            idx
        } else {
            self.items.len()
        };
        assert(self.items@.subrange(0, self.items@.len() as int) =~= self.items@);
        let mut r: Vec<&'a [Token]> = Vec::new();
        let mut i: usize = 0;
        while i < idx
            invariant
                idx <= self.items@.len(),
                i <= idx,
                r@ == stmts_of(self.items@.subrange(0, i as int)),
            decreases idx - i,
        {
            assert(self.items@.subrange(0, i + 1).drop_last() =~= self.items@.subrange(0, i as int));
            if let Some(s) = self.items[i].stmt() {
                r.push(s);
            }
            i += 1;
        }
        r
    }

    pub fn get_stmts_after(&self, idx: usize) -> (r: Vec<&'a [Token]>)
        ensures
            r@ == stmts_after(self.items@, idx as int),
    {
        let mut r: Vec<&'a [Token]> = Vec::new();
        let n = self.items.len();
        if idx >= n {
            return r;
        }
        let mut i: usize = idx + 1;
        let ghost start = idx + 1;
        while i < self.items.len()
            invariant
                start == idx + 1,
                start <= i <= self.items@.len(),
                r@ == stmts_of(self.items@.subrange(start as int, i as int)),
            decreases self.items@.len() - i,
        {
            assert(self.items@.subrange(start as int, i + 1).drop_last() =~= self.items@.subrange(start as int, i as int));
            if let Some(s) = self.items[i].stmt() {
                r.push(s);
            }
            i += 1;
        }
        r
    }

    pub fn items(&self) -> (r: &[SectionItem<'a>])
        ensures
            r@ == self.items@,
    {
        self.items.as_slice()
    }
}

} // verus!
