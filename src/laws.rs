use vstd::prelude::*;

use crate::catchr_mode::CatchrMode;
use crate::code::{all_after, all_before, flatten, law_wrapped_order, FrameModel};
use crate::token::Token;
use crate::section::{frame_at, generates, ident_of, nested_upto, Artifact, Section};
use crate::section_body::{is_leaf, stmts_of};
use crate::section_item::SectionItem;
use crate::section_keyword::{keyword_name, SectionKeyword};
use crate::utils::escape_spec;

verus! {

broadcast use vstd::std_specs::vec::group_vec_axioms;

/// The number of leaf blocks in a tree, the root included.
pub open spec fn leaf_count<'a>(sec: Section<'a>) -> int
    decreases sec, 0int,
{
    if is_leaf(sec.body.items@) {
        1
    } else {
        leaves_among(sec.body.items, sec.body.items@.len() as int)
    }
}

/// The number of leaf blocks under the nested blocks among the first `n` items.
pub open spec fn leaves_among<'a>(v: Vec<SectionItem<'a>>, n: int) -> int
    decreases v, n,
{
    if n <= 0 || n > v@.len() {
        0
    } else {
        leaves_among(v, n - 1) + match v[n - 1] {
            SectionItem::Sep(s) => leaf_count(s),
            SectionItem::Stmt(_) => 0,
        }
    }
}

/// The number of test procedures in an artifact.
pub open spec fn test_count<'a>(art: Artifact<'a>) -> int
    decreases art, 0int,
{
    match art {
        Artifact::Test { .. } => 1,
        Artifact::Module { items, .. } => tests_among(items, items@.len() as int),
    }
}

/// The number of test procedures in the first `n` artifacts of `v`.
pub open spec fn tests_among<'a>(v: Vec<Artifact<'a>>, n: int) -> int
    decreases v, n,
{
    if n <= 0 || n > v@.len() {
        0
    } else {
        tests_among(v, n - 1) + test_count(v[n - 1])
    }
}

proof fn lemma_counts_upto<'a>(
    sec: Section<'a>,
    frames: Seq<FrameModel<'a>>,
    mode: CatchrMode,
    art: Artifact<'a>,
    n: int,
)
    requires
        0 <= n <= sec.body.items@.len(),
        !is_leaf(sec.body.items@),
        generates(sec, frames, mode, art),
    ensures
        art is Module,
        nested_upto(sec.body.items@, n).len() <= art->items@.len(),
        tests_among(art->items, nested_upto(sec.body.items@, n).len() as int) == leaves_among(sec.body.items, n),
    decreases sec, n,
{
    let items = sec.body.items@;
    let children = art->items;
    lemma_nested_prefix(items, n, items.len() as int);
    if n > 0 {
        lemma_counts_upto(sec, frames, mode, art, n - 1);
        let m = nested_upto(items, n - 1).len() as int;
        if items[n - 1] is Sep {
            assert(nested_upto(items, n) == nested_upto(items, n - 1).push(n - 1));
            assert(nested_upto(items, n)[m] == n - 1);
            assert(nested_upto(items, items.len() as int)[m] == n - 1);
            let child = items[n - 1]->Sep_0;
            assert(sec.body.items[n - 1] == items[n - 1]);
            assert(generates(child, frames.push(crate::section::frame_at(items, n - 1)), mode, children@[m]));
            law_leaf_count(child, frames.push(crate::section::frame_at(items, n - 1)), mode, children@[m]);
            assert(children[m] == children@[m]);
        } else {
            assert(nested_upto(items, n) == nested_upto(items, n - 1));
        }
    }
}

proof fn lemma_nested_prefix<'a>(items: Seq<SectionItem<'a>>, n: int, m: int)
    requires
        0 <= n <= m <= items.len(),
    ensures
        nested_upto(items, n).len() <= nested_upto(items, m).len(),
        forall|k: int| 0 <= k < nested_upto(items, n).len() ==> #[trigger] nested_upto(items, n)[k] == nested_upto(items, m)[k],
    decreases m - n,
{
    if n < m {
        lemma_nested_prefix(items, n, m - 1);
    }
}

/// The generator emits exactly one test procedure per leaf block of the tree.
pub proof fn law_leaf_count<'a>(sec: Section<'a>, frames: Seq<FrameModel<'a>>, mode: CatchrMode, art: Artifact<'a>)
    requires
        generates(sec, frames, mode, art),
    ensures
        test_count(art) == leaf_count(sec),
    decreases sec, sec.body.items@.len() + 1,
{
    let items = sec.body.items@;
    if !is_leaf(items) {
        lemma_counts_upto(sec, frames, mode, art, items.len() as int);
    }
}

proof fn lemma_prefix_split(a: Seq<char>, x: Seq<char>, b: Seq<char>, y: Seq<char>)
    requires
        forall|i: int| 0 <= i < a.len() ==> a[i] != '_',
        forall|i: int| 0 <= i < b.len() ==> b[i] != '_',
        a + seq!['_'] + x == b + seq!['_'] + y,
    ensures
        a == b,
        x == y,
{
    let l = a + seq!['_'] + x;
    let r = b + seq!['_'] + y;
    if a.len() < b.len() {
        assert(l[a.len() as int] == '_');
        assert(r[a.len() as int] == b[a.len() as int]);
    } else if b.len() < a.len() {
        assert(r[b.len() as int] == '_');
        assert(l[b.len() as int] == a[b.len() as int]);
    } else {
        assert(a =~= l.subrange(0, a.len() as int));
        assert(b =~= r.subrange(0, b.len() as int));
        assert(x =~= l.subrange(a.len() + 1int, l.len() as int));
        assert(y =~= r.subrange(b.len() + 1int, r.len() as int));
    }
}

proof fn lemma_keyword_name_injective(k1: SectionKeyword, k2: SectionKeyword)
    requires
        keyword_name(k1) == keyword_name(k2),
    ensures
        k1 == k2,
{
    let a = keyword_name(k1);
    let b = keyword_name(k2);
    assert(a.len() == b.len());
    assert(a[0] == b[0]);
}

/// Two blocks whose kinds differ, or whose names escape differently, get
/// different identifiers.
pub proof fn law_identifier_unique(k1: SectionKeyword, n1: Seq<char>, k2: SectionKeyword, n2: Seq<char>)
    requires
        k1 != k2 || escape_spec(n1) != escape_spec(n2),
    ensures
        ident_of(k1, n1) != ident_of(k2, n2),
{
    if ident_of(k1, n1) == ident_of(k2, n2) {
        let a = keyword_name(k1);
        let b = keyword_name(k2);
        assert(forall|i: int| 0 <= i < a.len() ==> a[i] != '_');
        assert(forall|i: int| 0 <= i < b.len() ==> b[i] != '_');
        lemma_prefix_split(a, escape_spec(n1), b, escape_spec(n2));
        lemma_keyword_name_injective(k1, k2);
    }
}

/// The test generated for a leaf block runs the before statements of every
/// enclosing frame from the outermost in, then the block's own statements,
/// then the after statements from the innermost frame out.
pub proof fn law_leaf_order<'a>(sec: Section<'a>, frames: Seq<FrameModel<'a>>, mode: CatchrMode, art: Artifact<'a>)
    requires
        generates(sec, frames, mode, art),
        is_leaf(sec.body.items@),
    ensures
        art is Test,
        flatten(art->Test_body) == all_before(frames) + stmts_of(sec.body.items@) + all_after(frames),
{
    law_wrapped_order(art->Test_body, frames, stmts_of(sec.body.items@));
}

/// The statement `s` runs in some test procedure of `art`.
pub open spec fn in_tests<'a>(art: Artifact<'a>, s: &'a [Token]) -> bool
    decreases art,
{
    match art {
        Artifact::Test { body, .. } => flatten(body).contains(s),
        Artifact::Module { items, .. } => exists|k: int| 0 <= k < items@.len() && in_tests(#[trigger] items[k], s),
    }
}

/// The statement `s` is written in `sec` itself or in one of its nested blocks.
pub open spec fn within<'a>(sec: Section<'a>, s: &'a [Token]) -> bool
    decreases sec,
{
    let items = sec.body.items@;
    ||| stmts_of(items).contains(s)
    ||| exists|p: int| 0 <= p < sec.body.items@.len() && #[trigger] sec.body.items[p] is Sep && within(sec.body.items[p]->Sep_0, s)
}

/// The statement `s` belongs to one of the frames.
pub open spec fn in_frames<'a>(frames: Seq<FrameModel<'a>>, s: &'a [Token]) -> bool {
    exists|i: int| 0 <= i < frames.len() && (#[trigger] frames[i].0.contains(s) || frames[i].1.contains(s))
}

proof fn lemma_stmts_of_member<'a>(items: Seq<SectionItem<'a>>, s: &'a [Token])
    requires
        stmts_of(items).contains(s),
    ensures
        exists|i: int| 0 <= i < items.len() && items[i] == SectionItem::Stmt(s),
    decreases items.len(),
{
    let p = stmts_of(items.drop_last());
    if items.len() > 0 {
        if p.contains(s) {
            lemma_stmts_of_member(items.drop_last(), s);
            let i = choose|i: int| 0 <= i < items.drop_last().len() && items.drop_last()[i] == SectionItem::Stmt(s);
            assert(items[i] == SectionItem::Stmt(s));
        } else {
            let j = choose|j: int| 0 <= j < stmts_of(items).len() && stmts_of(items)[j] == s;
            assert(items.last() is Stmt);
            if j < p.len() {
                assert(p[j] == s);
            }
            assert(items[items.len() - 1] == SectionItem::Stmt(s));
        }
    }
}

proof fn lemma_member_stmts_of<'a>(items: Seq<SectionItem<'a>>, i: int, s: &'a [Token])
    requires
        0 <= i < items.len(),
        items[i] == SectionItem::Stmt(s),
    ensures
        stmts_of(items).contains(s),
    decreases items.len(),
{
    if i < items.len() - 1 {
        lemma_member_stmts_of(items.drop_last(), i, s);
        let p = stmts_of(items.drop_last());
        let j = choose|j: int| 0 <= j < p.len() && p[j] == s;
        assert(stmts_of(items)[j] == s);
    } else {
        let p = stmts_of(items.drop_last());
        assert(stmts_of(items)[p.len() as int] == s);
    }
}

proof fn lemma_frame_at_within<'a>(items: Seq<SectionItem<'a>>, p: int, s: &'a [Token])
    requires
        0 <= p < items.len(),
        frame_at(items, p).0.contains(s) || frame_at(items, p).1.contains(s),
    ensures
        stmts_of(items).contains(s),
{
    if frame_at(items, p).0.contains(s) {
        let sub = items.subrange(0, p);
        lemma_stmts_of_member(sub, s);
        let i = choose|i: int| 0 <= i < sub.len() && sub[i] == SectionItem::Stmt(s);
        lemma_member_stmts_of(items, i, s);
    } else {
        let sub = items.subrange(p + 1, items.len() as int);
        lemma_stmts_of_member(sub, s);
        let i = choose|i: int| 0 <= i < sub.len() && sub[i] == SectionItem::Stmt(s);
        lemma_member_stmts_of(items, p + 1 + i, s);
    }
}

proof fn lemma_all_before_in_frames<'a>(frames: Seq<FrameModel<'a>>, s: &'a [Token])
    requires
        all_before(frames).contains(s) || all_after(frames).contains(s),
    ensures
        in_frames(frames, s),
    decreases frames.len(),
{
    if frames.len() > 0 {
        let rest = frames.drop_first();
        let b = frames[0].0;
        let a = frames[0].1;
        if b.contains(s) || a.contains(s) {
            assert(frames[0].0.contains(s) || frames[0].1.contains(s));
        } else {
            if all_before(frames).contains(s) {
                let j = choose|j: int| 0 <= j < all_before(frames).len() && all_before(frames)[j] == s;
                if j < b.len() {
                    assert(b[j] == s);
                }
                assert(all_before(rest)[j - b.len()] == s);
            } else {
                let j = choose|j: int| 0 <= j < all_after(frames).len() && all_after(frames)[j] == s;
                if j >= all_after(rest).len() {
                    assert(a[j - all_after(rest).len()] == s);
                }
                assert(all_after(rest)[j] == s);
            }
            lemma_all_before_in_frames(rest, s);
            let i = choose|i: int| 0 <= i < rest.len() && (#[trigger] rest[i].0.contains(s) || rest[i].1.contains(s));
            assert(frames[i + 1] == rest[i]);
        }
    }
}

/// Every statement that runs in a test generated for a block comes from the
/// framing it was generated in, or is written in the block or its nested blocks.
pub proof fn law_statements_come_from_scope<'a>(
    sec: Section<'a>,
    frames: Seq<FrameModel<'a>>,
    mode: CatchrMode,
    art: Artifact<'a>,
    s: &'a [Token],
)
    requires
        generates(sec, frames, mode, art),
        in_tests(art, s),
    ensures
        in_frames(frames, s) || within(sec, s),
    decreases sec,
{
    let items = sec.body.items@;
    if is_leaf(items) {
        let body = art->Test_body;
        law_wrapped_order(body, frames, stmts_of(items));
        let j = choose|j: int| 0 <= j < flatten(body).len() && flatten(body)[j] == s;
        let b = all_before(frames);
        let l = stmts_of(items);
        if j < b.len() {
            assert(b[j] == s);
            lemma_all_before_in_frames(frames, s);
        } else if j < b.len() + l.len() {
            assert(l[j - b.len()] == s);
        } else {
            assert(all_after(frames)[j - b.len() - l.len()] == s);
            lemma_all_before_in_frames(frames, s);
        }
    } else {
        let children = art->Module_items;
        let k = choose|k: int| 0 <= k < children@.len() && in_tests(#[trigger] children[k], s);
        let pos = nested_upto(items, items.len() as int);
        let p = pos[k];
        let child = items[p]->Sep_0;
        assert(children[k] == children@[k]);
        assert(sec.body.items[p] == items[p]);
        let fa = frame_at(items, p);
        law_statements_come_from_scope(child, frames.push(fa), mode, children@[k], s);
        if in_frames(frames.push(fa), s) {
            let i = choose|i: int| 0 <= i < frames.push(fa).len() && (#[trigger] frames.push(fa)[i].0.contains(s) || frames.push(fa)[i].1.contains(s));
            if i < frames.len() {
                assert(frames[i] == frames.push(fa)[i]);
            } else {
                lemma_frame_at_within(items, p, s);
            }
        }
    }
}

/// Sibling isolation: a statement that runs in a test generated for the nested
/// block at position `p` comes from the outer framing, from the parent's own
/// statements, or from that nested block; never from a sibling's subtree alone.
pub proof fn law_sibling_isolation<'a>(
    sec: Section<'a>,
    frames: Seq<FrameModel<'a>>,
    mode: CatchrMode,
    art: Artifact<'a>,
    k: int,
    s: &'a [Token],
)
    requires
        generates(sec, frames, mode, art),
        art is Module,
        0 <= k < art->Module_items@.len(),
        in_tests(art->Module_items@[k], s),
    ensures
        ({
            let items = sec.body.items@;
            let p = nested_upto(items, items.len() as int)[k];
            in_frames(frames, s) || stmts_of(items).contains(s) || within(items[p]->Sep_0, s)
        }),
{
    let items = sec.body.items@;
    let p = nested_upto(items, items.len() as int)[k];
    let fa = frame_at(items, p);
    let children = art->Module_items;
    law_statements_come_from_scope(items[p]->Sep_0, frames.push(fa), mode, children@[k], s);
    if in_frames(frames.push(fa), s) {
        let i = choose|i: int| 0 <= i < frames.push(fa).len() && (#[trigger] frames.push(fa)[i].0.contains(s) || frames.push(fa)[i].1.contains(s));
        if i < frames.len() {
            assert(frames[i] == frames.push(fa)[i]);
        } else {
            lemma_frame_at_within(items, p, s);
        }
    }
}

} // verus!
