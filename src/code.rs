use vstd::prelude::*;

use crate::token::Token;

verus! {

broadcast use vstd::std_specs::vec::group_vec_axioms;

/// Generated code: a statement borrowed from the input, or a braced block of code.
#[derive(Debug, PartialEq, Eq)]
pub enum Code<'a> {
    Stmt(&'a [Token]),
    Block(Vec<Code<'a>>),
}

/// One frame of framing statements: those that run before and after what it wraps.
pub type FrameModel<'a> = (Seq<&'a [Token]>, Seq<&'a [Token]>);

/// `v` is exactly the statements `s`, in order.
pub open spec fn are_stmts<'a>(v: Seq<Code<'a>>, s: Seq<&'a [Token]>) -> bool {
    &&& v.len() == s.len()
    &&& forall|k: int| 0 <= k < v.len() ==> #[trigger] v[k] == Code::Stmt(s[k])
}

/// `c` is the leaf statements wrapped by the frames, the last frame innermost:
/// each frame gives a block of its before statements, the wrapped code, and its
/// after statements; the leaf statements form the innermost block.
pub open spec fn wrapped<'a>(c: Code<'a>, frames: Seq<FrameModel<'a>>, leaf: Seq<&'a [Token]>) -> bool
    decreases frames.len(),
{
    match c {
        Code::Block(v) => if frames.len() == 0 {
            are_stmts(v@, leaf)
        } else {
            let b = frames[0].0;
            let a = frames[0].1;
            &&& v@.len() == b.len() + 1 + a.len()
            &&& are_stmts(v@.subrange(0, b.len() as int), b)
            &&& wrapped(v@[b.len() as int], frames.drop_first(), leaf)
            &&& are_stmts(v@.subrange(b.len() + 1int, v@.len() as int), a)
        },
        Code::Stmt(_) => false,
    }
}

/// The statements of a piece of code in the order in which they run.
pub open spec fn flatten<'a>(c: Code<'a>) -> Seq<&'a [Token]>
    decreases c, 0int,
{
    match c {
        Code::Stmt(s) => seq![s],
        Code::Block(v) => flatten_prefix(v, v.len() as int),
    }
}

/// The statements of the first `n` pieces of `v`, in order.
pub open spec fn flatten_prefix<'a>(v: Vec<Code<'a>>, n: int) -> Seq<&'a [Token]>
    decreases v, n,
{
    if n <= 0 || n > v.len() {
        Seq::empty()
    } else {
        flatten_prefix(v, n - 1) + flatten(v[n - 1])
    }
}

/// All before statements of the frames, outermost first.
pub open spec fn all_before<'a>(frames: Seq<FrameModel<'a>>) -> Seq<&'a [Token]>
    decreases frames.len(),
{
    if frames.len() == 0 {
        Seq::empty()
    } else {
        frames[0].0 + all_before(frames.drop_first())
    }
}

/// All after statements of the frames, innermost first.
pub open spec fn all_after<'a>(frames: Seq<FrameModel<'a>>) -> Seq<&'a [Token]>
    decreases frames.len(),
{
    if frames.len() == 0 {
        Seq::empty()
    } else {
        all_after(frames.drop_first()) + frames[0].1
    }
}

/// Descending one level adds that level's before statements after all the
/// outer ones, and its after statements before all the outer ones; so along a
/// path of blocks the befores run outermost first and the afters innermost first.
pub proof fn law_frame_push<'a>(frames: Seq<FrameModel<'a>>, f: FrameModel<'a>)
    ensures
        all_before(frames.push(f)) == all_before(frames) + f.0,
        all_after(frames.push(f)) == f.1 + all_after(frames),
    decreases frames.len(),
{
    if frames.len() == 0 {
        assert(frames.push(f).drop_first() =~= Seq::<FrameModel<'a>>::empty());
        assert(frames.push(f)[0] == f);
        assert(all_before(Seq::<FrameModel<'a>>::empty()) == Seq::<&'a [Token]>::empty());
        assert(all_after(Seq::<FrameModel<'a>>::empty()) == Seq::<&'a [Token]>::empty());
        assert(all_before(frames) == Seq::<&'a [Token]>::empty());
        assert(all_after(frames) == Seq::<&'a [Token]>::empty());
        assert(all_before(frames.push(f)) =~= all_before(frames) + f.0);
        assert(all_after(frames.push(f)) =~= f.1 + all_after(frames));
    } else {
        law_frame_push(frames.drop_first(), f);
        assert(frames.push(f).drop_first() =~= frames.drop_first().push(f));
        assert(frames.push(f)[0] == frames[0]);
        assert(all_before(frames.push(f)) =~= all_before(frames) + f.0);
        assert(all_after(frames.push(f)) =~= f.1 + all_after(frames));
    }
}

proof fn lemma_flatten_stmts<'a>(v: Vec<Code<'a>>, start: int, s: Seq<&'a [Token]>, n: int)
    requires
        0 <= start,
        0 <= n <= s.len(),
        start + s.len() <= v.len(),
        are_stmts(v@.subrange(start, start + s.len()), s),
    ensures
        flatten_prefix(v, start + n) == flatten_prefix(v, start) + s.subrange(0, n),
    decreases n,
{
    if n > 0 {
        lemma_flatten_stmts(v, start, s, n - 1);
        assert(v@.subrange(start, start + s.len())[n - 1] == Code::Stmt(s[n - 1]));
        assert(v[start + n - 1] == Code::Stmt(s[n - 1]));
        assert(flatten(v[start + n - 1]) == seq![s[n - 1]]);
        assert(flatten_prefix(v, start + n) == flatten_prefix(v, start + n - 1) + flatten(v[start + n - 1]));
        assert(s.subrange(0, n) =~= s.subrange(0, n - 1).push(s[n - 1]));
        assert(flatten_prefix(v, start) + s.subrange(0, n) =~= flatten_prefix(v, start) + s.subrange(0, n - 1) + seq![s[n - 1]]);
    } else {
        assert(flatten_prefix(v, start) + s.subrange(0, 0) =~= flatten_prefix(v, start));
    }
}

/// Code that wraps leaf statements in frames runs every before statement from
/// the outermost frame in, then the leaf statements, then every after statement
/// from the innermost frame out.
pub proof fn law_wrapped_order<'a>(c: Code<'a>, frames: Seq<FrameModel<'a>>, leaf: Seq<&'a [Token]>)
    requires
        wrapped(c, frames, leaf),
    ensures
        flatten(c) == all_before(frames) + leaf + all_after(frames),
    decreases frames.len(),
{
    match c {
        Code::Block(v) => {
            if frames.len() == 0 {
                assert(v@.subrange(0, leaf.len() as int) =~= v@);
                lemma_flatten_stmts(v, 0, leaf, leaf.len() as int);
                assert(leaf.subrange(0, leaf.len() as int) =~= leaf);
                assert(flatten_prefix(v, 0) =~= Seq::empty());
                assert(all_before(frames) + leaf + all_after(frames) =~= leaf);
            } else {
                let b = frames[0].0;
                let a = frames[0].1;
                let m = b.len() as int;
                let inner = v@[m];
                law_wrapped_order(inner, frames.drop_first(), leaf);
                assert(v@.subrange(0, 0 + b.len() as int) =~= v@.subrange(0, m));
                lemma_flatten_stmts(v, 0, b, m);
                assert(b.subrange(0, m) =~= b);
                assert(flatten_prefix(v, 0) =~= Seq::empty());
                assert(flatten_prefix(v, m) =~= b);
                assert(v[m] == inner);
                assert(flatten_prefix(v, m + 1) == b + flatten(inner));
                assert(v@.subrange(m + 1, m + 1 + a.len()) =~= v@.subrange(m + 1, v@.len() as int));
                lemma_flatten_stmts(v, m + 1, a, a.len() as int);
                assert(a.subrange(0, a.len() as int) =~= a);
                assert(flatten(c) == flatten_prefix(v, v.len() as int));
                assert(flatten(c) =~= all_before(frames) + leaf + all_after(frames));
            }
        },
        Code::Stmt(_) => {},
    }
}

} // verus!
