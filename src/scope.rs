use vstd::prelude::*;

use crate::code::{are_stmts, wrapped, Code, FrameModel};
use crate::token::Token;

verus! {

/// The statements that run before and after the code that a frame wraps.
pub struct Frame<'a> {
    pub before: Vec<&'a [Token]>,
    pub after: Vec<&'a [Token]>,
}

/// The framing still owed to a leaf not yet reached: one frame per enclosing
/// level, the outermost first.
pub struct Scope<'a> {
    pub frames: Vec<Frame<'a>>,
}

pub open spec fn frame_model<'a>(f: Frame<'a>) -> FrameModel<'a> {
    (f.before@, f.after@)
}

fn copy_stmts<'a>(s: &[&'a [Token]]) -> (r: Vec<&'a [Token]>)
    ensures
        r@ == s@,
{
    let mut r: Vec<&'a [Token]> = Vec::new();
    let mut i: usize = 0;
    while i < s.len()
        invariant
            i <= s@.len(),
            r@ =~= s@.subrange(0, i as int),
        decreases s@.len() - i,
    {
        r.push(s[i]);
        i += 1;
    }
    assert(r@ =~= s@);
    r
}

impl<'a> Scope<'a> {
    pub open spec fn model(&self) -> Seq<FrameModel<'a>> {
        self.frames@.map_values(|f: Frame<'a>| frame_model(f))
    }

    /// A scope with no frames.
    pub fn empty() -> (r: Scope<'a>)
        ensures
            r.model() == Seq::<FrameModel<'a>>::empty(),
    {
        let r = Scope { frames: Vec::new() };
        assert(r.model() =~= Seq::<FrameModel<'a>>::empty());
        r
    }

    /// A scope with the one frame given.
    pub fn new(before: &[&'a [Token]], after: &[&'a [Token]]) -> (r: Scope<'a>)
        ensures
            r.model() == seq![(before@, after@)],
    {
        let mut frames: Vec<Frame<'a>> = Vec::new();
        frames.push(Frame { before: copy_stmts(before), after: copy_stmts(after) });
        let r = Scope { frames };
        assert(r.model() =~= seq![(before@, after@)]);
        r
    }

    /// Adds an innermost frame.
    pub fn push_mut(&mut self, before: Vec<&'a [Token]>, after: Vec<&'a [Token]>)
        ensures
            final(self).model() == old(self).model().push((before@, after@)),
    {
        self.frames.push(Frame { before, after });
        assert(self.model() =~= old(self).model().push((before@, after@)));
    }

    /// A new scope: this one with an innermost frame added; this one is left as it is.
    pub fn push(&self, before: &[&'a [Token]], after: &[&'a [Token]]) -> (r: Scope<'a>)
        ensures
            r.model() == self.model().push((before@, after@)),
    {
        let mut frames: Vec<Frame<'a>> = Vec::new();
        let mut i: usize = 0;
        while i < self.frames.len()
            invariant
                i <= self.frames@.len(),
                frames@.len() == i,
                forall|k: int| 0 <= k < i ==> #[trigger] frame_model(frames@[k]) == frame_model(self.frames@[k]),
            decreases self.frames@.len() - i,
        {
            let f = &self.frames[i];
            frames.push(Frame { before: copy_stmts(f.before.as_slice()), after: copy_stmts(f.after.as_slice()) });
            i += 1;
        }
        frames.push(Frame { before: copy_stmts(before), after: copy_stmts(after) });
        let r = Scope { frames };
        assert(r.model() =~= self.model().push((before@, after@)));
        r
    }

    /// Takes the innermost frame away again.
    pub fn pop_mut(&mut self)
        requires
            old(self).model().len() > 0,
        ensures
            final(self).model() == old(self).model().drop_last(),
    {
        let _ = self.frames.pop();
        assert(self.model() =~= old(self).model().drop_last());
    }

    /// The leaf statements wrapped in every frame of the scope.
    pub fn quote_with(&self, stmts: &[&'a [Token]]) -> (r: Code<'a>)
        ensures
            wrapped(r, self.model(), stmts@),
    {
        let n = self.frames.len();
        let mut leaf: Vec<Code<'a>> = Vec::new();
        let mut j: usize = 0;
        while j < stmts.len()
            invariant
                j <= stmts@.len(),
                leaf@.len() == j,
                forall|q: int| 0 <= q < j ==> #[trigger] leaf@[q] == Code::Stmt(stmts@[q]),
            decreases stmts@.len() - j,
        {
            leaf.push(Code::Stmt(stmts[j]));
            j += 1;
        }
        let mut cur = Code::Block(leaf);
        assert(self.model().subrange(n as int, n as int) =~= Seq::<FrameModel<'a>>::empty());
        let mut i: usize = n;
        while i > 0
            invariant
                n == self.model().len(),
                n == self.frames@.len(),
                i <= n,
                wrapped(cur, self.model().subrange(i as int, n as int), stmts@),
            decreases i,
        {
            let f = &self.frames[i - 1];
            let ghost b = f.before@;
            let ghost a = f.after@;
            let ghost inner = cur;
            let mut v: Vec<Code<'a>> = Vec::new();
            let mut k: usize = 0;
            while k < f.before.len()
                invariant
                    k <= b.len(),
                    b == f.before@,
                    v@.len() == k,
                    forall|q: int| 0 <= q < k ==> #[trigger] v@[q] == Code::Stmt(b[q]),
                decreases b.len() - k,
            {
                v.push(Code::Stmt(f.before[k]));
                k += 1;
            }
            let m = v.len();
            v.push(cur);
            let mut k: usize = 0;
            while k < f.after.len()
                invariant
                    k <= a.len(),
                    a == f.after@,
                    m == b.len(),
                    v@.len() == m + 1 + k,
                    forall|q: int| 0 <= q < m ==> #[trigger] v@[q] == Code::Stmt(b[q]),
                    v@[m as int] == inner,
                    forall|q: int| 0 <= q < k ==> #[trigger] v@[m + 1 + q] == Code::Stmt(a[q]),
                decreases a.len() - k,
            {
                v.push(Code::Stmt(f.after[k]));
                k += 1;
            }
            proof {
                let fr = self.model().subrange(i - 1, n as int);
                assert(fr.drop_first() =~= self.model().subrange(i as int, n as int));
                assert(fr[0] == (b, a));
                assert(are_stmts(v@.subrange(0, m as int), b));
                let tail = v@.subrange(m + 1, v@.len() as int);
                assert forall|q: int| 0 <= q < tail.len() implies #[trigger] tail[q] == Code::Stmt(a[q]) by {
                    assert(tail[q] == v@[m + 1 + q]);
                }
                assert(are_stmts(tail, a));
            }
            cur = Code::Block(v);
            i -= 1;
        }
        assert(self.model().subrange(0, n as int) =~= self.model());
        cur
    }
}

} // verus!
