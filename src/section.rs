use vstd::prelude::*;

use crate::catchr_mode::CatchrMode;
use crate::code::{wrapped, Code, FrameModel};
use crate::scope::Scope;
use crate::section_body::{is_leaf, stmts_after, stmts_before, stmts_of, SectionBody};
use crate::section_item::SectionItem;
use crate::section_keyword::{keyword_name, SectionKeyword};
use crate::utils::{escape_name, escape_spec};

verus! {

broadcast use vstd::std_specs::vec::group_vec_axioms;

/// A named block of a given kind, with its body.
#[derive(Debug, PartialEq, Eq)]
pub struct Section<'a> {
    pub section_kind: SectionKeyword,
    pub name: String,
    pub body: SectionBody<'a>,
}

/// What the generator emits: a test procedure, or a module that holds the
/// artifacts of the nested blocks.
#[derive(Debug, PartialEq, Eq)]
pub enum Artifact<'a> {
    Test { name: String, mode: CatchrMode, body: Code<'a> },
    Module { name: String, items: Vec<Artifact<'a>> },
}

/// The identifier of a block: its kind's prefix, a separator, and its escaped name.
pub open spec fn ident_of(kind: SectionKeyword, name: Seq<char>) -> Seq<char> {
    keyword_name(kind) + seq!['_'] + escape_spec(name)
}

/// The positions of the nested blocks among the first `n` items, in order.
pub open spec fn nested_upto<'a>(items: Seq<SectionItem<'a>>, n: int) -> Seq<int>
    decreases n,
{
    if n <= 0 {
        Seq::empty()
    } else {
        let p = nested_upto(items, n - 1);
        if items[n - 1] is Sep {
            p.push(n - 1)
        } else {
            p
        }
    }
}

/// The frame that the nested block at `p` is wrapped in: the statements of its
/// parent before and after it.
pub open spec fn frame_at<'a>(items: Seq<SectionItem<'a>>, p: int) -> FrameModel<'a> {
    (stmts_before(items, p), stmts_after(items, p))
}

/// The name of the module that holds each top-level block's artifact.
pub open spec fn scenarios_name() -> Seq<char> {
    seq!['c', 'a', 't', 'c', 'h', 'r', '_', 's', 'c', 'e', 'n', 'a', 'r', 'i', 'o', 's']
}

/// `art` is what the generator emits for `sec` inside `frames`: a leaf block
/// gives one test whose body wraps the block's statements in the frames; any
/// other block gives a module holding, in order, what each nested block gives
/// inside the frames extended by that block's own frame.
pub open spec fn generates<'a>(sec: Section<'a>, frames: Seq<FrameModel<'a>>, mode: CatchrMode, art: Artifact<'a>) -> bool
    decreases sec,
{
    let items = sec.body.items@;
    let pos = nested_upto(items, items.len() as int);
    if is_leaf(items) {
        match art {
            Artifact::Test { name, mode: m, body } => {
                &&& name@ == ident_of(sec.section_kind, sec.name@)
                &&& m == mode
                &&& wrapped(body, frames, stmts_of(items))
            },
            Artifact::Module { .. } => false,
        }
    } else {
        match art {
            Artifact::Module { name, items: children } => {
                &&& name@ == ident_of(sec.section_kind, sec.name@)
                &&& children@.len() == pos.len()
                &&& forall|k: int| 0 <= k < children@.len() ==> {
                    let p = pos[k];
                    &&& 0 <= p < items.len()
                    &&& items[p] is Sep
                    &&& generates(items[p]->Sep_0, frames.push(frame_at(items, p)), mode, #[trigger] children@[k])
                }
            },
            Artifact::Test { .. } => false,
        }
    }
}

/// `art` is a module named for scenarios that holds exactly what the nested
/// block at `p` gives inside `frames` extended by that block's own frame.
pub open spec fn scenario_holds<'a>(
    items: Seq<SectionItem<'a>>,
    frames: Seq<FrameModel<'a>>,
    mode: CatchrMode,
    art: Artifact<'a>,
    p: int,
) -> bool {
    &&& art is Module
    &&& art->Module_name@ == scenarios_name()
    &&& art->Module_items@.len() == 1
    &&& 0 <= p < items.len()
    &&& items[p] is Sep
    &&& generates(items[p]->Sep_0, frames.push(frame_at(items, p)), mode, art->Module_items@[0])
}

proof fn lemma_nested_bounds<'a>(items: Seq<SectionItem<'a>>, n: int)
    requires
        0 <= n <= items.len(),
    ensures
        forall|k: int| 0 <= k < nested_upto(items, n).len() ==> {
            let p = #[trigger] nested_upto(items, n)[k];
            0 <= p < n && items[p] is Sep
        },
    decreases n,
{
    if n > 0 {
        lemma_nested_bounds(items, n - 1);
    }
}

impl<'a> SectionBody<'a> {
    /// Appends to `out`, for each nested block of this body in order, a module
    /// of its own that holds what the block gives inside the frames of `scope`
    /// extended by the block's own frame; the scope is the same afterwards.
    pub fn to_tokens_inner(&self, scope: &mut Scope<'a>, mode: CatchrMode, out: &mut Vec<Artifact<'a>>)
        ensures
            final(scope).model() == old(scope).model(),
            final(out)@.len() == old(out)@.len() + nested_upto(self.items@, self.items@.len() as int).len(),
            final(out)@.subrange(0, old(out)@.len() as int) == old(out)@,
            forall|k: int| 0 <= k < nested_upto(self.items@, self.items@.len() as int).len() ==> scenario_holds(
                self.items@,
                old(scope).model(),
                mode,
                #[trigger] final(out)@[old(out)@.len() + k],
                nested_upto(self.items@, self.items@.len() as int)[k],
            ),
    {
        let ghost items = self.items@;
        let ghost frames = scope.model();
        let ghost start = out@;
        let mut idx: usize = 0;
        while idx < self.items.len()
            invariant
                items == self.items@,
                idx <= items.len(),
                scope.model() == frames,
                out@.len() == start.len() + nested_upto(items, idx as int).len(),
                out@.subrange(0, start.len() as int) == start,
                forall|k: int| 0 <= k < nested_upto(items, idx as int).len() ==> scenario_holds(
                    items,
                    frames,
                    mode,
                    #[trigger] out@[start.len() + k],
                    nested_upto(items, idx as int)[k],
                ),
            decreases items.len() - idx,
        {
            let ghost before = nested_upto(items, idx as int);
            assert(nested_upto(items, idx + 1) == if items[idx as int] is Sep {
                before.push(idx as int)
            } else {
                before
            });
            if let SectionItem::Sep(section) = &self.items[idx] {
                let sb = self.get_stmts_before(idx);
                let sa = self.get_stmts_after(idx);
                scope.push_mut(sb, sa);
                let inner = section.quote_inner(scope, mode);
                scope.pop_mut();
                assert(scope.model() =~= frames);
                let mut holder: Vec<Artifact<'a>> = Vec::new();
                holder.push(inner);
                let name = "catchr_scenarios".to_owned();
                proof {
                    reveal_strlit("catchr_scenarios");
                    assert(name@ =~= scenarios_name());
                }
                let ghost prev = out@;
                out.push(Artifact::Module { name, items: holder });
                proof {
                    let now = nested_upto(items, idx + 1);
                    assert(out@.subrange(0, start.len() as int) =~= prev.subrange(0, start.len() as int));
                    assert forall|k: int| 0 <= k < now.len() implies scenario_holds(
                        items,
                        frames,
                        mode,
                        #[trigger] out@[start.len() + k],
                        now[k],
                    ) by {
                        if k < before.len() {
                            assert(now[k] == before[k]);
                            assert(out@[start.len() + k] == prev[start.len() + k]);
                        } else {
                            assert(now[k] == idx);
                        }
                    }
                }
            } else {
                assert forall|k: int| 0 <= k < nested_upto(items, idx + 1).len() implies scenario_holds(
                    items,
                    frames,
                    mode,
                    #[trigger] out@[start.len() + k],
                    nested_upto(items, idx + 1)[k],
                ) by {
                    assert(nested_upto(items, idx + 1)[k] == before[k]);
                }
            }
            idx += 1;
        }
    }
}

impl<'a> Section<'a> {
    pub fn new(section_kind: SectionKeyword, name: String, body: SectionBody<'a>) -> (r: Section<'a>)
        ensures
            r.section_kind == section_kind,
            r.name == name,
            r.body == body,
    {
        Section { section_kind, name, body }
    }

    /// The identifier of this block.
    pub fn quote_name(&self) -> (r: String)
        ensures
            r@ == ident_of(self.section_kind, self.name@),
    {
        let mut r = self.section_kind.to_name();
        r.push('_');
        let e = escape_name(self.name.as_str());
        let ghost head = r@;
        let n = e.unicode_len();
        let mut i: usize = 0;
        while i < n
            invariant
                n == e@.len(),
                i <= n,
                r@ == head + e@.subrange(0, i as int),
            decreases n - i,
        {
            r.push(e.get_char(i));
            proof {
                assert(head + e@.subrange(0, i + 1) =~= (head + e@.subrange(0, i as int)).push(e@[i as int]));
            }
            i += 1;
        }
        assert(e@.subrange(0, n as int) =~= e@);
        r
    }

    /// What this block gives inside the frames of `scope`; the scope is the same
    /// afterwards.
    pub fn quote_inner(&self, scope: &mut Scope<'a>, mode: CatchrMode) -> (r: Artifact<'a>)
        ensures
            generates(*self, old(scope).model(), mode, r),
            final(scope).model() == old(scope).model(),
        decreases self,
    {
        let name = self.quote_name();
        let ghost items = self.body.items@;
        if self.body.is_top_level() {
            let stmts = self.body.get_stmts_before(self.body.items.len());
            let body = scope.quote_with(stmts.as_slice());
            return Artifact::Test { name, mode, body };
        }
        let ghost frames = scope.model();
        let mut children: Vec<Artifact<'a>> = Vec::new();
        let mut idx: usize = 0;
        while idx < self.body.items.len()
            invariant
                items == self.body.items@,
                idx <= items.len(),
                scope.model() == frames,
                children@.len() == nested_upto(items, idx as int).len(),
                forall|k: int| 0 <= k < children@.len() ==> {
                    let p = nested_upto(items, idx as int)[k];
                    &&& 0 <= p < items.len()
                    &&& items[p] is Sep
                    &&& generates(items[p]->Sep_0, frames.push(frame_at(items, p)), mode, #[trigger] children@[k])
                },
            decreases items.len() - idx,
        {
            let ghost before = nested_upto(items, idx as int);
            assert(nested_upto(items, idx + 1) == if items[idx as int] is Sep {
                before.push(idx as int)
            } else {
                before
            });
            if let SectionItem::Sep(section) = &self.body.items[idx] {
                let sb = self.body.get_stmts_before(idx);
                let sa = self.body.get_stmts_after(idx);
                scope.push_mut(sb, sa);
                assert(scope.model() == frames.push(frame_at(items, idx as int)));
                let inner = section.quote_inner(scope, mode);
                assert(generates(items[idx as int]->Sep_0, frames.push(frame_at(items, idx as int)), mode, inner));
                scope.pop_mut();
                assert(scope.model() =~= frames);
                let ghost prev = children@;
                children.push(inner);
                proof {
                    lemma_nested_bounds(items, idx + 1);
                    let now = nested_upto(items, idx + 1);
                    assert forall|k: int| 0 <= k < children@.len() implies {
                        let p = now[k];
                        &&& 0 <= p < items.len()
                        &&& items[p] is Sep
                        &&& generates(items[p]->Sep_0, frames.push(frame_at(items, p)), mode, #[trigger] children@[k])
                    } by {
                        if k < before.len() {
                            assert(now[k] == before[k]);
                            assert(children@[k] == prev[k]);
                        } else {
                            assert(now[k] == idx);
                        }
                    }
                }
            } else {
                assert(nested_upto(items, idx + 1) == before);
                proof { lemma_nested_bounds(items, idx + 1); }
                assert forall|k: int| 0 <= k < children@.len() implies {
                    let p = nested_upto(items, idx + 1)[k];
                    &&& 0 <= p < items.len()
                    &&& items[p] is Sep
                    &&& generates(items[p]->Sep_0, frames.push(frame_at(items, p)), mode, #[trigger] children@[k])
                } by {
                    assert(nested_upto(items, idx + 1)[k] == before[k]);
                }
            }
            idx += 1;
        }
        proof {
            lemma_nested_bounds(items, items.len() as int);
        }
        Artifact::Module { name, items: children }
    }

    /// What this block gives at the root, where there is no framing yet.
    pub fn generate(&self, mode: CatchrMode) -> (r: Artifact<'a>)
        ensures
            generates(*self, Seq::<FrameModel<'a>>::empty(), mode, r),
    {
        let mut scope = Scope::empty();
        self.quote_inner(&mut scope, mode)
    }
}

} // verus!
