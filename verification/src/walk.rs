//! The renaming walk itself: the order in which blocks are renamed, how the
//! φs of successors are filled, and when names go out of scope.

use crate::frontier::{below, layered, lemma_level_of, level_of, lists_view};
use crate::tables::{hash_map_to_lists, lists_seq};
use std::collections::HashMap;
use crate::function::{clone_indices, instrs_view, BlockView, IrBasicBlock, IrFunction};
use crate::ir::{option_view, sources_view, InstrView, IrInstruction};
use crate::names::{names_view, AssocView};
use crate::rename::{
    current_name, current_name_spec, rename_instr, rename_phi_dest, renamed_instr, renamed_phi,
    stacks_view, state_after_instr, state_after_phi, state_of, Counters, RenameState, Stacks,
};
use vstd::prelude::*;

verus! {

/// The names that the instructions of a function define, block by block.
pub open spec fn defs_of(g: Seq<BlockView>) -> Seq<Seq<Option<Seq<char>>>> {
    Seq::new(g.len(), |b: int| Seq::new(g[b].instrs.len(), |i: int| g[b].instrs[i].def()))
}

/// The noted definitions as contracts see them.
pub open spec fn defs_view(orig: Seq<Vec<Option<String>>>) -> Seq<Seq<Option<Seq<char>>>> {
    Seq::new(orig.len(), |b: int| sources_view(orig[b]@))
}

/// The first position of `x` in `s`.
pub open spec fn first_index(s: Seq<usize>, x: usize) -> int {
    choose|i: int| 0 <= i < s.len() && s[i] == x && forall|j: int| 0 <= j < i ==> s[j] != x
}

/// The state and the instructions after the destinations of the φs among the
/// first `upto` instructions have been renamed.
pub open spec fn phis_renamed(st: RenameState, instrs: Seq<InstrView>, upto: int) -> (
    RenameState,
    Seq<InstrView>,
)
    decreases upto,
{
    if upto <= 0 {
        (st, instrs)
    } else {
        let (s1, i1) = phis_renamed(st, instrs, upto - 1);
        (state_after_phi(s1, instrs[upto - 1]), i1.update(upto - 1, renamed_phi(s1, instrs[upto - 1])))
    }
}

/// The state and the instructions after those of the first `upto`
/// instructions that are no φ have been renamed.
pub open spec fn body_renamed(st: RenameState, instrs: Seq<InstrView>, upto: int) -> (
    RenameState,
    Seq<InstrView>,
)
    decreases upto,
{
    if upto <= 0 {
        (st, instrs)
    } else {
        let (s1, i1) = body_renamed(st, instrs, upto - 1);
        (
            state_after_instr(s1, instrs[upto - 1]),
            i1.update(upto - 1, renamed_instr(s1, instrs[upto - 1])),
        )
    }
}

/// An instruction of a successor after the walk has left predecessor number
/// `idx`: a φ gets, as its source for that predecessor, the name that
/// currently stands for the name it was placed for.
pub open spec fn source_filled(
    stacks: AssocView<Seq<Seq<char>>>,
    instr: InstrView,
    orig: Option<Seq<char>>,
    idx: int,
) -> InstrView {
    match instr {
        InstrView::Phi { dest, sources } => InstrView::Phi {
            dest,
            sources: sources.update(
                idx,
                Some(
                    current_name_spec(
                        stacks,
                        match orig {
                            Some(v) => v,
                            None => dest,
                        },
                    ),
                ),
            ),
        },
        other => other,
    }
}

/// Block `s` after every φ in it has got its source for predecessor `b`.
pub open spec fn block_filled(
    stacks: AssocView<Seq<Seq<char>>>,
    block: BlockView,
    orig: Seq<Option<Seq<char>>>,
    b: usize,
) -> BlockView {
    BlockView {
        label: block.label,
        instrs: Seq::new(
            block.instrs.len(),
            |i: int| source_filled(stacks, block.instrs[i], orig[i], first_index(block.preds, b)),
        ),
        preds: block.preds,
        succs: block.succs,
    }
}

/// The graph after the first `upto` successors of `b` have been filled.
pub open spec fn succs_filled(
    stacks: AssocView<Seq<Seq<char>>>,
    g: Seq<BlockView>,
    orig: Seq<Seq<Option<Seq<char>>>>,
    b: usize,
    upto: int,
) -> Seq<BlockView>
    decreases upto,
{
    if upto <= 0 {
        g
    } else {
        let g1 = succs_filled(stacks, g, orig, b, upto - 1);
        let s = g[b as int].succs[upto - 1] as int;
        g1.update(s, block_filled(stacks, g1[s], orig[s], b))
    }
}

/// The stacks after one name has been taken off for each of the first `upto`
/// definitions of a block.
pub open spec fn popped(
    stacks: AssocView<Seq<Seq<char>>>,
    orig: Seq<Option<Seq<char>>>,
    upto: int,
) -> AssocView<Seq<Seq<char>>>
    decreases upto,
{
    if upto <= 0 {
        stacks
    } else {
        let s1 = popped(stacks, orig, upto - 1);
        match orig[upto - 1] {
            Some(v) => if s1.contains(v) && s1.get(v).len() > 0 {
                s1.put(v, s1.get(v).drop_last())
            } else {
                s1
            },
            None => s1,
        }
    }
}

/// Where the walk stands: counters, stacks, and the function so far.
pub struct Walk {
    pub st: RenameState,
    pub g: Seq<BlockView>,
}

/// The walk after block `b` and everything below it in the tree has been
/// renamed: the φs of `b`, then its other instructions, then the φ sources of
/// its successors, then its children in order; at the end the names that `b`
/// defined go out of scope.
pub open spec fn walk_block(
    tree: Seq<Seq<usize>>,
    orig: Seq<Seq<Option<Seq<char>>>>,
    w: Walk,
    b: usize,
) -> Walk
    decreases level_of(tree)[b as int], 1int, 0int,
{
    if b >= tree.len() {
        w
    } else {
        let len = w.g[b as int].instrs.len() as int;
        let (st1, instrs1) = phis_renamed(w.st, w.g[b as int].instrs, len);
        let (st2, instrs2) = body_renamed(st1, instrs1, len);
        let g2 = w.g.update(
            b as int,
            BlockView {
                label: w.g[b as int].label,
                instrs: instrs2,
                preds: w.g[b as int].preds,
                succs: w.g[b as int].succs,
            },
        );
        let g3 = succs_filled(st2.stacks, g2, orig, b, g2[b as int].succs.len() as int);
        let w4 = walk_children(tree, orig, Walk { st: st2, g: g3 }, b, tree[b as int].len() as int);
        Walk {
            st: RenameState {
                counter: w4.st.counter,
                stacks: popped(w4.st.stacks, orig[b as int], orig[b as int].len() as int),
            },
            g: w4.g,
        }
    }
}

/// The walk after the first `upto` children of `b` have been renamed.
pub open spec fn walk_children(
    tree: Seq<Seq<usize>>,
    orig: Seq<Seq<Option<Seq<char>>>>,
    w: Walk,
    b: usize,
    upto: int,
) -> Walk
    decreases level_of(tree)[b as int], 0int, upto,
{
    if upto <= 0 || b >= tree.len() {
        w
    } else {
        let w1 = walk_children(tree, orig, w, b, upto - 1);
        let c = tree[b as int][upto - 1];
        if below(tree, b, c) {
            walk_block(tree, orig, w1, c)
        } else {
            w1
        }
    }
}

/// Two instructions of one kind; two φs with equally many sources.
pub open spec fn same_form(x: InstrView, y: InstrView) -> bool {
    &&& x is Phi <==> y is Phi
    &&& x is Phi ==> x->Phi_sources.len() == y->Phi_sources.len()
}

/// Two graphs that differ only in the names their instructions hold.
pub open spec fn same_shape(a: Seq<BlockView>, b: Seq<BlockView>) -> bool {
    &&& a.len() == b.len()
    &&& forall|m: int|
        0 <= m < a.len() ==> {
            &&& (#[trigger] a[m]).label == b[m].label
            &&& a[m].preds == b[m].preds
            &&& a[m].succs == b[m].succs
            &&& a[m].instrs.len() == b[m].instrs.len()
        }
    &&& forall|m: int, i: int|
        0 <= m < a.len() && 0 <= i < a[m].instrs.len() ==> same_form(
            #[trigger] a[m].instrs[i],
            b[m].instrs[i],
        )
}

/// What the walk needs of a function: the lists of children form a forest,
/// every edge is entered on both sides, and every φ has one source for each
/// predecessor of its block.
pub open spec fn walk_ready(
    g: Seq<BlockView>,
    tree: Seq<Seq<usize>>,
    orig: Seq<Seq<Option<Seq<char>>>>,
) -> bool {
    &&& tree.len() == g.len()
    &&& orig.len() == g.len()
    &&& layered(tree)
    &&& forall|m: int| 0 <= m < g.len() ==> (#[trigger] orig[m]).len() == g[m].instrs.len()
    &&& forall|m: int, k: int|
        0 <= m < g.len() && 0 <= k < g[m].succs.len() ==> (#[trigger] g[m].succs[k]) < g.len()
            && g[g[m].succs[k] as int].preds.contains(m as usize)
    &&& forall|m: int, i: int|
        0 <= m < g.len() && 0 <= i < g[m].instrs.len() && (#[trigger] g[m].instrs[i]) is Phi
            ==> g[m].instrs[i]->Phi_sources.len() == g[m].preds.len()
}

/// Having the same shape carries over.
proof fn lemma_same_shape_trans(a: Seq<BlockView>, b: Seq<BlockView>, c: Seq<BlockView>)
    requires
        same_shape(a, b),
        same_shape(b, c),
    ensures
        same_shape(a, c),
{
    assert forall|m: int| 0 <= m < a.len() implies {
        &&& (#[trigger] a[m]).label == c[m].label
        &&& a[m].preds == c[m].preds
        &&& a[m].succs == c[m].succs
        &&& a[m].instrs.len() == c[m].instrs.len()
    } by {
        assert(b[m].label == c[m].label);
    }
    assert forall|m: int, i: int| 0 <= m < a.len() && 0 <= i < a[m].instrs.len() implies same_form(
        #[trigger] a[m].instrs[i],
        c[m].instrs[i],
    ) by {
        assert(a[m].label == b[m].label);
        assert(same_form(a[m].instrs[i], b[m].instrs[i]));
        assert(same_form(b[m].instrs[i], c[m].instrs[i]));
    }
}

/// A graph of the same shape as one that is ready for the walk is ready too.
proof fn lemma_ready_same_shape(
    a: Seq<BlockView>,
    b: Seq<BlockView>,
    tree: Seq<Seq<usize>>,
    orig: Seq<Seq<Option<Seq<char>>>>,
)
    requires
        walk_ready(a, tree, orig),
        same_shape(a, b),
    ensures
        walk_ready(b, tree, orig),
{
    assert forall|m: int| 0 <= m < b.len() implies (#[trigger] orig[m]).len() == b[m].instrs.len() by {
        assert(a[m].label == b[m].label);
    }
    assert forall|m: int, k: int| 0 <= m < b.len() && 0 <= k < b[m].succs.len() implies (
    #[trigger] b[m].succs[k]) < b.len() && b[b[m].succs[k] as int].preds.contains(m as usize) by {
        assert(a[m].label == b[m].label);
        let s = a[m].succs[k] as int;
        assert(s < a.len() && a[s].preds.contains(m as usize));
        assert(a[s].label == b[s].label);
    }
    assert forall|m: int, i: int|
        0 <= m < b.len() && 0 <= i < b[m].instrs.len() && (#[trigger] b[m].instrs[i]) is Phi implies b[m].instrs[i]->Phi_sources.len()
        == b[m].preds.len() by {
        assert(a[m].label == b[m].label);
        assert(same_form(a[m].instrs[i], b[m].instrs[i]));
        assert(a[m].instrs[i] is Phi);
    }
}

/// Renames a list of instructions in place: first the destinations of its
/// φs, then everything else.
fn rename_instr_list(instrs: &mut Vec<IrInstruction>, counter: &mut Counters, stacks: &mut Stacks)
    requires
        old(counter).wf(),
        old(stacks).wf(),
    ensures
        final(counter).wf(),
        final(stacks).wf(),
        final(instrs).len() == old(instrs).len(),
        ({
            let st0 = state_of(*old(counter), *old(stacks));
            let len = old(instrs).len() as int;
            let (st1, instrs1) = phis_renamed(st0, instrs_view(old(instrs)@), len);
            let (st2, instrs2) = body_renamed(st1, instrs1, len);
            &&& state_of(*final(counter), *final(stacks)) == st2
            &&& instrs_view(final(instrs)@) == instrs2
        }),
        forall|i: int|
            0 <= i < old(instrs).len() ==> same_form(
                #[trigger] instrs_view(old(instrs)@)[i],
                instrs_view(final(instrs)@)[i],
            ),
{
    let ghost st0 = state_of(*counter, *stacks);
    let ghost instrs0 = instrs_view(instrs@);
    let n = instrs.len();
    let mut i: usize = 0;
    while i < n
        invariant
            i <= n,
            n == instrs.len(),
            instrs0.len() == n,
            counter.wf(),
            stacks.wf(),
            state_of(*counter, *stacks) == phis_renamed(st0, instrs0, i as int).0,
            instrs_view(instrs@) == phis_renamed(st0, instrs0, i as int).1,
            forall|j: int| i <= j < n ==> instrs_view(instrs@)[j] == instrs0[j],
            forall|j: int| 0 <= j < n ==> same_form(instrs0[j], #[trigger] instrs_view(instrs@)[j]),
        decreases n - i,
    {
        let ghost before = instrs_view(instrs@);
        assert(before[i as int] == instrs[i as int]@);
        let renamed = rename_phi_dest(&instrs[i], counter, stacks);
        instrs.set(i, renamed);
        assert(instrs_view(instrs@) =~= before.update(i as int, renamed@));
        i += 1;
    }
    let ghost st1 = state_of(*counter, *stacks);
    let ghost instrs1 = instrs_view(instrs@);
    let mut i: usize = 0;
    while i < n
        invariant
            i <= n,
            n == instrs.len(),
            instrs0.len() == n,
            instrs1.len() == n,
            counter.wf(),
            stacks.wf(),
            state_of(*counter, *stacks) == body_renamed(st1, instrs1, i as int).0,
            instrs_view(instrs@) == body_renamed(st1, instrs1, i as int).1,
            forall|j: int| i <= j < n ==> instrs_view(instrs@)[j] == instrs1[j],
            forall|j: int| 0 <= j < n ==> same_form(instrs0[j], instrs1[j]),
            forall|j: int| 0 <= j < n ==> same_form(instrs0[j], #[trigger] instrs_view(instrs@)[j]),
        decreases n - i,
    {
        let ghost before = instrs_view(instrs@);
        assert(before[i as int] == instrs[i as int]@);
        assert(same_form(instrs0[i as int], instrs1[i as int]));
        let renamed = rename_instr(&instrs[i], counter, stacks);
        instrs.set(i, renamed);
        assert(instrs_view(instrs@) =~= before.update(i as int, renamed@));
        i += 1;
    }
}

/// Enters `name` as source number `idx` of a φ; any other instruction is
/// left as it is.
fn set_source(instr: &mut IrInstruction, idx: usize, name: String)
    requires
        (*old(instr)) is Phi ==> idx < (*old(instr))->Phi_sources.len(),
    ensures
        final(instr)@ == match old(instr)@ {
            InstrView::Phi { dest, sources } => InstrView::Phi {
                dest,
                sources: sources.update(idx as int, Some(name@)),
            },
            other => other,
        },
{
    match instr {
        IrInstruction::Phi { sources, .. } => {
            sources.set(idx, Some(name));
            assert(sources_view(sources@) =~= sources_view((*old(instr))->Phi_sources@).update(
                idx as int,
                Some(name@),
            ));
        },
        _ => {},
    }
}

/// Fills, in every φ of `block`, the source that belongs to predecessor `b`.
fn fill_block_sources(
    block: &mut IrBasicBlock,
    orig: &Vec<Option<String>>,
    b: usize,
    stacks: &Stacks,
)
    requires
        stacks.wf(),
        old(block).preds@.contains(b),
        orig.len() == old(block).instrs.len(),
        forall|i: int|
            0 <= i < old(block).instrs.len() && (#[trigger] old(block).instrs[i]) is Phi ==> old(
                block,
            ).instrs[i]->Phi_sources.len() == old(block).preds.len(),
    ensures
        final(block)@ == block_filled(stacks_view(*stacks), old(block)@, sources_view(orig@), b),
        final(block).instrs.len() == old(block).instrs.len(),
        forall|i: int|
            0 <= i < old(block).instrs.len() ==> same_form(
                #[trigger] old(block)@.instrs[i],
                final(block)@.instrs[i],
            ),
{
    let mut idx: usize = 0;
    while idx < block.preds.len() && block.preds[idx] != b
        invariant
            idx <= block.preds.len(),
            block.preds@.contains(b),
            *block == *old(block),
            forall|j: int| 0 <= j < idx ==> block.preds[j] != b,
        decreases block.preds.len() - idx,
    {
        idx += 1;
    }
    assert(idx < block.preds.len()) by {
        let j = choose|j: int| 0 <= j < block.preds@.len() && block.preds@[j] == b;
        assert(block.preds[j] == b);
    }
    assert(idx == first_index(block.preds@, b));
    let ghost view0 = block@;
    let n = block.instrs.len();
    let mut i: usize = 0;
    while i < n
        invariant
            i <= n,
            n == block.instrs.len(),
            n == view0.instrs.len(),
            orig.len() == n,
            stacks.wf(),
            view0 == old(block)@,
            idx < view0.preds.len(),
            block.label == old(block).label,
            block.preds == old(block).preds,
            block.succs == old(block).succs,
            forall|j: int|
                0 <= j < n && (#[trigger] view0.instrs[j]) is Phi ==> view0.instrs[j]->Phi_sources.len()
                    == view0.preds.len(),
            forall|j: int|
                0 <= j < i ==> (#[trigger] block.instrs[j])@ == source_filled(
                    stacks_view(*stacks),
                    view0.instrs[j],
                    option_view(orig[j]),
                    idx as int,
                ),
            forall|j: int| i <= j < n ==> (#[trigger] block.instrs[j])@ == view0.instrs[j],
        decreases n - i,
    {
        assert(block.instrs[i as int]@ == view0.instrs[i as int]);
        let name: Option<String> = match &block.instrs[i] {
            IrInstruction::Phi { dest, sources } => {
                assert(sources.len() == view0.instrs[i as int]->Phi_sources.len());
                match &orig[i] {
                    Some(v) => Some(current_name(v, stacks)),
                    None => Some(current_name(dest, stacks)),
                }
            },
            _ => None,
        };
        match name {
            Some(name) => {
                set_source(&mut block.instrs[i], idx, name);
            },
            None => {},
        }
        i += 1;
    }
    assert(block@.instrs =~= block_filled(
        stacks_view(*stacks),
        view0,
        sources_view(orig@),
        b,
    ).instrs);
}

/// Fills the φ sources of every successor of `b`.
fn fill_successors(func: &mut IrFunction, b: usize, orig: &Vec<Vec<Option<String>>>, stacks: &Stacks)
    requires
        stacks.wf(),
        b < old(func).blocks.len(),
        orig.len() == old(func).blocks.len(),
        forall|m: int|
            0 <= m < orig.len() ==> (#[trigger] orig[m]).len() == old(func).graph()[m].instrs.len(),
        forall|k: int|
            0 <= k < old(func).graph()[b as int].succs.len() ==> (#[trigger] old(
                func,
            ).graph()[b as int].succs[k]) < old(func).blocks.len() && old(
                func,
            ).graph()[old(func).graph()[b as int].succs[k] as int].preds.contains(b),
        forall|m: int, i: int|
            0 <= m < old(func).graph().len() && 0 <= i < old(func).graph()[m].instrs.len() && (
            #[trigger] old(func).graph()[m].instrs[i]) is Phi ==> old(
                func,
            ).graph()[m].instrs[i]->Phi_sources.len() == old(func).graph()[m].preds.len(),
    ensures
        final(func).name == old(func).name,
        final(func).args == old(func).args,
        final(func).label_to_idx == old(func).label_to_idx,
        final(func).blocks.len() == old(func).blocks.len(),
        final(func).graph() == succs_filled(
            stacks_view(*stacks),
            old(func).graph(),
            defs_view(orig@),
            b,
            old(func).graph()[b as int].succs.len() as int,
        ),
        same_shape(old(func).graph(), final(func).graph()),
{
    let ghost g0 = func.graph();
    let n = func.blocks.len();
    let succs = clone_indices(&func.blocks[b].succs);
    assert(succs@ == g0[b as int].succs);
    let mut k: usize = 0;
    assert(same_shape(g0, g0));
    while k < succs.len()
        invariant
            k <= succs.len(),
            stacks.wf(),
            b < n,
            n == func.blocks.len(),
            n == g0.len(),
            g0 == old(func).graph(),
            succs@ == g0[b as int].succs,
            orig.len() == n,
            forall|m: int| 0 <= m < orig.len() ==> (#[trigger] orig[m]).len() == g0[m].instrs.len(),
            forall|k: int|
                0 <= k < g0[b as int].succs.len() ==> (#[trigger] g0[b as int].succs[k]) < n
                    && g0[g0[b as int].succs[k] as int].preds.contains(b),
            forall|m: int, i: int|
                0 <= m < g0.len() && 0 <= i < g0[m].instrs.len() && (#[trigger] g0[m].instrs[i]) is Phi
                    ==> g0[m].instrs[i]->Phi_sources.len() == g0[m].preds.len(),
            func.name == old(func).name,
            func.args == old(func).args,
            func.label_to_idx == old(func).label_to_idx,
            func.graph() == succs_filled(stacks_view(*stacks), g0, defs_view(orig@), b, k as int),
            same_shape(g0, func.graph()),
        decreases succs.len() - k,
    {
        let s = succs[k];
        let ghost g1 = func.graph();
        assert(g0[b as int].succs[k as int] == s);
        assert(g1[s as int] == func.blocks[s as int]@);
        assert(g0[s as int].label == g1[s as int].label);
        assert forall|i: int|
            0 <= i < func.blocks[s as int].instrs.len() && (
            #[trigger] func.blocks[s as int].instrs[i]) is Phi implies func.blocks[s as int].instrs[i]->Phi_sources.len()
            == func.blocks[s as int].preds.len() by {
            assert(same_form(g0[s as int].instrs[i], g1[s as int].instrs[i]));
            assert(g1[s as int].instrs[i] == func.blocks[s as int].instrs[i]@);
            assert(g0[s as int].instrs[i] is Phi);
        }
        fill_block_sources(&mut func.blocks[s], &orig[s], b, stacks);
        proof {
            let g2 = func.graph();
            assert(defs_view(orig@)[s as int] == sources_view(orig[s as int]@));
            assert(g2 =~= g1.update(
                s as int,
                block_filled(stacks_view(*stacks), g1[s as int], defs_view(orig@)[s as int], b),
            ));
            assert(same_shape(g1, g2)) by {
                assert forall|m: int, i: int|
                    0 <= m < g1.len() && 0 <= i < g1[m].instrs.len() implies same_form(
                    #[trigger] g1[m].instrs[i],
                    g2[m].instrs[i],
                ) by {
                    if m == s {
                        assert(same_form(g1[s as int].instrs[i], g2[s as int].instrs[i]));
                    }
                }
            }
            lemma_same_shape_trans(g0, g1, g2);
        }
        k += 1;
    }
}

/// Takes one name off the stack of every name that the block defined.
fn pop_defs(stacks: &mut Stacks, orig: &Vec<Option<String>>)
    requires
        old(stacks).wf(),
    ensures
        final(stacks).wf(),
        stacks_view(*final(stacks)) == popped(
            stacks_view(*old(stacks)),
            sources_view(orig@),
            orig.len() as int,
        ),
{
    let ghost s0 = stacks_view(*stacks);
    let mut i: usize = 0;
    while i < orig.len()
        invariant
            i <= orig.len(),
            stacks.wf(),
            stacks_view(*stacks) == popped(s0, sources_view(orig@), i as int),
        decreases orig.len() - i,
    {
        let ghost before = *stacks;
        let ghost sv = stacks_view(*stacks);
        assert(sources_view(orig@)[i as int] == option_view(orig[i as int]));
        if let Some(v) = &orig[i] {
            match stacks.find(v) {
                Some(k) => {
                    proof {
                        stacks.lemma_position(k as int);
                        assert(sv.position(v@) == k);
                        assert(sv.get(v@) == names_view(stacks.vals[k as int]@));
                    }
                    if stacks.vals[k].len() > 0 {
                        stacks.vals[k].pop();
                        proof {
                            assert(names_view(stacks.vals[k as int]@) =~= sv.get(v@).drop_last());
                            assert(stacks_view(*stacks).vals =~= sv.vals.update(
                                k as int,
                                sv.get(v@).drop_last(),
                            ));
                        }
                    }
                },
                None => {},
            }
        }
        i += 1;
    }
}

/// Renames block `block_id` and everything below it in the tree.
fn rename_block(
    block_id: usize,
    dom_tree: &Vec<Vec<usize>>,
    orig: &Vec<Vec<Option<String>>>,
    func: &mut IrFunction,
    counter: &mut Counters,
    stacks: &mut Stacks,
)
    requires
        block_id < old(func).blocks.len(),
        old(counter).wf(),
        old(stacks).wf(),
        walk_ready(old(func).graph(), lists_view(dom_tree@), defs_view(orig@)),
    ensures
        final(counter).wf(),
        final(stacks).wf(),
        final(func).name == old(func).name,
        final(func).args == old(func).args,
        final(func).label_to_idx == old(func).label_to_idx,
        final(func).blocks.len() == old(func).blocks.len(),
        same_shape(old(func).graph(), final(func).graph()),
        (Walk { st: state_of(*final(counter), *final(stacks)), g: final(func).graph() })
            == walk_block(
            lists_view(dom_tree@),
            defs_view(orig@),
            Walk { st: state_of(*old(counter), *old(stacks)), g: old(func).graph() },
            block_id,
        ),
    decreases level_of(lists_view(dom_tree@))[block_id as int],
{
    let ghost tree = lists_view(dom_tree@);
    let ghost origv = defs_view(orig@);
    let ghost g0 = func.graph();
    let ghost st0 = state_of(*counter, *stacks);
    let b = block_id;
    assert(g0[b as int] == func.blocks[b as int]@);
    rename_instr_list(&mut func.blocks[b].instrs, counter, stacks);
    let ghost st2 = state_of(*counter, *stacks);
    let ghost g2 = func.graph();
    proof {
        let len = g0[b as int].instrs.len() as int;
        let (st1, instrs1) = phis_renamed(st0, g0[b as int].instrs, len);
        let (s2, instrs2) = body_renamed(st1, instrs1, len);
        assert(g2 =~= g0.update(
            b as int,
            BlockView {
                label: g0[b as int].label,
                instrs: instrs2,
                preds: g0[b as int].preds,
                succs: g0[b as int].succs,
            },
        ));
        assert(same_shape(g0, g2)) by {
            assert forall|m: int, i: int|
                0 <= m < g0.len() && 0 <= i < g0[m].instrs.len() implies same_form(
                #[trigger] g0[m].instrs[i],
                g2[m].instrs[i],
            ) by {
                if m == b {
                    assert(same_form(
                        instrs_view(old(func).blocks[b as int].instrs@)[i],
                        instrs_view(func.blocks[b as int].instrs@)[i],
                    ));
                }
            }
        }
        lemma_ready_same_shape(g0, g2, tree, origv);
        assert forall|m: int| 0 <= m < orig.len() implies (#[trigger] orig[m]).len()
            == g2[m].instrs.len() by {
            assert(origv[m].len() == g2[m].instrs.len());
        }
    }
    fill_successors(func, b, orig, stacks);
    let ghost g3 = func.graph();
    proof {
        lemma_same_shape_trans(g0, g2, g3);
        lemma_ready_same_shape(g0, g3, tree, origv);
    }
    let children = &dom_tree[b];
    assert(tree[b as int] == children@);
    let mut k: usize = 0;
    while k < children.len()
        invariant
            k <= children.len(),
            b == block_id,
            b < dom_tree.len(),
            tree.len() == dom_tree.len(),
            children == dom_tree[b as int],
            tree == lists_view(dom_tree@),
            origv == defs_view(orig@),
            counter.wf(),
            stacks.wf(),
            func.name == old(func).name,
            func.args == old(func).args,
            func.label_to_idx == old(func).label_to_idx,
            func.blocks.len() == old(func).blocks.len(),
            g0 == old(func).graph(),
            same_shape(g0, func.graph()),
            walk_ready(g0, tree, origv),
            (Walk { st: state_of(*counter, *stacks), g: func.graph() }) == walk_children(
                tree,
                origv,
                Walk { st: st2, g: g3 },
                b,
                k as int,
            ),
        decreases children.len() - k,
    {
        let c = children[k];
        let ghost g4 = func.graph();
        assert(tree[b as int][k as int] == c);
        proof {
            lemma_level_of(tree);
            assert(below(tree, b, c));
            lemma_ready_same_shape(g0, g4, tree, origv);
        }
        rename_block(c, dom_tree, orig, func, counter, stacks);
        proof {
            lemma_same_shape_trans(g0, g4, func.graph());
        }
        k += 1;
    }
    assert(origv[b as int] == sources_view(orig[b as int]@));
    pop_defs(stacks, &orig[b]);
}

/// The names that the instructions of `func` define, block by block.
fn definitions_of(func: &IrFunction) -> (orig: Vec<Vec<Option<String>>>)
    ensures
        defs_view(orig@) == defs_of(func.graph()),
{
    let mut orig: Vec<Vec<Option<String>>> = Vec::new();
    let ghost g = func.graph();
    let mut b: usize = 0;
    while b < func.blocks.len()
        invariant
            b <= func.blocks.len(),
            g == func.graph(),
            orig.len() == b,
            forall|m: int| 0 <= m < b ==> sources_view((#[trigger] orig[m])@) == defs_of(g)[m],
        decreases func.blocks.len() - b,
    {
        let block = &func.blocks[b];
        assert(g[b as int] == block@);
        let mut row: Vec<Option<String>> = Vec::new();
        let mut i: usize = 0;
        while i < block.instrs.len()
            invariant
                i <= block.instrs.len(),
                row.len() == i,
                forall|j: int| 0 <= j < i ==> option_view(#[trigger] row[j]) == block.instrs[j]@.def(),
            decreases block.instrs.len() - i,
        {
            let d = match block.instrs[i].def_name() {
                Some(name) => Some(name.clone()),
                None => None,
            };
            row.push(d);
            i += 1;
        }
        assert(sources_view(row@) =~= defs_of(g)[b as int]);
        orig.push(row);
        b += 1;
    }
    assert(defs_view(orig@) =~= defs_of(g));
    orig
}

/// The walk from block `b` meets every block once, and every name that it
/// finds defined there has a stack: no block is listed as a child twice, and
/// the blocks that the walk renames lie in the graph and define names with
/// stacks only.
pub open spec fn scoped(
    tree: Seq<Seq<usize>>,
    g: Seq<BlockView>,
    stacks: AssocView<Seq<Seq<char>>>,
    b: usize,
) -> bool {
    &&& crate::scopes::single_parent(tree)
    &&& forall|c: int| #[trigger]
        crate::single_assignment::visited(tree, b).contains(c) ==> 0 <= c < g.len()
            && crate::scopes::row_has_stacks(stacks, defs_of(g)[c])
}

/// Renames block `block_id` and everything below it in the dominator tree.
///
/// In each block the φs get their new destinations first; then every other
/// instruction has its uses replaced by the names that currently stand for
/// them and its definition replaced by a newly issued name.  After that
/// every successor's φs get, as their source for this block, the current
/// name of the name they were placed for.  Then the children are renamed in
/// order, and at the end the names defined in the block go out of scope.
///
/// Where the walk meets every block once and every name defined in those
/// blocks has a stack, the stacks are left as they were found, and the
/// counter of every name has moved on by the number of its definitions in
/// the blocks that were renamed, as far as the largest machine number.
pub fn rename_pass(
    block_id: usize,
    dom_tree: &HashMap<usize, Vec<usize>>,
    func: &mut IrFunction,
    counter: &mut Counters,
    stacks: &mut Stacks,
)
    requires
        block_id < old(func).blocks.len(),
        old(counter).wf(),
        old(stacks).wf(),
        walk_ready(
            old(func).graph(),
            lists_seq(dom_tree@, old(func).blocks.len() as nat),
            defs_of(old(func).graph()),
        ),
    ensures
        final(counter).wf(),
        final(stacks).wf(),
        final(func).name == old(func).name,
        final(func).args == old(func).args,
        final(func).label_to_idx == old(func).label_to_idx,
        same_shape(old(func).graph(), final(func).graph()),
        (Walk { st: state_of(*final(counter), *final(stacks)), g: final(func).graph() })
            == walk_block(
            lists_seq(dom_tree@, old(func).blocks.len() as nat),
            defs_of(old(func).graph()),
            Walk { st: state_of(*old(counter), *old(stacks)), g: old(func).graph() },
            block_id,
        ),
        scoped(
            lists_seq(dom_tree@, old(func).blocks.len() as nat),
            old(func).graph(),
            stacks_view(*old(stacks)),
            block_id,
        ) ==> {
            &&& stacks_view(*final(stacks)) == stacks_view(*old(stacks))
            &&& forall|v: Seq<char>|
                crate::scopes::count_of(final(counter).assoc(), v) == crate::scopes::capped(
                    crate::scopes::count_of(old(counter).assoc(), v) + crate::scopes::subtree_count(
                        lists_seq(dom_tree@, old(func).blocks.len() as nat),
                        defs_of(old(func).graph()),
                        v,
                        block_id,
                    ),
                )
        },
{
    let ghost g0 = func.graph();
    let ghost st0 = state_of(*counter, *stacks);
    let orig = definitions_of(func);
    let tree = hash_map_to_lists(dom_tree, func.blocks.len());
    rename_block(block_id, &tree, &orig, func, counter, stacks);
    proof {
        let t = lists_seq(dom_tree@, g0.len());
        if scoped(t, g0, st0.stacks, block_id) {
            assert(crate::scopes::untouched(
                g0,
                defs_of(g0),
                st0.stacks,
                crate::single_assignment::visited(t, block_id),
            ));
            crate::scopes::lemma_walk_restores_stacks(
                t,
                defs_of(g0),
                Walk { st: st0, g: g0 },
                block_id,
            );
        }
    }
}

} // verus!
