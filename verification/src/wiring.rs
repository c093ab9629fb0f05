//! Turning a list of blocks into a control-flow graph: every block gets its
//! outgoing edges from the instruction it ends with.

use crate::function::{
    add_edge_spec, edges_in_range, edges_symmetric, labels_of, lemma_add_edge_in_range,
    lemma_add_edge_symmetric, BlockView, IrFunction,
};
use crate::ir::{InstrView, IrError, IrInstruction};
use crate::names::StrMap;
use vstd::prelude::*;

verus! {

/// `label` is entered in the table and leads to one of the `n` blocks.
pub open spec fn resolves(labels: StrMap<usize>, label: Seq<char>, n: nat) -> bool {
    labels.contains_key(label) && labels.value(label) < n
}

/// Every label that the last instruction of block `b` names leads to a block.
pub open spec fn block_targets_ok(g: Seq<BlockView>, labels: StrMap<usize>, b: int) -> bool {
    if g[b].instrs.len() == 0 {
        true
    } else {
        match g[b].instrs.last() {
            InstrView::Br { then_lbl, else_lbl, .. } => resolves(labels, then_lbl, g.len())
                && resolves(labels, else_lbl, g.len()),
            InstrView::Jmp { label } => resolves(labels, label, g.len()),
            _ => true,
        }
    }
}

/// The next block in source order, if there is one.
pub open spec fn fall_through(g: Seq<BlockView>, b: int) -> Seq<usize> {
    if b + 1 < g.len() {
        seq![(b + 1) as usize]
    } else {
        Seq::empty()
    }
}

/// The blocks that control can reach from the end of block `b`: both targets
/// of a branch, the target of a jump, nothing after a return, and the next
/// block where `b` does not end in a terminator.
pub open spec fn out_targets(g: Seq<BlockView>, labels: StrMap<usize>, b: int) -> Seq<usize> {
    if g[b].instrs.len() == 0 {
        fall_through(g, b)
    } else {
        match g[b].instrs.last() {
            InstrView::Br { then_lbl, else_lbl, .. } => seq![
                labels.value(then_lbl),
                labels.value(else_lbl),
            ],
            InstrView::Jmp { label } => seq![labels.value(label)],
            InstrView::Ret { .. } => Seq::empty(),
            _ => fall_through(g, b),
        }
    }
}

/// `g` with an edge from `from` to each of `targets`, added in order.
pub open spec fn add_edges_from(g: Seq<BlockView>, from: usize, targets: Seq<usize>) -> Seq<
    BlockView,
>
    decreases targets.len(),
{
    if targets.len() == 0 {
        g
    } else {
        add_edge_spec(add_edges_from(g, from, targets.drop_last()), from, targets.last())
    }
}

/// `g` with the outgoing edges of its first `upto` blocks added, block by
/// block.
pub open spec fn wired(g: Seq<BlockView>, labels: StrMap<usize>, upto: int) -> Seq<BlockView>
    decreases upto,
{
    if upto <= 0 {
        g
    } else {
        add_edges_from(
            wired(g, labels, upto - 1),
            (upto - 1) as usize,
            out_targets(g, labels, upto - 1),
        )
    }
}

/// The targets of block `b`, or nothing where a label does not resolve.
fn block_targets(func: &IrFunction, b: usize) -> (r: Option<Vec<usize>>)
    requires
        func.label_to_idx.wf(),
        b < func.blocks.len(),
    ensures
        r is Some == block_targets_ok(func.graph(), func.label_to_idx, b as int),
        r is Some ==> r->0@ == out_targets(func.graph(), func.label_to_idx, b as int),
        r is Some ==> forall|k: int| 0 <= k < r->0.len() ==> r->0[k] < func.blocks.len(),
{
    let n = func.blocks.len();
    let block = &func.blocks[b];
    let ghost g = func.graph();
    assert(g[b as int] == block@);
    let mut out: Vec<usize> = Vec::new();
    let len = block.instrs.len();
    let mut falls = true;
    if len > 0 {
        assert(g[b as int].instrs.last() == block.instrs[len - 1]@);
        match &block.instrs[len - 1] {
            IrInstruction::Br { then_lbl, else_lbl, .. } => {
                falls = false;
                let t = func.block_index(then_lbl);
                let e = func.block_index(else_lbl);
                match (t, e) {
                    (Some(ti), Some(ei)) => {
                        if ti >= n || ei >= n {
                            return None;
                        }
                        out.push(ti);
                        out.push(ei);
                    },
                    _ => {
                        return None;
                    },
                }
            },
            IrInstruction::Jmp { label } => {
                falls = false;
                match func.block_index(label) {
                    Some(ti) => {
                        if ti >= n {
                            return None;
                        }
                        out.push(ti);
                    },
                    None => {
                        return None;
                    },
                }
            },
            IrInstruction::Ret { .. } => {
                falls = false;
            },
            _ => {},
        }
    }
    if falls && b + 1 < n {
        out.push(b + 1);
    }
    assert(out@ =~= out_targets(g, func.label_to_idx, b as int));
    Some(out)
}

/// Adds the outgoing edges of every block.
///
/// Fails, and leaves the function as it was, when some branch or jump names a
/// label that leads to no block.  Edge lists that were in step before are in
/// step afterwards: `b` is a successor of `a` exactly when `a` is a
/// predecessor of `b`.
pub fn wire_block_edges(func: &mut IrFunction) -> (r: Result<(), IrError>)
    requires
        old(func).label_to_idx.wf(),
    ensures
        final(func).name == old(func).name,
        final(func).args == old(func).args,
        final(func).label_to_idx == old(func).label_to_idx,
        r is Ok <==> forall|b: int|
            0 <= b < old(func).blocks.len() ==> block_targets_ok(
                old(func).graph(),
                old(func).label_to_idx,
                b,
            ),
        r is Ok ==> final(func).graph() == wired(
            old(func).graph(),
            old(func).label_to_idx,
            old(func).blocks.len() as int,
        ),
        r is Err ==> r == Err::<(), IrError>(IrError::UnknownLabel) && final(func).graph() == old(
            func,
        ).graph(),
        r is Ok && edges_symmetric(old(func).graph()) ==> edges_symmetric(final(func).graph()),
        r is Ok && edges_in_range(old(func).graph()) ==> edges_in_range(final(func).graph()),
        old(func).wf() ==> final(func).wf(),
{
    let n = func.blocks.len();
    let ghost g0 = func.graph();
    let ghost labels = func.label_to_idx;
    let mut targets: Vec<Vec<usize>> = Vec::new();
    let mut b: usize = 0;
    while b < n
        invariant
            b <= n,
            n == func.blocks.len(),
            func.label_to_idx.wf(),
            *func == *old(func),
            g0 == func.graph(),
            labels == func.label_to_idx,
            targets.len() == b,
            forall|a: int| 0 <= a < b ==> block_targets_ok(g0, labels, a),
            forall|a: int| 0 <= a < b ==> (#[trigger] targets[a])@ == out_targets(g0, labels, a),
            forall|a: int, k: int|
                0 <= a < b && 0 <= k < targets[a].len() ==> #[trigger] targets[a][k] < n,
        decreases n - b,
    {
        match block_targets(func, b) {
            Some(t) => {
                targets.push(t);
            },
            None => {
                return Err(IrError::UnknownLabel);
            },
        }
        b += 1;
    }
    let mut b: usize = 0;
    while b < n
        invariant
            b <= n,
            n == func.blocks.len(),
            n == g0.len(),
            targets.len() == n,
            func.name == old(func).name,
            func.args == old(func).args,
            func.label_to_idx == old(func).label_to_idx,
            labels == old(func).label_to_idx,
            g0 == old(func).graph(),
            func.graph() == wired(g0, labels, b as int),
            forall|a: int| 0 <= a < n ==> (#[trigger] targets[a])@ == out_targets(g0, labels, a),
            forall|a: int, k: int|
                0 <= a < n && 0 <= k < targets[a].len() ==> #[trigger] targets[a][k] < n,
            edges_symmetric(g0) ==> edges_symmetric(func.graph()),
            edges_in_range(g0) ==> edges_in_range(func.graph()),
        decreases n - b,
    {
        let mut k: usize = 0;
        while k < targets[b].len()
            invariant
                b < n,
                k <= targets[b as int].len(),
                n == func.blocks.len(),
                n == g0.len(),
                targets.len() == n,
                func.name == old(func).name,
                func.args == old(func).args,
                func.label_to_idx == old(func).label_to_idx,
                func.graph() == add_edges_from(
                    wired(g0, labels, b as int),
                    b,
                    targets[b as int]@.take(k as int),
                ),
                forall|a: int, k: int|
                    0 <= a < n && 0 <= k < targets[a].len() ==> #[trigger] targets[a][k] < n,
                edges_symmetric(g0) ==> edges_symmetric(func.graph()),
                edges_in_range(g0) ==> edges_in_range(func.graph()),
            decreases targets[b as int].len() - k,
        {
            let to = targets[b][k];
            proof {
                let t = targets[b as int]@;
                assert(t.take(k + 1).drop_last() =~= t.take(k as int));
                assert(t.take(k + 1).last() == to);
                if edges_symmetric(g0) {
                    lemma_add_edge_symmetric(func.graph(), b, to);
                }
                if edges_in_range(g0) {
                    lemma_add_edge_in_range(func.graph(), b, to);
                }
            }
            func.add_edge(b, to);
            k += 1;
        }
        assert(targets[b as int]@.take(k as int) =~= targets[b as int]@);
        b += 1;
    }
    proof {
        if old(func).wf() {
            lemma_wired_labels(g0, labels, n as int);
        }
    }
    Ok(())
}

/// Wiring changes no label.
proof fn lemma_wired_labels(g: Seq<BlockView>, labels: StrMap<usize>, upto: int)
    ensures
        labels_of(wired(g, labels, upto)) == labels_of(g),
    decreases upto,
{
    if upto > 0 {
        lemma_wired_labels(g, labels, upto - 1);
        lemma_edges_labels(wired(g, labels, upto - 1), (upto - 1) as usize, out_targets(g, labels, upto - 1));
    }
}

proof fn lemma_edges_labels(g: Seq<BlockView>, from: usize, targets: Seq<usize>)
    ensures
        labels_of(add_edges_from(g, from, targets)) == labels_of(g),
    decreases targets.len(),
{
    if targets.len() > 0 {
        lemma_edges_labels(g, from, targets.drop_last());
        let g1 = add_edges_from(g, from, targets.drop_last());
        assert(labels_of(add_edge_spec(g1, from, targets.last())) =~= labels_of(g1));
    }
}

} // verus!
