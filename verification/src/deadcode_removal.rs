//! Dead-code elimination: an instruction that defines a name nobody reads
//! afterwards, and that has no effect besides, is dropped.

use crate::function::{instrs_view, BlockView, FuncView, IrFunction};
use crate::ir::{seq_of_option, InstrView, IrInstruction};
use crate::liveness::{compute_liveness, liveness_of, succs_in_range};
use crate::names::{names_view, NameSet};
use crate::pass_manager::FunctionPass;
use vstd::prelude::*;

verus! {

/// The instruction can go: it defines a name that is not live after it, and
/// dropping it cannot be observed.
pub open spec fn is_dead(instr: InstrView, live_after: Set<Seq<char>>) -> bool {
    match instr.def() {
        Some(d) => !instr.has_effect() && !live_after.contains(d),
        None => false,
    }
}

/// The names that are live in front of instruction `i` of a block, given
/// those that are live at its end.  An instruction that goes contributes
/// nothing; one that stays ends the life of the name it defines and starts
/// that of the names it reads.
pub open spec fn live_before(instrs: Seq<InstrView>, live_out: Set<Seq<char>>, i: int) -> Set<
    Seq<char>,
>
    decreases instrs.len() - i,
{
    if i >= instrs.len() || i < 0 {
        live_out
    } else {
        let after = live_before(instrs, live_out, i + 1);
        if is_dead(instrs[i], after) {
            after
        } else {
            after.difference(seq_of_option(instrs[i].def()).to_set()).union(
                instrs[i].uses().to_set(),
            )
        }
    }
}

/// Instruction `i` stays.
pub open spec fn stays(instrs: Seq<InstrView>, live_out: Set<Seq<char>>, i: int) -> bool {
    !is_dead(instrs[i], live_before(instrs, live_out, i + 1))
}

/// The instructions from number `from` on that stay, in order.
pub open spec fn survivors(instrs: Seq<InstrView>, live_out: Set<Seq<char>>, from: int) -> Seq<
    InstrView,
>
    decreases instrs.len() - from,
{
    if from >= instrs.len() || from < 0 {
        Seq::empty()
    } else if stays(instrs, live_out, from) {
        seq![instrs[from]] + survivors(instrs, live_out, from + 1)
    } else {
        survivors(instrs, live_out, from + 1)
    }
}

/// The function without its dead instructions.
pub open spec fn without_dead_code(f: FuncView) -> FuncView {
    FuncView {
        name: f.name,
        args: f.args,
        blocks: Seq::new(
            f.blocks.len(),
            |b: int|
                BlockView {
                    label: f.blocks[b].label,
                    instrs: survivors(f.blocks[b].instrs, liveness_of(f.blocks).0[b], 0),
                    preds: f.blocks[b].preds,
                    succs: f.blocks[b].succs,
                },
        ),
        labels: f.labels,
    }
}

/// Every instruction that is dropped defines a name that is not live at its
/// place, and has no observable effect.
pub proof fn lemma_dropped_is_dead(instrs: Seq<InstrView>, live_out: Set<Seq<char>>, i: int)
    requires
        0 <= i < instrs.len(),
        !stays(instrs, live_out, i),
    ensures
        instrs[i].def() is Some,
        !live_before(instrs, live_out, i + 1).contains(instrs[i].def()->0),
        !instrs[i].has_effect(),
{
}

/// The instructions of a block that stay, given what is live at its end.
fn surviving_instrs(instrs: &Vec<IrInstruction>, live_out: &NameSet) -> (r: Vec<IrInstruction>)
    requires
        live_out.wf(),
    ensures
        instrs_view(r@) == survivors(instrs_view(instrs@), live_out@, 0),
{
    let ghost all = instrs_view(instrs@);
    let ghost lo = live_out@;
    let mut live = live_out.clone();
    let mut kept_rev: Vec<IrInstruction> = Vec::new();
    let mut i: usize = instrs.len();
    while i > 0
        invariant
            i <= instrs.len(),
            all == instrs_view(instrs@),
            live.wf(),
            live@ == live_before(all, lo, i as int),
            instrs_view(kept_rev@).reverse() == survivors(all, lo, i as int),
        decreases i,
    {
        i -= 1;
        let instr = &instrs[i];
        assert(all[i as int] == instr@);
        let ghost after = live@;
        let ghost kept_before = instrs_view(kept_rev@);
        let dead = match instr.def_name() {
            Some(d) => !has_effect(instr) && !live.contains(d),
            None => false,
        };
        assert(dead == is_dead(instr@, after));
        if !dead {
            match instr.def_name() {
                Some(d) => {
                    live.remove(d);
                    proof {
                        let single = seq_of_option(instr@.def());
                        assert(single[0] == d@);
                        assert(single.to_set() =~= Set::<Seq<char>>::empty().insert(d@));
                        assert(live@ =~= after.difference(single.to_set()));
                    }
                },
                None => {
                    assert(seq_of_option(instr@.def()).to_set() =~= Set::<Seq<char>>::empty());
                    assert(live@ =~= after.difference(seq_of_option(instr@.def()).to_set()));
                },
            }
            let ghost mid = live@;
            let used = instr.uses();
            let mut k: usize = 0;
            while k < used.len()
                invariant
                    k <= used.len(),
                    live.wf(),
                    live@ == mid.union(names_view(used@).take(k as int).to_set()),
                decreases used.len() - k,
            {
                let ghost taken = names_view(used@).take(k as int);
                proof {
                    assert(names_view(used@).take(k + 1) =~= taken.push(used[k as int]@));
                    taken.lemma_push_to_set_commute(used[k as int]@);
                }
                live.insert(used[k].clone());
                assert(live@ =~= mid.union(names_view(used@).take(k + 1).to_set()));
                k += 1;
            }
            assert(names_view(used@).take(used.len() as int) =~= names_view(used@));
            kept_rev.push(instr.clone());
            proof {
                assert(instrs_view(kept_rev@) =~= kept_before.push(instr@));
                assert(kept_before.push(instr@).reverse() =~= seq![instr@] + kept_before.reverse());
            }
        }
    }
    let mut kept: Vec<IrInstruction> = Vec::new();
    let mut j: usize = kept_rev.len();
    while j > 0
        invariant
            j <= kept_rev.len(),
            kept.len() == kept_rev.len() - j,
            forall|t: int|
                0 <= t < kept.len() ==> (#[trigger] kept[t])@ == kept_rev[kept_rev.len() - 1 - t]@,
        decreases j,
    {
        j -= 1;
        kept.push(kept_rev[j].clone());
    }
    assert(instrs_view(kept@) =~= instrs_view(kept_rev@).reverse());
    kept
}

/// Whether dropping the instruction could be observed.
fn has_effect(instr: &IrInstruction) -> (r: bool)
    ensures
        r == instr@.has_effect(),
{
    match instr {
        IrInstruction::Call { .. } => true,
        IrInstruction::Br { .. } => true,
        IrInstruction::Jmp { .. } => true,
        IrInstruction::Ret { .. } => true,
        IrInstruction::Print { .. } => true,
        _ => false,
    }
}

/// Drops the dead instructions of every block.
pub fn eliminate_deadcode(func: &mut IrFunction)
    requires
        succs_in_range(old(func)@.blocks),
    ensures
        final(func)@ == without_dead_code(old(func)@),
{
    let (live_out, _live_in) = compute_liveness(func);
    let ghost f0 = func@;
    let ghost outs = liveness_of(f0.blocks).0;
    let n = func.blocks.len();
    let mut b: usize = 0;
    while b < n
        invariant
            b <= n,
            n == func.blocks.len(),
            n == f0.blocks.len(),
            n == live_out.len(),
            f0 == old(func)@,
            outs == liveness_of(f0.blocks).0,
            outs == crate::liveness::sets_view(live_out@),
            crate::liveness::all_wf(live_out@),
            func.name == old(func).name,
            func.args == old(func).args,
            func.label_to_idx == old(func).label_to_idx,
            forall|m: int|
                0 <= m < b ==> (#[trigger] func.blocks[m])@ == without_dead_code(f0).blocks[m],
            forall|m: int| b <= m < n ==> (#[trigger] func.blocks[m])@ == f0.blocks[m],
        decreases n - b,
    {
        assert(func.blocks[b as int]@ == f0.blocks[b as int]);
        assert(outs[b as int] == live_out[b as int]@);
        let kept = surviving_instrs(&func.blocks[b].instrs, &live_out[b]);
        func.blocks[b].instrs = kept;
        b += 1;
    }
    assert(func@.blocks =~= without_dead_code(f0).blocks);
}

/// The pass that drops dead instructions.
#[derive(Debug, Clone, Copy)]
pub struct DeadCodeRemovalPass {}

impl FunctionPass for DeadCodeRemovalPass {
    open spec fn output(&self, f: FuncView) -> FuncView {
        without_dead_code(f)
    }

    open spec fn goes_on(&self, f: FuncView) -> bool {
        true
    }

    fn name(&self) -> (r: &str)
        ensures
            r@ == "DeadCodeRemovalPass"@,
    {
        "DeadCodeRemovalPass"
    }

    fn run_on_function(&mut self, function: &mut IrFunction) -> (changed: bool) {
        eliminate_deadcode(function);
        true
    }
}

} // verus!
