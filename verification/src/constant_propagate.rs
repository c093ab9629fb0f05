//! Constant propagation within a block: a name that an earlier instruction of
//! the block set to a constant is replaced, where it is read, by the constant
//! written out.

use crate::decimal::{bool_repr, bool_to_string, decimal_repr, i64_to_string};
use crate::function::{BlockView, FuncView, IrFunction};
use crate::ir::{BinOp, InstrView, IrInstruction, Literal};
use crate::names::{names_view, AssocView, StrMap};
use crate::pass_manager::FunctionPass;
use vstd::prelude::*;

verus! {

/// The operations that compute on integers.
pub open spec fn is_arithmetic(op: BinOp) -> bool {
    op == BinOp::Add || op == BinOp::Mul || op == BinOp::Sub || op == BinOp::Div
}

/// The operations that compare.
pub open spec fn is_comparison(op: BinOp) -> bool {
    op == BinOp::Eq || op == BinOp::Lt || op == BinOp::Gt || op == BinOp::Ge || op == BinOp::Le
}

/// No name is known to be constant.
pub open spec fn empty_env() -> AssocView<Literal> {
    AssocView { keys: Seq::empty(), vals: Seq::empty() }
}

/// What is known after an instruction: a constant instruction binds its
/// destination.
pub open spec fn env_after(env: AssocView<Literal>, instr: InstrView) -> AssocView<Literal> {
    match instr {
        InstrView::Const { dest, value } => env.put(dest, value),
        _ => env,
    }
}

/// What is known in front of instruction `i` of a block.
pub open spec fn env_before(instrs: Seq<InstrView>, i: int) -> AssocView<Literal>
    decreases i,
{
    if i <= 0 {
        empty_env()
    } else {
        env_after(env_before(instrs, i - 1), instrs[i - 1])
    }
}

/// An operand in a place that takes integers: the integer written out where
/// the name is known to be one.
pub open spec fn int_operand(env: AssocView<Literal>, name: Seq<char>) -> Seq<char> {
    if env.contains(name) {
        match env.get(name) {
            Literal::Int(v) => decimal_repr(v as int),
            Literal::Bool(_) => name,
        }
    } else {
        name
    }
}

/// An operand in a place that takes truth values: `true` or `false` where
/// the name is known to be one.
pub open spec fn bool_operand(env: AssocView<Literal>, name: Seq<char>) -> Seq<char> {
    if env.contains(name) {
        match env.get(name) {
            Literal::Bool(v) => bool_repr(v),
            Literal::Int(_) => name,
        }
    } else {
        name
    }
}

/// The instruction with its operands replaced: integers go into the operands
/// of arithmetic, into returned values and into the source of a copy; truth
/// values go into the operands of comparisons and into branch conditions.
pub open spec fn propagate_instr(env: AssocView<Literal>, instr: InstrView) -> InstrView {
    match instr {
        InstrView::Binary { op, dest, lhs, rhs } => if is_arithmetic(op) {
            InstrView::Binary { op, dest, lhs: int_operand(env, lhs), rhs: int_operand(env, rhs) }
        } else if is_comparison(op) {
            InstrView::Binary { op, dest, lhs: bool_operand(env, lhs), rhs: bool_operand(env, rhs) }
        } else {
            instr
        },
        InstrView::Assign { lhs, rhs } => InstrView::Assign { lhs, rhs: int_operand(env, rhs) },
        InstrView::Br { cond, then_lbl, else_lbl } => InstrView::Br {
            cond: bool_operand(env, cond),
            then_lbl,
            else_lbl,
        },
        InstrView::Ret { args } => InstrView::Ret {
            args: Seq::new(args.len(), |i: int| int_operand(env, args[i])),
        },
        _ => instr,
    }
}

/// The block with constants propagated: every instruction sees what the
/// instructions in front of it set.
pub open spec fn propagate_block(block: BlockView) -> BlockView {
    BlockView {
        label: block.label,
        instrs: Seq::new(
            block.instrs.len(),
            |i: int| propagate_instr(env_before(block.instrs, i), block.instrs[i]),
        ),
        preds: block.preds,
        succs: block.succs,
    }
}

/// The function with constants propagated in every block.
pub open spec fn propagate_function(f: FuncView) -> FuncView {
    FuncView {
        name: f.name,
        args: f.args,
        blocks: Seq::new(f.blocks.len(), |b: int| propagate_block(f.blocks[b])),
        labels: f.labels,
    }
}

fn int_operand_of(env: &StrMap<Literal>, name: &String) -> (r: String)
    requires
        env.wf(),
    ensures
        r@ == int_operand(env.assoc(), name@),
{
    match env.get(name) {
        Some(Literal::Int(v)) => i64_to_string(*v),
        _ => name.clone(),
    }
}

fn bool_operand_of(env: &StrMap<Literal>, name: &String) -> (r: String)
    requires
        env.wf(),
    ensures
        r@ == bool_operand(env.assoc(), name@),
{
    match env.get(name) {
        Some(Literal::Bool(v)) => bool_to_string(*v),
        _ => name.clone(),
    }
}

fn int_operands_of(env: &StrMap<Literal>, names: &Vec<String>) -> (r: Vec<String>)
    requires
        env.wf(),
    ensures
        names_view(r@) == Seq::new(
            names.len() as nat,
            |i: int| int_operand(env.assoc(), names_view(names@)[i]),
        ),
{
    let mut r: Vec<String> = Vec::new();
    let mut i: usize = 0;
    while i < names.len()
        invariant
            i <= names.len(),
            env.wf(),
            r.len() == i,
            forall|j: int| 0 <= j < i ==> r[j]@ == int_operand(env.assoc(), names[j]@),
        decreases names.len() - i,
    {
        r.push(int_operand_of(env, &names[i]));
        i += 1;
    }
    assert(names_view(r@) =~= Seq::new(
        names.len() as nat,
        |i: int| int_operand(env.assoc(), names_view(names@)[i]),
    ));
    r
}

/// The instruction with its operands replaced, or nothing where it is of a
/// kind that stays as it is.
fn propagated(env: &StrMap<Literal>, instr: &IrInstruction) -> (r: Option<IrInstruction>)
    requires
        env.wf(),
    ensures
        match r {
            Some(x) => x@ == propagate_instr(env.assoc(), instr@),
            None => instr@ == propagate_instr(env.assoc(), instr@),
        },
{
    match instr {
        IrInstruction::Assign { lhs, rhs } => Some(
            IrInstruction::Assign { lhs: lhs.clone(), rhs: int_operand_of(env, rhs) },
        ),
        IrInstruction::Add { dest, lhs, rhs } => Some(
            IrInstruction::Add {
                dest: dest.clone(),
                lhs: int_operand_of(env, lhs),
                rhs: int_operand_of(env, rhs),
            },
        ),
        IrInstruction::Mul { dest, lhs, rhs } => Some(
            IrInstruction::Mul {
                dest: dest.clone(),
                lhs: int_operand_of(env, lhs),
                rhs: int_operand_of(env, rhs),
            },
        ),
        IrInstruction::Sub { dest, lhs, rhs } => Some(
            IrInstruction::Sub {
                dest: dest.clone(),
                lhs: int_operand_of(env, lhs),
                rhs: int_operand_of(env, rhs),
            },
        ),
        IrInstruction::Div { dest, lhs, rhs } => Some(
            IrInstruction::Div {
                dest: dest.clone(),
                lhs: int_operand_of(env, lhs),
                rhs: int_operand_of(env, rhs),
            },
        ),
        IrInstruction::Eq { dest, lhs, rhs } => Some(
            IrInstruction::Eq {
                dest: dest.clone(),
                lhs: bool_operand_of(env, lhs),
                rhs: bool_operand_of(env, rhs),
            },
        ),
        IrInstruction::Lt { dest, lhs, rhs } => Some(
            IrInstruction::Lt {
                dest: dest.clone(),
                lhs: bool_operand_of(env, lhs),
                rhs: bool_operand_of(env, rhs),
            },
        ),
        IrInstruction::Gt { dest, lhs, rhs } => Some(
            IrInstruction::Gt {
                dest: dest.clone(),
                lhs: bool_operand_of(env, lhs),
                rhs: bool_operand_of(env, rhs),
            },
        ),
        IrInstruction::Ge { dest, lhs, rhs } => Some(
            IrInstruction::Ge {
                dest: dest.clone(),
                lhs: bool_operand_of(env, lhs),
                rhs: bool_operand_of(env, rhs),
            },
        ),
        IrInstruction::Le { dest, lhs, rhs } => Some(
            IrInstruction::Le {
                dest: dest.clone(),
                lhs: bool_operand_of(env, lhs),
                rhs: bool_operand_of(env, rhs),
            },
        ),
        IrInstruction::Br { cond, then_lbl, else_lbl } => Some(
            IrInstruction::Br {
                cond: bool_operand_of(env, cond),
                then_lbl: then_lbl.clone(),
                else_lbl: else_lbl.clone(),
            },
        ),
        IrInstruction::Ret { args } => Some(IrInstruction::Ret { args: int_operands_of(env, args) }),
        _ => None,
    }
}

/// The pass that propagates constants within each block.
#[derive(Debug, Clone, Copy)]
pub struct ConstantPropagationPass {}

impl FunctionPass for ConstantPropagationPass {
    open spec fn output(&self, f: FuncView) -> FuncView {
        propagate_function(f)
    }

    open spec fn goes_on(&self, f: FuncView) -> bool {
        true
    }

    fn name(&self) -> (r: &str)
        ensures
            r@ == "ConstantPropagationPass"@,
    {
        "ConstantPropagationPass"
    }

    fn run_on_function(&mut self, function: &mut IrFunction) -> (changed: bool) {
        let ghost f0 = function@;
        let nblocks = function.blocks.len();
        let mut b: usize = 0;
        while b < nblocks
            invariant
                b <= nblocks,
                nblocks == function.blocks.len(),
                nblocks == f0.blocks.len(),
                f0 == old(function)@,
                function.name == old(function).name,
                function.args == old(function).args,
                function.label_to_idx == old(function).label_to_idx,
                forall|m: int|
                    0 <= m < b ==> (#[trigger] function.blocks[m])@ == propagate_block(f0.blocks[m]),
                forall|m: int| b <= m < nblocks ==> (#[trigger] function.blocks[m])@ == f0.blocks[m],
            decreases nblocks - b,
        {
            let mut env: StrMap<Literal> = StrMap::new();
            let ninstrs = function.blocks[b].instrs.len();
            let ghost block0 = f0.blocks[b as int];
            let mut i: usize = 0;
            assert(env.assoc().vals =~= empty_env().vals);
            assert(env.assoc() == empty_env());
            while i < ninstrs
                invariant
                    i <= ninstrs,
                    b < nblocks,
                    nblocks == function.blocks.len(),
                    nblocks == f0.blocks.len(),
                    block0 == f0.blocks[b as int],
                    ninstrs == function.blocks[b as int].instrs.len(),
                    ninstrs == block0.instrs.len(),
                    env.wf(),
                    env.assoc() == env_before(block0.instrs, i as int),
                    function.name == old(function).name,
                    function.args == old(function).args,
                    function.label_to_idx == old(function).label_to_idx,
                    function.blocks[b as int].label@ == block0.label,
                    function.blocks[b as int].preds@ == block0.preds,
                    function.blocks[b as int].succs@ == block0.succs,
                    forall|j: int|
                        0 <= j < i ==> (#[trigger] function.blocks[b as int].instrs[j])@
                            == propagate_instr(env_before(block0.instrs, j), block0.instrs[j]),
                    forall|j: int|
                        i <= j < ninstrs ==> (#[trigger] function.blocks[b as int].instrs[j])@
                            == block0.instrs[j],
                    forall|m: int|
                        0 <= m < b ==> (#[trigger] function.blocks[m])@ == propagate_block(
                            f0.blocks[m],
                        ),
                    forall|m: int|
                        b < m < nblocks ==> (#[trigger] function.blocks[m])@ == f0.blocks[m],
                decreases ninstrs - i,
            {
                let instr = &function.blocks[b].instrs[i];
                assert(instr@ == block0.instrs[i as int]);
                match instr {
                    IrInstruction::Const { dest, value } => {
                        env.insert(dest.clone(), *value);
                    },
                    _ => {
                        match propagated(&env, instr) {
                            Some(replaced) => {
                                function.blocks[b].instrs.set(i, replaced);
                            },
                            None => {},
                        }
                    },
                }
                i += 1;
            }
            assert(function.blocks[b as int]@.instrs =~= propagate_block(block0).instrs);
            b += 1;
        }
        assert(function@.blocks =~= propagate_function(f0).blocks);
        true
    }
}

} // verus!
