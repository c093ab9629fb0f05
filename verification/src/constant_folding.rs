//! Constant folding: an arithmetic instruction whose two operands are
//! integer literals becomes the constant it computes.

use crate::decimal::{parse_i64, parse_i64_spec};
use crate::function::{BlockView, FuncView, IrFunction};
use crate::ir::{BinOp, InstrView, IrInstruction, Literal};
use crate::pass_manager::FunctionPass;
use vstd::prelude::*;

verus! {

/// Division that rounds towards zero.
pub open spec fn trunc_div(a: int, b: int) -> int {
    if a >= 0 && b > 0 {
        a / b
    } else if a < 0 && b > 0 {
        -((-a) / b)
    } else if a >= 0 && b < 0 {
        -(a / (-b))
    } else {
        (-a) / (-b)
    }
}

/// What an arithmetic operation computes on two integers, where that is
/// defined: the divisor is not zero; nothing for an operation that is not
/// arithmetic.
pub open spec fn arith_value(op: BinOp, a: int, b: int) -> Option<int> {
    match op {
        BinOp::Add => Some(a + b),
        BinOp::Sub => Some(a - b),
        BinOp::Mul => Some(a * b),
        BinOp::Div => if b == 0 {
            None
        } else {
            Some(trunc_div(a, b))
        },
        _ => None,
    }
}

/// The constant that an instruction folds to: it is an arithmetic
/// instruction, both operands are integer literals, and the result is
/// defined and fits in 64 bits.
pub open spec fn folded_value(instr: InstrView) -> Option<i64> {
    match instr {
        InstrView::Binary { op, lhs, rhs, .. } => match (parse_i64_spec(lhs), parse_i64_spec(rhs)) {
            (Some(a), Some(b)) => match arith_value(op, a as int, b as int) {
                Some(v) => if i64::MIN <= v <= i64::MAX {
                    Some(v as i64)
                } else {
                    None
                },
                None => None,
            },
            _ => None,
        },
        _ => None,
    }
}

/// The instruction after folding: the constant where it folds, itself where
/// it does not.
pub open spec fn fold_instr(instr: InstrView) -> InstrView {
    match folded_value(instr) {
        Some(v) => InstrView::Const { dest: instr->Binary_dest, value: Literal::Int(v) },
        None => instr,
    }
}

/// The block with every instruction folded.
pub open spec fn fold_block(block: BlockView) -> BlockView {
    BlockView {
        label: block.label,
        instrs: Seq::new(block.instrs.len(), |i: int| fold_instr(block.instrs[i])),
        preds: block.preds,
        succs: block.succs,
    }
}

/// The function with every instruction folded.
pub open spec fn fold_function(f: FuncView) -> FuncView {
    FuncView {
        name: f.name,
        args: f.args,
        blocks: Seq::new(f.blocks.len(), |b: int| fold_block(f.blocks[b])),
        labels: f.labels,
    }
}

/// The constant that `op` computes on the two operands, if the instruction
/// folds.
fn fold_operands(op: BinOp, lhs: &String, rhs: &String) -> (r: Option<i64>)
    ensures
        r == match (parse_i64_spec(lhs@), parse_i64_spec(rhs@)) {
            (Some(a), Some(b)) => match arith_value(op, a as int, b as int) {
                Some(v) => if i64::MIN <= v <= i64::MAX {
                    Some(v as i64)
                } else {
                    None
                },
                None => None,
            },
            _ => None,
        },
{
    let right = match parse_i64(rhs) {
        Some(v) => v,
        None => {
            return None;
        },
    };
    let left = match parse_i64(lhs) {
        Some(v) => v,
        None => {
            return None;
        },
    };
    match op {
        BinOp::Add => left.checked_add(right),
        BinOp::Sub => left.checked_sub(right),
        BinOp::Mul => left.checked_mul(right),
        BinOp::Div => left.checked_div(right),
        _ => None,
    }
}

/// The constant that an instruction folds to, if it folds.
fn fold_value(instr: &IrInstruction) -> (r: Option<i64>)
    ensures
        r == folded_value(instr@),
{
    match instr {
        IrInstruction::Add { lhs, rhs, .. } => fold_operands(BinOp::Add, lhs, rhs),
        IrInstruction::Sub { lhs, rhs, .. } => fold_operands(BinOp::Sub, lhs, rhs),
        IrInstruction::Mul { lhs, rhs, .. } => fold_operands(BinOp::Mul, lhs, rhs),
        IrInstruction::Div { lhs, rhs, .. } => fold_operands(BinOp::Div, lhs, rhs),
        _ => None,
    }
}

/// The pass that folds constants within each block.
#[derive(Debug, Clone, Copy)]
pub struct ConstantFoldPass {}

impl FunctionPass for ConstantFoldPass {
    open spec fn output(&self, f: FuncView) -> FuncView {
        fold_function(f)
    }

    open spec fn goes_on(&self, f: FuncView) -> bool {
        true
    }

    fn name(&self) -> (r: &str)
        ensures
            r@ == "ConstantFoldPass"@,
    {
        "ConstantFoldPass"
    }

    fn run_on_function(&mut self, function: &mut IrFunction) -> (changed: bool) {
        let ghost f0 = function@;
        let nblocks = function.blocks.len();
        let mut b: usize = 0;
        while b < nblocks
            invariant
                b <= nblocks,
                nblocks == function.blocks.len(),
                nblocks == f0.blocks.len(),
                f0 == old(function)@,
                function.name == old(function).name,
                function.args == old(function).args,
                function.label_to_idx == old(function).label_to_idx,
                forall|m: int| 0 <= m < b ==> (#[trigger] function.blocks[m])@ == fold_block(f0.blocks[m]),
                forall|m: int| b <= m < nblocks ==> (#[trigger] function.blocks[m])@ == f0.blocks[m],
            decreases nblocks - b,
        {
            let ninstrs = function.blocks[b].instrs.len();
            let ghost block0 = f0.blocks[b as int];
            let mut i: usize = 0;
            while i < ninstrs
                invariant
                    i <= ninstrs,
                    b < nblocks,
                    nblocks == function.blocks.len(),
                    nblocks == f0.blocks.len(),
                    block0 == f0.blocks[b as int],
                    ninstrs == function.blocks[b as int].instrs.len(),
                    ninstrs == block0.instrs.len(),
                    function.name == old(function).name,
                    function.args == old(function).args,
                    function.label_to_idx == old(function).label_to_idx,
                    function.blocks[b as int].label@ == block0.label,
                    function.blocks[b as int].preds@ == block0.preds,
                    function.blocks[b as int].succs@ == block0.succs,
                    forall|j: int|
                        0 <= j < i ==> (#[trigger] function.blocks[b as int].instrs[j])@ == fold_instr(
                            block0.instrs[j],
                        ),
                    forall|j: int|
                        i <= j < ninstrs ==> (#[trigger] function.blocks[b as int].instrs[j])@
                            == block0.instrs[j],
                    forall|m: int|
                        0 <= m < b ==> (#[trigger] function.blocks[m])@ == fold_block(f0.blocks[m]),
                    forall|m: int|
                        b < m < nblocks ==> (#[trigger] function.blocks[m])@ == f0.blocks[m],
                decreases ninstrs - i,
            {
                let instr = &function.blocks[b].instrs[i];
                assert(instr@ == block0.instrs[i as int]);
                match fold_value(instr) {
                    Some(v) => {
                        let dest = match instr.def_name() {
                            Some(d) => d.clone(),
                            None => String::new(),
                        };
                        function.blocks[b].instrs.set(
                            i,
                            IrInstruction::Const { dest, value: Literal::Int(v) },
                        );
                    },
                    None => {},
                }
                i += 1;
            }
            assert(function.blocks[b as int]@.instrs =~= fold_block(block0).instrs);
            b += 1;
        }
        assert(function@.blocks =~= fold_function(f0).blocks);
        true
    }
}

} // verus!
