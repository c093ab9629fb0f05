//! Emission: the assembly text of a list of machine functions, with every
//! virtual register replaced by the register that allocation gave it.

use crate::decimal::{decimal_repr, push_i128, push_i64};
use crate::intervals::{instr_count, RegAssoc, RegMap};
use crate::machine_ir::{
    reg_name, MachineBlock, MachineBlockView, MachineFunc, MachineFuncView, MachineInstr, MachineInstrView, VReg,
};
use crate::names::AssocView;
use crate::register_alloc::{
    allocations_of, allocations_view, entry_for, find_entry, LinearScan, LiveIntervals,
};
use vstd::prelude::*;
use vstd::string::*;

verus! {

/// The register that stands for `v` in the output: a named register stands
/// for itself; a virtual one is replaced by the register of its interval,
/// and stands for itself where it has none.
pub open spec fn to_phys_spec(v: VReg, alloc: Seq<LiveIntervals>) -> VReg {
    match v {
        VReg::Virtual(_) => match entry_for(alloc, v) {
            Some(iv) => match iv.phy_reg {
                Some(r) => r,
                None => v,
            },
            None => v,
        },
        _ => v,
    }
}

/// How register `v` is written in the output.
#[verifier::opaque]
pub open spec fn operand(v: VReg, alloc: Seq<LiveIntervals>) -> Seq<char> {
    reg_name(to_phys_spec(v, alloc))
}

/// A virtual register that went to the stack, or that allocation has not
/// seen, is written as the placeholder of virtual registers: nothing is
/// loaded or stored for it.
pub proof fn lemma_spilled_operand(v: VReg, alloc: Seq<LiveIntervals>)
    requires
        v is Virtual,
        match entry_for(alloc, v) {
            Some(iv) => iv.phy_reg is None,
            None => true,
        },
    ensures
        operand(v, alloc) == "rt"@,
{
    reveal(operand);
}

/// The line of one machine instruction.  Printing has no line.
pub open spec fn instr_line(instr: MachineInstrView, alloc: Seq<LiveIntervals>) -> Seq<char> {
    match instr {
        MachineInstrView::Li { rd, imm } => "  li "@ + operand(rd, alloc) + ", "@ + decimal_repr(
            imm as int,
        ) + "\n"@,
        MachineInstrView::Addi { rd, rs1, imm } => "  addi "@ + operand(rd, alloc) + ", "@
            + operand(rs1, alloc) + ", "@ + decimal_repr(imm as int) + "\n"@,
        MachineInstrView::Add { rd, rs1, rs2 } => "  add "@ + operand(rd, alloc) + ", "@ + operand(
            rs1,
            alloc,
        ) + ", "@ + operand(rs2, alloc) + "\n"@,
        MachineInstrView::Mul { rd, rs1, rs2 } => "  mul "@ + operand(rd, alloc) + ", "@ + operand(
            rs1,
            alloc,
        ) + ", "@ + operand(rs2, alloc) + "\n"@,
        MachineInstrView::Sub { rd, rs1, rs2 } => "  sub "@ + operand(rd, alloc) + ", "@ + operand(
            rs1,
            alloc,
        ) + ", "@ + operand(rs2, alloc) + "\n"@,
        MachineInstrView::Div { rd, rs1, rs2 } => "  div "@ + operand(rd, alloc) + ", "@ + operand(
            rs1,
            alloc,
        ) + ", "@ + operand(rs2, alloc) + "\n"@,
        MachineInstrView::Mv { rd, rs1 } => "  mv "@ + operand(rd, alloc) + ", "@ + operand(
            rs1,
            alloc,
        ) + "\n"@,
        MachineInstrView::Sw { rs1, offset, base } => "  sw "@ + operand(rs1, alloc) + ", "@
            + decimal_repr(offset as int) + "("@ + operand(base, alloc) + ")\n"@,
        MachineInstrView::Call { func } => "  call "@ + func + "\n"@,
        MachineInstrView::Jmp { label } => "  j "@ + label + "\n"@,
        MachineInstrView::Jal { rd, label } => "  jal "@ + operand(rd, alloc) + ", "@ + label
            + "\n"@,
        MachineInstrView::Beqz { rs1, label } => "  beqz "@ + operand(rs1, alloc) + ", "@ + label
            + "\n"@,
        MachineInstrView::Beq { rs1, rs2, label } => "  beq "@ + operand(rs1, alloc) + ", "@
            + operand(rs2, alloc) + ", "@ + label + "\n"@,
        MachineInstrView::Ret { .. } => "  ret\n"@,
        MachineInstrView::Print { .. } => Seq::empty(),
    }
}

/// The lines of the first `upto` instructions.
pub open spec fn instr_lines(instrs: Seq<MachineInstrView>, alloc: Seq<LiveIntervals>, upto: int) -> Seq<
    char,
>
    decreases upto,
{
    if upto <= 0 {
        Seq::empty()
    } else {
        instr_lines(instrs, alloc, upto - 1) + instr_line(instrs[upto - 1], alloc)
    }
}

/// A block: its label, then its instructions.
pub open spec fn block_text(block: MachineBlockView, alloc: Seq<LiveIntervals>) -> Seq<char> {
    "  ."@ + block.name + ":\n"@ + instr_lines(block.instrs, alloc, block.instrs.len() as int)
}

/// The text of the first `upto` blocks.
pub open spec fn blocks_text(blocks: Seq<MachineBlockView>, alloc: Seq<LiveIntervals>, upto: int) -> Seq<
    char,
>
    decreases upto,
{
    if upto <= 0 {
        Seq::empty()
    } else {
        blocks_text(blocks, alloc, upto - 1) + block_text(blocks[upto - 1], alloc)
    }
}

/// How many of the first `upto` intervals go to the stack.
pub open spec fn spill_count(alloc: Seq<LiveIntervals>, upto: int) -> nat
    decreases upto,
{
    if upto <= 0 {
        0
    } else {
        spill_count(alloc, upto - 1) + if alloc[upto - 1].mark_spilled {
            1nat
        } else {
            0nat
        }
    }
}

/// The size of the stack frame: eight bytes for every spilled register.
pub open spec fn frame_size(alloc: Seq<LiveIntervals>) -> int {
    8 * (spill_count(alloc, alloc.len() as int) as int)
}

/// What opens a function that has a frame: the frame is made, the return
/// address and the frame pointer are saved, and the frame pointer is set.
pub open spec fn prologue(frame: int) -> Seq<char> {
    if frame > 0 {
        "  addi sp, sp, -"@ + decimal_repr(frame) + "\n  sd ra, "@ + decimal_repr(frame - 8)
            + "(sp)\n  sd s0, "@ + decimal_repr(frame - 16) + "(sp)\n  mv s0, sp\n"@
    } else {
        Seq::empty()
    }
}

/// What closes a function that has a frame, in the reverse order.
pub open spec fn epilogue(frame: int) -> Seq<char> {
    if frame > 0 {
        "  ld s0, "@ + decimal_repr(frame - 16) + "(sp)\n  ld ra, "@ + decimal_repr(frame - 8)
            + "(sp)\n  addi sp, sp, "@ + decimal_repr(frame) + "\n"@
    } else {
        Seq::empty()
    }
}

/// A function: an empty line, its label, and its blocks between prologue and
/// epilogue.
pub open spec fn function_text(f: MachineFuncView, alloc: Seq<LiveIntervals>) -> Seq<char> {
    "\n"@ + f.name + ":\n"@ + prologue(frame_size(alloc)) + blocks_text(
        f.blocks,
        alloc,
        f.blocks.len() as int,
    ) + epilogue(frame_size(alloc))
}

/// The allocation entered under `name`, or none.
pub open spec fn allocation_for(allocs: AssocView<RegAssoc<LiveIntervals>>, name: Seq<char>) -> Seq<
    LiveIntervals,
> {
    if allocs.contains(name) {
        allocs.get(name).vals
    } else {
        Seq::empty()
    }
}

/// The head of the output: the section, the alignment, and one line for
/// every function that is made visible.
pub open spec fn globals_text(funcs: Seq<MachineFunc>, upto: int) -> Seq<char>
    decreases upto,
{
    if upto <= 0 {
        ".section .text\n.p2align 2\n"@
    } else {
        globals_text(funcs, upto - 1) + ".globl "@ + funcs[upto - 1]@.name + "\n"@
    }
}

/// The head and the first `upto` functions.
pub open spec fn assembly_upto(
    funcs: Seq<MachineFunc>,
    allocs: AssocView<RegAssoc<LiveIntervals>>,
    upto: int,
) -> Seq<char>
    decreases upto,
{
    if upto <= 0 {
        globals_text(funcs, funcs.len() as int)
    } else {
        assembly_upto(funcs, allocs, upto - 1) + function_text(
            funcs[upto - 1]@,
            allocation_for(allocs, funcs[upto - 1]@.name),
        )
    }
}

/// The assembly text of a list of machine functions.
pub open spec fn assembly(funcs: Seq<MachineFunc>) -> Seq<char> {
    assembly_upto(funcs, allocations_of(funcs, funcs.len() as int), funcs.len() as int)
}

/// The register that stands for `v` in the output.
pub fn to_phys(v: VReg, map: &RegMap<LiveIntervals>) -> (r: VReg)
    ensures
        r == to_phys_spec(v, map@.vals),
{
    match v {
        VReg::Virtual(_) => match find_entry(&map.vals, v) {
            Some(iv) => match iv.phy_reg {
                Some(r) => r,
                None => v,
            },
            None => v,
        },
        _ => v,
    }
}

fn push_operand(out: &mut String, v: VReg, map: &RegMap<LiveIntervals>)
    ensures
        final(out)@ == old(out)@ + operand(v, map@.vals),
{
    reveal(operand);
    let name = to_phys(v, map).name();
    out.append(name.as_str());
}

fn three_regs(mnemonic: &str, rd: VReg, rs1: VReg, rs2: VReg, map: &RegMap<LiveIntervals>) -> (line:
    String)
    ensures
        line@ == mnemonic@ + operand(rd, map@.vals) + ", "@ + operand(rs1, map@.vals) + ", "@
            + operand(rs2, map@.vals) + "\n"@,
{
    let mut line = String::from_str(mnemonic);
    push_operand(&mut line, rd, map);
    line.append(", ");
    push_operand(&mut line, rs1, map);
    line.append(", ");
    push_operand(&mut line, rs2, map);
    line.append("\n");
    line
}

fn two_regs(mnemonic: &str, rd: VReg, rs1: VReg, map: &RegMap<LiveIntervals>) -> (line: String)
    ensures
        line@ == mnemonic@ + operand(rd, map@.vals) + ", "@ + operand(rs1, map@.vals) + "\n"@,
{
    let mut line = String::from_str(mnemonic);
    push_operand(&mut line, rd, map);
    line.append(", ");
    push_operand(&mut line, rs1, map);
    line.append("\n");
    line
}

fn reg_and_number(mnemonic: &str, rd: VReg, imm: i64, map: &RegMap<LiveIntervals>) -> (line: String)
    ensures
        line@ == mnemonic@ + operand(rd, map@.vals) + ", "@ + decimal_repr(imm as int) + "\n"@,
{
    let mut line = String::from_str(mnemonic);
    push_operand(&mut line, rd, map);
    line.append(", ");
    push_i64(&mut line, imm);
    line.append("\n");
    line
}

fn two_regs_and_number(
    mnemonic: &str,
    rd: VReg,
    rs1: VReg,
    imm: i64,
    map: &RegMap<LiveIntervals>,
) -> (line: String)
    ensures
        line@ == mnemonic@ + operand(rd, map@.vals) + ", "@ + operand(rs1, map@.vals) + ", "@
            + decimal_repr(imm as int) + "\n"@,
{
    let mut line = String::from_str(mnemonic);
    push_operand(&mut line, rd, map);
    line.append(", ");
    push_operand(&mut line, rs1, map);
    line.append(", ");
    push_i64(&mut line, imm);
    line.append("\n");
    line
}

fn store_line(rs1: VReg, offset: i32, base: VReg, map: &RegMap<LiveIntervals>) -> (line: String)
    ensures
        line@ == "  sw "@ + operand(rs1, map@.vals) + ", "@ + decimal_repr(offset as int) + "("@
            + operand(base, map@.vals) + ")\n"@,
{
    let mut line = String::from_str("  sw ");
    push_operand(&mut line, rs1, map);
    line.append(", ");
    push_i64(&mut line, offset as i64);
    line.append("(");
    push_operand(&mut line, base, map);
    line.append(")\n");
    line
}

fn label_line(mnemonic: &str, label: &String) -> (line: String)
    ensures
        line@ == mnemonic@ + label@ + "\n"@,
{
    let mut line = String::from_str(mnemonic);
    line.append(label.as_str());
    line.append("\n");
    line
}

fn reg_and_label(mnemonic: &str, rs1: VReg, label: &String, map: &RegMap<LiveIntervals>) -> (line:
    String)
    ensures
        line@ == mnemonic@ + operand(rs1, map@.vals) + ", "@ + label@ + "\n"@,
{
    let mut line = String::from_str(mnemonic);
    push_operand(&mut line, rs1, map);
    line.append(", ");
    line.append(label.as_str());
    line.append("\n");
    line
}

fn two_regs_and_label(
    mnemonic: &str,
    rs1: VReg,
    rs2: VReg,
    label: &String,
    map: &RegMap<LiveIntervals>,
) -> (line: String)
    ensures
        line@ == mnemonic@ + operand(rs1, map@.vals) + ", "@ + operand(rs2, map@.vals) + ", "@
            + label@ + "\n"@,
{
    let mut line = String::from_str(mnemonic);
    push_operand(&mut line, rs1, map);
    line.append(", ");
    push_operand(&mut line, rs2, map);
    line.append(", ");
    line.append(label.as_str());
    line.append("\n");
    line
}

/// The line of one machine instruction.
fn line_of(instr: &MachineInstr, map: &RegMap<LiveIntervals>) -> (line: String)
    ensures
        line@ == instr_line(instr@, map@.vals),
{
    match instr {
        MachineInstr::Li { rd, imm } => reg_and_number("  li ", *rd, *imm, map),
        MachineInstr::Addi { rd, rs1, imm } => two_regs_and_number("  addi ", *rd, *rs1, *imm, map),
        MachineInstr::Add { rd, rs1, rs2 } => three_regs("  add ", *rd, *rs1, *rs2, map),
        MachineInstr::Mul { rd, rs1, rs2 } => three_regs("  mul ", *rd, *rs1, *rs2, map),
        MachineInstr::Sub { rd, rs1, rs2 } => three_regs("  sub ", *rd, *rs1, *rs2, map),
        MachineInstr::Div { rd, rs1, rs2 } => three_regs("  div ", *rd, *rs1, *rs2, map),
        MachineInstr::Mv { rd, rs1 } => two_regs("  mv ", *rd, *rs1, map),
        MachineInstr::Sw { rs1, offset, base } => store_line(*rs1, *offset, *base, map),
        MachineInstr::Call { func } => label_line("  call ", func),
        MachineInstr::Jmp { label } => label_line("  j ", label),
        MachineInstr::Jal { rd, label } => reg_and_label("  jal ", *rd, label, map),
        MachineInstr::Beqz { rs1, label } => reg_and_label("  beqz ", *rs1, label, map),
        MachineInstr::Beq { rs1, rs2, label } => two_regs_and_label(
            "  beq ",
            *rs1,
            *rs2,
            label,
            map,
        ),
        MachineInstr::Ret { .. } => String::from_str("  ret\n"),
        MachineInstr::Print { .. } => String::new(),
    }
}

/// The text of one block.
fn text_of_block(block: &MachineBlock, map: &RegMap<LiveIntervals>) -> (text: String)
    ensures
        text@ == block_text(block@, map@.vals),
{
    let mut lines = String::new();
    let ghost instrs = block@.instrs;
    let mut i: usize = 0;
    assert(lines@ =~= instr_lines(instrs, map@.vals, 0));
    while i < block.instrs.len()
        invariant
            i <= block.instrs.len(),
            instrs == block@.instrs,
            lines@ == instr_lines(instrs, map@.vals, i as int),
        decreases block.instrs.len() - i,
    {
        assert(instrs[i as int] == block.instrs[i as int]@);
        let line = line_of(&block.instrs[i], map);
        lines.append(line.as_str());
        i += 1;
    }
    let mut text = String::from_str("  .");
    text.append(block.name.as_str());
    text.append(":\n");
    text.append(lines.as_str());
    text
}

/// The size of the stack frame that the allocation asks for.
fn frame_of(map: &RegMap<LiveIntervals>) -> (frame: u128)
    ensures
        frame == frame_size(map@.vals),
        frame <= 8 * usize::MAX,
{
    let mut count: usize = 0;
    let mut i: usize = 0;
    while i < map.vals.len()
        invariant
            i <= map.vals.len(),
            count <= i,
            count == spill_count(map@.vals, i as int),
        decreases map.vals.len() - i,
    {
        if map.vals[i].mark_spilled {
            count += 1;
        }
        i += 1;
    }
    8u128 * (count as u128)
}

fn prologue_of(frame: u128) -> (text: String)
    requires
        frame <= 8 * usize::MAX,
    ensures
        text@ == prologue(frame as int),
{
    if frame > 0 {
        let mut text = String::from_str("  addi sp, sp, -");
        push_i128(&mut text, frame as i128);
        text.append("\n  sd ra, ");
        push_i128(&mut text, frame as i128 - 8);
        text.append("(sp)\n  sd s0, ");
        push_i128(&mut text, frame as i128 - 16);
        text.append("(sp)\n  mv s0, sp\n");
        text
    } else {
        String::new()
    }
}

fn epilogue_of(frame: u128) -> (text: String)
    requires
        frame <= 8 * usize::MAX,
    ensures
        text@ == epilogue(frame as int),
{
    if frame > 0 {
        let mut text = String::from_str("  ld s0, ");
        push_i128(&mut text, frame as i128 - 16);
        text.append("(sp)\n  ld ra, ");
        push_i128(&mut text, frame as i128 - 8);
        text.append("(sp)\n  addi sp, sp, ");
        push_i128(&mut text, frame as i128);
        text.append("\n");
        text
    } else {
        String::new()
    }
}

/// The text of one function under the given allocation.
fn text_of_function(func: &MachineFunc, map: &RegMap<LiveIntervals>) -> (text: String)
    ensures
        text@ == function_text(func@, map@.vals),
{
    let frame = frame_of(map);
    let mut body = String::new();
    let ghost blocks = func@.blocks;
    let mut b: usize = 0;
    assert(body@ =~= blocks_text(blocks, map@.vals, 0));
    while b < func.blocks.len()
        invariant
            b <= func.blocks.len(),
            blocks == func@.blocks,
            body@ == blocks_text(blocks, map@.vals, b as int),
        decreases func.blocks.len() - b,
    {
        assert(blocks[b as int] == func.blocks[b as int]@);
        let block = text_of_block(&func.blocks[b], map);
        body.append(block.as_str());
        b += 1;
    }
    let mut text = String::from_str("\n");
    text.append(func.name.as_str());
    text.append(":\n");
    text.append(prologue_of(frame).as_str());
    text.append(body.as_str());
    text.append(epilogue_of(frame).as_str());
    text
}

/// Allocates registers for every function and returns the assembly text of
/// the whole list: the head with one `.globl` line for each function, then
/// the functions in order.
///
/// The frame of a function has room for every spilled register, but no load
/// or store is written around the uses and definitions of one: a virtual
/// register without a physical one appears under the placeholder that all
/// virtual registers share (see [`lemma_spilled_operand`]).
pub fn riscv_text(module: &Vec<MachineFunc>) -> (text: String)
    requires
        forall|i: int|
            0 <= i < module.len() ==> instr_count(
                (#[trigger] module[i])@.blocks,
                module[i]@.blocks.len() as int,
            ) <= usize::MAX,
    ensures
        text@ == assembly(module@),
{
    let mut allocator = LinearScan::new();
    let allocations = allocator.run(module);
    let ghost allocs = allocations_view(allocations);
    let mut text = String::from_str(".section .text\n.p2align 2\n");
    let mut i: usize = 0;
    while i < module.len()
        invariant
            i <= module.len(),
            text@ == globals_text(module@, i as int),
        decreases module.len() - i,
    {
        let mut line = String::from_str(".globl ");
        line.append(module[i].name.as_str());
        line.append("\n");
        let ghost before = text@;
        text.append(line.as_str());
        assert(text@ =~= before + ".globl "@ + module[i as int]@.name + "\n"@);
        i += 1;
    }
    let empty: RegMap<LiveIntervals> = RegMap::new();
    let mut i: usize = 0;
    while i < module.len()
        invariant
            i <= module.len(),
            allocations.wf(),
            allocs == allocations_view(allocations),
            empty@.vals == Seq::<LiveIntervals>::empty(),
            text@ == assembly_upto(module@, allocs, i as int),
        decreases module.len() - i,
    {
        let func = &module[i];
        let map = match allocations.find(&func.name) {
            Some(k) => {
                proof {
                    allocations.lemma_position(k as int);
                    assert(allocs.keys[k as int] == func.name@);
                    assert(allocs.position(func.name@) == k);
                }
                &allocations.vals[k]
            },
            None => &empty,
        };
        assert(map@.vals == allocation_for(allocs, func@.name));
        let part = text_of_function(func, map);
        text.append(part.as_str());
        i += 1;
    }
    text
}

} // verus!
