use riscv_compiler::function::IrFunction;
use riscv_compiler::instruction_sel::select_instructions;
use riscv_compiler::intervals::{Interval, RegMap};
use riscv_compiler::ir::{IrInstruction, Literal};
use riscv_compiler::machine_ir::{MachineBlock, MachineFunc, MachineInstr, VReg};
use riscv_compiler::names::StrMap;
use riscv_compiler::register_alloc::{LinearScan, LiveIntervals};
use riscv_compiler::riscv_emission::{riscv_text, to_phys};

fn t(text: &str) -> String {
    text.to_string()
}

fn v(id: i32) -> VReg {
    VReg::Virtual(id)
}

fn one_block(instrs: Vec<IrInstruction>) -> IrFunction {
    let mut f = IrFunction::new("f");
    f.add_block("entry");
    for instr in &instrs {
        f.append_instr(0, instr);
    }
    f
}

fn machine_function(name: &str, instrs: Vec<MachineInstr>) -> MachineFunc {
    MachineFunc {
        name: t(name),
        args: Vec::new(),
        blocks: vec![MachineBlock { name: t("entry"), instrs, succs: Vec::new() }],
        label_to_idx: StrMap::new(),
    }
}

#[test]
fn registers_are_written_by_their_names() {
    assert_eq!(VReg::T0.name(), "t0");
    assert_eq!(VReg::T6.name(), "t6");
    assert_eq!(VReg::A7.name(), "a7");
    assert_eq!(VReg::S0.name(), "s0");
    assert_eq!(VReg::S10.name(), "s10");
    assert_eq!(VReg::S11.name(), "s11");
    assert_eq!(VReg::RA.name(), "ra");
    assert_eq!(VReg::SP.name(), "sp");
    assert_eq!(VReg::FP.name(), "fp");
    assert_eq!(VReg::GP.name(), "gp");
    assert_eq!(VReg::Virtual(3).name(), "rt");
}

#[test]
fn machine_instructions_name_what_they_write_and_read() {
    let add = MachineInstr::Add { rd: v(0), rs1: v(1), rs2: v(2) };
    assert_eq!(add.defs(), vec![v(0)]);
    assert_eq!(add.uses(), vec![v(1), v(2)]);
    let li = MachineInstr::Li { rd: v(0), imm: 1 };
    assert_eq!(li.defs(), vec![v(0)]);
    assert!(li.uses().is_empty());
    let sw = MachineInstr::Sw { rs1: v(4), offset: 8, base: VReg::SP };
    assert!(sw.defs().is_empty());
    assert_eq!(sw.uses(), vec![v(4)]);
    let beq = MachineInstr::Beq { rs1: v(1), rs2: v(2), label: t("l") };
    assert_eq!(beq.uses(), vec![v(1), v(2)]);
    let jal = MachineInstr::Jal { rd: VReg::RA, label: t("f") };
    assert!(jal.defs().is_empty());
    assert!(jal.uses().is_empty());
    let ret = MachineInstr::Ret { rd: Some(v(0)) };
    assert!(ret.uses().is_empty());
}

#[test]
fn a_machine_function_starts_from_the_name_and_labels() {
    let mut f = IrFunction::new("main");
    f.add_block("entry");
    f.add_block("exit");
    let mf = MachineFunc::new(&f);
    assert_eq!(mf.name, "main");
    assert!(mf.args.is_empty());
    assert!(mf.blocks.is_empty());
    assert_eq!(mf.block_index(&t("exit")), Some(1));
    assert_eq!(mf.block_index(&t("none")), None);
}

#[test]
fn selection_lowers_arithmetic_and_copies() {
    let f = one_block(vec![
        IrInstruction::Const { dest: t("a"), value: Literal::Int(7) },
        IrInstruction::Const { dest: t("yes"), value: Literal::Bool(true) },
        IrInstruction::Assign { lhs: t("b"), rhs: t("a") },
        IrInstruction::Add { dest: t("c"), lhs: t("a"), rhs: t("b") },
        IrInstruction::Sub { dest: t("c"), lhs: t("c"), rhs: t("d") },
        IrInstruction::Mul { dest: t("e"), lhs: t("c"), rhs: t("c") },
        IrInstruction::Div { dest: t("e"), lhs: t("e"), rhs: t("a") },
        IrInstruction::Lt { dest: t("skipped"), lhs: t("a"), rhs: t("b") },
    ]);
    let mf = select_instructions(&f);
    assert_eq!(mf.name, "f");
    assert_eq!(mf.blocks.len(), 1);
    assert_eq!(mf.blocks[0].name, "entry");
    assert_eq!(
        mf.blocks[0].instrs,
        vec![
            MachineInstr::Li { rd: v(0), imm: 7 },
            MachineInstr::Li { rd: v(1), imm: 1 },
            MachineInstr::Mv { rd: v(2), rs1: v(0) },
            MachineInstr::Add { rd: v(3), rs1: v(0), rs2: v(2) },
            MachineInstr::Sub { rd: v(3), rs1: v(3), rs2: v(4) },
            MachineInstr::Mul { rd: v(5), rs1: v(3), rs2: v(3) },
            MachineInstr::Div { rd: v(5), rs1: v(5), rs2: v(0) },
        ]
    );
}

#[test]
fn selection_passes_arguments_in_registers_and_on_the_stack() {
    let args: Vec<String> = (0..10).map(|i| format!("p{}", i)).collect();
    let f = one_block(vec![IrInstruction::Call {
        target_func: t("callee"),
        args,
        dest: Some(t("r")),
    }]);
    let mf = select_instructions(&f);
    assert_eq!(
        mf.blocks[0].instrs,
        vec![
            MachineInstr::Mv { rd: VReg::A0, rs1: v(0) },
            MachineInstr::Mv { rd: VReg::A1, rs1: v(1) },
            MachineInstr::Mv { rd: VReg::A2, rs1: v(2) },
            MachineInstr::Mv { rd: VReg::A3, rs1: v(3) },
            MachineInstr::Mv { rd: VReg::A4, rs1: v(4) },
            MachineInstr::Mv { rd: VReg::A5, rs1: v(5) },
            MachineInstr::Mv { rd: VReg::A6, rs1: v(6) },
            MachineInstr::Mv { rd: VReg::A7, rs1: v(7) },
            MachineInstr::Sw { rs1: v(8), offset: 0, base: VReg::SP },
            MachineInstr::Sw { rs1: v(9), offset: 8, base: VReg::SP },
            MachineInstr::Jal { rd: VReg::RA, label: t("callee") },
            MachineInstr::Mv { rd: v(10), rs1: VReg::A0 },
        ]
    );
}

#[test]
fn selection_lowers_control_flow() {
    let mut f = IrFunction::new("f");
    f.add_block("entry");
    f.add_block("then");
    f.add_block("else");
    f.append_instr(0, &IrInstruction::Br { cond: t("c"), then_lbl: t("then"), else_lbl: t("else") });
    f.append_instr(1, &IrInstruction::Jmp { label: t("else") });
    f.append_instr(2, &IrInstruction::Ret { args: vec![t("c")] });
    f.add_edge(0, 1);
    f.add_edge(0, 2);
    f.add_edge(1, 2);
    let mf = select_instructions(&f);
    assert_eq!(
        mf.blocks[0].instrs,
        vec![
            MachineInstr::Beqz { rs1: v(0), label: t("else") },
            MachineInstr::Jmp { label: t("then") },
        ]
    );
    assert_eq!(mf.blocks[0].succs, vec![1, 2]);
    assert_eq!(mf.blocks[1].instrs, vec![MachineInstr::Jmp { label: t("else") }]);
    assert_eq!(mf.blocks[2].instrs, vec![MachineInstr::Ret { rd: Some(v(0)) }]);
    assert_eq!(mf.block_index(&t("else")), Some(2));
}

#[test]
fn a_return_without_value_notes_no_register() {
    let mf = select_instructions(&one_block(vec![IrInstruction::Ret { args: vec![] }]));
    assert_eq!(mf.blocks[0].instrs, vec![MachineInstr::Ret { rd: None }]);
}

#[test]
fn intervals_span_from_first_mention_to_last_use() {
    let mf = machine_function(
        "f",
        vec![
            MachineInstr::Li { rd: v(0), imm: 1 },
            MachineInstr::Li { rd: v(1), imm: 2 },
            MachineInstr::Add { rd: v(2), rs1: v(0), rs2: v(1) },
            MachineInstr::Mv { rd: v(0), rs1: v(2) },
            MachineInstr::Ret { rd: None },
        ],
    );
    let table = LinearScan::new().build_intervals(&mf);
    assert_eq!(table.keys, vec![v(0), v(1), v(2)]);
    assert_eq!(
        table.vals,
        vec![
            Interval { start: 0, end: 2, phy_reg: None, mark_spilled: false },
            Interval { start: 1, end: 2, phy_reg: None, mark_spilled: false },
            Interval { start: 2, end: 3, phy_reg: None, mark_spilled: false },
        ]
    );
}

#[test]
fn positions_count_through_the_blocks() {
    let mf = MachineFunc {
        name: t("f"),
        args: Vec::new(),
        blocks: vec![
            MachineBlock {
                name: t("a"),
                instrs: vec![MachineInstr::Li { rd: v(0), imm: 1 }, MachineInstr::Jmp { label: t("b") }],
                succs: vec![1],
            },
            MachineBlock {
                name: t("b"),
                instrs: vec![MachineInstr::Mv { rd: v(1), rs1: v(0) }],
                succs: vec![],
            },
        ],
        label_to_idx: StrMap::new(),
    };
    let table = LinearScan::new().build_intervals(&mf);
    assert_eq!(table.get(v(0)), Some(&Interval { start: 0, end: 2, phy_reg: None, mark_spilled: false }));
    assert_eq!(table.get(v(1)), Some(&Interval { start: 2, end: 2, phy_reg: None, mark_spilled: false }));
    assert_eq!(table.get(v(2)), None);
}

fn table_of(spans: &[(usize, usize)]) -> RegMap<Interval> {
    let mut table = RegMap::new();
    for (i, &(start, end)) in spans.iter().enumerate() {
        table.keys.push(v(i as i32));
        table.vals.push(Interval { start, end, phy_reg: None, mark_spilled: false });
    }
    table
}

fn assert_apart(alloc: &[LiveIntervals]) {
    for (i, a) in alloc.iter().enumerate() {
        for (j, b) in alloc.iter().enumerate() {
            if i != j && a.phy_reg.is_some() && a.phy_reg == b.phy_reg {
                assert!(
                    a.end < b.start || b.end < a.start,
                    "{:?} and {:?} share a register",
                    a,
                    b
                );
            }
        }
    }
}

#[test]
fn the_scan_hands_out_the_last_free_register_first() {
    let mut table = table_of(&[(0, 3), (1, 2), (4, 5)]);
    let alloc = LinearScan::new().linear_scan(&mut table);
    assert_eq!(alloc.keys, vec![v(0), v(1), v(2)]);
    assert_eq!(
        alloc.vals,
        vec![
            LiveIntervals { vreg: v(0), start: 0, end: 3, phy_reg: Some(VReg::S11), mark_spilled: false },
            LiveIntervals { vreg: v(1), start: 1, end: 2, phy_reg: Some(VReg::S10), mark_spilled: false },
            LiveIntervals { vreg: v(2), start: 4, end: 5, phy_reg: Some(VReg::S11), mark_spilled: false },
        ]
    );
    assert_eq!(table.vals[0].phy_reg, Some(VReg::S11));
    assert_eq!(table.vals[2].phy_reg, Some(VReg::S11));
    assert_apart(&alloc.vals);
}

#[test]
fn the_scan_visits_intervals_in_the_order_of_their_starts() {
    let mut table = table_of(&[(5, 6), (0, 1), (3, 9), (0, 4)]);
    let alloc = LinearScan::new().linear_scan(&mut table);
    assert_eq!(alloc.keys, vec![v(1), v(3), v(2), v(0)]);
    assert_eq!(table.keys, vec![v(0), v(1), v(2), v(3)]);
    assert_apart(&alloc.vals);
}

#[test]
fn with_no_register_left_the_interval_that_ends_last_is_spilled() {
    // 26 intervals that all end at 100, then one that ends earlier and one that ends later.
    let mut spans: Vec<(usize, usize)> = (0..26).map(|i| (i, 100)).collect();
    spans.push((30, 40));
    spans.push((31, 200));
    let mut table = table_of(&spans);
    let alloc = LinearScan::new().linear_scan(&mut table);
    assert_eq!(alloc.vals.len(), 28);
    let spilled: Vec<VReg> =
        alloc.vals.iter().filter(|iv| iv.mark_spilled).map(|iv| iv.vreg).collect();
    // The newcomer that ends at 40 takes the register of the last of those that end at 100;
    // the newcomer that ends at 200 is spilled itself.
    assert_eq!(spilled, vec![v(25), v(27)]);
    let short = alloc.vals.iter().find(|iv| iv.vreg == v(26)).unwrap();
    assert_eq!(short.phy_reg, Some(VReg::T0));
    assert!(!short.mark_spilled);
    for iv in alloc.vals.iter().filter(|iv| iv.mark_spilled) {
        assert_eq!(iv.phy_reg, None);
    }
    assert_eq!(table.vals[25].mark_spilled, true);
    assert_eq!(table.vals[25].phy_reg, None);
    assert_eq!(table.vals[26].phy_reg, Some(VReg::T0));
    assert_apart(&alloc.vals);
}

#[test]
fn a_register_comes_back_when_its_interval_has_ended() {
    let spans: Vec<(usize, usize)> = (0..60).map(|i| (2 * i, 2 * i + 1)).collect();
    let mut table = table_of(&spans);
    let alloc = LinearScan::new().linear_scan(&mut table);
    assert!(alloc.vals.iter().all(|iv| !iv.mark_spilled && iv.phy_reg.is_some()));
    assert_apart(&alloc.vals);
}

#[test]
fn run_allocates_for_every_function_under_its_name() {
    let funcs = vec![
        machine_function("one", vec![MachineInstr::Li { rd: v(0), imm: 1 }]),
        machine_function("two", vec![MachineInstr::Li { rd: v(0), imm: 1 }, MachineInstr::Li { rd: v(1), imm: 2 }]),
    ];
    let result = LinearScan::new().run(&funcs);
    assert_eq!(result.len(), 2);
    assert_eq!(result.get(&t("one")).unwrap().vals.len(), 1);
    assert_eq!(result.get(&t("two")).unwrap().vals.len(), 2);
    assert!(result.get(&t("three")).is_none());
}

#[test]
fn named_registers_stand_for_themselves() {
    let mut table = table_of(&[(0, 1)]);
    let alloc = LinearScan::new().linear_scan(&mut table);
    assert_eq!(to_phys(v(0), &alloc), VReg::S11);
    assert_eq!(to_phys(v(9), &alloc), v(9));
    assert_eq!(to_phys(VReg::A0, &alloc), VReg::A0);
    assert_eq!(to_phys(VReg::T3, &alloc), VReg::T3);
    assert_eq!(to_phys(VReg::SP, &alloc), VReg::SP);
}

#[test]
fn a_constant_and_a_return_are_emitted() {
    let f = one_block(vec![
        IrInstruction::Const { dest: t("x"), value: Literal::Int(5) },
        IrInstruction::Ret { args: vec![t("x")] },
    ]);
    let module = vec![select_instructions(&f)];
    assert_eq!(
        riscv_text(&module),
        ".section .text\n.p2align 2\n.globl f\n\nf:\n  .entry:\n  li s11, 5\n  ret\n"
    );
}

#[test]
fn every_kind_of_line_is_written() {
    let module = vec![machine_function(
        "lines",
        vec![
            MachineInstr::Li { rd: v(0), imm: -3 },
            MachineInstr::Addi { rd: v(0), rs1: v(0), imm: 16 },
            MachineInstr::Add { rd: v(1), rs1: v(0), rs2: v(0) },
            MachineInstr::Sub { rd: v(1), rs1: v(1), rs2: v(0) },
            MachineInstr::Mul { rd: v(1), rs1: v(1), rs2: v(0) },
            MachineInstr::Div { rd: v(1), rs1: v(1), rs2: v(0) },
            MachineInstr::Mv { rd: VReg::A0, rs1: v(1) },
            MachineInstr::Sw { rs1: v(1), offset: 8, base: VReg::SP },
            MachineInstr::Call { func: t("g") },
            MachineInstr::Jal { rd: VReg::RA, label: t("g") },
            MachineInstr::Beqz { rs1: v(1), label: t("out") },
            MachineInstr::Beq { rs1: v(1), rs2: v(0), label: t("out") },
            MachineInstr::Print { args: vec![v(1)] },
            MachineInstr::Jmp { label: t("out") },
            MachineInstr::Ret { rd: None },
        ],
    )];
    let expected = "\
.section .text
.p2align 2
.globl lines

lines:
  .entry:
  li s11, -3
  addi s11, s11, 16
  add s10, s11, s11
  sub s10, s10, s11
  mul s10, s10, s11
  div s10, s10, s11
  mv a0, s10
  sw s10, 8(sp)
  call g
  jal ra, g
  beqz s10, out
  beq s10, s11, out
  j out
  ret
";
    assert_eq!(riscv_text(&module), expected);
}

#[test]
fn a_function_with_spills_gets_a_frame() {
    // 28 values that are all in use until the end, and `a0`, which is written: 29 intervals
    // for 26 registers, so three of them go to the stack.
    let mut instrs: Vec<MachineInstr> =
        (0..28).map(|i| MachineInstr::Li { rd: v(i), imm: i as i64 }).collect();
    for i in 0..28 {
        instrs.push(MachineInstr::Mv { rd: VReg::A0, rs1: v(i) });
    }
    let text = riscv_text(&vec![machine_function("busy", instrs)]);
    let lines: Vec<&str> = text.lines().collect();
    assert_eq!(
        &lines[..9],
        &[
            ".section .text",
            ".p2align 2",
            ".globl busy",
            "",
            "busy:",
            "  addi sp, sp, -24",
            "  sd ra, 16(sp)",
            "  sd s0, 8(sp)",
            "  mv s0, sp",
        ]
    );
    assert_eq!(lines[9], "  .entry:");
    let n = lines.len();
    assert_eq!(&lines[n - 3..], &["  ld s0, 8(sp)", "  ld ra, 16(sp)", "  addi sp, sp, 24"]);
    assert!(text.ends_with("\n"));
}

#[test]
fn two_functions_are_made_visible_before_either_is_written() {
    let module = vec![
        machine_function("first", vec![MachineInstr::Ret { rd: None }]),
        machine_function("second", vec![MachineInstr::Ret { rd: None }]),
    ];
    assert_eq!(
        riscv_text(&module),
        ".section .text\n.p2align 2\n.globl first\n.globl second\n\nfirst:\n  .entry:\n  ret\n\nsecond:\n  .entry:\n  ret\n"
    );
}

#[test]
fn a_frame_of_one_slot_saves_the_frame_pointer_below_it() {
    // 26 values and `a0` are in use together: one interval goes to the stack.
    let mut instrs: Vec<MachineInstr> =
        (0..26).map(|i| MachineInstr::Li { rd: v(i), imm: 0 }).collect();
    for i in 0..26 {
        instrs.push(MachineInstr::Mv { rd: VReg::A0, rs1: v(i) });
    }
    let text = riscv_text(&vec![machine_function("tight", instrs)]);
    let lines: Vec<&str> = text.lines().collect();
    assert_eq!(
        &lines[5..9],
        &["  addi sp, sp, -8", "  sd ra, 0(sp)", "  sd s0, -8(sp)", "  mv s0, sp"]
    );
}
