//! Instruction selection: every instruction of the intermediate
//! representation becomes the RISC-V instructions that carry it out, over
//! virtual registers.

use crate::function::{clone_indices, BlockView, FuncView, IrFunction};
use crate::ir::{BinOp, InstrView, IrInstruction, Literal};
use crate::machine_ir::{
    machine_blocks_view, machine_instrs_view, MachineBlock, MachineBlockView, MachineFunc,
    MachineFuncView, MachineInstr, MachineInstrView, VReg,
};
use crate::names::{names_view, AssocView, StrMap};
use vstd::prelude::*;

verus! {

/// The table with `name` entered: a name that is new gets the next virtual
/// register.
pub open spec fn with_name(map: AssocView<VReg>, name: Seq<char>) -> AssocView<VReg> {
    if map.contains(name) {
        map
    } else {
        map.put(name, VReg::Virtual(map.keys.len() as i32))
    }
}

/// The table with the names entered in order.
pub open spec fn with_names(map: AssocView<VReg>, names: Seq<Seq<char>>) -> AssocView<VReg>
    decreases names.len(),
{
    if names.len() == 0 {
        map
    } else {
        with_name(with_names(map, names.drop_last()), names.last())
    }
}

/// The names that lowering an instruction mentions, in the order in which
/// they get their registers.
pub open spec fn mentioned(instr: InstrView) -> Seq<Seq<char>> {
    match instr {
        InstrView::Const { dest, .. } => seq![dest],
        InstrView::Assign { lhs, rhs } => seq![lhs, rhs],
        InstrView::Binary { op, dest, lhs, rhs } => if op == BinOp::Add || op == BinOp::Mul || op
            == BinOp::Sub || op == BinOp::Div {
            seq![dest, lhs, rhs]
        } else {
            Seq::empty()
        },
        InstrView::Call { args, dest, .. } => match dest {
            Some(d) => args.push(d),
            None => args,
        },
        InstrView::Br { cond, .. } => seq![cond],
        InstrView::Ret { args } => if args.len() > 0 {
            seq![args[0]]
        } else {
            Seq::empty()
        },
        _ => Seq::empty(),
    }
}

/// The register that carries argument number `i` of a call, for `i` below 8.
pub open spec fn arg_reg(i: int) -> VReg {
    if i == 0 {
        VReg::A0
    } else if i == 1 {
        VReg::A1
    } else if i == 2 {
        VReg::A2
    } else if i == 3 {
        VReg::A3
    } else if i == 4 {
        VReg::A4
    } else if i == 5 {
        VReg::A5
    } else if i == 6 {
        VReg::A6
    } else {
        VReg::A7
    }
}

/// How argument number `i` of a call is passed: in a register for the first
/// eight, on the stack, eight bytes apart, for the rest.
pub open spec fn pass_arg(map: AssocView<VReg>, args: Seq<Seq<char>>, i: int) -> MachineInstrView {
    if i < 8 {
        MachineInstrView::Mv { rd: arg_reg(i), rs1: map.get(args[i]) }
    } else {
        MachineInstrView::Sw { rs1: map.get(args[i]), offset: ((i - 8) * 8) as i32, base: VReg::SP }
    }
}

/// The machine instructions for one instruction, read off a table that holds
/// every name the instruction mentions.
pub open spec fn lowered(map: AssocView<VReg>, instr: InstrView) -> Seq<MachineInstrView> {
    match instr {
        InstrView::Const { dest, value } => seq![
            MachineInstrView::Li {
                rd: map.get(dest),
                imm: match value {
                    Literal::Int(i) => i,
                    Literal::Bool(b) => if b {
                        1i64
                    } else {
                        0i64
                    },
                },
            },
        ],
        InstrView::Assign { lhs, rhs } => seq![
            MachineInstrView::Mv { rd: map.get(lhs), rs1: map.get(rhs) },
        ],
        InstrView::Binary { op, dest, lhs, rhs } => {
            let rd = map.get(dest);
            let rs1 = map.get(lhs);
            let rs2 = map.get(rhs);
            match op {
                BinOp::Add => seq![MachineInstrView::Add { rd, rs1, rs2 }],
                BinOp::Mul => seq![MachineInstrView::Mul { rd, rs1, rs2 }],
                BinOp::Sub => seq![MachineInstrView::Sub { rd, rs1, rs2 }],
                BinOp::Div => seq![MachineInstrView::Div { rd, rs1, rs2 }],
                _ => Seq::empty(),
            }
        },
        InstrView::Call { target_func, args, dest } => {
            let moves = Seq::new(args.len(), |i: int| pass_arg(map, args, i));
            let jump = seq![MachineInstrView::Jal { rd: VReg::RA, label: target_func }];
            match dest {
                Some(d) => moves + jump + seq![
                    MachineInstrView::Mv { rd: map.get(d), rs1: VReg::A0 },
                ],
                None => moves + jump,
            }
        },
        InstrView::Br { cond, then_lbl, else_lbl } => seq![
            MachineInstrView::Beqz { rs1: map.get(cond), label: else_lbl },
            MachineInstrView::Jmp { label: then_lbl },
        ],
        InstrView::Jmp { label } => seq![MachineInstrView::Jmp { label }],
        InstrView::Ret { args } => seq![
            MachineInstrView::Ret {
                rd: if args.len() > 0 {
                    Some(map.get(args[0]))
                } else {
                    None
                },
            },
        ],
        _ => Seq::empty(),
    }
}

/// The table and the machine code after the first `upto` instructions of a
/// block.
pub open spec fn lower_instrs(map: AssocView<VReg>, instrs: Seq<InstrView>, upto: int) -> (
    AssocView<VReg>,
    Seq<MachineInstrView>,
)
    decreases upto,
{
    if upto <= 0 {
        (map, Seq::empty())
    } else {
        let (m1, code) = lower_instrs(map, instrs, upto - 1);
        let m2 = with_names(m1, mentioned(instrs[upto - 1]));
        (m2, code + lowered(m2, instrs[upto - 1]))
    }
}

/// The table and the machine blocks after the first `upto` blocks.
pub open spec fn lower_blocks(map: AssocView<VReg>, blocks: Seq<BlockView>, upto: int) -> (
    AssocView<VReg>,
    Seq<MachineBlockView>,
)
    decreases upto,
{
    if upto <= 0 {
        (map, Seq::empty())
    } else {
        let (m1, done) = lower_blocks(map, blocks, upto - 1);
        let block = blocks[upto - 1];
        let (m2, code) = lower_instrs(m1, block.instrs, block.instrs.len() as int);
        (m2, done.push(MachineBlockView { name: block.label, instrs: code, succs: block.succs }))
    }
}

/// No register has been handed out.
pub open spec fn no_regs() -> AssocView<VReg> {
    AssocView { keys: Seq::empty(), vals: Seq::empty() }
}

/// The machine function for `f`.
pub open spec fn selected(f: FuncView) -> MachineFuncView {
    MachineFuncView {
        name: f.name,
        args: Seq::empty(),
        blocks: lower_blocks(no_regs(), f.blocks, f.blocks.len() as int).1,
        labels: f.labels,
    }
}

/// How many names the first `upto` instructions mention.
pub open spec fn mentions_in(instrs: Seq<InstrView>, upto: int) -> nat
    decreases upto,
{
    if upto <= 0 {
        0
    } else {
        mentions_in(instrs, upto - 1) + mentioned(instrs[upto - 1]).len()
    }
}

/// How many names the first `upto` blocks mention.
pub open spec fn mentions(blocks: Seq<BlockView>, upto: int) -> nat
    decreases upto,
{
    if upto <= 0 {
        0
    } else {
        mentions(blocks, upto - 1) + mentions_in(
            blocks[upto - 1].instrs,
            blocks[upto - 1].instrs.len() as int,
        )
    }
}

/// What the machine's number ranges ask of a function: virtual registers are
/// numbered in 31 bits, and so are the stack offsets of call arguments.
pub open spec fn selectable(f: FuncView) -> bool {
    &&& mentions(f.blocks, f.blocks.len() as int) <= 0x7fff_ffff
    &&& forall|b: int, i: int|
        0 <= b < f.blocks.len() && 0 <= i < f.blocks[b].instrs.len() && (
        #[trigger] f.blocks[b].instrs[i]) is Call ==> f.blocks[b].instrs[i]->Call_args.len()
            <= 0x1000_0000
}

proof fn lemma_mentions_in_mono(instrs: Seq<InstrView>, i: int, j: int)
    requires
        0 <= i <= j,
    ensures
        mentions_in(instrs, i) <= mentions_in(instrs, j),
    decreases j - i,
{
    if i < j {
        lemma_mentions_in_mono(instrs, i, j - 1);
    }
}

proof fn lemma_mentions_mono(blocks: Seq<BlockView>, i: int, j: int)
    requires
        0 <= i <= j,
    ensures
        mentions(blocks, i) <= mentions(blocks, j),
    decreases j - i,
{
    if i < j {
        lemma_mentions_mono(blocks, i, j - 1);
    }
}

proof fn lemma_with_names_push(map: AssocView<VReg>, names: Seq<Seq<char>>, name: Seq<char>)
    ensures
        with_names(map, names.push(name)) == with_name(with_names(map, names), name),
{
    assert(names.push(name).drop_last() =~= names);
}

/// The register of `name`; a name that is new gets the next virtual one.
fn allocate_reg(map: &mut StrMap<VReg>, name: &String) -> (r: VReg)
    requires
        old(map).wf(),
        old(map).keys.len() < 0x7fff_ffff,
    ensures
        final(map).wf(),
        final(map).assoc() == with_name(old(map).assoc(), name@),
        final(map).assoc().contains(name@),
        r == final(map).assoc().get(name@),
        final(map).keys.len() <= old(map).keys.len() + 1,
        forall|k: Seq<char>|
            old(map).assoc().contains(k) ==> final(map).assoc().contains(k) && final(map).assoc().get(
                k,
            ) == old(map).assoc().get(k),
{
    proof {
        old(map).assoc().lemma_put_wf(name@, VReg::Virtual(old(map).keys.len() as i32));
    }
    match map.find(name) {
        Some(i) => {
            proof {
                map.lemma_position(i as int);
            }
            map.vals[i]
        },
        None => {
            let r = VReg::Virtual(map.keys.len() as i32);
            map.insert(name.clone(), r);
            r
        },
    }
}

/// Appends the machine instructions for one instruction.
fn lower_instr(map: &mut StrMap<VReg>, instr: &IrInstruction, out: &mut Vec<MachineInstr>)
    requires
        old(map).wf(),
        old(map).keys.len() + mentioned(instr@).len() <= 0x7fff_ffff,
        instr is Call ==> instr->Call_args.len() <= 0x1000_0000,
    ensures
        final(map).wf(),
        final(map).assoc() == with_names(old(map).assoc(), mentioned(instr@)),
        final(map).keys.len() <= old(map).keys.len() + mentioned(instr@).len(),
        machine_instrs_view(final(out)@) == machine_instrs_view(old(out)@) + lowered(
            final(map).assoc(),
            instr@,
        ),
{
    let ghost m0 = map.assoc();
    let ghost out0 = machine_instrs_view(out@);
    assert(with_names(m0, Seq::empty()) == m0);
    match instr {
        IrInstruction::Const { dest, value } => {
            proof {
                lemma_with_names_push(m0, Seq::empty(), dest@);
                assert(mentioned(instr@) =~= Seq::<Seq<char>>::empty().push(dest@));
            }
            let rd = allocate_reg(map, dest);
            let imm: i64 = match value {
                Literal::Int(i) => *i,
                Literal::Bool(b) => if *b {
                    1
                } else {
                    0
                },
            };
            out.push(MachineInstr::Li { rd, imm });
            assert(machine_instrs_view(out@) =~= out0 + lowered(map.assoc(), instr@));
        },
        IrInstruction::Assign { lhs, rhs } => {
            proof {
                lemma_with_names_push(m0, Seq::empty(), lhs@);
                lemma_with_names_push(m0, seq![lhs@], rhs@);
                assert(mentioned(instr@) =~= Seq::<Seq<char>>::empty().push(lhs@).push(rhs@));
                assert(seq![lhs@] =~= Seq::<Seq<char>>::empty().push(lhs@));
            }
            let rd = allocate_reg(map, lhs);
            let rs1 = allocate_reg(map, rhs);
            out.push(MachineInstr::Mv { rd, rs1 });
            assert(machine_instrs_view(out@) =~= out0 + lowered(map.assoc(), instr@));
        },
        IrInstruction::Add { dest, lhs, rhs } => {
            let (rd, rs1, rs2) = allocate_three(map, dest, lhs, rhs);
            assert(mentioned(instr@) =~= seq![dest@, lhs@, rhs@]);
            out.push(MachineInstr::Add { rd, rs1, rs2 });
            assert(machine_instrs_view(out@) =~= out0 + lowered(map.assoc(), instr@));
        },
        IrInstruction::Mul { dest, lhs, rhs } => {
            let (rd, rs1, rs2) = allocate_three(map, dest, lhs, rhs);
            assert(mentioned(instr@) =~= seq![dest@, lhs@, rhs@]);
            out.push(MachineInstr::Mul { rd, rs1, rs2 });
            assert(machine_instrs_view(out@) =~= out0 + lowered(map.assoc(), instr@));
        },
        IrInstruction::Sub { dest, lhs, rhs } => {
            let (rd, rs1, rs2) = allocate_three(map, dest, lhs, rhs);
            assert(mentioned(instr@) =~= seq![dest@, lhs@, rhs@]);
            out.push(MachineInstr::Sub { rd, rs1, rs2 });
            assert(machine_instrs_view(out@) =~= out0 + lowered(map.assoc(), instr@));
        },
        IrInstruction::Div { dest, lhs, rhs } => {
            let (rd, rs1, rs2) = allocate_three(map, dest, lhs, rhs);
            assert(mentioned(instr@) =~= seq![dest@, lhs@, rhs@]);
            out.push(MachineInstr::Div { rd, rs1, rs2 });
            assert(machine_instrs_view(out@) =~= out0 + lowered(map.assoc(), instr@));
        },
        IrInstruction::Call { dest, target_func, args } => {
            let ghost argv = names_view(args@);
            let mut regs: Vec<VReg> = Vec::new();
            let mut i: usize = 0;
            assert(argv.take(0) =~= Seq::<Seq<char>>::empty());
            while i < args.len()
                invariant
                    i <= args.len(),
                    argv == names_view(args@),
                    map.wf(),
                    map.keys.len() <= old(map).keys.len() + i,
                    old(map).keys.len() + args.len() + 1 <= 0x7fff_ffff || (dest is None && old(
                        map,
                    ).keys.len() + args.len() <= 0x7fff_ffff),
                    map.assoc() == with_names(m0, argv.take(i as int)),
                    regs.len() == i,
                    forall|j: int| 0 <= j < i ==> map.assoc().contains(#[trigger] argv[j]),
                    forall|j: int| 0 <= j < i ==> #[trigger] regs[j] == map.assoc().get(argv[j]),
                decreases args.len() - i,
            {
                proof {
                    lemma_with_names_push(m0, argv.take(i as int), argv[i as int]);
                    assert(argv.take(i + 1) =~= argv.take(i as int).push(argv[i as int]));
                }
                let ghost before_map = map.assoc();
                let ghost before_regs = regs@;
                let r = allocate_reg(map, &args[i]);
                regs.push(r);
                proof {
                    assert(argv[i as int] == args[i as int]@);
                    assert forall|j: int| 0 <= j < i + 1 implies map.assoc().contains(
                        #[trigger] argv[j],
                    ) by {
                        if j < i {
                            assert(before_map.contains(argv[j]));
                        }
                    }
                    assert forall|j: int| 0 <= j < i + 1 implies #[trigger] regs[j]
                        == map.assoc().get(argv[j]) by {
                        if j < i {
                            assert(before_map.contains(argv[j]));
                            assert(before_regs[j] == before_map.get(argv[j]));
                        }
                    }
                }
                i += 1;
            }
            assert(argv.take(args.len() as int) =~= argv);
            let ghost m1 = map.assoc();
            let ret: Option<VReg> = match dest {
                Some(d) => {
                    proof {
                        lemma_with_names_push(m0, argv, d@);
                    }
                    Some(allocate_reg(map, d))
                },
                None => None,
            };
            let ghost m2 = map.assoc();
            proof {
                assert forall|j: int| 0 <= j < args.len() implies #[trigger] regs[j] == m2.get(
                    argv[j],
                ) by {
                    assert(m1.contains(argv[j]));
                    assert(regs[j] == m1.get(argv[j]));
                }
            }
            let mut i: usize = 0;
            while i < args.len()
                invariant
                    i <= args.len(),
                    args.len() <= 0x1000_0000,
                    regs.len() == args.len(),
                    argv == names_view(args@),
                    m2 == map.assoc(),
                    forall|j: int| 0 <= j < args.len() ==> #[trigger] regs[j] == m2.get(argv[j]),
                    machine_instrs_view(out@) == out0 + Seq::new(
                        i as nat,
                        |j: int| pass_arg(m2, argv, j),
                    ),
                decreases args.len() - i,
            {
                let src_reg = regs[i];
                let ghost before = machine_instrs_view(out@);
                if i < 8 {
                    let a_reg = if i == 0 {
                        VReg::A0
                    } else if i == 1 {
                        VReg::A1
                    } else if i == 2 {
                        VReg::A2
                    } else if i == 3 {
                        VReg::A3
                    } else if i == 4 {
                        VReg::A4
                    } else if i == 5 {
                        VReg::A5
                    } else if i == 6 {
                        VReg::A6
                    } else {
                        VReg::A7
                    };
                    out.push(MachineInstr::Mv { rd: a_reg, rs1: src_reg });
                } else {
                    let offset: i32 = ((i - 8) * 8) as i32;
                    out.push(MachineInstr::Sw { offset, base: VReg::SP, rs1: src_reg });
                }
                assert(machine_instrs_view(out@) =~= before.push(pass_arg(m2, argv, i as int)));
                assert(machine_instrs_view(out@) =~= out0 + Seq::new(
                    (i + 1) as nat,
                    |j: int| pass_arg(m2, argv, j),
                ));
                i += 1;
            }
            let ghost before_jal = machine_instrs_view(out@);
            out.push(MachineInstr::Jal { rd: VReg::RA, label: target_func.clone() });
            assert(machine_instrs_view(out@) =~= before_jal.push(
                MachineInstrView::Jal { rd: VReg::RA, label: target_func@ },
            ));
            match ret {
                Some(return_value) => {
                    let ghost before_mv = machine_instrs_view(out@);
                    out.push(MachineInstr::Mv { rd: return_value, rs1: VReg::A0 });
                    assert(machine_instrs_view(out@) =~= before_mv.push(
                        MachineInstrView::Mv { rd: return_value, rs1: VReg::A0 },
                    ));
                    assert(machine_instrs_view(out@) =~= out0 + lowered(map.assoc(), instr@));
                },
                None => {
                    assert(machine_instrs_view(out@) =~= out0 + lowered(map.assoc(), instr@));
                },
            }
        },
        IrInstruction::Br { cond, then_lbl, else_lbl } => {
            proof {
                lemma_with_names_push(m0, Seq::empty(), cond@);
                assert(mentioned(instr@) =~= Seq::<Seq<char>>::empty().push(cond@));
            }
            let rs1 = allocate_reg(map, cond);
            out.push(MachineInstr::Beqz { rs1, label: else_lbl.clone() });
            out.push(MachineInstr::Jmp { label: then_lbl.clone() });
            assert(machine_instrs_view(out@) =~= out0 + lowered(map.assoc(), instr@));
        },
        IrInstruction::Jmp { label } => {
            out.push(MachineInstr::Jmp { label: label.clone() });
            assert(machine_instrs_view(out@) =~= out0 + lowered(map.assoc(), instr@));
        },
        IrInstruction::Ret { args } => {
            let rd: Option<VReg> = if args.len() > 0 {
                proof {
                    lemma_with_names_push(m0, Seq::empty(), args[0]@);
                    assert(mentioned(instr@) =~= Seq::<Seq<char>>::empty().push(args[0]@));
                    assert(names_view(args@)[0] == args[0]@);
                }
                Some(allocate_reg(map, &args[0]))
            } else {
                None
            };
            out.push(MachineInstr::Ret { rd });
            assert(machine_instrs_view(out@) =~= out0 + lowered(map.assoc(), instr@));
        },
        _ => {
            assert(machine_instrs_view(out@) =~= out0 + lowered(map.assoc(), instr@));
        },
    }
}

/// The registers of a destination and two operands, entered in that order.
fn allocate_three(map: &mut StrMap<VReg>, dest: &String, lhs: &String, rhs: &String) -> (r: (
    VReg,
    VReg,
    VReg,
))
    requires
        old(map).wf(),
        old(map).keys.len() + 3 <= 0x7fff_ffff,
    ensures
        final(map).wf(),
        final(map).assoc() == with_names(old(map).assoc(), seq![dest@, lhs@, rhs@]),
        final(map).keys.len() <= old(map).keys.len() + 3,
        r.0 == final(map).assoc().get(dest@),
        r.1 == final(map).assoc().get(lhs@),
        r.2 == final(map).assoc().get(rhs@),
{
    let ghost m0 = map.assoc();
    proof {
        assert(with_names(m0, Seq::empty()) == m0);
        lemma_with_names_push(m0, Seq::empty(), dest@);
        lemma_with_names_push(m0, seq![dest@], lhs@);
        lemma_with_names_push(m0, seq![dest@, lhs@], rhs@);
        assert(seq![dest@] =~= Seq::<Seq<char>>::empty().push(dest@));
        assert(seq![dest@, lhs@] =~= seq![dest@].push(lhs@));
        assert(seq![dest@, lhs@, rhs@] =~= seq![dest@, lhs@].push(rhs@));
    }
    let rd = allocate_reg(map, dest);
    let rs1 = allocate_reg(map, lhs);
    let rs2 = allocate_reg(map, rhs);
    (rd, rs1, rs2)
}

/// Lowers a function to machine instructions over virtual registers.
///
/// Every name gets, where it is first mentioned, the next virtual register,
/// numbered from zero within the function.
pub fn select_instructions(func: &IrFunction) -> (mf: MachineFunc)
    requires
        selectable(func@),
    ensures
        mf@ == selected(func@),
{
    let mut machine_func = MachineFunc::new(func);
    let mut map: StrMap<VReg> = StrMap::new();
    let ghost f = func@;
    let n = func.blocks.len();
    let mut b: usize = 0;
    assert(map.assoc().vals =~= no_regs().vals);
    assert(machine_func@.blocks =~= lower_blocks(no_regs(), f.blocks, 0).1);
    while b < n
        invariant
            b <= n,
            n == func.blocks.len(),
            f == func@,
            selectable(f),
            map.wf(),
            map.keys.len() <= mentions(f.blocks, b as int),
            machine_func.name@ == f.name,
            machine_func.args@ == Seq::<VReg>::empty(),
            machine_func.label_to_idx.assoc() == f.labels,
            (map.assoc(), machine_blocks_view(machine_func.blocks@)) == lower_blocks(
                no_regs(),
                f.blocks,
                b as int,
            ),
        decreases n - b,
    {
        let block = &func.blocks[b];
        let ghost bv = f.blocks[b as int];
        assert(bv == block@);
        let mut code: Vec<MachineInstr> = Vec::new();
        let ghost m1 = map.assoc();
        let ghost done = machine_blocks_view(machine_func.blocks@);
        let mut i: usize = 0;
        assert(machine_instrs_view(code@) =~= lower_instrs(m1, bv.instrs, 0).1);
        proof {
            lemma_mentions_mono(f.blocks, b + 1, n as int);
        }
        while i < block.instrs.len()
            invariant
                i <= block.instrs.len(),
                b < n,
                n == f.blocks.len(),
                bv == block@,
                bv == f.blocks[b as int],
                selectable(f),
                map.wf(),
                mentions(f.blocks, b + 1) <= 0x7fff_ffff,
                map.keys.len() <= mentions(f.blocks, b as int) + mentions_in(bv.instrs, i as int),
                (map.assoc(), machine_instrs_view(code@)) == lower_instrs(m1, bv.instrs, i as int),
            decreases block.instrs.len() - i,
        {
            assert(bv.instrs[i as int] == block.instrs[i as int]@);
            proof {
                lemma_mentions_in_mono(bv.instrs, i + 1, bv.instrs.len() as int);
            }
            lower_instr(&mut map, &block.instrs[i], &mut code);
            i += 1;
        }
        let ghost before = machine_func.blocks@;
        machine_func.blocks.push(
            MachineBlock {
                name: block.label.clone(),
                instrs: code,
                succs: clone_indices(&block.succs),
            },
        );
        assert(machine_blocks_view(machine_func.blocks@) =~= done.push(
            MachineBlockView { name: bv.label, instrs: machine_instrs_view(code@), succs: bv.succs },
        ));
        b += 1;
    }
    machine_func
}

} // verus!
