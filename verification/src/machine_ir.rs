//! The machine-level mirror of the intermediate representation: RISC-V
//! instructions over registers that are either virtual or named.

use crate::function::{clone_indices, clone_labels, IrFunction};
use crate::names::{AssocView, StrMap};
use vstd::prelude::*;

verus! {

/// A register: a virtual one, known by its number, or one of the registers
/// that the RISC-V calling convention names.
#[derive(Debug, Clone, Copy, Hash, PartialEq, Eq, Structural)]
pub enum VReg {
    Virtual(i32),
    T0,
    T1,
    T2,
    T3,
    T4,
    T5,
    T6,
    A0,
    A1,
    A2,
    A3,
    A4,
    A5,
    A6,
    A7,
    S0,
    S1,
    S2,
    S3,
    S4,
    S5,
    S6,
    S7,
    S8,
    S9,
    S10,
    S11,
    RA,
    SP,
    FP,
    GP,
}

/// How a register is written in assembly.  Virtual registers share one
/// placeholder.
pub open spec fn reg_name(r: VReg) -> Seq<char> {
    match r {
        VReg::T0 => "t0"@,
        VReg::T1 => "t1"@,
        VReg::T2 => "t2"@,
        VReg::T3 => "t3"@,
        VReg::T4 => "t4"@,
        VReg::T5 => "t5"@,
        VReg::T6 => "t6"@,
        VReg::A0 => "a0"@,
        VReg::A1 => "a1"@,
        VReg::A2 => "a2"@,
        VReg::A3 => "a3"@,
        VReg::A4 => "a4"@,
        VReg::A5 => "a5"@,
        VReg::A6 => "a6"@,
        VReg::A7 => "a7"@,
        VReg::S0 => "s0"@,
        VReg::S1 => "s1"@,
        VReg::S2 => "s2"@,
        VReg::S3 => "s3"@,
        VReg::S4 => "s4"@,
        VReg::S5 => "s5"@,
        VReg::S6 => "s6"@,
        VReg::S7 => "s7"@,
        VReg::S8 => "s8"@,
        VReg::S9 => "s9"@,
        VReg::S10 => "s10"@,
        VReg::S11 => "s11"@,
        VReg::SP => "sp"@,
        VReg::RA => "ra"@,
        VReg::GP => "gp"@,
        VReg::FP => "fp"@,
        VReg::Virtual(_) => "rt"@,
    }
}

impl VReg {
    /// How the register is written in assembly.
    pub fn name(&self) -> (r: String)
        ensures
            r@ == reg_name(*self),
    {
        let text = match self {
            VReg::T0 => "t0",
            VReg::T1 => "t1",
            VReg::T2 => "t2",
            VReg::T3 => "t3",
            VReg::T4 => "t4",
            VReg::T5 => "t5",
            VReg::T6 => "t6",
            VReg::A0 => "a0",
            VReg::A1 => "a1",
            VReg::A2 => "a2",
            VReg::A3 => "a3",
            VReg::A4 => "a4",
            VReg::A5 => "a5",
            VReg::A6 => "a6",
            VReg::A7 => "a7",
            VReg::S0 => "s0",
            VReg::S1 => "s1",
            VReg::S2 => "s2",
            VReg::S3 => "s3",
            VReg::S4 => "s4",
            VReg::S5 => "s5",
            VReg::S6 => "s6",
            VReg::S7 => "s7",
            VReg::S8 => "s8",
            VReg::S9 => "s9",
            VReg::S10 => "s10",
            VReg::S11 => "s11",
            VReg::SP => "sp",
            VReg::RA => "ra",
            VReg::GP => "gp",
            VReg::FP => "fp",
            VReg::Virtual(_) => "rt",
        };
        String::from_str(text)
    }
}

/// Machine instructions, one for one with RISC-V.
#[derive(Debug, PartialEq, Eq)]
#[allow(inconsistent_fields)]
pub enum MachineInstr {
    Addi { rd: VReg, rs1: VReg, imm: i64 },
    Add { rd: VReg, rs1: VReg, rs2: VReg },
    Mul { rd: VReg, rs1: VReg, rs2: VReg },
    Sub { rd: VReg, rs1: VReg, rs2: VReg },
    Div { rd: VReg, rs1: VReg, rs2: VReg },
    Li { rd: VReg, imm: i64 },
    Mv { rd: VReg, rs1: VReg },
    Sw { rs1: VReg, offset: i32, base: VReg },
    Jal { rd: VReg, label: String },
    Jmp { label: String },
    Beqz { rs1: VReg, label: String },
    Beq { rs1: VReg, rs2: VReg, label: String },
    Ret { rd: Option<VReg> },
    Call { func: String },
    Print { args: Vec<VReg> },
}

/// A machine instruction as contracts see it.
#[allow(inconsistent_fields)]
pub enum MachineInstrView {
    Addi { rd: VReg, rs1: VReg, imm: i64 },
    Add { rd: VReg, rs1: VReg, rs2: VReg },
    Mul { rd: VReg, rs1: VReg, rs2: VReg },
    Sub { rd: VReg, rs1: VReg, rs2: VReg },
    Div { rd: VReg, rs1: VReg, rs2: VReg },
    Li { rd: VReg, imm: i64 },
    Mv { rd: VReg, rs1: VReg },
    Sw { rs1: VReg, offset: i32, base: VReg },
    Jal { rd: VReg, label: Seq<char> },
    Jmp { label: Seq<char> },
    Beqz { rs1: VReg, label: Seq<char> },
    Beq { rs1: VReg, rs2: VReg, label: Seq<char> },
    Ret { rd: Option<VReg> },
    Call { func: Seq<char> },
    Print { args: Seq<VReg> },
}

impl View for MachineInstr {
    type V = MachineInstrView;

    open spec fn view(&self) -> MachineInstrView {
        match self {
            MachineInstr::Addi { rd, rs1, imm } => MachineInstrView::Addi {
                rd: *rd,
                rs1: *rs1,
                imm: *imm,
            },
            MachineInstr::Add { rd, rs1, rs2 } => MachineInstrView::Add {
                rd: *rd,
                rs1: *rs1,
                rs2: *rs2,
            },
            MachineInstr::Mul { rd, rs1, rs2 } => MachineInstrView::Mul {
                rd: *rd,
                rs1: *rs1,
                rs2: *rs2,
            },
            MachineInstr::Sub { rd, rs1, rs2 } => MachineInstrView::Sub {
                rd: *rd,
                rs1: *rs1,
                rs2: *rs2,
            },
            MachineInstr::Div { rd, rs1, rs2 } => MachineInstrView::Div {
                rd: *rd,
                rs1: *rs1,
                rs2: *rs2,
            },
            MachineInstr::Li { rd, imm } => MachineInstrView::Li { rd: *rd, imm: *imm },
            MachineInstr::Mv { rd, rs1 } => MachineInstrView::Mv { rd: *rd, rs1: *rs1 },
            MachineInstr::Sw { rs1, offset, base } => MachineInstrView::Sw {
                rs1: *rs1,
                offset: *offset,
                base: *base,
            },
            MachineInstr::Jal { rd, label } => MachineInstrView::Jal { rd: *rd, label: label@ },
            MachineInstr::Jmp { label } => MachineInstrView::Jmp { label: label@ },
            MachineInstr::Beqz { rs1, label } => MachineInstrView::Beqz { rs1: *rs1, label: label@ },
            MachineInstr::Beq { rs1, rs2, label } => MachineInstrView::Beq {
                rs1: *rs1,
                rs2: *rs2,
                label: label@,
            },
            MachineInstr::Ret { rd } => MachineInstrView::Ret { rd: *rd },
            MachineInstr::Call { func } => MachineInstrView::Call { func: func@ },
            MachineInstr::Print { args } => MachineInstrView::Print { args: args@ },
        }
    }
}

impl MachineInstrView {
    /// The registers that the instruction writes.
    pub open spec fn defs(self) -> Seq<VReg> {
        match self {
            MachineInstrView::Add { rd, .. } => seq![rd],
            MachineInstrView::Addi { rd, .. } => seq![rd],
            MachineInstrView::Mul { rd, .. } => seq![rd],
            MachineInstrView::Sub { rd, .. } => seq![rd],
            MachineInstrView::Div { rd, .. } => seq![rd],
            MachineInstrView::Mv { rd, .. } => seq![rd],
            MachineInstrView::Li { rd, .. } => seq![rd],
            _ => Seq::empty(),
        }
    }

    /// The registers that the instruction reads.
    pub open spec fn uses(self) -> Seq<VReg> {
        match self {
            MachineInstrView::Add { rs1, rs2, .. } => seq![rs1, rs2],
            MachineInstrView::Mul { rs1, rs2, .. } => seq![rs1, rs2],
            MachineInstrView::Sub { rs1, rs2, .. } => seq![rs1, rs2],
            MachineInstrView::Beq { rs1, rs2, .. } => seq![rs1, rs2],
            MachineInstrView::Div { rs1, rs2, .. } => seq![rs1, rs2],
            MachineInstrView::Addi { rs1, .. } => seq![rs1],
            MachineInstrView::Sw { rs1, .. } => seq![rs1],
            MachineInstrView::Beqz { rs1, .. } => seq![rs1],
            MachineInstrView::Mv { rs1, .. } => seq![rs1],
            _ => Seq::empty(),
        }
    }
}

fn clone_regs(v: &Vec<VReg>) -> (r: Vec<VReg>)
    ensures
        r@ == v@,
{
    let mut r: Vec<VReg> = Vec::new();
    let mut i: usize = 0;
    while i < v.len()
        invariant
            i <= v.len(),
            r@ == v@.take(i as int),
        decreases v.len() - i,
    {
        r.push(v[i]);
        assert(v@.take(i + 1) =~= v@.take(i as int).push(v[i as int]));
        i += 1;
    }
    assert(v@.take(v.len() as int) =~= v@);
    r
}

impl Clone for MachineInstr {
    fn clone(&self) -> (r: Self)
        ensures
            r@ == self@,
    {
        match self {
            MachineInstr::Addi { rd, rs1, imm } => MachineInstr::Addi {
                rd: *rd,
                rs1: *rs1,
                imm: *imm,
            },
            MachineInstr::Add { rd, rs1, rs2 } => MachineInstr::Add { rd: *rd, rs1: *rs1, rs2: *rs2 },
            MachineInstr::Mul { rd, rs1, rs2 } => MachineInstr::Mul { rd: *rd, rs1: *rs1, rs2: *rs2 },
            MachineInstr::Sub { rd, rs1, rs2 } => MachineInstr::Sub { rd: *rd, rs1: *rs1, rs2: *rs2 },
            MachineInstr::Div { rd, rs1, rs2 } => MachineInstr::Div { rd: *rd, rs1: *rs1, rs2: *rs2 },
            MachineInstr::Li { rd, imm } => MachineInstr::Li { rd: *rd, imm: *imm },
            MachineInstr::Mv { rd, rs1 } => MachineInstr::Mv { rd: *rd, rs1: *rs1 },
            MachineInstr::Sw { rs1, offset, base } => MachineInstr::Sw {
                rs1: *rs1,
                offset: *offset,
                base: *base,
            },
            MachineInstr::Jal { rd, label } => MachineInstr::Jal { rd: *rd, label: label.clone() },
            MachineInstr::Jmp { label } => MachineInstr::Jmp { label: label.clone() },
            MachineInstr::Beqz { rs1, label } => MachineInstr::Beqz {
                rs1: *rs1,
                label: label.clone(),
            },
            MachineInstr::Beq { rs1, rs2, label } => MachineInstr::Beq {
                rs1: *rs1,
                rs2: *rs2,
                label: label.clone(),
            },
            MachineInstr::Ret { rd } => MachineInstr::Ret { rd: *rd },
            MachineInstr::Call { func } => MachineInstr::Call { func: func.clone() },
            MachineInstr::Print { args } => MachineInstr::Print { args: clone_regs(args) },
        }
    }
}

impl MachineInstr {
    /// The registers that the instruction writes.
    pub fn defs(&self) -> (r: Vec<VReg>)
        ensures
            r@ == self@.defs(),
    {
        let mut r: Vec<VReg> = Vec::new();
        match self {
            MachineInstr::Add { rd, .. }
            | MachineInstr::Addi { rd, .. }
            | MachineInstr::Mul { rd, .. }
            | MachineInstr::Sub { rd, .. }
            | MachineInstr::Div { rd, .. }
            | MachineInstr::Mv { rd, .. }
            | MachineInstr::Li { rd, .. } => {
                r.push(*rd);
            },
            _ => {},
        }
        assert(r@ =~= self@.defs());
        r
    }

    /// The registers that the instruction reads.
    pub fn uses(&self) -> (r: Vec<VReg>)
        ensures
            r@ == self@.uses(),
    {
        let mut r: Vec<VReg> = Vec::new();
        match self {
            MachineInstr::Add { rs1, rs2, .. }
            | MachineInstr::Mul { rs1, rs2, .. }
            | MachineInstr::Sub { rs1, rs2, .. }
            | MachineInstr::Beq { rs1, rs2, .. }
            | MachineInstr::Div { rs1, rs2, .. } => {
                r.push(*rs1);
                r.push(*rs2);
            },
            MachineInstr::Addi { rs1, .. }
            | MachineInstr::Sw { rs1, .. }
            | MachineInstr::Beqz { rs1, .. }
            | MachineInstr::Mv { rs1, .. } => {
                r.push(*rs1);
            },
            _ => {},
        }
        assert(r@ =~= self@.uses());
        r
    }
}

/// A block of machine instructions.
#[derive(Debug, PartialEq, Eq)]
pub struct MachineBlock {
    pub name: String,
    pub instrs: Vec<MachineInstr>,
    pub succs: Vec<usize>,
}

/// A machine block as contracts see it.
pub struct MachineBlockView {
    pub name: Seq<char>,
    pub instrs: Seq<MachineInstrView>,
    pub succs: Seq<usize>,
}

/// The machine instructions of a list as contracts see them.
pub open spec fn machine_instrs_view(v: Seq<MachineInstr>) -> Seq<MachineInstrView> {
    Seq::new(v.len(), |i: int| v[i]@)
}

impl View for MachineBlock {
    type V = MachineBlockView;

    open spec fn view(&self) -> MachineBlockView {
        MachineBlockView {
            name: self.name@,
            instrs: machine_instrs_view(self.instrs@),
            succs: self.succs@,
        }
    }
}

impl Clone for MachineBlock {
    fn clone(&self) -> (r: Self)
        ensures
            r@ == self@,
    {
        let mut instrs: Vec<MachineInstr> = Vec::new();
        let mut i: usize = 0;
        while i < self.instrs.len()
            invariant
                i <= self.instrs.len(),
                instrs.len() == i,
                forall|j: int| 0 <= j < i ==> instrs[j]@ == self.instrs[j]@,
            decreases self.instrs.len() - i,
        {
            instrs.push(self.instrs[i].clone());
            i += 1;
        }
        assert(machine_instrs_view(instrs@) =~= machine_instrs_view(self.instrs@));
        MachineBlock { name: self.name.clone(), instrs, succs: clone_indices(&self.succs) }
    }
}

/// A function of machine instructions.
#[derive(Debug)]
pub struct MachineFunc {
    pub name: String,
    pub args: Vec<VReg>,
    pub blocks: Vec<MachineBlock>,
    pub label_to_idx: StrMap<usize>,
}

/// A machine function as contracts see it.
pub struct MachineFuncView {
    pub name: Seq<char>,
    pub args: Seq<VReg>,
    pub blocks: Seq<MachineBlockView>,
    pub labels: AssocView<usize>,
}

/// The machine blocks of a list as contracts see them.
pub open spec fn machine_blocks_view(v: Seq<MachineBlock>) -> Seq<MachineBlockView> {
    Seq::new(v.len(), |i: int| v[i]@)
}

impl View for MachineFunc {
    type V = MachineFuncView;

    open spec fn view(&self) -> MachineFuncView {
        MachineFuncView {
            name: self.name@,
            args: self.args@,
            blocks: machine_blocks_view(self.blocks@),
            labels: self.label_to_idx.assoc(),
        }
    }
}

impl MachineFunc {
    /// A machine function without blocks, under the name and with the label
    /// table of `func`.
    pub fn new(func: &IrFunction) -> (r: Self)
        ensures
            r@ == (MachineFuncView {
                name: func@.name,
                args: Seq::empty(),
                blocks: Seq::empty(),
                labels: func@.labels,
            }),
            r.label_to_idx.wf() == func.label_to_idx.wf(),
    {
        let r = MachineFunc {
            name: func.name.clone(),
            args: Vec::new(),
            blocks: Vec::new(),
            label_to_idx: clone_labels(&func.label_to_idx),
        };
        assert(r@.blocks =~= Seq::<MachineBlockView>::empty());
        r
    }

    /// The index entered for `label`, if the table holds it.
    pub fn block_index(&self, label: &String) -> (r: Option<usize>)
        requires
            self.label_to_idx.wf(),
        ensures
            r == if self@.labels.contains(label@) {
                Some(self@.labels.get(label@))
            } else {
                None
            },
    {
        match self.label_to_idx.get(label) {
            Some(i) => Some(*i),
            None => None,
        }
    }
}

} // verus!
