//! The three-address intermediate representation and its control-flow graph.

use crate::names::{clone_names, lemma_names_view_push, names_view};
use vstd::prelude::*;

verus! {

/// A constant: an integer or a truth value.
#[derive(Debug, Clone, Copy, PartialEq, Eq, Structural)]
pub enum Literal {
    Int(i64),
    Bool(bool),
}

/// What can go wrong while a function is brought into graph form.
#[derive(Debug, Clone, Copy, PartialEq, Eq, Structural)]
pub enum IrError {
    /// Immediate dominators cannot be computed for some block.
    MalformedCfg,
    /// A branch or jump names a block that does not exist.
    UnknownLabel,
}

/// An instruction in three-address form.  Every operand is the name of a
/// value.
#[derive(Debug, PartialEq, Eq)]
#[allow(inconsistent_fields)]
pub enum IrInstruction {
    Add { dest: String, lhs: String, rhs: String },
    Mul { dest: String, lhs: String, rhs: String },
    Sub { dest: String, lhs: String, rhs: String },
    Div { dest: String, lhs: String, rhs: String },
    Eq { dest: String, lhs: String, rhs: String },
    Lt { dest: String, lhs: String, rhs: String },
    Gt { dest: String, lhs: String, rhs: String },
    Ge { dest: String, lhs: String, rhs: String },
    Le { dest: String, lhs: String, rhs: String },
    Not { dest: String, args: String },
    Or { dest: String, lhs: String, rhs: String },
    And { dest: String, lhs: String, rhs: String },
    Call { target_func: String, args: Vec<String>, dest: Option<String> },
    Br { cond: String, then_lbl: String, else_lbl: String },
    Jmp { label: String },
    Ret { args: Vec<String> },
    /// `sources[k]` is the name that arrives along the block's `k`-th
    /// predecessor, once renaming has filled it in.
    Phi { dest: String, sources: Vec<Option<String>> },
    Const { dest: String, value: Literal },
    Print { values: Vec<String> },
    Assign { lhs: String, rhs: String },
}

/// The two-operand operations, which all share one shape.
#[derive(Debug, Clone, Copy, PartialEq, Eq, Structural)]
pub enum BinOp {
    Add,
    Mul,
    Sub,
    Div,
    Eq,
    Lt,
    Gt,
    Ge,
    Le,
    Or,
    And,
}

/// An instruction as contracts see it: names are character sequences, and the
/// two-operand operations are told apart by a tag.
#[allow(inconsistent_fields)]
pub enum InstrView {
    Binary { op: BinOp, dest: Seq<char>, lhs: Seq<char>, rhs: Seq<char> },
    Not { dest: Seq<char>, args: Seq<char> },
    Call { target_func: Seq<char>, args: Seq<Seq<char>>, dest: Option<Seq<char>> },
    Br { cond: Seq<char>, then_lbl: Seq<char>, else_lbl: Seq<char> },
    Jmp { label: Seq<char> },
    Ret { args: Seq<Seq<char>> },
    Phi { dest: Seq<char>, sources: Seq<Option<Seq<char>>> },
    Const { dest: Seq<char>, value: Literal },
    Print { values: Seq<Seq<char>> },
    Assign { lhs: Seq<char>, rhs: Seq<char> },
}

/// An optional name as contracts see it.
pub open spec fn option_view(o: Option<String>) -> Option<Seq<char>> {
    match o {
        Some(s) => Some(s@),
        None => None,
    }
}

/// The sources of a φ as contracts see them.
pub open spec fn sources_view(v: Seq<Option<String>>) -> Seq<Option<Seq<char>>> {
    Seq::new(v.len(), |i: int| option_view(v[i]))
}

impl View for IrInstruction {
    type V = InstrView;

    open spec fn view(&self) -> InstrView {
        match self {
            IrInstruction::Add { dest, lhs, rhs } => InstrView::Binary {
                op: BinOp::Add,
                dest: dest@,
                lhs: lhs@,
                rhs: rhs@,
            },
            IrInstruction::Mul { dest, lhs, rhs } => InstrView::Binary {
                op: BinOp::Mul,
                dest: dest@,
                lhs: lhs@,
                rhs: rhs@,
            },
            IrInstruction::Sub { dest, lhs, rhs } => InstrView::Binary {
                op: BinOp::Sub,
                dest: dest@,
                lhs: lhs@,
                rhs: rhs@,
            },
            IrInstruction::Div { dest, lhs, rhs } => InstrView::Binary {
                op: BinOp::Div,
                dest: dest@,
                lhs: lhs@,
                rhs: rhs@,
            },
            IrInstruction::Eq { dest, lhs, rhs } => InstrView::Binary {
                op: BinOp::Eq,
                dest: dest@,
                lhs: lhs@,
                rhs: rhs@,
            },
            IrInstruction::Lt { dest, lhs, rhs } => InstrView::Binary {
                op: BinOp::Lt,
                dest: dest@,
                lhs: lhs@,
                rhs: rhs@,
            },
            IrInstruction::Gt { dest, lhs, rhs } => InstrView::Binary {
                op: BinOp::Gt,
                dest: dest@,
                lhs: lhs@,
                rhs: rhs@,
            },
            IrInstruction::Ge { dest, lhs, rhs } => InstrView::Binary {
                op: BinOp::Ge,
                dest: dest@,
                lhs: lhs@,
                rhs: rhs@,
            },
            IrInstruction::Le { dest, lhs, rhs } => InstrView::Binary {
                op: BinOp::Le,
                dest: dest@,
                lhs: lhs@,
                rhs: rhs@,
            },
            IrInstruction::Or { dest, lhs, rhs } => InstrView::Binary {
                op: BinOp::Or,
                dest: dest@,
                lhs: lhs@,
                rhs: rhs@,
            },
            IrInstruction::And { dest, lhs, rhs } => InstrView::Binary {
                op: BinOp::And,
                dest: dest@,
                lhs: lhs@,
                rhs: rhs@,
            },
            IrInstruction::Not { dest, args } => InstrView::Not { dest: dest@, args: args@ },
            IrInstruction::Call { target_func, args, dest } => InstrView::Call {
                target_func: target_func@,
                args: names_view(args@),
                dest: option_view(*dest),
            },
            IrInstruction::Br { cond, then_lbl, else_lbl } => InstrView::Br {
                cond: cond@,
                then_lbl: then_lbl@,
                else_lbl: else_lbl@,
            },
            IrInstruction::Jmp { label } => InstrView::Jmp { label: label@ },
            IrInstruction::Ret { args } => InstrView::Ret { args: names_view(args@) },
            IrInstruction::Phi { dest, sources } => InstrView::Phi {
                dest: dest@,
                sources: sources_view(sources@),
            },
            IrInstruction::Const { dest, value } => InstrView::Const { dest: dest@, value: *value },
            IrInstruction::Print { values } => InstrView::Print { values: names_view(values@) },
            IrInstruction::Assign { lhs, rhs } => InstrView::Assign { lhs: lhs@, rhs: rhs@ },
        }
    }
}

/// The sources of a φ that have been filled in, in order.
pub open spec fn present_sources(s: Seq<Option<Seq<char>>>) -> Seq<Seq<char>>
    decreases s.len(),
{
    if s.len() == 0 {
        Seq::empty()
    } else {
        match s.last() {
            Some(name) => present_sources(s.drop_last()).push(name),
            None => present_sources(s.drop_last()),
        }
    }
}

impl InstrView {
    /// The name that the instruction writes, if it writes one.
    pub open spec fn def(self) -> Option<Seq<char>> {
        match self {
            InstrView::Binary { dest, .. } => Some(dest),
            InstrView::Not { dest, .. } => Some(dest),
            InstrView::Const { dest, .. } => Some(dest),
            InstrView::Assign { lhs, .. } => Some(lhs),
            InstrView::Phi { dest, .. } => Some(dest),
            InstrView::Call { dest, .. } => dest,
            _ => None,
        }
    }

    /// The names that the instruction reads, in operand order.
    pub open spec fn uses(self) -> Seq<Seq<char>> {
        match self {
            InstrView::Binary { lhs, rhs, .. } => seq![lhs, rhs],
            InstrView::Not { args, .. } => seq![args],
            InstrView::Br { cond, .. } => seq![cond],
            InstrView::Call { args, .. } => args,
            InstrView::Ret { args } => args,
            InstrView::Phi { sources, .. } => present_sources(sources),
            InstrView::Print { values } => values,
            InstrView::Assign { rhs, .. } => seq![rhs],
            _ => Seq::empty(),
        }
    }

    /// Whether the instruction ends a block.
    pub open spec fn is_terminator(self) -> bool {
        self is Br || self is Jmp || self is Ret
    }

    /// Whether dropping the instruction could be observed: calls, control
    /// transfers and printing.
    pub open spec fn has_effect(self) -> bool {
        self is Call || self is Br || self is Jmp || self is Ret || self is Print
    }
}

/// The list of one name, or of none.
pub open spec fn seq_of_option(o: Option<Seq<char>>) -> Seq<Seq<char>> {
    match o {
        Some(s) => seq![s],
        None => Seq::empty(),
    }
}

fn clone_sources(v: &Vec<Option<String>>) -> (r: Vec<Option<String>>)
    ensures
        sources_view(r@) == sources_view(v@),
{
    let mut r: Vec<Option<String>> = Vec::new();
    let mut i: usize = 0;
    while i < v.len()
        invariant
            i <= v.len(),
            r.len() == i,
            forall|j: int| 0 <= j < i ==> option_view(r[j]) == option_view(v[j]),
        decreases v.len() - i,
    {
        let item = match &v[i] {
            Some(s) => Some(s.clone()),
            None => None,
        };
        r.push(item);
        i += 1;
    }
    assert(sources_view(r@) =~= sources_view(v@));
    r
}

impl Clone for IrInstruction {
    fn clone(&self) -> (r: Self)
        ensures
            r@ == self@,
    {
        match self {
            IrInstruction::Add { dest, lhs, rhs } => IrInstruction::Add {
                dest: dest.clone(),
                lhs: lhs.clone(),
                rhs: rhs.clone(),
            },
            IrInstruction::Mul { dest, lhs, rhs } => IrInstruction::Mul {
                dest: dest.clone(),
                lhs: lhs.clone(),
                rhs: rhs.clone(),
            },
            IrInstruction::Sub { dest, lhs, rhs } => IrInstruction::Sub {
                dest: dest.clone(),
                lhs: lhs.clone(),
                rhs: rhs.clone(),
            },
            IrInstruction::Div { dest, lhs, rhs } => IrInstruction::Div {
                dest: dest.clone(),
                lhs: lhs.clone(),
                rhs: rhs.clone(),
            },
            IrInstruction::Eq { dest, lhs, rhs } => IrInstruction::Eq {
                dest: dest.clone(),
                lhs: lhs.clone(),
                rhs: rhs.clone(),
            },
            IrInstruction::Lt { dest, lhs, rhs } => IrInstruction::Lt {
                dest: dest.clone(),
                lhs: lhs.clone(),
                rhs: rhs.clone(),
            },
            IrInstruction::Gt { dest, lhs, rhs } => IrInstruction::Gt {
                dest: dest.clone(),
                lhs: lhs.clone(),
                rhs: rhs.clone(),
            },
            IrInstruction::Ge { dest, lhs, rhs } => IrInstruction::Ge {
                dest: dest.clone(),
                lhs: lhs.clone(),
                rhs: rhs.clone(),
            },
            IrInstruction::Le { dest, lhs, rhs } => IrInstruction::Le {
                dest: dest.clone(),
                lhs: lhs.clone(),
                rhs: rhs.clone(),
            },
            IrInstruction::Or { dest, lhs, rhs } => IrInstruction::Or {
                dest: dest.clone(),
                lhs: lhs.clone(),
                rhs: rhs.clone(),
            },
            IrInstruction::And { dest, lhs, rhs } => IrInstruction::And {
                dest: dest.clone(),
                lhs: lhs.clone(),
                rhs: rhs.clone(),
            },
            IrInstruction::Not { dest, args } => IrInstruction::Not {
                dest: dest.clone(),
                args: args.clone(),
            },
            IrInstruction::Call { target_func, args, dest } => IrInstruction::Call {
                target_func: target_func.clone(),
                args: clone_names(args),
                dest: match dest {
                    Some(d) => Some(d.clone()),
                    None => None,
                },
            },
            IrInstruction::Br { cond, then_lbl, else_lbl } => IrInstruction::Br {
                cond: cond.clone(),
                then_lbl: then_lbl.clone(),
                else_lbl: else_lbl.clone(),
            },
            IrInstruction::Jmp { label } => IrInstruction::Jmp { label: label.clone() },
            IrInstruction::Ret { args } => IrInstruction::Ret { args: clone_names(args) },
            IrInstruction::Phi { dest, sources } => IrInstruction::Phi {
                dest: dest.clone(),
                sources: clone_sources(sources),
            },
            IrInstruction::Const { dest, value } => IrInstruction::Const {
                dest: dest.clone(),
                value: *value,
            },
            IrInstruction::Print { values } => IrInstruction::Print { values: clone_names(values) },
            IrInstruction::Assign { lhs, rhs } => IrInstruction::Assign {
                lhs: lhs.clone(),
                rhs: rhs.clone(),
            },
        }
    }
}

/// An optional borrowed name as contracts see it.
pub open spec fn option_ref_view(o: Option<&String>) -> Option<Seq<char>> {
    match o {
        Some(s) => Some(s@),
        None => None,
    }
}

impl IrInstruction {
    /// The name that the instruction writes, if it writes one.
    pub fn def_name(&self) -> (r: Option<&String>)
        ensures
            option_ref_view(r) == self@.def(),
    {
        match self {
            IrInstruction::Add { dest, .. }
            | IrInstruction::Sub { dest, .. }
            | IrInstruction::Mul { dest, .. }
            | IrInstruction::Div { dest, .. }
            | IrInstruction::Eq { dest, .. }
            | IrInstruction::Lt { dest, .. }
            | IrInstruction::Gt { dest, .. }
            | IrInstruction::Le { dest, .. }
            | IrInstruction::Ge { dest, .. }
            | IrInstruction::Or { dest, .. }
            | IrInstruction::And { dest, .. }
            | IrInstruction::Not { dest, .. }
            | IrInstruction::Const { dest, .. }
            | IrInstruction::Assign { lhs: dest, .. }
            | IrInstruction::Phi { dest, .. } => Some(dest),
            IrInstruction::Call { dest, .. } => match dest {
                Some(d) => Some(d),
                None => None,
            },
            _ => None,
        }
    }

    /// The name that the instruction writes: a list of one name, or of none.
    pub fn defs(&self) -> (r: Vec<String>)
        ensures
            names_view(r@) == seq_of_option(self@.def()),
    {
        let mut r: Vec<String> = Vec::new();
        match self {
            IrInstruction::Add { dest, .. }
            | IrInstruction::Sub { dest, .. }
            | IrInstruction::Mul { dest, .. }
            | IrInstruction::Div { dest, .. }
            | IrInstruction::Eq { dest, .. }
            | IrInstruction::Lt { dest, .. }
            | IrInstruction::Gt { dest, .. }
            | IrInstruction::Le { dest, .. }
            | IrInstruction::Ge { dest, .. }
            | IrInstruction::Or { dest, .. }
            | IrInstruction::And { dest, .. }
            | IrInstruction::Not { dest, .. }
            | IrInstruction::Const { dest, .. }
            | IrInstruction::Assign { lhs: dest, .. }
            | IrInstruction::Phi { dest, .. } => {
                r.push(dest.clone());
            },
            IrInstruction::Call { dest, .. } => {
                if let Some(d) = dest {
                    r.push(d.clone());
                }
            },
            _ => {},
        }
        assert(names_view(r@) =~= seq_of_option(self@.def()));
        r
    }

    /// The names that the instruction reads.
    pub fn uses(&self) -> (r: Vec<String>)
        ensures
            names_view(r@) == self@.uses(),
    {
        match self {
            IrInstruction::Add { lhs, rhs, .. }
            | IrInstruction::Sub { lhs, rhs, .. }
            | IrInstruction::Mul { lhs, rhs, .. }
            | IrInstruction::Div { lhs, rhs, .. }
            | IrInstruction::Eq { lhs, rhs, .. }
            | IrInstruction::Lt { lhs, rhs, .. }
            | IrInstruction::Gt { lhs, rhs, .. }
            | IrInstruction::Ge { lhs, rhs, .. }
            | IrInstruction::Le { lhs, rhs, .. }
            | IrInstruction::Or { lhs, rhs, .. }
            | IrInstruction::And { lhs, rhs, .. } => {
                let mut r: Vec<String> = Vec::new();
                r.push(lhs.clone());
                r.push(rhs.clone());
                assert(names_view(r@) =~= self@.uses());
                r
            },
            IrInstruction::Not { args, .. } => {
                let mut r: Vec<String> = Vec::new();
                r.push(args.clone());
                assert(names_view(r@) =~= self@.uses());
                r
            },
            IrInstruction::Br { cond, .. } => {
                let mut r: Vec<String> = Vec::new();
                r.push(cond.clone());
                assert(names_view(r@) =~= self@.uses());
                r
            },
            IrInstruction::Assign { rhs, .. } => {
                let mut r: Vec<String> = Vec::new();
                r.push(rhs.clone());
                assert(names_view(r@) =~= self@.uses());
                r
            },
            IrInstruction::Call { args, .. } => clone_names(args),
            IrInstruction::Ret { args } => clone_names(args),
            IrInstruction::Print { values } => clone_names(values),
            IrInstruction::Phi { sources, .. } => {
                let mut r: Vec<String> = Vec::new();
                let mut i: usize = 0;
                while i < sources.len()
                    invariant
                        i <= sources.len(),
                        names_view(r@) == present_sources(sources_view(sources@).take(i as int)),
                    decreases sources.len() - i,
                {
                    let ghost before = sources_view(sources@).take(i as int);
                    let ghost after = sources_view(sources@).take(i + 1);
                    assert(after.drop_last() =~= before);
                    assert(after.last() == option_view(sources[i as int]));
                    if let Some(s) = &sources[i] {
                        proof {
                            lemma_names_view_push(r@, *s);
                        }
                        r.push(s.clone());
                    }
                    i += 1;
                }
                assert(sources_view(sources@).take(sources.len() as int) =~= sources_view(
                    sources@,
                ));
                r
            },
            _ => {
                let r: Vec<String> = Vec::new();
                assert(names_view(r@) =~= self@.uses());
                r
            },
        }
    }
}

} // verus!
