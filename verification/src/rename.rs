//! Renaming into single-assignment form: a walk over the dominator tree that
//! gives every definition a name of its own and makes every use refer to the
//! definition that reaches it.

use crate::decimal::{digits_of, push_u64};
use crate::ir::{InstrView, IrInstruction};
use crate::names::{lemma_names_view_push, names_view, AssocView, StrMap};
use vstd::prelude::*;
use vstd::string::*;

verus! {

/// How many names have been issued for each name of the function.
pub type Counters = StrMap<usize>;

/// For each name of the function, the names issued for it that are in scope,
/// the current one last.
pub type Stacks = StrMap<Vec<String>>;

/// The `k`-th name issued for `v`: `v`, a dollar sign, and `k` in decimal.
pub open spec fn fresh_name(v: Seq<char>, k: nat) -> Seq<char> {
    v + seq!['$'] + digits_of(k)
}

/// The stacks as contracts see them.
pub open spec fn stacks_view(stacks: Stacks) -> AssocView<Seq<Seq<char>>> {
    AssocView {
        keys: stacks.key_seq(),
        vals: Seq::new(stacks.vals.len() as nat, |i: int| names_view(stacks.vals[i]@)),
    }
}

/// The name that stands for `v` at this point: the top of its stack, or `v`
/// itself where nothing has been issued for it.
pub open spec fn current_name_spec(stacks: AssocView<Seq<Seq<char>>>, v: Seq<char>) -> Seq<char> {
    if stacks.contains(v) && stacks.get(v).len() > 0 {
        stacks.get(v).last()
    } else {
        v
    }
}

/// The number of the next name for `v`.  A counter that has reached the
/// largest machine number stays there.
pub open spec fn next_count(counter: AssocView<usize>, v: Seq<char>) -> usize {
    let c = if counter.contains(v) {
        counter.get(v)
    } else {
        0
    };
    if c < usize::MAX {
        (c + 1) as usize
    } else {
        c
    }
}

/// The counters after a name has been issued for `v`.
pub open spec fn bump_counter(counter: AssocView<usize>, v: Seq<char>) -> AssocView<usize> {
    counter.put(v, next_count(counter, v))
}

/// The name issued for `v`.
pub open spec fn issued_name(counter: AssocView<usize>, v: Seq<char>) -> Seq<char> {
    fresh_name(v, next_count(counter, v) as nat)
}

/// The stacks after `name` has been issued for `v`.
pub open spec fn push_name(
    stacks: AssocView<Seq<Seq<char>>>,
    v: Seq<char>,
    name: Seq<char>,
) -> AssocView<Seq<Seq<char>>> {
    let stack = if stacks.contains(v) {
        stacks.get(v)
    } else {
        Seq::empty()
    };
    stacks.put(v, stack.push(name))
}

/// The state of the walk: counters and stacks.
pub struct RenameState {
    pub counter: AssocView<usize>,
    pub stacks: AssocView<Seq<Seq<char>>>,
}

impl RenameState {
    /// Counters and stacks are well formed.
    pub open spec fn wf(self) -> bool {
        self.counter.wf() && self.stacks.wf()
    }

    /// The state after a name has been issued for `v`.
    pub open spec fn issue(self, v: Seq<char>) -> RenameState {
        RenameState {
            counter: bump_counter(self.counter, v),
            stacks: push_name(self.stacks, v, issued_name(self.counter, v)),
        }
    }
}

/// The state that the counters and stacks stand for.
pub open spec fn state_of(counter: Counters, stacks: Stacks) -> RenameState {
    RenameState { counter: counter.assoc(), stacks: stacks_view(stacks) }
}

/// Every name of the list replaced by the name that currently stands for it.
pub open spec fn current_names(stacks: AssocView<Seq<Seq<char>>>, names: Seq<Seq<char>>) -> Seq<
    Seq<char>,
> {
    Seq::new(names.len(), |i: int| current_name_spec(stacks, names[i]))
}

/// An instruction that is no φ after renaming: every use refers to the
/// current name, and the definition, if there is one, has a name of its own.
pub open spec fn renamed_instr(st: RenameState, instr: InstrView) -> InstrView {
    let s = st.stacks;
    let c = st.counter;
    match instr {
        InstrView::Binary { op, dest, lhs, rhs } => InstrView::Binary {
            op,
            dest: issued_name(c, dest),
            lhs: current_name_spec(s, lhs),
            rhs: current_name_spec(s, rhs),
        },
        InstrView::Not { dest, args } => InstrView::Not {
            dest: issued_name(c, dest),
            args: current_name_spec(s, args),
        },
        InstrView::Assign { lhs, rhs } => InstrView::Assign {
            lhs: issued_name(c, lhs),
            rhs: current_name_spec(s, rhs),
        },
        InstrView::Const { dest, value } => InstrView::Const { dest: issued_name(c, dest), value },
        InstrView::Call { target_func, args, dest } => InstrView::Call {
            target_func,
            args: current_names(s, args),
            dest: match dest {
                Some(d) => Some(issued_name(c, d)),
                None => None,
            },
        },
        InstrView::Print { values } => InstrView::Print { values: current_names(s, values) },
        InstrView::Ret { args } => InstrView::Ret { args: current_names(s, args) },
        InstrView::Br { cond, then_lbl, else_lbl } => InstrView::Br {
            cond: current_name_spec(s, cond),
            then_lbl,
            else_lbl,
        },
        InstrView::Jmp { label } => instr,
        InstrView::Phi { dest, sources } => instr,
    }
}

/// The state after an instruction that is no φ has been renamed.
pub open spec fn state_after_instr(st: RenameState, instr: InstrView) -> RenameState {
    if instr is Phi {
        st
    } else {
        match instr.def() {
            Some(d) => st.issue(d),
            None => st,
        }
    }
}

/// A φ after its destination has been renamed.
pub open spec fn renamed_phi(st: RenameState, instr: InstrView) -> InstrView {
    match instr {
        InstrView::Phi { dest, sources } => InstrView::Phi {
            dest: issued_name(st.counter, dest),
            sources,
        },
        _ => instr,
    }
}

/// The state after the destination of a φ has been renamed.
pub open spec fn state_after_phi(st: RenameState, instr: InstrView) -> RenameState {
    match instr {
        InstrView::Phi { dest, .. } => st.issue(dest),
        _ => st,
    }
}

proof fn lemma_stacks_view_same_keys(a: Stacks, b: Stacks, k: int, stack: Seq<Seq<char>>)
    requires
        0 <= k < a.vals.len(),
        a.vals.len() == b.vals.len(),
        a.key_seq() == b.key_seq(),
        names_view(b.vals[k]@) == stack,
        forall|j: int| 0 <= j < a.vals.len() && j != k ==> a.vals[j] == b.vals[j],
    ensures
        stacks_view(b).keys == stacks_view(a).keys,
        stacks_view(b).vals == stacks_view(a).vals.update(k, stack),
{
    assert(stacks_view(b).vals =~= stacks_view(a).vals.update(k, stack));
}

/// The name that currently stands for `var`.
pub fn current_name(var: &String, stacks: &Stacks) -> (r: String)
    requires
        stacks.wf(),
    ensures
        r@ == current_name_spec(stacks_view(*stacks), var@),
{
    match stacks.find(var) {
        Some(i) => {
            let stack = &stacks.vals[i];
            proof {
                assert(stacks_view(*stacks).position(var@) == i) by {
                    stacks.lemma_position(i as int);
                }
                assert(stacks_view(*stacks).get(var@) == names_view(stack@));
            }
            if stack.len() > 0 {
                stack[stack.len() - 1].clone()
            } else {
                var.clone()
            }
        },
        None => var.clone(),
    }
}

/// Issues the next name for `var`: counts it, and puts it on the stack of
/// `var`.
pub fn create_new_name(var: &String, counter: &mut Counters, stacks: &mut Stacks) -> (r: String)
    requires
        old(counter).wf(),
        old(stacks).wf(),
    ensures
        final(counter).wf(),
        final(stacks).wf(),
        r@ == issued_name(old(counter).assoc(), var@),
        state_of(*final(counter), *final(stacks)) == state_of(*old(counter), *old(stacks)).issue(
            var@,
        ),
{
    let ghost c0 = counter.assoc();
    let ghost s0 = stacks_view(*stacks);
    let before: usize = match counter.find(var) {
        Some(i) => {
            proof {
                counter.lemma_position(i as int);
            }
            counter.vals[i]
        },
        None => 0,
    };
    let count: usize = if before < usize::MAX {
        before + 1
    } else {
        before
    };
    assert(count == next_count(c0, var@));
    counter.insert(var.clone(), count);
    let mut name = var.clone();
    proof {
        reveal_strlit("$");
    }
    name.append("$");
    push_u64(&mut name, count as u64);
    assert(name@ =~= fresh_name(var@, count as nat));
    match stacks.find(var) {
        Some(i) => {
            let ghost before_stacks = *stacks;
            proof {
                stacks.lemma_position(i as int);
                lemma_names_view_push(stacks.vals[i as int]@, name);
            }
            let copy = name.clone();
            stacks.vals[i].push(copy);
            proof {
                assert(stacks.key_seq() == before_stacks.key_seq());
                lemma_stacks_view_same_keys(
                    before_stacks,
                    *stacks,
                    i as int,
                    s0.get(var@).push(name@),
                );
                assert(s0.position(var@) == i);
            }
        },
        None => {
            let mut stack: Vec<String> = Vec::new();
            stack.push(name.clone());
            let ghost before_stacks = *stacks;
            stacks.insert(var.clone(), stack);
            proof {
                assert(names_view(stack@) =~= Seq::<Seq<char>>::empty().push(name@));
                assert(stacks_view(*stacks).vals =~= s0.vals.push(names_view(stack@)));
            }
        },
    }
    name
}

/// The list with every name replaced by the name that currently stands for
/// it.
fn renamed_list(names: &Vec<String>, stacks: &Stacks) -> (r: Vec<String>)
    requires
        stacks.wf(),
    ensures
        names_view(r@) == current_names(stacks_view(*stacks), names_view(names@)),
{
    let mut r: Vec<String> = Vec::new();
    let mut i: usize = 0;
    while i < names.len()
        invariant
            i <= names.len(),
            stacks.wf(),
            r.len() == i,
            forall|j: int|
                0 <= j < i ==> r[j]@ == current_name_spec(stacks_view(*stacks), names[j]@),
        decreases names.len() - i,
    {
        r.push(current_name(&names[i], stacks));
        i += 1;
    }
    assert(names_view(r@) =~= current_names(stacks_view(*stacks), names_view(names@)));
    r
}

/// An instruction that is no φ, renamed; a φ comes back as it is.
pub fn rename_instr(instr: &IrInstruction, counter: &mut Counters, stacks: &mut Stacks) -> (r:
    IrInstruction)
    requires
        old(counter).wf(),
        old(stacks).wf(),
    ensures
        final(counter).wf(),
        final(stacks).wf(),
        r@ == renamed_instr(state_of(*old(counter), *old(stacks)), instr@),
        state_of(*final(counter), *final(stacks)) == state_after_instr(
            state_of(*old(counter), *old(stacks)),
            instr@,
        ),
{
    match instr {
        IrInstruction::Assign { lhs, rhs } => {
            let rhs = current_name(rhs, stacks);
            let lhs = create_new_name(lhs, counter, stacks);
            IrInstruction::Assign { lhs, rhs }
        },
        IrInstruction::Not { dest, args } => {
            let args = current_name(args, stacks);
            let dest = create_new_name(dest, counter, stacks);
            IrInstruction::Not { dest, args }
        },
        IrInstruction::Const { dest, value } => {
            let dest = create_new_name(dest, counter, stacks);
            IrInstruction::Const { dest, value: *value }
        },
        IrInstruction::Add { dest, lhs, rhs } => {
            let lhs = current_name(lhs, stacks);
            let rhs = current_name(rhs, stacks);
            let dest = create_new_name(dest, counter, stacks);
            IrInstruction::Add { dest, lhs, rhs }
        },
        IrInstruction::Mul { dest, lhs, rhs } => {
            let lhs = current_name(lhs, stacks);
            let rhs = current_name(rhs, stacks);
            let dest = create_new_name(dest, counter, stacks);
            IrInstruction::Mul { dest, lhs, rhs }
        },
        IrInstruction::Sub { dest, lhs, rhs } => {
            let lhs = current_name(lhs, stacks);
            let rhs = current_name(rhs, stacks);
            let dest = create_new_name(dest, counter, stacks);
            IrInstruction::Sub { dest, lhs, rhs }
        },
        IrInstruction::Div { dest, lhs, rhs } => {
            let lhs = current_name(lhs, stacks);
            let rhs = current_name(rhs, stacks);
            let dest = create_new_name(dest, counter, stacks);
            IrInstruction::Div { dest, lhs, rhs }
        },
        IrInstruction::Eq { dest, lhs, rhs } => {
            let lhs = current_name(lhs, stacks);
            let rhs = current_name(rhs, stacks);
            let dest = create_new_name(dest, counter, stacks);
            IrInstruction::Eq { dest, lhs, rhs }
        },
        IrInstruction::Lt { dest, lhs, rhs } => {
            let lhs = current_name(lhs, stacks);
            let rhs = current_name(rhs, stacks);
            let dest = create_new_name(dest, counter, stacks);
            IrInstruction::Lt { dest, lhs, rhs }
        },
        IrInstruction::Gt { dest, lhs, rhs } => {
            let lhs = current_name(lhs, stacks);
            let rhs = current_name(rhs, stacks);
            let dest = create_new_name(dest, counter, stacks);
            IrInstruction::Gt { dest, lhs, rhs }
        },
        IrInstruction::Ge { dest, lhs, rhs } => {
            let lhs = current_name(lhs, stacks);
            let rhs = current_name(rhs, stacks);
            let dest = create_new_name(dest, counter, stacks);
            IrInstruction::Ge { dest, lhs, rhs }
        },
        IrInstruction::Le { dest, lhs, rhs } => {
            let lhs = current_name(lhs, stacks);
            let rhs = current_name(rhs, stacks);
            let dest = create_new_name(dest, counter, stacks);
            IrInstruction::Le { dest, lhs, rhs }
        },
        IrInstruction::Or { dest, lhs, rhs } => {
            let lhs = current_name(lhs, stacks);
            let rhs = current_name(rhs, stacks);
            let dest = create_new_name(dest, counter, stacks);
            IrInstruction::Or { dest, lhs, rhs }
        },
        IrInstruction::And { dest, lhs, rhs } => {
            let lhs = current_name(lhs, stacks);
            let rhs = current_name(rhs, stacks);
            let dest = create_new_name(dest, counter, stacks);
            IrInstruction::And { dest, lhs, rhs }
        },
        IrInstruction::Call { target_func, args, dest } => {
            let args = renamed_list(args, stacks);
            let dest = match dest {
                Some(d) => Some(create_new_name(d, counter, stacks)),
                None => None,
            };
            IrInstruction::Call { target_func: target_func.clone(), args, dest }
        },
        IrInstruction::Print { values } => IrInstruction::Print {
            values: renamed_list(values, stacks),
        },
        IrInstruction::Ret { args } => IrInstruction::Ret { args: renamed_list(args, stacks) },
        IrInstruction::Br { cond, then_lbl, else_lbl } => IrInstruction::Br {
            cond: current_name(cond, stacks),
            then_lbl: then_lbl.clone(),
            else_lbl: else_lbl.clone(),
        },
        IrInstruction::Jmp { .. } => instr.clone(),
        IrInstruction::Phi { .. } => instr.clone(),
    }
}

/// A φ with its destination renamed; any other instruction comes back as it
/// is.
pub fn rename_phi_dest(instr: &IrInstruction, counter: &mut Counters, stacks: &mut Stacks) -> (r:
    IrInstruction)
    requires
        old(counter).wf(),
        old(stacks).wf(),
    ensures
        final(counter).wf(),
        final(stacks).wf(),
        r@ == renamed_phi(state_of(*old(counter), *old(stacks)), instr@),
        state_of(*final(counter), *final(stacks)) == state_after_phi(
            state_of(*old(counter), *old(stacks)),
            instr@,
        ),
{
    match instr {
        IrInstruction::Phi { dest, sources } => {
            let renamed = create_new_name(dest, counter, stacks);
            let copy = instr.clone();
            match copy {
                IrInstruction::Phi { dest: _, sources } => IrInstruction::Phi {
                    dest: renamed,
                    sources,
                },
                other => other,
            }
        },
        _ => instr.clone(),
    }
}

} // verus!

