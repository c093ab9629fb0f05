//! What a use names after renaming: within a block, the name issued for the
//! latest definition before it.

use crate::ir::InstrView;
use crate::rename::{
    current_name_spec, current_names, issued_name, renamed_instr, renamed_phi, state_after_instr,
    state_after_phi, RenameState,
};
use crate::walk::{body_renamed, phis_renamed};
use vstd::prelude::*;

verus! {

/// Renaming an instruction that is no φ replaces every use by the name that
/// currently stands for it, and the definition by the name issued for it.
pub proof fn lemma_renamed_uses(st: RenameState, instr: InstrView)
    requires
        !(instr is Phi),
    ensures
        renamed_instr(st, instr).uses() == current_names(st.stacks, instr.uses()),
        renamed_instr(st, instr).def() == match instr.def() {
            Some(d) => Some(issued_name(st.counter, d)),
            None => None,
        },
{
    assert(renamed_instr(st, instr).uses() =~= current_names(st.stacks, instr.uses()));
}

/// What stands at place `k` after the first `upto` instructions have been
/// renamed is instruction `k` renamed in the state that the instructions
/// before it left.
pub proof fn lemma_body_at(st: RenameState, instrs: Seq<InstrView>, upto: int, k: int)
    requires
        0 <= k < upto <= instrs.len(),
    ensures
        body_renamed(st, instrs, upto).1.len() == instrs.len(),
        body_renamed(st, instrs, upto).1[k] == renamed_instr(body_renamed(st, instrs, k).0, instrs[k]),
    decreases upto,
{
    lemma_body_len(st, instrs, upto - 1);
    if k < upto - 1 {
        lemma_body_at(st, instrs, upto - 1, k);
    }
}

/// Renaming keeps the number of instructions.
pub proof fn lemma_body_len(st: RenameState, instrs: Seq<InstrView>, upto: int)
    requires
        0 <= upto <= instrs.len(),
    ensures
        body_renamed(st, instrs, upto).1.len() == instrs.len(),
    decreases upto,
{
    if upto > 0 {
        lemma_body_len(st, instrs, upto - 1);
    }
}

/// Renaming keeps the stacks well formed.
proof fn lemma_body_stacks(st: RenameState, instrs: Seq<InstrView>, upto: int)
    requires
        st.stacks.wf(),
        0 <= upto <= instrs.len(),
    ensures
        body_renamed(st, instrs, upto).0.stacks.wf(),
    decreases upto,
{
    if upto > 0 {
        lemma_body_stacks(st, instrs, upto - 1);
        let s1 = body_renamed(st, instrs, upto - 1).0;
        let instr = instrs[upto - 1];
        if !(instr is Phi) {
            match instr.def() {
                Some(d) => {
                    let stack = if s1.stacks.contains(d) {
                        s1.stacks.get(d)
                    } else {
                        Seq::empty()
                    };
                    s1.stacks.lemma_put_wf(d, stack.push(issued_name(s1.counter, d)));
                },
                None => {},
            }
        }
    }
}

/// From a definition of `v` up to the next one, the name issued for it is
/// the name that stands for `v`.
proof fn lemma_current_kept(st: RenameState, instrs: Seq<InstrView>, i: int, j: int, v: Seq<char>)
    requires
        st.stacks.wf(),
        0 <= i < j <= instrs.len(),
        !(instrs[i] is Phi),
        instrs[i].def() == Some(v),
        forall|k: int| i < k < j && !(instrs[k] is Phi) ==> (#[trigger] instrs[k]).def() != Some(v),
    ensures
        current_name_spec(body_renamed(st, instrs, j).0.stacks, v) == issued_name(
            body_renamed(st, instrs, i).0.counter,
            v,
        ),
    decreases j,
{
    lemma_body_stacks(st, instrs, j - 1);
    let s1 = body_renamed(st, instrs, j - 1).0;
    let instr = instrs[j - 1];
    assert(body_renamed(st, instrs, j).0 == state_after_instr(s1, instr));
    if j == i + 1 {
        let stack = if s1.stacks.contains(v) {
            s1.stacks.get(v)
        } else {
            Seq::empty()
        };
        s1.stacks.lemma_put_wf(v, stack.push(issued_name(s1.counter, v)));
    } else {
        lemma_current_kept(st, instrs, i, j - 1, v);
        if !(instr is Phi) {
            match instr.def() {
                Some(d) => {
                    let stack = if s1.stacks.contains(d) {
                        s1.stacks.get(d)
                    } else {
                        Seq::empty()
                    };
                    s1.stacks.lemma_put_wf(d, stack.push(issued_name(s1.counter, d)));
                    assert(d != v);
                },
                None => {},
            }
        }
    }
}

/// Within a block, a use names the latest definition before it: where
/// instruction `i` defines a name, instruction `j` behind it reads that name,
/// and no instruction between them defines it again, the renamed instruction
/// `j` reads the name that the renamed instruction `i` defines.
pub proof fn lemma_use_names_latest_definition(
    st: RenameState,
    instrs: Seq<InstrView>,
    i: int,
    j: int,
    u: int,
)
    requires
        st.stacks.wf(),
        0 <= i < j < instrs.len(),
        !(instrs[i] is Phi),
        !(instrs[j] is Phi),
        instrs[i].def() is Some,
        0 <= u < instrs[j].uses().len(),
        instrs[j].uses()[u] == instrs[i].def()->0,
        forall|k: int| i < k < j && !(instrs[k] is Phi) ==> (#[trigger] instrs[k]).def() != instrs[i].def(),
    ensures
        ({
            let out = body_renamed(st, instrs, instrs.len() as int).1;
            &&& out.len() == instrs.len()
            &&& out[j].uses().len() == instrs[j].uses().len()
            &&& out[i].def() == Some(out[j].uses()[u])
        }),
{
    let n = instrs.len() as int;
    let v = instrs[i].def()->0;
    lemma_body_at(st, instrs, n, i);
    lemma_body_at(st, instrs, n, j);
    let si = body_renamed(st, instrs, i).0;
    let sj = body_renamed(st, instrs, j).0;
    lemma_renamed_uses(si, instrs[i]);
    lemma_renamed_uses(sj, instrs[j]);
    lemma_current_kept(st, instrs, i, j, v);
}

/// As long as no instruction defines `v`, the name that stands for it stays.
proof fn lemma_current_from_entry(st: RenameState, instrs: Seq<InstrView>, j: int, v: Seq<char>)
    requires
        st.stacks.wf(),
        0 <= j <= instrs.len(),
        forall|k: int| 0 <= k < j && !(instrs[k] is Phi) ==> (#[trigger] instrs[k]).def() != Some(v),
    ensures
        current_name_spec(body_renamed(st, instrs, j).0.stacks, v) == current_name_spec(st.stacks, v),
    decreases j,
{
    if j > 0 {
        lemma_current_from_entry(st, instrs, j - 1, v);
        lemma_body_stacks(st, instrs, j - 1);
        let s1 = body_renamed(st, instrs, j - 1).0;
        let instr = instrs[j - 1];
        assert(body_renamed(st, instrs, j).0 == state_after_instr(s1, instr));
        if !(instr is Phi) {
            match instr.def() {
                Some(d) => {
                    let stack = if s1.stacks.contains(d) {
                        s1.stacks.get(d)
                    } else {
                        Seq::empty()
                    };
                    s1.stacks.lemma_put_wf(d, stack.push(issued_name(s1.counter, d)));
                    assert(d != v);
                },
                None => {},
            }
        }
    }
}

/// A use with no definition before it in its block names what stood for the
/// name when the block was entered: where no instruction before `j` defines
/// the name that instruction `j` reads, the renamed instruction `j` reads
/// the name that stood for it before the first instruction was renamed.
pub proof fn lemma_use_names_entry(st: RenameState, instrs: Seq<InstrView>, j: int, u: int)
    requires
        st.stacks.wf(),
        0 <= j < instrs.len(),
        !(instrs[j] is Phi),
        0 <= u < instrs[j].uses().len(),
        forall|k: int|
            0 <= k < j && !(instrs[k] is Phi) ==> (#[trigger] instrs[k]).def() != Some(
                instrs[j].uses()[u],
            ),
    ensures
        ({
            let out = body_renamed(st, instrs, instrs.len() as int).1;
            &&& out.len() == instrs.len()
            &&& out[j].uses().len() == instrs[j].uses().len()
            &&& out[j].uses()[u] == current_name_spec(st.stacks, instrs[j].uses()[u])
        }),
{
    let n = instrs.len() as int;
    lemma_body_at(st, instrs, n, j);
    lemma_renamed_uses(body_renamed(st, instrs, j).0, instrs[j]);
    lemma_current_from_entry(st, instrs, j, instrs[j].uses()[u]);
}

/// Renaming the φs keeps the stacks well formed and the number of
/// instructions, and puts at the place of each φ the φ with its destination
/// renamed in the state that the φs before it left.
pub proof fn lemma_phis_at(st: RenameState, instrs: Seq<InstrView>, upto: int, k: int)
    requires
        st.stacks.wf(),
        0 <= k < upto <= instrs.len(),
    ensures
        phis_renamed(st, instrs, upto).1.len() == instrs.len(),
        phis_renamed(st, instrs, upto).1[k] == renamed_phi(phis_renamed(st, instrs, k).0, instrs[k]),
    decreases upto,
{
    lemma_phis_stacks(st, instrs, upto - 1);
    if k < upto - 1 {
        lemma_phis_at(st, instrs, upto - 1, k);
    }
}

proof fn lemma_phis_stacks(st: RenameState, instrs: Seq<InstrView>, upto: int)
    requires
        st.stacks.wf(),
        0 <= upto <= instrs.len(),
    ensures
        phis_renamed(st, instrs, upto).0.stacks.wf(),
        phis_renamed(st, instrs, upto).1.len() == instrs.len(),
    decreases upto,
{
    if upto > 0 {
        lemma_phis_stacks(st, instrs, upto - 1);
        let s1 = phis_renamed(st, instrs, upto - 1).0;
        let instr = instrs[upto - 1];
        if instr is Phi {
            let d = instr->Phi_dest;
            let stack = if s1.stacks.contains(d) {
                s1.stacks.get(d)
            } else {
                Seq::empty()
            };
            s1.stacks.lemma_put_wf(d, stack.push(issued_name(s1.counter, d)));
        }
    }
}

/// Behind the φs of a block, the name that a φ defines is the name that
/// stands for the name it was placed for: where instruction `p` is a φ for
/// `v` and no φ behind it is one for `v` too, the name that stands for `v`
/// once the φs are renamed is the destination of the renamed φ.
pub proof fn lemma_phi_names_its_name(st: RenameState, instrs: Seq<InstrView>, p: int, upto: int)
    requires
        st.stacks.wf(),
        0 <= p < upto <= instrs.len(),
        instrs[p] is Phi,
        forall|k: int|
            p < k < upto && (#[trigger] instrs[k]) is Phi ==> instrs[k]->Phi_dest != instrs[p]->Phi_dest,
    ensures
        phis_renamed(st, instrs, upto).1[p] is Phi,
        current_name_spec(phis_renamed(st, instrs, upto).0.stacks, instrs[p]->Phi_dest)
            == phis_renamed(st, instrs, upto).1[p]->Phi_dest,
    decreases upto,
{
    let v = instrs[p]->Phi_dest;
    lemma_phis_at(st, instrs, upto, p);
    lemma_phis_stacks(st, instrs, upto - 1);
    let s1 = phis_renamed(st, instrs, upto - 1).0;
    let instr = instrs[upto - 1];
    assert(phis_renamed(st, instrs, upto).0 == state_after_phi(s1, instr));
    if p == upto - 1 {
        let stack = if s1.stacks.contains(v) {
            s1.stacks.get(v)
        } else {
            Seq::empty()
        };
        s1.stacks.lemma_put_wf(v, stack.push(issued_name(s1.counter, v)));
    } else {
        lemma_phi_names_its_name(st, instrs, p, upto - 1);
        lemma_phis_at(st, instrs, upto - 1, p);
        if instr is Phi {
            let d = instr->Phi_dest;
            let stack = if s1.stacks.contains(d) {
                s1.stacks.get(d)
            } else {
                Seq::empty()
            };
            s1.stacks.lemma_put_wf(d, stack.push(issued_name(s1.counter, d)));
            assert(d != v);
        }
    }
}

} // verus!
