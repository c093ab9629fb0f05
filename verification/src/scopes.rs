//! The stack discipline of renaming: what a block pushes while it is
//! renamed is taken off again when the walk leaves it, and every counter
//! counts the definitions of its name.

use crate::frontier::{below, layered, lemma_level_of, level_of};
use crate::function::BlockView;
use crate::ir::InstrView;
use crate::names::AssocView;
use crate::reaching::lemma_body_len;
use crate::rename::{
    bump_counter, issued_name, next_count, state_after_instr, state_after_phi, RenameState,
};
use crate::single_assignment::{
    lemma_defs_of_update, lemma_filled, lemma_same_frame_trans, lemma_walkable_frame, row_of,
    same_frame, visited, visited_children, walkable, DefTable,
};
use crate::walk::{
    body_renamed, defs_of, phis_renamed, popped, succs_filled, walk_block, walk_children, Walk,
};
use vstd::prelude::*;

verus! {

/// The stacks of the walk.
pub type StackView = AssocView<Seq<Seq<char>>>;

/// How many of the first `upto` instructions define `v`, among the φs or
/// among the others.
pub open spec fn defs_count(instrs: Seq<InstrView>, v: Seq<char>, upto: int, phis: bool) -> nat
    decreases upto,
{
    if upto <= 0 {
        0
    } else {
        defs_count(instrs, v, upto - 1, phis) + if (instrs[upto - 1] is Phi) == phis && instrs[upto
            - 1].def() == Some(v) {
            1nat
        } else {
            0nat
        }
    }
}

/// How many of the first `upto` entries of a row name `v`.
pub open spec fn row_count(row: Seq<Option<Seq<char>>>, v: Seq<char>, upto: int) -> nat
    decreases upto,
{
    if upto <= 0 {
        0
    } else {
        row_count(row, v, upto - 1) + if row[upto - 1] == Some(v) {
            1nat
        } else {
            0nat
        }
    }
}

/// A row counts the φs and the other instructions together.
proof fn lemma_row_count(instrs: Seq<InstrView>, v: Seq<char>, upto: int)
    requires
        0 <= upto <= instrs.len(),
    ensures
        row_count(row_of(instrs), v, upto) == defs_count(instrs, v, upto, true) + defs_count(
            instrs,
            v,
            upto,
            false,
        ),
    decreases upto,
{
    if upto > 0 {
        lemma_row_count(instrs, v, upto - 1);
    }
}

/// The stack of `v` in `b` is its stack in `a` with `by` names put on top.
pub open spec fn grown(a: StackView, b: StackView, v: Seq<char>, by: nat) -> bool {
    &&& b.get(v).len() == a.get(v).len() + by
    &&& b.get(v).take(a.get(v).len() as int) == a.get(v)
}

/// Every name that the instructions define has a stack.
pub open spec fn defs_have_stacks(stacks: StackView, instrs: Seq<InstrView>) -> bool {
    forall|i: int|
        0 <= i < instrs.len() && (#[trigger] instrs[i]).def() is Some ==> stacks.contains(
            instrs[i].def()->0,
        )
}

/// Every name that an instruction other than a φ defines has a stack.
pub open spec fn body_defs_have_stacks(stacks: StackView, instrs: Seq<InstrView>) -> bool {
    forall|i: int|
        0 <= i < instrs.len() && !((#[trigger] instrs[i]) is Phi) && instrs[i].def() is Some
            ==> stacks.contains(instrs[i].def()->0)
}

/// Issuing a name for `d` puts one name on the stack of `d` and leaves the
/// other stacks alone.
proof fn lemma_push(s: StackView, d: Seq<char>, name: Seq<char>)
    requires
        s.wf(),
        s.contains(d),
    ensures
        crate::rename::push_name(s, d, name).wf(),
        crate::rename::push_name(s, d, name).keys == s.keys,
        crate::rename::push_name(s, d, name).get(d) == s.get(d).push(name),
        forall|v: Seq<char>|
            v != d && s.contains(v) ==> crate::rename::push_name(s, d, name).get(v) == s.get(v),
{
    s.lemma_put_wf(d, s.get(d).push(name));
}

/// Renaming the destinations of the φs puts one name on a stack for each φ
/// that defines its name.
proof fn lemma_phis_grow(st: RenameState, instrs: Seq<InstrView>, upto: int)
    requires
        st.stacks.wf(),
        0 <= upto <= instrs.len(),
        defs_have_stacks(st.stacks, instrs),
    ensures
        phis_renamed(st, instrs, upto).0.stacks.wf(),
        phis_renamed(st, instrs, upto).0.stacks.keys == st.stacks.keys,
        forall|v: Seq<char>|
            st.stacks.contains(v) ==> grown(
                st.stacks,
                phis_renamed(st, instrs, upto).0.stacks,
                v,
                defs_count(instrs, v, upto, true),
            ),
    decreases upto,
{
    if upto <= 0 {
        assert forall|v: Seq<char>| st.stacks.contains(v) implies grown(st.stacks, st.stacks, v, 0) by {
            assert(st.stacks.get(v).take(st.stacks.get(v).len() as int) =~= st.stacks.get(v));
        }
    } else {
        lemma_phis_grow(st, instrs, upto - 1);
        let s1 = phis_renamed(st, instrs, upto - 1).0;
        let s2 = phis_renamed(st, instrs, upto).0;
        let instr = instrs[upto - 1];
        assert(s2 == state_after_phi(s1, instr));
        if instr is Phi {
            let d = instr->Phi_dest;
            assert(instr.def() == Some(d));
            assert(st.stacks.contains(d));
            let name = issued_name(s1.counter, d);
            lemma_push(s1.stacks, d, name);
            assert forall|v: Seq<char>| st.stacks.contains(v) implies grown(
                st.stacks,
                s2.stacks,
                v,
                defs_count(instrs, v, upto, true),
            ) by {
                assert(grown(st.stacks, s1.stacks, v, defs_count(instrs, v, upto - 1, true)));
                if v == d {
                    assert(s1.stacks.get(v).push(name).take(st.stacks.get(v).len() as int)
                        =~= s1.stacks.get(v).take(st.stacks.get(v).len() as int));
                }
            }
        } else {
            assert forall|v: Seq<char>| st.stacks.contains(v) implies grown(
                st.stacks,
                s2.stacks,
                v,
                defs_count(instrs, v, upto, true),
            ) by {
                assert(grown(st.stacks, s1.stacks, v, defs_count(instrs, v, upto - 1, true)));
            }
        }
    }
}

/// Renaming the instructions that are no φ puts one name on a stack for each
/// of them that defines its name.
proof fn lemma_body_grow(st: RenameState, instrs: Seq<InstrView>, upto: int)
    requires
        st.stacks.wf(),
        0 <= upto <= instrs.len(),
        body_defs_have_stacks(st.stacks, instrs),
    ensures
        body_renamed(st, instrs, upto).0.stacks.wf(),
        body_renamed(st, instrs, upto).0.stacks.keys == st.stacks.keys,
        forall|v: Seq<char>|
            st.stacks.contains(v) ==> grown(
                st.stacks,
                body_renamed(st, instrs, upto).0.stacks,
                v,
                defs_count(instrs, v, upto, false),
            ),
    decreases upto,
{
    if upto <= 0 {
        assert forall|v: Seq<char>| st.stacks.contains(v) implies grown(st.stacks, st.stacks, v, 0) by {
            assert(st.stacks.get(v).take(st.stacks.get(v).len() as int) =~= st.stacks.get(v));
        }
    } else {
        lemma_body_grow(st, instrs, upto - 1);
        let s1 = body_renamed(st, instrs, upto - 1).0;
        let s2 = body_renamed(st, instrs, upto).0;
        let instr = instrs[upto - 1];
        assert(s2 == state_after_instr(s1, instr));
        if !(instr is Phi) && instr.def() is Some {
            let d = instr.def()->0;
            assert(st.stacks.contains(d));
            let name = issued_name(s1.counter, d);
            lemma_push(s1.stacks, d, name);
            assert forall|v: Seq<char>| st.stacks.contains(v) implies grown(
                st.stacks,
                s2.stacks,
                v,
                defs_count(instrs, v, upto, false),
            ) by {
                assert(grown(st.stacks, s1.stacks, v, defs_count(instrs, v, upto - 1, false)));
                if v == d {
                    assert(s1.stacks.get(v).push(name).take(st.stacks.get(v).len() as int)
                        =~= s1.stacks.get(v).take(st.stacks.get(v).len() as int));
                }
            }
        } else {
            assert forall|v: Seq<char>| st.stacks.contains(v) implies grown(
                st.stacks,
                s2.stacks,
                v,
                defs_count(instrs, v, upto, false),
            ) by {
                assert(grown(st.stacks, s1.stacks, v, defs_count(instrs, v, upto - 1, false)));
            }
        }
    }
}

/// Leaving a block takes one name off a stack for each entry of the row
/// that names it, as far as the stack holds that many.
proof fn lemma_popped(s: StackView, row: Seq<Option<Seq<char>>>, upto: int)
    requires
        s.wf(),
        0 <= upto <= row.len(),
    ensures
        popped(s, row, upto).wf(),
        popped(s, row, upto).keys == s.keys,
        forall|v: Seq<char>|
            s.contains(v) && s.get(v).len() >= row_count(row, v, upto) ==> popped(s, row, upto).get(
                v,
            ) == s.get(v).take(s.get(v).len() - row_count(row, v, upto)),
    decreases upto,
{
    if upto <= 0 {
        assert forall|v: Seq<char>| s.contains(v) implies s.get(v) == s.get(v).take(
            s.get(v).len() as int,
        ) by {
            assert(s.get(v).take(s.get(v).len() as int) =~= s.get(v));
        }
    } else {
        lemma_popped(s, row, upto - 1);
        let s1 = popped(s, row, upto - 1);
        let s2 = popped(s, row, upto);
        match row[upto - 1] {
            Some(w) => {
                if s1.contains(w) && s1.get(w).len() > 0 {
                    s1.lemma_put_wf(w, s1.get(w).drop_last());
                    assert(s2 == s1.put(w, s1.get(w).drop_last()));
                    assert forall|v: Seq<char>|
                        s.contains(v) && s.get(v).len() >= row_count(row, v, upto) implies s2.get(v)
                        == s.get(v).take(s.get(v).len() - row_count(row, v, upto)) by {
                        if v == w {
                            let full = s.get(v);
                            let k = full.len() - row_count(row, v, upto - 1);
                            assert(s1.get(v) == full.take(k));
                            assert(full.take(k).drop_last() =~= full.take(k - 1));
                        }
                    }
                } else {
                    assert(s2 == s1);
                    assert forall|v: Seq<char>|
                        s.contains(v) && s.get(v).len() >= row_count(row, v, upto) implies s2.get(v)
                        == s.get(v).take(s.get(v).len() - row_count(row, v, upto)) by {
                        if v == w {
                            assert(s1.contains(w));
                        }
                    }
                }
            },
            None => {},
        }
    }
}

/// Renaming the φs leaves the other instructions as they are, and φs φs.
pub proof fn lemma_phis_keep_body(st: RenameState, instrs: Seq<InstrView>, upto: int)
    requires
        0 <= upto <= instrs.len(),
    ensures
        phis_renamed(st, instrs, upto).1.len() == instrs.len(),
        forall|k: int|
            0 <= k < instrs.len() ==> ((#[trigger] phis_renamed(st, instrs, upto).1[k]) is Phi
                <==> instrs[k] is Phi),
        forall|k: int|
            0 <= k < instrs.len() && !(instrs[k] is Phi) ==> #[trigger] phis_renamed(
                st,
                instrs,
                upto,
            ).1[k] == instrs[k],
    decreases upto,
{
    if upto > 0 {
        lemma_phis_keep_body(st, instrs, upto - 1);
    }
}

/// Two lists that agree on the instructions that are no φ count the same
/// definitions among them.
proof fn lemma_same_body_count(a: Seq<InstrView>, b: Seq<InstrView>, v: Seq<char>, upto: int)
    requires
        a.len() == b.len(),
        0 <= upto <= a.len(),
        forall|k: int| 0 <= k < a.len() ==> ((#[trigger] b[k]) is Phi <==> a[k] is Phi),
        forall|k: int| 0 <= k < a.len() && !(a[k] is Phi) ==> #[trigger] b[k] == a[k],
    ensures
        defs_count(a, v, upto, false) == defs_count(b, v, upto, false),
    decreases upto,
{
    if upto > 0 {
        lemma_same_body_count(a, b, v, upto - 1);
        assert((b[upto - 1] is Phi) == (a[upto - 1] is Phi));
        if !(a[upto - 1] is Phi) {
            assert(b[upto - 1] == a[upto - 1]);
        }
    }
}

/// The stacks after a block has been renamed, with one name taken off for
/// every definition of the block, are the stacks from before: where every
/// name that the block defines has a stack, renaming the block and leaving
/// it restores them all.
pub proof fn lemma_block_restores(st: RenameState, instrs: Seq<InstrView>)
    requires
        st.stacks.wf(),
        defs_have_stacks(st.stacks, instrs),
    ensures
        ({
            let len = instrs.len() as int;
            let (st1, instrs1) = phis_renamed(st, instrs, len);
            let (st2, instrs2) = body_renamed(st1, instrs1, len);
            &&& st2.stacks.wf()
            &&& st2.stacks.keys == st.stacks.keys
            &&& popped(st2.stacks, row_of(instrs), len) == st.stacks
        }),
{
    let len = instrs.len() as int;
    let (st1, instrs1) = phis_renamed(st, instrs, len);
    let (st2, instrs2) = body_renamed(st1, instrs1, len);
    let row = row_of(instrs);
    lemma_phis_grow(st, instrs, len);
    lemma_phis_keep_body(st, instrs, len);
    assert(body_defs_have_stacks(st1.stacks, instrs1)) by {
        assert forall|i: int|
            0 <= i < instrs1.len() && !((#[trigger] instrs1[i]) is Phi) && instrs1[i].def() is Some implies st1.stacks.contains(
            instrs1[i].def()->0,
        ) by {
            assert(instrs1[i] == instrs[i]);
            assert(st.stacks.contains(instrs[i].def()->0));
        }
    }
    lemma_body_grow(st1, instrs1, len);
    lemma_popped(st2.stacks, row, len);
    let out = popped(st2.stacks, row, len);
    assert forall|j: int| 0 <= j < st.stacks.keys.len() implies out.vals[j] == st.stacks.vals[j] by {
        let v = st.stacks.keys[j];
        assert(st.stacks.contains(v));
        assert(st.stacks.position(v) == j);
        assert(out.position(v) == j);
        assert(st1.stacks.contains(v));
        lemma_row_count(instrs, v, len);
        lemma_same_body_count(instrs, instrs1, v, len);
        let a = defs_count(instrs, v, len, true);
        let b = defs_count(instrs1, v, len, false);
        assert(grown(st.stacks, st1.stacks, v, a));
        assert(grown(st1.stacks, st2.stacks, v, b));
        let s0 = st.stacks.get(v);
        let s1 = st1.stacks.get(v);
        let s2 = st2.stacks.get(v);
        assert(s2.take(s0.len() as int) =~= s2.take(s1.len() as int).take(s0.len() as int));
        assert(st2.stacks.contains(v));
        assert(row_count(row, v, len) == a + b);
        assert(s2.len() == s0.len() + a + b);
        assert(out.get(v) == s2.take(s2.len() - row_count(row, v, len)));
    }
    assert(out.vals =~= st.stacks.vals);
}

/// The number that the counters hold for `v`: zero where they hold none.
pub open spec fn count_of(counter: AssocView<usize>, v: Seq<char>) -> nat {
    if counter.contains(v) {
        counter.get(v) as nat
    } else {
        0
    }
}

/// A count that stops at the largest machine number.
pub open spec fn capped(n: nat) -> nat {
    if n <= usize::MAX {
        n
    } else {
        usize::MAX as nat
    }
}

/// How many definitions of `v` the walk from block `b` renames, by the
/// table.
pub open spec fn subtree_count(tree: Seq<Seq<usize>>, orig: DefTable, v: Seq<char>, b: usize) -> nat
    decreases level_of(tree)[b as int], 1int, 0int,
{
    if b >= tree.len() {
        0
    } else {
        row_count(orig[b as int], v, orig[b as int].len() as int) + children_count(
            tree,
            orig,
            v,
            b,
            tree[b as int].len() as int,
        )
    }
}

/// How many definitions of `v` the walks from the first `upto` children of
/// block `b` rename, by the table.
pub open spec fn children_count(
    tree: Seq<Seq<usize>>,
    orig: DefTable,
    v: Seq<char>,
    b: usize,
    upto: int,
) -> nat
    decreases level_of(tree)[b as int], 0int, upto,
{
    if upto <= 0 || b >= tree.len() {
        0
    } else {
        let c = tree[b as int][upto - 1];
        children_count(tree, orig, v, b, upto - 1) + if below(tree, b, c) {
            subtree_count(tree, orig, v, c)
        } else {
            0nat
        }
    }
}

/// Issuing a name for `d` moves its counter on by one, as far as the largest
/// machine number, and leaves the other counters alone.
proof fn lemma_bump(counter: AssocView<usize>, d: Seq<char>)
    requires
        counter.wf(),
    ensures
        bump_counter(counter, d).wf(),
        count_of(bump_counter(counter, d), d) == capped(count_of(counter, d) + 1),
        forall|v: Seq<char>| v != d ==> count_of(bump_counter(counter, d), v) == count_of(counter, v),
{
    counter.lemma_put_wf(d, next_count(counter, d));
}

/// Renaming the destinations of the φs moves the counter of every name on
/// by the number of φs that define it.
proof fn lemma_phis_count(st: RenameState, instrs: Seq<InstrView>, upto: int)
    requires
        st.counter.wf(),
        0 <= upto <= instrs.len(),
    ensures
        phis_renamed(st, instrs, upto).0.counter.wf(),
        forall|v: Seq<char>|
            count_of(phis_renamed(st, instrs, upto).0.counter, v) == capped(
                count_of(st.counter, v) + defs_count(instrs, v, upto, true),
            ),
    decreases upto,
{
    if upto > 0 {
        lemma_phis_count(st, instrs, upto - 1);
        let s1 = phis_renamed(st, instrs, upto - 1).0;
        let s2 = phis_renamed(st, instrs, upto).0;
        let instr = instrs[upto - 1];
        assert(s2 == state_after_phi(s1, instr));
        if instr is Phi {
            let d = instr->Phi_dest;
            assert(instr.def() == Some(d));
            lemma_bump(s1.counter, d);
        }
        assert forall|v: Seq<char>|
            count_of(s2.counter, v) == capped(
                count_of(st.counter, v) + defs_count(instrs, v, upto, true),
            ) by {
            assert(count_of(s1.counter, v) == capped(
                count_of(st.counter, v) + defs_count(instrs, v, upto - 1, true),
            ));
        }
    }
}

/// Renaming the instructions that are no φ moves the counter of every name
/// on by the number of them that define it.
proof fn lemma_body_count(st: RenameState, instrs: Seq<InstrView>, upto: int)
    requires
        st.counter.wf(),
        0 <= upto <= instrs.len(),
    ensures
        body_renamed(st, instrs, upto).0.counter.wf(),
        forall|v: Seq<char>|
            count_of(body_renamed(st, instrs, upto).0.counter, v) == capped(
                count_of(st.counter, v) + defs_count(instrs, v, upto, false),
            ),
    decreases upto,
{
    if upto > 0 {
        lemma_body_count(st, instrs, upto - 1);
        let s1 = body_renamed(st, instrs, upto - 1).0;
        let s2 = body_renamed(st, instrs, upto).0;
        let instr = instrs[upto - 1];
        assert(s2 == state_after_instr(s1, instr));
        if !(instr is Phi) && instr.def() is Some {
            lemma_bump(s1.counter, instr.def()->0);
        }
        assert forall|v: Seq<char>|
            count_of(s2.counter, v) == capped(
                count_of(st.counter, v) + defs_count(instrs, v, upto, false),
            ) by {
            assert(count_of(s1.counter, v) == capped(
                count_of(st.counter, v) + defs_count(instrs, v, upto - 1, false),
            ));
        }
    }
}

/// Renaming a block moves the counter of every name on by the number of
/// definitions of it in the block, as far as the largest machine number.
pub proof fn lemma_block_counts(st: RenameState, instrs: Seq<InstrView>)
    requires
        st.counter.wf(),
    ensures
        ({
            let len = instrs.len() as int;
            let (st1, instrs1) = phis_renamed(st, instrs, len);
            let (st2, instrs2) = body_renamed(st1, instrs1, len);
            &&& st2.counter.wf()
            &&& forall|v: Seq<char>|
                count_of(st2.counter, v) == capped(
                    count_of(st.counter, v) + row_count(row_of(instrs), v, len),
                )
        }),
{
    let len = instrs.len() as int;
    let (st1, instrs1) = phis_renamed(st, instrs, len);
    let (st2, instrs2) = body_renamed(st1, instrs1, len);
    lemma_phis_count(st, instrs, len);
    lemma_phis_keep_body(st, instrs, len);
    lemma_body_count(st1, instrs1, len);
    assert forall|v: Seq<char>|
        count_of(st2.counter, v) == capped(
            count_of(st.counter, v) + row_count(row_of(instrs), v, len),
        ) by {
        lemma_row_count(instrs, v, len);
        lemma_same_body_count(instrs, instrs1, v, len);
        assert(count_of(st1.counter, v) == capped(
            count_of(st.counter, v) + defs_count(instrs, v, len, true),
        ));
    }
}

/// No block is listed as a child twice.
pub open spec fn single_parent(tree: Seq<Seq<usize>>) -> bool {
    forall|p: int, i: int, q: int, j: int|
        0 <= p < tree.len() && 0 <= i < tree[p].len() && 0 <= q < tree.len() && 0 <= j
            < tree[q].len() && #[trigger] tree[p][i] == #[trigger] tree[q][j] ==> p == q && i == j
}

/// Every name of the row has a stack.
pub open spec fn row_has_stacks(stacks: StackView, row: Seq<Option<Seq<char>>>) -> bool {
    forall|i: int| 0 <= i < row.len() && (#[trigger] row[i]) is Some ==> stacks.contains(row[i]->0)
}

/// The blocks of the set define in `g` what the table says, and every name
/// that they define has a stack.
pub open spec fn untouched(g: Seq<BlockView>, orig: DefTable, stacks: StackView, blocks: Set<int>) -> bool {
    forall|c: int| #[trigger]
        blocks.contains(c) ==> 0 <= c < g.len() && c < orig.len() && orig[c] == defs_of(g)[c]
            && row_has_stacks(stacks, orig[c])
}

/// What the walk from a block renames lies in the tree, no higher than the
/// block.
pub proof fn lemma_visited_level(tree: Seq<Seq<usize>>, b: usize, x: int)
    requires
        layered(tree),
        visited(tree, b).contains(x),
    ensures
        b < tree.len(),
        0 <= x < tree.len(),
        level_of(tree)[x] <= level_of(tree)[b as int],
    decreases level_of(tree)[b as int], 1int, 0int,
{
    if x != b {
        lemma_children_level(tree, b, tree[b as int].len() as int, x);
    }
}

/// What the walks from the children of a block rename lies in the tree,
/// below the block, and is renamed by the walk from one of the children.
pub proof fn lemma_children_level(tree: Seq<Seq<usize>>, b: usize, upto: int, x: int) -> (i: int)
    requires
        layered(tree),
        b < tree.len(),
        0 <= upto <= tree[b as int].len(),
        visited_children(tree, b, upto).contains(x),
    ensures
        0 <= i < upto,
        below(tree, b, tree[b as int][i]),
        visited(tree, tree[b as int][i]).contains(x),
        0 <= x < tree.len(),
        level_of(tree)[x] < level_of(tree)[b as int],
    decreases level_of(tree)[b as int], 0int, upto,
{
    lemma_level_of(tree);
    let c = tree[b as int][upto - 1];
    if below(tree, b, c) && visited(tree, c).contains(x) {
        lemma_visited_level(tree, c, x);
        upto - 1
    } else {
        lemma_children_level(tree, b, upto - 1, x)
    }
}

/// What the walk from a child renames, the walks from the children rename.
pub proof fn lemma_child_inside(tree: Seq<Seq<usize>>, b: usize, upto: int, i: int, x: int)
    requires
        layered(tree),
        b < tree.len(),
        0 <= i < upto <= tree[b as int].len(),
        visited(tree, tree[b as int][i]).contains(x),
    ensures
        visited_children(tree, b, upto).contains(x),
        upto == tree[b as int].len() ==> visited(tree, b).contains(x),
    decreases upto,
{
    lemma_level_of(tree);
    assert(below(tree, b, tree[b as int][upto - 1]));
    if i < upto - 1 {
        lemma_child_inside(tree, b, upto - 1, i, x);
    }
}

/// The parent of a block that a walk renames below its start is renamed by
/// that walk too.
pub proof fn lemma_parent_inside(tree: Seq<Seq<usize>>, r: usize, p: int, i: int)
    requires
        layered(tree),
        single_parent(tree),
        0 <= p < tree.len(),
        0 <= i < tree[p].len(),
        visited(tree, r).contains(tree[p][i] as int),
        tree[p][i] != r,
    ensures
        visited(tree, r).contains(p),
    decreases level_of(tree)[r as int],
{
    let y = tree[p][i];
    let k = lemma_children_level(tree, r, tree[r as int].len() as int, y as int);
    let e = tree[r as int][k];
    if y == e {
        assert(tree[p][i] == tree[r as int][k]);
        assert(p == r);
    } else {
        lemma_parent_inside(tree, e, p, i);
        lemma_child_inside(tree, r, tree[r as int].len() as int, k, p);
    }
}

/// Of two blocks whose walks rename a common block, one is renamed by the
/// walk from the other.
pub proof fn lemma_in_line(tree: Seq<Seq<usize>>, a: usize, c: usize, x: int)
    requires
        layered(tree),
        single_parent(tree),
        visited(tree, a).contains(x),
        visited(tree, c).contains(x),
    ensures
        visited(tree, a).contains(c as int) || visited(tree, c).contains(a as int),
    decreases level_of(tree)[a as int] + level_of(tree)[c as int],
{
    lemma_visited_level(tree, a, x);
    lemma_visited_level(tree, c, x);
    if x == a || x == c {
    } else {
        let i = lemma_children_level(tree, a, tree[a as int].len() as int, x);
        let j = lemma_children_level(tree, c, tree[c as int].len() as int, x);
        let d = tree[a as int][i];
        let e = tree[c as int][j];
        lemma_in_line(tree, d, e, x);
        if d == e {
            assert(tree[a as int][i] == tree[c as int][j]);
            assert(a == c);
        } else if visited(tree, d).contains(e as int) {
            lemma_parent_inside(tree, d, c as int, j);
            lemma_child_inside(tree, a, tree[a as int].len() as int, i, c as int);
        } else {
            lemma_parent_inside(tree, e, a as int, i);
            lemma_child_inside(tree, c, tree[c as int].len() as int, j, a as int);
        }
    }
}

/// The walks from two children of a block rename no block in common.
pub proof fn lemma_children_apart(tree: Seq<Seq<usize>>, b: usize, i: int, j: int, x: int)
    requires
        layered(tree),
        single_parent(tree),
        b < tree.len(),
        0 <= i < j < tree[b as int].len(),
        visited(tree, tree[b as int][i]).contains(x),
    ensures
        !visited(tree, tree[b as int][j]).contains(x),
{
    let c = tree[b as int][i];
    let d = tree[b as int][j];
    lemma_level_of(tree);
    if visited(tree, d).contains(x) {
        lemma_in_line(tree, c, d, x);
        if visited(tree, c).contains(d as int) {
            lemma_parent_inside(tree, c, b as int, j);
            lemma_visited_level(tree, c, b as int);
        } else {
            lemma_parent_inside(tree, d, b as int, i);
            lemma_visited_level(tree, d, b as int);
        }
    }
}

/// The walk from a block leaves the stacks as it found them and moves the
/// counter of every name on by the number of its definitions in the blocks
/// that it renames, as far as the largest machine number.  It keeps the
/// frame of the graph and changes no definition outside those blocks.
pub proof fn lemma_walk_restores_stacks(tree: Seq<Seq<usize>>, orig: DefTable, w: Walk, b: usize)
    requires
        w.st.stacks.wf(),
        w.st.counter.wf(),
        b < tree.len(),
        walkable(w.g, tree),
        single_parent(tree),
        untouched(w.g, orig, w.st.stacks, visited(tree, b)),
    ensures
        walk_block(tree, orig, w, b).st.stacks == w.st.stacks,
        walk_block(tree, orig, w, b).st.counter.wf(),
        forall|v: Seq<char>|
            count_of(walk_block(tree, orig, w, b).st.counter, v) == capped(
                count_of(w.st.counter, v) + subtree_count(tree, orig, v, b),
            ),
        same_frame(w.g, walk_block(tree, orig, w, b).g),
        forall|c: int|
            0 <= c < w.g.len() && !visited(tree, b).contains(c) ==> #[trigger] defs_of(
                walk_block(tree, orig, w, b).g,
            )[c] == defs_of(w.g)[c],
    decreases level_of(tree)[b as int], 1int, 0int,
{
    let g = w.g;
    let instrs = g[b as int].instrs;
    let len = instrs.len() as int;
    assert(visited(tree, b).contains(b as int));
    assert(orig[b as int] == defs_of(g)[b as int]);
    assert(defs_of(g)[b as int] =~= row_of(instrs));
    assert(defs_have_stacks(w.st.stacks, instrs)) by {
        assert forall|i: int| 0 <= i < instrs.len() && (#[trigger] instrs[i]).def() is Some implies w.st.stacks.contains(
            instrs[i].def()->0,
        ) by {
            assert(orig[b as int][i] == instrs[i].def());
        }
    }
    lemma_block_restores(w.st, instrs);
    lemma_block_counts(w.st, instrs);
    let (st1, instrs1) = phis_renamed(w.st, instrs, len);
    let (st2, instrs2) = body_renamed(st1, instrs1, len);
    lemma_phis_keep_body(w.st, instrs, len);
    lemma_body_len(st1, instrs1, len);
    let block2 = BlockView {
        label: g[b as int].label,
        instrs: instrs2,
        preds: g[b as int].preds,
        succs: g[b as int].succs,
    };
    let g2 = g.update(b as int, block2);
    lemma_defs_of_update(g, b as int, block2);
    assert(same_frame(g, g2));
    lemma_walkable_frame(g, g2, tree);
    lemma_filled(st2.stacks, g2, orig, b, g2[b as int].succs.len() as int);
    let g3 = succs_filled(st2.stacks, g2, orig, b, g2[b as int].succs.len() as int);
    lemma_same_frame_trans(g, g2, g3);
    lemma_walkable_frame(g, g3, tree);
    let w3 = Walk { st: st2, g: g3 };
    let n = tree[b as int].len() as int;
    let kids = visited_children(tree, b, n);
    assert(untouched(g3, orig, st2.stacks, kids)) by {
        assert forall|c: int| #[trigger] kids.contains(c) implies 0 <= c < g3.len() && c < orig.len()
            && orig[c] == defs_of(g3)[c] && row_has_stacks(st2.stacks, orig[c]) by {
            let i = lemma_children_level(tree, b, n, c);
            assert(visited(tree, b).contains(c));
            assert(c != b);
            assert(defs_of(g2)[c] == defs_of(g)[c]);
        }
    }
    lemma_children_restore_stacks(tree, orig, w3, b, n);
    let w4 = walk_children(tree, orig, w3, b, n);
    lemma_same_frame_trans(g, g3, w4.g);
    let w5 = walk_block(tree, orig, w, b);
    assert(w5.g == w4.g);
    assert(w5.st.stacks == popped(w4.st.stacks, orig[b as int], orig[b as int].len() as int));
    assert(w5.st.counter == w4.st.counter);
    assert forall|v: Seq<char>|
        count_of(w5.st.counter, v) == capped(
            count_of(w.st.counter, v) + subtree_count(tree, orig, v, b),
        ) by {
        assert(count_of(st2.counter, v) == capped(
            count_of(w.st.counter, v) + row_count(row_of(instrs), v, len),
        ));
        assert(count_of(w4.st.counter, v) == capped(
            count_of(st2.counter, v) + children_count(tree, orig, v, b, n),
        ));
    }
    assert forall|c: int| 0 <= c < g.len() && !visited(tree, b).contains(c) implies #[trigger] defs_of(
        w5.g,
    )[c] == defs_of(g)[c] by {
        assert(c != b);
        assert(!kids.contains(c));
        assert(defs_of(w4.g)[c] == defs_of(g3)[c]);
        assert(defs_of(g2)[c] == defs_of(g)[c]);
    }
}

/// Every child is entered with the stacks that its parent left: the walks
/// from the first `upto` children of a block leave the stacks as they found
/// them and move the counters on by the definitions they rename.  They keep
/// the frame of the graph and change no definition outside the blocks they
/// rename.
pub proof fn lemma_children_restore_stacks(tree: Seq<Seq<usize>>, orig: DefTable, w: Walk, b: usize, upto: int)
    requires
        w.st.stacks.wf(),
        w.st.counter.wf(),
        b < tree.len(),
        0 <= upto <= tree[b as int].len(),
        walkable(w.g, tree),
        single_parent(tree),
        untouched(w.g, orig, w.st.stacks, visited_children(tree, b, upto)),
    ensures
        walk_children(tree, orig, w, b, upto).st.stacks == w.st.stacks,
        walk_children(tree, orig, w, b, upto).st.counter.wf(),
        forall|v: Seq<char>|
            count_of(walk_children(tree, orig, w, b, upto).st.counter, v) == capped(
                count_of(w.st.counter, v) + children_count(tree, orig, v, b, upto),
            ),
        same_frame(w.g, walk_children(tree, orig, w, b, upto).g),
        forall|c: int|
            0 <= c < w.g.len() && !visited_children(tree, b, upto).contains(c) ==> #[trigger] defs_of(
                walk_children(tree, orig, w, b, upto).g,
            )[c] == defs_of(w.g)[c],
    decreases level_of(tree)[b as int], 0int, upto,
{
    if upto <= 0 {
        assert(same_frame(w.g, w.g));
    } else {
        lemma_level_of(tree);
        let c = tree[b as int][upto - 1];
        assert(below(tree, b, c));
        let before = visited_children(tree, b, upto - 1);
        let all = visited_children(tree, b, upto);
        assert(all == before.union(visited(tree, c)));
        assert(untouched(w.g, orig, w.st.stacks, before)) by {
            assert forall|x: int| #[trigger] before.contains(x) implies 0 <= x < w.g.len() && x
                < orig.len() && orig[x] == defs_of(w.g)[x] && row_has_stacks(w.st.stacks, orig[x]) by {
                assert(all.contains(x));
            }
        }
        lemma_children_restore_stacks(tree, orig, w, b, upto - 1);
        let w1 = walk_children(tree, orig, w, b, upto - 1);
        lemma_walkable_frame(w.g, w1.g, tree);
        assert(untouched(w1.g, orig, w1.st.stacks, visited(tree, c))) by {
            assert forall|x: int| #[trigger] visited(tree, c).contains(x) implies 0 <= x < w1.g.len()
                && x < orig.len() && orig[x] == defs_of(w1.g)[x] && row_has_stacks(
                w1.st.stacks,
                orig[x],
            ) by {
                assert(all.contains(x));
                if before.contains(x) {
                    let i = lemma_children_level(tree, b, upto - 1, x);
                    lemma_children_apart(tree, b, i, upto - 1, x);
                }
                assert(defs_of(w1.g)[x] == defs_of(w.g)[x]);
            }
        }
        lemma_walk_restores_stacks(tree, orig, w1, c);
        let w2 = walk_block(tree, orig, w1, c);
        assert(walk_children(tree, orig, w, b, upto) == w2);
        lemma_same_frame_trans(w.g, w1.g, w2.g);
        assert forall|v: Seq<char>|
            count_of(w2.st.counter, v) == capped(
                count_of(w.st.counter, v) + children_count(tree, orig, v, b, upto),
            ) by {
            assert(count_of(w1.st.counter, v) == capped(
                count_of(w.st.counter, v) + children_count(tree, orig, v, b, upto - 1),
            ));
            assert(count_of(w2.st.counter, v) == capped(
                count_of(w1.st.counter, v) + subtree_count(tree, orig, v, c),
            ));
        }
        assert forall|x: int| 0 <= x < w.g.len() && !all.contains(x) implies #[trigger] defs_of(w2.g)[x]
            == defs_of(w.g)[x] by {
            assert(!before.contains(x));
            assert(!visited(tree, c).contains(x));
            assert(defs_of(w2.g)[x] == defs_of(w1.g)[x]);
            assert(defs_of(w1.g)[x] == defs_of(w.g)[x]);
        }
    }
}

} // verus!
