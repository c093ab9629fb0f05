//! Which definition a use names after renaming: a definition of the same
//! name in a block on the way from the entry down the dominator tree.

use crate::frontier::{below, lemma_level_of, level_of};
use crate::function::BlockView;
use crate::ir::InstrView;
use crate::reaching::{lemma_body_at, lemma_phis_at, lemma_renamed_uses};
use crate::rename::{
    current_name_spec, issued_name, state_after_instr, state_after_phi, RenameState,
};
use crate::scopes::{
    defs_have_stacks, lemma_child_inside, lemma_children_apart, lemma_children_level,
    lemma_children_restore_stacks, lemma_phis_keep_body, lemma_visited_level,
    lemma_walk_restores_stacks, single_parent, untouched, StackView,
};
use crate::single_assignment::{
    lemma_defs_of_update, lemma_filled, lemma_same_frame_trans, lemma_walkable_frame, row_of,
    same_frame, visited, visited_children, walkable, DefTable,
};
use crate::walk::{
    block_filled, body_renamed, defs_of, phis_renamed, succs_filled, walk_block, walk_children, Walk,
};
use vstd::prelude::*;

verus! {

/// `name` was issued for `v` at a definition in one of the blocks of `open`:
/// at a place where the table from before renaming has `v`, the table as it
/// is now has `name`.
pub open spec fn founded(now: DefTable, orig: DefTable, open: Set<int>, v: Seq<char>, name: Seq<char>) -> bool {
    exists|a: int, p: int|
        open.contains(a) && 0 <= a < now.len() && a < orig.len() && 0 <= p < now[a].len() && p
            < orig[a].len() && orig[a][p] == Some(v) && #[trigger] now[a][p] == Some(name)
}

/// Every name on a stack was issued for the name of the stack at a
/// definition in one of the blocks of `open`.
pub open spec fn stacks_founded(stacks: StackView, now: DefTable, orig: DefTable, open: Set<int>) -> bool {
    forall|k: int, i: int|
        0 <= k < stacks.keys.len() && 0 <= i < stacks.vals[k].len() ==> founded(
            now,
            orig,
            open,
            stacks.keys[k],
            #[trigger] stacks.vals[k][i],
        )
}

/// `name` was issued for `v` in the block that is being renamed: at a φ
/// among the first `phis` instructions, or at another instruction among the
/// first `others`.
pub open spec fn issued_here(
    instrs: Seq<InstrView>,
    row: Seq<Option<Seq<char>>>,
    phis: int,
    others: int,
    v: Seq<char>,
    name: Seq<char>,
) -> bool {
    exists|p: int|
        0 <= p < instrs.len() && ((instrs[p] is Phi && p < phis) || (!(instrs[p] is Phi) && p
            < others)) && instrs[p].def() == Some(v) && #[trigger] row[p] == Some(name)
}

/// Every name on a stack was issued outside, in a block of `open`, or in the
/// block that is being renamed.
pub open spec fn stacks_known(
    stacks: StackView,
    now: DefTable,
    orig: DefTable,
    open: Set<int>,
    instrs: Seq<InstrView>,
    row: Seq<Option<Seq<char>>>,
    phis: int,
    others: int,
) -> bool {
    forall|k: int, i: int|
        0 <= k < stacks.keys.len() && 0 <= i < stacks.vals[k].len() ==> founded(
            now,
            orig,
            open,
            stacks.keys[k],
            #[trigger] stacks.vals[k][i],
        ) || issued_here(instrs, row, phis, others, stacks.keys[k], stacks.vals[k][i])
}

/// The row of the block once it is renamed holds, at every definition, the
/// name that was issued for it.
pub open spec fn row_issued(st: RenameState, instrs: Seq<InstrView>, row: Seq<Option<Seq<char>>>) -> bool {
    let len = instrs.len() as int;
    let (st1, instrs1) = phis_renamed(st, instrs, len);
    &&& row.len() == instrs.len()
    &&& forall|p: int|
        0 <= p < instrs.len() && (#[trigger] instrs[p]) is Phi ==> row[p] == Some(
            issued_name(phis_renamed(st, instrs, p).0.counter, instrs[p]->Phi_dest),
        )
    &&& forall|p: int|
        0 <= p < instrs.len() && !((#[trigger] instrs[p]) is Phi) && instrs[p].def() is Some ==> row[p]
            == Some(issued_name(body_renamed(st1, instrs1, p).0.counter, instrs[p].def()->0))
}

/// Putting a name on the stack of `d` keeps what is known of the stacks,
/// where the name is known to be issued for `d`.
proof fn lemma_push_known(
    s: StackView,
    d: Seq<char>,
    name: Seq<char>,
    now: DefTable,
    orig: DefTable,
    open: Set<int>,
    instrs: Seq<InstrView>,
    row: Seq<Option<Seq<char>>>,
    phis: int,
    others: int,
    phis2: int,
    others2: int,
)
    requires
        s.wf(),
        s.contains(d),
        phis <= phis2,
        others <= others2,
        stacks_known(s, now, orig, open, instrs, row, phis, others),
        issued_here(instrs, row, phis2, others2, d, name),
    ensures
        crate::rename::push_name(s, d, name).wf(),
        crate::rename::push_name(s, d, name).keys == s.keys,
        stacks_known(
            crate::rename::push_name(s, d, name),
            now,
            orig,
            open,
            instrs,
            row,
            phis2,
            others2,
        ),
{
    let s2 = crate::rename::push_name(s, d, name);
    s.lemma_put_wf(d, s.get(d).push(name));
    let q = s.position(d);
    assert(s2.vals == s.vals.update(q, s.get(d).push(name)));
    assert forall|k: int, i: int| 0 <= k < s2.keys.len() && 0 <= i < s2.vals[k].len() implies founded(
        now,
        orig,
        open,
        s2.keys[k],
        #[trigger] s2.vals[k][i],
    ) || issued_here(instrs, row, phis2, others2, s2.keys[k], s2.vals[k][i]) by {
        if k == q && i == s.vals[q].len() {
            assert(s2.vals[k][i] == name);
            assert(s2.keys[k] == d);
        } else {
            assert(s2.vals[k][i] == s.vals[k][i]);
            let v = s.keys[k];
            let n = s.vals[k][i];
            if !founded(now, orig, open, v, n) {
                assert(issued_here(instrs, row, phis, others, v, n));
                let p = choose|p: int|
                    0 <= p < instrs.len() && ((instrs[p] is Phi && p < phis) || (!(instrs[p] is Phi)
                        && p < others)) && instrs[p].def() == Some(v) && #[trigger] row[p] == Some(n);
                assert(row[p] == Some(n));
            }
        }
    }
}

/// What is known of the stacks stays known as more of the block is renamed.
proof fn lemma_known_more(
    s: StackView,
    now: DefTable,
    orig: DefTable,
    open: Set<int>,
    instrs: Seq<InstrView>,
    row: Seq<Option<Seq<char>>>,
    phis: int,
    others: int,
    phis2: int,
    others2: int,
)
    requires
        phis <= phis2,
        others <= others2,
        stacks_known(s, now, orig, open, instrs, row, phis, others),
    ensures
        stacks_known(s, now, orig, open, instrs, row, phis2, others2),
{
    assert forall|k: int, i: int| 0 <= k < s.keys.len() && 0 <= i < s.vals[k].len() implies founded(
        now,
        orig,
        open,
        s.keys[k],
        #[trigger] s.vals[k][i],
    ) || issued_here(instrs, row, phis2, others2, s.keys[k], s.vals[k][i]) by {
        let v = s.keys[k];
        let n = s.vals[k][i];
        if !founded(now, orig, open, v, n) {
            assert(issued_here(instrs, row, phis, others, v, n));
            let p = choose|p: int|
                0 <= p < instrs.len() && ((instrs[p] is Phi && p < phis) || (!(instrs[p] is Phi) && p
                    < others)) && instrs[p].def() == Some(v) && #[trigger] row[p] == Some(n);
            assert(row[p] == Some(n));
        }
    }
}

/// While the φs are renamed, every name on a stack stays known.
proof fn lemma_phis_known(
    st: RenameState,
    instrs: Seq<InstrView>,
    upto: int,
    now: DefTable,
    orig: DefTable,
    open: Set<int>,
    row: Seq<Option<Seq<char>>>,
)
    requires
        st.stacks.wf(),
        0 <= upto <= instrs.len(),
        defs_have_stacks(st.stacks, instrs),
        row_issued(st, instrs, row),
        stacks_founded(st.stacks, now, orig, open),
    ensures
        phis_renamed(st, instrs, upto).0.stacks.wf(),
        phis_renamed(st, instrs, upto).0.stacks.keys == st.stacks.keys,
        stacks_known(phis_renamed(st, instrs, upto).0.stacks, now, orig, open, instrs, row, upto, 0),
    decreases upto,
{
    if upto > 0 {
        lemma_phis_known(st, instrs, upto - 1, now, orig, open, row);
        let s1 = phis_renamed(st, instrs, upto - 1).0;
        let s2 = phis_renamed(st, instrs, upto).0;
        let instr = instrs[upto - 1];
        assert(s2 == state_after_phi(s1, instr));
        if instr is Phi {
            let d = instr->Phi_dest;
            assert(instr.def() == Some(d));
            assert(st.stacks.contains(d));
            let name = issued_name(s1.counter, d);
            assert(row[upto - 1] == Some(name));
            assert(issued_here(instrs, row, upto, 0, d, name));
            lemma_push_known(s1.stacks, d, name, now, orig, open, instrs, row, upto - 1, 0, upto, 0);
        } else {
            lemma_known_more(s1.stacks, now, orig, open, instrs, row, upto - 1, 0, upto, 0);
        }
    }
}

/// While the other instructions are renamed, every name on a stack stays
/// known.
proof fn lemma_body_known(
    st: RenameState,
    instrs: Seq<InstrView>,
    upto: int,
    now: DefTable,
    orig: DefTable,
    open: Set<int>,
    row: Seq<Option<Seq<char>>>,
)
    requires
        st.stacks.wf(),
        0 <= upto <= instrs.len(),
        defs_have_stacks(st.stacks, instrs),
        row_issued(st, instrs, row),
        stacks_founded(st.stacks, now, orig, open),
    ensures
        ({
            let len = instrs.len() as int;
            let (st1, instrs1) = phis_renamed(st, instrs, len);
            let s2 = body_renamed(st1, instrs1, upto).0;
            &&& s2.stacks.wf()
            &&& s2.stacks.keys == st.stacks.keys
            &&& stacks_known(s2.stacks, now, orig, open, instrs, row, len, upto)
        }),
    decreases upto,
{
    let len = instrs.len() as int;
    let (st1, instrs1) = phis_renamed(st, instrs, len);
    lemma_phis_keep_body(st, instrs, len);
    if upto <= 0 {
        lemma_phis_known(st, instrs, len, now, orig, open, row);
    } else {
        lemma_body_known(st, instrs, upto - 1, now, orig, open, row);
        let s1 = body_renamed(st1, instrs1, upto - 1).0;
        let s2 = body_renamed(st1, instrs1, upto).0;
        let instr = instrs1[upto - 1];
        assert(s2 == state_after_instr(s1, instr));
        assert(instr is Phi <==> instrs[upto - 1] is Phi);
        if !(instr is Phi) && instr.def() is Some {
            assert(instr == instrs[upto - 1]);
            let d = instr.def()->0;
            assert(st.stacks.contains(d));
            let name = issued_name(s1.counter, d);
            assert(row[upto - 1] == Some(name));
            assert(issued_here(instrs, row, len, upto, d, name));
            lemma_push_known(s1.stacks, d, name, now, orig, open, instrs, row, len, upto - 1, len, upto);
        } else {
            lemma_known_more(s1.stacks, now, orig, open, instrs, row, len, upto - 1, len, upto);
        }
    }
}

/// The name that a use gets is the name itself, or a name issued for it
/// outside, in a block of `open`, or before the use in its own block.
pub open spec fn use_known(
    now: DefTable,
    orig: DefTable,
    open: Set<int>,
    instrs: Seq<InstrView>,
    row: Seq<Option<Seq<char>>>,
    j: int,
    v: Seq<char>,
    name: Seq<char>,
) -> bool {
    ||| name == v
    ||| founded(now, orig, open, v, name)
    ||| issued_here(instrs, row, instrs.len() as int, j, v, name)
}

/// In a renamed block every use has got its own name back, or a name issued
/// for it outside or before it in the block; and every name left on the
/// stacks is known.
pub proof fn lemma_block_uses(
    st: RenameState,
    instrs: Seq<InstrView>,
    now: DefTable,
    orig: DefTable,
    open: Set<int>,
    row: Seq<Option<Seq<char>>>,
)
    requires
        st.stacks.wf(),
        defs_have_stacks(st.stacks, instrs),
        row_issued(st, instrs, row),
        stacks_founded(st.stacks, now, orig, open),
    ensures
        ({
            let len = instrs.len() as int;
            let (st1, instrs1) = phis_renamed(st, instrs, len);
            let (st2, instrs2) = body_renamed(st1, instrs1, len);
            &&& instrs2.len() == instrs.len()
            &&& stacks_known(st2.stacks, now, orig, open, instrs, row, len, len)
            &&& forall|j: int|
                0 <= j < instrs.len() && !(instrs[j] is Phi) ==> (#[trigger] instrs2[j]).uses().len()
                    == instrs[j].uses().len()
            &&& forall|j: int, u: int|
                0 <= j < instrs.len() && !(instrs[j] is Phi) && 0 <= u < instrs[j].uses().len()
                    ==> use_known(
                    now,
                    orig,
                    open,
                    instrs,
                    row,
                    j,
                    instrs[j].uses()[u],
                    #[trigger] instrs2[j].uses()[u],
                )
        }),
{
    let len = instrs.len() as int;
    let (st1, instrs1) = phis_renamed(st, instrs, len);
    let (st2, instrs2) = body_renamed(st1, instrs1, len);
    lemma_phis_keep_body(st, instrs, len);
    lemma_body_known(st, instrs, len, now, orig, open, row);
    crate::reaching::lemma_body_len(st1, instrs1, len);
    assert forall|j: int| 0 <= j < instrs.len() && !(instrs[j] is Phi) implies (
    #[trigger] instrs2[j]).uses().len() == instrs[j].uses().len() by {
        assert(instrs1[j] == instrs[j]);
        lemma_body_at(st1, instrs1, len, j);
        lemma_renamed_uses(body_renamed(st1, instrs1, j).0, instrs1[j]);
    }
    assert forall|j: int, u: int|
        0 <= j < instrs.len() && !(instrs[j] is Phi) && 0 <= u < instrs[j].uses().len() implies use_known(
        now,
        orig,
        open,
        instrs,
        row,
        j,
        instrs[j].uses()[u],
        #[trigger] instrs2[j].uses()[u],
    ) by {
        let v = instrs[j].uses()[u];
        assert(instrs1[j] == instrs[j]);
        lemma_body_at(st1, instrs1, len, j);
        let sj = body_renamed(st1, instrs1, j).0;
        lemma_renamed_uses(sj, instrs1[j]);
        lemma_body_known(st, instrs, j, now, orig, open, row);
        let name = instrs2[j].uses()[u];
        assert(name == current_name_spec(sj.stacks, v));
        if sj.stacks.contains(v) && sj.stacks.get(v).len() > 0 {
            let q = sj.stacks.position(v);
            let top = sj.stacks.vals[q].len() - 1;
            assert(name == sj.stacks.vals[q][top]);
            assert(sj.stacks.keys[q] == v);
        }
    }
}

/// Two blocks with the same instructions but for their φs.
pub open spec fn same_body(a: BlockView, b: BlockView) -> bool {
    &&& a.instrs.len() == b.instrs.len()
    &&& forall|i: int|
        0 <= i < a.instrs.len() ==> ((#[trigger] a.instrs[i]) is Phi <==> b.instrs[i] is Phi) && (!(
        a.instrs[i] is Phi) ==> a.instrs[i] == b.instrs[i])
}

/// The blocks whose walks rename block `c`: `c` and the blocks above it in
/// the tree.
pub open spec fn above(tree: Seq<Seq<usize>>, c: int) -> Set<int> {
    Set::new(|a: int| 0 <= a < tree.len() && visited(tree, a as usize).contains(c))
}

/// Every use in block `c` that is no source of a φ reads in `g` the name
/// that it read in `init`, or a name issued for that name at a definition
/// in a block of `open` or in a block above `c`.
pub open spec fn uses_seen(
    tree: Seq<Seq<usize>>,
    orig: DefTable,
    init: Seq<BlockView>,
    g: Seq<BlockView>,
    open: Set<int>,
    c: int,
) -> bool {
    &&& same_frame_block(init[c], g[c])
    &&& forall|j: int, u: int|
        0 <= j < init[c].instrs.len() && !(init[c].instrs[j] is Phi) && 0 <= u
            < init[c].instrs[j].uses().len() ==> init[c].instrs[j].uses()[u]
            == #[trigger] g[c].instrs[j].uses()[u] || founded(
            defs_of(g),
            orig,
            open.union(above(tree, c)),
            init[c].instrs[j].uses()[u],
            g[c].instrs[j].uses()[u],
        )
}

/// Two blocks with equally many instructions, φs at the same places, and
/// equally many uses in every instruction that is no φ.
pub open spec fn same_frame_block(a: BlockView, b: BlockView) -> bool {
    &&& a.instrs.len() == b.instrs.len()
    &&& forall|j: int|
        0 <= j < a.instrs.len() ==> ((#[trigger] a.instrs[j]) is Phi <==> b.instrs[j] is Phi) && (!(
        a.instrs[j] is Phi) ==> a.instrs[j].uses().len() == b.instrs[j].uses().len())
}

/// Being founded carries over to a table that agrees on the blocks of the
/// set, and to a larger set.
proof fn lemma_founded_carries(
    now: DefTable,
    now2: DefTable,
    orig: DefTable,
    open: Set<int>,
    open2: Set<int>,
    v: Seq<char>,
    name: Seq<char>,
)
    requires
        founded(now, orig, open, v, name),
        now2.len() == now.len(),
        forall|a: int| open.contains(a) && 0 <= a < now.len() ==> #[trigger] now2[a] == now[a],
        forall|a: int| open.contains(a) ==> open2.contains(a),
    ensures
        founded(now2, orig, open2, v, name),
{
    let (a, p) = choose|a: int, p: int|
        open.contains(a) && 0 <= a < now.len() && a < orig.len() && 0 <= p < now[a].len() && p
            < orig[a].len() && orig[a][p] == Some(v) && #[trigger] now[a][p] == Some(name);
    assert(now2[a] == now[a]);
    assert(now2[a][p] == Some(name));
}

/// Filling the sources of φs leaves every other instruction as it is.
proof fn lemma_filled_body(stacks: StackView, g: Seq<BlockView>, orig: DefTable, b: usize, upto: int)
    requires
        b < g.len(),
        0 <= upto <= g[b as int].succs.len(),
        forall|k: int| 0 <= k < g[b as int].succs.len() ==> (#[trigger] g[b as int].succs[k]) < g.len(),
    ensures
        succs_filled(stacks, g, orig, b, upto).len() == g.len(),
        forall|c: int|
            0 <= c < g.len() ==> same_body(g[c], #[trigger] succs_filled(stacks, g, orig, b, upto)[c]),
    decreases upto,
{
    if upto > 0 {
        lemma_filled_body(stacks, g, orig, b, upto - 1);
        let g1 = succs_filled(stacks, g, orig, b, upto - 1);
        let s = g[b as int].succs[upto - 1] as int;
        let g2 = succs_filled(stacks, g, orig, b, upto);
        let filled = block_filled(stacks, g1[s], orig[s], b);
        assert(g2 == g1.update(s, filled));
        assert forall|c: int| 0 <= c < g.len() implies same_body(g[c], #[trigger] g2[c]) by {
            assert(same_body(g[c], g1[c]));
            if c == s {
                assert(same_body(g1[s], filled));
            }
        }
    } else {
        assert forall|c: int| 0 <= c < g.len() implies same_body(g[c], #[trigger] g[c]) by {}
    }
}

/// The row of a block once it is renamed holds the names that were issued.
proof fn lemma_row_issued(st: RenameState, instrs: Seq<InstrView>)
    requires
        st.stacks.wf(),
    ensures
        ({
            let len = instrs.len() as int;
            let (st1, instrs1) = phis_renamed(st, instrs, len);
            let (st2, instrs2) = body_renamed(st1, instrs1, len);
            &&& row_issued(st, instrs, row_of(instrs2))
            &&& instrs2.len() == instrs.len()
            &&& forall|p: int|
                0 <= p < instrs.len() ==> ((#[trigger] instrs2[p]) is Phi <==> instrs[p] is Phi)
        }),
{
    let len = instrs.len() as int;
    let (st1, instrs1) = phis_renamed(st, instrs, len);
    let (st2, instrs2) = body_renamed(st1, instrs1, len);
    let row = row_of(instrs2);
    lemma_phis_keep_body(st, instrs, len);
    crate::reaching::lemma_body_len(st1, instrs1, len);
    assert forall|p: int| 0 <= p < instrs.len() implies ((#[trigger] instrs2[p]) is Phi
        <==> instrs[p] is Phi) by {
        lemma_body_at(st1, instrs1, len, p);
    }
    assert forall|p: int| 0 <= p < instrs.len() && (#[trigger] instrs[p]) is Phi implies row[p] == Some(
        issued_name(phis_renamed(st, instrs, p).0.counter, instrs[p]->Phi_dest),
    ) by {
        lemma_phis_at(st, instrs, len, p);
        lemma_body_at(st1, instrs1, len, p);
        assert(instrs1[p] is Phi);
        assert(instrs2[p] == instrs1[p]);
    }
    assert forall|p: int|
        0 <= p < instrs.len() && !((#[trigger] instrs[p]) is Phi) && instrs[p].def() is Some implies row[p]
        == Some(issued_name(body_renamed(st1, instrs1, p).0.counter, instrs[p].def()->0)) by {
        assert(instrs1[p] == instrs[p]);
        lemma_body_at(st1, instrs1, len, p);
        lemma_renamed_uses(body_renamed(st1, instrs1, p).0, instrs1[p]);
    }
}

/// What the walk from a block renames, the walk from a block above it
/// renames too.
pub proof fn lemma_visited_trans(tree: Seq<Seq<usize>>, r: usize, a: int, c: int)
    requires
        crate::frontier::layered(tree),
        0 <= a < tree.len(),
        visited(tree, r).contains(a),
        visited(tree, a as usize).contains(c),
    ensures
        visited(tree, r).contains(c),
    decreases level_of(tree)[r as int],
{
    lemma_visited_level(tree, r, a);
    if a != r {
        let n = tree[r as int].len() as int;
        let i = lemma_children_level(tree, r, n, a);
        lemma_visited_trans(tree, tree[r as int][i], a, c);
        lemma_child_inside(tree, r, n, i, c);
    }
}

/// Having the same instructions but for the φs carries over.
proof fn lemma_same_body_trans(a: BlockView, b: BlockView, c: BlockView)
    requires
        same_body(a, b),
        same_body(b, c),
    ensures
        same_body(a, c),
{
    assert forall|i: int| 0 <= i < a.instrs.len() implies ((#[trigger] a.instrs[i]) is Phi
        <==> c.instrs[i] is Phi) && (!(a.instrs[i] is Phi) ==> a.instrs[i] == c.instrs[i]) by {
        assert(a.instrs[i] is Phi <==> b.instrs[i] is Phi);
        assert(b.instrs[i] is Phi <==> c.instrs[i] is Phi);
    }
}

/// What the walk is given: the blocks it is about to rename are as they were
/// at the start, none of them is among the blocks of `open`, and every name
/// on the stacks was issued in one of the blocks of `open`.
pub open spec fn walk_seen_ready(
    tree: Seq<Seq<usize>>,
    orig: DefTable,
    init: Seq<BlockView>,
    w: Walk,
    open: Set<int>,
    blocks: Set<int>,
) -> bool {
    &&& init.len() == w.g.len()
    &&& untouched(w.g, orig, w.st.stacks, blocks)
    &&& forall|a: int| #[trigger] open.contains(a) ==> 0 <= a < tree.len() && !blocks.contains(a)
    &&& stacks_founded(w.st.stacks, defs_of(w.g), orig, open)
    &&& forall|c: int| #[trigger] blocks.contains(c) ==> same_body(init[c], w.g[c])
}

/// What the walk leaves: outside the blocks it renamed, every instruction
/// but the φs is as before; in the blocks it renamed, every use is seen.
pub open spec fn walk_seen(
    tree: Seq<Seq<usize>>,
    orig: DefTable,
    init: Seq<BlockView>,
    before: Seq<BlockView>,
    after: Seq<BlockView>,
    open: Set<int>,
    blocks: Set<int>,
) -> bool {
    &&& after.len() == before.len()
    &&& forall|c: int|
        0 <= c < before.len() && !blocks.contains(c) ==> same_body(before[c], #[trigger] after[c])
    &&& forall|c: int| #[trigger] blocks.contains(c) ==> uses_seen(tree, orig, init, after, open, c)
}

/// What is seen of the uses of a block carries over to a graph that has the
/// same instructions in the block, but for φs, and the same definitions in
/// the blocks of `open` and above the block.
proof fn lemma_uses_seen_carries(
    tree: Seq<Seq<usize>>,
    orig: DefTable,
    init: Seq<BlockView>,
    g: Seq<BlockView>,
    g2: Seq<BlockView>,
    open: Set<int>,
    open2: Set<int>,
    c: int,
)
    requires
        0 <= c < g.len(),
        g2.len() == g.len(),
        uses_seen(tree, orig, init, g, open, c),
        same_body(g[c], g2[c]),
        forall|a: int|
            open.union(above(tree, c)).contains(a) && 0 <= a < g.len() ==> #[trigger] defs_of(g2)[a]
                == defs_of(g)[a],
        forall|a: int| open.contains(a) ==> open2.contains(a) || above(tree, c).contains(a),
    ensures
        uses_seen(tree, orig, init, g2, open2, c),
{
    let from = open.union(above(tree, c));
    let to = open2.union(above(tree, c));
    assert forall|j: int|
        0 <= j < init[c].instrs.len() implies ((#[trigger] init[c].instrs[j]) is Phi <==> g2[c].instrs[j] is Phi)
        && (!(init[c].instrs[j] is Phi) ==> init[c].instrs[j].uses().len() == g2[c].instrs[j].uses().len()) by {
        assert(g[c].instrs[j] is Phi <==> g2[c].instrs[j] is Phi);
    }
    assert forall|j: int, u: int|
        0 <= j < init[c].instrs.len() && !(init[c].instrs[j] is Phi) && 0 <= u
            < init[c].instrs[j].uses().len() implies init[c].instrs[j].uses()[u]
        == #[trigger] g2[c].instrs[j].uses()[u] || founded(
        defs_of(g2),
        orig,
        to,
        init[c].instrs[j].uses()[u],
        g2[c].instrs[j].uses()[u],
    ) by {
        assert(init[c].instrs[j] is Phi <==> g[c].instrs[j] is Phi);
        assert(g[c].instrs[j] == g2[c].instrs[j]);
        let v = init[c].instrs[j].uses()[u];
        let name = g[c].instrs[j].uses()[u];
        if v != name {
            assert(founded(defs_of(g), orig, from, v, name));
            lemma_founded_carries(defs_of(g), defs_of(g2), orig, from, to, v, name);
        }
    }
}

/// After renaming, every use that is no source of a φ reads its old name or
/// a name issued for that name at a definition above it: the walk from a
/// block leaves, in every block that it renames, every such use with the
/// name it had or with a name that was issued for that name in a block of
/// `open` or in a block of the tree above the use.
pub proof fn lemma_walk_uses(
    tree: Seq<Seq<usize>>,
    orig: DefTable,
    init: Seq<BlockView>,
    w: Walk,
    b: usize,
    open: Set<int>,
)
    requires
        w.st.stacks.wf(),
        w.st.counter.wf(),
        b < tree.len(),
        walkable(w.g, tree),
        single_parent(tree),
        walk_seen_ready(tree, orig, init, w, open, visited(tree, b)),
    ensures
        walk_seen(tree, orig, init, w.g, walk_block(tree, orig, w, b).g, open, visited(tree, b)),
    decreases level_of(tree)[b as int], 1int, 0int,
{
    let g = w.g;
    let d = defs_of(g);
    let instrs = g[b as int].instrs;
    let len = instrs.len() as int;
    let all = visited(tree, b);
    assert(all.contains(b as int));
    assert(orig[b as int] == d[b as int]);
    assert(d[b as int] =~= row_of(instrs));
    assert(defs_have_stacks(w.st.stacks, instrs)) by {
        assert forall|i: int| 0 <= i < instrs.len() && (#[trigger] instrs[i]).def() is Some implies w.st.stacks.contains(
            instrs[i].def()->0,
        ) by {
            assert(orig[b as int][i] == instrs[i].def());
        }
    }
    let (st1, instrs1) = phis_renamed(w.st, instrs, len);
    let (st2, instrs2) = body_renamed(st1, instrs1, len);
    let row = row_of(instrs2);
    lemma_row_issued(w.st, instrs);
    lemma_block_uses(w.st, instrs, d, orig, open, row);
    crate::scopes::lemma_block_restores(w.st, instrs);
    crate::scopes::lemma_block_counts(w.st, instrs);
    let block2 = BlockView {
        label: g[b as int].label,
        instrs: instrs2,
        preds: g[b as int].preds,
        succs: g[b as int].succs,
    };
    let g2 = g.update(b as int, block2);
    lemma_defs_of_update(g, b as int, block2);
    assert(same_frame(g, g2));
    lemma_walkable_frame(g, g2, tree);
    let ns = g2[b as int].succs.len() as int;
    lemma_filled(st2.stacks, g2, orig, b, ns);
    lemma_filled_body(st2.stacks, g2, orig, b, ns);
    let g3 = succs_filled(st2.stacks, g2, orig, b, ns);
    lemma_same_frame_trans(g, g2, g3);
    lemma_walkable_frame(g, g3, tree);
    let w3 = Walk { st: st2, g: g3 };
    let n = tree[b as int].len() as int;
    let kids = visited_children(tree, b, n);
    let open2 = open.insert(b as int);
    let d3 = defs_of(g3);
    assert(d3 == d.update(b as int, row));
    assert(stacks_founded(st2.stacks, d3, orig, open2)) by {
        assert forall|k: int, i: int|
            0 <= k < st2.stacks.keys.len() && 0 <= i < st2.stacks.vals[k].len() implies founded(
            d3,
            orig,
            open2,
            st2.stacks.keys[k],
            #[trigger] st2.stacks.vals[k][i],
        ) by {
            let v = st2.stacks.keys[k];
            let name = st2.stacks.vals[k][i];
            if founded(d, orig, open, v, name) {
                lemma_founded_carries(d, d3, orig, open, open2, v, name);
            } else {
                assert(issued_here(instrs, row, len, len, v, name));
                let p = choose|p: int|
                    0 <= p < instrs.len() && ((instrs[p] is Phi && p < len) || (!(instrs[p] is Phi)
                        && p < len)) && instrs[p].def() == Some(v) && #[trigger] row[p] == Some(name);
                assert(orig[b as int][p] == Some(v));
                assert(d3[b as int][p] == Some(name));
            }
        }
    }
    assert(walk_seen_ready(tree, orig, init, w3, open2, kids)) by {
        assert forall|c: int| #[trigger] kids.contains(c) implies 0 <= c < g3.len() && c < orig.len()
            && orig[c] == defs_of(g3)[c] && crate::scopes::row_has_stacks(st2.stacks, orig[c])
            && same_body(init[c], g3[c]) by {
            let i = lemma_children_level(tree, b, n, c);
            assert(all.contains(c));
            assert(c != b);
            assert(g2[c] == g[c]);
            lemma_same_body_trans(init[c], g[c], g3[c]);
        }
        assert forall|a: int| #[trigger] open2.contains(a) implies 0 <= a < tree.len() && !kids.contains(
            a,
        ) by {
            if kids.contains(a) {
                let i = lemma_children_level(tree, b, n, a);
                assert(all.contains(a));
            }
        }
    }
    lemma_children_uses(tree, orig, init, w3, b, n, open2);
    lemma_children_restore_stacks(tree, orig, w3, b, n);
    let w4 = walk_children(tree, orig, w3, b, n);
    let w5 = walk_block(tree, orig, w, b);
    assert(w5.g == w4.g);
    let d4 = defs_of(w4.g);
    assert forall|c: int| 0 <= c < g.len() && !all.contains(c) implies same_body(g[c], #[trigger] w4.g[c]) by {
        assert(c != b);
        assert(!kids.contains(c));
        assert(g2[c] == g[c]);
        lemma_same_body_trans(g[c], g3[c], w4.g[c]);
    }
    assert forall|c: int| #[trigger] all.contains(c) implies uses_seen(tree, orig, init, w4.g, open, c) by {
        if c == b {
            assert(!kids.contains(c)) by {
                if kids.contains(c) {
                    let i = lemma_children_level(tree, b, n, c);
                }
            }
            lemma_same_body_trans(g2[c], g3[c], w4.g[c]);
            assert(d4[c] == d3[c]);
            let to = open.union(above(tree, c));
            assert(above(tree, c).contains(c));
            assert(same_body(init[c], g[c]));
            assert forall|j: int| 0 <= j < init[c].instrs.len() implies ((
            #[trigger] init[c].instrs[j]) is Phi <==> w4.g[c].instrs[j] is Phi) && (!(
            init[c].instrs[j] is Phi) ==> init[c].instrs[j].uses().len()
                == w4.g[c].instrs[j].uses().len()) by {
                assert(init[c].instrs[j] is Phi <==> instrs[j] is Phi);
                assert(instrs2[j] is Phi <==> instrs[j] is Phi);
                assert(g2[c].instrs[j] is Phi <==> w4.g[c].instrs[j] is Phi);
                if !(instrs[j] is Phi) {
                    assert(g2[c].instrs[j] == w4.g[c].instrs[j]);
                    assert(instrs2[j].uses().len() == instrs[j].uses().len());
                }
            }
            assert forall|j: int, u: int|
                0 <= j < init[c].instrs.len() && !(init[c].instrs[j] is Phi) && 0 <= u
                    < init[c].instrs[j].uses().len() implies init[c].instrs[j].uses()[u]
                == #[trigger] w4.g[c].instrs[j].uses()[u] || founded(
                d4,
                orig,
                to,
                init[c].instrs[j].uses()[u],
                w4.g[c].instrs[j].uses()[u],
            ) by {
                assert(init[c].instrs[j] is Phi <==> instrs[j] is Phi);
                assert(init[c].instrs[j] == instrs[j]);
                assert(instrs2[j] is Phi <==> instrs[j] is Phi);
                assert(g2[c].instrs[j] == w4.g[c].instrs[j]);
                let v = instrs[j].uses()[u];
                let name = instrs2[j].uses()[u];
                assert(use_known(d, orig, open, instrs, row, j, v, name));
                if name != v {
                    if founded(d, orig, open, v, name) {
                        assert forall|a: int| open.contains(a) && 0 <= a < d.len() implies #[trigger] d4[a]
                            == d[a] by {
                            assert(a != b);
                            assert(!kids.contains(a)) by {
                                if kids.contains(a) {
                                    let i = lemma_children_level(tree, b, n, a);
                                }
                            }
                            assert(d4[a] == d3[a]);
                        }
                        lemma_founded_carries(d, d4, orig, open, to, v, name);
                    } else {
                        assert(issued_here(instrs, row, len, j, v, name));
                        let p = choose|p: int|
                            0 <= p < instrs.len() && ((instrs[p] is Phi && p < len) || (!(
                            instrs[p] is Phi) && p < j)) && instrs[p].def() == Some(v)
                                && #[trigger] row[p] == Some(name);
                        assert(orig[c][p] == Some(v));
                        assert(d4[c][p] == Some(name));
                        assert(to.contains(c));
                    }
                }
            }
        } else {
            assert(kids.contains(c));
            assert(uses_seen(tree, orig, init, w4.g, open2, c));
            assert(above(tree, c).contains(b as int));
            lemma_uses_seen_carries(tree, orig, init, w4.g, w4.g, open2, open, c);
        }
    }
}

/// The walks from the first `upto` children of a block leave every use in
/// the blocks they rename with the name it had or with a name issued for it
/// above the use.
pub proof fn lemma_children_uses(
    tree: Seq<Seq<usize>>,
    orig: DefTable,
    init: Seq<BlockView>,
    w: Walk,
    b: usize,
    upto: int,
    open: Set<int>,
)
    requires
        w.st.stacks.wf(),
        w.st.counter.wf(),
        b < tree.len(),
        0 <= upto <= tree[b as int].len(),
        walkable(w.g, tree),
        single_parent(tree),
        walk_seen_ready(tree, orig, init, w, open, visited_children(tree, b, upto)),
    ensures
        walk_seen(
            tree,
            orig,
            init,
            w.g,
            walk_children(tree, orig, w, b, upto).g,
            open,
            visited_children(tree, b, upto),
        ),
    decreases level_of(tree)[b as int], 0int, upto,
{
    if upto <= 0 {
        assert forall|c: int| 0 <= c < w.g.len() implies same_body(w.g[c], #[trigger] w.g[c]) by {}
    } else {
        lemma_level_of(tree);
        let c0 = tree[b as int][upto - 1];
        assert(below(tree, b, c0));
        let before = visited_children(tree, b, upto - 1);
        let all = visited_children(tree, b, upto);
        let sub = visited(tree, c0);
        assert(all == before.union(sub));
        assert(walk_seen_ready(tree, orig, init, w, open, before)) by {
            assert forall|x: int| #[trigger] before.contains(x) implies all.contains(x) by {}
        }
        lemma_children_uses(tree, orig, init, w, b, upto - 1, open);
        lemma_children_restore_stacks(tree, orig, w, b, upto - 1);
        let w1 = walk_children(tree, orig, w, b, upto - 1);
        lemma_walkable_frame(w.g, w1.g, tree);
        let d = defs_of(w.g);
        let d1 = defs_of(w1.g);
        assert forall|x: int| #[trigger] sub.contains(x) implies !before.contains(x) && all.contains(x) by {
            if before.contains(x) {
                let i = lemma_children_level(tree, b, upto - 1, x);
                lemma_children_apart(tree, b, i, upto - 1, x);
            }
        }
        assert(walk_seen_ready(tree, orig, init, w1, open, sub)) by {
            assert forall|x: int| #[trigger] sub.contains(x) implies 0 <= x < w1.g.len() && x
                < orig.len() && orig[x] == d1[x] && crate::scopes::row_has_stacks(
                w1.st.stacks,
                orig[x],
            ) && same_body(init[x], w1.g[x]) by {
                assert(all.contains(x));
                assert(d1[x] == d[x]);
                lemma_same_body_trans(init[x], w.g[x], w1.g[x]);
            }
            assert forall|a: int| #[trigger] open.contains(a) implies 0 <= a < tree.len()
                && !sub.contains(a) by {
                if sub.contains(a) {
                    assert(all.contains(a));
                }
            }
            assert forall|k: int, i: int|
                0 <= k < w1.st.stacks.keys.len() && 0 <= i < w1.st.stacks.vals[k].len() implies founded(
                d1,
                orig,
                open,
                w1.st.stacks.keys[k],
                #[trigger] w1.st.stacks.vals[k][i],
            ) by {
                assert forall|a: int| open.contains(a) && 0 <= a < d.len() implies #[trigger] d1[a]
                    == d[a] by {
                    assert(!before.contains(a)) by {
                        if before.contains(a) {
                            assert(all.contains(a));
                        }
                    }
                }
                lemma_founded_carries(
                    d,
                    d1,
                    orig,
                    open,
                    open,
                    w.st.stacks.keys[k],
                    w.st.stacks.vals[k][i],
                );
            }
        }
        lemma_walk_uses(tree, orig, init, w1, c0, open);
        lemma_walk_restores_stacks(tree, orig, w1, c0);
        let w2 = walk_block(tree, orig, w1, c0);
        assert(walk_children(tree, orig, w, b, upto) == w2);
        let d2 = defs_of(w2.g);
        assert forall|x: int| 0 <= x < w.g.len() && !all.contains(x) implies same_body(
            w.g[x],
            #[trigger] w2.g[x],
        ) by {
            assert(!before.contains(x));
            assert(!sub.contains(x));
            lemma_same_body_trans(w.g[x], w1.g[x], w2.g[x]);
        }
        assert forall|x: int| #[trigger] all.contains(x) implies uses_seen(
            tree,
            orig,
            init,
            w2.g,
            open,
            x,
        ) by {
            if !sub.contains(x) {
                assert(before.contains(x));
                let i = lemma_children_level(tree, b, upto - 1, x);
                assert(uses_seen(tree, orig, init, w1.g, open, x));
                assert forall|a: int|
                    open.union(above(tree, x)).contains(a) && 0 <= a < w1.g.len() implies #[trigger] d2[a]
                    == d1[a] by {
                    if sub.contains(a) {
                        if open.contains(a) {
                            assert(all.contains(a));
                        } else {
                            lemma_visited_trans(tree, c0, a, x);
                        }
                    }
                }
                lemma_uses_seen_carries(tree, orig, init, w1.g, w2.g, open, open, x);
            }
        }
    }
}

} // verus!
