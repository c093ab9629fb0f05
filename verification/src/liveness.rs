//! Liveness of names at block boundaries: the least solution of the
//! backward data-flow equations
//!
//! ```text
//! LiveOut[b] = union of LiveIn[s] over the successors s of b
//! LiveIn[b]  = use[b] ∪ (LiveOut[b] \ def[b])
//! ```

use crate::function::{BlockView, IrBasicBlock, IrFunction};
use crate::ir::{seq_of_option, InstrView};
use crate::names::{names_view, NameSet};
use vstd::prelude::*;

verus! {

/// The names that the instructions define.
pub open spec fn defined(instrs: Seq<InstrView>) -> Set<Seq<char>>
    decreases instrs.len(),
{
    if instrs.len() == 0 {
        Set::empty()
    } else {
        defined(instrs.drop_last()).union(seq_of_option(instrs.last().def()).to_set())
    }
}

/// The names that the instructions read before any of them defines the name.
pub open spec fn upward_uses(instrs: Seq<InstrView>) -> Set<Seq<char>>
    decreases instrs.len(),
{
    if instrs.len() == 0 {
        Set::empty()
    } else {
        upward_uses(instrs.drop_last()).union(
            instrs.last().uses().to_set().difference(defined(instrs.drop_last())),
        )
    }
}

/// What the successors need on entry, taken together.
pub open spec fn succ_union(succs: Seq<usize>, ins: Seq<Set<Seq<char>>>) -> Set<Seq<char>> {
    Set::new(
        |x: Seq<char>|
            exists|k: int|
                0 <= k < succs.len() && succs[k] < ins.len() && (#[trigger] ins[succs[k] as int]).contains(
                    x,
                ),
    )
}

/// What block `b` needs on entry, given what is live when it ends.
pub open spec fn live_in_of(block: BlockView, out: Set<Seq<char>>) -> Set<Seq<char>> {
    upward_uses(block.instrs).union(out.difference(defined(block.instrs)))
}

/// Both equations hold at block `b`.
pub open spec fn exact_at(
    g: Seq<BlockView>,
    outs: Seq<Set<Seq<char>>>,
    ins: Seq<Set<Seq<char>>>,
    b: int,
) -> bool {
    &&& outs[b] == succ_union(g[b].succs, ins)
    &&& ins[b] == live_in_of(g[b], outs[b])
}

/// `outs` and `ins` solve the equations.
pub open spec fn is_solution(
    g: Seq<BlockView>,
    outs: Seq<Set<Seq<char>>>,
    ins: Seq<Set<Seq<char>>>,
) -> bool {
    &&& outs.len() == g.len()
    &&& ins.len() == g.len()
    &&& forall|b: int| 0 <= b < g.len() ==> exact_at(g, outs, ins, b)
}

/// Every set of `a` lies within the set of `b` at the same place.
pub open spec fn pointwise_subset(a: Seq<Set<Seq<char>>>, b: Seq<Set<Seq<char>>>) -> bool {
    a.len() == b.len() && forall|i: int| 0 <= i < a.len() ==> (#[trigger] a[i]).subset_of(b[i])
}

/// `outs` and `ins` lie within every solution.
pub open spec fn below_every_solution(
    g: Seq<BlockView>,
    outs: Seq<Set<Seq<char>>>,
    ins: Seq<Set<Seq<char>>>,
) -> bool {
    forall|o: Seq<Set<Seq<char>>>, i: Seq<Set<Seq<char>>>| #[trigger]
        is_solution(g, o, i) ==> pointwise_subset(outs, o) && pointwise_subset(ins, i)
}

/// `outs` and `ins` are the least solution of the equations.
pub open spec fn is_least_solution(
    g: Seq<BlockView>,
    outs: Seq<Set<Seq<char>>>,
    ins: Seq<Set<Seq<char>>>,
) -> bool {
    is_solution(g, outs, ins) && below_every_solution(g, outs, ins)
}

/// The names live at the end and at the start of every block: the least
/// solution of the equations.
pub open spec fn liveness_of(g: Seq<BlockView>) -> (Seq<Set<Seq<char>>>, Seq<Set<Seq<char>>>) {
    choose|p: (Seq<Set<Seq<char>>>, Seq<Set<Seq<char>>>)| is_least_solution(g, p.0, p.1)
}

/// There is one least solution.
pub proof fn lemma_least_solution_unique(
    g: Seq<BlockView>,
    o1: Seq<Set<Seq<char>>>,
    i1: Seq<Set<Seq<char>>>,
    o2: Seq<Set<Seq<char>>>,
    i2: Seq<Set<Seq<char>>>,
)
    requires
        is_least_solution(g, o1, i1),
        is_least_solution(g, o2, i2),
    ensures
        o1 == o2,
        i1 == i2,
{
    assert(pointwise_subset(o1, o2) && pointwise_subset(i1, i2));
    assert(pointwise_subset(o2, o1) && pointwise_subset(i2, i1));
    assert forall|b: int| 0 <= b < o1.len() implies o1[b] == o2[b] by {
        assert(o1[b].subset_of(o2[b]) && o2[b].subset_of(o1[b]));
        assert(o1[b] =~= o2[b]);
    }
    assert forall|b: int| 0 <= b < i1.len() implies i1[b] == i2[b] by {
        assert(i1[b].subset_of(i2[b]) && i2[b].subset_of(i1[b]));
        assert(i1[b] =~= i2[b]);
    }
    assert(o1 =~= o2);
    assert(i1 =~= i2);
}

/// The sets of a list of name sets.
pub open spec fn sets_view(v: Seq<NameSet>) -> Seq<Set<Seq<char>>> {
    Seq::new(v.len(), |i: int| v[i]@)
}

/// No set holds a name twice.
pub open spec fn all_wf(v: Seq<NameSet>) -> bool {
    forall|i: int| 0 <= i < v.len() ==> (#[trigger] v[i]).wf()
}

/// Returns the names that a block defines, and the names that it reads before
/// defining them.
pub fn compute_block_def_use(block: &IrBasicBlock) -> (r: (NameSet, NameSet))
    ensures
        r.0.wf(),
        r.1.wf(),
        r.0@ == defined(block@.instrs),
        r.1@ == upward_uses(block@.instrs),
{
    let mut defs = NameSet::new();
    let mut uses = NameSet::new();
    let ghost instrs = block@.instrs;
    let mut i: usize = 0;
    while i < block.instrs.len()
        invariant
            i <= block.instrs.len(),
            instrs == block@.instrs,
            defs.wf(),
            uses.wf(),
            defs@ == defined(instrs.take(i as int)),
            uses@ == upward_uses(instrs.take(i as int)),
        decreases block.instrs.len() - i,
    {
        let instr = &block.instrs[i];
        let ghost sofar = instrs.take(i as int);
        let ghost next = instrs.take(i + 1);
        assert(next.drop_last() =~= sofar);
        assert(next.last() == instr@);
        let used = instr.uses();
        let mut k: usize = 0;
        while k < used.len()
            invariant
                k <= used.len(),
                uses.wf(),
                defs@ == defined(sofar),
                uses@ == upward_uses(sofar).union(
                    names_view(used@).take(k as int).to_set().difference(defined(sofar)),
                ),
            decreases used.len() - k,
        {
            let ghost taken = names_view(used@).take(k as int);
            proof {
                assert(names_view(used@).take(k + 1) =~= taken.push(used[k as int]@));
                taken.lemma_push_to_set_commute(used[k as int]@);
            }
            if !defs.contains(&used[k]) {
                uses.insert(used[k].clone());
            }
            assert(uses@ =~= upward_uses(sofar).union(
                names_view(used@).take(k + 1).to_set().difference(defined(sofar)),
            ));
            k += 1;
        }
        assert(names_view(used@).take(used.len() as int) =~= names_view(used@));
        match instr.def_name() {
            Some(d) => {
                defs.insert(d.clone());
                proof {
                    let single = seq_of_option(instr@.def());
                    assert(single[0] == d@);
                    assert(single.to_set() =~= Set::<Seq<char>>::empty().insert(d@));
                }
                assert(defs@ =~= defined(next));
            },
            None => {
                assert(seq_of_option(instr@.def()).to_set() =~= Set::<Seq<char>>::empty());
                assert(defs@ =~= defined(next));
            },
        }
        i += 1;
    }
    assert(instrs.take(block.instrs.len() as int) =~= instrs);
    (defs, uses)
}

/// Every set lies within what its equation allows.
pub open spec fn inflationary(
    g: Seq<BlockView>,
    outs: Seq<Set<Seq<char>>>,
    ins: Seq<Set<Seq<char>>>,
) -> bool {
    forall|b: int|
        0 <= b < g.len() ==> (#[trigger] outs[b]).subset_of(succ_union(g[b].succs, ins))
            && ins[b].subset_of(live_in_of(g[b], outs[b]))
}

/// Every set lies within `u`.
pub open spec fn within(sets: Seq<Set<Seq<char>>>, u: Set<Seq<char>>) -> bool {
    forall|i: int| 0 <= i < sets.len() ==> (#[trigger] sets[i]).subset_of(u)
}

/// The names that the first `upto` blocks read before defining them.
pub open spec fn universe(g: Seq<BlockView>, upto: int) -> Set<Seq<char>>
    decreases upto,
{
    if upto <= 0 {
        Set::empty()
    } else {
        universe(g, upto - 1).union(upward_uses(g[upto - 1].instrs))
    }
}

/// The number of names held by all sets together.
pub open spec fn total_len(v: Seq<NameSet>) -> nat
    decreases v.len(),
{
    if v.len() == 0 {
        0
    } else {
        total_len(v.drop_last()) + v.last().items.len() as nat
    }
}

/// Every edge to a successor ends at a block.
pub open spec fn succs_in_range(g: Seq<BlockView>) -> bool {
    forall|b: int, k: int|
        0 <= b < g.len() && 0 <= k < g[b].succs.len() ==> #[trigger] g[b].succs[k] < g.len()
}

proof fn lemma_upward_uses_finite(instrs: Seq<InstrView>)
    ensures
        upward_uses(instrs).finite(),
    decreases instrs.len(),
{
    if instrs.len() > 0 {
        lemma_upward_uses_finite(instrs.drop_last());
        vstd::seq_lib::seq_to_set_is_finite(instrs.last().uses());
    }
}

proof fn lemma_universe(g: Seq<BlockView>, upto: int)
    requires
        0 <= upto <= g.len(),
    ensures
        universe(g, upto).finite(),
        forall|b: int| 0 <= b < upto ==> upward_uses(#[trigger] g[b].instrs).subset_of(universe(g, upto)),
    decreases upto,
{
    if upto > 0 {
        lemma_universe(g, upto - 1);
        lemma_upward_uses_finite(g[upto - 1].instrs);
    }
}

proof fn lemma_total_update(v: Seq<NameSet>, b: int, x: NameSet)
    requires
        0 <= b < v.len(),
    ensures
        total_len(v.update(b, x)) == total_len(v) - v[b].items.len() + x.items.len(),
    decreases v.len(),
{
    let w = v.update(b, x);
    if b == v.len() - 1 {
        assert(w.drop_last() =~= v.drop_last());
    } else {
        lemma_total_update(v.drop_last(), b, x);
        assert(w.drop_last() =~= v.drop_last().update(b, x));
    }
}

proof fn lemma_total_bound(v: Seq<NameSet>, u: Set<Seq<char>>)
    requires
        all_wf(v),
        within(sets_view(v), u),
        u.finite(),
    ensures
        total_len(v) <= v.len() * u.len(),
    decreases v.len(),
{
    if v.len() > 0 {
        let rest = v.drop_last();
        assert forall|i: int| 0 <= i < rest.len() implies (#[trigger] sets_view(rest)[i]).subset_of(
            u,
        ) by {
            assert(sets_view(v)[i].subset_of(u));
        }
        lemma_total_bound(rest, u);
        let last = v.last();
        assert(sets_view(v)[v.len() - 1].subset_of(u));
        last.lemma_finite();
        vstd::set_lib::lemma_len_subset(last@, u);
        assert(rest.len() * u.len() + u.len() == v.len() * u.len()) by (nonlinear_arith)
            requires
                rest.len() + 1 == v.len(),
        ;
    }
}

/// Recomputing one block from sets that lie within what their equations
/// allow gives sets that do so too, that are no smaller, and that still lie
/// within every solution.
proof fn lemma_step(
    g: Seq<BlockView>,
    outs: Seq<Set<Seq<char>>>,
    ins: Seq<Set<Seq<char>>>,
    b: int,
    u: Set<Seq<char>>,
)
    requires
        outs.len() == g.len(),
        ins.len() == g.len(),
        0 <= b < g.len(),
        succs_in_range(g),
        inflationary(g, outs, ins),
        below_every_solution(g, outs, ins),
        within(outs, u),
        within(ins, u),
        upward_uses(g[b].instrs).subset_of(u),
    ensures
        ({
            let o2 = outs.update(b, succ_union(g[b].succs, ins));
            let i2 = ins.update(b, live_in_of(g[b], o2[b]));
            &&& inflationary(g, o2, i2)
            &&& below_every_solution(g, o2, i2)
            &&& within(o2, u)
            &&& within(i2, u)
            &&& outs[b].subset_of(o2[b])
            &&& ins[b].subset_of(i2[b])
            &&& (o2 == outs && i2 == ins ==> exact_at(g, outs, ins, b))
        }),
{
    let o2 = outs.update(b, succ_union(g[b].succs, ins));
    let i2 = ins.update(b, live_in_of(g[b], o2[b]));
    assert(outs[b].subset_of(o2[b]));
    assert(ins[b].subset_of(live_in_of(g[b], outs[b])));
    assert(ins[b].subset_of(i2[b]));
    assert forall|a: int| 0 <= a < g.len() implies (#[trigger] o2[a]).subset_of(
        succ_union(g[a].succs, i2),
    ) && i2[a].subset_of(live_in_of(g[a], o2[a])) by {
        assert(outs[a].subset_of(succ_union(g[a].succs, ins)));
        assert forall|x: Seq<char>| succ_union(g[a].succs, ins).contains(x) implies succ_union(
            g[a].succs,
            i2,
        ).contains(x) by {
            let k = choose|k: int|
                0 <= k < g[a].succs.len() && g[a].succs[k] < ins.len() && (
                #[trigger] ins[g[a].succs[k] as int]).contains(x);
            assert(i2[g[a].succs[k] as int].contains(x));
        }
        assert(ins[a].subset_of(live_in_of(g[a], outs[a])));
    }
    assert forall|o: Seq<Set<Seq<char>>>, i: Seq<Set<Seq<char>>>| #[trigger]
        is_solution(g, o, i) implies pointwise_subset(o2, o) && pointwise_subset(i2, i) by {
        assert(pointwise_subset(outs, o) && pointwise_subset(ins, i));
        assert(exact_at(g, o, i, b));
        assert forall|x: Seq<char>| o2[b].contains(x) implies o[b].contains(x) by {
            let k = choose|k: int|
                0 <= k < g[b].succs.len() && g[b].succs[k] < ins.len() && (
                #[trigger] ins[g[b].succs[k] as int]).contains(x);
            assert(ins[g[b].succs[k] as int].subset_of(i[g[b].succs[k] as int]));
            assert(i[g[b].succs[k] as int].contains(x));
        }
        assert forall|a: int| 0 <= a < o2.len() implies (#[trigger] o2[a]).subset_of(o[a]) by {
            assert(outs[a].subset_of(o[a]));
        }
        assert forall|a: int| 0 <= a < i2.len() implies (#[trigger] i2[a]).subset_of(i[a]) by {
            assert(ins[a].subset_of(i[a]));
        }
    }
    assert forall|x: Seq<char>| o2[b].contains(x) implies u.contains(x) by {
        let k = choose|k: int|
            0 <= k < g[b].succs.len() && g[b].succs[k] < ins.len() && (
            #[trigger] ins[g[b].succs[k] as int]).contains(x);
        assert(ins[g[b].succs[k] as int].subset_of(u));
    }
    assert forall|a: int| 0 <= a < o2.len() implies (#[trigger] o2[a]).subset_of(u) by {
        assert(outs[a].subset_of(u));
    }
    assert forall|a: int| 0 <= a < i2.len() implies (#[trigger] i2[a]).subset_of(u) by {
        assert(ins[a].subset_of(u));
    }
}

/// Recomputes the two sets of block `b` from the sets as they stand.
fn update_block(
    func: &IrFunction,
    b: usize,
    uses: &Vec<NameSet>,
    defs: &Vec<NameSet>,
    live_out: &mut Vec<NameSet>,
    live_in: &mut Vec<NameSet>,
) -> (changed: bool)
    requires
        b < func.blocks.len(),
        uses.len() == func.blocks.len(),
        defs.len() == func.blocks.len(),
        old(live_out).len() == func.blocks.len(),
        old(live_in).len() == func.blocks.len(),
        succs_in_range(func.graph()),
        all_wf(old(live_out)@),
        all_wf(old(live_in)@),
        uses[b as int]@ == upward_uses(func.graph()[b as int].instrs),
        defs[b as int]@ == defined(func.graph()[b as int].instrs),
        inflationary(func.graph(), sets_view(old(live_out)@), sets_view(old(live_in)@)),
    ensures
        final(live_out).len() == func.blocks.len(),
        final(live_in).len() == func.blocks.len(),
        all_wf(final(live_out)@),
        all_wf(final(live_in)@),
        sets_view(final(live_out)@) == sets_view(old(live_out)@).update(
            b as int,
            succ_union(func.graph()[b as int].succs, sets_view(old(live_in)@)),
        ),
        sets_view(final(live_in)@) == sets_view(old(live_in)@).update(
            b as int,
            live_in_of(func.graph()[b as int], sets_view(final(live_out)@)[b as int]),
        ),
        total_len(final(live_out)@) >= total_len(old(live_out)@),
        total_len(final(live_in)@) >= total_len(old(live_in)@),
        changed == (total_len(final(live_out)@) + total_len(final(live_in)@) > total_len(
            old(live_out)@,
        ) + total_len(old(live_in)@)),
        !changed ==> sets_view(final(live_out)@) == sets_view(old(live_out)@) && sets_view(
            final(live_in)@,
        ) == sets_view(old(live_in)@),
{
    let ghost g = func.graph();
    let ghost outs0 = sets_view(live_out@);
    let ghost ins0 = sets_view(live_in@);
    let n = func.blocks.len();
    let succs = &func.blocks[b].succs;
    assert(succs@ == g[b as int].succs);
    let mut grew_out = false;
    let mut k: usize = 0;
    assert(succ_union(succs@.take(0), ins0) =~= Set::<Seq<char>>::empty());
    assert(live_out[b as int]@ =~= outs0[b as int].union(succ_union(succs@.take(0), ins0)));
    while k < succs.len()
        invariant
            k <= succs.len(),
            b < n,
            n == g.len(),
            succs@ == g[b as int].succs,
            succs_in_range(g),
            live_out.len() == n,
            live_in.len() == n,
            ins0 == sets_view(live_in@),
            forall|j: int| 0 <= j < n && j != b ==> live_out[j] == old(live_out)[j],
            live_out[b as int].wf(),
            live_out[b as int]@ == outs0[b as int].union(succ_union(succs@.take(k as int), ins0)),
            live_out[b as int].items.len() >= old(live_out)[b as int].items.len(),
            grew_out == (live_out[b as int].items.len() > old(live_out)[b as int].items.len()),
            !grew_out ==> live_out[b as int]@ == outs0[b as int],
        decreases succs.len() - k,
    {
        let s = succs[k];
        assert(g[b as int].succs[k as int] < g.len());
        let ghost before = live_out[b as int]@;
        if live_out[b].absorb(&live_in[s]) {
            grew_out = true;
        }
        proof {
            let t0 = succs@.take(k as int);
            let t1 = succs@.take(k + 1);
            assert(ins0[s as int] == live_in[s as int]@);
            assert forall|x: Seq<char>| succ_union(t1, ins0).contains(x) <==> (succ_union(
                t0,
                ins0,
            ).contains(x) || ins0[s as int].contains(x)) by {
                if succ_union(t1, ins0).contains(x) {
                    let j = choose|j: int|
                        0 <= j < t1.len() && t1[j] < ins0.len() && (#[trigger] ins0[t1[j] as int]).contains(
                            x,
                        );
                    if j < k {
                        assert(t0[j] == t1[j]);
                    }
                }
                if succ_union(t0, ins0).contains(x) {
                    let j = choose|j: int|
                        0 <= j < t0.len() && t0[j] < ins0.len() && (#[trigger] ins0[t0[j] as int]).contains(
                            x,
                        );
                    assert(t1[j] == t0[j]);
                }
                if ins0[s as int].contains(x) {
                    assert(t1[k as int] == s);
                    assert(ins0[t1[k as int] as int].contains(x));
                }
            }
            assert(live_out[b as int]@ =~= outs0[b as int].union(succ_union(t1, ins0)));
        }
        k += 1;
    }
    assert(succs@.take(succs.len() as int) =~= succs@);
    let ghost new_out = succ_union(g[b as int].succs, ins0);
    proof {
        assert(outs0[b as int].subset_of(new_out));
        assert(live_out[b as int]@ =~= new_out);
        assert(live_out@ =~= old(live_out)@.update(b as int, live_out[b as int]));
        lemma_total_update(old(live_out)@, b as int, live_out[b as int]);
        assert(sets_view(live_out@) =~= outs0.update(b as int, new_out));
        if !grew_out {
            assert(sets_view(live_out@) =~= outs0);
        }
    }
    let ghost in_before = live_in[b as int];
    let a1 = live_in[b].absorb(&uses[b]);
    let ghost in_mid = live_in[b as int];
    let a2 = live_in[b].absorb_except(&live_out[b], &defs[b]);
    proof {
        let new_in = live_in_of(g[b as int], new_out);
        assert(ins0[b as int].subset_of(live_in_of(g[b as int], outs0[b as int])));
        assert(live_in[b as int]@ =~= new_in);
        assert(live_in@ =~= old(live_in)@.update(b as int, live_in[b as int]));
        lemma_total_update(old(live_in)@, b as int, live_in[b as int]);
        assert(sets_view(live_in@) =~= ins0.update(b as int, new_in));
        if !a1 && !a2 {
            assert(sets_view(live_in@) =~= ins0);
        }
        assert forall|j: int| 0 <= j < n implies (#[trigger] live_out[j]).wf() by {
            if j != b {
                assert(old(live_out)[j].wf());
            }
        }
        assert forall|j: int| 0 <= j < n implies (#[trigger] live_in[j]).wf() by {
            if j != b {
                assert(old(live_in)[j].wf());
            }
        }
    }
    grew_out || a1 || a2
}

/// `n` empty sets.
fn empty_sets(n: usize) -> (r: Vec<NameSet>)
    ensures
        r.len() == n,
        all_wf(r@),
        forall|i: int| 0 <= i < n ==> (#[trigger] r[i])@ == Set::<Seq<char>>::empty(),
        total_len(r@) == 0,
{
    let mut r: Vec<NameSet> = Vec::new();
    let mut i: usize = 0;
    while i < n
        invariant
            i <= n,
            r.len() == i,
            all_wf(r@),
            forall|j: int| 0 <= j < i ==> (#[trigger] r[j])@ == Set::<Seq<char>>::empty(),
            total_len(r@) == 0,
        decreases n - i,
    {
        let ghost before = r@;
        r.push(NameSet::new());
        assert(r@.drop_last() =~= before);
        i += 1;
    }
    r
}

/// Computes, for every block, the names that are live when it ends and the
/// names that are live when it starts: the first list holds `LiveOut`, the
/// second `LiveIn`.
///
/// The result solves both equations at every block, so recomputing any block
/// from it changes nothing; and it lies within every other solution.
pub fn compute_liveness(func: &IrFunction) -> (r: (Vec<NameSet>, Vec<NameSet>))
    requires
        succs_in_range(func.graph()),
    ensures
        r.0.len() == func.blocks.len(),
        r.1.len() == func.blocks.len(),
        all_wf(r.0@),
        all_wf(r.1@),
        is_solution(func.graph(), sets_view(r.0@), sets_view(r.1@)),
        below_every_solution(func.graph(), sets_view(r.0@), sets_view(r.1@)),
        (sets_view(r.0@), sets_view(r.1@)) == liveness_of(func.graph()),
{
    let n = func.blocks.len();
    let ghost g = func.graph();
    let mut uses: Vec<NameSet> = Vec::new();
    let mut defs: Vec<NameSet> = Vec::new();
    let mut i: usize = 0;
    while i < n
        invariant
            i <= n,
            n == func.blocks.len(),
            g == func.graph(),
            uses.len() == i,
            defs.len() == i,
            forall|j: int| 0 <= j < i ==> (#[trigger] uses[j])@ == upward_uses(g[j].instrs),
            forall|j: int| 0 <= j < i ==> (#[trigger] defs[j])@ == defined(g[j].instrs),
        decreases n - i,
    {
        assert(g[i as int] == func.blocks[i as int]@);
        let (d, u) = compute_block_def_use(&func.blocks[i]);
        uses.push(u);
        defs.push(d);
        i += 1;
    }
    let mut live_out = empty_sets(n);
    let mut live_in = empty_sets(n);
    let ghost u = universe(g, n as int);
    proof {
        lemma_universe(g, n as int);
        assert(inflationary(g, sets_view(live_out@), sets_view(live_in@)));
        assert(within(sets_view(live_out@), u));
        assert(within(sets_view(live_in@), u));
        assert(below_every_solution(g, sets_view(live_out@), sets_view(live_in@)));
        lemma_total_bound(live_out@, u);
        lemma_total_bound(live_in@, u);
    }
    loop
        invariant
            n == func.blocks.len(),
            g == func.graph(),
            succs_in_range(g),
            uses.len() == n,
            defs.len() == n,
            forall|j: int| 0 <= j < n ==> (#[trigger] uses[j])@ == upward_uses(g[j].instrs),
            forall|j: int| 0 <= j < n ==> (#[trigger] defs[j])@ == defined(g[j].instrs),
            live_out.len() == n,
            live_in.len() == n,
            all_wf(live_out@),
            all_wf(live_in@),
            u == universe(g, n as int),
            u.finite(),
            inflationary(g, sets_view(live_out@), sets_view(live_in@)),
            below_every_solution(g, sets_view(live_out@), sets_view(live_in@)),
            within(sets_view(live_out@), u),
            within(sets_view(live_in@), u),
            total_len(live_out@) <= n * u.len(),
            total_len(live_in@) <= n * u.len(),
        ensures
            is_solution(g, sets_view(live_out@), sets_view(live_in@)),
        decreases 2 * (n * u.len()) - total_len(live_out@) - total_len(live_in@),
    {
        let ghost start_out = sets_view(live_out@);
        let ghost start_in = sets_view(live_in@);
        let ghost start_total = total_len(live_out@) + total_len(live_in@);
        let mut changed = false;
        let mut b: usize = n;
        while b > 0
            invariant
                b <= n,
                n == func.blocks.len(),
                g == func.graph(),
                succs_in_range(g),
                uses.len() == n,
                defs.len() == n,
                forall|j: int| 0 <= j < n ==> (#[trigger] uses[j])@ == upward_uses(g[j].instrs),
                forall|j: int| 0 <= j < n ==> (#[trigger] defs[j])@ == defined(g[j].instrs),
                live_out.len() == n,
                live_in.len() == n,
                all_wf(live_out@),
                all_wf(live_in@),
                u == universe(g, n as int),
                u.finite(),
                inflationary(g, sets_view(live_out@), sets_view(live_in@)),
                below_every_solution(g, sets_view(live_out@), sets_view(live_in@)),
                within(sets_view(live_out@), u),
                within(sets_view(live_in@), u),
                total_len(live_out@) + total_len(live_in@) >= start_total,
                changed == (total_len(live_out@) + total_len(live_in@) > start_total),
                !changed ==> sets_view(live_out@) == start_out && sets_view(live_in@) == start_in,
                !changed ==> forall|a: int| b <= a < n ==> exact_at(g, start_out, start_in, a),
            decreases b,
        {
            b -= 1;
            let ghost outs = sets_view(live_out@);
            let ghost ins = sets_view(live_in@);
            proof {
                lemma_universe(g, n as int);
                assert(upward_uses(g[b as int].instrs).subset_of(u));
                lemma_step(g, outs, ins, b as int, u);
            }
            let grew = update_block(func, b, &uses, &defs, &mut live_out, &mut live_in);
            if grew {
                changed = true;
            }
        }
        proof {
            lemma_total_bound(live_out@, u);
            lemma_total_bound(live_in@, u);
        }
        if !changed {
            break ;
        }
    }
    proof {
        let found = (sets_view(live_out@), sets_view(live_in@));
        assert(is_least_solution(g, found.0, found.1));
        let chosen = liveness_of(g);
        lemma_least_solution_unique(g, found.0, found.1, chosen.0, chosen.1);
    }
    (live_out, live_in)
}

} // verus!
