//! Placement of φ-instructions: a name needs a φ at every block that can be
//! reached from one of its definitions by steps along the dominance
//! frontier, unless the block defines the name itself.

use crate::def_sites::DefSites;
use crate::frontier::lists_view;
use crate::names::AssocView;
use crate::function::{instrs_view, BlockView, IrFunction};
use crate::ir::{sources_view, InstrView, IrInstruction};
use vstd::prelude::*;

verus! {

/// A walk of one or more frontier steps that starts at a definition site.
pub open spec fn frontier_walk(df: Seq<Seq<usize>>, sites: Seq<usize>, path: Seq<usize>) -> bool {
    &&& path.len() >= 2
    &&& sites.contains(path[0])
    &&& forall|i: int|
        #![trigger path[i]]
        0 <= i < path.len() - 1 ==> path[i] < df.len() && df[path[i] as int].contains(path[i + 1])
}

/// Block `m` gets a φ for a name with these definition sites.
pub open spec fn needs_phi(df: Seq<Seq<usize>>, sites: Seq<usize>, m: usize) -> bool {
    &&& !sites.contains(m)
    &&& exists|path: Seq<usize>| #[trigger] frontier_walk(df, sites, path) && path.last() == m
}

/// A φ for `name` whose sources are all still open.
pub open spec fn open_phi(name: Seq<char>, npreds: nat) -> InstrView {
    InstrView::Phi { dest: name, sources: Seq::new(npreds, |i: int| None::<Seq<char>>) }
}

/// The φs that block `m` gets for the first `upto` names.  Each name's φ is
/// put in front of those of the names before it.
pub open spec fn phi_prefix(
    df: Seq<Seq<usize>>,
    sites: AssocView<Seq<usize>>,
    upto: int,
    m: usize,
    npreds: nat,
) -> Seq<InstrView>
    decreases upto,
{
    if upto <= 0 {
        Seq::empty()
    } else {
        let rest = phi_prefix(df, sites, upto - 1, m, npreds);
        if needs_phi(df, sites.vals[upto - 1], m) {
            seq![open_phi(sites.keys[upto - 1], npreds)] + rest
        } else {
            rest
        }
    }
}

/// The definition sites as contracts see them.
pub open spec fn sites_view(sites: DefSites) -> AssocView<Seq<usize>> {
    AssocView { keys: sites.key_seq(), vals: lists_view(sites.vals@) }
}

/// The graph with the φs of every name put at the head of each block.
pub open spec fn with_phis(g: Seq<BlockView>, df: Seq<Seq<usize>>, sites: AssocView<Seq<usize>>) -> Seq<
    BlockView,
> {
    Seq::new(
        g.len(),
        |m: int|
            BlockView {
                label: g[m].label,
                instrs: phi_prefix(df, sites, sites.keys.len() as int, m as usize, g[m].preds.len())
                    + g[m].instrs,
                preds: g[m].preds,
                succs: g[m].succs,
            },
    )
}

/// `after` is `before` with the φs of the first `upto` names put at the head
/// of each block.
pub open spec fn phis_placed(
    before: Seq<BlockView>,
    after: Seq<BlockView>,
    df: Seq<Seq<usize>>,
    sites: AssocView<Seq<usize>>,
    upto: int,
) -> bool {
    &&& after.len() == before.len()
    &&& forall|m: int|
        0 <= m < before.len() ==> #[trigger] after[m] == (BlockView {
            label: before[m].label,
            instrs: phi_prefix(df, sites, upto, m as usize, before[m].preds.len())
                + before[m].instrs,
            preds: before[m].preds,
            succs: before[m].succs,
        })
}

/// Every frontier entry and every definition site is a block.
pub open spec fn lists_in_range(lists: Seq<Seq<usize>>, n: nat) -> bool {
    forall|x: int, i: int| 0 <= x < lists.len() && 0 <= i < lists[x].len() ==> #[trigger] lists[x][i] < n
}

/// How many entries are `false`.
pub open spec fn count_false(s: Seq<bool>) -> nat
    decreases s.len(),
{
    if s.len() == 0 {
        0
    } else {
        count_false(s.drop_last()) + if s.last() {
            0nat
        } else {
            1nat
        }
    }
}

proof fn lemma_count_false_set(s: Seq<bool>, i: int)
    requires
        0 <= i < s.len(),
        !s[i],
    ensures
        count_false(s.update(i, true)) + 1 == count_false(s),
    decreases s.len(),
{
    let t = s.update(i, true);
    if i == s.len() - 1 {
        assert(t.drop_last() =~= s.drop_last());
    } else {
        lemma_count_false_set(s.drop_last(), i);
        assert(t.drop_last() =~= s.drop_last().update(i, true));
    }
}

/// A set of blocks that holds the sites and is closed under frontier steps
/// holds the end of every walk.
proof fn lemma_closed_holds_walks(
    df: Seq<Seq<usize>>,
    sites: Seq<usize>,
    marked: Seq<bool>,
    path: Seq<usize>,
)
    requires
        marked.len() == df.len(),
        lists_in_range(df, df.len()),
        forall|i: int| 0 <= i < sites.len() ==> sites[i] < df.len() && marked[sites[i] as int],
        forall|x: int, i: int|
            0 <= x < df.len() && marked[x] && 0 <= i < df[x].len() ==> marked[#[trigger] df[x][i] as int],
        frontier_walk(df, sites, path),
    ensures
        path.last() < df.len(),
        marked[path.last() as int],
    decreases path.len(),
{
    let len = path.len() as int;
    let x = path[len - 2];
    let m = path[len - 1];
    assert(x < df.len() && df[x as int].contains(path[len - 2 + 1]));
    if len == 2 {
        let k = choose|k: int| 0 <= k < sites.len() && sites[k] == path[0];
        assert(marked[x as int]);
    } else {
        let rest = path.drop_last();
        assert(frontier_walk(df, sites, rest)) by {
            assert forall|i: int| #![trigger rest[i]] 0 <= i < rest.len() - 1 implies rest[i]
                < df.len() && df[rest[i] as int].contains(rest[i + 1]) by {
                assert(path[i] < df.len() && df[path[i] as int].contains(path[i + 1]));
            }
        }
        lemma_closed_holds_walks(df, sites, marked, rest);
    }
    let i = choose|i: int| 0 <= i < df[x as int].len() && df[x as int][i] == m;
    assert(marked[df[x as int][i] as int]);
}

/// A list of `n` open sources.
fn open_sources(n: usize) -> (r: Vec<Option<String>>)
    ensures
        sources_view(r@) == Seq::new(n as nat, |i: int| None::<Seq<char>>),
{
    let mut r: Vec<Option<String>> = Vec::new();
    let mut i: usize = 0;
    while i < n
        invariant
            i <= n,
            r.len() == i,
            forall|j: int| 0 <= j < i ==> r[j] is None,
        decreases n - i,
    {
        r.push(None);
        i += 1;
    }
    assert(sources_view(r@) =~= Seq::new(n as nat, |i: int| None::<Seq<char>>));
    r
}

/// Places the φs of one name.
fn place_phis_for(func: &mut IrFunction, df: &Vec<Vec<usize>>, name: &String, sites: &Vec<usize>)
    requires
        df.len() == old(func).blocks.len(),
        lists_in_range(lists_view(df@), df.len() as nat),
        forall|i: int| 0 <= i < sites.len() ==> sites[i] < df.len(),
    ensures
        final(func).name == old(func).name,
        final(func).args == old(func).args,
        final(func).label_to_idx == old(func).label_to_idx,
        final(func).blocks.len() == old(func).blocks.len(),
        forall|m: int|
            0 <= m < df.len() ==> #[trigger] final(func).graph()[m] == (BlockView {
                label: old(func).graph()[m].label,
                instrs: if needs_phi(lists_view(df@), sites@, m as usize) {
                    seq![open_phi(name@, old(func).graph()[m].preds.len())] + old(
                        func,
                    ).graph()[m].instrs
                } else {
                    old(func).graph()[m].instrs
                },
                preds: old(func).graph()[m].preds,
                succs: old(func).graph()[m].succs,
            }),
{
    let n = func.blocks.len();
    let ghost g0 = func.graph();
    let ghost dfv = lists_view(df@);
    assert forall|x: int, i: int| 0 <= x < df.len() && 0 <= i < df[x].len() implies #[trigger] df[x][i]
        < n by {
        assert(dfv[x][i] < n);
    }
    let mut marked: Vec<bool> = Vec::new();
    let mut i: usize = 0;
    while i < n
        invariant
            i <= n,
            marked.len() == i,
            forall|j: int| 0 <= j < i ==> !marked[j],
        decreases n - i,
    {
        marked.push(false);
        i += 1;
    }
    let mut worklist: Vec<usize> = Vec::new();
    let mut i: usize = 0;
    while i < sites.len()
        invariant
            i <= sites.len(),
            n == df.len(),
            marked.len() == n,
            worklist@ == sites@.take(i as int),
            forall|i: int| 0 <= i < sites.len() ==> sites[i] < df.len(),
            forall|m: usize|
                m < n ==> (#[trigger] marked[m as int] <==> sites@.take(i as int).contains(m)),
        decreases sites.len() - i,
    {
        let s = sites[i];
        let ghost before = marked@;
        marked.set(s, true);
        worklist.push(s);
        proof {
            let prev = sites@.take(i as int);
            let next = sites@.take(i + 1);
            assert(next =~= prev.push(s));
            assert forall|m: usize| m < n implies (#[trigger] marked[m as int] <==> next.contains(
                m,
            )) by {
                crate::function::lemma_push_contains(prev, s, m);
                assert(before[m as int] <==> prev.contains(m));
            }
        }
        i += 1;
    }
    assert(sites@.take(sites.len() as int) =~= sites@);
    let ghost mut placed: Seq<bool> = Seq::new(n as nat, |m: int| false);
    assert(func.graph() =~= g0);
    while worklist.len() > 0
        invariant
            n == df.len(),
            n == func.blocks.len(),
            marked.len() == n,
            placed.len() == n,
            g0.len() == n,
            lists_in_range(lists_view(df@), df.len() as nat),
            forall|x: int, i: int| 0 <= x < df.len() && 0 <= i < df[x].len() ==> #[trigger] df[x][i] < n,
            forall|i: int| 0 <= i < sites.len() ==> sites[i] < df.len(),
            func.name == old(func).name,
            func.args == old(func).args,
            func.label_to_idx == old(func).label_to_idx,
            g0 == old(func).graph(),
            forall|i: int| 0 <= i < worklist.len() ==> worklist[i] < n && marked[worklist[i] as int],
            forall|m: usize|
                m < n ==> (#[trigger] marked[m as int] <==> (sites@.contains(m) || placed[m as int])),
            forall|m: usize| m < n && #[trigger] placed[m as int] ==> needs_phi(lists_view(df@), sites@, m),
            forall|x: int|
                0 <= x < n && marked[x] ==> worklist@.contains(x as usize) || forall|i: int|
                    0 <= i < df[x].len() ==> marked[#[trigger] df[x][i] as int],
            forall|m: int|
                0 <= m < n ==> #[trigger] func.graph()[m] == (BlockView {
                    label: g0[m].label,
                    instrs: if placed[m] {
                        seq![open_phi(name@, g0[m].preds.len())] + g0[m].instrs
                    } else {
                        g0[m].instrs
                    },
                    preds: g0[m].preds,
                    succs: g0[m].succs,
                }),
        decreases count_false(marked@), worklist.len(),
    {
        let ghost wl_before = worklist@;
        let x = worklist.pop().unwrap();
        assert(x == wl_before[wl_before.len() - 1]);
        proof {
            assert forall|y: int| 0 <= y < n && marked[y] && y != x implies worklist@.contains(
                y as usize,
            ) || forall|i: int| 0 <= i < df[y].len() ==> marked[#[trigger] df[y][i] as int] by {
                if wl_before.contains(y as usize) {
                    let k = choose|k: int| 0 <= k < wl_before.len() && wl_before[k] == y as usize;
                    assert(worklist@[k] == y as usize);
                }
            }
        }
        let frontier = &df[x];
        let ghost marked_start = marked@;
        let mut k: usize = 0;
        while k < frontier.len()
            invariant
                k <= frontier.len(),
                x < n,
                frontier == df[x as int],
                marked[x as int],
                n == df.len(),
                n == func.blocks.len(),
                marked.len() == n,
                placed.len() == n,
                g0.len() == n,
                lists_in_range(lists_view(df@), df.len() as nat),
                forall|x: int, i: int|
                    0 <= x < df.len() && 0 <= i < df[x].len() ==> #[trigger] df[x][i] < n,
                forall|i: int| 0 <= i < sites.len() ==> sites[i] < df.len(),
                func.name == old(func).name,
                func.args == old(func).args,
                func.label_to_idx == old(func).label_to_idx,
                g0 == old(func).graph(),
                worklist.len() >= wl_before.len() - 1,
                count_false(marked@) <= count_false(marked_start),
                count_false(marked@) < count_false(marked_start) || worklist.len() == wl_before.len()
                    - 1,
                forall|i: int|
                    0 <= i < worklist.len() ==> worklist[i] < n && marked[worklist[i] as int],
                forall|m: usize|
                    m < n ==> (#[trigger] marked[m as int] <==> (sites@.contains(m) || placed[m as int])),
                forall|m: usize| m < n && #[trigger] placed[m as int] ==> needs_phi(lists_view(df@), sites@, m),
                forall|i: int| 0 <= i < k ==> marked[#[trigger] frontier[i] as int],
                forall|y: int|
                    0 <= y < n && marked[y] && y != x ==> worklist@.contains(y as usize) || forall|
                        i: int,
                    | 0 <= i < df[y].len() ==> marked[#[trigger] df[y][i] as int],
                forall|m: int|
                    0 <= m < n ==> #[trigger] func.graph()[m] == (BlockView {
                        label: g0[m].label,
                        instrs: if placed[m] {
                            seq![open_phi(name@, g0[m].preds.len())] + g0[m].instrs
                        } else {
                            g0[m].instrs
                        },
                        preds: g0[m].preds,
                        succs: g0[m].succs,
                    }),
            decreases frontier.len() - k,
        {
            let m = frontier[k];
            assert(df[x as int][k as int] < n);
            if !marked[m] {
                let ghost marked_before = marked@;
                let ghost wl = worklist@;
                let ghost g1 = func.graph();
                proof {
                    lemma_count_false_set(marked@, m as int);
                    // A walk to `x`, or `x` itself where it is a site, goes on to `m`.
                    assert(df[x as int]@[k as int] == m);
                    if sites@.contains(x) {
                        let path = seq![x, m];
                        assert(frontier_walk(lists_view(df@), sites@, path));
                        assert(path.last() == m);
                    } else {
                        assert(placed[x as int]);
                        let to_x = choose|path: Seq<usize>| #[trigger]
                            frontier_walk(lists_view(df@), sites@, path) && path.last() == x;
                        let path = to_x.push(m);
                        assert forall|i: int| #![trigger path[i]] 0 <= i < path.len() - 1 implies path[i]
                            < df.len() && lists_view(df@)[path[i] as int].contains(path[i + 1]) by {
                            if i < to_x.len() - 1 {
                                assert(to_x[i] < df.len() && lists_view(df@)[to_x[i] as int].contains(to_x[i + 1]));
                            }
                        }
                        assert(frontier_walk(lists_view(df@), sites@, path));
                        assert(path.last() == m);
                    }
                    assert(needs_phi(lists_view(df@), sites@, m));
                }
                marked.set(m, true);
                let npreds = func.blocks[m].preds.len();
                assert(g1[m as int] == func.blocks[m as int]@);
                func.blocks[m].instrs.insert(
                    0,
                    IrInstruction::Phi { dest: name.clone(), sources: open_sources(npreds) },
                );
                worklist.push(m);
                proof {
                    placed = placed.update(m as int, true);
                    assert(instrs_view(func.blocks[m as int].instrs@) =~= seq![
                        open_phi(name@, g0[m as int].preds.len()),
                    ] + g0[m as int].instrs);
                    assert forall|j: int| 0 <= j < n implies #[trigger] func.graph()[j] == (BlockView {
                        label: g0[j].label,
                        instrs: if placed[j] {
                            seq![open_phi(name@, g0[j].preds.len())] + g0[j].instrs
                        } else {
                            g0[j].instrs
                        },
                        preds: g0[j].preds,
                        succs: g0[j].succs,
                    }) by {
                        if j != m {
                            assert(func.graph()[j] == g1[j]);
                        }
                    }
                    assert forall|y: int| 0 <= y < n && marked[y] && y != x implies worklist@.contains(
                        y as usize,
                    ) || forall|i: int| 0 <= i < df[y].len() ==> marked[#[trigger] df[y][i] as int] by {
                        crate::function::lemma_push_contains(wl, m, y as usize);
                        if y != m {
                            assert(marked_before[y]);
                        }
                    }
                }
            }
            k += 1;
        }
        proof {
            assert forall|y: int| 0 <= y < n && marked[y] implies worklist@.contains(y as usize)
                || forall|i: int| 0 <= i < df[y].len() ==> marked[#[trigger] df[y][i] as int] by {}
        }
    }
    proof {
        assert forall|m: usize| m < n && needs_phi(lists_view(df@), sites@, m) implies placed[m as int] by {
            let path = choose|path: Seq<usize>| #[trigger]
                frontier_walk(lists_view(df@), sites@, path) && path.last() == m;
            assert forall|i: int| 0 <= i < sites.len() implies sites[i] < df.len()
                && marked@[sites[i] as int] by {
                assert(sites@[i] == sites[i]);
                assert(sites@.contains(sites[i]));
                assert(marked[sites[i] as int] <==> (sites@.contains(sites[i])
                    || placed[sites[i] as int]));
            }
            assert forall|x: int, i: int|
                0 <= x < dfv.len() && marked@[x] && 0 <= i < dfv[x].len() implies marked@[#[trigger] dfv[x][i] as int] by {
                assert(!worklist@.contains(x as usize));
                assert(dfv[x][i] == df[x][i]);
            }
            lemma_closed_holds_walks(lists_view(df@), sites@, marked@, path);
        }
    }
}

/// Places, for every name, a φ with open sources at the head of every block
/// that needs one.  Names are handled in the order in which `sites` holds
/// them, so the φ of a later name stands in front of that of an earlier one.
pub fn insert_phis(func: &mut IrFunction, df: &Vec<Vec<usize>>, sites: &DefSites)
    requires
        df.len() == old(func).blocks.len(),
        lists_in_range(lists_view(df@), df.len() as nat),
        sites.keys.len() == sites.vals.len(),
        lists_in_range(lists_view(sites.vals@), df.len() as nat),
    ensures
        final(func).name == old(func).name,
        final(func).args == old(func).args,
        final(func).label_to_idx == old(func).label_to_idx,
        phis_placed(
            old(func).graph(),
            final(func).graph(),
            lists_view(df@),
            sites_view(*sites),
            sites.keys.len() as int,
        ),
        final(func).graph() == with_phis(old(func).graph(), lists_view(df@), sites_view(*sites)),
{
    let ghost g0 = func.graph();
    let n = func.blocks.len();
    let mut j: usize = 0;
    assert(phis_placed(g0, func.graph(), lists_view(df@), sites_view(*sites), 0)) by {
        assert forall|m: int| 0 <= m < g0.len() implies #[trigger] func.graph()[m] == (BlockView {
            label: g0[m].label,
            instrs: phi_prefix(lists_view(df@), sites_view(*sites), 0, m as usize, g0[m].preds.len()) + g0[m].instrs,
            preds: g0[m].preds,
            succs: g0[m].succs,
        }) by {
            assert(phi_prefix(lists_view(df@), sites_view(*sites), 0, m as usize, g0[m].preds.len()) + g0[m].instrs
                =~= g0[m].instrs);
        }
    }
    while j < sites.keys.len()
        invariant
            j <= sites.keys.len(),
            n == func.blocks.len(),
            n == g0.len(),
            df.len() == n,
            lists_in_range(lists_view(df@), df.len() as nat),
            sites.keys.len() == sites.vals.len(),
            lists_in_range(lists_view(sites.vals@), df.len() as nat),
            func.name == old(func).name,
            func.args == old(func).args,
            func.label_to_idx == old(func).label_to_idx,
            g0 == old(func).graph(),
            phis_placed(g0, func.graph(), lists_view(df@), sites_view(*sites), j as int),
        decreases sites.keys.len() - j,
    {
        let ghost g1 = func.graph();
        assert forall|i: int| 0 <= i < sites.vals[j as int].len() implies sites.vals[j as int][i]
            < df.len() by {
            assert(sites.vals@[j as int][i] < df.len());
        }
        place_phis_for(func, df, &sites.keys[j], &sites.vals[j]);
        proof {
            let g2 = func.graph();
            assert forall|m: int| 0 <= m < g0.len() implies #[trigger] g2[m] == (BlockView {
                label: g0[m].label,
                instrs: phi_prefix(lists_view(df@), sites_view(*sites), j + 1, m as usize, g0[m].preds.len()) + g0[m].instrs,
                preds: g0[m].preds,
                succs: g0[m].succs,
            }) by {
                let rest = phi_prefix(lists_view(df@), sites_view(*sites), j as int, m as usize, g0[m].preds.len());
                assert(g1[m].instrs == rest + g0[m].instrs);
                if needs_phi(lists_view(df@), sites.vals[j as int]@, m as usize) {
                    let head = seq![open_phi(sites.keys[j as int]@, g0[m].preds.len())];
                    assert(head + (rest + g0[m].instrs) =~= (head + rest) + g0[m].instrs);
                }
            }
        }
        j += 1;
    }
    assert(func.graph() =~= with_phis(g0, lists_view(df@), sites_view(*sites)));
}

} // verus!
