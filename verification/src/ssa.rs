//! Construction of static single-assignment form, function by function:
//! immediate dominators, dominance frontier, dominator tree, placement of
//! φs, renaming.

use crate::def_sites::{
    collect_defs, def_events, defined_names, lemma_sites_of_contains, sites_of, DefSites,
};
use crate::dominators::{
    all_reachable, idom_of, idom_valid, immediate_dominators, is_idom_table, preds_in_range,
    preds_of, strictly_dominates,
};
use crate::frontier::{
    dominance_frontier, dominator_tree, frontier_of, in_frontier, is_child, is_dom_tree, is_frontier, lemma_list_of, lists_view, tree_of,
};
use crate::function::{BlockView, IrFunction, IrModule};
use crate::ir::{InstrView, IrError};
use crate::names::{names_view, AssocView, StrMap};
use crate::phi::{insert_phis, lists_in_range, sites_view, with_phis};
use crate::rename::{state_of, Counters, RenameState, Stacks};
use crate::walk::{defs_of, rename_pass, walk_block, walk_ready, Walk};
use crate::tables::{
    btree_map_to_lists, holds_lists, is_table, lemma_lists_round_trip, lemma_table_round_trip, lemma_table_size, lists_seq, lists_to_btree_map, lists_to_hash_map, map_to_table, table_len, table_map, table_seq, table_size, table_to_map,
};
use std::collections::{BTreeMap, HashMap};
use vstd::prelude::*;

verus! {

/// The side tables of the construction, as left by the function handled
/// last: all three are keyed by block index.
#[derive(Debug)]
pub struct SSAFormation {
    /// The immediate dominator of every block; the entry is its own.
    pub idom: HashMap<usize, usize>,
    /// The children in the dominator tree of every block that has any.
    pub dom_tree: HashMap<usize, Vec<usize>>,
    /// The dominance frontier of every block that has one.
    pub dom_frontier: BTreeMap<usize, Vec<usize>>,
}

impl Default for SSAFormation {
    fn default() -> (r: Self)
        ensures
            r.idom@ == Map::<usize, usize>::empty(),
            r.dom_tree@ == Map::<usize, Vec<usize>>::empty(),
            r.dom_frontier@ == Map::<usize, Vec<usize>>::empty(),
    {
        SSAFormation { idom: HashMap::new(), dom_tree: HashMap::new(), dom_frontier: BTreeMap::new() }
    }
}

/// What the construction needs of a function: an entry block, edge lists
/// that stay inside the function, every successor edge entered at its target
/// too, and, for any φ already there, one source for each predecessor.
pub open spec fn ssa_ready(g: Seq<BlockView>) -> bool {
    &&& g.len() >= 1
    &&& preds_in_range(preds_of(g))
    &&& forall|m: int, k: int|
        0 <= m < g.len() && 0 <= k < g[m].succs.len() ==> (#[trigger] g[m].succs[k]) < g.len()
            && g[g[m].succs[k] as int].preds.contains(m as usize)
    &&& forall|m: int, i: int|
        0 <= m < g.len() && 0 <= i < g[m].instrs.len() && (#[trigger] g[m].instrs[i]) is Phi
            ==> g[m].instrs[i]->Phi_sources.len() == g[m].preds.len()
}

/// A well-formed function with an entry block, whose φs, if it has any, have
/// one source for each predecessor, is ready for the construction.
pub proof fn lemma_wf_is_ready(f: &IrFunction)
    requires
        f.wf(),
        f.blocks.len() >= 1,
        forall|m: int, i: int|
            0 <= m < f.graph().len() && 0 <= i < f.graph()[m].instrs.len() && (
            #[trigger] f.graph()[m].instrs[i]) is Phi ==> f.graph()[m].instrs[i]->Phi_sources.len()
                == f.graph()[m].preds.len(),
    ensures
        ssa_ready(f.graph()),
        crate::liveness::succs_in_range(f.graph()),
{
    let g = f.graph();
    assert forall|b: int, k: int| 0 <= b < preds_of(g).len() && 0 <= k < preds_of(g)[b].len() implies
        #[trigger] preds_of(g)[b][k] < preds_of(g).len() by {
        assert(g[b].preds[k] < g.len());
    }
    assert forall|m: int, k: int| 0 <= m < g.len() && 0 <= k < g[m].succs.len() implies (
    #[trigger] g[m].succs[k]) < g.len() && g[g[m].succs[k] as int].preds.contains(m as usize) by {
        let s = g[m].succs[k];
        assert(s < g.len());
        assert(g[m as usize as int].succs.contains(s));
        assert(g[s as int].preds.contains(m as usize));
    }
}

/// Two graphs with the same blocks, labels and edges.
pub open spec fn same_blocks(a: Seq<BlockView>, b: Seq<BlockView>) -> bool {
    &&& a.len() == b.len()
    &&& forall|m: int|
        0 <= m < a.len() ==> (#[trigger] a[m]).label == b[m].label && a[m].preds == b[m].preds
            && a[m].succs == b[m].succs
}

/// For every name that the function defines, in the order of first
/// definition, the blocks that define it.
pub open spec fn def_table(g: Seq<BlockView>) -> AssocView<Seq<usize>> {
    let events = def_events(g, g.len() as int);
    let keys = defined_names(events);
    AssocView { keys, vals: Seq::new(keys.len(), |i: int| sites_of(events, keys[i])) }
}

/// The state in which renaming starts: for every defined name a counter at
/// zero and an empty stack.
pub open spec fn initial_state(keys: Seq<Seq<char>>) -> RenameState {
    RenameState {
        counter: AssocView { keys, vals: Seq::new(keys.len(), |i: int| 0usize) },
        stacks: AssocView { keys, vals: Seq::new(keys.len(), |i: int| Seq::<Seq<char>>::empty()) },
    }
}

/// The whole construction on one function: where immediate dominators exist,
/// the renaming walk from the entry over the function with its φs placed.
pub open spec fn ssa_walk(g: Seq<BlockView>) -> Option<Walk> {
    match idom_of(preds_of(g)) {
        None => None,
        Some(idom) => {
            let sites = def_table(g);
            let g1 = with_phis(g, frontier_of(preds_of(g), idom), sites);
            Some(
                walk_block(
                    tree_of(idom),
                    defs_of(g1),
                    Walk { st: initial_state(sites.keys), g: g1 },
                    0,
                ),
            )
        },
    }
}

/// The function in single-assignment form.
pub open spec fn ssa_form(g: Seq<BlockView>) -> Option<Seq<BlockView>> {
    match ssa_walk(g) {
        None => None,
        Some(w) => Some(w.g),
    }
}

proof fn lemma_sites_in_range(g: Seq<BlockView>, upto: int, name: Seq<char>, k: int)
    requires
        0 <= upto <= g.len(),
        g.len() <= usize::MAX,
        0 <= k < sites_of(def_events(g, upto), name).len(),
    ensures
        sites_of(def_events(g, upto), name)[k] < g.len(),
{
    let events = def_events(g, upto);
    let s = sites_of(events, name);
    assert(s.contains(s[k]));
    lemma_sites_of_contains(events, name, s[k]);
    lemma_events_in_range(g, upto, name, s[k]);
}

proof fn lemma_block_events(instrs: Seq<InstrView>, b: usize, name: Seq<char>, x: usize)
    requires
        crate::def_sites::block_def_events(instrs, b).contains((name, x)),
    ensures
        x == b,
    decreases instrs.len(),
{
    let ev = crate::def_sites::block_def_events(instrs, b);
    let j = choose|j: int| 0 <= j < ev.len() && ev[j] == (name, x);
    if instrs.len() > 0 {
        let before = crate::def_sites::block_def_events(instrs.drop_last(), b);
        if j < before.len() {
            assert(before[j] == (name, x));
            lemma_block_events(instrs.drop_last(), b, name, x);
        }
    }
}

proof fn lemma_events_in_range(g: Seq<BlockView>, upto: int, name: Seq<char>, x: usize)
    requires
        0 <= upto <= g.len(),
        g.len() <= usize::MAX,
        def_events(g, upto).contains((name, x)),
    ensures
        x < upto,
    decreases upto,
{
    let ev = def_events(g, upto);
    let j = choose|j: int| 0 <= j < ev.len() && ev[j] == (name, x);
    if upto > 0 {
        let before = def_events(g, upto - 1);
        let here = crate::def_sites::block_def_events(g[upto - 1].instrs, (upto - 1) as usize);
        if j < before.len() {
            assert(before[j] == (name, x));
            lemma_events_in_range(g, upto - 1, name, x);
        } else {
            assert(here[j - before.len()] == (name, x));
            lemma_block_events(g[upto - 1].instrs, (upto - 1) as usize, name, x);
        }
    }
}

/// Counters at zero and empty stacks for the names of `sites`.
fn fresh_state(sites: &DefSites) -> (r: (Counters, Stacks))
    requires
        sites.wf(),
    ensures
        r.0.wf(),
        r.1.wf(),
        state_of(r.0, r.1) == initial_state(sites.key_seq()),
{
    let mut counter: Counters = StrMap::new();
    let mut stacks: Stacks = StrMap::new();
    let mut i: usize = 0;
    while i < sites.keys.len()
        invariant
            i <= sites.keys.len(),
            sites.wf(),
            counter.keys.len() == i,
            counter.vals.len() == i,
            stacks.keys.len() == i,
            stacks.vals.len() == i,
            forall|j: int| 0 <= j < i ==> counter.keys[j]@ == sites.keys[j]@,
            forall|j: int| 0 <= j < i ==> stacks.keys[j]@ == sites.keys[j]@,
            forall|j: int| 0 <= j < i ==> counter.vals[j] == 0,
            forall|j: int| 0 <= j < i ==> (#[trigger] stacks.vals[j]).len() == 0,
        decreases sites.keys.len() - i,
    {
        counter.keys.push(sites.keys[i].clone());
        counter.vals.push(0);
        stacks.keys.push(sites.keys[i].clone());
        stacks.vals.push(Vec::new());
        i += 1;
    }
    proof {
        let keys = sites.key_seq();
        assert(counter.key_seq() =~= keys);
        assert(stacks.key_seq() =~= keys);
        let init = initial_state(keys);
        assert(counter.assoc().vals =~= init.counter.vals);
        assert(crate::rename::stacks_view(stacks).vals =~= init.stacks.vals) by {
            assert forall|j: int| 0 <= j < keys.len() implies names_view(
                (#[trigger] stacks.vals[j])@,
            ) == Seq::<Seq<char>>::empty() by {
                assert(names_view(stacks.vals[j]@) =~= Seq::<Seq<char>>::empty());
            }
        }
    }
    (counter, stacks)
}

impl SSAFormation {
    /// Brings every function of the list into single-assignment form, in
    /// order, and returns the side tables of the last one.
    ///
    /// Succeeds exactly when, in every function, every block can be reached
    /// from the entry.  Stops at the first function that has a block which
    /// cannot be reached; that function and the ones after it are left as
    /// they were.
    pub fn new(funcs: &mut Vec<IrFunction>) -> (r: Result<Self, IrError>)
        requires
            forall|i: int| 0 <= i < old(funcs).len() ==> ssa_ready(#[trigger] old(funcs)[i].graph()),
        ensures
            final(funcs).len() == old(funcs).len(),
            forall|i: int|
                0 <= i < old(funcs).len() ==> {
                    &&& (#[trigger] final(funcs)[i]).name == old(funcs)[i].name
                    &&& final(funcs)[i].args == old(funcs)[i].args
                    &&& final(funcs)[i].label_to_idx == old(funcs)[i].label_to_idx
                    &&& same_blocks(old(funcs)[i].graph(), final(funcs)[i].graph())
                },
            r is Ok <==> forall|i: int|
                0 <= i < old(funcs).len() ==> all_reachable(
                    preds_of(#[trigger] old(funcs)[i].graph()),
                ),
            match r {
                Ok(out) => {
                    &&& forall|i: int|
                        0 <= i < old(funcs).len() ==> ssa_form(#[trigger] old(funcs)[i].graph())
                            == Some(final(funcs)[i].graph())
                    &&& out.describes_last(*old(funcs))
                },
                Err(e) => {
                    &&& e == IrError::MalformedCfg
                    &&& exists|k: int|
                        {
                            &&& 0 <= k < old(funcs).len()
                            &&& !all_reachable(preds_of(#[trigger] old(funcs)[k].graph()))
                            &&& ssa_form(old(funcs)[k].graph()) is None
                            &&& forall|i: int|
                                0 <= i < k ==> ssa_form(#[trigger] old(funcs)[i].graph()) == Some(
                                    final(funcs)[i].graph(),
                                )
                            &&& forall|i: int|
                                k <= i < old(funcs).len() ==> (#[trigger] final(funcs)[i]).graph()
                                    == old(funcs)[i].graph()
                        }
                },
            },
    {
        let mut out = SSAFormation::default();
        let n = funcs.len();
        let mut i: usize = 0;
        while i < n
            invariant
                i <= n,
                n == funcs.len(),
                n == old(funcs).len(),
                forall|j: int| 0 <= j < n ==> ssa_ready(#[trigger] old(funcs)[j].graph()),
                forall|j: int|
                    0 <= j < n ==> {
                        &&& (#[trigger] funcs[j]).name == old(funcs)[j].name
                        &&& funcs[j].args == old(funcs)[j].args
                        &&& funcs[j].label_to_idx == old(funcs)[j].label_to_idx
                        &&& same_blocks(old(funcs)[j].graph(), funcs[j].graph())
                    },
                forall|j: int|
                    0 <= j < i ==> ssa_form(#[trigger] old(funcs)[j].graph()) == Some(
                        funcs[j].graph(),
                    ),
                forall|j: int| i <= j < n ==> (#[trigger] funcs[j]).graph() == old(funcs)[j].graph(),
                i == 0 ==> out.is_empty(),
                i > 0 ==> out.describes(old(funcs)[i - 1].graph()),
            decreases n - i,
        {
            let ghost before = *funcs;
            match out.convert(&mut funcs[i]) {
                Ok(()) => {},
                Err(e) => {
                    assert(funcs@ =~= before@.update(i as int, funcs[i as int]));
                    return Err(e);
                },
            }
            assert(funcs@ =~= before@.update(i as int, funcs[i as int]));
            i += 1;
        }
        Ok(out)
    }

    /// No table holds anything.
    pub open spec fn is_empty(&self) -> bool {
        &&& self.idom@ == Map::<usize, usize>::empty()
        &&& self.dom_tree@ == Map::<usize, Vec<usize>>::empty()
        &&& self.dom_frontier@ == Map::<usize, Vec<usize>>::empty()
    }

    /// The tables are those of a function with graph `g`: the immediate
    /// dominator of every block, and, for every block that has any, its
    /// children in the dominator tree and its dominance frontier.
    pub open spec fn describes(&self, g: Seq<BlockView>) -> bool {
        &&& idom_of(preds_of(g)) is Some
        &&& self.idom@ == table_map(idom_of(preds_of(g))->0)
        &&& holds_lists(self.dom_tree@, tree_of(idom_of(preds_of(g))->0))
        &&& holds_lists(self.dom_frontier@, frontier_of(preds_of(g), idom_of(preds_of(g))->0))
    }

    /// The tables are those of the last function of the list, or empty where
    /// the list is.
    pub open spec fn describes_last(&self, funcs: Vec<IrFunction>) -> bool {
        if funcs.len() == 0 {
            self.is_empty()
        } else {
            self.describes(funcs[funcs.len() - 1].graph())
        }
    }

    /// Brings one function into single-assignment form.
    fn convert(&mut self, func: &mut IrFunction) -> (r: Result<(), IrError>)
        requires
            ssa_ready(old(func).graph()),
        ensures
            final(func).name == old(func).name,
            final(func).args == old(func).args,
            final(func).label_to_idx == old(func).label_to_idx,
            same_blocks(old(func).graph(), final(func).graph()),
            match r {
                Ok(()) => {
                    &&& ssa_form(old(func).graph()) == Some(final(func).graph())
                    &&& final(self).describes(old(func).graph())
                },
                Err(e) => {
                    &&& e == IrError::MalformedCfg
                    &&& ssa_form(old(func).graph()) is None
                    &&& final(func).graph() == old(func).graph()
                    &&& *final(self) == *old(self)
                },
            },
    {
        let ghost g = func.graph();
        let ghost preds = preds_of(g);
        let ghost n = g.len();
        match self.compute_idom(func) {
            Ok(()) => {},
            Err(e) => {
                return Err(e);
            },
        }
        let ghost idom = idom_of(preds)->0;
        proof {
            crate::dominators::lemma_idom_of_shape(preds);
            lemma_table_round_trip(idom);
            lemma_table_size(self.idom@, n);
            assert(table_seq(self.idom@, n) == idom);
        }
        let _ = self.compute_df(func);
        assert forall|b: usize| self.idom@.contains_key(b) implies self.idom@.contains_key(
            #[trigger] self.idom@[b],
        ) by {
            if b as int >= 1 {
                crate::dominators::lemma_rank_of(idom);
                assert(idom[b as int] < idom.len());
            }
        }
        let _ = self.build_dom_tree();
        let ghost tree = tree_of(idom);
        let ghost df = frontier_of(preds, idom);
        proof {
            lemma_lists_round_trip(self.dom_tree@, tree);
            lemma_lists_round_trip(self.dom_frontier@, df);
        }
        let sites = collect_defs(func);
        proof {
            let events = def_events(g, g.len() as int);
            assert(sites_view(sites) == def_table(g)) by {
                assert(sites.key_seq() == defined_names(events));
                assert forall|i: int| 0 <= i < sites.keys.len() implies lists_view(sites.vals@)[i]
                    == def_table(g).vals[i] by {
                    assert(sites.vals[i]@ == sites_of(events, sites.keys[i]@));
                    assert(sites.key_seq()[i] == sites.keys[i]@);
                }
                assert(sites_view(sites).vals =~= def_table(g).vals);
            }
            assert(lists_in_range(lists_view(sites.vals@), g.len())) by {
                assert forall|x: int, i: int|
                    0 <= x < sites.vals.len() && 0 <= i < lists_view(
                        sites.vals@,
                    )[x].len() implies #[trigger] lists_view(sites.vals@)[x][i] < g.len() by {
                    assert(sites.vals[x]@ == sites_of(events, sites.keys[x]@));
                    lemma_sites_in_range(g, g.len() as int, sites.keys[x]@, i);
                }
            }
            assert(lists_in_range(df, g.len())) by {
                assert forall|x: int, i: int|
                    0 <= x < df.len() && 0 <= i < df[x].len() implies #[trigger] df[x][i] < g.len() by {
                    lemma_list_of(preds.len(), |m: usize| in_frontier(preds, idom, x as usize, m));
                    assert(df[x].contains(df[x][i]));
                }
            }
        }
        self.phi_insert(func, &sites);
        let (mut counter, mut stacks) = fresh_state(&sites);
        proof {
            let g1 = func.graph();
            assert(walk_ready(g1, tree, defs_of(g1))) by {
                crate::frontier::lemma_tree_layered(idom);
                assert forall|m: int, k: int|
                    0 <= m < g1.len() && 0 <= k < g1[m].succs.len() implies (
                #[trigger] g1[m].succs[k]) < g1.len() && g1[g1[m].succs[k] as int].preds.contains(
                    m as usize,
                ) by {
                    assert(g[m].succs[k] < g.len());
                }
                assert forall|m: int, i: int|
                    0 <= m < g1.len() && 0 <= i < g1[m].instrs.len() && (
                    #[trigger] g1[m].instrs[i]) is Phi implies g1[m].instrs[i]->Phi_sources.len()
                    == g1[m].preds.len() by {
                    let prefix = crate::phi::phi_prefix(
                        df,
                        sites_view(sites),
                        sites.keys.len() as int,
                        m as usize,
                        g[m].preds.len(),
                    );
                    lemma_prefix_phis(
                        df,
                        sites_view(sites),
                        sites.keys.len() as int,
                        m as usize,
                        g[m].preds.len(),
                    );
                    if i < prefix.len() {
                        assert(g1[m].instrs[i] == prefix[i]);
                    } else {
                        assert(g1[m].instrs[i] == g[m].instrs[i - prefix.len()]);
                    }
                }
            }
        }
        let ghost g1 = func.graph();
        rename_pass(0, &self.dom_tree, func, &mut counter, &mut stacks);
        proof {
            let g2 = func.graph();
            assert(crate::walk::same_shape(g1, g2));
            assert forall|m: int| 0 <= m < g.len() implies (#[trigger] g[m]).label == g2[m].label
                && g[m].preds == g2[m].preds && g[m].succs == g2[m].succs by {
                assert(g1[m].label == g2[m].label);
                assert(g1[m].label == g[m].label);
            }
        }
        Ok(())
    }

    /// Computes the immediate dominator of every block of `func`.
    ///
    /// Succeeds exactly when every block can be reached from the entry.  On
    /// success the block entered for any block but the entry is the closest
    /// of its strict dominators, and the entry is entered for itself.  Where
    /// some block cannot be reached the graph is malformed, and the tables
    /// are left as they were.
    pub fn compute_idom(&mut self, func: &IrFunction) -> (r: Result<(), IrError>)
        requires
            func.blocks.len() >= 1,
            preds_in_range(preds_of(func.graph())),
        ensures
            final(self).dom_tree == old(self).dom_tree,
            final(self).dom_frontier == old(self).dom_frontier,
            r is Ok <==> all_reachable(preds_of(func.graph())),
            match r {
                Ok(()) => {
                    &&& idom_of(preds_of(func.graph())) is Some
                    &&& final(self).idom@ == table_map(idom_of(preds_of(func.graph()))->0)
                    &&& is_table(final(self).idom@, func.blocks.len() as nat)
                    &&& is_idom_table(
                        preds_of(func.graph()),
                        table_seq(final(self).idom@, func.blocks.len() as nat),
                    )
                    &&& idom_valid(
                        preds_of(func.graph()),
                        table_seq(final(self).idom@, func.blocks.len() as nat),
                    )
                    &&& final(self).idom@[0] == 0
                    &&& forall|b: usize|
                        1 <= b < func.blocks.len() ==> strictly_dominates(
                            preds_of(func.graph()),
                            #[trigger] final(self).idom@[b],
                            b,
                        )
                },
                Err(e) => {
                    &&& e == IrError::MalformedCfg
                    &&& idom_of(preds_of(func.graph())) is None
                    &&& final(self).idom == old(self).idom
                },
            },
    {
        match immediate_dominators(func) {
            Ok(table) => {
                proof {
                    lemma_table_round_trip(table@);
                }
                self.idom = table_to_map(&table);
                Ok(())
            },
            Err(e) => Err(e),
        }
    }

    /// Computes the dominance frontier of every block of `func` from the
    /// table of immediate dominators.
    pub fn compute_df(&mut self, func: &IrFunction) -> (r: Result<(), IrError>)
        requires
            is_table(old(self).idom@, func.blocks.len() as nat),
            idom_valid(
                preds_of(func.graph()),
                table_seq(old(self).idom@, func.blocks.len() as nat),
            ),
            preds_in_range(preds_of(func.graph())),
        ensures
            r is Ok,
            final(self).idom == old(self).idom,
            final(self).dom_tree == old(self).dom_tree,
            holds_lists(
                final(self).dom_frontier@,
                frontier_of(
                    preds_of(func.graph()),
                    table_seq(final(self).idom@, func.blocks.len() as nat),
                ),
            ),
            is_frontier(
                preds_of(func.graph()),
                table_seq(final(self).idom@, func.blocks.len() as nat),
                lists_seq(final(self).dom_frontier@, func.blocks.len() as nat),
            ),
    {
        let table = map_to_table(&self.idom, func.blocks.len());
        let lists = dominance_frontier(func, &table);
        self.dom_frontier = lists_to_btree_map(&lists);
        proof {
            lemma_lists_round_trip(self.dom_frontier@, lists_view(lists@));
        }
        Ok(())
    }

    /// Inverts the table of immediate dominators into the dominator tree.
    pub fn build_dom_tree(&mut self) -> (r: Result<(), IrError>)
        requires
            exists|n: nat| is_table(old(self).idom@, n),
            forall|b: usize|
                old(self).idom@.contains_key(b) ==> old(self).idom@.contains_key(
                    #[trigger] old(self).idom@[b],
                ),
        ensures
            r is Ok,
            final(self).idom == old(self).idom,
            final(self).dom_frontier == old(self).dom_frontier,
            holds_lists(
                final(self).dom_tree@,
                tree_of(table_seq(final(self).idom@, table_size(final(self).idom@))),
            ),
            is_dom_tree(
                table_seq(final(self).idom@, table_size(final(self).idom@)),
                lists_seq(final(self).dom_tree@, table_size(final(self).idom@)),
            ),
    {
        let n = table_len(&self.idom);
        let table = map_to_table(&self.idom, n);
        assert forall|b: int| 0 <= b < table.len() implies table[b] < table.len() by {
            assert(self.idom@.contains_key(b as usize));
            assert(self.idom@.contains_key(self.idom@[b as usize]));
        }
        let lists = dominator_tree(&table);
        self.dom_tree = lists_to_hash_map(&lists);
        proof {
            lemma_lists_round_trip(self.dom_tree@, lists_view(lists@));
        }
        Ok(())
    }

    /// Places the φs that the definition sites call for.
    pub fn phi_insert(&self, func: &mut IrFunction, def_sites_map: &DefSites)
        requires
            lists_in_range(
                lists_seq(self.dom_frontier@, old(func).blocks.len() as nat),
                old(func).blocks.len() as nat,
            ),
            def_sites_map.keys.len() == def_sites_map.vals.len(),
            lists_in_range(lists_view(def_sites_map.vals@), old(func).blocks.len() as nat),
        ensures
            final(func).name == old(func).name,
            final(func).args == old(func).args,
            final(func).label_to_idx == old(func).label_to_idx,
            final(func).graph() == with_phis(
                old(func).graph(),
                lists_seq(self.dom_frontier@, old(func).blocks.len() as nat),
                sites_view(*def_sites_map),
            ),
    {
        let frontier = btree_map_to_lists(&self.dom_frontier, func.blocks.len());
        assert(lists_view(frontier@).len() == func.blocks.len());
        insert_phis(func, &frontier, def_sites_map);
    }

    /// Brings every function of the module into single-assignment form, as
    /// [`SSAFormation::new`] does for a list of functions.
    pub fn try_from(module: &mut IrModule) -> (r: Result<SSAFormation, IrError>)
        requires
            forall|i: int|
                0 <= i < old(module).functions.len() ==> ssa_ready(
                    #[trigger] old(module).functions[i].graph(),
                ),
        ensures
            final(module).functions.len() == old(module).functions.len(),
            forall|i: int|
                0 <= i < old(module).functions.len() ==> {
                    &&& (#[trigger] final(module).functions[i]).name == old(module).functions[i].name
                    &&& final(module).functions[i].args == old(module).functions[i].args
                    &&& final(module).functions[i].label_to_idx
                        == old(module).functions[i].label_to_idx
                    &&& same_blocks(
                        old(module).functions[i].graph(),
                        final(module).functions[i].graph(),
                    )
                },
            r is Ok <==> forall|i: int|
                0 <= i < old(module).functions.len() ==> all_reachable(
                    preds_of(#[trigger] old(module).functions[i].graph()),
                ),
            match r {
                Ok(out) => {
                    &&& forall|i: int|
                        0 <= i < old(module).functions.len() ==> ssa_form(
                            #[trigger] old(module).functions[i].graph(),
                        ) == Some(final(module).functions[i].graph())
                    &&& out.describes_last(old(module).functions)
                },
                Err(e) => {
                    &&& e == IrError::MalformedCfg
                    &&& exists|k: int|
                        {
                            &&& 0 <= k < old(module).functions.len()
                            &&& !all_reachable(
                                preds_of(#[trigger] old(module).functions[k].graph()),
                            )
                            &&& ssa_form(old(module).functions[k].graph()) is None
                            &&& forall|i: int|
                                0 <= i < k ==> ssa_form(
                                    #[trigger] old(module).functions[i].graph(),
                                ) == Some(final(module).functions[i].graph())
                            &&& forall|i: int|
                                k <= i < old(module).functions.len() ==> (
                                #[trigger] final(module).functions[i]).graph()
                                    == old(module).functions[i].graph()
                        }
                },
            },
    {
        SSAFormation::new(&mut module.functions)
    }
}

/// Every φ among the placed ones has one open source for each predecessor.
proof fn lemma_prefix_phis(
    df: Seq<Seq<usize>>,
    sites: AssocView<Seq<usize>>,
    upto: int,
    m: usize,
    npreds: nat,
)
    ensures
        forall|i: int|
            0 <= i < crate::phi::phi_prefix(df, sites, upto, m, npreds).len() ==> {
                let p = #[trigger] crate::phi::phi_prefix(df, sites, upto, m, npreds)[i];
                p is Phi && p->Phi_sources.len() == npreds
            },
    decreases upto,
{
    if upto > 0 {
        lemma_prefix_phis(df, sites, upto - 1, m, npreds);
    }
}

/// A name that the events define in block `x` is defined by an instruction
/// of that block.
proof fn lemma_event_has_instr(g: Seq<BlockView>, upto: int, name: Seq<char>, x: usize)
    requires
        0 <= upto <= g.len(),
        g.len() <= usize::MAX,
        def_events(g, upto).contains((name, x)),
    ensures
        x < upto,
        exists|j: int| 0 <= j < g[x as int].instrs.len() && g[x as int].instrs[j].def() == Some(name),
    decreases upto,
{
    let ev = def_events(g, upto);
    let j = choose|j: int| 0 <= j < ev.len() && ev[j] == (name, x);
    if upto > 0 {
        let before = def_events(g, upto - 1);
        let here = crate::def_sites::block_def_events(g[upto - 1].instrs, (upto - 1) as usize);
        if j < before.len() {
            assert(before[j] == (name, x));
            lemma_event_has_instr(g, upto - 1, name, x);
        } else {
            assert(here[j - before.len()] == (name, x));
            lemma_block_events(g[upto - 1].instrs, (upto - 1) as usize, name, x);
            lemma_block_event_has_instr(g[upto - 1].instrs, (upto - 1) as usize, name);
        }
    }
}

proof fn lemma_block_event_has_instr(instrs: Seq<InstrView>, b: usize, name: Seq<char>)
    requires
        crate::def_sites::block_def_events(instrs, b).contains((name, b)),
    ensures
        exists|j: int| 0 <= j < instrs.len() && instrs[j].def() == Some(name),
    decreases instrs.len(),
{
    let ev = crate::def_sites::block_def_events(instrs, b);
    let k = choose|k: int| 0 <= k < ev.len() && ev[k] == (name, b);
    if instrs.len() > 0 {
        let rest = instrs.drop_last();
        let before = crate::def_sites::block_def_events(rest, b);
        if k < before.len() {
            assert(before[k] == (name, b));
            lemma_block_event_has_instr(rest, b, name);
            let j = choose|j: int| 0 <= j < rest.len() && rest[j].def() == Some(name);
            assert(instrs[j].def() == Some(name));
        } else {
            assert(instrs[instrs.len() - 1].def() == Some(name));
        }
    }
}

/// Every placed φ belongs to a name whose sites call for it, and every name
/// whose sites call for a φ at a block has one placed there.
proof fn lemma_prefix_members(
    df: Seq<Seq<usize>>,
    sites: AssocView<Seq<usize>>,
    upto: int,
    m: usize,
    npreds: nat,
)
    requires
        0 <= upto <= sites.keys.len(),
    ensures
        forall|i: int|
            0 <= i < crate::phi::phi_prefix(df, sites, upto, m, npreds).len() ==> exists|k: int|
                0 <= k < upto && crate::phi::needs_phi(df, sites.vals[k], m) && #[trigger] crate::phi::phi_prefix(
                    df,
                    sites,
                    upto,
                    m,
                    npreds,
                )[i] == crate::phi::open_phi(sites.keys[k], npreds),
        forall|k: int|
            0 <= k < upto && crate::phi::needs_phi(df, #[trigger] sites.vals[k], m) ==> exists|i: int|
                0 <= i < crate::phi::phi_prefix(df, sites, upto, m, npreds).len() && crate::phi::phi_prefix(
                    df,
                    sites,
                    upto,
                    m,
                    npreds,
                )[i] == crate::phi::open_phi(sites.keys[k], npreds),
    decreases upto,
{
    if upto > 0 {
        lemma_prefix_members(df, sites, upto - 1, m, npreds);
        let rest = crate::phi::phi_prefix(df, sites, upto - 1, m, npreds);
        let all = crate::phi::phi_prefix(df, sites, upto, m, npreds);
        let head = crate::phi::open_phi(sites.keys[upto - 1], npreds);
        let needed = crate::phi::needs_phi(df, sites.vals[upto - 1], m);
        assert forall|i: int| 0 <= i < all.len() implies exists|k: int|
            0 <= k < upto && crate::phi::needs_phi(df, sites.vals[k], m) && #[trigger] all[i]
                == crate::phi::open_phi(sites.keys[k], npreds) by {
            if needed {
                if i == 0 {
                    assert(all[0] == head);
                } else {
                    assert(all[i] == rest[i - 1]);
                    let k = choose|k: int|
                        0 <= k < upto - 1 && crate::phi::needs_phi(df, sites.vals[k], m) && rest[i
                            - 1] == crate::phi::open_phi(sites.keys[k], npreds);
                    assert(0 <= k < upto);
                }
            } else {
                let k = choose|k: int|
                    0 <= k < upto - 1 && crate::phi::needs_phi(df, sites.vals[k], m) && rest[i]
                        == crate::phi::open_phi(sites.keys[k], npreds);
                assert(0 <= k < upto);
            }
        }
        assert forall|k: int|
            0 <= k < upto && crate::phi::needs_phi(df, #[trigger] sites.vals[k], m) implies exists|
            i: int,
        | 0 <= i < all.len() && all[i] == crate::phi::open_phi(sites.keys[k], npreds) by {
            if k == upto - 1 {
                assert(all[0] == head);
            } else {
                let i = choose|i: int|
                    0 <= i < rest.len() && rest[i] == crate::phi::open_phi(sites.keys[k], npreds);
                if needed {
                    assert(all[i + 1] == rest[i]);
                } else {
                    assert(all[i] == rest[i]);
                }
            }
        }
    }
}

/// A φ in a function that held none before the placement was placed for one
/// of the defined names, at a block that needs it.
proof fn lemma_phi_was_placed(g: Seq<BlockView>, df: Seq<Seq<usize>>, m: int, i: int) -> (k: int)
    requires
        forall|b: int, j: int|
            0 <= b < g.len() && 0 <= j < g[b].instrs.len() ==> !((#[trigger] g[b].instrs[j]) is Phi),
        0 <= m < g.len(),
        0 <= i < with_phis(g, df, def_table(g))[m].instrs.len(),
        with_phis(g, df, def_table(g))[m].instrs[i] is Phi,
    ensures
        0 <= k < def_table(g).keys.len(),
        crate::phi::needs_phi(df, def_table(g).vals[k], m as usize),
        with_phis(g, df, def_table(g))[m].instrs[i]->Phi_dest == def_table(g).keys[k],
{
    let sites = def_table(g);
    let g1 = with_phis(g, df, sites);
    let n = sites.keys.len() as int;
    let prefix = crate::phi::phi_prefix(df, sites, n, m as usize, g[m].preds.len());
    lemma_prefix_members(df, sites, n, m as usize, g[m].preds.len());
    if i >= prefix.len() {
        assert(g1[m].instrs[i] == g[m].instrs[i - prefix.len()]);
    }
    assert(g1[m].instrs[i] == prefix[i]);
    let k = choose|k: int|
        0 <= k < n && crate::phi::needs_phi(df, sites.vals[k], m as usize) && prefix[i]
            == crate::phi::open_phi(sites.keys[k], g[m].preds.len());
    k
}

/// A block that needs a φ lies in the frontier of a block that is a site or
/// needs a φ itself.
proof fn lemma_needed_from(df: Seq<Seq<usize>>, sites: Seq<usize>, m: usize) -> (d: usize)
    requires
        crate::phi::needs_phi(df, sites, m),
    ensures
        d < df.len(),
        df[d as int].contains(m),
        sites.contains(d) || crate::phi::needs_phi(df, sites, d),
{
    let path = choose|path: Seq<usize>| #[trigger]
        crate::phi::frontier_walk(df, sites, path) && path.last() == m;
    let len = path.len() as int;
    let d = path[len - 2];
    assert(d < df.len() && df[d as int].contains(path[len - 2 + 1]));
    if !sites.contains(d) {
        assert(len > 2) by {
            if len == 2 {
                assert(sites.contains(path[0]));
            }
        }
        let shorter = path.drop_last();
        assert(crate::phi::frontier_walk(df, sites, shorter)) by {
            assert forall|x: int| #![trigger shorter[x]] 0 <= x < shorter.len() - 1 implies shorter[x]
                < df.len() && df[shorter[x] as int].contains(shorter[x + 1]) by {
                assert(path[x] < df.len() && df[path[x] as int].contains(path[x + 1]));
            }
        }
        assert(shorter.last() == d);
    }
    d
}

/// A block that is a site of a name, or needs a φ for it, defines the name
/// once the φs are placed.
proof fn lemma_defines_after_placement(g: Seq<BlockView>, df: Seq<Seq<usize>>, k: int, d: usize) -> (j:
    int)
    requires
        g.len() <= usize::MAX,
        d < g.len(),
        0 <= k < def_table(g).keys.len(),
        def_table(g).vals[k].contains(d) || crate::phi::needs_phi(df, def_table(g).vals[k], d),
    ensures
        0 <= j < with_phis(g, df, def_table(g))[d as int].instrs.len(),
        with_phis(g, df, def_table(g))[d as int].instrs[j].def() == Some(def_table(g).keys[k]),
{
    let sites = def_table(g);
    let g1 = with_phis(g, df, sites);
    let n = sites.keys.len() as int;
    let events = def_events(g, g.len() as int);
    let v = sites.keys[k];
    let before = crate::phi::phi_prefix(df, sites, n, d, g[d as int].preds.len());
    if sites.vals[k].contains(d) {
        assert(sites.vals[k] == sites_of(events, v));
        lemma_sites_of_contains(events, v, d);
        lemma_event_has_instr(g, g.len() as int, v, d);
        let j = choose|j: int|
            0 <= j < g[d as int].instrs.len() && g[d as int].instrs[j].def() == Some(v);
        assert(g1[d as int].instrs[before.len() + j] == g[d as int].instrs[j]);
        before.len() + j
    } else {
        lemma_prefix_members(df, sites, n, d, g[d as int].preds.len());
        let j = choose|j: int|
            0 <= j < before.len() && before[j] == crate::phi::open_phi(v, g[d as int].preds.len());
        assert(g1[d as int].instrs[j] == before[j]);
        j
    }
}

/// Where φs are placed in a function that holds none: every block `m` with
/// a φ for a name lies in the dominance frontier of some block that defines
/// that name.
pub proof fn lemma_phi_in_frontier(g: Seq<BlockView>, df: Seq<Seq<usize>>, m: int, i: int)
    requires
        g.len() <= usize::MAX,
        df.len() == g.len(),
        forall|b: int, j: int|
            0 <= b < g.len() && 0 <= j < g[b].instrs.len() ==> !((#[trigger] g[b].instrs[j]) is Phi),
        0 <= m < g.len(),
        0 <= i < with_phis(g, df, def_table(g))[m].instrs.len(),
        with_phis(g, df, def_table(g))[m].instrs[i] is Phi,
    ensures
        exists|d: int, j: int|
            0 <= d < g.len() && df[d].contains(m as usize) && 0 <= j < with_phis(
                g,
                df,
                def_table(g),
            )[d].instrs.len() && (#[trigger] with_phis(g, df, def_table(g))[d].instrs[j]).def()
                == Some(with_phis(g, df, def_table(g))[m].instrs[i]->Phi_dest),
{
    let k = lemma_phi_was_placed(g, df, m, i);
    let d = lemma_needed_from(df, def_table(g).vals[k], m as usize);
    let j = lemma_defines_after_placement(g, df, k, d);
    let g1 = with_phis(g, df, def_table(g));
    assert(0 <= d as int && (d as int) < g.len() && df[d as int].contains(m as usize) && 0 <= j
        < g1[d as int].instrs.len() && g1[d as int].instrs[j].def() == Some(
        g1[m].instrs[i]->Phi_dest,
    ));
}

/// The walk from a block renames every block whose chain of immediate
/// dominators passes through it.
proof fn lemma_visited(idom: Seq<usize>, r: usize, c: usize)
    requires
        idom.len() <= usize::MAX,
        idom.len() >= 1,
        idom[0] == 0,
        crate::dominators::ranked(idom),
        r < idom.len(),
        c < idom.len(),
        crate::dominators::on_chain(idom, r, c),
    ensures
        crate::single_assignment::visited(tree_of(idom), r).contains(c as int),
    decreases crate::frontier::level_of(tree_of(idom))[r as int],
{
    let tree = tree_of(idom);
    if c != r {
        let k = lemma_child_on_chain(idom, r, c);
        lemma_list_of(idom.len(), |b: usize| is_child(idom, r, b));
        assert(tree[r as int].contains(k));
        let idx = choose|idx: int| 0 <= idx < tree[r as int].len() && tree[r as int][idx] == k;
        crate::frontier::lemma_tree_layered(idom);
        crate::frontier::lemma_level_of(tree);
        assert(crate::frontier::below(tree, r, tree[r as int][idx]));
        lemma_visited(idom, k, c);
        lemma_visited_children(tree, r, tree[r as int].len() as int, idx, c as int);
    }
}

/// Between a block and another block on whose chain it lies, there is a
/// child of the former on that chain.
proof fn lemma_child_on_chain(idom: Seq<usize>, r: usize, c: usize) -> (k: usize)
    requires
        c < idom.len(),
        c != r,
        crate::dominators::on_chain(idom, r, c),
    ensures
        is_child(idom, r, k),
        k < idom.len(),
        crate::dominators::on_chain(idom, k, c),
    decreases crate::dominators::rank_of(idom)[c as int],
{
    let p = idom[c as int];
    if p == r {
        c
    } else {
        let k = lemma_child_on_chain(idom, r, p);
        k
    }
}

proof fn lemma_visited_children(tree: Seq<Seq<usize>>, b: usize, upto: int, idx: int, c: int)
    requires
        b < tree.len(),
        0 <= idx < upto <= tree[b as int].len(),
        crate::frontier::below(tree, b, tree[b as int][idx]),
        crate::single_assignment::visited(tree, tree[b as int][idx]).contains(c),
    ensures
        crate::single_assignment::visited_children(tree, b, upto).contains(c),
    decreases upto,
{
    if idx < upto - 1 {
        lemma_visited_children(tree, b, upto - 1, idx, c);
    }
}

/// After renaming, every name has one defining instruction: in every
/// function whose blocks can all be reached from the entry, where no counter
/// has reached the largest machine number, no two instructions of the
/// function in single-assignment form define the same name.
pub proof fn lemma_single_assignment(g: Seq<BlockView>)
    requires
        ssa_ready(g),
        g.len() <= usize::MAX,
        all_reachable(preds_of(g)),
        crate::single_assignment::not_exhausted(ssa_walk(g)->0.st.counter),
    ensures
        forall|b1: int, i1: int, b2: int, i2: int|
            0 <= b1 < ssa_form(g)->0.len() && 0 <= i1 < ssa_form(g)->0[b1].instrs.len() && 0 <= b2
                < ssa_form(g)->0.len() && 0 <= i2 < ssa_form(g)->0[b2].instrs.len() && (b1, i1) != (
                b2,
                i2,
            ) && (#[trigger] ssa_form(g)->0[b1].instrs[i1]).def() is Some ==> ssa_form(
                g,
            )->0[b1].instrs[i1].def() != (#[trigger] ssa_form(g)->0[b2].instrs[i2]).def(),
{
    let preds = preds_of(g);
    crate::dominators::lemma_idom_of_shape(preds);
    let idom = idom_of(preds)->0;
    let sites = def_table(g);
    let df = frontier_of(preds, idom);
    let g1 = with_phis(g, df, sites);
    let tree = tree_of(idom);
    let st0 = initial_state(sites.keys);
    let w0 = Walk { st: st0, g: g1 };
    let w = walk_block(tree, defs_of(g1), w0, 0);
    assert(ssa_walk(g) == Some(w));
    crate::def_sites::lemma_defined_names_distinct(def_events(g, g.len() as int));
    assert(st0.counter.wf());
    assert(crate::single_assignment::walkable(g1, tree)) by {
        crate::frontier::lemma_tree_layered(idom);
        assert forall|m: int, k: int| 0 <= m < g1.len() && 0 <= k < g1[m].succs.len() implies (
        #[trigger] g1[m].succs[k]) < g1.len() by {
            assert(g[m].succs[k] < g.len());
        }
    }
    let empty = Set::<(int, int)>::empty();
    assert(crate::single_assignment::unique_defs(defs_of(g1), empty, st0.counter));
    crate::single_assignment::lemma_walk_from(tree, defs_of(g1), w0, 0, empty);
    let d = defs_of(w.g);
    let all = crate::single_assignment::def_places(d, crate::single_assignment::visited(tree, 0));
    assert(crate::single_assignment::unique_defs(d, empty.union(all), w.st.counter));
    let out = ssa_form(g)->0;
    assert(out == w.g);
    assert forall|b1: int, i1: int, b2: int, i2: int|
        0 <= b1 < out.len() && 0 <= i1 < out[b1].instrs.len() && 0 <= b2 < out.len() && 0 <= i2
            < out[b2].instrs.len() && (b1, i1) != (b2, i2) && (#[trigger] out[b1].instrs[i1]).def() is Some implies out[b1].instrs[i1].def()
        != (#[trigger] out[b2].instrs[i2]).def() by {
        if out[b2].instrs[i2].def() is Some {
            crate::frontier::lemma_entry_chain(idom, b1 as usize);
            crate::frontier::lemma_entry_chain(idom, b2 as usize);
            lemma_visited(idom, 0, b1 as usize);
            lemma_visited(idom, 0, b2 as usize);
            assert(d[b1][i1] == out[b1].instrs[i1].def());
            assert(d[b2][i2] == out[b2].instrs[i2].def());
            assert(empty.union(all).contains((b1, i1)));
            assert(empty.union(all).contains((b2, i2)));
        }
    }
}

/// A definition among the instructions of a block is one of its events.
proof fn lemma_instr_has_block_event(instrs: Seq<InstrView>, b: usize, j: int)
    requires
        0 <= j < instrs.len(),
        instrs[j].def() is Some,
    ensures
        crate::def_sites::block_def_events(instrs, b).contains((instrs[j].def()->0, b)),
    decreases instrs.len(),
{
    let ev = crate::def_sites::block_def_events(instrs, b);
    let before = crate::def_sites::block_def_events(instrs.drop_last(), b);
    if j == instrs.len() - 1 {
        assert(ev == before.push((instrs[j].def()->0, b)));
        assert(ev[before.len() as int] == (instrs[j].def()->0, b));
    } else {
        assert(instrs.drop_last()[j] == instrs[j]);
        lemma_instr_has_block_event(instrs.drop_last(), b, j);
        let k = choose|k: int| 0 <= k < before.len() && before[k] == (instrs[j].def()->0, b);
        assert(ev[k] == (instrs[j].def()->0, b));
    }
}

/// A definition in a block is one of the events of the function.
proof fn lemma_instr_has_event(g: Seq<BlockView>, upto: int, m: int, j: int)
    requires
        0 <= m < upto <= g.len(),
        g.len() <= usize::MAX,
        0 <= j < g[m].instrs.len(),
        g[m].instrs[j].def() is Some,
    ensures
        def_events(g, upto).contains((g[m].instrs[j].def()->0, m as usize)),
    decreases upto,
{
    let ev = def_events(g, upto);
    let before = def_events(g, upto - 1);
    let here = crate::def_sites::block_def_events(g[upto - 1].instrs, (upto - 1) as usize);
    let e = (g[m].instrs[j].def()->0, m as usize);
    if m == upto - 1 {
        lemma_instr_has_block_event(g[m].instrs, m as usize, j);
        let k = choose|k: int| 0 <= k < here.len() && here[k] == e;
        assert(ev[before.len() + k] == e);
    } else {
        lemma_instr_has_event(g, upto - 1, m, j);
        let k = choose|k: int| 0 <= k < before.len() && before[k] == e;
        assert(ev[k] == e);
    }
}

/// Once the φs are placed, every name that an instruction defines is one of
/// the defined names of the function.
proof fn lemma_defs_are_keys(g: Seq<BlockView>, df: Seq<Seq<usize>>, m: int, i: int)
    requires
        g.len() <= usize::MAX,
        0 <= m < g.len(),
        0 <= i < with_phis(g, df, def_table(g))[m].instrs.len(),
        with_phis(g, df, def_table(g))[m].instrs[i].def() is Some,
    ensures
        def_table(g).keys.contains(with_phis(g, df, def_table(g))[m].instrs[i].def()->0),
{
    let sites = def_table(g);
    let g1 = with_phis(g, df, sites);
    let n = sites.keys.len() as int;
    let events = def_events(g, g.len() as int);
    let prefix = crate::phi::phi_prefix(df, sites, n, m as usize, g[m].preds.len());
    if i < prefix.len() {
        lemma_prefix_members(df, sites, n, m as usize, g[m].preds.len());
        assert(g1[m].instrs[i] == prefix[i]);
        let k = choose|k: int|
            0 <= k < n && crate::phi::needs_phi(df, sites.vals[k], m as usize) && prefix[i]
                == crate::phi::open_phi(sites.keys[k], g[m].preds.len());
        assert(sites.keys[k] == g1[m].instrs[i].def()->0);
    } else {
        let j = i - prefix.len();
        assert(g1[m].instrs[i] == g[m].instrs[j]);
        let v = g[m].instrs[j].def()->0;
        lemma_instr_has_event(g, g.len() as int, m, j);
        lemma_sites_of_contains(events, v, m as usize);
        if !defined_names(events).contains(v) {
            crate::def_sites::lemma_no_site_without_name(events, v);
        }
    }
}

/// In the dominator tree no block is listed as a child twice.
proof fn lemma_tree_single_parent(idom: Seq<usize>)
    requires
        idom.len() <= usize::MAX,
    ensures
        crate::scopes::single_parent(tree_of(idom)),
{
    let tree = tree_of(idom);
    assert forall|p: int, i: int, q: int, j: int|
        0 <= p < tree.len() && 0 <= i < tree[p].len() && 0 <= q < tree.len() && 0 <= j
            < tree[q].len() && #[trigger] tree[p][i] == #[trigger] tree[q][j] implies p == q && i
        == j by {
        lemma_list_of(idom.len(), |b: usize| is_child(idom, p as usize, b));
        lemma_list_of(idom.len(), |b: usize| is_child(idom, q as usize, b));
        let c = tree[p][i];
        assert(tree[p].contains(c));
        assert(tree[q].contains(c));
        assert(is_child(idom, p as usize, c));
        assert(is_child(idom, q as usize, c));
        if i < j {
            assert(tree[p][i] < tree[p][j]);
        }
        if j < i {
            assert(tree[p][j] < tree[p][i]);
        }
    }
}

/// Renaming leaves the stacks as it found them and counts the definitions:
/// in every function whose blocks can all be reached from the entry, every
/// name issued during the walk has gone out of scope at its end, so that
/// every stack is empty again, and the counter of every name stands at the
/// number of its definitions in the blocks of the dominator tree, φs
/// included, or at the largest machine number where there are more.
pub proof fn lemma_stacks_restored(g: Seq<BlockView>)
    requires
        ssa_ready(g),
        g.len() <= usize::MAX,
        all_reachable(preds_of(g)),
    ensures
        ssa_walk(g)->0.st.stacks == initial_state(def_table(g).keys).stacks,
        ssa_walk(g)->0.st.counter.wf(),
        forall|v: Seq<char>|
            crate::scopes::count_of(ssa_walk(g)->0.st.counter, v) == crate::scopes::capped(
                crate::scopes::subtree_count(
                    tree_of(idom_of(preds_of(g))->0),
                    defs_of(
                        with_phis(
                            g,
                            frontier_of(preds_of(g), idom_of(preds_of(g))->0),
                            def_table(g),
                        ),
                    ),
                    v,
                    0,
                ),
            ),
{
    let preds = preds_of(g);
    crate::dominators::lemma_idom_of_shape(preds);
    let idom = idom_of(preds)->0;
    let sites = def_table(g);
    let df = frontier_of(preds, idom);
    let g1 = with_phis(g, df, sites);
    let tree = tree_of(idom);
    let st0 = initial_state(sites.keys);
    let w0 = Walk { st: st0, g: g1 };
    crate::def_sites::lemma_defined_names_distinct(def_events(g, g.len() as int));
    assert(st0.stacks.wf());
    assert(st0.counter.wf());
    crate::frontier::lemma_tree_layered(idom);
    assert(crate::single_assignment::walkable(g1, tree)) by {
        assert forall|m: int, k: int| 0 <= m < g1.len() && 0 <= k < g1[m].succs.len() implies (
        #[trigger] g1[m].succs[k]) < g1.len() by {
            assert(g[m].succs[k] < g.len());
        }
    }
    lemma_tree_single_parent(idom);
    let all = crate::single_assignment::visited(tree, 0);
    assert(crate::scopes::untouched(g1, defs_of(g1), st0.stacks, all)) by {
        assert forall|c: int| #[trigger] all.contains(c) implies 0 <= c < g1.len() && c < defs_of(
            g1,
        ).len() && crate::scopes::row_has_stacks(st0.stacks, defs_of(g1)[c]) by {
            crate::scopes::lemma_visited_level(tree, 0, c);
            let row = defs_of(g1)[c];
            assert forall|i: int| 0 <= i < row.len() && (#[trigger] row[i]) is Some implies st0.stacks.contains(
                row[i]->0,
            ) by {
                lemma_defs_are_keys(g, df, c, i);
            }
        }
    }
    crate::scopes::lemma_walk_restores_stacks(tree, defs_of(g1), w0, 0);
    assert forall|v: Seq<char>| crate::scopes::count_of(st0.counter, v) == 0 by {
        if st0.counter.contains(v) {
            let q = st0.counter.position(v);
            assert(st0.counter.vals[q] == 0);
        }
    }
}

/// How many definitions of `v` the function has once its φs are placed,
/// counted along the dominator tree.
pub open spec fn definitions_of_name(g: Seq<BlockView>, v: Seq<char>) -> nat {
    crate::scopes::subtree_count(
        tree_of(idom_of(preds_of(g))->0),
        defs_of(with_phis(g, frontier_of(preds_of(g), idom_of(preds_of(g))->0), def_table(g))),
        v,
        0,
    )
}

/// Single assignment, stated over the function alone: in every function
/// whose blocks can all be reached from the entry and in which no name has
/// as many definitions as the largest machine number, no two instructions
/// of the function in single-assignment form define the same name.
pub proof fn lemma_single_assignment_by_count(g: Seq<BlockView>)
    requires
        ssa_ready(g),
        g.len() <= usize::MAX,
        all_reachable(preds_of(g)),
        forall|v: Seq<char>| #[trigger] definitions_of_name(g, v) < usize::MAX,
    ensures
        forall|b1: int, i1: int, b2: int, i2: int|
            0 <= b1 < ssa_form(g)->0.len() && 0 <= i1 < ssa_form(g)->0[b1].instrs.len() && 0 <= b2
                < ssa_form(g)->0.len() && 0 <= i2 < ssa_form(g)->0[b2].instrs.len() && (b1, i1) != (
                b2,
                i2,
            ) && (#[trigger] ssa_form(g)->0[b1].instrs[i1]).def() is Some ==> ssa_form(
                g,
            )->0[b1].instrs[i1].def() != (#[trigger] ssa_form(g)->0[b2].instrs[i2]).def(),
{
    lemma_stacks_restored(g);
    let counter = ssa_walk(g)->0.st.counter;
    crate::dominators::lemma_idom_of_shape(preds_of(g));
    assert forall|k: int| 0 <= k < counter.keys.len() implies #[trigger] counter.vals[k]
        < usize::MAX by {
        let v = counter.keys[k];
        assert(counter.contains(v));
        assert(counter.position(v) == k);
        assert(crate::scopes::count_of(counter, v) == crate::scopes::capped(definitions_of_name(g, v)));
    }
    lemma_single_assignment(g);
}

/// A block that the walk from `a` renames has `a` on its chain of immediate
/// dominators.
proof fn lemma_visited_chain(idom: Seq<usize>, a: usize, c: int)
    requires
        idom.len() <= usize::MAX,
        idom.len() >= 1,
        idom[0] == 0,
        crate::dominators::ranked(idom),
        crate::single_assignment::visited(tree_of(idom), a).contains(c),
    ensures
        0 <= c < idom.len(),
        crate::dominators::on_chain(idom, a, c as usize),
    decreases crate::frontier::level_of(tree_of(idom))[a as int],
{
    let tree = tree_of(idom);
    crate::frontier::lemma_tree_layered(idom);
    crate::scopes::lemma_visited_level(tree, a, c);
    if c != a {
        let n = tree[a as int].len() as int;
        let i = crate::scopes::lemma_children_level(tree, a, n, c);
        let e = tree[a as int][i];
        lemma_visited_chain(idom, e, c);
        lemma_list_of(idom.len(), |b: usize| is_child(idom, a, b));
        assert(tree[a as int].contains(e));
        assert(is_child(idom, a, e));
        crate::dominators::lemma_parent_on_chain(idom, e);
        crate::dominators::lemma_on_chain_trans(idom, a, e, c as usize);
    }
}

/// After renaming, every use leads to a definition that dominates it: in
/// every function whose blocks can all be reached from the entry, a use in
/// an instruction that is no φ reads the name it had before, where nothing
/// defines that name on the way, or reads a name that was issued for it at
/// a definition in its own block or in a block that dominates its block.
pub proof fn lemma_uses_are_dominated(g: Seq<BlockView>, c: int, j: int, u: int)
    requires
        ssa_ready(g),
        g.len() <= usize::MAX,
        all_reachable(preds_of(g)),
        0 <= c < g.len(),
        0 <= j < with_phis(
            g,
            frontier_of(preds_of(g), idom_of(preds_of(g))->0),
            def_table(g),
        )[c].instrs.len(),
        !(with_phis(g, frontier_of(preds_of(g), idom_of(preds_of(g))->0), def_table(g))[c].instrs[j] is Phi),
        0 <= u < with_phis(
            g,
            frontier_of(preds_of(g), idom_of(preds_of(g))->0),
            def_table(g),
        )[c].instrs[j].uses().len(),
    ensures
        ({
            let idom = idom_of(preds_of(g))->0;
            let placed = with_phis(g, frontier_of(preds_of(g), idom), def_table(g));
            let out = ssa_form(g)->0;
            let v = placed[c].instrs[j].uses()[u];
            let name = out[c].instrs[j].uses()[u];
            &&& out.len() == g.len()
            &&& out[c].instrs.len() == placed[c].instrs.len()
            &&& !(out[c].instrs[j] is Phi)
            &&& out[c].instrs[j].uses().len() == placed[c].instrs[j].uses().len()
            &&& name == v || exists|a: int, p: int|
                0 <= a < g.len() && crate::dominators::on_chain(idom, a as usize, c as usize) && 0 <= p
                    < placed[a].instrs.len() && p < out[a].instrs.len() && placed[a].instrs[p].def()
                    == Some(v) && #[trigger] out[a].instrs[p].def() == Some(name)
        }),
{
    let preds = preds_of(g);
    crate::dominators::lemma_idom_of_shape(preds);
    let idom = idom_of(preds)->0;
    let sites = def_table(g);
    let df = frontier_of(preds, idom);
    let g1 = with_phis(g, df, sites);
    let tree = tree_of(idom);
    let st0 = initial_state(sites.keys);
    let w0 = Walk { st: st0, g: g1 };
    let orig = defs_of(g1);
    crate::def_sites::lemma_defined_names_distinct(def_events(g, g.len() as int));
    assert(st0.stacks.wf());
    assert(st0.counter.wf());
    crate::frontier::lemma_tree_layered(idom);
    assert(crate::single_assignment::walkable(g1, tree)) by {
        assert forall|m: int, k: int| 0 <= m < g1.len() && 0 <= k < g1[m].succs.len() implies (
        #[trigger] g1[m].succs[k]) < g1.len() by {
            assert(g[m].succs[k] < g.len());
        }
    }
    lemma_tree_single_parent(idom);
    let all = crate::single_assignment::visited(tree, 0);
    let none = Set::<int>::empty();
    assert(crate::visible::walk_seen_ready(tree, orig, g1, w0, none, all)) by {
        assert forall|x: int| #[trigger] all.contains(x) implies 0 <= x < g1.len() && x < orig.len()
            && crate::scopes::row_has_stacks(st0.stacks, orig[x]) && crate::visible::same_body(
            g1[x],
            g1[x],
        ) by {
            crate::scopes::lemma_visited_level(tree, 0, x);
            let row = orig[x];
            assert forall|i: int| 0 <= i < row.len() && (#[trigger] row[i]) is Some implies st0.stacks.contains(
                row[i]->0,
            ) by {
                lemma_defs_are_keys(g, df, x, i);
            }
        }
    }
    crate::visible::lemma_walk_uses(tree, orig, g1, w0, 0, none);
    let out = walk_block(tree, orig, w0, 0).g;
    assert(ssa_form(g) == Some(out));
    crate::frontier::lemma_entry_chain(idom, c as usize);
    lemma_visited(idom, 0, c as usize);
    assert(all.contains(c));
    assert(crate::visible::uses_seen(tree, orig, g1, out, none, c));
    let v = g1[c].instrs[j].uses()[u];
    let name = out[c].instrs[j].uses()[u];
    assert(g1[c].instrs[j] is Phi <==> out[c].instrs[j] is Phi);
    if name != v {
        let from = none.union(crate::visible::above(tree, c));
        assert(crate::visible::founded(defs_of(out), orig, from, v, name));
        let (a, p) = choose|a: int, p: int|
            from.contains(a) && 0 <= a < defs_of(out).len() && a < orig.len() && 0 <= p < defs_of(
                out,
            )[a].len() && p < orig[a].len() && orig[a][p] == Some(v) && #[trigger] defs_of(out)[a][p]
                == Some(name);
        assert(crate::visible::above(tree, c).contains(a));
        lemma_visited_chain(idom, a as usize, c);
        assert(out[a].instrs[p].def() == Some(name));
        assert(g1[a].instrs[p].def() == Some(v));
    }
}

} // verus!
