//! Where each name is defined: for every name, the blocks that hold a
//! definition of it.

use crate::function::{BlockView, IrFunction};
use crate::ir::InstrView;
use crate::names::{lemma_names_view_push, names_view, StrMap};
use vstd::prelude::*;

verus! {

/// For every name, the blocks that define it.
pub type DefSites = StrMap<Vec<usize>>;

/// The definitions made by `instrs`, in order, each paired with the block
/// `b` that holds them.
pub open spec fn block_def_events(instrs: Seq<InstrView>, b: usize) -> Seq<(Seq<char>, usize)>
    decreases instrs.len(),
{
    if instrs.len() == 0 {
        Seq::empty()
    } else {
        let before = block_def_events(instrs.drop_last(), b);
        match instrs.last().def() {
            Some(name) => before.push((name, b)),
            None => before,
        }
    }
}

/// The definitions made by the first `upto` blocks, in program order.
pub open spec fn def_events(g: Seq<BlockView>, upto: int) -> Seq<(Seq<char>, usize)>
    decreases upto,
{
    if upto <= 0 {
        Seq::empty()
    } else {
        def_events(g, upto - 1) + block_def_events(g[upto - 1].instrs, (upto - 1) as usize)
    }
}

/// The blocks of the events that define `name`, in order.  A block occurs
/// once for each definition that it holds.
pub open spec fn sites_of(events: Seq<(Seq<char>, usize)>, name: Seq<char>) -> Seq<usize>
    decreases events.len(),
{
    if events.len() == 0 {
        Seq::empty()
    } else {
        let before = sites_of(events.drop_last(), name);
        if events.last().0 == name {
            before.push(events.last().1)
        } else {
            before
        }
    }
}

/// The names that the events define, each once, in the order in which they
/// are first defined.
pub open spec fn defined_names(events: Seq<(Seq<char>, usize)>) -> Seq<Seq<char>>
    decreases events.len(),
{
    if events.len() == 0 {
        Seq::empty()
    } else {
        let before = defined_names(events.drop_last());
        if before.contains(events.last().0) {
            before
        } else {
            before.push(events.last().0)
        }
    }
}

/// `sites` lists exactly what `events` define.
pub open spec fn sites_match(sites: DefSites, events: Seq<(Seq<char>, usize)>) -> bool {
    &&& sites.wf()
    &&& sites.key_seq() == defined_names(events)
    &&& forall|i: int|
        0 <= i < sites.keys.len() ==> (#[trigger] sites.vals[i])@ == sites_of(
            events,
            sites.keys[i]@,
        )
}

/// No name is listed twice.
pub proof fn lemma_defined_names_distinct(events: Seq<(Seq<char>, usize)>)
    ensures
        defined_names(events).no_duplicates(),
    decreases events.len(),
{
    if events.len() > 0 {
        lemma_defined_names_distinct(events.drop_last());
    }
}

/// A block is listed for a name exactly when one of the events defines the
/// name in that block.
pub proof fn lemma_sites_of_contains(events: Seq<(Seq<char>, usize)>, name: Seq<char>, b: usize)
    ensures
        sites_of(events, name).contains(b) <==> events.contains((name, b)),
    decreases events.len(),
{
    if events.len() > 0 {
        let rest = events.drop_last();
        lemma_sites_of_contains(rest, name, b);
        let before = sites_of(rest, name);
        if events.contains((name, b)) {
            let k = choose|k: int| 0 <= k < events.len() && events[k] == (name, b);
            if k < rest.len() {
                assert(rest[k] == (name, b));
                let j = choose|j: int| 0 <= j < before.len() && before[j] == b;
                assert(sites_of(events, name)[j] == b);
            } else {
                assert(sites_of(events, name) == before.push(b));
                assert(before.push(b)[before.len() as int] == b);
            }
        }
        if sites_of(events, name).contains(b) {
            let s = sites_of(events, name);
            let j = choose|j: int| 0 <= j < s.len() && s[j] == b;
            if j < before.len() {
                assert(before[j] == b);
                let k = choose|k: int| 0 <= k < rest.len() && rest[k] == (name, b);
                assert(events[k] == (name, b));
            } else {
                assert(events[events.len() - 1] == (name, b));
            }
        }
    }
}

/// Collects, for every name, the blocks that define it.  Names are held in
/// the order in which they are first defined.
pub fn collect_defs(func: &IrFunction) -> (sites: DefSites)
    ensures
        sites_match(sites, def_events(func.graph(), func.blocks.len() as int)),
{
    let mut sites: DefSites = StrMap::new();
    let ghost g = func.graph();
    let ghost mut events: Seq<(Seq<char>, usize)> = Seq::empty();
    let mut b: usize = 0;
    while b < func.blocks.len()
        invariant
            b <= func.blocks.len(),
            g == func.graph(),
            events == def_events(g, b as int),
            sites_match(sites, events),
        decreases func.blocks.len() - b,
    {
        let block = &func.blocks[b];
        let ghost instrs = g[b as int].instrs;
        let ghost start = events;
        assert(g[b as int] == block@);
        let mut i: usize = 0;
        while i < block.instrs.len()
            invariant
                i <= block.instrs.len(),
                b < func.blocks.len(),
                instrs == block@.instrs,
                events == start + block_def_events(instrs.take(i as int), b),
                sites_match(sites, events),
            decreases block.instrs.len() - i,
        {
            let ghost sofar = instrs.take(i as int);
            let ghost next = instrs.take(i + 1);
            assert(next.drop_last() =~= sofar);
            assert(next.last() == block.instrs[i as int]@);
            match block.instrs[i].def_name() {
                Some(name) => {
                    let ghost ev2 = events.push((name@, b));
                    assert(ev2 =~= start + block_def_events(next, b));
                    assert(ev2.drop_last() =~= events);
                    let ghost old_sites = sites;
                    match sites.find(name) {
                        Some(k) => {
                            sites.vals[k].push(b);
                            proof {
                                assert(names_view(sites.keys@) == names_view(old_sites.keys@));
                                assert forall|j: int| 0 <= j < sites.keys.len() implies (
                                #[trigger] sites.vals[j])@ == sites_of(ev2, sites.keys[j]@) by {
                                    assert(old_sites.vals[j]@ == sites_of(
                                        events,
                                        old_sites.keys[j]@,
                                    ));
                                    if j != k {
                                        assert(old_sites.key_seq()[j] != old_sites.key_seq()[k as int]);
                                    }
                                }
                            }
                        },
                        None => {
                            let mut first: Vec<usize> = Vec::new();
                            first.push(b);
                            proof {
                                lemma_names_view_push(sites.keys@, *name);
                                lemma_no_site_without_name(events, name@);
                            }
                            sites.keys.push(name.clone());
                            sites.vals.push(first);
                            proof {
                                assert forall|j: int| 0 <= j < sites.keys.len() implies (
                                #[trigger] sites.vals[j])@ == sites_of(ev2, sites.keys[j]@) by {
                                    if j < old_sites.keys.len() {
                                        assert(old_sites.vals[j]@ == sites_of(
                                            events,
                                            old_sites.keys[j]@,
                                        ));
                                        assert(old_sites.key_seq()[j] == old_sites.keys[j]@);
                                    } else {
                                        assert(first@ =~= Seq::<usize>::empty().push(b));
                                    }
                                }
                            }
                        },
                    }
                    proof {
                        events = ev2;
                    }
                },
                None => {
                    assert(block_def_events(next, b) == block_def_events(sofar, b));
                },
            }
            i += 1;
        }
        assert(instrs.take(i as int) =~= instrs);
        b += 1;
    }
    sites
}

/// A name that no event defines has no site.
pub proof fn lemma_no_site_without_name(events: Seq<(Seq<char>, usize)>, name: Seq<char>)
    requires
        !defined_names(events).contains(name),
    ensures
        sites_of(events, name) == Seq::<usize>::empty(),
    decreases events.len(),
{
    if events.len() > 0 {
        let before = defined_names(events.drop_last());
        if before.contains(events.last().0) {
        } else {
            assert(defined_names(events) == before.push(events.last().0));
            assert(before.push(events.last().0)[before.len() as int] == events.last().0);
            if before.contains(name) {
                let k = choose|k: int| 0 <= k < before.len() && before[k] == name;
                assert(before.push(events.last().0)[k] == name);
            }
        }
        lemma_no_site_without_name(events.drop_last(), name);
    }
}

} // verus!
