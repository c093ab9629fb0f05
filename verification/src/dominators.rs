//! Immediate dominators.
//!
//! A block `a` dominates a block `b` when every walk from the entry to `b`
//! passes through `a`; so `a` dominates `b` exactly when `b` cannot be
//! reached once `a` is taken out of the graph.  The immediate dominator of a
//! block is the closest of its strict dominators: the one that all the
//! others dominate.

use crate::function::{BlockView, IrFunction};
use crate::ir::IrError;
use vstd::prelude::*;

verus! {

/// The predecessor lists of a graph.
pub open spec fn preds_of(g: Seq<BlockView>) -> Seq<Seq<usize>> {
    Seq::new(g.len(), |b: int| g[b].preds)
}

/// Every predecessor is a block of the graph.
pub open spec fn preds_in_range(preds: Seq<Seq<usize>>) -> bool {
    forall|b: int, k: int|
        0 <= b < preds.len() && 0 <= k < preds[b].len() ==> #[trigger] preds[b][k] < preds.len()
}

/// A walk through the graph that starts at the entry.
pub open spec fn is_path(preds: Seq<Seq<usize>>, path: Seq<usize>) -> bool {
    &&& path.len() >= 1
    &&& path[0] == 0
    &&& forall|i: int| 0 <= i < path.len() ==> #[trigger] path[i] < preds.len()
    &&& forall|i: int|
        1 <= i < path.len() ==> preds[#[trigger] path[i] as int].contains(path[i - 1])
}

/// Some walk from the entry ends at `b`.
pub open spec fn reachable(preds: Seq<Seq<usize>>, b: usize) -> bool {
    exists|path: Seq<usize>| #[trigger] is_path(preds, path) && path.last() == b
}

/// Some walk from the entry ends at `b` without passing through `a`.
pub open spec fn reaches_without(preds: Seq<Seq<usize>>, a: usize, b: usize) -> bool {
    exists|path: Seq<usize>| #[trigger] is_path(preds, path) && path.last() == b && !path.contains(a)
}

/// Every block can be reached from the entry.
pub open spec fn all_reachable(preds: Seq<Seq<usize>>) -> bool {
    forall|b: usize| b < preds.len() ==> #[trigger] reachable(preds, b)
}

/// Every walk from the entry to `b` passes through `a`.
pub open spec fn dominates(preds: Seq<Seq<usize>>, a: usize, b: usize) -> bool {
    forall|path: Seq<usize>| #[trigger]
        is_path(preds, path) && path.last() == b ==> path.contains(a)
}

/// `a` dominates `b` and is another block.
pub open spec fn strictly_dominates(preds: Seq<Seq<usize>>, a: usize, b: usize) -> bool {
    a != b && dominates(preds, a, b)
}

/// `d` is the immediate dominator of `b`: it strictly dominates `b`, and
/// every strict dominator of `b` dominates it.
pub open spec fn is_idom(preds: Seq<Seq<usize>>, d: usize, b: usize) -> bool {
    &&& strictly_dominates(preds, d, b)
    &&& forall|a: usize| #[trigger] strictly_dominates(preds, a, b) ==> dominates(preds, a, d)
}

/// The immediate dominator of a block that has one.
pub open spec fn immediate_dominator(preds: Seq<Seq<usize>>, b: usize) -> usize {
    choose|d: usize| is_idom(preds, d, b)
}

/// The immediate dominators of a graph with these predecessor lists, where
/// every block can be reached: the entry is entered for itself, every other
/// block gets its immediate dominator.
pub open spec fn idom_of(preds: Seq<Seq<usize>>) -> Option<Seq<usize>> {
    if preds.len() >= 1 && all_reachable(preds) {
        Some(
            Seq::new(
                preds.len(),
                |b: int|
                    if b == 0 {
                        0usize
                    } else {
                        immediate_dominator(preds, b as usize)
                    },
            ),
        )
    } else {
        None
    }
}

/// `rank` numbers the blocks, with numbers up to the number of blocks, so
/// that every block but the entry points at a block of lower rank.
pub open spec fn ranks(idom: Seq<usize>, rank: Seq<nat>) -> bool {
    &&& rank.len() == idom.len()
    &&& forall|b: int| 0 <= b < idom.len() ==> #[trigger] rank[b] <= idom.len()
    &&& forall|b: int|
        1 <= b < idom.len() ==> (#[trigger] idom[b]) < idom.len() && rank[idom[b] as int] < rank[b]
}

/// The table is a tree: following it from any block leads to the entry
/// without coming back to a block.
pub open spec fn ranked(idom: Seq<usize>) -> bool {
    exists|rank: Seq<nat>| ranks(idom, rank)
}

/// A numbering that shows the table to be a tree.
pub open spec fn rank_of(idom: Seq<usize>) -> Seq<nat> {
    choose|rank: Seq<nat>| ranks(idom, rank)
}

/// `a` lies on the chain that leads from `x` up to the entry.
pub open spec fn on_chain(idom: Seq<usize>, a: usize, x: usize) -> bool
    decreases rank_of(idom)[x as int],
{
    a == x || (0 < x < idom.len() && idom[x as int] < idom.len() && rank_of(idom)[idom[x as int] as int]
        < rank_of(idom)[x as int] && on_chain(idom, a, idom[x as int]))
}

/// `idom` is a table for the graph: it is a tree with the entry at its root,
/// and the block that a block points at lies on the chain of each of its
/// predecessors.
pub open spec fn idom_valid(preds: Seq<Seq<usize>>, idom: Seq<usize>) -> bool {
    &&& idom.len() == preds.len()
    &&& idom.len() >= 1
    &&& idom[0] == 0
    &&& ranked(idom)
    &&& forall|b: int, k: int|
        1 <= b < preds.len() && 0 <= k < preds[b].len() ==> on_chain(
            idom,
            idom[b],
            #[trigger] preds[b][k],
        )
}

/// The numbering of a tree is one.
pub proof fn lemma_rank_of(idom: Seq<usize>)
    requires
        ranked(idom),
    ensures
        ranks(idom, rank_of(idom)),
{
}

/// What lies on the chain of a block on the chain of `c` lies on the chain
/// of `c`.
pub proof fn lemma_on_chain_trans(idom: Seq<usize>, a: usize, b: usize, c: usize)
    requires
        on_chain(idom, a, b),
        on_chain(idom, b, c),
    ensures
        on_chain(idom, a, c),
    decreases rank_of(idom)[c as int],
{
    if b != c {
        lemma_on_chain_trans(idom, a, b, idom[c as int]);
    }
}

/// In a tree every block but the entry has the block it points at on its
/// chain.
pub proof fn lemma_parent_on_chain(idom: Seq<usize>, x: usize)
    requires
        ranked(idom),
        0 < x < idom.len(),
    ensures
        on_chain(idom, idom[x as int], x),
{
    lemma_rank_of(idom);
    let p = idom[x as int];
    assert(on_chain(idom, p, p));
}

/// A walk up to and including its place `i` is a walk.
pub proof fn lemma_path_prefix(preds: Seq<Seq<usize>>, path: Seq<usize>, i: int)
    requires
        is_path(preds, path),
        0 <= i < path.len(),
    ensures
        is_path(preds, path.take(i + 1)),
        path.take(i + 1).last() == path[i],
{
    let p = path.take(i + 1);
    assert forall|k: int| 1 <= k < p.len() implies preds[#[trigger] p[k] as int].contains(p[k - 1]) by {
        assert(preds[path[k] as int].contains(path[k - 1]));
    }
}

/// A walk goes on along an edge.
pub proof fn lemma_path_push(preds: Seq<Seq<usize>>, path: Seq<usize>, b: usize)
    requires
        is_path(preds, path),
        b < preds.len(),
        preds[b as int].contains(path.last()),
    ensures
        is_path(preds, path.push(b)),
        path.push(b).last() == b,
{
    let p = path.push(b);
    assert forall|k: int| 1 <= k < p.len() implies preds[#[trigger] p[k] as int].contains(p[k - 1]) by {
        if k < path.len() {
            assert(preds[path[k] as int].contains(path[k - 1]));
        }
    }
}

/// A walk to a block, followed by what another walk does behind that block,
/// is a walk.
pub proof fn lemma_path_join(preds: Seq<Seq<usize>>, head: Seq<usize>, path: Seq<usize>, i: int)
    requires
        is_path(preds, head),
        is_path(preds, path),
        0 <= i < path.len(),
        head.last() == path[i],
    ensures
        is_path(preds, head + path.subrange(i + 1, path.len() as int)),
        (head + path.subrange(i + 1, path.len() as int)).last() == path.last(),
        forall|x: usize|
            (head + path.subrange(i + 1, path.len() as int)).contains(x) ==> head.contains(x)
                || exists|k: int| i < k < path.len() && path[k] == x,
{
    let tail = path.subrange(i + 1, path.len() as int);
    let p = head + tail;
    assert forall|k: int| 0 <= k < p.len() implies #[trigger] p[k] < preds.len() by {
        if k >= head.len() {
            assert(p[k] == path[i + 1 + (k - head.len())]);
        }
    }
    assert forall|k: int| 1 <= k < p.len() implies preds[#[trigger] p[k] as int].contains(p[k - 1]) by {
        if k < head.len() {
            assert(preds[head[k] as int].contains(head[k - 1]));
        } else {
            let q = i + 1 + (k - head.len());
            assert(p[k] == path[q]);
            assert(preds[path[q] as int].contains(path[q - 1]));
            if k == head.len() {
                assert(p[k - 1] == head.last());
            } else {
                assert(p[k - 1] == path[q - 1]);
            }
        }
    }
    assert forall|x: usize| p.contains(x) implies head.contains(x) || exists|k: int|
        i < k < path.len() && path[k] == x by {
        let j = choose|j: int| 0 <= j < p.len() && p[j] == x;
        if j < head.len() {
            assert(head[j] == x);
        } else {
            assert(path[i + 1 + (j - head.len())] == x);
        }
    }
    if tail.len() == 0 {
        assert(p =~= head);
    } else {
        assert(p.last() == tail.last());
    }
}

/// The last place at which a walk passes through a block it passes through.
pub proof fn lemma_last_place(path: Seq<usize>, a: usize) -> (i: int)
    requires
        path.contains(a),
    ensures
        0 <= i < path.len(),
        path[i] == a,
        forall|k: int| i < k < path.len() ==> path[k] != a,
    decreases path.len(),
{
    if path.last() == a {
        path.len() - 1
    } else {
        let j = choose|j: int| 0 <= j < path.len() && path[j] == a;
        assert(path.drop_last()[j] == a);
        let i = lemma_last_place(path.drop_last(), a);
        assert forall|k: int| i < k < path.len() implies path[k] != a by {
            if k < path.len() - 1 {
                assert(path.drop_last()[k] != a);
            }
        }
        i
    }
}

/// The first place at which a walk passes through a block it passes through.
pub proof fn lemma_first_place(path: Seq<usize>, a: usize) -> (i: int)
    requires
        path.contains(a),
    ensures
        0 <= i < path.len(),
        path[i] == a,
        forall|k: int| 0 <= k < i ==> path[k] != a,
    decreases path.len(),
{
    let j = choose|j: int| 0 <= j < path.len() && path[j] == a;
    if j == path.len() - 1 && !path.drop_last().contains(a) {
        assert forall|k: int| 0 <= k < j implies path[k] != a by {
            if path[k] == a {
                assert(path.drop_last()[k] == a);
            }
        }
        j
    } else {
        if j < path.len() - 1 {
            assert(path.drop_last()[j] == a);
        }
        let i = lemma_first_place(path.drop_last(), a);
        assert forall|k: int| 0 <= k < i implies path[k] != a by {
            assert(path.drop_last()[k] != a);
        }
        i
    }
}

/// The entry dominates every block.
pub proof fn lemma_entry_dominates(preds: Seq<Seq<usize>>, b: usize)
    ensures
        dominates(preds, 0, b),
{
    assert forall|path: Seq<usize>| #[trigger] is_path(preds, path) && path.last() == b implies path.contains(
        0,
    ) by {
        assert(path[0] == 0);
    }
}

/// What dominates a dominator of a block dominates the block.
pub proof fn lemma_dominates_trans(preds: Seq<Seq<usize>>, a: usize, b: usize, c: usize)
    requires
        dominates(preds, a, b),
        dominates(preds, b, c),
    ensures
        dominates(preds, a, c),
{
    assert forall|path: Seq<usize>| #[trigger] is_path(preds, path) && path.last() == c implies path.contains(
        a,
    ) by {
        assert(path.contains(b));
        let i = choose|i: int| 0 <= i < path.len() && path[i] == b;
        lemma_path_prefix(preds, path, i);
        let head = path.take(i + 1);
        assert(head.contains(a));
        let j = choose|j: int| 0 <= j < head.len() && head[j] == a;
        assert(path[j] == a);
    }
}

/// Two blocks that dominate each other, one of which can be reached, are
/// one block.
pub proof fn lemma_dominates_antisym(preds: Seq<Seq<usize>>, a: usize, b: usize)
    requires
        dominates(preds, a, b),
        dominates(preds, b, a),
        reachable(preds, a),
    ensures
        a == b,
{
    if a != b {
        let path = choose|path: Seq<usize>| #[trigger] is_path(preds, path) && path.last() == a;
        assert(path[path.len() - 1] == a);
        let i = lemma_first_place(path, a);
        lemma_path_prefix(preds, path, i);
        let to_a = path.take(i + 1);
        assert(to_a.contains(b));
        let j = choose|j: int| 0 <= j < to_a.len() && to_a[j] == b;
        assert(j < i);
        lemma_path_prefix(preds, path, j);
        let to_b = path.take(j + 1);
        assert(to_b.last() == b);
        assert(to_b.contains(a));
        let k = choose|k: int| 0 <= k < to_b.len() && to_b[k] == a;
        assert(path[k] == a);
    }
}

/// Of two strict dominators of a block that can be reached, one dominates
/// the other.
pub proof fn lemma_dominators_in_line(preds: Seq<Seq<usize>>, a: usize, c: usize, b: usize)
    requires
        strictly_dominates(preds, a, b),
        strictly_dominates(preds, c, b),
        reachable(preds, b),
    ensures
        dominates(preds, a, c) || dominates(preds, c, a),
{
    if !dominates(preds, a, c) && a != c {
        let q = choose|q: Seq<usize>| #[trigger] is_path(preds, q) && q.last() == c && !q.contains(a);
        let p = choose|p: Seq<usize>| #[trigger] is_path(preds, p) && p.last() == b;
        assert(p.contains(a));
        assert(p.contains(c));
        let i = lemma_last_place(p, a);
        let j = lemma_last_place(p, c);
        if i < j {
            // Behind its last `c` the walk meets no `a`: a walk to `c` around `a`
            // goes on to `b` around `a`.
            lemma_path_join(preds, q, p, j);
            let joined = q + p.subrange(j + 1, p.len() as int);
            if joined.contains(a) {
                let k = choose|k: int| j < k < p.len() && p[k] == a;
            }
            assert(!joined.contains(a));
        } else {
            assert(i != j);
            assert forall|r: Seq<usize>| #[trigger] is_path(preds, r) && r.last() == a implies r.contains(
                c,
            ) by {
                if !r.contains(c) {
                    lemma_path_join(preds, r, p, i);
                    let joined = r + p.subrange(i + 1, p.len() as int);
                    if joined.contains(c) {
                        let k = choose|k: int| i < k < p.len() && p[k] == c;
                    }
                    assert(!joined.contains(c));
                }
            }
        }
    } else if a == c {
        assert forall|r: Seq<usize>| #[trigger] is_path(preds, r) && r.last() == c implies r.contains(
            a,
        ) by {
            assert(r[r.len() - 1] == a);
        }
    }
}

/// What dominates a block can be reached if the block can.
pub proof fn lemma_dominator_reachable(preds: Seq<Seq<usize>>, a: usize, b: usize)
    requires
        dominates(preds, a, b),
        reachable(preds, b),
    ensures
        reachable(preds, a),
        a < preds.len(),
{
    let p = choose|p: Seq<usize>| #[trigger] is_path(preds, p) && p.last() == b;
    assert(p.contains(a));
    let i = choose|i: int| 0 <= i < p.len() && p[i] == a;
    lemma_path_prefix(preds, p, i);
}

/// A block that can be reached has one immediate dominator at most.
pub proof fn lemma_idom_unique(preds: Seq<Seq<usize>>, d1: usize, d2: usize, b: usize)
    requires
        is_idom(preds, d1, b),
        is_idom(preds, d2, b),
        reachable(preds, b),
    ensures
        d1 == d2,
{
    assert(strictly_dominates(preds, d1, b));
    assert(strictly_dominates(preds, d2, b));
    assert(dominates(preds, d1, d2));
    assert(dominates(preds, d2, d1));
    lemma_dominator_reachable(preds, d1, b);
    lemma_dominates_antisym(preds, d1, d2);
}

/// A strict dominator of a block dominates every predecessor of the block.
pub proof fn lemma_dominates_pred(preds: Seq<Seq<usize>>, d: usize, b: usize, p: usize)
    requires
        strictly_dominates(preds, d, b),
        b < preds.len(),
        preds[b as int].contains(p),
    ensures
        dominates(preds, d, p),
{
    assert forall|path: Seq<usize>| #[trigger] is_path(preds, path) && path.last() == p implies path.contains(
        d,
    ) by {
        lemma_path_push(preds, path, b);
        let longer = path.push(b);
        assert(longer.contains(d));
        let j = choose|j: int| 0 <= j < longer.len() && longer[j] == d;
        assert(path[j] == d);
    }
}

/// Every block dominates itself.
pub proof fn lemma_dominates_self(preds: Seq<Seq<usize>>, a: usize)
    ensures
        dominates(preds, a, a),
{
    assert forall|path: Seq<usize>| #[trigger] is_path(preds, path) && path.last() == a implies path.contains(
        a,
    ) by {
        assert(path[path.len() - 1] == a);
    }
}

/// Only the entry dominates the entry.
pub proof fn lemma_entry_dominators(preds: Seq<Seq<usize>>, a: usize)
    requires
        preds.len() >= 1,
        dominates(preds, a, 0),
    ensures
        a == 0,
{
    let path = seq![0usize];
    assert(is_path(preds, path));
    assert(path.last() == 0);
    assert(path.contains(a));
}

/// `t` holds the immediate dominator of every block but the entry, and the
/// entry for itself.
pub open spec fn is_idom_table(preds: Seq<Seq<usize>>, t: Seq<usize>) -> bool {
    &&& t.len() == preds.len()
    &&& t.len() >= 1
    &&& t[0] == 0
    &&& forall|b: usize| 1 <= b < t.len() ==> is_idom(preds, #[trigger] t[b as int], b)
}

/// In the table of immediate dominators, the chain of a block that can be
/// reached holds exactly the blocks that dominate it.
pub proof fn lemma_dominator_on_chain(preds: Seq<Seq<usize>>, t: Seq<usize>, a: usize, x: usize)
    requires
        is_idom_table(preds, t),
        ranked(t),
        x < t.len(),
        dominates(preds, a, x),
    ensures
        on_chain(t, a, x),
    decreases rank_of(t)[x as int],
{
    lemma_rank_of(t);
    if a != x {
        if x == 0 {
            lemma_entry_dominators(preds, a);
        }
        let d = t[x as int];
        assert(is_idom(preds, d, x));
        assert(strictly_dominates(preds, a, x));
        assert(dominates(preds, a, d));
        lemma_dominator_on_chain(preds, t, a, d);
    }
}

/// In a valid table, whatever lies on the chain of a block lies on every
/// walk from the entry to that block.
pub proof fn lemma_chain_on_path(
    preds: Seq<Seq<usize>>,
    idom: Seq<usize>,
    path: Seq<usize>,
    a: usize,
)
    requires
        idom_valid(preds, idom),
        is_path(preds, path),
        on_chain(idom, a, path.last()),
    ensures
        path.contains(a),
    decreases path.len(),
{
    let v = path.last();
    if a == v {
        assert(path[path.len() - 1] == a);
    } else {
        if path.len() == 1 {
            assert(v == 0);
        } else {
            let rest = path.drop_last();
            let p = rest.last();
            assert(p == path[path.len() - 2]);
            assert(preds[path[path.len() - 1] as int].contains(path[path.len() - 2]));
            let k = choose|k: int| 0 <= k < preds[v as int].len() && preds[v as int][k] == p;
            assert(on_chain(idom, idom[v as int], preds[v as int][k]));
            lemma_on_chain_trans(idom, a, idom[v as int], p);
            assert(is_path(preds, rest)) by {
                assert forall|i: int| 1 <= i < rest.len() implies preds[#[trigger] rest[i] as int].contains(
                    rest[i - 1],
                ) by {
                    assert(preds[path[i] as int].contains(path[i - 1]));
                }
            }
            lemma_chain_on_path(preds, idom, rest, a);
            let j = choose|j: int| 0 <= j < rest.len() && rest[j] == a;
            assert(path[j] == a);
        }
    }
}

/// In a valid table, whatever lies on the chain of a block dominates it.
pub proof fn lemma_chain_dominates(preds: Seq<Seq<usize>>, idom: Seq<usize>, a: usize, x: usize)
    requires
        idom_valid(preds, idom),
        on_chain(idom, a, x),
    ensures
        dominates(preds, a, x),
{
    assert forall|path: Seq<usize>| #[trigger] is_path(preds, path) && path.last() == x implies path.contains(
        a,
    ) by {
        lemma_chain_on_path(preds, idom, path, a);
    }
}

/// In a valid table every block but the entry points at a block that
/// strictly dominates it, and the entry points at itself.
pub proof fn lemma_idom_dominates(preds: Seq<Seq<usize>>, idom: Seq<usize>)
    requires
        idom_valid(preds, idom),
    ensures
        idom[0] == 0,
        forall|b: usize|
            1 <= b < idom.len() ==> strictly_dominates(preds, #[trigger] idom[b as int], b),
{
    lemma_rank_of(idom);
    assert forall|b: usize| 1 <= b < idom.len() implies strictly_dominates(
        preds,
        #[trigger] idom[b as int],
        b,
    ) by {
        let a = idom[b as int];
        assert(rank_of(idom)[idom[b as int] as int] < rank_of(idom)[b as int]);
        assert forall|path: Seq<usize>| #[trigger]
            is_path(preds, path) && path.last() == b implies path.contains(a) by {
            lemma_parent_on_chain(idom, b);
            lemma_chain_on_path(preds, idom, path, a);
        }
    }
}

/// The table of immediate dominators of a graph has one entry for each
/// block, holds the immediate dominator of every block but the entry, and is
/// the only table that does.
pub proof fn lemma_idom_of(preds: Seq<Seq<usize>>, t: Seq<usize>)
    requires
        preds.len() >= 1,
        preds.len() <= usize::MAX,
        all_reachable(preds),
        is_idom_table(preds, t),
    ensures
        idom_of(preds) == Some(t),
{
    let u = idom_of(preds)->0;
    assert forall|b: int| 0 <= b < t.len() implies u[b] == t[b] by {
        if b != 0 {
            let bu = b as usize;
            assert(is_idom(preds, t[bu as int], bu));
            let d = immediate_dominator(preds, bu);
            assert(reachable(preds, bu));
            lemma_idom_unique(preds, d, t[b], bu);
        }
    }
    assert(u =~= t);
}

/// How many of the blocks below `m` strictly dominate `b`.
pub open spec fn dominator_count(preds: Seq<Seq<usize>>, b: usize, m: nat) -> nat
    decreases m,
{
    if m == 0 {
        0
    } else {
        dominator_count(preds, b, (m - 1) as nat) + if strictly_dominates(
            preds,
            (m - 1) as usize,
            b,
        ) {
            1nat
        } else {
            0nat
        }
    }
}

proof fn lemma_count_bound(preds: Seq<Seq<usize>>, b: usize, m: nat)
    ensures
        dominator_count(preds, b, m) <= m,
    decreases m,
{
    if m > 0 {
        lemma_count_bound(preds, b, (m - 1) as nat);
    }
}

/// A block whose strict dominators below `m` all strictly dominate `b` has
/// no more of them than `b`, and fewer where `b` has one that it lacks.
proof fn lemma_count_grows(preds: Seq<Seq<usize>>, d: usize, b: usize, m: nat, extra: usize)
    requires
        m <= usize::MAX,
        forall|a: usize| a < m && strictly_dominates(preds, a, d) ==> strictly_dominates(preds, a, b),
    ensures
        dominator_count(preds, d, m) <= dominator_count(preds, b, m),
        extra < m && strictly_dominates(preds, extra, b) && !strictly_dominates(preds, extra, d)
            ==> dominator_count(preds, d, m) < dominator_count(preds, b, m),
    decreases m,
{
    if m > 0 {
        lemma_count_grows(preds, d, b, (m - 1) as nat, extra);
    }
}

/// The table of immediate dominators is a tree: a block has more strict
/// dominators than its immediate dominator.
pub proof fn lemma_idom_table_ranked(preds: Seq<Seq<usize>>, t: Seq<usize>)
    requires
        all_reachable(preds),
        is_idom_table(preds, t),
        preds.len() <= usize::MAX,
    ensures
        ranked(t),
{
    let n = preds.len();
    let rank = Seq::new(n, |b: int| dominator_count(preds, b as usize, n));
    assert forall|b: int| 0 <= b < t.len() implies #[trigger] rank[b] <= t.len() by {
        lemma_count_bound(preds, b as usize, n);
    }
    assert forall|b: int| 1 <= b < t.len() implies (#[trigger] t[b]) < t.len() && rank[t[b] as int]
        < rank[b] by {
        let bu = b as usize;
        let d = t[b];
        assert(is_idom(preds, t[bu as int], bu));
        assert(reachable(preds, bu));
        lemma_dominator_reachable(preds, d, bu);
        assert forall|a: usize| a < n && strictly_dominates(preds, a, d) implies strictly_dominates(
            preds,
            a,
            bu,
        ) by {
            lemma_dominates_trans(preds, a, d, bu);
            if a == bu {
                lemma_dominates_antisym(preds, d, bu);
            }
        }
        lemma_count_grows(preds, d, bu, n, d);
    }
    assert(ranks(t, rank));
}

/// The table of immediate dominators of a graph in which every block can be
/// reached is a valid table for it.
pub proof fn lemma_idom_table_valid(preds: Seq<Seq<usize>>, t: Seq<usize>)
    requires
        all_reachable(preds),
        is_idom_table(preds, t),
        preds_in_range(preds),
        preds.len() <= usize::MAX,
    ensures
        idom_valid(preds, t),
{
    lemma_idom_table_ranked(preds, t);
    assert forall|b: int, k: int| 1 <= b < preds.len() && 0 <= k < preds[b].len() implies on_chain(
        t,
        t[b],
        #[trigger] preds[b][k],
    ) by {
        let bu = b as usize;
        let p = preds[b][k];
        assert(is_idom(preds, t[bu as int], bu));
        lemma_dominates_pred(preds, t[b], bu, p);
        lemma_dominator_on_chain(preds, t, t[b], p);
    }
}

/// How many entries of a list of marks are not set.
pub open spec fn unmarked(marks: Seq<bool>) -> nat
    decreases marks.len(),
{
    if marks.len() == 0 {
        0
    } else {
        unmarked(marks.drop_last()) + if marks.last() {
            0nat
        } else {
            1nat
        }
    }
}

proof fn lemma_mark(marks: Seq<bool>, b: int)
    requires
        0 <= b < marks.len(),
        !marks[b],
    ensures
        unmarked(marks.update(b, true)) < unmarked(marks),
    decreases marks.len(),
{
    let after = marks.update(b, true);
    if b == marks.len() - 1 {
        assert(after.drop_last() =~= marks.drop_last());
    } else {
        assert(after.drop_last() =~= marks.drop_last().update(b, true));
        lemma_mark(marks.drop_last(), b);
    }
}

/// The marks stand for walks around `avoid`: the entry is marked, and every
/// marked block is the end of a walk that does not pass through `avoid`.
pub open spec fn marks_sound(preds: Seq<Seq<usize>>, avoid: usize, marks: Seq<bool>) -> bool {
    &&& marks.len() == preds.len()
    &&& marks.len() >= 1
    &&& marks[0]
    &&& forall|b: usize| b < marks.len() && #[trigger] marks[b as int] ==> reaches_without(preds, avoid, b)
}

/// No unmarked block but `avoid` has a marked predecessor.
pub open spec fn marks_closed(preds: Seq<Seq<usize>>, avoid: usize, marks: Seq<bool>, upto: int) -> bool {
    forall|b: int, k: int|
        1 <= b < upto && b != avoid && !marks[b] && 0 <= k < preds[b].len() ==> !marks[#[trigger] preds[b][k] as int]
}

/// Where the marks are closed, every block on a walk around `avoid` is
/// marked.
proof fn lemma_closed_marks(preds: Seq<Seq<usize>>, avoid: usize, marks: Seq<bool>, path: Seq<usize>, i: int)
    requires
        marks.len() == preds.len(),
        marks.len() >= 1,
        marks[0],
        marks_closed(preds, avoid, marks, marks.len() as int),
        is_path(preds, path),
        !path.contains(avoid),
        0 <= i < path.len(),
    ensures
        marks[path[i] as int],
    decreases i,
{
    if i > 0 {
        lemma_closed_marks(preds, avoid, marks, path, i - 1);
        let b = path[i];
        assert(preds[path[i] as int].contains(path[i - 1]));
        let k = choose|k: int| 0 <= k < preds[b as int].len() && preds[b as int][k] == path[i - 1];
        assert(marks[preds[b as int][k] as int]);
        assert(path[i] != avoid);
        if b == 0 {
        } else if !marks[b as int] {
            assert(false);
        }
    }
}

/// Whether a predecessor of a block is marked.
fn has_marked_pred(ps: &Vec<usize>, marks: &Vec<bool>) -> (r: bool)
    requires
        forall|k: int| 0 <= k < ps.len() ==> ps[k] < marks.len(),
    ensures
        r <==> exists|k: int| 0 <= k < ps.len() && marks[#[trigger] ps[k] as int],
{
    let mut k: usize = 0;
    while k < ps.len()
        invariant
            k <= ps.len(),
            forall|k: int| 0 <= k < ps.len() ==> ps[k] < marks.len(),
            forall|j: int| 0 <= j < k ==> !marks[#[trigger] ps[j] as int],
        decreases ps.len() - k,
    {
        if marks[ps[k]] {
            return true;
        }
        k += 1;
    }
    false
}

/// Marks the blocks that a walk from the entry reaches without passing
/// through `avoid`.
fn search(func: &IrFunction, avoid: usize) -> (marks: Vec<bool>)
    requires
        func.blocks.len() >= 1,
        preds_in_range(preds_of(func.graph())),
        avoid != 0,
    ensures
        marks.len() == func.blocks.len(),
        forall|b: usize|
            b < marks.len() ==> (#[trigger] marks[b as int] <==> reaches_without(
                preds_of(func.graph()),
                avoid,
                b,
            )),
{
    let n = func.blocks.len();
    let ghost preds = preds_of(func.graph());
    let mut marks: Vec<bool> = Vec::new();
    let mut b: usize = 0;
    while b < n
        invariant
            b <= n,
            marks.len() == b,
            forall|a: int| 0 <= a < b ==> (#[trigger] marks[a] <==> a == 0),
        decreases n - b,
    {
        marks.push(b == 0);
        b += 1;
    }
    proof {
        let start = seq![0usize];
        assert(is_path(preds, start));
        assert(start.last() == 0);
        assert(!start.contains(avoid));
    }
    loop
        invariant
            n == func.blocks.len(),
            n >= 1,
            preds == preds_of(func.graph()),
            preds_in_range(preds),
            avoid != 0,
            marks_sound(preds, avoid, marks@),
        ensures
            marks_closed(preds, avoid, marks@, n as int),
        decreases unmarked(marks@),
    {
        let ghost start = marks@;
        let mut changed = false;
        let mut b: usize = 1;
        while b < n
            invariant
                1 <= b <= n,
                n == func.blocks.len(),
                preds == preds_of(func.graph()),
                preds_in_range(preds),
                avoid != 0,
                marks_sound(preds, avoid, marks@),
                unmarked(marks@) <= unmarked(start),
                changed ==> unmarked(marks@) < unmarked(start),
                !changed ==> marks@ == start,
                !changed ==> marks_closed(preds, avoid, marks@, b as int),
            decreases n - b,
        {
            let ps = &func.blocks[b].preds;
            assert(ps@ == preds[b as int]);
            assert forall|k: int| 0 <= k < ps.len() implies ps[k] < marks.len() by {
                assert(preds[b as int][k] < preds.len());
            }
            if !marks[b] && b != avoid && has_marked_pred(ps, &marks) {
                proof {
                    lemma_mark(marks@, b as int);
                    let k = choose|k: int| 0 <= k < ps.len() && marks[#[trigger] ps[k] as int];
                    let p = ps[k];
                    assert(marks[p as int]);
                    let path = choose|path: Seq<usize>| #[trigger]
                        is_path(preds, path) && path.last() == p && !path.contains(avoid);
                    assert(preds[b as int][k] == p);
                    lemma_path_push(preds, path, b);
                    let longer = path.push(b);
                    if longer.contains(avoid) {
                        let j = choose|j: int| 0 <= j < longer.len() && longer[j] == avoid;
                        assert(path[j] == avoid);
                    }
                }
                marks.set(b, true);
                changed = true;
            }
            b += 1;
        }
        if !changed {
            break ;
        }
    }
    proof {
        assert forall|b: usize| b < marks.len() implies (#[trigger] marks[b as int]
            <==> reaches_without(preds, avoid, b)) by {
            if reaches_without(preds, avoid, b) {
                let path = choose|path: Seq<usize>| #[trigger]
                    is_path(preds, path) && path.last() == b && !path.contains(avoid);
                lemma_closed_marks(preds, avoid, marks@, path, path.len() - 1);
            }
        }
    }
    marks
}

/// For every pair of blocks, whether the second is reached by a walk that
/// does not pass through the first.
fn walks_around(func: &IrFunction) -> (around: Vec<Vec<bool>>)
    requires
        func.blocks.len() >= 1,
        preds_in_range(preds_of(func.graph())),
    ensures
        around.len() == func.blocks.len(),
        forall|a: usize| a < around.len() ==> (#[trigger] around[a as int]).len() == around.len(),
        forall|a: usize, b: usize|
            a < around.len() && b < around.len() ==> (around[a as int][b as int] <==> !#[trigger] dominates(
                preds_of(func.graph()),
                a,
                b,
            )),
{
    let n = func.blocks.len();
    let ghost preds = preds_of(func.graph());
    let mut around: Vec<Vec<bool>> = Vec::new();
    let mut a: usize = 0;
    while a < n
        invariant
            a <= n,
            n == func.blocks.len(),
            n >= 1,
            preds == preds_of(func.graph()),
            preds_in_range(preds),
            around.len() == a,
            forall|c: usize| c < a ==> (#[trigger] around[c as int]).len() == n,
            forall|c: usize, b: usize|
                c < a && b < n ==> (around[c as int][b as int] <==> !#[trigger] dominates(preds, c, b)),
        decreases n - a,
    {
        let row = if a == 0 {
            let mut row: Vec<bool> = Vec::new();
            let mut b: usize = 0;
            while b < n
                invariant
                    b <= n,
                    row.len() == b,
                    forall|c: int| 0 <= c < b ==> !#[trigger] row[c],
                decreases n - b,
            {
                row.push(false);
                b += 1;
            }
            row
        } else {
            search(func, a)
        };
        proof {
            assert forall|b: usize| b < n implies (row[b as int] <==> !#[trigger] dominates(preds, a, b)) by {
                if a == 0 {
                    lemma_entry_dominates(preds, b);
                } else {
                    assert(row[b as int] <==> reaches_without(preds, a, b));
                    if reaches_without(preds, a, b) {
                        let path = choose|path: Seq<usize>| #[trigger]
                            is_path(preds, path) && path.last() == b && !path.contains(a);
                        assert(!dominates(preds, a, b));
                    } else {
                        assert forall|path: Seq<usize>| #[trigger]
                            is_path(preds, path) && path.last() == b implies path.contains(a) by {}
                    }
                }
            }
        }
        around.push(row);
        a += 1;
    }
    around
}

/// The closest of the strict dominators of `b` among the blocks below `m`.
pub open spec fn closest_below(preds: Seq<Seq<usize>>, b: usize, m: nat) -> usize
    decreases m,
{
    if m <= 1 {
        0
    } else {
        let d = closest_below(preds, b, (m - 1) as nat);
        let a = (m - 1) as usize;
        if a != b && dominates(preds, a, b) && dominates(preds, d, a) {
            a
        } else {
            d
        }
    }
}

/// What [`closest_below`] picks strictly dominates the block, and every
/// strict dominator below `m` dominates it.
pub proof fn lemma_closest_below(preds: Seq<Seq<usize>>, b: usize, m: nat)
    requires
        b >= 1,
        reachable(preds, b),
        m <= usize::MAX,
    ensures
        strictly_dominates(preds, closest_below(preds, b, m), b),
        closest_below(preds, b, m) < m || m == 0,
        forall|c: usize|
            c < m && strictly_dominates(preds, c, b) ==> dominates(preds, c, closest_below(preds, b, m)),
    decreases m,
{
    if m <= 1 {
        lemma_entry_dominates(preds, b);
        lemma_entry_dominates(preds, 0);
    } else {
        lemma_closest_below(preds, b, (m - 1) as nat);
        let d = closest_below(preds, b, (m - 1) as nat);
        let a = (m - 1) as usize;
        if a != b && dominates(preds, a, b) && dominates(preds, d, a) {
            assert forall|c: usize| c < m && strictly_dominates(preds, c, b) implies dominates(
                preds,
                c,
                a,
            ) by {
                if c < a {
                    lemma_dominates_trans(preds, c, d, a);
                } else {
                    lemma_dominates_self(preds, a);
                }
            }
        } else {
            if strictly_dominates(preds, a, b) {
                lemma_dominators_in_line(preds, a, d, b);
            }
        }
    }
}

/// Every block but the entry that can be reached has an immediate dominator.
pub proof fn lemma_idom_exists(preds: Seq<Seq<usize>>, b: usize)
    requires
        1 <= b < preds.len(),
        reachable(preds, b),
        preds.len() <= usize::MAX,
    ensures
        is_idom(preds, closest_below(preds, b, preds.len()), b),
{
    let d = closest_below(preds, b, preds.len());
    lemma_closest_below(preds, b, preds.len());
    assert forall|c: usize| #[trigger] strictly_dominates(preds, c, b) implies dominates(preds, c, d) by {
        lemma_dominator_reachable(preds, c, b);
    }
}

/// Where every block can be reached, the table of immediate dominators
/// holds the immediate dominator of every block but the entry, and is valid
/// for the graph.
pub proof fn lemma_idom_of_shape(preds: Seq<Seq<usize>>)
    requires
        idom_of(preds) is Some,
        preds_in_range(preds),
        preds.len() <= usize::MAX,
    ensures
        is_idom_table(preds, idom_of(preds)->0),
        idom_valid(preds, idom_of(preds)->0),
{
    let t = idom_of(preds)->0;
    assert forall|b: usize| 1 <= b < t.len() implies is_idom(preds, #[trigger] t[b as int], b) by {
        assert(reachable(preds, b));
        lemma_idom_exists(preds, b);
        assert(t[b as int] == immediate_dominator(preds, b));
    }
    lemma_idom_table_valid(preds, t);
}

/// The closest strict dominator of block `b`, read from the table of walks.
fn closest_dominator(around: &Vec<Vec<bool>>, b: usize, Ghost(preds): Ghost<Seq<Seq<usize>>>) -> (d: usize)
    requires
        around.len() == preds.len(),
        1 <= b < around.len(),
        forall|a: usize| a < around.len() ==> (#[trigger] around[a as int]).len() == around.len(),
        forall|a: usize, c: usize|
            a < around.len() && c < around.len() ==> (around[a as int][c as int] <==> !#[trigger] dominates(
                preds,
                a,
                c,
            )),
    ensures
        d == closest_below(preds, b, preds.len()),
{
    let n = around.len();
    let mut d: usize = 0;
    let mut a: usize = 1;
    while a < n
        invariant
            1 <= a <= n,
            n == around.len(),
            n == preds.len(),
            1 <= b < n,
            d < a,
            forall|a: usize| a < around.len() ==> (#[trigger] around[a as int]).len() == around.len(),
            forall|a: usize, c: usize|
                a < around.len() && c < around.len() ==> (around[a as int][c as int] <==> !#[trigger] dominates(
                    preds,
                    a,
                    c,
                )),
            d == closest_below(preds, b, a as nat),
        decreases n - a,
    {
        assert(around[a as int].len() == n);
        assert(around[d as int].len() == n);
        assert(around[a as int][b as int] <==> !dominates(preds, a, b));
        assert(around[d as int][a as int] <==> !dominates(preds, d, a));
        if a != b && !around[a][b] && !around[d][a] {
            d = a;
        }
        a += 1;
    }
    d
}

/// Computes the immediate dominator of every block.
///
/// Succeeds exactly when every block can be reached from the entry.  The
/// table that comes back holds, for every block but the entry, the closest
/// of its strict dominators, and the entry for itself; it is valid for the
/// graph.  Where some block cannot be reached the graph is malformed.
pub fn immediate_dominators(func: &IrFunction) -> (r: Result<Vec<usize>, IrError>)
    requires
        func.blocks.len() >= 1,
        preds_in_range(preds_of(func.graph())),
    ensures
        r is Ok <==> all_reachable(preds_of(func.graph())),
        match r {
            Ok(t) => {
                &&& idom_of(preds_of(func.graph())) == Some(t@)
                &&& is_idom_table(preds_of(func.graph()), t@)
                &&& idom_valid(preds_of(func.graph()), t@)
            },
            Err(e) => e == IrError::MalformedCfg && idom_of(preds_of(func.graph())) is None,
        },
{
    let n = func.blocks.len();
    let ghost preds = preds_of(func.graph());
    let reached = search(func, n);
    proof {
        assert forall|b: usize| b < n implies (reached[b as int] <==> #[trigger] reachable(preds, b)) by {
            assert(reached[b as int] <==> reaches_without(preds, n, b));
            if reachable(preds, b) {
                let path = choose|path: Seq<usize>| #[trigger] is_path(preds, path) && path.last() == b;
                if path.contains(n) {
                    let j = choose|j: int| 0 <= j < path.len() && path[j] == n;
                    assert(path[j] < preds.len());
                }
            }
        }
    }
    let mut b: usize = 0;
    while b < n
        invariant
            b <= n,
            n == reached.len(),
            n == preds.len(),
            preds == preds_of(func.graph()),
            forall|c: usize| c < n ==> (reached[c as int] <==> #[trigger] reachable(preds, c)),
            forall|c: usize| c < b ==> #[trigger] reachable(preds, c),
        decreases n - b,
    {
        if !reached[b] {
            assert(!reachable(preds, b));
            return Err(IrError::MalformedCfg);
        }
        b += 1;
    }
    assert(all_reachable(preds));
    let around = walks_around(func);
    let mut idom: Vec<usize> = Vec::new();
    idom.push(0);
    let mut b: usize = 1;
    while b < n
        invariant
            1 <= b <= n,
            n == around.len(),
            n == preds.len(),
            preds == preds_of(func.graph()),
            all_reachable(preds),
            idom.len() == b,
            idom[0] == 0,
            forall|a: usize| a < around.len() ==> (#[trigger] around[a as int]).len() == around.len(),
            forall|a: usize, c: usize|
                a < around.len() && c < around.len() ==> (around[a as int][c as int] <==> !#[trigger] dominates(
                    preds,
                    a,
                    c,
                )),
            forall|c: usize| 1 <= c < b ==> is_idom(preds, #[trigger] idom[c as int], c),
        decreases n - b,
    {
        let d = closest_dominator(&around, b, Ghost(preds));
        proof {
            assert(reachable(preds, b));
            lemma_idom_exists(preds, b);
        }
        idom.push(d);
        b += 1;
    }
    proof {
        lemma_idom_of(preds, idom@);
        lemma_idom_table_valid(preds, idom@);
    }
    Ok(idom)
}

} // verus!
