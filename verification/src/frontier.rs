//! The dominator tree and the dominance frontier, both read off a table of
//! immediate dominators.

use crate::dominators::{
    all_reachable, dominates, idom_valid, is_idom, is_idom_table, is_path, lemma_chain_dominates,
    lemma_dominates_trans, lemma_dominator_on_chain, lemma_first_place, lemma_idom_table_valid,
    lemma_on_chain_trans, lemma_path_prefix, lemma_rank_of, on_chain, preds_in_range, preds_of,
    rank_of, ranked, reachable, strictly_dominates,
};
use crate::function::{lemma_push_contains, IrFunction};
use vstd::prelude::*;

verus! {

/// Each element is smaller than the next.
pub open spec fn increasing(s: Seq<usize>) -> bool {
    forall|i: int, j: int| 0 <= i < j < s.len() ==> s[i] < s[j]
}

/// `m` belongs to the dominance frontier of `r`: control joins at `m`, and
/// `r` dominates a predecessor of `m` without strictly dominating `m`.
pub open spec fn in_frontier(preds: Seq<Seq<usize>>, idom: Seq<usize>, r: usize, m: usize) -> bool {
    &&& m < preds.len()
    &&& preds[m as int].len() >= 2
    &&& !on_chain(idom, r, idom[m as int])
    &&& exists|k: int| 0 <= k < preds[m as int].len() && on_chain(idom, r, #[trigger] preds[m as int][k])
}

/// The lists of a list of lists.
pub open spec fn lists_view(lists: Seq<Vec<usize>>) -> Seq<Seq<usize>> {
    Seq::new(lists.len(), |i: int| lists[i]@)
}

/// The numbers below `n` that satisfy `p`, in increasing order.
pub open spec fn list_of(n: nat, p: spec_fn(usize) -> bool) -> Seq<usize>
    decreases n,
{
    if n == 0 {
        Seq::empty()
    } else {
        let rest = list_of((n - 1) as nat, p);
        if p((n - 1) as usize) {
            rest.push((n - 1) as usize)
        } else {
            rest
        }
    }
}

/// The dominance frontier of every block, each in increasing order.
pub open spec fn frontier_of(preds: Seq<Seq<usize>>, idom: Seq<usize>) -> Seq<Seq<usize>> {
    Seq::new(
        preds.len(),
        |r: int| list_of(preds.len(), |m: usize| in_frontier(preds, idom, r as usize, m)),
    )
}

/// The children of every block in the dominator tree, each list in
/// increasing order.
pub open spec fn tree_of(idom: Seq<usize>) -> Seq<Seq<usize>> {
    Seq::new(idom.len(), |p: int| list_of(idom.len(), |b: usize| is_child(idom, p as usize, b)))
}

/// `df` holds, for every block, its dominance frontier in increasing order.
pub open spec fn is_frontier(preds: Seq<Seq<usize>>, idom: Seq<usize>, df: Seq<Seq<usize>>) -> bool {
    &&& df.len() == preds.len()
    &&& forall|r: int| 0 <= r < df.len() ==> increasing(#[trigger] df[r])
    &&& forall|r: usize, m: usize|
        r < df.len() ==> (#[trigger] df[r as int].contains(m) <==> in_frontier(preds, idom, r, m))
}

/// `b` is a child of `p` in the dominator tree.
pub open spec fn is_child(idom: Seq<usize>, p: usize, b: usize) -> bool {
    b < idom.len() && idom[b as int] == p && b != p
}

/// `tree` holds, for every block, its children in increasing order.
pub open spec fn is_dom_tree(idom: Seq<usize>, tree: Seq<Seq<usize>>) -> bool {
    &&& tree.len() == idom.len()
    &&& forall|p: int| 0 <= p < tree.len() ==> increasing(#[trigger] tree[p])
    &&& forall|p: usize, b: usize|
        p < tree.len() ==> (#[trigger] tree[p as int].contains(b) <==> is_child(idom, p, b))
}

/// The list holds what satisfies `p`, in increasing order.
pub proof fn lemma_list_of(n: nat, p: spec_fn(usize) -> bool)
    requires
        n <= usize::MAX,
    ensures
        increasing(list_of(n, p)),
        forall|x: usize| list_of(n, p).contains(x) <==> (x < n && p(x)),
    decreases n,
{
    if n > 0 {
        let rest = list_of((n - 1) as nat, p);
        lemma_list_of((n - 1) as nat, p);
        let last = (n - 1) as usize;
        assert forall|x: usize| list_of(n, p).contains(x) <==> (x < n && p(x)) by {
            assert(rest.contains(x) <==> (x < n - 1 && p(x)));
            if p(last) {
                lemma_push_contains(rest, last, x);
            }
        }
        if p(last) {
            assert forall|i: int, j: int| 0 <= i < j < rest.push(last).len() implies rest.push(
                last,
            )[i] < rest.push(last)[j] by {
                assert(rest.contains(rest[i]));
            }
        }
    }
}

/// An increasing list is determined by what it holds.
proof fn lemma_increasing_unique(a: Seq<usize>, b: Seq<usize>)
    requires
        increasing(a),
        increasing(b),
        forall|x: usize| a.contains(x) <==> b.contains(x),
    ensures
        a == b,
    decreases a.len(),
{
    if a.len() == 0 {
        if b.len() > 0 {
            assert(b.contains(b[0]));
        }
        assert(a =~= b);
    } else {
        let x = a.last();
        assert(a.contains(x));
        assert(b.contains(x));
        let j = choose|j: int| 0 <= j < b.len() && b[j] == x;
        // `x` is the largest element of both lists, so it stands last in `b` too.
        if j < b.len() - 1 {
            let y = b[b.len() - 1];
            assert(b.contains(y));
            assert(a.contains(y));
            let i = choose|i: int| 0 <= i < a.len() && a[i] == y;
            if i < a.len() - 1 {
                assert(a[i] < a[a.len() - 1]);
            }
            assert(b[j] < b[b.len() - 1]);
        }
        let a1 = a.drop_last();
        let b1 = b.drop_last();
        assert forall|y: usize| a1.contains(y) <==> b1.contains(y) by {
            if a1.contains(y) {
                let i = choose|i: int| 0 <= i < a1.len() && a1[i] == y;
                assert(a[i] == y);
                assert(a[i] < a[a.len() - 1]);
                assert(a.contains(y));
                let k = choose|k: int| 0 <= k < b.len() && b[k] == y;
                assert(b1[k] == y);
            }
            if b1.contains(y) {
                let k = choose|k: int| 0 <= k < b1.len() && b1[k] == y;
                assert(b[k] == y);
                assert(b[k] < b[b.len() - 1]);
                assert(b.contains(y));
                let i = choose|i: int| 0 <= i < a.len() && a[i] == y;
                assert(a1[i] == y);
            }
        }
        lemma_increasing_unique(a1, b1);
        assert(a =~= a1.push(x));
        assert(b =~= b1.push(x));
    }
}

/// There is one dominance frontier for a table.
pub proof fn lemma_frontier_unique(preds: Seq<Seq<usize>>, idom: Seq<usize>, df: Seq<Seq<usize>>)
    requires
        is_frontier(preds, idom, df),
        preds.len() <= usize::MAX,
    ensures
        df == frontier_of(preds, idom),
{
    let f = frontier_of(preds, idom);
    assert forall|r: int| 0 <= r < df.len() implies df[r] == f[r] by {
        let p = |m: usize| in_frontier(preds, idom, r as usize, m);
        lemma_list_of(preds.len(), p);
        assert forall|x: usize| df[r].contains(x) <==> f[r].contains(x) by {
            assert(df[r as usize as int].contains(x) <==> in_frontier(preds, idom, r as usize, x));
            assert(f[r].contains(x) <==> (x < preds.len() && p(x)));
        }
        lemma_increasing_unique(df[r], f[r]);
    }
    assert(df =~= f);
}

/// There is one dominator tree for a table.
pub proof fn lemma_tree_unique(idom: Seq<usize>, tree: Seq<Seq<usize>>)
    requires
        is_dom_tree(idom, tree),
        idom.len() <= usize::MAX,
    ensures
        tree == tree_of(idom),
{
    let t = tree_of(idom);
    assert forall|q: int| 0 <= q < tree.len() implies tree[q] == t[q] by {
        let p = |b: usize| is_child(idom, q as usize, b);
        lemma_list_of(idom.len(), p);
        assert forall|x: usize| tree[q].contains(x) <==> t[q].contains(x) by {
            assert(tree[q as usize as int].contains(x) <==> is_child(idom, q as usize, x));
            assert(t[q].contains(x) <==> (x < idom.len() && p(x)));
        }
        lemma_increasing_unique(tree[q], t[q]);
    }
    assert(tree =~= t);
}

/// What lies on the chain of a block is a block of no higher rank, and of
/// lower rank unless it is the block itself.
pub proof fn lemma_on_chain_rank(idom: Seq<usize>, a: usize, x: usize)
    requires
        on_chain(idom, a, x),
        x < idom.len(),
    ensures
        a < idom.len(),
        rank_of(idom)[a as int] <= rank_of(idom)[x as int],
        a != x ==> rank_of(idom)[a as int] < rank_of(idom)[x as int],
    decreases rank_of(idom)[x as int],
{
    if a != x {
        lemma_on_chain_rank(idom, a, idom[x as int]);
    }
}

/// Two blocks on one chain: the one of higher rank has the other on its
/// chain.
pub proof fn lemma_chain_linear(idom: Seq<usize>, a: usize, b: usize, x: usize)
    requires
        on_chain(idom, a, x),
        on_chain(idom, b, x),
        x < idom.len(),
        rank_of(idom)[a as int] <= rank_of(idom)[b as int],
    ensures
        on_chain(idom, a, b),
    decreases rank_of(idom)[x as int],
{
    if b == x {
    } else if a == x {
        lemma_on_chain_rank(idom, b, x);
    } else {
        lemma_chain_linear(idom, a, b, idom[x as int]);
    }
}

/// In a tree every chain ends at the entry.
pub proof fn lemma_entry_chain(idom: Seq<usize>, x: usize)
    requires
        ranked(idom),
        x < idom.len(),
    ensures
        on_chain(idom, 0, x),
    decreases rank_of(idom)[x as int],
{
    lemma_rank_of(idom);
    if x != 0 {
        lemma_entry_chain(idom, idom[x as int]);
    }
}

/// `level` numbers the blocks so that every child in the tree is a block of
/// lower level than its parent.
pub open spec fn levels(tree: Seq<Seq<usize>>, level: Seq<nat>) -> bool {
    &&& level.len() == tree.len()
    &&& forall|p: int, i: int|
        0 <= p < tree.len() && 0 <= i < tree[p].len() ==> (#[trigger] tree[p][i]) < tree.len()
            && level[tree[p][i] as int] < level[p]
}

/// The lists of children form a forest: no block is found again below
/// itself.
pub open spec fn layered(tree: Seq<Seq<usize>>) -> bool {
    exists|level: Seq<nat>| levels(tree, level)
}

/// A numbering that shows the lists of children to form a forest.
pub open spec fn level_of(tree: Seq<Seq<usize>>) -> Seq<nat> {
    choose|level: Seq<nat>| levels(tree, level)
}

/// The numbering of a forest is one.
pub proof fn lemma_level_of(tree: Seq<Seq<usize>>)
    requires
        layered(tree),
    ensures
        levels(tree, level_of(tree)),
{
}

/// Child `c` of `b` lies in the tree, a level below `b`.
pub open spec fn below(tree: Seq<Seq<usize>>, b: usize, c: usize) -> bool {
    c < tree.len() && level_of(tree)[c as int] < level_of(tree)[b as int]
}

/// `r` dominates a predecessor of `m` without strictly dominating `m`.
pub open spec fn dominance_ends(preds: Seq<Seq<usize>>, r: usize, m: usize) -> bool {
    &&& m < preds.len()
    &&& !strictly_dominates(preds, r, m)
    &&& exists|k: int| 0 <= k < preds[m as int].len() && dominates(preds, r, #[trigger] preds[m as int][k])
}

/// A block other than the entry at which the dominance of some block ends
/// has two predecessors at least.
proof fn lemma_ends_at_join(preds: Seq<Seq<usize>>, r: usize, m: usize)
    requires
        all_reachable(preds),
        dominance_ends(preds, r, m),
        m != 0,
    ensures
        preds[m as int].len() >= 2,
{
    let ps = preds[m as int];
    if ps.len() < 2 {
        let k = choose|k: int| 0 <= k < ps.len() && dominates(preds, r, #[trigger] ps[k]);
        let p = ps[0];
        assert(k == 0);
        // Every walk to `m` comes in through `p`, so `r` dominates `m`: it is `m`.
        assert forall|path: Seq<usize>| #[trigger] is_path(preds, path) && path.last() == m implies path.contains(
            r,
        ) by {
            let i = path.len() - 1;
            assert(path[i] == m);
            assert(preds[path[i] as int].contains(path[i - 1]));
            let j = choose|j: int| 0 <= j < ps.len() && ps[j] == path[i - 1];
            lemma_path_prefix(preds, path, i - 1);
            let head = path.take(i);
            assert(head.contains(r));
            let q = choose|q: int| 0 <= q < head.len() && head[q] == r;
            assert(path[q] == r);
        }
        assert(r == m);
        // The first time a walk comes to `m` it has passed `p` without `m`.
        assert(reachable(preds, m));
        let path = choose|path: Seq<usize>| #[trigger] is_path(preds, path) && path.last() == m;
        assert(path[path.len() - 1] == m);
        let i = lemma_first_place(path, m);
        assert(preds[path[i] as int].contains(path[i - 1]));
        let j = choose|j: int| 0 <= j < ps.len() && ps[j] == path[i - 1];
        lemma_path_prefix(preds, path, i - 1);
        let head = path.take(i);
        assert(head.contains(m));
        let q = choose|q: int| 0 <= q < head.len() && head[q] == m;
        assert(path[q] == m);
    }
}

/// Read off the table of immediate dominators, the frontier is what
/// dominance says it is: for every block `m` but an entry that has
/// predecessors, `m` is in the frontier of `r` exactly when `r` dominates a
/// predecessor of `m` without strictly dominating `m`.
pub proof fn lemma_frontier_is_dominance(preds: Seq<Seq<usize>>, t: Seq<usize>, r: usize, m: usize)
    requires
        all_reachable(preds),
        preds_in_range(preds),
        preds.len() <= usize::MAX,
        is_idom_table(preds, t),
        r < preds.len(),
        m != 0 || preds[0].len() == 0,
    ensures
        in_frontier(preds, t, r, m) <==> dominance_ends(preds, r, m),
{
    lemma_idom_table_valid(preds, t);
    lemma_rank_of(t);
    if 0 < m < preds.len() {
        let d = t[m as int];
        assert(is_idom(preds, t[m as int], m));
        if strictly_dominates(preds, r, m) {
            assert(dominates(preds, r, d));
            lemma_dominator_on_chain(preds, t, r, d);
        }
        if on_chain(t, r, d) {
            lemma_chain_dominates(preds, t, r, d);
            lemma_dominates_trans(preds, r, d, m);
            lemma_on_chain_rank(t, r, d);
        }
        assert(on_chain(t, r, d) <==> strictly_dominates(preds, r, m));
        assert forall|k: int| 0 <= k < preds[m as int].len() implies (on_chain(
            t,
            r,
            #[trigger] preds[m as int][k],
        ) <==> dominates(preds, r, preds[m as int][k])) by {
            let p = preds[m as int][k];
            if on_chain(t, r, p) {
                lemma_chain_dominates(preds, t, r, p);
            }
            if dominates(preds, r, p) {
                lemma_dominator_on_chain(preds, t, r, p);
            }
        }
        if in_frontier(preds, t, r, m) {
            let k = choose|k: int|
                0 <= k < preds[m as int].len() && on_chain(t, r, #[trigger] preds[m as int][k]);
            assert(dominates(preds, r, preds[m as int][k]));
        }
        if dominance_ends(preds, r, m) {
            lemma_ends_at_join(preds, r, m);
            let k = choose|k: int|
                0 <= k < preds[m as int].len() && dominates(preds, r, #[trigger] preds[m as int][k]);
            assert(on_chain(t, r, preds[m as int][k]));
        }
    }
}

/// The dominator tree of a table that is a tree is a forest.
pub proof fn lemma_tree_layered(idom: Seq<usize>)
    requires
        ranked(idom),
        idom.len() >= 1,
        idom[0] == 0,
        idom.len() <= usize::MAX,
    ensures
        layered(tree_of(idom)),
{
    lemma_rank_of(idom);
    let n = idom.len();
    let rank = rank_of(idom);
    let tree = tree_of(idom);
    let level = Seq::new(n, |b: int| (n - rank[b]) as nat);
    assert forall|p: int, i: int| 0 <= p < tree.len() && 0 <= i < tree[p].len() implies (
    #[trigger] tree[p][i]) < tree.len() && level[tree[p][i] as int] < level[p] by {
        lemma_list_of(n, |b: usize| is_child(idom, p as usize, b));
        let c = tree[p][i];
        assert(tree[p].contains(c));
        assert(is_child(idom, p as usize, c));
        assert(c != 0);
        assert(rank[idom[c as int] as int] < rank[c as int]);
        assert(rank[c as int] <= n);
        assert(rank[p] <= n);
    }
    assert(levels(tree, level));
}

/// `n` empty lists.
fn empty_lists(n: usize) -> (r: Vec<Vec<usize>>)
    ensures
        r.len() == n,
        forall|i: int| 0 <= i < n ==> (#[trigger] r[i])@ == Seq::<usize>::empty(),
{
    let mut r: Vec<Vec<usize>> = Vec::new();
    let mut i: usize = 0;
    while i < n
        invariant
            i <= n,
            r.len() == i,
            forall|j: int| 0 <= j < i ==> (#[trigger] r[j])@ == Seq::<usize>::empty(),
        decreases n - i,
    {
        r.push(Vec::new());
        i += 1;
    }
    r
}

/// Inverts the table: every block that does not point at itself becomes a
/// child of the block it points at.
pub fn dominator_tree(idom: &Vec<usize>) -> (tree: Vec<Vec<usize>>)
    requires
        forall|b: int| 0 <= b < idom.len() ==> idom[b] < idom.len(),
    ensures
        is_dom_tree(idom@, lists_view(tree@)),
        lists_view(tree@) == tree_of(idom@),
{
    let n = idom.len();
    let mut tree = empty_lists(n);
    let mut b: usize = 0;
    while b < n
        invariant
            b <= n,
            n == idom.len(),
            tree.len() == n,
            forall|b: int| 0 <= b < idom.len() ==> idom[b] < idom.len(),
            forall|p: int| 0 <= p < n ==> increasing(#[trigger] tree[p]@),
            forall|p: int, i: int| 0 <= p < n && 0 <= i < tree[p].len() ==> #[trigger] tree[p][i] < b,
            forall|p: usize, c: usize|
                p < n ==> (#[trigger] tree[p as int]@.contains(c) <==> (c < b && is_child(idom@, p, c))),
        decreases n - b,
    {
        let p = idom[b];
        let ghost before = tree@;
        if b != p {
            tree[p].push(b);
        }
        proof {
            assert forall|q: usize, c: usize| q < n implies (#[trigger] tree[q as int]@.contains(c) <==> (c
                < b + 1 && is_child(idom@, q, c))) by {
                assert(before[q as int]@.contains(c) <==> (c < b && is_child(idom@, q, c)));
                if q == p && b != p {
                    lemma_push_contains(before[q as int]@, b, c);
                }
            }
        }
        b += 1;
    }
    proof {
        let t = lists_view(tree@);
        assert forall|p: usize, b: usize| p < t.len() implies (#[trigger] t[p as int].contains(b)
            <==> is_child(idom@, p, b)) by {
            assert(tree[p as int]@.contains(b) <==> (b < n && is_child(idom@, p, b)));
        }
        lemma_tree_unique(idom@, t);
    }
    tree
}

/// For every block where control joins, walks from each predecessor up to
/// the block's immediate dominator and enters the block in the frontier of
/// every block passed on the way.
pub fn dominance_frontier(func: &IrFunction, idom: &Vec<usize>) -> (df: Vec<Vec<usize>>)
    requires
        idom_valid(preds_of(func.graph()), idom@),
        preds_in_range(preds_of(func.graph())),
    ensures
        is_frontier(preds_of(func.graph()), idom@, lists_view(df@)),
        lists_view(df@) == frontier_of(preds_of(func.graph()), idom@),
{
    let n = func.blocks.len();
    let ghost preds = preds_of(func.graph());
    let mut df = empty_lists(n);
    let mut m: usize = 0;
    while m < n
        invariant
            m <= n,
            n == func.blocks.len(),
            preds == preds_of(func.graph()),
            idom_valid(preds, idom@),
            preds_in_range(preds),
            df.len() == n,
            forall|r: int| 0 <= r < n ==> increasing(#[trigger] df[r]@),
            forall|r: int, i: int| 0 <= r < n && 0 <= i < df[r].len() ==> #[trigger] df[r][i] < m,
            forall|r: usize, x: usize|
                r < n ==> (#[trigger] df[r as int]@.contains(x) <==> (x < m && in_frontier(
                    preds,
                    idom@,
                    r,
                    x,
                ))),
        decreases n - m,
    {
        let ps = &func.blocks[m].preds;
        assert(ps@ == preds[m as int]);
        if ps.len() >= 2 {
            let target = idom[m];
            let ghost before_block = df@;
            let mut k: usize = 0;
            while k < ps.len()
                invariant
                    k <= ps.len(),
                    m < n,
                    n == func.blocks.len(),
                    ps@ == preds[m as int],
                    ps.len() >= 2,
                    target == idom[m as int],
                    preds == preds_of(func.graph()),
                    idom_valid(preds, idom@),
                    preds_in_range(preds),
                    df.len() == n,
                    forall|r: int| 0 <= r < n ==> increasing(#[trigger] df[r]@),
                    forall|r: int, i: int|
                        0 <= r < n && 0 <= i < df[r].len() ==> #[trigger] df[r][i] <= m,
                    forall|r: usize, x: usize|
                        r < n && x != m ==> (#[trigger] df[r as int]@.contains(x) <==> (x < m
                            && in_frontier(preds, idom@, r, x))),
                    forall|r: usize|
                        r < n ==> (#[trigger] df[r as int]@.contains(m) <==> (!on_chain(
                            idom@,
                            r,
                            target,
                        ) && exists|j: int| 0 <= j < k && on_chain(idom@, r, #[trigger] ps[j]))),
                decreases ps.len() - k,
            {
                let p = ps[k];
                assert(preds[m as int][k as int] < preds.len());
                proof {
                    if m == 0 {
                        lemma_entry_chain(idom@, p);
                    }
                }
                assert(on_chain(idom@, target, preds[m as int][k as int]));
                let ghost before_pred = df@;
                let mut runner = p;
                let ghost rank = rank_of(idom@);
                proof {
                    lemma_rank_of(idom@);
                    assert forall|r: usize| on_chain(idom@, r, p) implies rank[r as int]
                        <= rank[p as int] by {
                        lemma_on_chain_rank(idom@, r, p);
                    }
                }
                while runner != target
                    invariant
                        k < ps.len(),
                        p == ps[k as int],
                        m < n,
                        runner < n,
                        n == func.blocks.len(),
                        n == idom.len(),
                        ps@ == preds[m as int],
                        target == idom[m as int],
                        idom_valid(preds, idom@),
                        rank == rank_of(idom@),
                        crate::dominators::ranks(idom@, rank),
                        on_chain(idom@, runner, p),
                        on_chain(idom@, target, runner),
                        df.len() == n,
                        before_pred.len() == n,
                        forall|r: int| 0 <= r < n ==> increasing(#[trigger] df[r]@),
                        forall|r: int, i: int|
                            0 <= r < n && 0 <= i < df[r].len() ==> #[trigger] df[r][i] <= m,
                        forall|r: usize, x: usize|
                            r < n && x != m ==> (#[trigger] df[r as int]@.contains(x)
                                <==> before_pred[r as int]@.contains(x)),
                        forall|r: usize|
                            r < n ==> (#[trigger] df[r as int]@.contains(m) <==> (
                            before_pred[r as int]@.contains(m) || (on_chain(idom@, r, p)
                                && rank[r as int] > rank[runner as int]))),
                    decreases rank[runner as int],
                {
                    let ghost before = df@;
                    let len = df[runner].len();
                    let present = len > 0 && df[runner][len - 1] == m;
                    proof {
                        lemma_on_chain_rank(idom@, target, runner);
                        // In an increasing list bounded by `m`, `m` can only stand last.
                        if before[runner as int]@.contains(m) {
                            let s = before[runner as int]@;
                            let i = choose|i: int| 0 <= i < s.len() && s[i] == m;
                            if i < len - 1 {
                                assert(s[i] < s[len - 1]);
                            }
                        }
                        if present {
                            assert(before[runner as int]@[len - 1] == m);
                        }
                    }
                    if !present {
                        df[runner].push(m);
                        proof {
                            let s = before[runner as int]@;
                            assert forall|i: int, j: int| 0 <= i < j < s.push(m).len() implies s.push(
                                m,
                            )[i] < s.push(m)[j] by {
                                if j == s.len() {
                                    assert(s[i] <= m);
                                    assert(s[i] != m);
                                }
                            }
                        }
                    }
                    let next = idom[runner];
                    proof {
                        let ghost after = df@;
                        assert(on_chain(idom@, next, next));
                        assert(on_chain(idom@, next, runner));
                        lemma_on_chain_trans(idom@, next, runner, p);
                        assert forall|r: usize, x: usize| r < n && x != m implies (
                        #[trigger] after[r as int]@.contains(x) <==> before_pred[r as int]@.contains(
                            x,
                        )) by {
                            assert(before[r as int]@.contains(x) <==> before_pred[r as int]@.contains(x));
                            if r == runner && !present {
                                lemma_push_contains(before[r as int]@, m, x);
                            }
                        }
                        assert forall|r: usize| r < n implies (#[trigger] after[r as int]@.contains(m) <==> (
                        before_pred[r as int]@.contains(m) || (on_chain(idom@, r, p) && rank[r as int]
                            > rank[next as int]))) by {
                            assert(before[r as int]@.contains(m) <==> (before_pred[r as int]@.contains(m) || (
                            on_chain(idom@, r, p) && rank[r as int] > rank[runner as int])));
                            if r == runner && !present {
                                lemma_push_contains(before[r as int]@, m, m);
                            }
                            if on_chain(idom@, r, p) && rank[r as int] > rank[next as int] && rank[r as int]
                                <= rank[runner as int] {
                                lemma_chain_linear(idom@, r, runner, p);
                                if r != runner {
                                    lemma_on_chain_rank(idom@, r, next);
                                }
                            }
                        }
                    }
                    runner = next;
                }
                proof {
                    let ghost after = df@;
                    assert forall|r: usize| r < n implies (#[trigger] after[r as int]@.contains(m) <==> (
                    !on_chain(idom@, r, target) && exists|j: int|
                        0 <= j < k + 1 && on_chain(idom@, r, #[trigger] ps[j]))) by {
                        assert(before_pred[r as int]@.contains(m) <==> (!on_chain(idom@, r, target)
                            && exists|j: int| 0 <= j < k && on_chain(idom@, r, #[trigger] ps[j])));
                        if on_chain(idom@, r, p) {
                            assert(ps[k as int] == p);
                            if rank[r as int] > rank[target as int] {
                                if on_chain(idom@, r, target) {
                                    lemma_on_chain_rank(idom@, r, target);
                                }
                            } else {
                                lemma_chain_linear(idom@, r, target, p);
                            }
                        }
                        if exists|j: int| 0 <= j < k + 1 && on_chain(idom@, r, #[trigger] ps[j]) {
                            let j = choose|j: int| 0 <= j < k + 1 && on_chain(idom@, r, #[trigger] ps[j]);
                            if j < k {
                            } else {
                                assert(on_chain(idom@, r, p));
                            }
                        }
                    }
                }
                k += 1;
            }
            proof {
                assert forall|r: usize, x: usize| r < n implies (#[trigger] df[r as int]@.contains(x) <==> (x
                    < m + 1 && in_frontier(preds, idom@, r, x))) by {
                    if x == m {
                        assert(df[r as int]@.contains(m) <==> (!on_chain(idom@, r, target) && exists|j: int|
                            0 <= j < k && on_chain(idom@, r, #[trigger] ps[j])));
                        if in_frontier(preds, idom@, r, m) {
                            let j = choose|j: int|
                                0 <= j < preds[m as int].len() && on_chain(
                                    idom@,
                                    r,
                                    #[trigger] preds[m as int][j],
                                );
                            assert(on_chain(idom@, r, ps[j]));
                        }
                        if exists|j: int| 0 <= j < k && on_chain(idom@, r, #[trigger] ps[j]) {
                            let j = choose|j: int| 0 <= j < k && on_chain(idom@, r, #[trigger] ps[j]);
                            assert(on_chain(idom@, r, preds[m as int][j]));
                        }
                    }
                }
            }
        } else {
            assert forall|r: usize| r < n implies !in_frontier(preds, idom@, r, m) by {}
        }
        m += 1;
    }
    proof {
        let f = lists_view(df@);
        assert forall|r: usize, m: usize| r < f.len() implies (#[trigger] f[r as int].contains(m)
            <==> in_frontier(preds, idom@, r, m)) by {
            assert(df[r as int]@.contains(m) <==> (m < n && in_frontier(preds, idom@, r, m)));
        }
        lemma_frontier_unique(preds, idom@, f);
    }
    df
}

} // verus!
