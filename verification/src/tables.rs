//! Side tables keyed by block index, as the standard library's maps hold
//! them, and their reading as plain lists.

use crate::frontier::lists_view;
use crate::function::clone_indices;
use std::collections::{BTreeMap, HashMap};
use vstd::prelude::*;

verus! {

broadcast use {vstd::std_specs::hash::group_hash_axioms, vstd::std_specs::btree::group_btree_axioms};

/// The map that takes every index of `t` to the entry there.
pub open spec fn table_map(t: Seq<usize>) -> Map<usize, usize> {
    Map::new(|k: usize| k < t.len(), |k: usize| t[k as int])
}

/// The keys of `m` are the block indices below `n`.
pub open spec fn is_table<V>(m: Map<usize, V>, n: nat) -> bool {
    &&& n <= usize::MAX
    &&& forall|k: usize| m.contains_key(k) <==> k < n
}

/// The number of blocks that `m` has entries for.
pub open spec fn table_size<V>(m: Map<usize, V>) -> nat {
    choose|n: nat| is_table(m, n)
}

/// A map has entries for one number of blocks only.
pub proof fn lemma_table_size<V>(m: Map<usize, V>, n: nat)
    requires
        is_table(m, n),
    ensures
        table_size(m) == n,
{
    let c = table_size(m);
    assert(is_table(m, c));
    if c < n {
        assert(m.contains_key(c as usize));
    }
    if n < c {
        assert(m.contains_key(n as usize));
    }
}

/// The entries of `m` for the first `n` blocks, in order.
pub open spec fn table_seq(m: Map<usize, usize>, n: nat) -> Seq<usize> {
    Seq::new(n, |k: int| m[k as usize])
}

/// `m` holds the lists that are not empty, each under its index.
pub open spec fn holds_lists(m: Map<usize, Vec<usize>>, lists: Seq<Seq<usize>>) -> bool {
    &&& forall|k: usize| #[trigger] m.contains_key(k) <==> k < lists.len() && lists[k as int].len() > 0
    &&& forall|k: usize| #[trigger] m.contains_key(k) ==> m[k]@ == lists[k as int]
}

/// The lists of `m` for the first `n` blocks; a block without an entry has
/// the empty list.
pub open spec fn lists_seq(m: Map<usize, Vec<usize>>, n: nat) -> Seq<Seq<usize>> {
    Seq::new(
        n,
        |k: int|
            if m.contains_key(k as usize) {
                m[k as usize]@
            } else {
                Seq::empty()
            },
    )
}

/// A table read back from its map is the table.
pub proof fn lemma_table_round_trip(t: Seq<usize>)
    requires
        t.len() <= usize::MAX,
    ensures
        is_table(table_map(t), t.len()),
        table_seq(table_map(t), t.len()) == t,
{
    assert(table_seq(table_map(t), t.len()) =~= t);
}

/// Lists read back from the map that holds them are the lists.
pub proof fn lemma_lists_round_trip(m: Map<usize, Vec<usize>>, lists: Seq<Seq<usize>>)
    requires
        holds_lists(m, lists),
        lists.len() <= usize::MAX,
    ensures
        lists_seq(m, lists.len()) == lists,
{
    assert forall|k: int| 0 <= k < lists.len() implies lists_seq(m, lists.len())[k] == lists[k] by {
        if !m.contains_key(k as usize) {
            assert(lists[k] =~= Seq::<usize>::empty());
        }
    }
    assert(lists_seq(m, lists.len()) =~= lists);
}

/// The table as a map.
pub fn table_to_map(t: &Vec<usize>) -> (m: HashMap<usize, usize>)
    ensures
        m@ == table_map(t@),
{
    let mut m: HashMap<usize, usize> = HashMap::new();
    let mut i: usize = 0;
    assert(m@ =~= table_map(t@.take(0)));
    while i < t.len()
        invariant
            i <= t.len(),
            m@ == table_map(t@.take(i as int)),
        decreases t.len() - i,
    {
        m.insert(i, t[i]);
        assert(m@ =~= table_map(t@.take(i + 1)));
        i += 1;
    }
    assert(t@.take(t.len() as int) =~= t@);
    m
}

/// The entries of the map for the first `n` blocks.
pub fn map_to_table(m: &HashMap<usize, usize>, n: usize) -> (t: Vec<usize>)
    requires
        forall|k: usize| k < n ==> m@.contains_key(k),
    ensures
        t@ == table_seq(m@, n as nat),
{
    let mut t: Vec<usize> = Vec::new();
    let mut i: usize = 0;
    while i < n
        invariant
            i <= n,
            t.len() == i,
            forall|k: usize| k < n ==> m@.contains_key(k),
            forall|k: int| 0 <= k < i ==> t[k] == m@[k as usize],
        decreases n - i,
    {
        match m.get(&i) {
            Some(x) => {
                t.push(*x);
            },
            None => {
                assert(m@.contains_key(i));
                vstd::pervasive::unreached()
            },
        }
        i += 1;
    }
    assert(t@ =~= table_seq(m@, n as nat));
    t
}

/// The number of blocks that the map has entries for.
pub fn table_len(m: &HashMap<usize, usize>) -> (n: usize)
    requires
        exists|n: nat| is_table(m@, n),
    ensures
        is_table(m@, n as nat),
        n == table_size(m@),
{
    let ghost size = choose|n: nat| is_table(m@, n);
    proof {
        lemma_table_size(m@, size);
    }
    let mut b: usize = 0;
    while m.contains_key(&b)
        invariant
            b <= size,
            is_table(m@, size),
        decreases size - b,
    {
        b += 1;
    }
    assert(b == size);
    b
}

/// The lists that are not empty, each under its index.
pub fn lists_to_hash_map(lists: &Vec<Vec<usize>>) -> (m: HashMap<usize, Vec<usize>>)
    ensures
        holds_lists(m@, lists_view(lists@)),
{
    let mut m: HashMap<usize, Vec<usize>> = HashMap::new();
    let ghost all = lists_view(lists@);
    let mut i: usize = 0;
    while i < lists.len()
        invariant
            i <= lists.len(),
            all == lists_view(lists@),
            forall|k: usize| #[trigger] m@.contains_key(k) <==> k < i && all[k as int].len() > 0,
            forall|k: usize| #[trigger] m@.contains_key(k) ==> m@[k]@ == all[k as int],
        decreases lists.len() - i,
    {
        if lists[i].len() > 0 {
            m.insert(i, clone_indices(&lists[i]));
        }
        i += 1;
    }
    m
}

/// The lists that are not empty, each under its index.
pub fn lists_to_btree_map(lists: &Vec<Vec<usize>>) -> (m: BTreeMap<usize, Vec<usize>>)
    ensures
        holds_lists(m@, lists_view(lists@)),
{
    let mut m: BTreeMap<usize, Vec<usize>> = BTreeMap::new();
    let ghost all = lists_view(lists@);
    let mut i: usize = 0;
    while i < lists.len()
        invariant
            i <= lists.len(),
            all == lists_view(lists@),
            forall|k: usize| #[trigger] m@.contains_key(k) <==> k < i && all[k as int].len() > 0,
            forall|k: usize| #[trigger] m@.contains_key(k) ==> m@[k]@ == all[k as int],
        decreases lists.len() - i,
    {
        if lists[i].len() > 0 {
            m.insert(i, clone_indices(&lists[i]));
        }
        i += 1;
    }
    m
}

/// The lists of the map for the first `n` blocks.
pub fn hash_map_to_lists(m: &HashMap<usize, Vec<usize>>, n: usize) -> (lists: Vec<Vec<usize>>)
    ensures
        lists_view(lists@) == lists_seq(m@, n as nat),
{
    let mut lists: Vec<Vec<usize>> = Vec::new();
    let mut i: usize = 0;
    while i < n
        invariant
            i <= n,
            lists.len() == i,
            forall|k: int| 0 <= k < i ==> (#[trigger] lists[k])@ == lists_seq(m@, n as nat)[k],
        decreases n - i,
    {
        match m.get(&i) {
            Some(list) => {
                lists.push(clone_indices(list));
            },
            None => {
                lists.push(Vec::new());
            },
        }
        i += 1;
    }
    assert(lists_view(lists@) =~= lists_seq(m@, n as nat));
    lists
}

/// The lists of the map for the first `n` blocks.
pub fn btree_map_to_lists(m: &BTreeMap<usize, Vec<usize>>, n: usize) -> (lists: Vec<Vec<usize>>)
    ensures
        lists_view(lists@) == lists_seq(m@, n as nat),
{
    let mut lists: Vec<Vec<usize>> = Vec::new();
    let mut i: usize = 0;
    while i < n
        invariant
            i <= n,
            lists.len() == i,
            forall|k: int| 0 <= k < i ==> (#[trigger] lists[k])@ == lists_seq(m@, n as nat)[k],
        decreases n - i,
    {
        match m.get(&i) {
            Some(list) => {
                lists.push(clone_indices(list));
            },
            None => {
                lists.push(Vec::new());
            },
        }
        i += 1;
    }
    assert(lists_view(lists@) =~= lists_seq(m@, n as nat));
    lists
}

} // verus!
