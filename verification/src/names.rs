//! Names are strings; contracts speak of them through their character
//! sequences.  This module holds the small collections the rest of the
//! library keys by name: a duplicate-free list of names read as a set, and an
//! association list read as a finite map.  Both keep insertion order, so every
//! traversal is deterministic.

use vstd::prelude::*;

verus! {

/// The character sequences of a list of strings, in order.
pub open spec fn names_view(v: Seq<String>) -> Seq<Seq<char>> {
    Seq::new(v.len(), |i: int| v[i]@)
}

/// The view of a list with one more name.
pub proof fn lemma_names_view_push(v: Seq<String>, s: String)
    ensures
        names_view(v.push(s)) == names_view(v).push(s@),
{
    assert(names_view(v.push(s)) =~= names_view(v).push(s@));
}

/// A copy of a list of names.
pub fn clone_names(v: &Vec<String>) -> (r: Vec<String>)
    ensures
        names_view(r@) == names_view(v@),
{
    let mut r: Vec<String> = Vec::new();
    let mut i: usize = 0;
    while i < v.len()
        invariant
            i <= v.len(),
            r.len() == i,
            forall|j: int| 0 <= j < i ==> r[j]@ == v[j]@,
        decreases v.len() - i,
    {
        r.push(v[i].clone());
        i += 1;
    }
    assert(names_view(r@) =~= names_view(v@));
    r
}

/// The first position of `name` in `v`, if it occurs.
pub fn find_name(v: &Vec<String>, name: &String) -> (r: Option<usize>)
    ensures
        r is Some == names_view(v@).contains(name@),
        match r {
            Some(i) => i < v.len() && v[i as int]@ == name@ && forall|j: int|
                0 <= j < i ==> v[j]@ != name@,
            None => true,
        },
{
    let mut i: usize = 0;
    while i < v.len()
        invariant
            i <= v.len(),
            forall|j: int| 0 <= j < i ==> v[j]@ != name@,
        decreases v.len() - i,
    {
        if v[i] == *name {
            assert(names_view(v@)[i as int] == name@);
            return Some(i);
        }
        i += 1;
    }
    assert(!names_view(v@).contains(name@)) by {
        if names_view(v@).contains(name@) {
            let j = choose|j: int| 0 <= j < names_view(v@).len() && names_view(v@)[j] == name@;
            assert(v[j]@ == name@);
        }
    }
    None
}

/// A finite set of names, held as a list without repetition.
#[derive(Debug)]
pub struct NameSet {
    pub items: Vec<String>,
}

impl View for NameSet {
    type V = Set<Seq<char>>;

    open spec fn view(&self) -> Set<Seq<char>> {
        names_view(self.items@).to_set()
    }
}

impl NameSet {
    /// No name is held twice.
    pub open spec fn wf(&self) -> bool {
        names_view(self.items@).no_duplicates()
    }

    /// The set is finite; where no name is held twice it has as many members
    /// as the list has entries.
    pub proof fn lemma_finite(&self)
        ensures
            self@.finite(),
            self.wf() ==> self@.len() == self.items.len(),
    {
        let s = names_view(self.items@);
        vstd::seq_lib::seq_to_set_is_finite(s);
        if self.wf() {
            s.unique_seq_to_set();
        }
    }

    /// The empty set.
    pub fn new() -> (r: Self)
        ensures
            r.wf(),
            r@ == Set::<Seq<char>>::empty(),
            r.items.len() == 0,
    {
        let r = NameSet { items: Vec::new() };
        assert(r@ =~= Set::<Seq<char>>::empty());
        r
    }

    /// The number of names held.
    pub fn len(&self) -> (n: usize)
        ensures
            n == self.items.len(),
    {
        self.items.len()
    }

    /// Whether `name` is held.
    pub fn contains(&self, name: &String) -> (r: bool)
        ensures
            r == self@.contains(name@),
    {
        find_name(&self.items, name).is_some()
    }

    /// Adds `name`; the result tells whether it was new.
    pub fn insert(&mut self, name: String) -> (added: bool)
        requires
            old(self).wf(),
        ensures
            final(self).wf(),
            final(self)@ == old(self)@.insert(name@),
            added == !old(self)@.contains(name@),
            added ==> names_view(final(self).items@) == names_view(old(self).items@).push(name@),
            !added ==> names_view(final(self).items@) == names_view(old(self).items@),
            added ==> final(self).items.len() == old(self).items.len() + 1,
            !added ==> final(self).items.len() == old(self).items.len(),
    {
        if self.contains(&name) {
            assert(self@ =~= old(self)@.insert(name@));
            false
        } else {
            proof {
                lemma_names_view_push(self.items@, name);
                names_view(self.items@).lemma_push_to_set_commute(name@);
            }
            self.items.push(name);
            true
        }
    }

    /// Takes `name` out; the result tells whether it was there.
    pub fn remove(&mut self, name: &String) -> (removed: bool)
        requires
            old(self).wf(),
        ensures
            final(self).wf(),
            final(self)@ == old(self)@.remove(name@),
            removed == old(self)@.contains(name@),
    {
        match find_name(&self.items, name) {
            Some(i) => {
                let ghost before = names_view(self.items@);
                self.items.remove(i);
                proof {
                    let after = names_view(self.items@);
                    assert(after =~= before.remove(i as int));
                    assert(before[i as int] == name@);
                    assert(after.no_duplicates());
                    assert forall|k: Seq<char>| after.contains(k) <==> (before.contains(k) && k
                        != name@) by {
                        if after.contains(k) {
                            let j = choose|j: int| 0 <= j < after.len() && after[j] == k;
                            if j < i {
                                assert(before[j] == k);
                            } else {
                                assert(before[j + 1] == k);
                            }
                        }
                        if before.contains(k) && k != name@ {
                            let j = choose|j: int| 0 <= j < before.len() && before[j] == k;
                            if j < i {
                                assert(after[j] == k);
                            } else {
                                assert(after[j - 1] == k);
                            }
                        }
                    }
                    assert(self@ =~= old(self)@.remove(name@));
                }
                true
            },
            None => {
                assert(self@ =~= old(self)@.remove(name@));
                false
            },
        }
    }
}

impl NameSet {
    /// Adds every name of `src`; the result tells whether any was new.
    pub fn absorb(&mut self, src: &NameSet) -> (added: bool)
        requires
            old(self).wf(),
        ensures
            final(self).wf(),
            final(self)@ == old(self)@.union(src@),
            final(self).items.len() >= old(self).items.len(),
            added == (final(self).items.len() > old(self).items.len()),
            !added ==> final(self)@ == old(self)@,
    {
        let mut added = false;
        let mut i: usize = 0;
        while i < src.items.len()
            invariant
                i <= src.items.len(),
                self.wf(),
                self@ == old(self)@.union(names_view(src.items@).take(i as int).to_set()),
                self.items.len() >= old(self).items.len(),
                added == (self.items.len() > old(self).items.len()),
                !added ==> self@ == old(self)@,
            decreases src.items.len() - i,
        {
            let ghost before = self@;
            let ghost taken = names_view(src.items@).take(i as int);
            if self.insert(src.items[i].clone()) {
                added = true;
            }
            proof {
                let next = names_view(src.items@).take(i + 1);
                assert(next =~= taken.push(src.items[i as int]@));
                taken.lemma_push_to_set_commute(src.items[i as int]@);
                assert(self@ =~= old(self)@.union(next.to_set()));
            }
            i += 1;
        }
        assert(names_view(src.items@).take(src.items.len() as int) =~= names_view(src.items@));
        added
    }

    /// Adds every name of `src` that `except` does not hold; the result tells
    /// whether any was new.
    pub fn absorb_except(&mut self, src: &NameSet, except: &NameSet) -> (added: bool)
        requires
            old(self).wf(),
        ensures
            final(self).wf(),
            final(self)@ == old(self)@.union(src@.difference(except@)),
            final(self).items.len() >= old(self).items.len(),
            added == (final(self).items.len() > old(self).items.len()),
            !added ==> final(self)@ == old(self)@,
    {
        let mut added = false;
        let mut i: usize = 0;
        while i < src.items.len()
            invariant
                i <= src.items.len(),
                self.wf(),
                self@ == old(self)@.union(
                    names_view(src.items@).take(i as int).to_set().difference(except@),
                ),
                self.items.len() >= old(self).items.len(),
                added == (self.items.len() > old(self).items.len()),
                !added ==> self@ == old(self)@,
            decreases src.items.len() - i,
        {
            let ghost taken = names_view(src.items@).take(i as int);
            let ghost next = names_view(src.items@).take(i + 1);
            proof {
                assert(next =~= taken.push(src.items[i as int]@));
                taken.lemma_push_to_set_commute(src.items[i as int]@);
            }
            if !except.contains(&src.items[i]) {
                if self.insert(src.items[i].clone()) {
                    added = true;
                }
            }
            assert(self@ =~= old(self)@.union(next.to_set().difference(except@)));
            i += 1;
        }
        assert(names_view(src.items@).take(src.items.len() as int) =~= names_view(src.items@));
        added
    }
}

impl Clone for NameSet {
    fn clone(&self) -> (r: Self)
        ensures
            names_view(r.items@) == names_view(self.items@),
            r@ == self@,
            r.wf() == self.wf(),
    {
        NameSet { items: clone_names(&self.items) }
    }
}

/// An association list as contracts see it: `keys[i]` maps to `vals[i]`.
pub struct AssocView<V> {
    pub keys: Seq<Seq<char>>,
    pub vals: Seq<V>,
}

impl<V> AssocView<V> {
    /// The lists are equally long and no key is held twice.
    pub open spec fn wf(self) -> bool {
        self.keys.len() == self.vals.len() && self.keys.no_duplicates()
    }

    /// `k` is a key.
    pub open spec fn contains(self, k: Seq<char>) -> bool {
        self.keys.contains(k)
    }

    /// Where `k` is held.
    pub open spec fn position(self, k: Seq<char>) -> int {
        choose|i: int| 0 <= i < self.keys.len() && self.keys[i] == k
    }

    /// What `k` maps to.
    pub open spec fn get(self, k: Seq<char>) -> V {
        self.vals[self.position(k)]
    }

    /// The list with `k` bound to `v`: in place where `k` is a key already,
    /// at the end otherwise.
    pub open spec fn put(self, k: Seq<char>, v: V) -> Self {
        if self.contains(k) {
            AssocView { keys: self.keys, vals: self.vals.update(self.position(k), v) }
        } else {
            AssocView { keys: self.keys.push(k), vals: self.vals.push(v) }
        }
    }

    /// Binding a key keeps the list well formed, binds that key, and leaves
    /// every other key as it was.
    pub proof fn lemma_put_wf(self, k: Seq<char>, v: V)
        requires
            self.wf(),
        ensures
            self.put(k, v).wf(),
            self.put(k, v).contains(k),
            self.put(k, v).get(k) == v,
            forall|j: Seq<char>| self.contains(j) ==> self.put(k, v).contains(j),
            forall|j: Seq<char>|
                j != k && self.put(k, v).contains(j) ==> self.contains(j) && self.put(k, v).get(j)
                    == self.get(j),
    {
        let r = self.put(k, v);
        if self.contains(k) {
            let p = self.position(k);
            assert(r.keys[p] == k);
            assert(r.position(k) == p);
            assert forall|j: Seq<char>| j != k && r.contains(j) implies r.get(j) == self.get(j) by {
                let q = self.position(j);
                assert(r.position(j) == q);
            }
        } else {
            let n = self.keys.len() as int;
            assert(r.keys[n] == k);
            assert(r.position(k) == n);
            assert forall|j: Seq<char>| self.contains(j) implies r.contains(j) by {
                let q = self.position(j);
                assert(r.keys[q] == j);
            }
            assert forall|j: Seq<char>| j != k && r.contains(j) implies self.contains(j) && r.get(
                j,
            ) == self.get(j) by {
                let q = r.position(j);
                assert(q < n);
                assert(self.keys[q] == j);
                assert(self.position(j) == q);
            }
        }
    }
}

/// A finite map keyed by name, held as two parallel lists: `keys[i]` maps to
/// `vals[i]`.
#[derive(Debug)]
pub struct StrMap<V> {
    pub keys: Vec<String>,
    pub vals: Vec<V>,
}

impl<V> StrMap<V> {
    /// The keys, in the order in which they came.
    pub open spec fn key_seq(&self) -> Seq<Seq<char>> {
        names_view(self.keys@)
    }

    /// The lists are equally long and no key is held twice.
    pub open spec fn wf(&self) -> bool {
        &&& self.keys.len() == self.vals.len()
        &&& self.key_seq().no_duplicates()
    }

    /// The map as an association list over character sequences.
    pub open spec fn assoc(&self) -> AssocView<V> {
        AssocView { keys: self.key_seq(), vals: self.vals@ }
    }

    /// `k` is a key.
    pub open spec fn contains_key(&self, k: Seq<char>) -> bool {
        self.key_seq().contains(k)
    }

    /// Where `k` is held.
    pub open spec fn position(&self, k: Seq<char>) -> int {
        choose|i: int| 0 <= i < self.key_seq().len() && self.key_seq()[i] == k
    }

    /// What `k` maps to.
    pub open spec fn value(&self, k: Seq<char>) -> V {
        self.vals[self.position(k)]
    }

    /// The key at place `i` is found at place `i`.
    pub proof fn lemma_position(&self, i: int)
        requires
            self.wf(),
            0 <= i < self.keys.len(),
        ensures
            self.contains_key(self.keys[i]@),
            self.position(self.keys[i]@) == i,
            self.value(self.keys[i]@) == self.vals[i],
    {
        let k = self.keys[i]@;
        assert(self.key_seq()[i] == k);
        let p = self.position(k);
        assert(self.key_seq()[p] == k);
    }

    /// The empty map.
    pub fn new() -> (r: Self)
        ensures
            r.wf(),
            r.keys.len() == 0,
            r.vals.len() == 0,
            r.key_seq() == Seq::<Seq<char>>::empty(),
    {
        let r = StrMap { keys: Vec::new(), vals: Vec::new() };
        assert(r.key_seq() =~= Seq::<Seq<char>>::empty());
        r
    }

    /// The number of keys.
    pub fn len(&self) -> (n: usize)
        ensures
            n == self.keys.len(),
    {
        self.keys.len()
    }

    /// The position of `k`, if it is a key.
    pub fn find(&self, k: &String) -> (r: Option<usize>)
        ensures
            r is Some == self.contains_key(k@),
            match r {
                Some(i) => i < self.keys.len() && self.keys[i as int]@ == k@ && (self.wf()
                    ==> i == self.position(k@)),
                None => true,
            },
    {
        let r = find_name(&self.keys, k);
        proof {
            if let Some(i) = r {
                assert(self.key_seq()[i as int] == k@);
                if self.wf() {
                    self.lemma_position(i as int);
                }
            }
        }
        r
    }

    /// What `k` maps to, if it is a key.
    pub fn get(&self, k: &String) -> (r: Option<&V>)
        requires
            self.wf(),
        ensures
            r is Some == self.contains_key(k@),
            r is Some ==> *r->0 == self.value(k@),
    {
        match self.find(k) {
            Some(i) => Some(&self.vals[i]),
            None => None,
        }
    }

    /// Binds `k` to `v`: in place where `k` is a key already, at the end
    /// otherwise.
    pub fn insert(&mut self, k: String, v: V)
        requires
            old(self).wf(),
        ensures
            final(self).wf(),
            final(self).assoc() == old(self).assoc().put(k@, v),
            old(self).contains_key(k@) ==> {
                &&& final(self).key_seq() == old(self).key_seq()
                &&& final(self).vals@ == old(self).vals@.update(old(self).position(k@), v)
            },
            !old(self).contains_key(k@) ==> {
                &&& final(self).key_seq() == old(self).key_seq().push(k@)
                &&& final(self).vals@ == old(self).vals@.push(v)
            },
    {
        match self.find(&k) {
            Some(i) => {
                self.vals.set(i, v);
            },
            None => {
                proof {
                    lemma_names_view_push(self.keys@, k);
                }
                self.keys.push(k);
                self.vals.push(v);
            },
        }
    }
}

} // verus!
