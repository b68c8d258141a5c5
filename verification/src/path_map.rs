//! A small table keyed by path.

use vstd::prelude::*;

use crate::listing::{all_different, holds, position};

verus! {

/// Values filed under paths, each path at most once.
pub struct PathMap<V> {
    keys: Vec<String>,
    values: Vec<V>,
}

/// The place of a key.
spec fn place(keys: Seq<String>, key: Seq<char>) -> int {
    choose|i: int| 0 <= i < keys.len() && (#[trigger] keys[i])@ == key
}

impl<V> View for PathMap<V> {
    type V = Map<Seq<char>, V>;

    closed spec fn view(&self) -> Map<Seq<char>, V> {
        Map::new(
            |key: Seq<char>| holds(self.keys@, key),
            |key: Seq<char>| self.values@[place(self.keys@, key)],
        )
    }
}

impl<V> PathMap<V> {
    /// No path stands twice, and every path has its value.
    pub closed spec fn wf(&self) -> bool {
        &&& all_different(self.keys@)
        &&& self.keys@.len() == self.values@.len()
    }

    /// The number of paths.
    pub closed spec fn count(&self) -> nat {
        self.keys@.len()
    }

    /// The value at a place.
    pub closed spec fn value(&self, i: int) -> V {
        self.values@[i]
    }

    /// The path at a place.
    pub closed spec fn path(&self, i: int) -> Seq<char> {
        self.keys@[i]@
    }

    proof fn lemma_place(&self, i: int)
        requires
            self.wf(),
            0 <= i < self.keys@.len(),
        ensures
            place(self.keys@, self.keys@[i]@) == i,
            self@.contains_key(self.keys@[i]@),
            self@[self.keys@[i]@] == self.values@[i],
    {
        let k = place(self.keys@, self.keys@[i]@);
        assert(self.keys@[i]@ == self.keys@[i]@);
        assert(0 <= k < self.keys@.len() && self.keys@[k]@ == self.keys@[i]@);
        if k < i {
            assert(self.keys@[k]@ != self.keys@[i]@);
        } else if i < k {
            assert(self.keys@[i]@ != self.keys@[k]@);
        }
    }

    /// The paths at the places of a table are its keys, each at one place.
    pub proof fn lemma_places(&self)
        requires
            self.wf(),
        ensures
            forall|i: int|
                0 <= i < self.count() ==> self@.contains_key(#[trigger] self.path(i))
                    && self@[self.path(i)] == self.value(i),
            forall|key: Seq<char>| #[trigger]
                self@.contains_key(key) ==> exists|i: int|
                    0 <= i < self.count() && #[trigger] self.path(i) == key,
            forall|i: int, j: int|
                0 <= i < j < self.count() ==> #[trigger] self.path(i) != #[trigger] self.path(j),
    {
        assert forall|i: int| 0 <= i < self.count() implies self@.contains_key(
            #[trigger] self.path(i),
        ) && self@[self.path(i)] == self.value(i) by {
            self.lemma_place(i);
        }
        assert forall|key: Seq<char>| #[trigger] self@.contains_key(key) implies exists|i: int|
            0 <= i < self.count() && #[trigger] self.path(i) == key by {
            let i = choose|i: int| 0 <= i < self.keys@.len() && (#[trigger] self.keys@[i])@ == key;
            assert(self.path(i) == key);
        }
        assert forall|i: int, j: int| 0 <= i < j < self.count() implies #[trigger] self.path(i)
            != #[trigger] self.path(j) by {
            assert(self.keys@[i]@ != self.keys@[j]@);
        }
    }

    /// A table with no paths.
    pub fn new() -> (map: PathMap<V>)
        ensures
            map.wf(),
            map@ == Map::<Seq<char>, V>::empty(),
            map.count() == 0,
    {
        let map = PathMap { keys: Vec::new(), values: Vec::new() };
        assert(map@ =~= Map::<Seq<char>, V>::empty());
        map
    }

    /// The number of paths.
    pub fn len(&self) -> (n: usize)
        requires
            self.wf(),
        ensures
            n == self.count(),
    {
        self.keys.len()
    }

    /// The value at a place.
    pub fn value_at(&self, i: usize) -> (value: &V)
        requires
            self.wf(),
            i < self.count(),
        ensures
            *value == self.value(i as int),
    {
        &self.values[i]
    }

    /// Whether a path is there.
    pub fn contains_key(&self, key: &str) -> (there: bool)
        requires
            self.wf(),
        ensures
            there == self@.contains_key(key@),
    {
        let at = position(&self.keys, key);
        proof {
            if at is Some {
                self.lemma_place(at->Some_0 as int);
            }
        }
        at.is_some()
    }

    /// The value filed under a path.
    pub fn get(&self, key: &str) -> (value: Option<&V>)
        requires
            self.wf(),
        ensures
            match value {
                Some(v) => self@.contains_key(key@) && *v == self@[key@],
                None => !self@.contains_key(key@),
            },
    {
        match position(&self.keys, key) {
            Some(i) => {
                proof {
                    self.lemma_place(i as int);
                }
                Some(&self.values[i])
            },
            None => None,
        }
    }

    /// Files a value under a path, in place of the one that was there.
    pub fn insert(&mut self, key: &str, value: V)
        requires
            old(self).wf(),
        ensures
            final(self).wf(),
            final(self)@ == old(self)@.insert(key@, value),
    {
        let ghost before = *self;
        match position(&self.keys, key) {
            Some(i) => {
                self.values.set(i, value);
                proof {
                    before.lemma_place(i as int);
                    self.lemma_place(i as int);
                    assert forall|k: Seq<char>| holds(self.keys@, k) && k != key@ implies self@[k]
                        == #[trigger] before@[k] by {
                        let p = choose|p: int|
                            0 <= p < self.keys@.len() && (#[trigger] self.keys@[p])@ == k;
                        self.lemma_place(p);
                        before.lemma_place(p);
                    }
                    assert(self@ =~= before@.insert(key@, value));
                }
            },
            None => {
                let owned = key.to_owned();
                self.keys.push(owned);
                self.values.push(value);
                proof {
                    let n = before.keys@.len() as int;
                    assert forall|i: int, j: int| 0 <= i < j < self.keys@.len() implies (
                    #[trigger] self.keys@[i])@ != (#[trigger] self.keys@[j])@ by {
                        assert(self.keys@[i] == before.keys@[i]);
                        if j < n {
                            assert(self.keys@[j] == before.keys@[j]);
                        }
                    }
                    self.lemma_place(n);
                    assert forall|k: Seq<char>| #[trigger]
                        self@.contains_key(k) <==> before@.contains_key(k) || k == key@ by {
                        if holds(before.keys@, k) {
                            let p = choose|p: int|
                                0 <= p < n && (#[trigger] before.keys@[p])@ == k;
                            assert(self.keys@[p]@ == k);
                        }
                        if holds(self.keys@, k) && k != key@ {
                            let p = choose|p: int|
                                0 <= p < self.keys@.len() && (#[trigger] self.keys@[p])@ == k;
                            assert(before.keys@[p]@ == k);
                        }
                    }
                    assert forall|k: Seq<char>| before@.contains_key(k) implies self@[k]
                        == #[trigger] before@[k] by {
                        let p = choose|p: int| 0 <= p < n && (#[trigger] before.keys@[p])@ == k;
                        assert(self.keys@[p]@ == k);
                        self.lemma_place(p);
                        before.lemma_place(p);
                    }
                    assert(self@ =~= before@.insert(key@, value));
                }
            },
        }
    }

    /// Takes a path out, and gives back its value.
    pub fn remove(&mut self, key: &str) -> (value: Option<V>)
        requires
            old(self).wf(),
        ensures
            final(self).wf(),
            final(self)@ == old(self)@.remove(key@),
            match value {
                Some(v) => old(self)@.contains_key(key@) && v == old(self)@[key@],
                None => !old(self)@.contains_key(key@),
            },
    {
        let ghost before = *self;
        match position(&self.keys, key) {
            Some(i) => {
                proof {
                    before.lemma_place(i as int);
                }
                self.keys.remove(i);
                let value = self.values.remove(i);
                proof {
                    let at = i as int;
                    assert forall|a: int| 0 <= a < self.keys@.len() implies #[trigger] self.keys@[a]
                        == before.keys@[if a < at { a } else { a + 1 }] by {}
                    assert(all_different(self.keys@));
                    assert forall|k: Seq<char>| #[trigger]
                        self@.contains_key(k) <==> before@.contains_key(k) && k != key@ by {
                        if holds(before.keys@, k) && k != key@ {
                            let p = choose|p: int|
                                0 <= p < before.keys@.len() && (#[trigger] before.keys@[p])@ == k;
                            let q = if p < at { p } else { p - 1 };
                            assert(self.keys@[q]@ == k);
                        }
                        if holds(self.keys@, k) {
                            let q = choose|q: int|
                                0 <= q < self.keys@.len() && (#[trigger] self.keys@[q])@ == k;
                            let p = if q < at { q } else { q + 1 };
                            assert(before.keys@[p]@ == k);
                        }
                    }
                    assert forall|k: Seq<char>| self@.contains_key(k) implies self@[k]
                        == #[trigger] before@[k] by {
                        let q = choose|q: int|
                            0 <= q < self.keys@.len() && (#[trigger] self.keys@[q])@ == k;
                        let p = if q < at { q } else { q + 1 };
                        assert(before.keys@[p]@ == k);
                        self.lemma_place(q);
                        before.lemma_place(p);
                    }
                    assert(self@ =~= before@.remove(key@));
                }
                Some(value)
            },
            None => {
                assert(self@ =~= before@.remove(key@));
                None
            },
        }
    }

    /// Takes every path out.
    pub fn clear(&mut self)
        requires
            old(self).wf(),
        ensures
            final(self).wf(),
            final(self)@ == Map::<Seq<char>, V>::empty(),
            final(self).count() == 0,
    {
        self.keys.clear();
        self.values.clear();
        assert(self@ =~= Map::<Seq<char>, V>::empty());
    }
}

} // verus!
