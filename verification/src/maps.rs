//! Maps keyed by names, walked in the order of the names.

use crate::names::{
    bytes_lt, compare, lemma_bytes_lt_irreflexive, lemma_bytes_lt_transitive, Rank,
};
use vstd::prelude::*;

verus! {

/// Whether every name of `keys` comes before the names that follow it.
pub open spec fn strictly_increasing(keys: Seq<Seq<u8>>) -> bool {
    forall|i: int, j: int| 0 <= i < j < keys.len() ==> bytes_lt(#[trigger] keys[i], #[trigger] keys[j])
}

/// A map from names to values that is walked in the order of the names.
#[derive(Debug)]
pub struct NameMap<V> {
    entries: Vec<(Vec<u8>, V)>,
}

impl<V> View for NameMap<V> {
    type V = Map<Seq<u8>, V>;

    closed spec fn view(&self) -> Map<Seq<u8>, V> {
        Map::new(
            |k: Seq<u8>| self.keys().contains(k),
            |k: Seq<u8>| self.values()[self.keys().index_of(k)],
        )
    }
}

impl<V> NameMap<V> {
    /// The names of the map in their order.
    pub closed spec fn keys(&self) -> Seq<Seq<u8>> {
        self.entries@.map_values(|e: (Vec<u8>, V)| e.0@)
    }

    /// The values of the map in the order of their names.
    pub closed spec fn values(&self) -> Seq<V> {
        self.entries@.map_values(|e: (Vec<u8>, V)| e.1)
    }

    #[verifier::type_invariant]
    spec fn inv(self) -> bool {
        strictly_increasing(self.keys())
    }

    /// What holds of every map: the names are in strictly increasing order, and the
    /// view maps each name to the value at its place.
    pub open spec fn wf(&self) -> bool {
        &&& self.keys().len() == self.values().len()
        &&& strictly_increasing(self.keys())
        &&& forall|k: Seq<u8>| self@.contains_key(k) <==> self.keys().contains(k)
        &&& forall|i: int|
            0 <= i < self.keys().len() ==> self@.contains_key(#[trigger] self.keys()[i])
                && self@[self.keys()[i]] == self.values()[i]
    }

    proof fn lemma_wf(&self)
        requires
            strictly_increasing(self.keys()),
        ensures
            self.wf(),
    {
        let keys = self.keys();
        assert forall|i: int| 0 <= i < keys.len() implies self@.contains_key(#[trigger] keys[i])
            && self@[keys[i]] == self.values()[i] by {
            let j = keys.index_of(keys[i]);
            assert(keys.contains(keys[i]));
            if j < i {
                lemma_bytes_lt_irreflexive(keys[i]);
                assert(bytes_lt(keys[j], keys[i]));
            } else if i < j {
                lemma_bytes_lt_irreflexive(keys[i]);
                assert(bytes_lt(keys[i], keys[j]));
            }
        }
    }

    /// A map without entries.
    pub fn new() -> (r: Self)
        ensures
            r.wf(),
            r@ == Map::<Seq<u8>, V>::empty(),
            r.keys().len() == 0,
    {
        let r = NameMap { entries: Vec::new() };
        proof {
            r.lemma_wf();
            assert(r@ =~= Map::<Seq<u8>, V>::empty());
        }
        r
    }

    /// Number of entries.
    pub fn len(&self) -> (r: usize)
        ensures
            self.wf(),
            r == self.keys().len(),
    {
        proof {
            use_type_invariant(self);
            self.lemma_wf();
        }
        self.entries.len()
    }

    /// The name at place `i`.
    pub fn key_at(&self, i: usize) -> (r: &Vec<u8>)
        requires
            i < self.keys().len(),
        ensures
            self.wf(),
            r@ == self.keys()[i as int],
    {
        proof {
            use_type_invariant(self);
            self.lemma_wf();
        }
        &self.entries[i].0
    }

    /// The value at place `i`.
    pub fn value_at(&self, i: usize) -> (r: &V)
        requires
            i < self.keys().len(),
        ensures
            self.wf(),
            *r == self.values()[i as int],
    {
        proof {
            use_type_invariant(self);
            self.lemma_wf();
        }
        &self.entries[i].1
    }

    /// The place of `key`, or the place where it would be inserted.
    fn locate(&self, key: &[u8]) -> (r: (usize, bool))
        ensures
            self.wf(),
            r.0 <= self.keys().len(),
            r.1 == self.keys().contains(key@),
            r.1 ==> r.0 < self.keys().len() && self.keys()[r.0 as int] == key@,
            forall|j: int| 0 <= j < r.0 ==> bytes_lt(#[trigger] self.keys()[j], key@),
            forall|j: int|
                r.0 <= j < self.keys().len() && !(r.1 && j == r.0) ==> bytes_lt(
                    key@,
                    #[trigger] self.keys()[j],
                ),
    {
        proof {
            use_type_invariant(self);
            self.lemma_wf();
        }
        let n: usize = self.entries.len();
        let mut i: usize = 0;
        while i < n
            invariant
                i <= n,
                n == self.entries@.len(),
                n == self.keys().len(),
                self.wf(),
                forall|j: int| 0 <= j < i ==> bytes_lt(#[trigger] self.keys()[j], key@),
            decreases n - i,
        {
            let c: Rank = compare(self.entries[i].0.as_slice(), key);
            assert(self.keys()[i as int] == self.entries@[i as int].0@);
            match c {
                Rank::Before => {},
                Rank::Same => {
                    assert forall|j: int| i < j < n implies bytes_lt(
                        key@,
                        #[trigger] self.keys()[j],
                    ) by {
                        assert(bytes_lt(self.keys()[i as int], self.keys()[j]));
                    }
                    return (i, true);
                },
                Rank::After => {
                    assert forall|j: int| i <= j < n implies bytes_lt(
                        key@,
                        #[trigger] self.keys()[j],
                    ) by {
                        if i < j {
                            assert(bytes_lt(self.keys()[i as int], self.keys()[j]));
                            lemma_bytes_lt_transitive(key@, self.keys()[i as int], self.keys()[j]);
                        }
                    }
                    assert(!self.keys().contains(key@)) by {
                        if self.keys().contains(key@) {
                            let j = self.keys().index_of(key@);
                            lemma_bytes_lt_irreflexive(key@);
                        }
                    }
                    return (i, false);
                },
            }
            i += 1;
        }
        assert(!self.keys().contains(key@)) by {
            if self.keys().contains(key@) {
                let j = self.keys().index_of(key@);
                lemma_bytes_lt_irreflexive(key@);
            }
        }
        (i, false)
    }

    /// Whether the map has an entry for `key`.
    pub fn contains_key(&self, key: &[u8]) -> (r: bool)
        ensures
            self.wf(),
            r == self@.contains_key(key@),
    {
        let (_, found) = self.locate(key);
        found
    }

    /// The place of `key` in the order of the names.
    pub fn index_of(&self, key: &[u8]) -> (r: Option<usize>)
        ensures
            self.wf(),
            match r {
                Some(i) => i < self.keys().len() && self.keys()[i as int] == key@,
                None => !self@.contains_key(key@),
            },
    {
        let (i, found) = self.locate(key);
        if found {
            Some(i)
        } else {
            None
        }
    }

    /// The value of `key`.
    pub fn get(&self, key: &[u8]) -> (r: Option<&V>)
        ensures
            self.wf(),
            match r {
                Some(v) => self@.contains_key(key@) && *v == self@[key@],
                None => !self@.contains_key(key@),
            },
    {
        let (i, found) = self.locate(key);
        if found {
            Some(&self.entries[i].1)
        } else {
            None
        }
    }

    /// Sets the value of `key` and returns the value it had.
    pub fn insert(&mut self, key: Vec<u8>, value: V) -> (r: Option<V>)
        ensures
            final(self).wf(),
            final(self)@ == old(self)@.insert(key@, value),
            r == if old(self)@.contains_key(key@) {
                Some(old(self)@[key@])
            } else {
                None::<V>
            },
    {
        let (i, found) = self.locate(key.as_slice());
        let ghost old_keys = self.keys();
        let ghost old_values = self.values();
        let ghost old_map = self@;
        let mut entries: Vec<(Vec<u8>, V)> = Vec::new();
        std::mem::swap(&mut self.entries, &mut entries);
        assert(entries@.map_values(|e: (Vec<u8>, V)| e.0@) == old_keys);
        assert(entries@.map_values(|e: (Vec<u8>, V)| e.1) == old_values);
        let r: Option<V> = if found {
            let previous: (Vec<u8>, V) = entries.remove(i);
            Some(previous.1)
        } else {
            None
        };
        entries.insert(i, (key, value));
        let ghost new_keys = entries@.map_values(|e: (Vec<u8>, V)| e.0@);
        let ghost new_values = entries@.map_values(|e: (Vec<u8>, V)| e.1);
        proof {
            if found {
                assert(new_keys =~= old_keys);
                assert(new_values =~= old_values.update(i as int, value));
            } else {
                assert(new_keys =~= old_keys.insert(i as int, key@));
                assert(new_values =~= old_values.insert(i as int, value));
            }
            assert(strictly_increasing(new_keys)) by {
                assert forall|a: int, b: int| 0 <= a < b < new_keys.len() implies bytes_lt(
                    #[trigger] new_keys[a],
                    #[trigger] new_keys[b],
                ) by {
                    if !found {
                        let oa = if a < i { a } else { a - 1 };
                        let ob = if b < i { b } else { b - 1 };
                        if a != i && b != i {
                            assert(bytes_lt(old_keys[oa], old_keys[ob]));
                        } else if a == i {
                            assert(bytes_lt(key@, old_keys[ob]));
                        } else {
                            assert(bytes_lt(old_keys[oa], key@));
                        }
                    }
                }
            }
        }
        self.entries = entries;
        proof {
            self.lemma_wf();
            assert(self.keys() == new_keys);
            assert(self.values() == new_values);
            assert(self@ =~= old_map.insert(key@, value)) by {
                assert forall|k: Seq<u8>| self@.contains_key(k) <==> old_map.insert(
                    key@,
                    value,
                ).contains_key(k) by {
                    if new_keys.contains(k) {
                        let j = new_keys.index_of(k);
                        if !found && j != i {
                            let oj = if j < i { j } else { j - 1 };
                            assert(old_keys[oj] == k);
                        }
                    }
                    if old_keys.contains(k) {
                        let j = old_keys.index_of(k);
                        if !found {
                            let nj = if j < i { j } else { j + 1 };
                            assert(new_keys[nj] == k);
                        }
                    }
                    if k == key@ {
                        assert(new_keys[i as int] == k);
                    }
                }
                assert forall|k: Seq<u8>| self@.contains_key(k) implies self@[k] == old_map.insert(
                    key@,
                    value,
                )[k] by {
                    let j = new_keys.index_of(k);
                    assert(new_keys[j] == k);
                    assert(self@[new_keys[j]] == new_values[j]);
                    if k != key@ {
                        if found {
                            assert(old_map[old_keys[j]] == old_values[j]);
                        } else {
                            let oj = if j < i { j } else { j - 1 };
                            assert(old_keys[oj] == k);
                            assert(old_map[old_keys[oj]] == old_values[oj]);
                        }
                    } else {
                        if j != i {
                            lemma_bytes_lt_irreflexive(k);
                            if j < i {
                                assert(bytes_lt(new_keys[j], new_keys[i as int]));
                            } else {
                                assert(bytes_lt(new_keys[i as int], new_keys[j]));
                            }
                        }
                    }
                }
            }
            if found {
                assert(old_map[old_keys[i as int]] == old_values[i as int]);
            }
        }
        r
    }

    /// Removes the entry of `key` and returns its value.
    pub fn remove(&mut self, key: &[u8]) -> (r: Option<V>)
        ensures
            final(self).wf(),
            final(self)@ == old(self)@.remove(key@),
            r == if old(self)@.contains_key(key@) {
                Some(old(self)@[key@])
            } else {
                None::<V>
            },
    {
        let (i, found) = self.locate(key);
        let ghost old_keys = self.keys();
        let ghost old_values = self.values();
        let ghost old_map = self@;
        if !found {
            assert(self@ =~= old_map.remove(key@));
            return None;
        }
        let mut entries: Vec<(Vec<u8>, V)> = Vec::new();
        std::mem::swap(&mut self.entries, &mut entries);
        assert(entries@.map_values(|e: (Vec<u8>, V)| e.0@) == old_keys);
        assert(entries@.map_values(|e: (Vec<u8>, V)| e.1) == old_values);
        let previous: (Vec<u8>, V) = entries.remove(i);
        let ghost new_keys = entries@.map_values(|e: (Vec<u8>, V)| e.0@);
        let ghost new_values = entries@.map_values(|e: (Vec<u8>, V)| e.1);
        proof {
            assert(new_keys =~= old_keys.remove(i as int));
            assert(new_values =~= old_values.remove(i as int));
            assert forall|a: int, b: int| 0 <= a < b < new_keys.len() implies bytes_lt(
                #[trigger] new_keys[a],
                #[trigger] new_keys[b],
            ) by {
                let oa = if a < i { a } else { a + 1 };
                let ob = if b < i { b } else { b + 1 };
                assert(bytes_lt(old_keys[oa], old_keys[ob]));
            }
        }
        self.entries = entries;
        proof {
            self.lemma_wf();
            assert(self.keys() == new_keys);
            assert(self.values() == new_values);
            assert(old_map[old_keys[i as int]] == old_values[i as int]);
            assert(self@ =~= old_map.remove(key@)) by {
                assert forall|k: Seq<u8>| self@.contains_key(k) <==> old_map.remove(
                    key@,
                ).contains_key(k) by {
                    if new_keys.contains(k) {
                        let j = new_keys.index_of(k);
                        let oj = if j < i { j } else { j + 1 };
                        assert(old_keys[oj] == k);
                        lemma_bytes_lt_irreflexive(k);
                        if oj < i {
                            assert(bytes_lt(old_keys[oj], old_keys[i as int]));
                        } else {
                            assert(bytes_lt(old_keys[i as int], old_keys[oj]));
                        }
                    }
                    if old_keys.contains(k) && k != key@ {
                        let j = old_keys.index_of(k);
                        let nj = if j < i { j } else { j - 1 };
                        assert(new_keys[nj] == k);
                    }
                }
                assert forall|k: Seq<u8>| self@.contains_key(k) implies self@[k] == old_map.remove(
                    key@,
                )[k] by {
                    let j = new_keys.index_of(k);
                    assert(new_keys[j] == k);
                    assert(self@[new_keys[j]] == new_values[j]);
                    let oj = if j < i { j } else { j + 1 };
                    assert(old_keys[oj] == k);
                    assert(old_map[old_keys[oj]] == old_values[oj]);
                }
            }
        }
        Some(previous.1)
    }
}

impl<V> Default for NameMap<V> {
    /// A map without entries.
    fn default() -> (r: Self)
        ensures
            r.wf(),
            r@ == Map::<Seq<u8>, V>::empty(),
    {
        NameMap::new()
    }
}

} // verus!
