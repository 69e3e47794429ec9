//! A string-keyed map that keeps its entries in insertion order.
//!
//! Every keyed table of the library (the index, tenant quotas and usage,
//! vector clocks, tier metadata, ...) is one of these. Its abstract value is
//! a `Map<Seq<char>, V>`; the order of its entries is exposed through
//! `key_seq` and `value_seq` so that operations that walk the table can state
//! what they produce.

use vstd::prelude::*;

verus! {

/// A map from string keys to values that keeps its entries in the order in
/// which their keys were first inserted. No key occurs twice.
#[derive(Debug)]
#[verifier::reject_recursive_types(V)]
pub struct StrMap<V> {
    entries: Vec<(String, V)>,
}

impl<V> StrMap<V> {
    /// The keys, in entry order.
    pub closed spec fn key_seq(&self) -> Seq<Seq<char>> {
        Seq::new(self.entries@.len(), |i: int| self.entries@[i].0@)
    }

    /// The values, in entry order.
    pub closed spec fn value_seq(&self) -> Seq<V> {
        Seq::new(self.entries@.len(), |i: int| self.entries@[i].1)
    }

    /// No key occurs twice.
    #[verifier::type_invariant]
    pub closed spec fn inv(&self) -> bool {
        self.key_seq().no_duplicates()
    }

    /// The abstract map.
    pub closed spec fn spec_map(&self) -> Map<Seq<char>, V> {
        Map::new(
            |k: Seq<char>| self.key_seq().contains(k),
            |k: Seq<char>| self.value_seq()[self.key_seq().index_of(k)],
        )
    }

    /// Every key in the entry order is a key of the abstract map.
    pub proof fn lemma_keys_in_map(&self)
        ensures
            forall|i: int|
                0 <= i < self.key_seq().len() ==> #[trigger] self@.contains_key(self.key_seq()[i]),
    {
        assert forall|i: int| 0 <= i < self.key_seq().len() implies #[trigger] self@.contains_key(
            self.key_seq()[i],
        ) by {
            assert(self.key_seq().contains(self.key_seq()[i]));
        }
    }

    /// What the entry order says of the abstract map.
    pub proof fn lemma_view(&self)
        requires
            self.inv(),
        ensures
            self.key_seq().no_duplicates(),
            self.key_seq().len() == self.value_seq().len(),
            self@.dom() == self.key_seq().to_set(),
            self@.dom().finite(),
            self@.len() == self.key_seq().len(),
            forall|i: int|
                0 <= i < self.key_seq().len() ==> #[trigger] self@[self.key_seq()[i]]
                    == self.value_seq()[i],
            forall|k: Seq<char>|
                #[trigger] self@.contains_key(k) ==> exists|i: int|
                    0 <= i < self.key_seq().len() && self.key_seq()[i] == k,
    {
        let ks = self.key_seq();
        assert(self@.dom() =~= ks.to_set());
        ks.unique_seq_to_set();
        assert forall|i: int| 0 <= i < ks.len() implies #[trigger] self@[ks[i]]
            == self.value_seq()[i] by {
            assert(ks.contains(ks[i]));
            let j = ks.index_of(ks[i]);
            assert(ks[j] == ks[i]);
        }
    }

    /// An empty map.
    pub fn new() -> (r: Self)
        ensures
            r@ == Map::<Seq<char>, V>::empty(),
            r.key_seq() == Seq::<Seq<char>>::empty(),
    {
        let r = StrMap { entries: Vec::new() };
        assert(r@ =~= Map::<Seq<char>, V>::empty());
        assert(r.key_seq() =~= Seq::<Seq<char>>::empty());
        r
    }

    /// The number of entries.
    pub fn len(&self) -> (r: usize)
        ensures
            r == self@.len(),
            r == self.key_seq().len(),
    {
        proof {
            use_type_invariant(self);
            self.lemma_view();
        }
        self.entries.len()
    }

    /// Whether the map has no entry.
    pub fn is_empty(&self) -> (r: bool)
        ensures
            r == (self@.len() == 0),
            r == (self.key_seq().len() == 0),
    {
        proof {
            use_type_invariant(self);
            self.lemma_view();
        }
        self.entries.len() == 0
    }

    /// The position of the entry for `k`, if there is one.
    pub fn find(&self, k: &str) -> (r: Option<usize>)
        ensures
            match r {
                Some(i) => i < self.key_seq().len() && self.key_seq()[i as int] == k@
                    && self@.contains_key(k@),
                None => !self@.contains_key(k@),
            },
    {
        let key: String = k.to_owned();
        let mut i: usize = 0;
        while i < self.entries.len()
            invariant
                i <= self.entries@.len(),
                key@ == k@,
                forall|j: int| 0 <= j < i ==> self.key_seq()[j] != k@,
            decreases self.entries@.len() - i,
        {
            if self.entries[i].0 == key {
                assert(self.key_seq()[i as int] == k@);
                assert(self.key_seq().contains(k@));
                return Some(i);
            }
            i = i + 1;
        }
        assert(!self.key_seq().contains(k@));
        None
    }

    /// The value stored for `k`.
    pub fn get(&self, k: &str) -> (r: Option<&V>)
        ensures
            match r {
                Some(v) => self@.contains_key(k@) && *v == self@[k@],
                None => !self@.contains_key(k@),
            },
    {
        proof {
            use_type_invariant(self);
            self.lemma_view();
        }
        match self.find(k) {
            Some(i) => {
                assert(self@[self.key_seq()[i as int]] == self.value_seq()[i as int]);
                Some(&self.entries[i].1)
            },
            None => None,
        }
    }

    /// Whether there is an entry for `k`.
    pub fn contains_key(&self, k: &str) -> (r: bool)
        ensures
            r == self@.contains_key(k@),
    {
        self.find(k).is_some()
    }

    /// The key of the entry at position `i`.
    pub fn key_at(&self, i: usize) -> (r: &String)
        requires
            i < self.key_seq().len(),
        ensures
            r@ == self.key_seq()[i as int],
            self@.contains_key(r@),
    {
        proof {
            assert(self.key_seq().contains(self.key_seq()[i as int]));
        }
        &self.entries[i].0
    }

    /// The value of the entry at position `i`.
    pub fn value_at(&self, i: usize) -> (r: &V)
        requires
            i < self.key_seq().len(),
        ensures
            *r == self.value_seq()[i as int],
            *r == self@[self.key_seq()[i as int]],
    {
        proof {
            use_type_invariant(self);
            self.lemma_view();
        }
        &self.entries[i].1
    }

    /// Replaces the value of the entry at position `i`; the order of entries is kept.
    pub fn set_value_at(&mut self, i: usize, v: V)
        requires
            i < old(self).key_seq().len(),
        ensures
            final(self).key_seq() == old(self).key_seq(),
            final(self).value_seq() == old(self).value_seq().update(i as int, v),
            final(self)@ == old(self)@.insert(old(self).key_seq()[i as int], v),
    {
        proof {
            use_type_invariant(&*self);
            self.lemma_view();
        }
        let ghost old_self = *self;
        let mut entries: Vec<(String, V)> = Vec::new();
        std::mem::swap(&mut entries, &mut self.entries);
        let (k, _old_v) = entries.remove(i);
        entries.insert(i, (k, v));
        proof {
            let new_self = StrMap { entries };
            assert(new_self.key_seq() =~= old_self.key_seq());
            assert(new_self.value_seq() =~= old_self.value_seq().update(i as int, v));
        }
        self.entries = entries;
        proof {
            self.lemma_view();
            let ks = self.key_seq();
            let m = old_self@.insert(ks[i as int], v);
            assert forall|k: Seq<char>| #[trigger] self@.contains_key(k) implies m.contains_key(k)
                && self@[k] == m[k] by {
                let j = choose|j: int| 0 <= j < ks.len() && ks[j] == k;
                assert(self@[ks[j]] == self.value_seq()[j]);
                if j != i {
                    assert(old_self@[old_self.key_seq()[j]] == old_self.value_seq()[j]);
                }
            }
            assert forall|k: Seq<char>| #[trigger] m.contains_key(k) implies self@.contains_key(k) by {
                if k != ks[i as int] {
                    let j = choose|j: int|
                        0 <= j < old_self.key_seq().len() && old_self.key_seq()[j] == k;
                    assert(ks[j] == k);
                }
            }
            assert(self@ =~= m);
        }
    }

    /// Replaces the value of the entry at position `i` and hands back the old
    /// one; the order of entries is kept.
    pub fn replace_value_at(&mut self, i: usize, v: V) -> (r: V)
        requires
            i < old(self).key_seq().len(),
        ensures
            r == old(self).value_seq()[i as int],
            final(self).key_seq() == old(self).key_seq(),
            final(self).value_seq() == old(self).value_seq().update(i as int, v),
            final(self)@ == old(self)@.insert(old(self).key_seq()[i as int], v),
    {
        proof {
            use_type_invariant(&*self);
            self.lemma_view();
        }
        let ghost old_self = *self;
        let mut entries: Vec<(String, V)> = Vec::new();
        std::mem::swap(&mut entries, &mut self.entries);
        let (k, old_v) = entries.remove(i);
        entries.insert(i, (k, v));
        proof {
            let new_self = StrMap { entries };
            assert(new_self.key_seq() =~= old_self.key_seq());
            assert(new_self.value_seq() =~= old_self.value_seq().update(i as int, v));
        }
        self.entries = entries;
        proof {
            self.lemma_view();
            let ks = self.key_seq();
            let m = old_self@.insert(ks[i as int], v);
            assert forall|k: Seq<char>| #[trigger] self@.contains_key(k) implies m.contains_key(k)
                && self@[k] == m[k] by {
                let j = choose|j: int| 0 <= j < ks.len() && ks[j] == k;
                assert(self@[ks[j]] == self.value_seq()[j]);
                if j != i {
                    assert(old_self@[old_self.key_seq()[j]] == old_self.value_seq()[j]);
                }
            }
            assert forall|k: Seq<char>| #[trigger] m.contains_key(k) implies self@.contains_key(k) by {
                if k != ks[i as int] {
                    let j = choose|j: int|
                        0 <= j < old_self.key_seq().len() && old_self.key_seq()[j] == k;
                    assert(ks[j] == k);
                }
            }
            assert(self@ =~= m);
        }
        old_v
    }

    /// Stores `v` for `k`. An existing entry keeps its position; a new key goes last.
    pub fn insert(&mut self, k: String, v: V)
        ensures
            final(self)@ == old(self)@.insert(k@, v),
            old(self)@.contains_key(k@) ==> final(self).key_seq() == old(self).key_seq(),
            !old(self)@.contains_key(k@) ==> final(self).key_seq() == old(self).key_seq().push(
                k@,
            ),
            !old(self)@.contains_key(k@) ==> final(self).value_seq() == old(self).value_seq().push(
                v,
            ),
    {
        match self.find(k.as_str()) {
            Some(i) => {
                self.set_value_at(i, v);
            },
            None => {
                proof {
                    use_type_invariant(&*self);
                    self.lemma_view();
                }
                let ghost old_self = *self;
                let mut entries: Vec<(String, V)> = Vec::new();
                std::mem::swap(&mut entries, &mut self.entries);
                entries.push((k, v));
                proof {
                    let new_self = StrMap { entries };
                    assert(new_self.key_seq() =~= old_self.key_seq().push(k@));
                    assert(new_self.value_seq() =~= old_self.value_seq().push(v));
                }
                self.entries = entries;
                proof {
                    self.lemma_view();
                    let ks = self.key_seq();
                    let m = old_self@.insert(k@, v);
                    let n = old_self.key_seq().len();
                    assert forall|key: Seq<char>| #[trigger] self@.contains_key(key) implies m.contains_key(
                        key,
                    ) && self@[key] == m[key] by {
                        let j = choose|j: int| 0 <= j < ks.len() && ks[j] == key;
                        assert(self@[ks[j]] == self.value_seq()[j]);
                        if j != n {
                            assert(old_self@[old_self.key_seq()[j]] == old_self.value_seq()[j]);
                        }
                    }
                    assert forall|key: Seq<char>| #[trigger] m.contains_key(key) implies self@.contains_key(
                        key,
                    ) by {
                        if key != k@ {
                            let j = choose|j: int|
                                0 <= j < old_self.key_seq().len() && old_self.key_seq()[j] == key;
                            assert(ks[j] == key);
                        } else {
                            assert(ks[n as int] == key);
                        }
                    }
                    assert(self@ =~= m);
                }
            },
        }
    }

    /// Removes the entry for `k` and hands back its value; the other entries keep their order.
    pub fn remove(&mut self, k: &str) -> (r: Option<V>)
        ensures
            final(self)@ == old(self)@.remove(k@),
            r == (if old(self)@.contains_key(k@) {
                Some(old(self)@[k@])
            } else {
                None::<V>
            }),
            !old(self)@.contains_key(k@) ==> final(self).key_seq() == old(self).key_seq(),
            old(self)@.contains_key(k@) ==> final(self).key_seq() == old(self).key_seq().remove(
                old(self).key_seq().index_of(k@),
            ),
    {
        proof {
            use_type_invariant(&*self);
            self.lemma_view();
        }
        match self.find(k) {
            None => {
                assert(self@.remove(k@) =~= self@);
                None
            },
            Some(i) => {
                let ghost old_self = *self;
                let ghost oks = old_self.key_seq();
                proof {
                    assert(oks.index_of(k@) == i as int) by {
                        let j = oks.index_of(k@);
                        assert(oks.contains(k@));
                        assert(oks[j] == k@);
                    }
                }
                let mut entries: Vec<(String, V)> = Vec::new();
                std::mem::swap(&mut entries, &mut self.entries);
                let (_key, v) = entries.remove(i);
                proof {
                    let new_self = StrMap { entries };
                    assert(new_self.key_seq() =~= oks.remove(i as int));
                    assert(new_self.value_seq() =~= old_self.value_seq().remove(i as int));
                    let nks = new_self.key_seq();
                    assert forall|a: int, b: int|
                        0 <= a < nks.len() && 0 <= b < nks.len() && a != b implies nks[a]
                        != nks[b] by {
                        let oa = if a < i { a } else { a + 1 };
                        let ob = if b < i { b } else { b + 1 };
                        assert(nks[a] == oks[oa]);
                        assert(nks[b] == oks[ob]);
                    }
                }
                self.entries = entries;
                proof {
                    self.lemma_view();
                    let ks = self.key_seq();
                    let m = old_self@.remove(k@);
                    assert(v == old_self.value_seq()[i as int]);
                    assert forall|key: Seq<char>| #[trigger] self@.contains_key(key) implies m.contains_key(
                        key,
                    ) && self@[key] == m[key] by {
                        let j = choose|j: int| 0 <= j < ks.len() && ks[j] == key;
                        let oj = if j < i { j } else { j + 1 };
                        assert(ks[j] == oks[oj]);
                        assert(self@[ks[j]] == self.value_seq()[j]);
                        assert(old_self@[oks[oj]] == old_self.value_seq()[oj]);
                    }
                    assert forall|key: Seq<char>| #[trigger] m.contains_key(key) implies self@.contains_key(
                        key,
                    ) by {
                        let j = choose|j: int| 0 <= j < oks.len() && oks[j] == key;
                        assert(j != i);
                        let nj = if j < i { j } else { j - 1 };
                        assert(ks[nj] == key);
                    }
                    assert(self@ =~= m);
                }
                Some(v)
            },
        }
    }

    /// Removes every entry.
    pub fn clear(&mut self)
        ensures
            final(self)@ == Map::<Seq<char>, V>::empty(),
            final(self).key_seq() == Seq::<Seq<char>>::empty(),
    {
        self.entries = Vec::new();
        assert(self@ =~= Map::<Seq<char>, V>::empty());
        assert(self.key_seq() =~= Seq::<Seq<char>>::empty());
    }
}

impl<V> View for StrMap<V> {
    type V = Map<Seq<char>, V>;

    open spec fn view(&self) -> Map<Seq<char>, V> {
        self.spec_map()
    }
}

impl<V: Clone> Clone for StrMap<V> {
    /// A copy with the same keys in the same order, each value cloned.
    fn clone(&self) -> (r: Self)
        ensures
            r.key_seq() == self.key_seq(),
    {
        proof {
            use_type_invariant(self);
        }
        let mut entries: Vec<(String, V)> = Vec::new();
        let mut i: usize = 0;
        while i < self.entries.len()
            invariant
                i <= self.entries@.len(),
                entries@.len() == i,
                forall|j: int| 0 <= j < i ==> (#[trigger] entries@[j]).0@ == self.entries@[j].0@,
            decreases self.entries@.len() - i,
        {
            let k = self.entries[i].0.clone();
            let v = self.entries[i].1.clone();
            entries.push((k, v));
            i = i + 1;
        }
        proof {
            let ks = Seq::new(entries@.len(), |j: int| entries@[j].0@);
            assert(ks =~= self.key_seq());
        }
        let r = StrMap { entries };
        assert(r.key_seq() =~= self.key_seq());
        r
    }
}

} // verus!
