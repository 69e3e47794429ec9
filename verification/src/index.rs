//! In-memory index for fast key lookups.
//!
//! Each key maps to a `BlobLocation`, which describes where the value is
//! stored on disk. The index can be written to and read back from a snapshot
//! (a byte string; the file itself is written and read outside the library),
//! and supports TTL expiry. Times are milliseconds since the Unix epoch.

use crate::clock;
use crate::strmap::StrMap;
use vstd::prelude::*;

verus! {

/// Describes the physical location of a value in the log-structured storage engine.
pub struct BlobLocation {
    pub shard: u64,
    pub offset: u64,
    pub size: u64,
    pub blake3: String,
    /// Expiry time in milliseconds since the epoch, if the key has a TTL.
    pub expires_at: Option<u64>,
}

/// The abstract value of a `BlobLocation`.
pub struct LocView {
    pub shard: u64,
    pub offset: u64,
    pub size: u64,
    pub blake3: Seq<char>,
    pub expires_at: Option<u64>,
}

impl View for BlobLocation {
    type V = LocView;

    open spec fn view(&self) -> LocView {
        LocView {
            shard: self.shard,
            offset: self.offset,
            size: self.size,
            blake3: self.blake3@,
            expires_at: self.expires_at,
        }
    }
}

impl Clone for BlobLocation {
    fn clone(&self) -> (r: Self)
        ensures
            r == *self,
    {
        BlobLocation {
            shard: self.shard,
            offset: self.offset,
            size: self.size,
            blake3: self.blake3.clone(),
            expires_at: self.expires_at,
        }
    }
}

/// The abstract value of an optional location.
pub open spec fn opt_loc_view(r: Option<&BlobLocation>) -> Option<LocView> {
    match r {
        Some(l) => Some(l@),
        None => None,
    }
}

/// Whether a location has expired at time `now`.
pub open spec fn expired(loc: LocView, now: u64) -> bool {
    match loc.expires_at {
        Some(e) => now > e,
        None => false,
    }
}

/// The entries of `m` that have not expired at `now`.
pub open spec fn live_entries(m: Map<Seq<char>, LocView>, now: u64) -> Map<Seq<char>, LocView> {
    Map::new(|k: Seq<char>| m.contains_key(k) && !expired(m[k], now), |k: Seq<char>| m[k])
}

/// The keys that carry a TTL, with their expiry time, among the first `n` entries.
pub open spec fn ttl_pairs(keys: Seq<Seq<char>>, locs: Seq<LocView>, n: int) -> Seq<
    (Seq<char>, u64),
>
    decreases n,
{
    if n <= 0 {
        Seq::empty()
    } else {
        let rest = ttl_pairs(keys, locs, n - 1);
        match locs[n - 1].expires_at {
            Some(e) => rest.push((keys[n - 1], e)),
            None => rest,
        }
    }
}

/// An entry that has expired stays expired.
pub proof fn lemma_expiry_persists(loc: LocView, t1: u64, t2: u64)
    requires
        expired(loc, t1),
        t1 <= t2,
    ensures
        expired(loc, t2),
{
}

/// A cleanup leaves no expired entry, and a second cleanup at the same time
/// removes nothing more.
pub proof fn lemma_cleanup_idempotent(m: Map<Seq<char>, LocView>, now: u64)
    ensures
        forall|k: Seq<char>| #[trigger]
            live_entries(m, now).contains_key(k) ==> !expired(live_entries(m, now)[k], now),
        live_entries(live_entries(m, now), now) == live_entries(m, now),
{
    assert(live_entries(live_entries(m, now), now) =~= live_entries(m, now));
}

/// The number of expired entries among the first `n`.
pub open spec fn count_expired(locs: Seq<LocView>, now: u64, n: int) -> nat
    decreases n,
{
    if n <= 0 {
        0
    } else {
        count_expired(locs, now, n - 1) + if expired(locs[n - 1], now) {
            1nat
        } else {
            0nat
        }
    }
}

/// The current time in milliseconds since the epoch, as an unsigned count.
fn now_millis() -> (r: u64)
    ensures
        r <= i64::MAX,
{
    let ms = clock::now_millis();
    ms as u64
}

/// In-memory index from keys to blob locations.
pub struct Index {
    map: StrMap<BlobLocation>,
}

impl View for Index {
    type V = Map<Seq<char>, LocView>;

    closed spec fn view(&self) -> Map<Seq<char>, LocView> {
        self.map@.map_values(|l: BlobLocation| l@)
    }
}

impl Index {
    /// The keys, in the order they were first inserted.
    pub closed spec fn key_seq(&self) -> Seq<Seq<char>> {
        self.map.key_seq()
    }

    /// The locations, in the order of `key_seq`.
    pub closed spec fn loc_seq(&self) -> Seq<LocView> {
        self.map.value_seq().map_values(|l: BlobLocation| l@)
    }

    /// Whether this index's entry order lists each of its entries once:
    /// `key_seq` holds its keys without repeats, `loc_seq` their locations.
    pub open spec fn lists_entries(&self) -> bool {
        &&& self.key_seq().len() == self.loc_seq().len()
        &&& self.key_seq().no_duplicates()
        &&& self.key_seq().to_set() == self@.dom()
        &&& forall|i: int|
            0 <= i < self.key_seq().len() ==> self@[#[trigger] self.key_seq()[i]]
                == self.loc_seq()[i]
    }

    /// The index's map keeps its invariant (no key twice).
    #[verifier::type_invariant]
    pub closed spec fn wf(&self) -> bool {
        self.map.inv()
    }

    /// What the entry order says of the abstract index.
    pub proof fn lemma_entries(&self)
        requires
            self.wf(),
        ensures
            self.key_seq().len() == self.loc_seq().len(),
            self.key_seq().no_duplicates(),
            self@.dom() == self.key_seq().to_set(),
            self@.dom().finite(),
            self@.len() == self.key_seq().len(),
            forall|i: int|
                0 <= i < self.key_seq().len() ==> #[trigger] self@[self.key_seq()[i]]
                    == self.loc_seq()[i],
    {
        self.map.lemma_view();
        assert(self@.dom() =~= self.map@.dom());
    }

    /// An empty index.
    pub fn new() -> (r: Self)
        ensures
            r@ == Map::<Seq<char>, LocView>::empty(),
            r.key_seq() == Seq::<Seq<char>>::empty(),
            r.loc_seq() == Seq::<LocView>::empty(),
    {
        let map: StrMap<BlobLocation> = StrMap::new();
        proof {
            use_type_invariant(&map);
            map.lemma_view();
        }
        let r = Index { map };
        assert(r@ =~= Map::<Seq<char>, LocView>::empty());
        assert(r.loc_seq() =~= Seq::<LocView>::empty());
        r
    }

    /// Stores `location` for `key`, replacing any earlier one.
    pub fn insert(&mut self, key: String, location: BlobLocation)
        ensures
            final(self)@ == old(self)@.insert(key@, location@),
            final(self).key_seq() == if old(self)@.contains_key(key@) {
                old(self).key_seq()
            } else {
                old(self).key_seq().push(key@)
            },
    {
        let ghost k = key@;
        let ghost l = location@;
        let mut map: StrMap<BlobLocation> = StrMap::new();
        proof {
            use_type_invariant(&map);
        }
        std::mem::swap(&mut map, &mut self.map);
        map.insert(key, location);
        proof {
            use_type_invariant(&map);
        }
        self.map = map;
        assert(self@ =~= old(self)@.insert(k, l));
    }

    /// The location stored for `key`.
    pub fn get(&self, key: &str) -> (r: Option<&BlobLocation>)
        ensures
            match r {
                Some(l) => self@.contains_key(key@) && l@ == self@[key@],
                None => !self@.contains_key(key@),
            },
    {
        self.map.get(key)
    }

    /// Removes the entry for `key` and hands back its location.
    pub fn remove(&mut self, key: &str) -> (r: Option<BlobLocation>)
        ensures
            final(self)@ == old(self)@.remove(key@),
            final(self).key_seq() == if old(self)@.contains_key(key@) {
                old(self).key_seq().remove(old(self).key_seq().index_of(key@))
            } else {
                old(self).key_seq()
            },
            match r {
                Some(l) => old(self)@.contains_key(key@) && l@ == old(self)@[key@],
                None => !old(self)@.contains_key(key@),
            },
    {
        let mut map: StrMap<BlobLocation> = StrMap::new();
        proof {
            use_type_invariant(&map);
        }
        std::mem::swap(&mut map, &mut self.map);
        let r = map.remove(key);
        proof {
            use_type_invariant(&map);
        }
        self.map = map;
        assert(self@ =~= old(self)@.remove(key@));
        r
    }

    /// Whether there is an entry for `key`.
    pub fn contains(&self, key: &str) -> (r: bool)
        ensures
            r == self@.contains_key(key@),
    {
        self.map.contains_key(key)
    }

    /// The number of entries.
    pub fn len(&self) -> (r: usize)
        ensures
            r == self@.len(),
    {
        let r = self.map.len();
        assert(self@.dom() =~= self.map@.dom());
        r
    }

    /// Whether the index has no entry.
    pub fn is_empty(&self) -> (r: bool)
        ensures
            r == (self@.len() == 0),
    {
        self.len() == 0
    }

    /// Removes every entry.
    pub fn clear(&mut self)
        ensures
            final(self)@ == Map::<Seq<char>, LocView>::empty(),
            final(self).key_seq() == Seq::<Seq<char>>::empty(),
    {
        let mut map: StrMap<BlobLocation> = StrMap::new();
        proof {
            use_type_invariant(&map);
        }
        std::mem::swap(&mut map, &mut self.map);
        map.clear();
        proof {
            use_type_invariant(&map);
        }
        self.map = map;
        assert(self@ =~= Map::<Seq<char>, LocView>::empty());
    }
    /// The keys, in entry order.
    pub fn keys(&self) -> (r: Vec<&String>)
        ensures
            self.lists_entries(),
            r@.len() == self.key_seq().len(),
            forall|i: int| 0 <= i < r@.len() ==> #[trigger] r@[i]@ == self.key_seq()[i],
    {
        proof {
            use_type_invariant(self);
            self.lemma_entries();
        }
        let mut out: Vec<&String> = Vec::new();
        let n = self.map.len();
        let mut i: usize = 0;
        while i < n
            invariant
                n == self.key_seq().len(),
                i <= n,
                out@.len() == i,
                forall|j: int| 0 <= j < i ==> #[trigger] out@[j]@ == self.key_seq()[j],
            decreases n - i,
        {
            out.push(self.map.key_at(i));
            i = i + 1;
        }
        out
    }

    /// The entries, in entry order.
    pub fn iter(&self) -> (r: Vec<(&String, &BlobLocation)>)
        ensures
            self.lists_entries(),
            r@.len() == self.key_seq().len(),
            forall|i: int|
                0 <= i < r@.len() ==> #[trigger] r@[i].0@ == self.key_seq()[i] && r@[i].1@
                    == self.loc_seq()[i],
    {
        proof {
            use_type_invariant(self);
            self.lemma_entries();
        }
        let mut out: Vec<(&String, &BlobLocation)> = Vec::new();
        let n = self.map.len();
        let mut i: usize = 0;
        proof {
            use_type_invariant(&self.map);
            self.map.lemma_view();
        }
        while i < n
            invariant
                n == self.key_seq().len(),
                n == self.map.value_seq().len(),
                i <= n,
                out@.len() == i,
                forall|j: int|
                    0 <= j < i ==> #[trigger] out@[j].0@ == self.key_seq()[j] && out@[j].1@
                        == self.loc_seq()[j],
            decreases n - i,
        {
            assert(self.loc_seq()[i as int] == self.map.value_seq()[i as int]@);
            out.push((self.map.key_at(i), self.map.value_at(i)));
            i = i + 1;
        }
        out
    }

    /// Whether `key` has an entry that has expired at `now`.
    pub open spec fn key_expired(&self, key: Seq<char>, now: u64) -> bool {
        self@.contains_key(key) && expired(self@[key], now)
    }

    /// What a lookup of `key` that skips expired entries gives at `now`.
    pub open spec fn valid_lookup(&self, key: Seq<char>, now: u64, r: Option<LocView>) -> bool {
        match r {
            Some(l) => self@.contains_key(key) && !expired(self@[key], now) && l == self@[key],
            None => !self@.contains_key(key) || expired(self@[key], now),
        }
    }

    /// Whether `key` has an entry that has expired at time `now`.
    pub fn is_expired_at(&self, key: &str, now: u64) -> (r: bool)
        ensures
            r == self.key_expired(key@, now),
    {
        match self.map.get(key) {
            Some(loc) => match loc.expires_at {
                Some(e) => now > e,
                None => false,
            },
            None => false,
        }
    }

    /// Whether `key` has an entry that has expired by now.
    pub fn is_expired(&self, key: &str) -> (r: bool)
        ensures
            exists|now: u64| r == #[trigger] self.key_expired(key@, now),
    {
        let now = now_millis();
        let r = self.is_expired_at(key, now);
        assert(r == self.key_expired(key@, now));
        r
    }

    /// The location of `key` unless its entry has expired at time `now`.
    pub fn get_if_valid_at(&self, key: &str, now: u64) -> (r: Option<&BlobLocation>)
        ensures
            self.valid_lookup(key@, now, opt_loc_view(r)),
    {
        if self.is_expired_at(key, now) {
            return None;
        }
        self.map.get(key)
    }

    /// The location of `key` unless its entry has expired by now.
    pub fn get_if_valid(&self, key: &str) -> (r: Option<&BlobLocation>)
        ensures
            exists|now: u64| #[trigger] self.valid_lookup(key@, now, opt_loc_view(r)),
    {
        let now = now_millis();
        let r = self.get_if_valid_at(key, now);
        assert(self.valid_lookup(key@, now, opt_loc_view(r)));
        r
    }

    /// Removes every entry that has expired at time `now`; returns how many were removed.
    /// The remaining entries keep their order.
    pub fn cleanup_expired_at(&mut self, now: u64) -> (r: usize)
        ensures
            final(self)@ == live_entries(old(self)@, now),
            r == old(self)@.len() - final(self)@.len(),
            r == count_expired(old(self).loc_seq(), now, old(self).loc_seq().len() as int),
    {
        proof {
            use_type_invariant(&self.map);
            self.map.lemma_view();
            self.lemma_entries();
        }
        let ghost keys = self.key_seq();
        let ghost locs = self.loc_seq();
        let n = self.map.len();
        let mut kept: StrMap<BlobLocation> = StrMap::new();
        let mut removed: usize = 0;
        let mut i: usize = 0;
        while i < n
            invariant
                n == keys.len(),
                n == locs.len(),
                keys == self.key_seq(),
                locs == self.loc_seq(),
                keys.no_duplicates(),
                self.map.value_seq().len() == n,
                i <= n,
                removed as nat == count_expired(locs, now, i as int),
                removed <= i,
                kept@.len() + removed == i,
                forall|k: Seq<char>|
                    #[trigger] kept@.contains_key(k) <==> exists|j: int|
                        0 <= j < i && keys[j] == k && !expired(locs[j], now),
                forall|j: int|
                    0 <= j < i && !expired(locs[j], now) ==> #[trigger] kept@[keys[j]]@
                        == locs[j],
            decreases n - i,
        {
            proof {
                use_type_invariant(&kept);
                kept.lemma_view();
            }
            let loc = self.map.value_at(i);
            let live = match loc.expires_at {
                Some(e) => !(now > e),
                None => true,
            };
            let ghost ki = keys[i as int];
            assert(loc@ == locs[i as int]);
            if live {
                let key = self.map.key_at(i).clone();
                proof {
                    assert(!kept@.contains_key(ki)) by {
                        if kept@.contains_key(ki) {
                            let j = choose|j: int|
                                0 <= j < i && keys[j] == ki && !expired(locs[j], now);
                            assert(keys[j] == keys[i as int]);
                        }
                    }
                }
                kept.insert(key, loc.clone());
                proof {
                    assert forall|j: int|
                        0 <= j < i + 1 && !expired(locs[j], now) implies #[trigger] kept@[keys[j]]@
                        == locs[j] by {
                        if j < i {
                            assert(keys[j] != ki);
                        }
                    }
                    assert forall|k: Seq<char>|
                        #[trigger] kept@.contains_key(k) <==> exists|j: int|
                            0 <= j < i + 1 && keys[j] == k && !expired(locs[j], now) by {
                        if k == ki {
                            assert(keys[i as int] == k);
                        }
                    }
                }
            } else {
                removed = removed + 1;
                proof {
                    assert forall|k: Seq<char>|
                        #[trigger] kept@.contains_key(k) <==> exists|j: int|
                            0 <= j < i + 1 && keys[j] == k && !expired(locs[j], now) by {
                        if exists|j: int| 0 <= j < i + 1 && keys[j] == k && !expired(locs[j], now) {
                            let j = choose|j: int|
                                0 <= j < i + 1 && keys[j] == k && !expired(locs[j], now);
                            assert(j != i);
                        }
                    }
                }
            }
            i = i + 1;
        }
        let ghost old_view = self@;
        proof {
            use_type_invariant(&kept);
        }
        self.map = kept;
        proof {
            assert forall|k: Seq<char>| #[trigger] self@.contains_key(k) implies live_entries(
                old_view,
                now,
            ).contains_key(k) && self@[k] == live_entries(old_view, now)[k] by {
                let j = choose|j: int| 0 <= j < n && keys[j] == k && !expired(locs[j], now);
                assert(old_view[keys[j]] == locs[j]);
            }
            assert forall|k: Seq<char>| #[trigger] live_entries(old_view, now).contains_key(k) implies self@.contains_key(
                k,
            ) by {
                assert(keys.to_set().contains(k));
                let j = choose|j: int| 0 <= j < keys.len() && keys[j] == k;
                assert(old_view[keys[j]] == locs[j]);
            }
            assert(self@ =~= live_entries(old_view, now));
            assert(self@.dom() =~= kept@.dom());
        }
        removed
    }

    /// Removes every entry that has expired by now; returns how many were removed.
    pub fn cleanup_expired(&mut self) -> (r: usize)
        ensures
            exists|now: u64| final(self)@ == #[trigger] live_entries(old(self)@, now),
            r == old(self)@.len() - final(self)@.len(),
    {
        let now = now_millis();
        let r = self.cleanup_expired_at(now);
        assert(self@ == live_entries(old(self)@, now));
        r
    }

    /// The keys that carry a TTL, with their expiry times, in entry order.
    pub fn keys_with_ttl(&self) -> (r: Vec<(&String, u64)>)
        ensures
            self.lists_entries(),
            r@.map_values(|p: (&String, u64)| (p.0@, p.1)) == ttl_pairs(
                self.key_seq(),
                self.loc_seq(),
                self.key_seq().len() as int,
            ),
    {
        proof {
            use_type_invariant(self);
            self.lemma_entries();
        }
        proof {
            use_type_invariant(&self.map);
            self.map.lemma_view();
        }
        let mut out: Vec<(&String, u64)> = Vec::new();
        let n = self.map.len();
        let mut i: usize = 0;
        while i < n
            invariant
                n == self.key_seq().len(),
                n == self.map.value_seq().len(),
                i <= n,
                out@.map_values(|p: (&String, u64)| (p.0@, p.1)) == ttl_pairs(
                    self.key_seq(),
                    self.loc_seq(),
                    i as int,
                ),
            decreases n - i,
        {
            let loc = self.map.value_at(i);
            let ghost before = out@;
            match loc.expires_at {
                Some(e) => {
                    out.push((self.map.key_at(i), e));
                    assert(out@.map_values(|p: (&String, u64)| (p.0@, p.1)) =~= before.map_values(
                        |p: (&String, u64)| (p.0@, p.1),
                    ).push((self.key_seq()[i as int], e)));
                },
                None => {},
            }
            i = i + 1;
        }
        out
    }
}

} // verus!
