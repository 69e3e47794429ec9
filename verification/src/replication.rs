//! Cross-datacenter replication: vector clocks, replication events, their
//! conflict resolution, and per-datacenter replication status.
//!
//! Timestamps are nanoseconds since the Unix epoch. Events are handed to
//! the transport (a channel, outside the library) by the caller; the manager
//! keeps the list of events it queued.

use crate::clock::now_nanos;
use crate::ids::{is_hyphenated_uuid, new_uuid_string};
use crate::strmap::StrMap;
use vstd::prelude::*;

verus! {

/// Datacenter identifier
pub type DatacenterId = String;

/// The logical time of `dc` in the clock `m` (zero if it has none).
pub open spec fn clock_at(m: Map<Seq<char>, u64>, dc: Seq<char>) -> u64 {
    if m.contains_key(dc) {
        m[dc]
    } else {
        0
    }
}

/// Whether the clock `a` dominates `b` (happened after it): for every
/// datacenter, a missing one counting as time zero, `a` is at least as far
/// as `b`, and for one of them strictly further. (A datacenter `b` does not
/// record is at time zero in `b`, so only those it records can hold `a` back.)
pub open spec fn clock_dominates(a: Map<Seq<char>, u64>, b: Map<Seq<char>, u64>) -> bool {
    &&& forall|dc: Seq<char>| #[trigger] b.contains_key(dc) ==> clock_at(a, dc) >= b[dc]
    &&& exists|dc: Seq<char>| #[trigger] clock_at(a, dc) > clock_at(b, dc)
}

/// The larger of two times.
pub open spec fn max_u64(x: u64, y: u64) -> u64 {
    if x >= y {
        x
    } else {
        y
    }
}

/// The clock `a` after merging `b` into it: each datacenter that `b`
/// records gets the larger of the two times; the others keep theirs.
pub open spec fn clock_merge(a: Map<Seq<char>, u64>, b: Map<Seq<char>, u64>) -> Map<
    Seq<char>,
    u64,
> {
    Map::new(
        |dc: Seq<char>| a.contains_key(dc) || b.contains_key(dc),
        |dc: Seq<char>|
            if b.contains_key(dc) {
                max_u64(clock_at(a, dc), b[dc])
            } else {
                a[dc]
            },
    )
}

/// Vector clock for causality tracking
pub struct VectorClock {
    /// Map of datacenter ID to logical timestamp
    pub clocks: StrMap<u64>,
}

impl View for VectorClock {
    type V = Map<Seq<char>, u64>;

    open spec fn view(&self) -> Map<Seq<char>, u64> {
        self.clocks@
    }
}

impl VectorClock {
    /// A clock that records no datacenter.
    pub fn new() -> (r: Self)
        ensures
            r@ == Map::<Seq<char>, u64>::empty(),
    {
        VectorClock { clocks: StrMap::new() }
    }

    /// Advances the time of `dc` by one.
    pub fn increment(&mut self, dc: &DatacenterId)
        requires
            clock_at(old(self)@, dc@) < u64::MAX,
        ensures
            final(self)@ == old(self)@.insert(dc@, (clock_at(old(self)@, dc@) + 1) as u64),
    {
        let t = self.get(dc);
        self.clocks.insert(dc.clone(), t + 1);
    }

    /// Merges `other` into this clock, keeping the larger time of each datacenter.
    pub fn merge(&mut self, other: &VectorClock)
        ensures
            final(self)@ == clock_merge(old(self)@, other@),
    {
        proof {
            use_type_invariant(&other.clocks);
            other.clocks.lemma_view();
        }
        let n = other.clocks.len();
        let ghost ks = other.clocks.key_seq();
        let ghost a = self@;
        let mut i: usize = 0;
        while i < n
            invariant
                n == ks.len(),
                ks == other.clocks.key_seq(),
                ks.no_duplicates(),
                other.clocks.value_seq().len() == n,
                forall|j: int| 0 <= j < n ==> #[trigger] other@[ks[j]] == other.clocks.value_seq()[j],
                other@.dom() == ks.to_set(),
                i <= n,
                forall|dc: Seq<char>|
                    #[trigger] self@.contains_key(dc) <==> (a.contains_key(dc) || exists|j: int|
                        0 <= j < i && ks[j] == dc),
                forall|dc: Seq<char>|
                    #[trigger] self@.contains_key(dc) ==> self@[dc] == if exists|j: int|
                        0 <= j < i && ks[j] == dc {
                        max_u64(clock_at(a, dc), other@[dc])
                    } else {
                        a[dc]
                    },
            decreases n - i,
        {
            let dc = other.clocks.key_at(i);
            let ts = *other.clocks.value_at(i);
            let cur = self.get(dc);
            let m = if cur >= ts {
                cur
            } else {
                ts
            };
            let ghost k = ks[i as int];
            let ghost before = self@;
            proof {
                assert(!(exists|j: int| 0 <= j < i && ks[j] == k)) by {
                    if exists|j: int| 0 <= j < i && ks[j] == k {
                        let j = choose|j: int| 0 <= j < i && ks[j] == k;
                        assert(ks[j] == ks[i as int]);
                    }
                }
                assert(cur == clock_at(a, k));
            }
            self.clocks.insert(dc.clone(), m);
            proof {
                assert forall|d: Seq<char>| #[trigger] self@.contains_key(d) <==> (a.contains_key(d)
                    || exists|j: int| 0 <= j < i + 1 && ks[j] == d) by {
                    if d == k {
                        assert(ks[i as int] == d);
                    }
                    if exists|j: int| 0 <= j < i + 1 && ks[j] == d {
                        if d != k {
                            let j = choose|j: int| 0 <= j < i + 1 && ks[j] == d;
                            assert(j != i);
                        }
                    }
                }
                assert forall|d: Seq<char>| #[trigger] self@.contains_key(d) implies self@[d] == if exists|
                    j: int,
                | 0 <= j < i + 1 && ks[j] == d {
                    max_u64(clock_at(a, d), other@[d])
                } else {
                    a[d]
                } by {
                    if d == k {
                        assert(ks[i as int] == d);
                    } else {
                        if exists|j: int| 0 <= j < i + 1 && ks[j] == d {
                            let j = choose|j: int| 0 <= j < i + 1 && ks[j] == d;
                            assert(j != i);
                            assert(exists|j: int| 0 <= j < i && ks[j] == d);
                        }
                    }
                }
            }
            i = i + 1;
        }
        proof {
            let target = clock_merge(a, other@);
            assert forall|d: Seq<char>| #[trigger] other@.contains_key(d) <==> exists|j: int|
                0 <= j < n && ks[j] == d by {
                if other@.contains_key(d) {
                    assert(ks.to_set().contains(d));
                }
            }
            assert(self@ =~= target);
        }
    }

    /// Whether neither clock dominates the other.
    pub fn is_concurrent(&self, other: &VectorClock) -> (r: bool)
        ensures
            r == (!clock_dominates(self@, other@) && !clock_dominates(other@, self@)),
    {
        let self_dominates = self.dominates(other);
        let other_dominates = other.dominates(self);
        !self_dominates && !other_dominates
    }

    /// Whether this clock dominates `other` (happened after it): no
    /// datacenter is behind `other`'s time for it and one is ahead, a
    /// datacenter a clock does not record counting as time zero.
    pub fn dominates(&self, other: &VectorClock) -> (r: bool)
        ensures
            r == clock_dominates(self@, other@),
    {
        proof {
            use_type_invariant(&other.clocks);
            other.clocks.lemma_view();
            use_type_invariant(&self.clocks);
            self.clocks.lemma_view();
        }
        let n = other.clocks.len();
        let ghost ks = other.clocks.key_seq();
        let mut dominated = false;
        let mut i: usize = 0;
        while i < n
            invariant
                n == ks.len(),
                ks == other.clocks.key_seq(),
                other.clocks.value_seq().len() == n,
                forall|j: int| 0 <= j < n ==> #[trigger] other@[ks[j]] == other.clocks.value_seq()[j],
                other@.dom() == ks.to_set(),
                i <= n,
                forall|j: int| 0 <= j < i ==> clock_at(self@, #[trigger] ks[j]) >= other@[ks[j]],
                dominated ==> exists|dc: Seq<char>| #[trigger] clock_at(self@, dc) > clock_at(other@, dc),
                !dominated ==> forall|j: int| 0 <= j < i ==> clock_at(self@, #[trigger] ks[j]) <= other@[ks[j]],
            decreases n - i,
        {
            let dc = other.clocks.key_at(i);
            let ts = *other.clocks.value_at(i);
            let self_ts = self.get(dc);
            proof {
                assert(other@.contains_key(ks[i as int]));
            }
            if self_ts < ts {
                return false;
            }
            if self_ts > ts {
                assert(clock_at(self@, ks[i as int]) > clock_at(other@, ks[i as int]));
                dominated = true;
            }
            i = i + 1;
        }
        proof {
            assert forall|dc: Seq<char>| #[trigger] other@.contains_key(dc) implies clock_at(self@, dc)
                >= other@[dc] by {
                assert(ks.to_set().contains(dc));
                let j = choose|j: int| 0 <= j < ks.len() && ks[j] == dc;
            }
        }
        let m = self.clocks.len();
        let ghost sk = self.clocks.key_seq();
        let mut k: usize = 0;
        while k < m
            invariant
                m == sk.len(),
                sk == self.clocks.key_seq(),
                self.clocks.value_seq().len() == m,
                forall|j: int| 0 <= j < m ==> #[trigger] self@[sk[j]] == self.clocks.value_seq()[j],
                self@.dom() == sk.to_set(),
                n == ks.len(),
                other@.dom() == ks.to_set(),
                forall|j: int| 0 <= j < n ==> clock_at(self@, #[trigger] ks[j]) <= other@[ks[j]] || dominated,
                k <= m,
                dominated ==> exists|dc: Seq<char>| #[trigger] clock_at(self@, dc) > clock_at(other@, dc),
                !dominated ==> forall|j: int| 0 <= j < k ==> clock_at(self@, #[trigger] sk[j]) <= clock_at(other@, sk[j]),
            decreases m - k,
        {
            let dc = self.clocks.key_at(k);
            let ts = *self.clocks.value_at(k);
            proof {
                assert(self@.contains_key(sk[k as int]));
            }
            if ts > 0 && !other.clocks.contains_key(dc.as_str()) {
                assert(clock_at(self@, sk[k as int]) > clock_at(other@, sk[k as int]));
                dominated = true;
            } else if !dominated {
                if other.clocks.contains_key(dc.as_str()) {
                    proof {
                        assert(ks.to_set().contains(sk[k as int]));
                        let j = choose|j: int| 0 <= j < ks.len() && ks[j] == sk[k as int];
                        assert(clock_at(self@, ks[j]) <= other@[ks[j]]);
                    }
                }
            }
            k = k + 1;
        }
        proof {
            if !dominated {
                assert forall|dc: Seq<char>| !(#[trigger] clock_at(self@, dc) > clock_at(other@, dc)) by {
                    if self@.contains_key(dc) {
                        assert(sk.to_set().contains(dc));
                        let j = choose|j: int| 0 <= j < sk.len() && sk[j] == dc;
                    }
                }
            }
        }
        dominated
    }

    /// The time of `dc` (zero if this clock does not record it).
    pub fn get(&self, dc: &DatacenterId) -> (r: u64)
        ensures
            r == clock_at(self@, dc@),
    {
        match self.clocks.get(dc.as_str()) {
            Some(t) => *t,
            None => 0,
        }
    }

    /// A copy of this clock.
    pub fn duplicate(&self) -> (r: Self)
        ensures
            r@ == self@,
    {
        proof {
            use_type_invariant(&self.clocks);
            self.clocks.lemma_view();
        }
        let mut out = VectorClock::new();
        let n = self.clocks.len();
        let ghost ks = self.clocks.key_seq();
        let mut i: usize = 0;
        while i < n
            invariant
                n == ks.len(),
                ks == self.clocks.key_seq(),
                ks.no_duplicates(),
                self.clocks.value_seq().len() == n,
                forall|j: int| 0 <= j < n ==> #[trigger] self@[ks[j]] == self.clocks.value_seq()[j],
                self@.dom() == ks.to_set(),
                i <= n,
                forall|dc: Seq<char>|
                    #[trigger] out@.contains_key(dc) <==> exists|j: int| 0 <= j < i && ks[j] == dc,
                forall|dc: Seq<char>| #[trigger] out@.contains_key(dc) ==> out@[dc] == self@[dc],
            decreases n - i,
        {
            let dc = self.clocks.key_at(i).clone();
            let t = *self.clocks.value_at(i);
            let ghost k = ks[i as int];
            let ghost before = out@;
            assert(dc@ == k);
            assert(t == self@[k]);
            out.clocks.insert(dc, t);
            proof {
                assert(out@ == before.insert(k, t));
                assert forall|d: Seq<char>| #[trigger] out@.contains_key(d) implies out@[d] == self@[d] by {
                    if d != k {
                        assert(before.contains_key(d));
                    }
                }
                assert forall|d: Seq<char>| #[trigger] out@.contains_key(d) <==> exists|j: int|
                    0 <= j < i + 1 && ks[j] == d by {
                    if d == k {
                        assert(ks[i as int] == d);
                    }
                    if exists|j: int| 0 <= j < i + 1 && ks[j] == d {
                        if d != k {
                            let j = choose|j: int| 0 <= j < i + 1 && ks[j] == d;
                            assert(j != i);
                        }
                    }
                }
            }
            i = i + 1;
        }
        proof {
            assert forall|d: Seq<char>| #[trigger] self@.contains_key(d) implies out@.contains_key(d) by {
                assert(ks.to_set().contains(d));
                let j = choose|j: int| 0 <= j < ks.len() && ks[j] == d;
            }
            assert(out@ =~= self@);
        }
        out
    }
}

/// Merging clocks does not depend on the order: merging `b` into `a` gives
/// the same clock as merging `a` into `b`.
pub proof fn lemma_merge_commutative(a: Map<Seq<char>, u64>, b: Map<Seq<char>, u64>)
    ensures
        clock_merge(a, b) == clock_merge(b, a),
{
    assert(clock_merge(a, b) =~= clock_merge(b, a));
}

/// Merging is associative.
pub proof fn lemma_merge_associative(
    a: Map<Seq<char>, u64>,
    b: Map<Seq<char>, u64>,
    c: Map<Seq<char>, u64>,
)
    ensures
        clock_merge(clock_merge(a, b), c) == clock_merge(a, clock_merge(b, c)),
{
    assert(clock_merge(clock_merge(a, b), c) =~= clock_merge(a, clock_merge(b, c)));
}

/// Merging a clock with itself changes nothing.
pub proof fn lemma_merge_idempotent(a: Map<Seq<char>, u64>)
    ensures
        clock_merge(a, a) == a,
{
    assert(clock_merge(a, a) =~= a);
}

/// The merge of two clocks is at least as far as each of them, for every datacenter.
pub proof fn lemma_merge_upper_bound(a: Map<Seq<char>, u64>, b: Map<Seq<char>, u64>, dc: Seq<char>)
    ensures
        clock_at(clock_merge(a, b), dc) >= clock_at(a, dc),
        clock_at(clock_merge(a, b), dc) >= clock_at(b, dc),
{
}

/// No clock dominates itself.
pub proof fn lemma_dominates_irreflexive(a: Map<Seq<char>, u64>)
    ensures
        !clock_dominates(a, a),
{
}

/// Two clocks never dominate each other.
pub proof fn lemma_dominates_antisymmetric(a: Map<Seq<char>, u64>, b: Map<Seq<char>, u64>)
    ensures
        !(clock_dominates(a, b) && clock_dominates(b, a)),
{
    if clock_dominates(a, b) && clock_dominates(b, a) {
        let dc = choose|dc: Seq<char>| #[trigger] clock_at(a, dc) > clock_at(b, dc);
        assert(a.contains_key(dc));
        assert(clock_at(b, dc) >= a[dc]);
    }
}

/// Domination is transitive.
pub proof fn lemma_dominates_transitive(
    a: Map<Seq<char>, u64>,
    b: Map<Seq<char>, u64>,
    c: Map<Seq<char>, u64>,
)
    requires
        clock_dominates(a, b),
        clock_dominates(b, c),
    ensures
        clock_dominates(a, c),
{
    assert forall|dc: Seq<char>| #[trigger] c.contains_key(dc) implies clock_at(a, dc) >= c[dc] by {
        if b.contains_key(dc) {
            assert(clock_at(a, dc) >= b[dc]);
        }
    }
    let dc = choose|dc: Seq<char>| #[trigger] clock_at(a, dc) > clock_at(b, dc);
    if b.contains_key(dc) {
        assert(clock_at(a, dc) >= b[dc]);
    }
    if c.contains_key(dc) {
        assert(clock_at(b, dc) >= c[dc]);
    }
    assert(clock_at(a, dc) > clock_at(c, dc));
}

/// Advancing a datacenter that a clock records makes the new clock dominate the old one.
pub proof fn lemma_increment_dominates(a: Map<Seq<char>, u64>, dc: Seq<char>)
    requires
        a.contains_key(dc),
        a[dc] < u64::MAX,
    ensures
        clock_dominates(a.insert(dc, (a[dc] + 1) as u64), a),
{
    let n = a.insert(dc, (a[dc] + 1) as u64);
    assert(clock_at(n, dc) > clock_at(a, dc));
}

/// Conflict resolution strategy
#[derive(Debug, Clone, Copy, PartialEq, Eq, Structural)]
pub enum ConflictResolution {
    /// Last write wins based on timestamp
    LastWriteWins,
    /// Use vector clocks for causality tracking
    VectorClock,
    /// Always prefer local datacenter writes
    LocalFirst,
    /// Always prefer primary datacenter writes
    PrimaryFirst,
}

impl Default for ConflictResolution {
    fn default() -> (r: Self)
        ensures
            r == ConflictResolution::LastWriteWins,
    {
        ConflictResolution::LastWriteWins
    }
}

/// Remote datacenter configuration
pub struct RemoteDatacenter {
    /// Datacenter ID
    pub id: DatacenterId,
    /// Datacenter name (human-readable)
    pub name: String,
    /// Coordinator endpoints in this DC
    pub endpoints: Vec<String>,
    /// Priority for failover (lower is higher priority)
    pub priority: u32,
    /// Region/location
    pub region: String,
    /// Whether this DC is read-only
    pub read_only: bool,
}

/// Replication configuration
pub struct ReplicationConfig {
    /// This datacenter's ID
    pub local_dc: DatacenterId,
    /// Remote datacenters to replicate to
    pub remote_dcs: Vec<RemoteDatacenter>,
    /// Conflict resolution strategy
    pub conflict_resolution: ConflictResolution,
    /// Enable async replication
    pub async_replication: bool,
    /// Replication batch size
    pub batch_size: usize,
    /// Replication interval (milliseconds)
    pub replication_interval_ms: u64,
    /// Maximum replication lag before alerting (seconds)
    pub max_lag_secs: u64,
}

fn default_true() -> (r: bool)
    ensures
        r,
{
    true
}

fn default_batch_size() -> (r: usize)
    ensures
        r == 100,
{
    100
}

fn default_replication_interval() -> (r: u64)
    ensures
        r == 1000,
{
    1000
}

fn default_max_lag() -> (r: u64)
    ensures
        r == 60,
{
    60
}

impl Default for ReplicationConfig {
    fn default() -> (r: Self)
        ensures
            r.local_dc@ == "dc1"@,
            r.remote_dcs@.len() == 0,
            r.conflict_resolution == ConflictResolution::LastWriteWins,
            r.async_replication,
            r.batch_size == 100,
            r.replication_interval_ms == 1000,
            r.max_lag_secs == 60,
    {
        ReplicationConfig {
            local_dc: "dc1".to_owned(),
            remote_dcs: Vec::new(),
            conflict_resolution: ConflictResolution::default(),
            async_replication: default_true(),
            batch_size: default_batch_size(),
            replication_interval_ms: default_replication_interval(),
            max_lag_secs: default_max_lag(),
        }
    }
}

/// Type of replication event
#[derive(Debug, Clone, Copy, PartialEq, Eq, Structural)]
pub enum ReplicationEventType {
    Put,
    Delete,
    Snapshot,
}

/// Replication event to be sent to remote datacenters
pub struct ReplicationEvent {
    /// Event ID (UUID)
    pub id: String,
    /// Source datacenter
    pub source_dc: DatacenterId,
    /// Event type
    pub event_type: ReplicationEventType,
    /// Key affected
    pub key: String,
    /// Value (for put operations)
    pub value: Option<Vec<u8>>,
    /// Timestamp, in nanoseconds since the epoch
    pub timestamp: i64,
    /// Vector clock (if using vector clocks)
    pub vector_clock: Option<VectorClock>,
    /// Tenant
    pub tenant: Option<String>,
}

/// A datacenter counts as healthy when its status says so and its lag is
/// within `max_lag_secs`.
pub open spec fn status_ok(s: ReplicationStatus, max_lag_secs: u64) -> bool {
    s.healthy && s.lag_secs <= max_lag_secs
}

/// Replication status for a remote datacenter
pub struct ReplicationStatus {
    /// Datacenter ID
    pub dc_id: DatacenterId,
    /// Last replicated event ID
    pub last_replicated_id: Option<String>,
    /// Last replicated timestamp, in nanoseconds since the epoch
    pub last_replicated_at: Option<i64>,
    /// Current replication lag (seconds)
    pub lag_secs: u64,
    /// Events pending replication
    pub pending_events: usize,
    /// Is replication healthy
    pub healthy: bool,
    /// Last error (if any)
    pub last_error: Option<String>,
}

fn clone_opt_string(s: &Option<String>) -> (r: Option<String>)
    ensures
        r == *s,
{
    match s {
        Some(x) => Some(x.clone()),
        None => None,
    }
}

impl Clone for ReplicationStatus {
    fn clone(&self) -> (r: Self)
        ensures
            r == *self,
    {
        ReplicationStatus {
            dc_id: self.dc_id.clone(),
            last_replicated_id: clone_opt_string(&self.last_replicated_id),
            last_replicated_at: self.last_replicated_at,
            lag_secs: self.lag_secs,
            pending_events: self.pending_events,
            healthy: self.healthy,
            last_error: clone_opt_string(&self.last_error),
        }
    }
}

/// Whether `s` is the status a datacenter starts with: nothing replicated,
/// no lag, nothing pending, healthy, no error.
pub open spec fn is_initial_status(s: ReplicationStatus, dc: Seq<char>) -> bool {
    &&& s.dc_id@ == dc
    &&& s.last_replicated_id is None
    &&& s.last_replicated_at is None
    &&& s.lag_secs == 0
    &&& s.pending_events == 0
    &&& s.healthy
    &&& s.last_error is None
}

/// Whether `dc` is the primary datacenter ("dc1" by convention).
pub open spec fn is_primary(dc: Seq<char>) -> bool {
    dc == "dc1"@
}

/// Whether the later-or-equal timestamp rule keeps the local event.
pub open spec fn local_is_newer(local: ReplicationEvent, remote: ReplicationEvent) -> bool {
    local.timestamp >= remote.timestamp
}

/// Whether conflict resolution under `strategy` keeps the local event.
pub open spec fn prefers_local(
    strategy: ConflictResolution,
    local: ReplicationEvent,
    remote: ReplicationEvent,
) -> bool {
    match strategy {
        ConflictResolution::LastWriteWins => local_is_newer(local, remote),
        ConflictResolution::VectorClock => match (local.vector_clock, remote.vector_clock) {
            (Some(lv), Some(rv)) => if clock_dominates(lv@, rv@) {
                true
            } else if clock_dominates(rv@, lv@) {
                false
            } else {
                local_is_newer(local, remote)
            },
            _ => local_is_newer(local, remote),
        },
        ConflictResolution::LocalFirst => true,
        ConflictResolution::PrimaryFirst => if is_primary(local.source_dc@) {
            true
        } else if is_primary(remote.source_dc@) {
            false
        } else {
            local_is_newer(local, remote)
        },
    }
}

fn is_primary_dc(dc: &String) -> (r: bool)
    ensures
        r == is_primary(dc@),
{
    let primary = "dc1".to_owned();
    *dc == primary
}

/// Cross-datacenter replication manager
pub struct ReplicationManager {
    config: ReplicationConfig,
    pending_events: Vec<ReplicationEvent>,
    status: StrMap<ReplicationStatus>,
    shutdown: bool,
}

impl ReplicationManager {
    /// The configuration.
    pub closed spec fn config_view(&self) -> ReplicationConfig {
        self.config
    }

    /// The status of each remote datacenter.
    pub closed spec fn status_view(&self) -> Map<Seq<char>, ReplicationStatus> {
        self.status@
    }

    /// The statuses in the order of the configured datacenters.
    pub closed spec fn status_seq(&self) -> Seq<ReplicationStatus> {
        self.status.value_seq()
    }

    /// The datacenters with a status, in the order of `status_seq`.
    pub closed spec fn status_dcs(&self) -> Seq<Seq<char>> {
        self.status.key_seq()
    }

    /// Whether `status_seq` lists the status of each datacenter once, in the
    /// order of `status_dcs`.
    pub open spec fn lists_statuses(&self) -> bool {
        &&& self.status_dcs().len() == self.status_seq().len()
        &&& self.status_dcs().no_duplicates()
        &&& self.status_dcs().to_set() == self.status_view().dom()
        &&& forall|i: int|
            0 <= i < self.status_dcs().len() ==> self.status_view()[#[trigger] self.status_dcs()[i]]
                == self.status_seq()[i]
    }

    /// The events queued for replication, oldest first.
    pub closed spec fn pending_view(&self) -> Seq<ReplicationEvent> {
        self.pending_events@
    }

    /// Whether the manager was shut down.
    pub closed spec fn is_shut_down(&self) -> bool {
        self.shutdown
    }

    /// A manager for `config`: every remote datacenter starts with the initial status.
    pub fn new(config: ReplicationConfig) -> (r: Self)
        ensures
            r.config_view() == config,
            r.pending_view().len() == 0,
            !r.is_shut_down(),
            forall|dc: Seq<char>|
                #[trigger] r.status_view().contains_key(dc) <==> exists|i: int|
                    0 <= i < config.remote_dcs@.len() && config.remote_dcs@[i].id@ == dc,
            forall|dc: Seq<char>|
                #[trigger] r.status_view().contains_key(dc) ==> is_initial_status(
                    r.status_view()[dc],
                    dc,
                ),
    {
        let mut status: StrMap<ReplicationStatus> = StrMap::new();
        let n = config.remote_dcs.len();
        let mut i: usize = 0;
        while i < n
            invariant
                n == config.remote_dcs@.len(),
                i <= n,
                forall|dc: Seq<char>|
                    #[trigger] status@.contains_key(dc) <==> exists|j: int|
                        0 <= j < i && config.remote_dcs@[j].id@ == dc,
                forall|dc: Seq<char>|
                    #[trigger] status@.contains_key(dc) ==> is_initial_status(status@[dc], dc),
            decreases n - i,
        {
            let id = &config.remote_dcs[i].id;
            let st = ReplicationStatus {
                dc_id: id.clone(),
                last_replicated_id: None,
                last_replicated_at: None,
                lag_secs: 0,
                pending_events: 0,
                healthy: true,
                last_error: None,
            };
            let ghost k = id@;
            status.insert(id.clone(), st);
            proof {
                assert forall|dc: Seq<char>| #[trigger] status@.contains_key(dc) <==> exists|j: int|
                    0 <= j < i + 1 && config.remote_dcs@[j].id@ == dc by {
                    if dc == k {
                        assert(config.remote_dcs@[i as int].id@ == dc);
                    }
                    if exists|j: int| 0 <= j < i + 1 && config.remote_dcs@[j].id@ == dc {
                        if dc != k {
                            let j = choose|j: int| 0 <= j < i + 1 && config.remote_dcs@[j].id@ == dc;
                            assert(j != i);
                        }
                    }
                }
            }
            i = i + 1;
        }
        ReplicationManager { config, pending_events: Vec::new(), status, shutdown: false }
    }

    /// Records an event that was handed to the transport.
    pub fn push_pending(&mut self, event: ReplicationEvent)
        ensures
            final(self).pending_view() == old(self).pending_view().push(event),
            final(self).config_view() == old(self).config_view(),
            final(self).status_view() == old(self).status_view(),
            final(self).status_dcs() == old(self).status_dcs(),
            final(self).is_shut_down() == old(self).is_shut_down(),
    {
        self.pending_events.push(event);
    }

    /// A PUT event for `key` from this datacenter, with a fresh id and the current time.
    pub fn create_put_event(&self, key: &str, value: Vec<u8>, tenant: Option<String>) -> (r:
        ReplicationEvent)
        ensures
            is_hyphenated_uuid(r.id@),
            r.source_dc == self.config_view().local_dc,
            r.event_type == ReplicationEventType::Put,
            r.key@ == key@,
            r.value == Some(value),
            r.vector_clock is None,
            r.tenant == tenant,
            r.timestamp >= 0,
    {
        ReplicationEvent {
            id: new_uuid_string(),
            source_dc: self.config.local_dc.clone(),
            event_type: ReplicationEventType::Put,
            key: key.to_owned(),
            value: Some(value),
            timestamp: now_nanos(),
            vector_clock: None,
            tenant,
        }
    }

    /// A DELETE event for `key` from this datacenter, with a fresh id and the current time.
    pub fn create_delete_event(&self, key: &str, tenant: Option<String>) -> (r: ReplicationEvent)
        ensures
            is_hyphenated_uuid(r.id@),
            r.source_dc == self.config_view().local_dc,
            r.event_type == ReplicationEventType::Delete,
            r.key@ == key@,
            r.value is None,
            r.vector_clock is None,
            r.tenant == tenant,
            r.timestamp >= 0,
    {
        ReplicationEvent {
            id: new_uuid_string(),
            source_dc: self.config.local_dc.clone(),
            event_type: ReplicationEventType::Delete,
            key: key.to_owned(),
            value: None,
            timestamp: now_nanos(),
            vector_clock: None,
            tenant,
        }
    }

    /// The status of every remote datacenter.
    pub fn get_status(&self) -> (r: Vec<ReplicationStatus>)
        ensures
            r@ == self.status_seq(),
            self.lists_statuses(),
    {
        let mut out: Vec<ReplicationStatus> = Vec::new();
        let n = self.status.len();
        proof {
            use_type_invariant(&self.status);
            self.status.lemma_view();
        }
        let mut i: usize = 0;
        while i < n
            invariant
                n == self.status.key_seq().len(),
                n == self.status.value_seq().len(),
                i <= n,
                out@ == self.status.value_seq().take(i as int),
            decreases n - i,
        {
            out.push(self.status.value_at(i).clone());
            i = i + 1;
            assert(out@ =~= self.status.value_seq().take(i as int));
        }
        assert(self.status.value_seq().take(n as int) =~= self.status.value_seq());
        out
    }

    /// The status of one remote datacenter.
    pub fn get_dc_status(&self, dc_id: &str) -> (r: Option<ReplicationStatus>)
        ensures
            r == (if self.status_view().contains_key(dc_id@) {
                Some(self.status_view()[dc_id@])
            } else {
                None::<ReplicationStatus>
            }),
    {
        match self.status.get(dc_id) {
            Some(s) => Some(s.clone()),
            None => None,
        }
    }

    /// Replaces the status of `dc_id` by what `update` makes of it; nothing
    /// happens for a datacenter without status.
    pub fn update_status<F: FnOnce(ReplicationStatus) -> ReplicationStatus>(
        &mut self,
        dc_id: &str,
        update: F,
    )
        requires
            forall|s: ReplicationStatus| call_requires(update, (s,)),
        ensures
            old(self).status_view().contains_key(dc_id@) ==> exists|n: ReplicationStatus|
                call_ensures(update, (old(self).status_view()[dc_id@],), n)
                    && #[trigger] final(self).status_view() == old(self).status_view().insert(
                    dc_id@,
                    n,
                ),
            !old(self).status_view().contains_key(dc_id@) ==> final(self).status_view() == old(
                self,
            ).status_view(),
            final(self).config_view() == old(self).config_view(),
            final(self).pending_view() == old(self).pending_view(),
            final(self).status_dcs() == old(self).status_dcs(),
    {
        match self.status.find(dc_id) {
            Some(i) => {
                let current = self.status.value_at(i).clone();
                let next = update(current);
                self.status.set_value_at(i, next);
            },
            None => {},
        }
    }

    /// Picks the event that wins a conflict between a local and a remote write.
    pub fn resolve_conflict<'a>(
        &self,
        local: &'a ReplicationEvent,
        remote: &'a ReplicationEvent,
    ) -> (r: &'a ReplicationEvent)
        ensures
            *r == if prefers_local(self.config_view().conflict_resolution, *local, *remote) {
                *local
            } else {
                *remote
            },
    {
        match self.config.conflict_resolution {
            ConflictResolution::LastWriteWins => {
                if local.timestamp >= remote.timestamp {
                    local
                } else {
                    remote
                }
            },
            ConflictResolution::VectorClock => {
                match (&local.vector_clock, &remote.vector_clock) {
                    (Some(local_vc), Some(remote_vc)) => {
                        if local_vc.dominates(remote_vc) {
                            local
                        } else if remote_vc.dominates(local_vc) {
                            remote
                        } else if local.timestamp >= remote.timestamp {
                            local
                        } else {
                            remote
                        }
                    },
                    _ => {
                        if local.timestamp >= remote.timestamp {
                            local
                        } else {
                            remote
                        }
                    },
                }
            },
            ConflictResolution::LocalFirst => local,
            ConflictResolution::PrimaryFirst => {
                if is_primary_dc(&local.source_dc) {
                    local
                } else if is_primary_dc(&remote.source_dc) {
                    remote
                } else if local.timestamp >= remote.timestamp {
                    local
                } else {
                    remote
                }
            },
        }
    }

    /// The configuration.
    pub fn config(&self) -> (r: &ReplicationConfig)
        ensures
            *r == self.config_view(),
    {
        &self.config
    }

    /// Whether every remote datacenter is healthy and within the allowed lag.
    pub fn is_healthy(&self) -> (r: bool)
        ensures
            r == forall|dc: Seq<char>|
                #[trigger] self.status_view().contains_key(dc) ==> status_ok(
                    self.status_view()[dc],
                    self.config_view().max_lag_secs,
                ),
    {
        proof {
            use_type_invariant(&self.status);
            self.status.lemma_view();
        }
        let n = self.status.len();
        let ghost ks = self.status.key_seq();
        let ghost vs = self.status.value_seq();
        let max_lag = self.config.max_lag_secs;
        let mut i: usize = 0;
        while i < n
            invariant
                n == ks.len(),
                ks == self.status.key_seq(),
                vs == self.status.value_seq(),
                n == vs.len(),
                max_lag == self.config_view().max_lag_secs,
                forall|j: int| 0 <= j < n ==> #[trigger] self.status_view()[ks[j]] == vs[j],
                self.status_view().dom() == ks.to_set(),
                i <= n,
                forall|j: int| 0 <= j < i ==> status_ok(#[trigger] vs[j], max_lag),
            decreases n - i,
        {
            let s = self.status.value_at(i);
            if !(s.healthy && s.lag_secs <= max_lag) {
                proof {
                    assert(self.status_view().contains_key(ks[i as int]));
                    assert(self.status_view()[ks[i as int]] == vs[i as int]);
                }
                return false;
            }
            i = i + 1;
        }
        proof {
            assert forall|dc: Seq<char>| #[trigger] self.status_view().contains_key(dc) implies status_ok(
                self.status_view()[dc],
                self.config_view().max_lag_secs,
            ) by {
                assert(ks.to_set().contains(dc));
                let j = choose|j: int| 0 <= j < ks.len() && ks[j] == dc;
                assert(self.status_view()[ks[j]] == vs[j]);
            }
        }
        true
    }

    /// Shuts the manager down.
    pub fn shutdown(&mut self)
        ensures
            final(self).is_shut_down(),
            final(self).config_view() == old(self).config_view(),
            final(self).status_view() == old(self).status_view(),
            final(self).status_dcs() == old(self).status_dcs(),
            final(self).pending_view() == old(self).pending_view(),
    {
        self.shutdown = true;
    }
}

/// Which event conflict resolution keeps, by strategy, in terms of the two
/// events: the later write (the local one on a tie) under last-write-wins;
/// the local one under local-first; under primary-first, an event from the
/// primary datacenter ("dc1"), the local one if both are, and otherwise the
/// later write as under last-write-wins; under vector clocks, the side whose
/// clock dominates, and otherwise the later write.
pub proof fn lemma_resolution_keeps(local: ReplicationEvent, remote: ReplicationEvent)
    ensures
        prefers_local(ConflictResolution::LastWriteWins, local, remote) <==> local.timestamp
            >= remote.timestamp,
        prefers_local(ConflictResolution::LocalFirst, local, remote),
        local.source_dc@ == "dc1"@ ==> prefers_local(ConflictResolution::PrimaryFirst, local, remote),
        local.source_dc@ != "dc1"@ && remote.source_dc@ == "dc1"@ ==> !prefers_local(
            ConflictResolution::PrimaryFirst,
            local,
            remote,
        ),
        local.source_dc@ != "dc1"@ && remote.source_dc@ != "dc1"@ ==> (prefers_local(
            ConflictResolution::PrimaryFirst,
            local,
            remote,
        ) <==> local.timestamp >= remote.timestamp),
        local.source_dc@ != "dc1"@ && remote.source_dc@ != "dc1"@ ==> prefers_local(
            ConflictResolution::PrimaryFirst,
            local,
            remote,
        ) == prefers_local(ConflictResolution::LastWriteWins, local, remote),
        match (local.vector_clock, remote.vector_clock) {
            (Some(lv), Some(rv)) => {
                &&& clock_dominates(lv@, rv@) ==> prefers_local(
                    ConflictResolution::VectorClock,
                    local,
                    remote,
                )
                &&& clock_dominates(rv@, lv@) ==> !prefers_local(
                    ConflictResolution::VectorClock,
                    local,
                    remote,
                )
                &&& (!clock_dominates(lv@, rv@) && !clock_dominates(rv@, lv@)) ==> (prefers_local(
                    ConflictResolution::VectorClock,
                    local,
                    remote,
                ) <==> local.timestamp >= remote.timestamp)
            },
            _ => prefers_local(ConflictResolution::VectorClock, local, remote) <==> local.timestamp
                >= remote.timestamp,
        },
{
    match (local.vector_clock, remote.vector_clock) {
        (Some(lv), Some(rv)) => {
            lemma_dominates_antisymmetric(lv@, rv@);
        },
        _ => {},
    }
}

/// Resolution does not depend on which side asks: for every strategy but
/// `LocalFirst`, when the two events carry different timestamps (and, under
/// `PrimaryFirst`, not both come from the primary), swapping local and remote
/// picks the same event.
pub proof fn lemma_resolution_order_independent(
    strategy: ConflictResolution,
    a: ReplicationEvent,
    b: ReplicationEvent,
)
    requires
        strategy != ConflictResolution::LocalFirst,
        a.timestamp != b.timestamp,
        strategy == ConflictResolution::PrimaryFirst ==> !(is_primary(a.source_dc@) && is_primary(
            b.source_dc@,
        )),
    ensures
        prefers_local(strategy, a, b) == !prefers_local(strategy, b, a),
{
    match (a.vector_clock, b.vector_clock) {
        (Some(av), Some(bv)) => {
            lemma_dominates_antisymmetric(av@, bv@);
        },
        _ => {},
    }
}

} // verus!
