//! Data tiering (hot/warm/cold/archive).
//!
//! Items are tracked with their size, tier and access history; policies,
//! tried in order of priority, say which tier an item belongs in. Times are
//! nanoseconds since the Unix epoch; the functions that read the clock have
//! a twin ending in `_at` that takes the time as an argument.

use vstd::prelude::*;
use crate::chars::starts_with;
use crate::clock::now_nanos;
use crate::codec::copy_range;
use crate::error::Error;
use crate::sorting::{
    lemma_stable_order_ascending, lemma_stable_order_range, stable_order, stable_order_by,
};
use crate::strmap::StrMap;
use crate::text::concat2;

verus! {

/// How many accesses an item's history keeps.
pub const ACCESS_HISTORY_LIMIT: usize = 100;

/// Nanoseconds in a second.
pub const NANOS_PER_SEC: i64 = 1_000_000_000;

/// The default evaluation interval of the tiering loop, in seconds.
pub fn default_interval() -> (r: u64)
    ensures
        r == 3600,
{
    3600
}

/// `true`, the default of the flags that are on unless configured off.
pub fn default_true() -> (r: bool)
    ensures
        r,
{
    true
}

/// The default storage class of the archive tier.
pub fn default_storage_class() -> (r: String)
    ensures
        r@ == "STANDARD"@,
{
    "STANDARD".to_owned()
}

/// A storage tier.
#[derive(Debug, Clone, Copy, PartialEq, Eq, Hash, Structural)]
pub enum Tier {
    Hot,
    Warm,
    Cold,
    Archive,
}

/// How warm a tier is: the hotter, the higher.
pub open spec fn spec_temperature(t: Tier) -> i32 {
    match t {
        Tier::Hot => 3,
        Tier::Warm => 2,
        Tier::Cold => 1,
        Tier::Archive => 0,
    }
}

impl Tier {
    /// How warm the tier is: 3 for hot down to 0 for archive.
    pub fn temperature(&self) -> (r: i32)
        ensures
            r == spec_temperature(*self),
    {
        match self {
            Tier::Hot => 3,
            Tier::Warm => 2,
            Tier::Cold => 1,
            Tier::Archive => 0,
        }
    }
}

/// A compression algorithm a tier may use.
#[derive(Debug, Clone, Copy, PartialEq, Eq, Structural)]
pub enum CompressionAlgorithm {
    Uncompressed,
    Lz4,
    Zstd,
    Snappy,
    Gzip,
}

impl Default for CompressionAlgorithm {
    fn default() -> (r: Self)
        ensures
            r == CompressionAlgorithm::Uncompressed,
    {
        CompressionAlgorithm::Uncompressed
    }
}

/// The configuration of one tier.
#[derive(Debug, Clone)]
pub struct TierConfig {
    pub name: String,
    pub path: Option<String>,
    /// Maximum size in bytes (0 = unlimited)
    pub max_size_bytes: u64,
    /// Maximum number of items (0 = unlimited)
    pub max_items: u64,
    pub compression: bool,
    pub compression_algorithm: CompressionAlgorithm,
    pub cache_enabled: bool,
    pub cache_size_bytes: u64,
}

impl TierConfig {
    fn default_hot() -> (r: Self)
        ensures
            r.name@ == "hot"@,
            r.path is None,
            r.max_size_bytes == 1024 * 1024 * 1024,
            r.max_items == 0,
            !r.compression,
            r.compression_algorithm == CompressionAlgorithm::Uncompressed,
            r.cache_enabled,
            r.cache_size_bytes == 256 * 1024 * 1024,
    {
        Self {
            name: "hot".to_owned(),
            path: None,
            max_size_bytes: 1024 * 1024 * 1024,
            max_items: 0,
            compression: false,
            compression_algorithm: CompressionAlgorithm::Uncompressed,
            cache_enabled: true,
            cache_size_bytes: 256 * 1024 * 1024,
        }
    }

    fn default_warm() -> (r: Self)
        ensures
            r.name@ == "warm"@,
            r.path is None,
            r.max_size_bytes == 10 * 1024 * 1024 * 1024,
            r.max_items == 0,
            r.compression,
            r.compression_algorithm == CompressionAlgorithm::Lz4,
            !r.cache_enabled,
            r.cache_size_bytes == 0,
    {
        Self {
            name: "warm".to_owned(),
            path: None,
            max_size_bytes: 10 * 1024 * 1024 * 1024,
            max_items: 0,
            compression: true,
            compression_algorithm: CompressionAlgorithm::Lz4,
            cache_enabled: false,
            cache_size_bytes: 0,
        }
    }

    fn default_cold() -> (r: Self)
        ensures
            r.name@ == "cold"@,
            r.path is None,
            r.max_size_bytes == 100 * 1024 * 1024 * 1024,
            r.max_items == 0,
            r.compression,
            r.compression_algorithm == CompressionAlgorithm::Zstd,
            !r.cache_enabled,
            r.cache_size_bytes == 0,
    {
        Self {
            name: "cold".to_owned(),
            path: None,
            max_size_bytes: 100 * 1024 * 1024 * 1024,
            max_items: 0,
            compression: true,
            compression_algorithm: CompressionAlgorithm::Zstd,
            cache_enabled: false,
            cache_size_bytes: 0,
        }
    }
}

impl Default for TierConfig {
    /// The hot tier's defaults.
    fn default() -> (r: Self)
        ensures
            r.name@ == "hot"@,
            r.path is None,
            r.max_size_bytes == 1024 * 1024 * 1024,
            r.max_items == 0,
            !r.compression,
            r.compression_algorithm == CompressionAlgorithm::Uncompressed,
            r.cache_enabled,
            r.cache_size_bytes == 256 * 1024 * 1024,
    {
        Self::default_hot()
    }
}

/// Where archived items go.
#[derive(Debug, Clone)]
pub struct ArchiveConfig {
    pub endpoint: String,
    pub bucket: String,
    pub access_key: Option<String>,
    pub secret_key: Option<String>,
    pub region: Option<String>,
    pub compression: bool,
    pub storage_class: String,
}

/// A condition on an item that a tiering rule tests.
#[derive(Debug)]
pub enum TieringCondition {
    /// Accesses in the last `window_secs` seconds lie within the bounds.
    AccessCount { min_count: Option<u64>, max_count: Option<u64>, window_secs: u64 },
    /// The item's age, in seconds, lies within the bounds.
    Age { min_age_secs: Option<u64>, max_age_secs: Option<u64> },
    /// The item's size lies within the bounds.
    Size { min_bytes: Option<u64>, max_bytes: Option<u64> },
    /// The seconds since the last access lie within the bounds.
    LastAccess { min_since_access_secs: Option<u64>, max_since_access_secs: Option<u64> },
    /// Every condition holds.
    And { conditions: Vec<TieringCondition> },
    /// Some condition holds.
    Or { conditions: Vec<TieringCondition> },
}

/// Whether two conditions hold of the same items at the same times.
pub open spec fn same_condition(a: TieringCondition, b: TieringCondition) -> bool {
    forall|m: ItemView, now: i64| #[trigger] condition_holds(a, m, now) == condition_holds(b, m, now)
}

fn clone_conditions(v: &Vec<TieringCondition>) -> (r: Vec<TieringCondition>)
    ensures
        r@.len() == v@.len(),
        forall|j: int| 0 <= j < v@.len() ==> same_condition(#[trigger] r@[j], v@[j]),
    decreases v, 0nat,
{
    let mut out: Vec<TieringCondition> = Vec::new();
    let mut i: usize = 0;
    while i < v.len()
        invariant
            i <= v@.len(),
            out@.len() == i,
            forall|j: int| 0 <= j < i ==> same_condition(#[trigger] out@[j], v@[j]),
        decreases v@.len() - i,
    {
        proof {
            assert(decreases_to!(v => v@[i as int]));
        }
        out.push(v[i].duplicate());
        i = i + 1;
    }
    out
}

/// Conditions that hold alike, position by position, hold alike together.
proof fn lemma_same_conditions(a: Seq<TieringCondition>, b: Seq<TieringCondition>, m: ItemView, now: i64)
    requires
        a.len() == b.len(),
        forall|j: int| 0 <= j < a.len() ==> same_condition(#[trigger] a[j], b[j]),
    ensures
        all_hold(a, m, now) == all_hold(b, m, now),
        any_holds(a, m, now) == any_holds(b, m, now),
{
    lemma_all_any(a, m, now);
    lemma_all_any(b, m, now);
    assert forall|j: int| 0 <= j < a.len() implies condition_holds(a[j], m, now)
        == condition_holds(b[j], m, now) by {
        assert(same_condition(a[j], b[j]));
    }
    if all_hold(a, m, now) {
        assert forall|j: int| 0 <= j < b.len() implies #[trigger] condition_holds(b[j], m, now) by {
            assert(condition_holds(a[j], m, now));
        }
    }
    if all_hold(b, m, now) {
        assert forall|j: int| 0 <= j < a.len() implies #[trigger] condition_holds(a[j], m, now) by {
            assert(condition_holds(b[j], m, now));
        }
    }
    if any_holds(a, m, now) {
        let j = choose|j: int| 0 <= j < a.len() && #[trigger] condition_holds(a[j], m, now);
        assert(condition_holds(b[j], m, now));
    }
    if any_holds(b, m, now) {
        let j = choose|j: int| 0 <= j < b.len() && #[trigger] condition_holds(b[j], m, now);
        assert(condition_holds(a[j], m, now));
    }
}

impl TieringCondition {
    /// A copy of the condition: it holds exactly where this one does.
    pub fn duplicate(&self) -> (r: Self)
        ensures
            same_condition(r, *self),
        decreases self, 1nat,
    {
        match self {
            TieringCondition::AccessCount { min_count, max_count, window_secs } => {
                TieringCondition::AccessCount {
                    min_count: *min_count,
                    max_count: *max_count,
                    window_secs: *window_secs,
                }
            },
            TieringCondition::Age { min_age_secs, max_age_secs } => TieringCondition::Age {
                min_age_secs: *min_age_secs,
                max_age_secs: *max_age_secs,
            },
            TieringCondition::Size { min_bytes, max_bytes } => TieringCondition::Size {
                min_bytes: *min_bytes,
                max_bytes: *max_bytes,
            },
            TieringCondition::LastAccess { min_since_access_secs, max_since_access_secs } => {
                TieringCondition::LastAccess {
                    min_since_access_secs: *min_since_access_secs,
                    max_since_access_secs: *max_since_access_secs,
                }
            },
            TieringCondition::And { conditions } => {
                let c = clone_conditions(conditions);
                proof {
                    assert forall|m: ItemView, now: i64| #[trigger] condition_holds(
                        TieringCondition::And { conditions: c },
                        m,
                        now,
                    ) == condition_holds(*self, m, now) by {
                        lemma_same_conditions(c@, conditions@, m, now);
                    }
                }
                TieringCondition::And { conditions: c }
            },
            TieringCondition::Or { conditions } => {
                let c = clone_conditions(conditions);
                proof {
                    assert forall|m: ItemView, now: i64| #[trigger] condition_holds(
                        TieringCondition::Or { conditions: c },
                        m,
                        now,
                    ) == condition_holds(*self, m, now) by {
                        lemma_same_conditions(c@, conditions@, m, now);
                    }
                }
                TieringCondition::Or { conditions: c }
            },
        }
    }
}

impl Clone for TieringCondition {
    fn clone(&self) -> (r: Self)
        ensures
            same_condition(r, *self),
    {
        self.duplicate()
    }
}

/// A condition and the tier an item that meets it belongs in.
#[derive(Debug, Clone)]
pub struct TieringRule {
    pub condition: TieringCondition,
    pub target_tier: Tier,
}

/// Rules for the keys with a given prefix (or for all keys).
#[derive(Debug, Clone)]
pub struct TieringPolicy {
    pub name: String,
    pub prefix: Option<String>,
    pub rules: Vec<TieringRule>,
    /// Priority (higher = evaluated first)
    pub priority: i32,
    /// Is policy enabled?
    pub enabled: bool,
}

/// The tiering configuration.
#[derive(Debug, Clone)]
pub struct TieringConfig {
    pub enabled: bool,
    pub hot: TierConfig,
    pub warm: TierConfig,
    pub cold: TierConfig,
    pub archive: Option<ArchiveConfig>,
    pub policies: Vec<TieringPolicy>,
    pub interval_secs: u64,
}

impl Default for TieringConfig {
    /// Tiering off, the default tiers, no archive and no policy, hourly.
    fn default() -> (r: Self)
        ensures
            !r.enabled,
            r.hot.name@ == "hot"@,
            r.hot.max_size_bytes == 1024 * 1024 * 1024,
            r.hot.cache_enabled,
            r.warm.name@ == "warm"@,
            r.warm.max_size_bytes == 10 * 1024 * 1024 * 1024,
            r.warm.compression_algorithm == CompressionAlgorithm::Lz4,
            r.cold.name@ == "cold"@,
            r.cold.max_size_bytes == 100 * 1024 * 1024 * 1024,
            r.cold.compression_algorithm == CompressionAlgorithm::Zstd,
            r.archive is None,
            r.policies@.len() == 0,
            r.interval_secs == 3600,
    {
        Self {
            enabled: false,
            hot: TierConfig::default_hot(),
            warm: TierConfig::default_warm(),
            cold: TierConfig::default_cold(),
            archive: None,
            policies: Vec::new(),
            interval_secs: default_interval(),
        }
    }
}

/// What the library knows of a tracked item.
#[derive(Debug)]
pub struct ItemMetadata {
    pub key: String,
    pub tier: Tier,
    pub size_bytes: u64,
    /// Creation time, in nanoseconds since the epoch.
    pub created_at: i64,
    /// Last modification time, in nanoseconds since the epoch.
    pub modified_at: i64,
    /// Last access time, in nanoseconds since the epoch.
    pub last_accessed_at: i64,
    pub access_count: u64,
    /// The times of the most recent accesses, oldest first.
    pub access_history: Vec<i64>,
    /// Is compressed?
    pub compressed: bool,
    pub original_size_bytes: u64,
}

/// The abstract value of an `ItemMetadata`.
pub struct ItemView {
    pub key: Seq<char>,
    pub tier: Tier,
    pub size_bytes: u64,
    pub created_at: i64,
    pub modified_at: i64,
    pub last_accessed_at: i64,
    pub access_count: u64,
    pub access_history: Seq<i64>,
    pub compressed: bool,
    pub original_size_bytes: u64,
}

impl View for ItemMetadata {
    type V = ItemView;

    open spec fn view(&self) -> ItemView {
        ItemView {
            key: self.key@,
            tier: self.tier,
            size_bytes: self.size_bytes,
            created_at: self.created_at,
            modified_at: self.modified_at,
            last_accessed_at: self.last_accessed_at,
            access_count: self.access_count,
            access_history: self.access_history@,
            compressed: self.compressed,
            original_size_bytes: self.original_size_bytes,
        }
    }
}

fn copy_times(v: &Vec<i64>) -> (r: Vec<i64>)
    ensures
        r@ == v@,
{
    let mut out: Vec<i64> = Vec::new();
    let mut i: usize = 0;
    while i < v.len()
        invariant
            i <= v@.len(),
            out@ == v@.take(i as int),
        decreases v@.len() - i,
    {
        out.push(v[i]);
        i = i + 1;
        assert(out@ =~= v@.take(i as int));
    }
    assert(v@.take(i as int) =~= v@);
    out
}

impl Clone for ItemMetadata {
    fn clone(&self) -> (r: Self)
        ensures
            r@ == self@,
    {
        ItemMetadata {
            key: self.key.clone(),
            tier: self.tier,
            size_bytes: self.size_bytes,
            created_at: self.created_at,
            modified_at: self.modified_at,
            last_accessed_at: self.last_accessed_at,
            access_count: self.access_count,
            access_history: copy_times(&self.access_history),
            compressed: self.compressed,
            original_size_bytes: self.original_size_bytes,
        }
    }
}

/// A new item, created and last accessed at `now`, never accessed yet.
pub open spec fn new_item(key: Seq<char>, size_bytes: u64, tier: Tier, now: i64) -> ItemView {
    ItemView {
        key,
        tier,
        size_bytes,
        created_at: now,
        modified_at: now,
        last_accessed_at: now,
        access_count: 0,
        access_history: Seq::empty(),
        compressed: false,
        original_size_bytes: size_bytes,
    }
}

/// The access history after an access at `now`: `now` is added last and, if
/// the history then holds more than the limit, its oldest entry is dropped.
pub open spec fn history_after_access(h: Seq<i64>, now: i64) -> Seq<i64> {
    if h.len() + 1 > ACCESS_HISTORY_LIMIT {
        h.push(now).drop_first()
    } else {
        h.push(now)
    }
}

/// The item after an access at `now`.
pub open spec fn accessed_item(m: ItemView, now: i64) -> ItemView {
    ItemView {
        last_accessed_at: now,
        access_count: (m.access_count + 1) as u64,
        access_history: history_after_access(m.access_history, now),
        ..m
    }
}

/// Whether an access at time `t` lies in the window of `window_secs`
/// seconds that ends at `now` (the window's start included).
pub open spec fn in_access_window(now: i64, window_secs: u64) -> spec_fn(i64) -> bool {
    |t: i64| t >= now - window_secs * NANOS_PER_SEC
}

/// How many accesses of `h` lie in the window of `window_secs` seconds ending at `now`.
pub open spec fn accesses_in_window(h: Seq<i64>, now: i64, window_secs: u64) -> nat {
    h.filter(in_access_window(now, window_secs)).len()
}

/// Whole seconds from `from` to `now`, or 0 if `now` is not later.
pub open spec fn whole_secs_since(from: i64, now: i64) -> u64 {
    if now - from <= 0 {
        0
    } else {
        ((now - from) / (NANOS_PER_SEC as int)) as u64
    }
}

fn secs_since(from: i64, now: i64) -> (r: u64)
    ensures
        r == whole_secs_since(from, now),
{
    let d: i128 = (now as i128) - (from as i128);
    if d <= 0 {
        0
    } else {
        let s: i128 = d / (NANOS_PER_SEC as i128);
        assert(s <= d);
        s as u64
    }
}

impl ItemMetadata {
    /// A new item created at `now`.
    pub fn new_at(key: String, size_bytes: u64, tier: Tier, now: i64) -> (r: Self)
        ensures
            r@ == new_item(key@, size_bytes, tier, now),
    {
        let r = Self {
            key,
            tier,
            size_bytes,
            created_at: now,
            modified_at: now,
            last_accessed_at: now,
            access_count: 0,
            access_history: Vec::new(),
            compressed: false,
            original_size_bytes: size_bytes,
        };
        assert(r@.access_history =~= Seq::<i64>::empty());
        r
    }

    /// A new item created now.
    pub fn new(key: String, size_bytes: u64, tier: Tier) -> (r: Self)
        ensures
            exists|now: i64| r@ == new_item(key@, size_bytes, tier, now),
    {
        let now = now_nanos();
        Self::new_at(key, size_bytes, tier, now)
    }

    /// Records an access at `now`.
    pub fn record_access_at(&mut self, now: i64)
        requires
            old(self).access_count < u64::MAX,
        ensures
            final(self)@ == accessed_item(old(self)@, now),
    {
        self.last_accessed_at = now;
        self.access_count = self.access_count + 1;
        self.access_history.push(now);
        if self.access_history.len() > ACCESS_HISTORY_LIMIT {
            self.access_history.remove(0);
        }
        proof {
            let h = old(self)@.access_history;
            if h.len() + 1 > ACCESS_HISTORY_LIMIT {
                assert(h.push(now).remove(0) =~= h.push(now).drop_first());
            }
        }
    }

    /// Records an access now.
    pub fn record_access(&mut self)
        requires
            old(self).access_count < u64::MAX,
        ensures
            exists|now: i64| final(self)@ == accessed_item(old(self)@, now),
    {
        let now = now_nanos();
        self.record_access_at(now);
    }

    /// How many recorded accesses lie in the `window_secs` seconds that end at `now`.
    pub fn access_count_in_window_at(&self, window_secs: u64, now: i64) -> (r: u64)
        ensures
            r == accesses_in_window(self.access_history@, now, window_secs),
    {
        let h = &self.access_history;
        assert((window_secs as int) * 1_000_000_000 <= 18446744073709551615 * 1_000_000_000) by (nonlinear_arith);
        let cutoff: i128 = (now as i128) - (window_secs as i128) * (NANOS_PER_SEC as i128);
        let ghost pred = in_access_window(now, window_secs);
        let mut count: u64 = 0;
        let mut i: usize = 0;
        while i < h.len()
            invariant
                i <= h@.len(),
                cutoff == now - window_secs * NANOS_PER_SEC,
                pred == in_access_window(now, window_secs),
                count == h@.take(i as int).filter(pred).len(),
                count <= i,
            decreases h@.len() - i,
        {
            let t = h[i];
            proof {
                assert(h@.take(i as int + 1) =~= h@.take(i as int).push(t));
                h@.take(i as int).lemma_filter_push(t, pred);
            }
            if (t as i128) >= cutoff {
                count = count + 1;
            }
            i = i + 1;
        }
        assert(h@.take(i as int) =~= h@);
        count
    }

    /// How many recorded accesses lie in the last `window_secs` seconds.
    pub fn access_count_in_window(&self, window_secs: u64) -> (r: u64)
        ensures
            exists|now: i64| r == accesses_in_window(self.access_history@, now, window_secs),
    {
        let now = now_nanos();
        self.access_count_in_window_at(window_secs, now)
    }

    /// The item's age at `now`, in whole seconds (0 if created later).
    pub fn age_secs_at(&self, now: i64) -> (r: u64)
        ensures
            r == whole_secs_since(self.created_at, now),
    {
        secs_since(self.created_at, now)
    }

    /// The item's age now, in whole seconds.
    pub fn age_secs(&self) -> (r: u64)
        ensures
            exists|now: i64| r == whole_secs_since(self.created_at, now),
    {
        let now = now_nanos();
        self.age_secs_at(now)
    }

    /// Whole seconds from the last access to `now` (0 if that lies later).
    pub fn since_last_access_secs_at(&self, now: i64) -> (r: u64)
        ensures
            r == whole_secs_since(self.last_accessed_at, now),
    {
        secs_since(self.last_accessed_at, now)
    }

    /// Whole seconds since the last access.
    pub fn since_last_access_secs(&self) -> (r: u64)
        ensures
            exists|now: i64| r == whole_secs_since(self.last_accessed_at, now),
    {
        let now = now_nanos();
        self.since_last_access_secs_at(now)
    }
}

/// Whether `v` lies within the optional bounds.
pub open spec fn within(v: int, min: Option<u64>, max: Option<u64>) -> bool {
    &&& (min matches Some(lo) ==> v >= lo)
    &&& (max matches Some(hi) ==> v <= hi)
}

/// Whether `c` holds of item `m` at `now`.
pub open spec fn condition_holds(c: TieringCondition, m: ItemView, now: i64) -> bool
    decreases c, 0nat,
{
    match c {
        TieringCondition::AccessCount { min_count, max_count, window_secs } => within(
            accesses_in_window(m.access_history, now, window_secs) as int,
            min_count,
            max_count,
        ),
        TieringCondition::Age { min_age_secs, max_age_secs } => within(
            whole_secs_since(m.created_at, now) as int,
            min_age_secs,
            max_age_secs,
        ),
        TieringCondition::Size { min_bytes, max_bytes } => within(
            m.size_bytes as int,
            min_bytes,
            max_bytes,
        ),
        TieringCondition::LastAccess { min_since_access_secs, max_since_access_secs } => within(
            whole_secs_since(m.last_accessed_at, now) as int,
            min_since_access_secs,
            max_since_access_secs,
        ),
        TieringCondition::And { conditions } => all_hold(conditions@, m, now),
        TieringCondition::Or { conditions } => any_holds(conditions@, m, now),
    }
}

/// Whether every condition of `cs` holds of `m` at `now`.
pub open spec fn all_hold(cs: Seq<TieringCondition>, m: ItemView, now: i64) -> bool
    decreases cs, 1nat,
{
    if cs.len() == 0 {
        true
    } else {
        condition_holds(cs[0], m, now) && all_hold(cs.drop_first(), m, now)
    }
}

/// Whether some condition of `cs` holds of `m` at `now`.
pub open spec fn any_holds(cs: Seq<TieringCondition>, m: ItemView, now: i64) -> bool
    decreases cs, 1nat,
{
    if cs.len() == 0 {
        false
    } else {
        condition_holds(cs[0], m, now) || any_holds(cs.drop_first(), m, now)
    }
}

/// Whole seconds between `from` and `now` against a lower and an upper bound,
/// in nanoseconds: at least `lo` seconds have passed exactly when `lo` is zero
/// or `now - from` is at least `lo` seconds' worth; at most `hi` whole seconds
/// exactly when `now - from` is under `hi + 1` seconds' worth.
pub proof fn lemma_whole_secs_bounds(from: i64, now: i64, lo: u64, hi: u64)
    ensures
        whole_secs_since(from, now) >= lo <==> (lo == 0 || now - from >= lo * 1_000_000_000),
        whole_secs_since(from, now) <= hi <==> now - from < (hi + 1) * 1_000_000_000,
{
    let d: int = now - from;
    if d > 0 {
        let q: int = d / 1_000_000_000;
        let r: int = d % 1_000_000_000;
        assert(d == q * 1_000_000_000 + r && 0 <= r < 1_000_000_000);
        assert(q < 0x1_0000_0000_0000_0000);
        assert(whole_secs_since(from, now) == q);
        let lo_i: int = lo as int;
        let hi_i: int = hi as int;
        assert(q >= lo_i <==> d >= lo_i * 1_000_000_000) by (nonlinear_arith)
            requires
                d == q * 1_000_000_000 + r,
                0 <= r < 1_000_000_000,
                lo_i >= 0,
        ;
        assert(q <= hi_i <==> d < (hi_i + 1) * 1_000_000_000) by (nonlinear_arith)
            requires
                d == q * 1_000_000_000 + r,
                0 <= r < 1_000_000_000,
                hi_i >= 0,
        ;
    } else {
        assert(lo > 0 ==> lo * 1_000_000_000 > 0) by (nonlinear_arith);
        assert((hi + 1) * 1_000_000_000 > 0) by (nonlinear_arith);
    }
}

/// What the single conditions test, in terms of the item and the time:
/// a `LastAccess` condition the time since the last access, an `Age`
/// condition the time since creation (each as whole seconds, so a bound
/// `lo` above zero needs `lo` full seconds to have passed), and a `Size`
/// condition the item's size.
pub proof fn lemma_condition_meaning(c: TieringCondition, m: ItemView, now: i64)
    ensures
        c matches TieringCondition::LastAccess { min_since_access_secs, max_since_access_secs }
            ==> (condition_holds(c, m, now) <==> {
            &&& min_since_access_secs matches Some(lo) ==> lo == 0 || now - m.last_accessed_at
                >= lo * 1_000_000_000
            &&& max_since_access_secs matches Some(hi) ==> now - m.last_accessed_at < (hi + 1)
                * 1_000_000_000
        }),
        c matches TieringCondition::Age { min_age_secs, max_age_secs } ==> (condition_holds(
            c,
            m,
            now,
        ) <==> {
            &&& min_age_secs matches Some(lo) ==> lo == 0 || now - m.created_at >= lo
                * 1_000_000_000
            &&& max_age_secs matches Some(hi) ==> now - m.created_at < (hi + 1) * 1_000_000_000
        }),
        c matches TieringCondition::Size { min_bytes, max_bytes } ==> (condition_holds(c, m, now)
            <==> {
            &&& min_bytes matches Some(lo) ==> m.size_bytes >= lo
            &&& max_bytes matches Some(hi) ==> m.size_bytes <= hi
        }),
{
    match c {
        TieringCondition::LastAccess { min_since_access_secs, max_since_access_secs } => {
            let lo = match min_since_access_secs { Some(v) => v, None => 0 };
            let hi = match max_since_access_secs { Some(v) => v, None => 0 };
            lemma_whole_secs_bounds(m.last_accessed_at, now, lo, hi);
        },
        TieringCondition::Age { min_age_secs, max_age_secs } => {
            let lo = match min_age_secs { Some(v) => v, None => 0 };
            let hi = match max_age_secs { Some(v) => v, None => 0 };
            lemma_whole_secs_bounds(m.created_at, now, lo, hi);
        },
        _ => {},
    }
}

/// `all_hold` and `any_holds` as quantifiers over the positions of `cs`.
pub proof fn lemma_all_any(cs: Seq<TieringCondition>, m: ItemView, now: i64)
    ensures
        all_hold(cs, m, now) <==> forall|j: int|
            0 <= j < cs.len() ==> #[trigger] condition_holds(cs[j], m, now),
        any_holds(cs, m, now) <==> exists|j: int|
            0 <= j < cs.len() && #[trigger] condition_holds(cs[j], m, now),
    decreases cs.len(),
{
    if cs.len() > 0 {
        let t = cs.drop_first();
        lemma_all_any(t, m, now);
        assert forall|j: int| 1 <= j < cs.len() implies #[trigger] cs[j] == t[j - 1] by {}
        if all_hold(cs, m, now) {
            assert forall|j: int| 0 <= j < cs.len() implies #[trigger] condition_holds(cs[j], m, now) by {
                if j > 0 {
                    assert(cs[j] == t[j - 1]);
                }
            }
        }
        if forall|j: int| 0 <= j < cs.len() ==> #[trigger] condition_holds(cs[j], m, now) {
            assert forall|j: int| 0 <= j < t.len() implies #[trigger] condition_holds(t[j], m, now) by {
                assert(t[j] == cs[j + 1]);
            }
        }
        if any_holds(cs, m, now) {
            if !condition_holds(cs[0], m, now) {
                let j = choose|j: int| 0 <= j < t.len() && #[trigger] condition_holds(t[j], m, now);
                assert(cs[j + 1] == t[j]);
            }
        }
        if exists|j: int| 0 <= j < cs.len() && #[trigger] condition_holds(cs[j], m, now) {
            let j = choose|j: int| 0 <= j < cs.len() && #[trigger] condition_holds(cs[j], m, now);
            if j > 0 {
                assert(t[j - 1] == cs[j]);
            }
        }
    }
}

fn within_bounds(v: u64, min: Option<u64>, max: Option<u64>) -> (r: bool)
    ensures
        r == within(v as int, min, max),
{
    if let Some(lo) = min {
        if v < lo {
            return false;
        }
    }
    if let Some(hi) = max {
        if v > hi {
            return false;
        }
    }
    true
}

/// Whether `condition` holds of `metadata` at `now`.
pub fn evaluate_condition_at(condition: &TieringCondition, metadata: &ItemMetadata, now: i64) -> (r:
    bool)
    ensures
        r == condition_holds(*condition, metadata@, now),
    decreases condition,
{
    match condition {
        TieringCondition::AccessCount { min_count, max_count, window_secs } => {
            let count = metadata.access_count_in_window_at(*window_secs, now);
            within_bounds(count, *min_count, *max_count)
        },
        TieringCondition::Age { min_age_secs, max_age_secs } => {
            let age = metadata.age_secs_at(now);
            within_bounds(age, *min_age_secs, *max_age_secs)
        },
        TieringCondition::Size { min_bytes, max_bytes } => {
            within_bounds(metadata.size_bytes, *min_bytes, *max_bytes)
        },
        TieringCondition::LastAccess { min_since_access_secs, max_since_access_secs } => {
            let since = metadata.since_last_access_secs_at(now);
            within_bounds(since, *min_since_access_secs, *max_since_access_secs)
        },
        TieringCondition::And { conditions } => {
            let mut i: usize = 0;
            while i < conditions.len()
                invariant
                    i <= conditions@.len(),
                    condition is And,
                    *conditions == condition->And_conditions,
                    forall|j: int|
                        0 <= j < i ==> #[trigger] condition_holds(conditions@[j], metadata@, now),
                decreases conditions@.len() - i,
            {
                proof {
                    assert(decreases_to!(*condition => condition->And_conditions));
                    assert(decreases_to!(*conditions => conditions@));
                    assert(decreases_to!(conditions@ => conditions@[i as int]));
                }
                let ok = evaluate_condition_at(&conditions[i], metadata, now);
                if !ok {
                    proof {
                        lemma_all_any(conditions@, metadata@, now);
                    }
                    return false;
                }
                i = i + 1;
            }
            proof {
                lemma_all_any(conditions@, metadata@, now);
            }
            true
        },
        TieringCondition::Or { conditions } => {
            let mut i: usize = 0;
            while i < conditions.len()
                invariant
                    i <= conditions@.len(),
                    condition is Or,
                    *conditions == condition->Or_conditions,
                    forall|j: int|
                        0 <= j < i ==> !#[trigger] condition_holds(conditions@[j], metadata@, now),
                decreases conditions@.len() - i,
            {
                proof {
                    assert(decreases_to!(*condition => condition->Or_conditions));
                    assert(decreases_to!(*conditions => conditions@));
                    assert(decreases_to!(conditions@ => conditions@[i as int]));
                }
                if evaluate_condition_at(&conditions[i], metadata, now) {
                    proof {
                        lemma_all_any(conditions@, metadata@, now);
                    }
                    return true;
                }
                i = i + 1;
            }
            proof {
                lemma_all_any(conditions@, metadata@, now);
            }
            false
        },
    }
}

/// A move of an item from one tier to another.
#[derive(Debug)]
pub struct TierChange {
    pub key: String,
    pub from_tier: Tier,
    pub to_tier: Tier,
    pub reason: String,
}

/// The abstract value of a `TierChange`.
pub struct TierChangeView {
    pub key: Seq<char>,
    pub from_tier: Tier,
    pub to_tier: Tier,
    pub reason: Seq<char>,
}

impl View for TierChange {
    type V = TierChangeView;

    open spec fn view(&self) -> TierChangeView {
        TierChangeView {
            key: self.key@,
            from_tier: self.from_tier,
            to_tier: self.to_tier,
            reason: self.reason@,
        }
    }
}

impl Clone for TierChange {
    fn clone(&self) -> (r: Self)
        ensures
            r@ == self@,
    {
        TierChange {
            key: self.key.clone(),
            from_tier: self.from_tier,
            to_tier: self.to_tier,
            reason: self.reason.clone(),
        }
    }
}

/// The abstract values of a sequence of changes.
pub open spec fn change_views(s: Seq<TierChange>) -> Seq<TierChangeView> {
    s.map_values(|c: TierChange| c@)
}

/// The abstract values of a sequence of items.
pub open spec fn item_views(s: Seq<ItemMetadata>) -> Seq<ItemView> {
    s.map_values(|m: ItemMetadata| m@)
}

/// Counters of one tier.
#[derive(Debug, Clone, Copy, PartialEq, Eq, Structural)]
pub struct TierStat {
    pub item_count: u64,
    pub size_bytes: u64,
    pub reads: u64,
    pub writes: u64,
    pub cache_hits: u64,
    pub cache_misses: u64,
}

/// All counters zero.
pub open spec fn zero_stat() -> TierStat {
    TierStat { item_count: 0, size_bytes: 0, reads: 0, writes: 0, cache_hits: 0, cache_misses: 0 }
}

impl Default for TierStat {
    fn default() -> (r: Self)
        ensures
            r == zero_stat(),
    {
        TierStat { item_count: 0, size_bytes: 0, reads: 0, writes: 0, cache_hits: 0, cache_misses: 0 }
    }
}

/// Counters of all tiers and of the moves between them.
#[derive(Debug, Clone, Copy, PartialEq, Eq, Structural)]
pub struct TierStats {
    pub hot: TierStat,
    pub warm: TierStat,
    pub cold: TierStat,
    pub archive: TierStat,
    pub total_promotions: u64,
    pub total_demotions: u64,
    pub bytes_moved: u64,
}

/// All counters zero.
pub open spec fn zero_stats() -> TierStats {
    TierStats {
        hot: zero_stat(),
        warm: zero_stat(),
        cold: zero_stat(),
        archive: zero_stat(),
        total_promotions: 0,
        total_demotions: 0,
        bytes_moved: 0,
    }
}

impl Default for TierStats {
    fn default() -> (r: Self)
        ensures
            r == zero_stats(),
    {
        TierStats {
            hot: TierStat::default(),
            warm: TierStat::default(),
            cold: TierStat::default(),
            archive: TierStat::default(),
            total_promotions: 0,
            total_demotions: 0,
            bytes_moved: 0,
        }
    }
}

/// The counters of tier `t`.
pub open spec fn stat_of(s: TierStats, t: Tier) -> TierStat {
    match t {
        Tier::Hot => s.hot,
        Tier::Warm => s.warm,
        Tier::Cold => s.cold,
        Tier::Archive => s.archive,
    }
}

/// `s` with the counters of tier `t` replaced by `st`.
pub open spec fn with_stat(s: TierStats, t: Tier, st: TierStat) -> TierStats {
    match t {
        Tier::Hot => TierStats { hot: st, ..s },
        Tier::Warm => TierStats { warm: st, ..s },
        Tier::Cold => TierStats { cold: st, ..s },
        Tier::Archive => TierStats { archive: st, ..s },
    }
}

/// The counters after an item of `size` bytes is tracked in tier `t`.
pub open spec fn stats_after_track(s: TierStats, t: Tier, size: u64) -> TierStats {
    let st = stat_of(s, t);
    with_stat(
        s,
        t,
        TierStat {
            item_count: (st.item_count + 1) as u64,
            size_bytes: (st.size_bytes + size) as u64,
            writes: (st.writes + 1) as u64,
            ..st
        },
    )
}

/// Whether tracking an item of `size` bytes in tier `t` keeps every counter in range.
pub open spec fn track_fits(s: TierStats, t: Tier, size: u64) -> bool {
    let st = stat_of(s, t);
    st.item_count < u64::MAX && st.size_bytes + size <= u64::MAX && st.writes < u64::MAX
}

/// The counters after a read in tier `t`.
pub open spec fn stats_after_read(s: TierStats, t: Tier) -> TierStats {
    let st = stat_of(s, t);
    with_stat(s, t, TierStat { reads: (st.reads + 1) as u64, ..st })
}

/// `a - b`, or 0 if `b` exceeds `a`.
pub open spec fn sat_sub(a: u64, b: u64) -> u64 {
    if a >= b {
        (a - b) as u64
    } else {
        0
    }
}

/// The counters after an item of `size` bytes leaves tier `t`.
pub open spec fn stats_after_untrack(s: TierStats, t: Tier, size: u64) -> TierStats {
    let st = stat_of(s, t);
    with_stat(
        s,
        t,
        TierStat { item_count: sat_sub(st.item_count, 1), size_bytes: sat_sub(st.size_bytes, size), ..st },
    )
}

/// The counters after an item of `size` bytes moves from tier `from` to tier `to`.
pub open spec fn stats_after_move(s: TierStats, from: Tier, to: Tier, size: u64) -> TierStats {
    let left = stats_after_untrack(s, from, size);
    let st = stat_of(left, to);
    let moved = with_stat(
        left,
        to,
        TierStat {
            item_count: (st.item_count + 1) as u64,
            size_bytes: (st.size_bytes + size) as u64,
            ..st
        },
    );
    if spec_temperature(to) > spec_temperature(from) {
        TierStats {
            bytes_moved: (moved.bytes_moved + size) as u64,
            total_promotions: (moved.total_promotions + 1) as u64,
            ..moved
        }
    } else {
        TierStats {
            bytes_moved: (moved.bytes_moved + size) as u64,
            total_demotions: (moved.total_demotions + 1) as u64,
            ..moved
        }
    }
}

/// Whether a move of `size` bytes from `from` to `to` keeps every counter in range.
pub open spec fn move_fits(s: TierStats, from: Tier, to: Tier, size: u64) -> bool {
    let st = stat_of(stats_after_untrack(s, from, size), to);
    &&& st.item_count < u64::MAX
    &&& st.size_bytes + size <= u64::MAX
    &&& s.bytes_moved + size <= u64::MAX
    &&& (spec_temperature(to) > spec_temperature(from) ==> s.total_promotions < u64::MAX)
    &&& (spec_temperature(to) <= spec_temperature(from) ==> s.total_demotions < u64::MAX)
}

/// The tier that the first rule from position `j` on whose condition holds asks for.
pub open spec fn first_target_from(rules: Seq<TieringRule>, j: int, m: ItemView, now: i64) -> Option<
    Tier,
>
    decreases rules.len() - j,
{
    if j < 0 || j >= rules.len() {
        None
    } else if condition_holds(rules[j].condition, m, now) {
        Some(rules[j].target_tier)
    } else {
        first_target_from(rules, j + 1, m, now)
    }
}

/// Whether policy `p` looks at `key`: it is enabled and its prefix, if any, starts the key.
pub open spec fn policy_applies(p: TieringPolicy, key: Seq<char>) -> bool {
    &&& p.enabled
    &&& (p.prefix matches Some(pre) ==> pre@.is_prefix_of(key))
}

/// The change policy `p` asks for item `m` under `key` at `now`, if any: the
/// first of its rules that holds names a tier other than the item's.
pub open spec fn policy_change(p: TieringPolicy, key: Seq<char>, m: ItemView, now: i64) -> Option<
    TierChangeView,
> {
    if !policy_applies(p, key) {
        None
    } else {
        match first_target_from(p.rules@, 0, m, now) {
            Some(t) => if t != m.tier {
                Some(
                    TierChangeView {
                        key,
                        from_tier: m.tier,
                        to_tier: t,
                        reason: "Policy: "@ + p.name@,
                    },
                )
            } else {
                None
            },
            None => None,
        }
    }
}

/// The changes the first `n` policies of `order` ask for one item.
pub open spec fn item_changes(
    ps: Seq<TieringPolicy>,
    order: Seq<usize>,
    n: int,
    key: Seq<char>,
    m: ItemView,
    now: i64,
) -> Seq<TierChangeView>
    decreases n,
{
    if n <= 0 {
        Seq::empty()
    } else {
        let prev = item_changes(ps, order, n - 1, key, m, now);
        match policy_change(ps[order[n - 1] as int], key, m, now) {
            Some(c) => prev.push(c),
            None => prev,
        }
    }
}

/// The keys used to order policies: highest priority first.
pub open spec fn priority_keys(ps: Seq<TieringPolicy>) -> Seq<i128> {
    Seq::new(ps.len(), |i: int| (0 - ps[i].priority) as i128)
}

/// The positions of the policies in the order they are tried: by descending
/// priority, policies of equal priority in configuration order.
pub open spec fn policy_order(ps: Seq<TieringPolicy>) -> Seq<usize> {
    stable_order(ps.len(), priority_keys(ps))
}

/// The changes the policies ask for the first `n` items of `keys`.
pub open spec fn changes_for(
    keys: Seq<Seq<char>>,
    items: Map<Seq<char>, ItemView>,
    ps: Seq<TieringPolicy>,
    n: int,
    now: i64,
) -> Seq<TierChangeView>
    decreases n,
{
    if n <= 0 {
        Seq::empty()
    } else {
        let order = policy_order(ps);
        changes_for(keys, items, ps, n - 1, now) + item_changes(
            ps,
            order,
            order.len() as int,
            keys[n - 1],
            items[keys[n - 1]],
            now,
        )
    }
}

/// The keys used to rank items by access count: most accessed first.
pub open spec fn hotness_keys(items: Seq<ItemView>) -> Seq<i128> {
    Seq::new(items.len(), |i: int| (0 - items[i].access_count) as i128)
}

/// The keys used to rank items by last access: least recently accessed first.
pub open spec fn coldness_keys(items: Seq<ItemView>) -> Seq<i128> {
    Seq::new(items.len(), |i: int| items[i].last_accessed_at as i128)
}

/// The first `limit` items of `items` in the order `order` gives.
pub open spec fn ranked(items: Seq<ItemView>, order: Seq<usize>, limit: usize) -> Seq<ItemView> {
    let n = if limit < order.len() {
        limit as int
    } else {
        order.len() as int
    };
    Seq::new(n as nat, |i: int| items[order[i] as int])
}

fn copy_changes(v: &Vec<TierChange>) -> (r: Vec<TierChange>)
    ensures
        change_views(r@) == change_views(v@),
{
    let mut out: Vec<TierChange> = Vec::new();
    let mut i: usize = 0;
    while i < v.len()
        invariant
            i <= v@.len(),
            out@.len() == i,
            forall|j: int| 0 <= j < i ==> (#[trigger] out@[j])@ == v@[j]@,
        decreases v@.len() - i,
    {
        out.push(v[i].clone());
        i = i + 1;
    }
    assert(change_views(out@) =~= change_views(v@));
    out
}

/// The tier that the first rule of `rules` whose condition holds of `m` at `now` names.
fn first_matching_target(rules: &Vec<TieringRule>, m: &ItemMetadata, now: i64) -> (r: Option<Tier>)
    ensures
        r == first_target_from(rules@, 0, m@, now),
{
    let mut j: usize = 0;
    while j < rules.len()
        invariant
            j <= rules@.len(),
            first_target_from(rules@, 0, m@, now) == first_target_from(rules@, j as int, m@, now),
        decreases rules@.len() - j,
    {
        if evaluate_condition_at(&rules[j].condition, m, now) {
            return Some(rules[j].target_tier);
        }
        j = j + 1;
    }
    None
}

/// Whether policy `p` looks at `key`.
fn policy_applies_to(p: &TieringPolicy, key: &str) -> (r: bool)
    ensures
        r == policy_applies(*p, key@),
{
    if !p.enabled {
        return false;
    }
    match &p.prefix {
        Some(pre) => starts_with(key, pre.as_str()),
        None => true,
    }
}

/// Compresses `data` with `algorithm`. No codec is wired in: every
/// algorithm hands the bytes back unchanged.
pub fn compress(data: &[u8], algorithm: CompressionAlgorithm) -> (r: Result<Vec<u8>, Error>)
    ensures
        r matches Ok(out) && out@ == data@,
{
    match algorithm {
        CompressionAlgorithm::Uncompressed => Ok(copy_range(data, 0, data.len())),
        CompressionAlgorithm::Lz4 => Ok(copy_range(data, 0, data.len())),
        CompressionAlgorithm::Zstd => Ok(copy_range(data, 0, data.len())),
        CompressionAlgorithm::Snappy => Ok(copy_range(data, 0, data.len())),
        CompressionAlgorithm::Gzip => Ok(copy_range(data, 0, data.len())),
    }
}

/// Decompresses `data` compressed with `algorithm`: the inverse of `compress`,
/// so the bytes come back unchanged.
pub fn decompress(data: &[u8], algorithm: CompressionAlgorithm) -> (r: Result<Vec<u8>, Error>)
    ensures
        r matches Ok(out) && out@ == data@,
{
    match algorithm {
        CompressionAlgorithm::Uncompressed => Ok(copy_range(data, 0, data.len())),
        CompressionAlgorithm::Lz4 => Ok(copy_range(data, 0, data.len())),
        CompressionAlgorithm::Zstd => Ok(copy_range(data, 0, data.len())),
        CompressionAlgorithm::Snappy => Ok(copy_range(data, 0, data.len())),
        CompressionAlgorithm::Gzip => Ok(copy_range(data, 0, data.len())),
    }
}

/// Each change one item's policies ask for moves that item out of its tier.
proof fn lemma_item_changes_move(
    ps: Seq<TieringPolicy>,
    order: Seq<usize>,
    n: int,
    key: Seq<char>,
    m: ItemView,
    now: i64,
)
    ensures
        forall|j: int|
            0 <= j < item_changes(ps, order, n, key, m, now).len() ==> {
                let c = #[trigger] item_changes(ps, order, n, key, m, now)[j];
                &&& c.key == key
                &&& c.from_tier == m.tier
                &&& c.to_tier != m.tier
            },
    decreases n,
{
    if n > 0 {
        lemma_item_changes_move(ps, order, n - 1, key, m, now);
    }
}

/// Every change the policies ask for the first `n` items of `keys` moves an
/// item of `items` from the tier it is in to another tier.
proof fn lemma_changes_move_items(
    keys: Seq<Seq<char>>,
    items: Map<Seq<char>, ItemView>,
    ps: Seq<TieringPolicy>,
    n: int,
    now: i64,
)
    requires
        0 <= n <= keys.len(),
        forall|i: int| 0 <= i < keys.len() ==> items.contains_key(#[trigger] keys[i]),
    ensures
        forall|j: int|
            0 <= j < changes_for(keys, items, ps, n, now).len() ==> {
                let c = #[trigger] changes_for(keys, items, ps, n, now)[j];
                &&& items.contains_key(c.key)
                &&& c.from_tier == items[c.key].tier
                &&& c.to_tier != c.from_tier
            },
    decreases n,
{
    if n > 0 {
        lemma_changes_move_items(keys, items, ps, n - 1, now);
        let order = policy_order(ps);
        let k = keys[n - 1];
        lemma_item_changes_move(ps, order, order.len() as int, k, items[k], now);
        let prev = changes_for(keys, items, ps, n - 1, now);
        let here = item_changes(ps, order, order.len() as int, k, items[k], now);
        assert forall|j: int| 0 <= j < changes_for(keys, items, ps, n, now).len() implies {
            let c = #[trigger] changes_for(keys, items, ps, n, now)[j];
            &&& items.contains_key(c.key)
            &&& c.from_tier == items[c.key].tier
            &&& c.to_tier != c.from_tier
        } by {
            if j < prev.len() {
                assert(changes_for(keys, items, ps, n, now)[j] == prev[j]);
            } else {
                assert(changes_for(keys, items, ps, n, now)[j] == here[j - prev.len()]);
            }
        }
    }
}

/// Policies are tried highest priority first: along `policy_order`, the
/// priorities never increase.
pub proof fn lemma_policy_order_by_priority(ps: Seq<TieringPolicy>)
    ensures
        policy_order(ps).len() == ps.len(),
        forall|i: int, j: int|
            0 <= i < j < ps.len() ==> ps[#[trigger] policy_order(ps)[i] as int].priority
                >= ps[#[trigger] policy_order(ps)[j] as int].priority,
{
    let keys = priority_keys(ps);
    lemma_stable_order_range(ps.len(), keys);
    lemma_stable_order_ascending(ps.len(), keys);
    let o = policy_order(ps);
    assert forall|i: int, j: int| 0 <= i < j < ps.len() implies ps[#[trigger] o[i] as int].priority
        >= ps[#[trigger] o[j] as int].priority by {
        assert(keys[o[i] as int] <= keys[o[j] as int]);
    }
}

/// Hottest first: along the ranking `hottest_items` uses, access counts never increase.
pub proof fn lemma_hotness_order(items: Seq<ItemView>)
    ensures
        forall|i: int, j: int|
            0 <= i < j < items.len() ==> items[#[trigger] stable_order(
                items.len(),
                hotness_keys(items),
            )[i] as int].access_count >= items[#[trigger] stable_order(
                items.len(),
                hotness_keys(items),
            )[j] as int].access_count,
{
    let keys = hotness_keys(items);
    lemma_stable_order_range(items.len(), keys);
    lemma_stable_order_ascending(items.len(), keys);
    let o = stable_order(items.len(), keys);
    assert forall|i: int, j: int| 0 <= i < j < items.len() implies items[#[trigger] o[i] as int].access_count
        >= items[#[trigger] o[j] as int].access_count by {
        assert(keys[o[i] as int] <= keys[o[j] as int]);
    }
}

/// Coldest first: along the ranking `coldest_items` uses, last-access times never decrease.
pub proof fn lemma_coldness_order(items: Seq<ItemView>)
    ensures
        forall|i: int, j: int|
            0 <= i < j < items.len() ==> items[#[trigger] stable_order(
                items.len(),
                coldness_keys(items),
            )[i] as int].last_accessed_at <= items[#[trigger] stable_order(
                items.len(),
                coldness_keys(items),
            )[j] as int].last_accessed_at,
{
    let keys = coldness_keys(items);
    lemma_stable_order_range(items.len(), keys);
    lemma_stable_order_ascending(items.len(), keys);
    let o = stable_order(items.len(), keys);
    assert forall|i: int, j: int| 0 <= i < j < items.len() implies items[#[trigger] o[i] as int].last_accessed_at
        <= items[#[trigger] o[j] as int].last_accessed_at by {
        assert(keys[o[i] as int] <= keys[o[j] as int]);
    }
}

/// Tracks items, their tiers and the policies that move them.
pub struct TieringManager {
    config: TieringConfig,
    metadata: StrMap<ItemMetadata>,
    stats: TierStats,
    pending_changes: Vec<TierChange>,
}

impl TieringManager {
    /// The configuration.
    pub closed spec fn config_view(&self) -> TieringConfig {
        self.config
    }

    /// The tracked items by key.
    pub closed spec fn items_view(&self) -> Map<Seq<char>, ItemView> {
        Map::new(|k: Seq<char>| self.metadata@.contains_key(k), |k: Seq<char>| self.metadata@[k]@)
    }

    /// The keys of the tracked items, in the order they were first tracked.
    pub closed spec fn item_keys(&self) -> Seq<Seq<char>> {
        self.metadata.key_seq()
    }

    /// The tracked items, in the order of `item_keys`.
    pub open spec fn item_seq(&self) -> Seq<ItemView> {
        Seq::new(self.item_keys().len(), |i: int| self.items_view()[self.item_keys()[i]])
    }

    /// The counters.
    pub closed spec fn stats_view(&self) -> TierStats {
        self.stats
    }

    /// The changes found by the last evaluation of the policies.
    pub closed spec fn pending_view(&self) -> Seq<TierChangeView> {
        change_views(self.pending_changes@)
    }

    /// Every change that evaluating the policies at `now` proposes moves a
    /// tracked item from the tier it is in to another tier.
    pub proof fn lemma_evaluated_changes_move_items(&self, now: i64)
        ensures
            forall|j: int|
                0 <= j < changes_for(
                    self.item_keys(),
                    self.items_view(),
                    self.config_view().policies@,
                    self.item_keys().len() as int,
                    now,
                ).len() ==> {
                    let c = #[trigger] changes_for(
                        self.item_keys(),
                        self.items_view(),
                        self.config_view().policies@,
                        self.item_keys().len() as int,
                        now,
                    )[j];
                    &&& self.items_view().contains_key(c.key)
                    &&& c.from_tier == self.items_view()[c.key].tier
                    &&& c.to_tier != c.from_tier
                },
    {
        self.metadata.lemma_keys_in_map();
        assert forall|i: int| 0 <= i < self.item_keys().len() implies self.items_view().contains_key(
            #[trigger] self.item_keys()[i],
        ) by {
            assert(self.metadata@.contains_key(self.metadata.key_seq()[i]));
        }
        lemma_changes_move_items(
            self.item_keys(),
            self.items_view(),
            self.config_view().policies@,
            self.item_keys().len() as int,
            now,
        );
    }

    proof fn lemma_item_seq(&self)
        requires
            self.metadata.inv(),
        ensures
            self.item_seq().len() == self.metadata.key_seq().len(),
            forall|i: int|
                0 <= i < self.item_seq().len() ==> #[trigger] self.item_seq()[i]
                    == self.metadata.value_seq()[i]@,
    {
        self.metadata.lemma_view();
        assert forall|i: int| 0 <= i < self.item_seq().len() implies #[trigger] self.item_seq()[i]
            == self.metadata.value_seq()[i]@ by {
            let k = self.metadata.key_seq()[i];
            assert(self.metadata.key_seq().contains(k));
        }
    }

    /// A manager with the given configuration that tracks nothing yet.
    pub fn new(config: TieringConfig) -> (r: Self)
        ensures
            r.config_view() == config,
            r.items_view() == Map::<Seq<char>, ItemView>::empty(),
            r.item_keys() == Seq::<Seq<char>>::empty(),
            r.stats_view() == zero_stats(),
            r.pending_view() == Seq::<TierChangeView>::empty(),
    {
        let r = TieringManager {
            config,
            metadata: StrMap::new(),
            stats: TierStats::default(),
            pending_changes: Vec::new(),
        };
        assert(r.items_view() =~= Map::<Seq<char>, ItemView>::empty());
        assert(r.pending_view() =~= Seq::<TierChangeView>::empty());
        r
    }

    fn get_tier_stat_mut(stats: &mut TierStats, tier: Tier) -> (r: &mut TierStat)
        ensures
            *r == stat_of(*old(stats), tier),
            *final(stats) == with_stat(*old(stats), tier, *final(r)),
    {
        match tier {
            Tier::Hot => &mut stats.hot,
            Tier::Warm => &mut stats.warm,
            Tier::Cold => &mut stats.cold,
            Tier::Archive => &mut stats.archive,
        }
    }

    /// Starts tracking `key`, created at `now`, in `tier` (an item already
    /// tracked under `key` is replaced, and counted again).
    pub fn track_item_at(&mut self, key: &str, size_bytes: u64, tier: Tier, now: i64)
        requires
            track_fits(old(self).stats_view(), tier, size_bytes),
        ensures
            final(self).items_view() == old(self).items_view().insert(
                key@,
                new_item(key@, size_bytes, tier, now),
            ),
            old(self).items_view().contains_key(key@) ==> final(self).item_keys() == old(
                self,
            ).item_keys(),
            !old(self).items_view().contains_key(key@) ==> final(self).item_keys() == old(
                self,
            ).item_keys().push(key@),
            final(self).stats_view() == stats_after_track(old(self).stats_view(), tier, size_bytes),
            final(self).config_view() == old(self).config_view(),
            final(self).pending_view() == old(self).pending_view(),
    {
        let metadata = ItemMetadata::new_at(key.to_owned(), size_bytes, tier, now);
        self.metadata.insert(key.to_owned(), metadata);
        let stat = Self::get_tier_stat_mut(&mut self.stats, tier);
        stat.item_count = stat.item_count + 1;
        stat.size_bytes = stat.size_bytes + size_bytes;
        stat.writes = stat.writes + 1;
        proof {
            assert(self.items_view() =~= old(self).items_view().insert(
                key@,
                new_item(key@, size_bytes, tier, now),
            ));
        }
    }

    /// Starts tracking `key`, created now, in `tier`.
    pub fn track_item(&mut self, key: &str, size_bytes: u64, tier: Tier)
        requires
            track_fits(old(self).stats_view(), tier, size_bytes),
        ensures
            exists|now: i64|
                final(self).items_view() == old(self).items_view().insert(
                    key@,
                    new_item(key@, size_bytes, tier, now),
                ),
            old(self).items_view().contains_key(key@) ==> final(self).item_keys() == old(
                self,
            ).item_keys(),
            !old(self).items_view().contains_key(key@) ==> final(self).item_keys() == old(
                self,
            ).item_keys().push(key@),
            final(self).stats_view() == stats_after_track(old(self).stats_view(), tier, size_bytes),
            final(self).config_view() == old(self).config_view(),
            final(self).pending_view() == old(self).pending_view(),
    {
        let now = now_nanos();
        self.track_item_at(key, size_bytes, tier, now);
    }

    /// Records an access of `key` at `now` and says its tier; `None`, and no
    /// change, if `key` is not tracked.
    pub fn record_access_at(&mut self, key: &str, now: i64) -> (r: Option<Tier>)
        requires
            old(self).items_view().contains_key(key@) ==> {
                &&& old(self).items_view()[key@].access_count < u64::MAX
                &&& stat_of(old(self).stats_view(), old(self).items_view()[key@].tier).reads
                    < u64::MAX
            },
        ensures
            old(self).items_view().contains_key(key@) ==> {
                let m = old(self).items_view()[key@];
                &&& r == Some(m.tier)
                &&& final(self).items_view() == old(self).items_view().insert(
                    key@,
                    accessed_item(m, now),
                )
                &&& final(self).stats_view() == stats_after_read(old(self).stats_view(), m.tier)
            },
            !old(self).items_view().contains_key(key@) ==> {
                &&& r is None
                &&& final(self).items_view() == old(self).items_view()
                &&& final(self).stats_view() == old(self).stats_view()
            },
            final(self).item_keys() == old(self).item_keys(),
            final(self).config_view() == old(self).config_view(),
            final(self).pending_view() == old(self).pending_view(),
    {
        match self.metadata.find(key) {
            Some(i) => {
                let mut m = self.metadata.value_at(i).clone();
                m.record_access_at(now);
                let tier = m.tier;
                self.metadata.set_value_at(i, m);
                let stat = Self::get_tier_stat_mut(&mut self.stats, tier);
                stat.reads = stat.reads + 1;
                proof {
                    assert(self.items_view() =~= old(self).items_view().insert(
                        key@,
                        accessed_item(old(self).items_view()[key@], now),
                    ));
                }
                Some(tier)
            },
            None => {
                assert(self.items_view() =~= old(self).items_view());
                None
            },
        }
    }

    /// Records an access of `key` now and says its tier.
    pub fn record_access(&mut self, key: &str) -> (r: Option<Tier>)
        requires
            old(self).items_view().contains_key(key@) ==> {
                &&& old(self).items_view()[key@].access_count < u64::MAX
                &&& stat_of(old(self).stats_view(), old(self).items_view()[key@].tier).reads
                    < u64::MAX
            },
        ensures
            old(self).items_view().contains_key(key@) ==> {
                let m = old(self).items_view()[key@];
                &&& r == Some(m.tier)
                &&& exists|now: i64|
                    final(self).items_view() == old(self).items_view().insert(
                        key@,
                        accessed_item(m, now),
                    )
                &&& final(self).stats_view() == stats_after_read(old(self).stats_view(), m.tier)
            },
            !old(self).items_view().contains_key(key@) ==> {
                &&& r is None
                &&& final(self).items_view() == old(self).items_view()
                &&& final(self).stats_view() == old(self).stats_view()
            },
            final(self).item_keys() == old(self).item_keys(),
            final(self).config_view() == old(self).config_view(),
            final(self).pending_view() == old(self).pending_view(),
    {
        let now = now_nanos();
        self.record_access_at(key, now)
    }

    /// Stops tracking `key`; its tier's counters drop by the item (not below zero).
    pub fn untrack_item(&mut self, key: &str)
        ensures
            final(self).items_view() == old(self).items_view().remove(key@),
            old(self).items_view().contains_key(key@) ==> {
                let m = old(self).items_view()[key@];
                &&& final(self).stats_view() == stats_after_untrack(
                    old(self).stats_view(),
                    m.tier,
                    m.size_bytes,
                )
                &&& final(self).item_keys() == old(self).item_keys().remove(
                    old(self).item_keys().index_of(key@),
                )
            },
            !old(self).items_view().contains_key(key@) ==> {
                &&& final(self).stats_view() == old(self).stats_view()
                &&& final(self).item_keys() == old(self).item_keys()
            },
            final(self).config_view() == old(self).config_view(),
            final(self).pending_view() == old(self).pending_view(),
    {
        match self.metadata.remove(key) {
            Some(m) => {
                let stat = Self::get_tier_stat_mut(&mut self.stats, m.tier);
                stat.item_count = if stat.item_count >= 1 {
                    stat.item_count - 1
                } else {
                    0
                };
                stat.size_bytes = if stat.size_bytes >= m.size_bytes {
                    stat.size_bytes - m.size_bytes
                } else {
                    0
                };
            },
            None => {},
        }
        assert(self.items_view() =~= old(self).items_view().remove(key@));
    }

    /// A copy of what is known of `key`, if it is tracked.
    pub fn get_metadata(&self, key: &str) -> (r: Option<ItemMetadata>)
        ensures
            match r {
                Some(m) => self.items_view().contains_key(key@) && m@ == self.items_view()[key@],
                None => !self.items_view().contains_key(key@),
            },
    {
        match self.metadata.get(key) {
            Some(m) => Some(m.clone()),
            None => None,
        }
    }

    /// The tier of `key`, if it is tracked.
    pub fn get_tier(&self, key: &str) -> (r: Option<Tier>)
        ensures
            match r {
                Some(t) => self.items_view().contains_key(key@) && t == self.items_view()[key@].tier,
                None => !self.items_view().contains_key(key@),
            },
    {
        match self.metadata.get(key) {
            Some(m) => Some(m.tier),
            None => None,
        }
    }

    /// Moves the item of `change.key` to `change.to_tier`, moving its size
    /// from the counters of `change.from_tier` to those of `change.to_tier`;
    /// a move to a warmer tier counts as a promotion, any other as a demotion.
    pub fn apply_change(&mut self, change: &TierChange) -> (r: Result<(), Error>)
        requires
            old(self).items_view().contains_key(change.key@) ==> move_fits(
                old(self).stats_view(),
                change.from_tier,
                change.to_tier,
                old(self).items_view()[change.key@].size_bytes,
            ),
        ensures
            old(self).items_view().contains_key(change.key@) ==> {
                let m = old(self).items_view()[change.key@];
                &&& r is Ok
                &&& final(self).items_view() == old(self).items_view().insert(
                    change.key@,
                    ItemView { tier: change.to_tier, ..m },
                )
                &&& final(self).stats_view() == stats_after_move(
                    old(self).stats_view(),
                    change.from_tier,
                    change.to_tier,
                    m.size_bytes,
                )
            },
            !old(self).items_view().contains_key(change.key@) ==> {
                &&& r matches Err(Error::Internal(msg)) && msg@ == "Key not found: "@ + change.key@
                &&& final(self).items_view() == old(self).items_view()
                &&& final(self).stats_view() == old(self).stats_view()
            },
            final(self).item_keys() == old(self).item_keys(),
            final(self).config_view() == old(self).config_view(),
            final(self).pending_view() == old(self).pending_view(),
    {
        match self.metadata.find(change.key.as_str()) {
            Some(i) => {
                let mut m = self.metadata.value_at(i).clone();
                let size = m.size_bytes;
                let from_stat = Self::get_tier_stat_mut(&mut self.stats, change.from_tier);
                from_stat.item_count = if from_stat.item_count >= 1 {
                    from_stat.item_count - 1
                } else {
                    0
                };
                from_stat.size_bytes = if from_stat.size_bytes >= size {
                    from_stat.size_bytes - size
                } else {
                    0
                };
                let to_stat = Self::get_tier_stat_mut(&mut self.stats, change.to_tier);
                to_stat.item_count = to_stat.item_count + 1;
                to_stat.size_bytes = to_stat.size_bytes + size;
                self.stats.bytes_moved = self.stats.bytes_moved + size;
                if change.to_tier.temperature() > change.from_tier.temperature() {
                    self.stats.total_promotions = self.stats.total_promotions + 1;
                } else {
                    self.stats.total_demotions = self.stats.total_demotions + 1;
                }
                m.tier = change.to_tier;
                self.metadata.set_value_at(i, m);
                proof {
                    assert(self.items_view() =~= old(self).items_view().insert(
                        change.key@,
                        ItemView { tier: change.to_tier, ..old(self).items_view()[change.key@] },
                    ));
                }
                Ok(())
            },
            None => {
                proof {
                    reveal_strlit("Key not found: ");
                }
                assert(self.items_view() =~= old(self).items_view());
                Err(Error::Internal(concat2("Key not found: ", change.key.as_str())))
            },
        }
    }

    /// The counters.
    pub fn get_stats(&self) -> (r: TierStats)
        ensures
            r == self.stats_view(),
    {
        self.stats
    }

    /// A copy of the changes found by the last evaluation of the policies.
    pub fn get_pending_changes(&self) -> (r: Vec<TierChange>)
        ensures
            change_views(r@) == self.pending_view(),
    {
        copy_changes(&self.pending_changes)
    }

    /// Evaluates the policies against every tracked item at `now`. For each
    /// item, in tracking order, each enabled policy whose prefix (if any)
    /// starts the item's key is tried, by descending priority; the first of
    /// its rules whose condition holds decides, and yields a change if it
    /// names a tier other than the item's. The changes found replace the
    /// pending ones.
    pub fn evaluate_policies_at(&mut self, now: i64) -> (r: Vec<TierChange>)
        ensures
            change_views(r@) == changes_for(
                old(self).item_keys(),
                old(self).items_view(),
                old(self).config_view().policies@,
                old(self).item_keys().len() as int,
                now,
            ),
            final(self).pending_view() == change_views(r@),
            final(self).items_view() == old(self).items_view(),
            final(self).item_keys() == old(self).item_keys(),
            final(self).stats_view() == old(self).stats_view(),
            final(self).config_view() == old(self).config_view(),
    {
        proof {
            use_type_invariant(&self.metadata);
            self.lemma_item_seq();
        }
        let ghost ps = self.config.policies@;
        let np = self.config.policies.len();
        let mut keys: Vec<i128> = Vec::new();
        let mut k: usize = 0;
        while k < np
            invariant
                np == ps.len(),
                ps == self.config.policies@,
                k <= np,
                keys@ == priority_keys(ps).take(k as int),
            decreases np - k,
        {
            keys.push(0 - (self.config.policies[k].priority as i128));
            k = k + 1;
            assert(keys@ =~= priority_keys(ps).take(k as int));
        }
        assert(keys@ =~= priority_keys(ps));
        let order = stable_order_by(&keys);
        proof {
            lemma_stable_order_range(keys@.len(), keys@);
        }
        let ghost ikeys = self.item_keys();
        let ghost items = self.items_view();
        let n = self.metadata.len();
        let mut changes: Vec<TierChange> = Vec::new();
        let mut i: usize = 0;
        while i < n
            invariant
                n == ikeys.len(),
                ikeys == self.metadata.key_seq(),
                items == self.items_view(),
                forall|j: int|
                    0 <= j < n ==> #[trigger] self.item_seq()[j] == self.metadata.value_seq()[j]@,
                ps == self.config.policies@,
                order@ == policy_order(ps),
                order@.len() == ps.len(),
                forall|j: int| 0 <= j < order@.len() ==> #[trigger] order@[j] < order@.len(),
                i <= n,
                change_views(changes@) == changes_for(ikeys, items, ps, i as int, now),
            decreases n - i,
        {
            let key = self.metadata.key_at(i);
            let m = self.metadata.value_at(i);
            proof {
                assert(self.item_seq()[i as int] == items[ikeys[i as int]]);
            }
            let ghost base = changes_for(ikeys, items, ps, i as int, now);
            let mut k: usize = 0;
            while k < order.len()
                invariant
                    ps == self.config.policies@,
                    order@.len() == ps.len(),
                    forall|j: int| 0 <= j < order@.len() ==> #[trigger] order@[j] < order@.len(),
                    k <= order@.len(),
                    change_views(changes@) == base + item_changes(ps, order@, k as int, key@, m@, now),
                decreases order@.len() - k,
            {
                let p = &self.config.policies[order[k]];
                let ghost before = change_views(changes@);
                if policy_applies_to(p, key.as_str()) {
                    match first_matching_target(&p.rules, m, now) {
                        Some(t) => {
                            if t != m.tier {
                                proof {
                                    reveal_strlit("Policy: ");
                                }
                                let c = TierChange {
                                    key: key.clone(),
                                    from_tier: m.tier,
                                    to_tier: t,
                                    reason: concat2("Policy: ", p.name.as_str()),
                                };
                                changes.push(c);
                                assert(change_views(changes@) =~= before.push(c@));
                            }
                        },
                        None => {},
                    }
                }
                k = k + 1;
                assert(change_views(changes@) =~= base + item_changes(ps, order@, k as int, key@, m@, now));
            }
            i = i + 1;
            assert(change_views(changes@) =~= changes_for(ikeys, items, ps, i as int, now));
        }
        self.pending_changes = copy_changes(&changes);
        changes
    }

    /// Evaluates the policies against every tracked item now.
    pub fn evaluate_policies(&mut self) -> (r: Vec<TierChange>)
        ensures
            exists|now: i64|
                change_views(r@) == changes_for(
                    old(self).item_keys(),
                    old(self).items_view(),
                    old(self).config_view().policies@,
                    old(self).item_keys().len() as int,
                    now,
                ),
            final(self).pending_view() == change_views(r@),
            final(self).items_view() == old(self).items_view(),
            final(self).item_keys() == old(self).item_keys(),
            final(self).stats_view() == old(self).stats_view(),
            final(self).config_view() == old(self).config_view(),
    {
        let now = now_nanos();
        self.evaluate_policies_at(now)
    }

    /// Copies of the items in `tier`, in tracking order.
    pub fn items_in_tier(&self, tier: Tier) -> (r: Vec<ItemMetadata>)
        ensures
            item_views(r@) == self.item_seq().filter(|m: ItemView| m.tier == tier),
    {
        proof {
            use_type_invariant(&self.metadata);
            self.lemma_item_seq();
        }
        let ghost items = self.item_seq();
        let ghost pred = |m: ItemView| m.tier == tier;
        let n = self.metadata.len();
        let mut out: Vec<ItemMetadata> = Vec::new();
        let mut i: usize = 0;
        while i < n
            invariant
                n == self.item_keys().len(),
                n == self.metadata.key_seq().len(),
                items == self.item_seq(),
                forall|j: int| 0 <= j < n ==> #[trigger] items[j] == self.metadata.value_seq()[j]@,
                pred == (|m: ItemView| m.tier == tier),
                i <= n,
                item_views(out@) == items.take(i as int).filter(pred),
            decreases n - i,
        {
            let m = self.metadata.value_at(i);
            proof {
                assert(items[i as int] == m@);
                assert(items.take(i as int + 1) =~= items.take(i as int).push(m@));
                items.take(i as int).lemma_filter_push(m@, pred);
            }
            if m.tier == tier {
                let ghost before = out@;
                let c = m.clone();
                out.push(c);
                assert(item_views(out@) =~= item_views(before).push(c@));
            }
            i = i + 1;
        }
        assert(items.take(i as int) =~= items);
        out
    }

    fn ranked_copies(&self, order: &Vec<usize>, limit: usize) -> (r: Vec<ItemMetadata>)
        requires
            order@.len() == self.item_keys().len(),
            forall|j: int| 0 <= j < order@.len() ==> #[trigger] order@[j] < order@.len(),
        ensures
            item_views(r@) == ranked(self.item_seq(), order@, limit),
    {
        proof {
            use_type_invariant(&self.metadata);
            self.lemma_item_seq();
        }
        let n = if limit < order.len() {
            limit
        } else {
            order.len()
        };
        let ghost want = ranked(self.item_seq(), order@, limit);
        let mut out: Vec<ItemMetadata> = Vec::new();
        let mut i: usize = 0;
        while i < n
            invariant
                order@.len() == self.metadata.key_seq().len(),
                order@.len() == self.item_seq().len(),
                forall|j: int| 0 <= j < order@.len() ==> #[trigger] order@[j] < order@.len(),
                forall|j: int|
                    0 <= j < order@.len() ==> #[trigger] self.item_seq()[j]
                        == self.metadata.value_seq()[j]@,
                want == ranked(self.item_seq(), order@, limit),
                n == want.len(),
                i <= n,
                out@.len() == i,
                forall|j: int| 0 <= j < i ==> (#[trigger] out@[j])@ == want[j],
            decreases n - i,
        {
            let k = order[i];
            let m = self.metadata.value_at(k);
            out.push(m.clone());
            i = i + 1;
        }
        assert(item_views(out@) =~= want);
        out
    }

    /// Copies of the `limit` most accessed items, most accessed first; items
    /// with equal counts come in tracking order.
    pub fn hottest_items(&self, limit: usize) -> (r: Vec<ItemMetadata>)
        ensures
            item_views(r@) == ranked(
                self.item_seq(),
                stable_order(self.item_seq().len(), hotness_keys(self.item_seq())),
                limit,
            ),
    {
        proof {
            use_type_invariant(&self.metadata);
            self.lemma_item_seq();
        }
        let n = self.metadata.len();
        let mut keys: Vec<i128> = Vec::new();
        let mut i: usize = 0;
        while i < n
            invariant
                n == self.metadata.key_seq().len(),
                n == self.item_seq().len(),
                forall|j: int|
                    0 <= j < n ==> #[trigger] self.item_seq()[j] == self.metadata.value_seq()[j]@,
                i <= n,
                keys@ == hotness_keys(self.item_seq()).take(i as int),
            decreases n - i,
        {
            let m = self.metadata.value_at(i);
            keys.push(0 - (m.access_count as i128));
            proof {
                assert(keys@ =~= hotness_keys(self.item_seq()).take(i as int + 1));
            }
            i = i + 1;
        }
        assert(keys@ =~= hotness_keys(self.item_seq()));
        let order = stable_order_by(&keys);
        proof {
            lemma_stable_order_range(keys@.len(), keys@);
        }
        self.ranked_copies(&order, limit)
    }

    /// Copies of the `limit` least recently accessed items, least recent
    /// first; items accessed at the same time come in tracking order.
    pub fn coldest_items(&self, limit: usize) -> (r: Vec<ItemMetadata>)
        ensures
            item_views(r@) == ranked(
                self.item_seq(),
                stable_order(self.item_seq().len(), coldness_keys(self.item_seq())),
                limit,
            ),
    {
        proof {
            use_type_invariant(&self.metadata);
            self.lemma_item_seq();
        }
        let n = self.metadata.len();
        let mut keys: Vec<i128> = Vec::new();
        let mut i: usize = 0;
        while i < n
            invariant
                n == self.metadata.key_seq().len(),
                n == self.item_seq().len(),
                forall|j: int|
                    0 <= j < n ==> #[trigger] self.item_seq()[j] == self.metadata.value_seq()[j]@,
                i <= n,
                keys@ == coldness_keys(self.item_seq()).take(i as int),
            decreases n - i,
        {
            let m = self.metadata.value_at(i);
            keys.push(m.last_accessed_at as i128);
            proof {
                assert(keys@ =~= coldness_keys(self.item_seq()).take(i as int + 1));
            }
            i = i + 1;
        }
        assert(keys@ =~= coldness_keys(self.item_seq()));
        let order = stable_order_by(&keys);
        proof {
            lemma_stable_order_range(keys@.len(), keys@);
        }
        self.ranked_copies(&order, limit)
    }
}

} // verus!
