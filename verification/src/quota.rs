//! Tenant-based resource quotas (storage, objects, rate limits).
//!
//! Times are nanoseconds since the Unix epoch, as the library's clock reads
//! them. Each operation that reads the clock has a twin ending in `_at` that
//! takes the time as an argument and carries the exact contract.

use crate::clock::now_nanos;
use crate::strmap::StrMap;
use crate::text::{decimal, u64_to_decimal};
use vstd::prelude::*;

verus! {

/// Default storage limit: 10 GiB.
pub const DEFAULT_STORAGE_LIMIT: u64 = 10737418240;

/// Default object limit: one million objects.
pub const DEFAULT_OBJECT_LIMIT: u64 = 1000000;

/// Default rate limit: requests per rate window.
pub const DEFAULT_RATE_LIMIT: u32 = 1000;

/// Length of the rate window in seconds.
pub const DEFAULT_RATE_WINDOW_SECS: u64 = 1;

/// Length of the rate window in nanoseconds.
pub const RATE_WINDOW_NANOS: i64 = 1000000000;

/// Limits that apply to one tenant.
pub struct TenantQuota {
    pub tenant_id: String,
    /// Maximum storage in bytes (0 = unlimited)
    pub storage_limit: u64,
    /// Maximum number of objects (0 = unlimited)
    pub object_limit: u64,
    /// Maximum requests per rate window (0 = unlimited)
    pub rate_limit: u32,
    pub enabled: bool,
    /// When the quota was made, in nanoseconds since the epoch.
    pub created_at: Option<i64>,
}

impl TenantQuota {
    /// The default limits for `tenant_id`, made at time `now`.
    pub fn new_at(tenant_id: String, now: i64) -> (r: Self)
        ensures
            r.tenant_id == tenant_id,
            r.storage_limit == DEFAULT_STORAGE_LIMIT,
            r.object_limit == DEFAULT_OBJECT_LIMIT,
            r.rate_limit == DEFAULT_RATE_LIMIT,
            r.enabled,
            r.created_at == Some(now),
    {
        TenantQuota {
            tenant_id,
            storage_limit: DEFAULT_STORAGE_LIMIT,
            object_limit: DEFAULT_OBJECT_LIMIT,
            rate_limit: DEFAULT_RATE_LIMIT,
            enabled: true,
            created_at: Some(now),
        }
    }

    /// The default limits for `tenant_id`, made now.
    pub fn new(tenant_id: String) -> (r: Self)
        ensures
            r.tenant_id == tenant_id,
            r.storage_limit == DEFAULT_STORAGE_LIMIT,
            r.object_limit == DEFAULT_OBJECT_LIMIT,
            r.rate_limit == DEFAULT_RATE_LIMIT,
            r.enabled,
            r.created_at is Some,
    {
        Self::new_at(tenant_id, now_nanos())
    }

    /// No limits at all for `tenant_id`.
    pub fn unlimited(tenant_id: String) -> (r: Self)
        ensures
            r.tenant_id == tenant_id,
            r.storage_limit == 0,
            r.object_limit == 0,
            r.rate_limit == 0,
            r.enabled,
            r.created_at is Some,
    {
        Self::with_limits(tenant_id, 0, 0, 0)
    }

    /// The given limits for `tenant_id`.
    pub fn with_limits(tenant_id: String, storage_limit: u64, object_limit: u64, rate_limit: u32) -> (r:
        Self)
        ensures
            r.tenant_id == tenant_id,
            r.storage_limit == storage_limit,
            r.object_limit == object_limit,
            r.rate_limit == rate_limit,
            r.enabled,
            r.created_at is Some,
    {
        TenantQuota {
            tenant_id,
            storage_limit,
            object_limit,
            rate_limit,
            enabled: true,
            created_at: Some(now_nanos()),
        }
    }
}

impl Clone for TenantQuota {
    fn clone(&self) -> (r: Self)
        ensures
            r == *self,
    {
        TenantQuota {
            tenant_id: self.tenant_id.clone(),
            storage_limit: self.storage_limit,
            object_limit: self.object_limit,
            rate_limit: self.rate_limit,
            enabled: self.enabled,
            created_at: self.created_at,
        }
    }
}

/// What a tenant has used.
pub struct TenantUsage {
    pub storage_used: u64,
    pub object_count: u64,
    /// Times of recorded requests, in nanoseconds since the epoch.
    pub request_times: Vec<i64>,
}

/// The abstract value of a tenant's usage.
pub struct UsageView {
    pub storage_used: u64,
    pub object_count: u64,
    pub request_times: Seq<i64>,
}

impl View for TenantUsage {
    type V = UsageView;

    open spec fn view(&self) -> UsageView {
        UsageView {
            storage_used: self.storage_used,
            object_count: self.object_count,
            request_times: self.request_times@,
        }
    }
}

/// The usage of a tenant that has none recorded.
pub open spec fn empty_usage() -> UsageView {
    UsageView { storage_used: 0, object_count: 0, request_times: Seq::empty() }
}

/// Whether a request at time `t` lies in the rate window that ends at `now`.
pub open spec fn in_window(now: i64) -> spec_fn(i64) -> bool {
    |t: i64| t > now - RATE_WINDOW_NANOS
}

/// Whether `additional` more bytes fit the quota.
pub open spec fn storage_fits(used: u64, quota: TenantQuota, additional: u64) -> bool {
    quota.storage_limit == 0 || used + additional <= quota.storage_limit
}

/// Whether `additional` more objects fit the quota.
pub open spec fn objects_fit(count: u64, quota: TenantQuota, additional: u64) -> bool {
    quota.object_limit == 0 || count + additional <= quota.object_limit
}

/// The request times kept by a rate check at `now`: those inside the window,
/// or all of them when the rate is unlimited.
pub open spec fn kept_times(times: Seq<i64>, quota: TenantQuota, now: i64) -> Seq<i64> {
    if quota.rate_limit == 0 {
        times
    } else {
        times.filter(in_window(now))
    }
}

/// Whether a rate check at `now` lets one more request through.
pub open spec fn rate_allows(times: Seq<i64>, quota: TenantQuota, now: i64) -> bool {
    quota.rate_limit == 0 || (kept_times(times, quota, now).len() as u32) < quota.rate_limit
}

impl TenantUsage {
    /// No usage.
    pub fn new_empty() -> (r: Self)
        ensures
            r@ == empty_usage(),
    {
        let r = TenantUsage { storage_used: 0, object_count: 0, request_times: Vec::new() };
        assert(r@.request_times =~= Seq::<i64>::empty());
        r
    }

    /// A copy of this usage.
    pub fn duplicate(&self) -> (r: Self)
        ensures
            r@ == self@,
    {
        let mut times: Vec<i64> = Vec::new();
        let mut i: usize = 0;
        while i < self.request_times.len()
            invariant
                i <= self.request_times@.len(),
                times@ == self.request_times@.take(i as int),
            decreases self.request_times@.len() - i,
        {
            times.push(self.request_times[i]);
            i = i + 1;
            assert(times@ =~= self.request_times@.take(i as int));
        }
        assert(self.request_times@.take(i as int) =~= self.request_times@);
        TenantUsage {
            storage_used: self.storage_used,
            object_count: self.object_count,
            request_times: times,
        }
    }

    /// Whether `additional_bytes` more bytes fit the quota.
    pub fn check_storage(&self, quota: &TenantQuota, additional_bytes: u64) -> (r: bool)
        ensures
            r == storage_fits(self.storage_used, *quota, additional_bytes),
    {
        if quota.storage_limit == 0 {
            return true;
        }
        (self.storage_used as u128) + (additional_bytes as u128) <= quota.storage_limit as u128
    }

    /// Whether `additional_objects` more objects fit the quota.
    pub fn check_objects(&self, quota: &TenantQuota, additional_objects: u64) -> (r: bool)
        ensures
            r == objects_fit(self.object_count, *quota, additional_objects),
    {
        if quota.object_limit == 0 {
            return true;
        }
        (self.object_count as u128) + (additional_objects as u128) <= quota.object_limit as u128
    }

    /// Forgets requests that left the rate window ending at `now`, then says
    /// whether one more request fits the rate limit.
    pub fn check_rate_at(&mut self, quota: &TenantQuota, now: i64) -> (r: bool)
        ensures
            final(self).storage_used == old(self).storage_used,
            final(self).object_count == old(self).object_count,
            final(self).request_times@ == kept_times(old(self).request_times@, *quota, now),
            r == rate_allows(old(self).request_times@, *quota, now),
    {
        if quota.rate_limit == 0 {
            return true;
        }
        let ghost old_times = self.request_times@;
        let mut kept: Vec<i64> = Vec::new();
        let mut i: usize = 0;
        while i < self.request_times.len()
            invariant
                i <= self.request_times@.len(),
                self.request_times@ == old_times,
                kept@ == old_times.take(i as int).filter(in_window(now)),
            decreases self.request_times@.len() - i,
        {
            let t = self.request_times[i];
            proof {
                assert(old_times.take(i as int + 1) =~= old_times.take(i as int).push(t));
                old_times.take(i as int).lemma_filter_push(t, in_window(now));
            }
            if (t as i128) > (now as i128) - (RATE_WINDOW_NANOS as i128) {
                kept.push(t);
            }
            i = i + 1;
        }
        assert(old_times.take(i as int) =~= old_times);
        self.request_times = kept;
        (self.request_times.len() as u32) < quota.rate_limit
    }

    /// Forgets requests that left the current rate window, then says whether
    /// one more request fits the rate limit.
    pub fn check_rate(&mut self, quota: &TenantQuota) -> (r: bool)
        ensures
            final(self).storage_used == old(self).storage_used,
            final(self).object_count == old(self).object_count,
            exists|now: i64|
                final(self).request_times@ == kept_times(old(self).request_times@, *quota, now)
                    && r == rate_allows(old(self).request_times@, *quota, now),
    {
        let now = now_nanos();
        self.check_rate_at(quota, now)
    }

    /// Records a request at time `now`.
    pub fn record_request_at(&mut self, now: i64)
        ensures
            final(self).storage_used == old(self).storage_used,
            final(self).object_count == old(self).object_count,
            final(self).request_times@ == old(self).request_times@.push(now),
    {
        self.request_times.push(now);
    }

    /// Records a request now.
    pub fn record_request(&mut self)
        ensures
            final(self).storage_used == old(self).storage_used,
            final(self).object_count == old(self).object_count,
            exists|now: i64| final(self).request_times@ == old(self).request_times@.push(now),
    {
        let now = now_nanos();
        self.record_request_at(now);
    }

    /// Adds stored bytes, saturating at the largest `u64`.
    pub fn add_storage(&mut self, bytes: u64)
        ensures
            final(self).storage_used == (if old(self).storage_used + bytes > u64::MAX {
                u64::MAX as int
            } else {
                old(self).storage_used + bytes
            }),
            final(self).object_count == old(self).object_count,
            final(self).request_times@ == old(self).request_times@,
    {
        self.storage_used = self.storage_used.saturating_add(bytes);
    }

    /// Removes stored bytes, stopping at zero.
    pub fn remove_storage(&mut self, bytes: u64)
        ensures
            final(self).storage_used == (if old(self).storage_used < bytes {
                0
            } else {
                old(self).storage_used - bytes
            }),
            final(self).object_count == old(self).object_count,
            final(self).request_times@ == old(self).request_times@,
    {
        self.storage_used = self.storage_used.saturating_sub(bytes);
    }

    /// Adds objects, saturating at the largest `u64`.
    pub fn add_objects(&mut self, count: u64)
        ensures
            final(self).object_count == (if old(self).object_count + count > u64::MAX {
                u64::MAX as int
            } else {
                old(self).object_count + count
            }),
            final(self).storage_used == old(self).storage_used,
            final(self).request_times@ == old(self).request_times@,
    {
        self.object_count = self.object_count.saturating_add(count);
    }

    /// Removes objects, stopping at zero.
    pub fn remove_objects(&mut self, count: u64)
        ensures
            final(self).object_count == (if old(self).object_count < count {
                0
            } else {
                old(self).object_count - count
            }),
            final(self).storage_used == old(self).storage_used,
            final(self).request_times@ == old(self).request_times@,
    {
        self.object_count = self.object_count.saturating_sub(count);
    }
}

impl Default for TenantUsage {
    fn default() -> (r: Self)
        ensures
            r@ == empty_usage(),
    {
        Self::new_empty()
    }
}

/// The outcome of a quota check.
#[derive(Debug, Clone, Copy, PartialEq, Eq, Structural)]
pub enum QuotaCheckResult {
    Allowed,
    TenantNotFound,
    StorageLimitExceeded { limit: u64, used: u64, requested: u64 },
    ObjectLimitExceeded { limit: u64, count: u64 },
    RateLimitExceeded { limit: u32, window_secs: u64 },
    TenantDisabled,
}

/// The text of the storage error.
pub open spec fn storage_exceeded_text(limit: u64, used: u64, requested: u64) -> Seq<char> {
    "Storage quota exceeded: limit="@ + decimal(limit as nat) + " bytes, used="@ + decimal(
        used as nat,
    ) + " bytes, requested="@ + decimal(requested as nat) + " bytes"@
}

/// The text of the object-count error.
pub open spec fn objects_exceeded_text(limit: u64, count: u64) -> Seq<char> {
    "Object count quota exceeded: limit="@ + decimal(limit as nat) + ", current count="@ + decimal(
        count as nat,
    )
}

/// The text of the rate error.
pub open spec fn rate_exceeded_text(limit: u32, window_secs: u64) -> Seq<char> {
    "Rate limit exceeded: "@ + decimal(limit as nat) + " requests per "@ + decimal(
        window_secs as nat,
    ) + " second(s)"@
}

/// The message that goes with a refusal; none for an allowed check.
pub open spec fn spec_error_message(r: QuotaCheckResult) -> Option<Seq<char>> {
    match r {
        QuotaCheckResult::Allowed => None,
        QuotaCheckResult::TenantNotFound => None,
        QuotaCheckResult::StorageLimitExceeded { limit, used, requested } => Some(
            storage_exceeded_text(limit, used, requested),
        ),
        QuotaCheckResult::ObjectLimitExceeded { limit, count } => Some(
            objects_exceeded_text(limit, count),
        ),
        QuotaCheckResult::RateLimitExceeded { limit, window_secs } => Some(
            rate_exceeded_text(limit, window_secs),
        ),
        QuotaCheckResult::TenantDisabled => Some("Tenant is disabled"@),
    }
}

impl QuotaCheckResult {
    /// Whether the operation may go ahead.
    pub fn is_allowed(&self) -> (r: bool)
        ensures
            r == (*self is Allowed || *self is TenantNotFound),
    {
        match self {
            QuotaCheckResult::Allowed => true,
            QuotaCheckResult::TenantNotFound => true,
            _ => false,
        }
    }

    /// The message to report for a refusal.
    pub fn error_message(&self) -> (r: Option<String>)
        ensures
            match r {
                Some(s) => spec_error_message(*self) == Some(s@),
                None => spec_error_message(*self) is None,
            },
    {
        match self {
            QuotaCheckResult::Allowed => None,
            QuotaCheckResult::TenantNotFound => None,
            QuotaCheckResult::StorageLimitExceeded { limit, used, requested } => {
                let mut s = "Storage quota exceeded: limit=".to_owned();
                s.append(u64_to_decimal(*limit).as_str());
                s.append(" bytes, used=");
                s.append(u64_to_decimal(*used).as_str());
                s.append(" bytes, requested=");
                s.append(u64_to_decimal(*requested).as_str());
                s.append(" bytes");
                Some(s)
            },
            QuotaCheckResult::ObjectLimitExceeded { limit, count } => {
                let mut s = "Object count quota exceeded: limit=".to_owned();
                s.append(u64_to_decimal(*limit).as_str());
                s.append(", current count=");
                s.append(u64_to_decimal(*count).as_str());
                Some(s)
            },
            QuotaCheckResult::RateLimitExceeded { limit, window_secs } => {
                let mut s = "Rate limit exceeded: ".to_owned();
                s.append(u64_to_decimal(*limit as u64).as_str());
                s.append(" requests per ");
                s.append(u64_to_decimal(*window_secs).as_str());
                s.append(" second(s)");
                Some(s)
            },
            QuotaCheckResult::TenantDisabled => Some("Tenant is disabled".to_owned()),
        }
    }
}

/// The outcome of a storage check against `quota` with `used` bytes in use.
pub open spec fn spec_check_storage(quota: TenantQuota, used: u64, additional: u64) -> QuotaCheckResult {
    if !quota.enabled {
        QuotaCheckResult::TenantDisabled
    } else if storage_fits(used, quota, additional) {
        QuotaCheckResult::Allowed
    } else {
        QuotaCheckResult::StorageLimitExceeded {
            limit: quota.storage_limit,
            used,
            requested: additional,
        }
    }
}

/// The outcome of an object check against `quota` with `count` objects stored.
pub open spec fn spec_check_objects(quota: TenantQuota, count: u64) -> QuotaCheckResult {
    if !quota.enabled {
        QuotaCheckResult::TenantDisabled
    } else if objects_fit(count, quota, 1) {
        QuotaCheckResult::Allowed
    } else {
        QuotaCheckResult::ObjectLimitExceeded { limit: quota.object_limit, count }
    }
}

/// The outcome of a rate check that lets the request through or refuses it.
pub open spec fn spec_rate_result(quota: TenantQuota, allowed: bool) -> QuotaCheckResult {
    if allowed {
        QuotaCheckResult::Allowed
    } else {
        QuotaCheckResult::RateLimitExceeded {
            limit: quota.rate_limit,
            window_secs: DEFAULT_RATE_WINDOW_SECS,
        }
    }
}

/// A tenant's usage after a rate check at `now` (and the request, if it was let through).
pub open spec fn usage_after_request(u: UsageView, quota: TenantQuota, now: i64) -> UsageView {
    let kept = kept_times(u.request_times, quota, now);
    UsageView {
        storage_used: u.storage_used,
        object_count: u.object_count,
        request_times: if rate_allows(u.request_times, quota, now) {
            kept.push(now)
        } else {
            kept
        },
    }
}

/// A tenant's usage after storing one object of `bytes` bytes.
pub open spec fn usage_after_add(u: UsageView, bytes: u64) -> UsageView {
    UsageView {
        storage_used: if u.storage_used + bytes > u64::MAX {
            u64::MAX
        } else {
            (u.storage_used + bytes) as u64
        },
        object_count: if u.object_count + 1 > u64::MAX {
            u64::MAX
        } else {
            (u.object_count + 1) as u64
        },
        request_times: u.request_times,
    }
}

/// A tenant's usage after removing one object of `bytes` bytes.
pub open spec fn usage_after_remove(u: UsageView, bytes: u64) -> UsageView {
    UsageView {
        storage_used: if u.storage_used < bytes {
            0
        } else {
            (u.storage_used - bytes) as u64
        },
        object_count: if u.object_count < 1 {
            0
        } else {
            (u.object_count - 1) as u64
        },
        request_times: u.request_times,
    }
}

/// The outcome of the storage and object checks: a disabled quota refuses
/// every check as `TenantDisabled`, whatever the usage; an enabled one lets
/// the request through exactly when the limit is unlimited (zero) or the
/// usage after it stays within the limit, and otherwise names the limit and
/// the usage.
pub proof fn lemma_check_outcomes(quota: TenantQuota, used: u64, count: u64, additional: u64)
    ensures
        !quota.enabled ==> spec_check_storage(quota, used, additional)
            == QuotaCheckResult::TenantDisabled,
        !quota.enabled ==> spec_check_objects(quota, count) == QuotaCheckResult::TenantDisabled,
        quota.enabled ==> (spec_check_storage(quota, used, additional) == QuotaCheckResult::Allowed
            <==> (quota.storage_limit == 0 || used + additional <= quota.storage_limit)),
        quota.enabled && !(quota.storage_limit == 0 || used + additional <= quota.storage_limit)
            ==> spec_check_storage(quota, used, additional)
            == (QuotaCheckResult::StorageLimitExceeded {
            limit: quota.storage_limit,
            used,
            requested: additional,
        }),
        quota.enabled ==> (spec_check_objects(quota, count) == QuotaCheckResult::Allowed <==> (
        quota.object_limit == 0 || count + 1 <= quota.object_limit)),
        quota.enabled && !(quota.object_limit == 0 || count + 1 <= quota.object_limit)
            ==> spec_check_objects(quota, count) == (QuotaCheckResult::ObjectLimitExceeded {
            limit: quota.object_limit,
            count,
        }),
{
}

/// Removing an object of `bytes` bytes undoes storing it, as long as storing
/// it did not saturate a counter.
pub proof fn lemma_add_remove_restores(u: UsageView, bytes: u64)
    requires
        u.storage_used + bytes <= u64::MAX,
        u.object_count + 1 <= u64::MAX,
    ensures
        usage_after_remove(usage_after_add(u, bytes), bytes) == u,
{
}

/// Filtering twice by the same predicate keeps what filtering once keeps.
proof fn lemma_filter_twice(s: Seq<i64>, p: spec_fn(i64) -> bool)
    ensures
        s.filter(p).filter(p) == s.filter(p),
    decreases s.len(),
{
    if s.len() > 0 {
        let init = s.drop_last();
        let x = s.last();
        assert(s =~= init.push(x));
        lemma_filter_twice(init, p);
        init.lemma_filter_push(x, p);
        if p(x) {
            init.filter(p).lemma_filter_push(x, p);
        }
    }
}

/// The rate limit holds at every step: when at most `rate_limit` requests lie
/// in the window before a rate-checked request, at most `rate_limit` lie in
/// it afterwards.
pub proof fn lemma_rate_window_bound(u: UsageView, quota: TenantQuota, now: i64)
    requires
        quota.rate_limit > 0,
        kept_times(u.request_times, quota, now).len() <= quota.rate_limit,
    ensures
        kept_times(usage_after_request(u, quota, now).request_times, quota, now).len()
            <= quota.rate_limit,
{
    let p = in_window(now);
    let kept = u.request_times.filter(p);
    lemma_filter_twice(u.request_times, p);
    if rate_allows(u.request_times, quota, now) {
        kept.lemma_filter_push(now, p);
    }
}

/// The metrics lines of one tenant.
pub open spec fn prometheus_block(tenant: Seq<char>, u: UsageView, q: TenantQuota) -> Seq<char> {
    "minikv_tenant_storage_used_bytes{tenant=\""@ + tenant + "\"} "@ + decimal(
        u.storage_used as nat,
    ) + "\n"@ + "minikv_tenant_storage_limit_bytes{tenant=\""@ + tenant + "\"} "@ + decimal(
        q.storage_limit as nat,
    ) + "\n"@ + "minikv_tenant_object_count{tenant=\""@ + tenant + "\"} "@ + decimal(
        u.object_count as nat,
    ) + "\n"@ + "minikv_tenant_object_limit{tenant=\""@ + tenant + "\"} "@ + decimal(
        q.object_limit as nat,
    ) + "\n"@
}

/// The metrics lines of one tenant.
fn prometheus_block_string(tenant: &str, u: &TenantUsage, q: &TenantQuota) -> (r: String)
    ensures
        r@ == prometheus_block(tenant@, u@, *q),
{
    let mut out = "minikv_tenant_storage_used_bytes{tenant=\"".to_owned();
    out.append(tenant);
    out.append("\"} ");
    out.append(u64_to_decimal(u.storage_used).as_str());
    out.append("\n");
    out.append("minikv_tenant_storage_limit_bytes{tenant=\"");
    out.append(tenant);
    out.append("\"} ");
    out.append(u64_to_decimal(q.storage_limit).as_str());
    out.append("\n");
    out.append("minikv_tenant_object_count{tenant=\"");
    out.append(tenant);
    out.append("\"} ");
    out.append(u64_to_decimal(u.object_count).as_str());
    out.append("\n");
    out.append("minikv_tenant_object_limit{tenant=\"");
    out.append(tenant);
    out.append("\"} ");
    out.append(u64_to_decimal(q.object_limit).as_str());
    out.append("\n");
    assert(out@ =~= prometheus_block(tenant@, u@, *q));
    out
}

/// The tenant order after recording usage for `tenant`: a tenant seen for
/// the first time goes last.
pub open spec fn tenants_after(
    tenants: Seq<Seq<char>>,
    usage: Map<Seq<char>, UsageView>,
    tenant: Seq<char>,
) -> Seq<Seq<char>> {
    if usage.contains_key(tenant) {
        tenants
    } else {
        tenants.push(tenant)
    }
}

/// Keeps tenant quotas and usage.
pub struct QuotaManager {
    quotas: StrMap<TenantQuota>,
    usage: StrMap<TenantUsage>,
    default_quota: TenantQuota,
}

impl QuotaManager {
    /// The configured quotas, by tenant.
    pub closed spec fn quotas_view(&self) -> Map<Seq<char>, TenantQuota> {
        self.quotas@
    }

    /// The configured quotas, in the order tenants were first configured.
    pub closed spec fn quota_seq(&self) -> Seq<TenantQuota> {
        self.quotas.value_seq()
    }

    /// The recorded usage, by tenant.
    pub closed spec fn usage_view(&self) -> Map<Seq<char>, UsageView> {
        self.usage@.map_values(|u: TenantUsage| u@)
    }

    /// The tenants with recorded usage, in the order their usage was first recorded.
    pub closed spec fn usage_tenants(&self) -> Seq<Seq<char>> {
        self.usage.key_seq()
    }

    /// The tenants with a quota of their own, in the order their quotas were first set.
    pub closed spec fn quota_tenants(&self) -> Seq<Seq<char>> {
        self.quotas.key_seq()
    }

    proof fn lemma_lists_tenants(&self)
        requires
            self.quotas.inv(),
            self.usage.inv(),
        ensures
            self.lists_tenants(),
    {
        self.quotas.lemma_view();
        self.usage.lemma_view();
        assert(self.usage_view().dom() =~= self.usage@.dom());
    }

    /// Whether `quota_seq` lists each quota of its own once, in the order of
    /// `quota_tenants`, and `usage_tenants` lists each tenant with recorded
    /// usage once.
    pub open spec fn lists_tenants(&self) -> bool {
        &&& self.quota_tenants().len() == self.quota_seq().len()
        &&& self.quota_tenants().no_duplicates()
        &&& self.quota_tenants().to_set() == self.quotas_view().dom()
        &&& forall|i: int|
            0 <= i < self.quota_tenants().len() ==> self.quotas_view()[#[trigger] self.quota_tenants()[i]]
                == self.quota_seq()[i]
        &&& self.usage_tenants().no_duplicates()
        &&& self.usage_tenants().to_set() == self.usage_view().dom()
    }

    /// The quota used for tenants without one of their own.
    pub closed spec fn default_quota_view(&self) -> TenantQuota {
        self.default_quota
    }

    /// The quota that applies to `tenant`.
    pub open spec fn effective_quota(&self, tenant: Seq<char>) -> TenantQuota {
        if self.quotas_view().contains_key(tenant) {
            self.quotas_view()[tenant]
        } else {
            self.default_quota_view()
        }
    }

    /// The usage of `tenant` (none recorded counts as empty).
    pub open spec fn usage_of(&self, tenant: Seq<char>) -> UsageView {
        if self.usage_view().contains_key(tenant) {
            self.usage_view()[tenant]
        } else {
            empty_usage()
        }
    }

    /// The metrics text for the tenants with recorded usage, the first `n` of them.
    pub open spec fn prometheus_prefix(&self, n: int) -> Seq<char>
        decreases n,
    {
        if n <= 0 {
            Seq::empty()
        } else {
            let t = self.usage_tenants()[n - 1];
            self.prometheus_prefix(n - 1) + prometheus_block(
                t,
                self.usage_view()[t],
                self.effective_quota(t),
            )
        }
    }

    /// A manager with no tenant configured; the default quota has the default limits.
    pub fn new() -> (r: Self)
        ensures
            r.quotas_view() == Map::<Seq<char>, TenantQuota>::empty(),
            r.usage_view() == Map::<Seq<char>, UsageView>::empty(),
            r.quota_tenants() == Seq::<Seq<char>>::empty(),
            r.usage_tenants() == Seq::<Seq<char>>::empty(),
            r.default_quota_view().tenant_id@ == "__default__"@,
            r.default_quota_view().storage_limit == DEFAULT_STORAGE_LIMIT,
            r.default_quota_view().object_limit == DEFAULT_OBJECT_LIMIT,
            r.default_quota_view().rate_limit == DEFAULT_RATE_LIMIT,
            r.default_quota_view().enabled,
    {
        let r = QuotaManager {
            quotas: StrMap::new(),
            usage: StrMap::new(),
            default_quota: TenantQuota::new("__default__".to_owned()),
        };
        assert(r.usage_view() =~= Map::<Seq<char>, UsageView>::empty());
        r
    }

    /// Replaces the quota used for tenants without one of their own.
    pub fn set_default_quota(&mut self, quota: TenantQuota)
        ensures
            final(self).default_quota_view() == quota,
            final(self).quotas_view() == old(self).quotas_view(),
            final(self).quota_seq() == old(self).quota_seq(),
            final(self).quota_tenants() == old(self).quota_tenants(),
            final(self).usage_view() == old(self).usage_view(),
            final(self).usage_tenants() == old(self).usage_tenants(),
    {
        self.default_quota = quota;
    }

    /// Configures the quota of `quota.tenant_id`.
    pub fn set_quota(&mut self, quota: TenantQuota)
        ensures
            final(self).quotas_view() == old(self).quotas_view().insert(quota.tenant_id@, quota),
            final(self).quota_tenants() == if old(self).quotas_view().contains_key(quota.tenant_id@) {
                old(self).quota_tenants()
            } else {
                old(self).quota_tenants().push(quota.tenant_id@)
            },
            final(self).default_quota_view() == old(self).default_quota_view(),
            final(self).usage_view() == old(self).usage_view(),
            final(self).usage_tenants() == old(self).usage_tenants(),
    {
        let id = quota.tenant_id.clone();
        self.quotas.insert(id, quota);
    }

    /// The quota configured for `tenant_id`.
    pub fn get_quota(&self, tenant_id: &str) -> (r: Option<TenantQuota>)
        ensures
            r == (if self.quotas_view().contains_key(tenant_id@) {
                Some(self.quotas_view()[tenant_id@])
            } else {
                None::<TenantQuota>
            }),
    {
        match self.quotas.get(tenant_id) {
            Some(q) => Some(q.clone()),
            None => None,
        }
    }

    /// Removes the quota configured for `tenant_id` and hands it back.
    pub fn remove_quota(&mut self, tenant_id: &str) -> (r: Option<TenantQuota>)
        ensures
            final(self).quotas_view() == old(self).quotas_view().remove(tenant_id@),
            final(self).quota_tenants() == if old(self).quotas_view().contains_key(tenant_id@) {
                old(self).quota_tenants().remove(old(self).quota_tenants().index_of(tenant_id@))
            } else {
                old(self).quota_tenants()
            },
            r == (if old(self).quotas_view().contains_key(tenant_id@) {
                Some(old(self).quotas_view()[tenant_id@])
            } else {
                None::<TenantQuota>
            }),
            final(self).default_quota_view() == old(self).default_quota_view(),
            final(self).usage_view() == old(self).usage_view(),
            final(self).usage_tenants() == old(self).usage_tenants(),
    {
        self.quotas.remove(tenant_id)
    }

    /// The usage recorded for `tenant_id` (empty if none).
    pub fn get_usage(&self, tenant_id: &str) -> (r: TenantUsage)
        ensures
            r@ == self.usage_of(tenant_id@),
    {
        match self.usage.get(tenant_id) {
            Some(u) => {
                let r = u.duplicate();
                assert(self.usage_view()[tenant_id@] == u@);
                r
            },
            None => {
                assert(!self.usage_view().contains_key(tenant_id@));
                TenantUsage::new_empty()
            },
        }
    }

    /// The configured quotas.
    pub fn list_quotas(&self) -> (r: Vec<TenantQuota>)
        ensures
            self.lists_tenants(),
            r@ == self.quota_seq(),
    {
        proof {
            use_type_invariant(&self.quotas);
            use_type_invariant(&self.usage);
            self.lemma_lists_tenants();
        }
        let mut out: Vec<TenantQuota> = Vec::new();
        let mut i: usize = 0;
        let n = self.quotas.len();
        while i < n
            invariant
                n == self.quotas.key_seq().len(),
                i <= n,
                out@ == self.quotas.value_seq().take(i as int),
            decreases n - i,
        {
            proof {
                use_type_invariant(&self.quotas);
                self.quotas.lemma_view();
            }
            let q = self.quotas.value_at(i).clone();
            out.push(q);
            i = i + 1;
            assert(out@ =~= self.quotas.value_seq().take(i as int));
        }
        proof {
            use_type_invariant(&self.quotas);
            self.quotas.lemma_view();
        }
        assert(self.quotas.value_seq().take(n as int) =~= self.quotas.value_seq());
        out
    }

    fn quota_for(&self, tenant_id: &str) -> (r: &TenantQuota)
        ensures
            *r == self.effective_quota(tenant_id@),
    {
        match self.quotas.get(tenant_id) {
            Some(q) => q,
            None => &self.default_quota,
        }
    }

    fn usage_counts(&self, tenant_id: &str) -> (r: (u64, u64))
        ensures
            r.0 == self.usage_of(tenant_id@).storage_used,
            r.1 == self.usage_of(tenant_id@).object_count,
    {
        match self.usage.get(tenant_id) {
            Some(u) => {
                assert(self.usage_view()[tenant_id@] == u@);
                (u.storage_used, u.object_count)
            },
            None => {
                assert(!self.usage_view().contains_key(tenant_id@));
                (0, 0)
            },
        }
    }

    /// Checks whether `tenant_id` may store `additional_bytes` more bytes.
    pub fn check_storage(&self, tenant_id: &str, additional_bytes: u64) -> (r: QuotaCheckResult)
        ensures
            r == spec_check_storage(
                self.effective_quota(tenant_id@),
                self.usage_of(tenant_id@).storage_used,
                additional_bytes,
            ),
    {
        let quota = self.quota_for(tenant_id);
        if !quota.enabled {
            return QuotaCheckResult::TenantDisabled;
        }
        let (used, count) = self.usage_counts(tenant_id);
        let usage = TenantUsage { storage_used: used, object_count: count, request_times: Vec::new() };
        if usage.check_storage(quota, additional_bytes) {
            QuotaCheckResult::Allowed
        } else {
            QuotaCheckResult::StorageLimitExceeded {
                limit: quota.storage_limit,
                used: used,
                requested: additional_bytes,
            }
        }
    }

    /// Checks whether `tenant_id` may store one more object.
    pub fn check_objects(&self, tenant_id: &str) -> (r: QuotaCheckResult)
        ensures
            r == spec_check_objects(
                self.effective_quota(tenant_id@),
                self.usage_of(tenant_id@).object_count,
            ),
    {
        let quota = self.quota_for(tenant_id);
        if !quota.enabled {
            return QuotaCheckResult::TenantDisabled;
        }
        let (used, count) = self.usage_counts(tenant_id);
        let usage = TenantUsage { storage_used: used, object_count: count, request_times: Vec::new() };
        if usage.check_objects(quota, 1) {
            QuotaCheckResult::Allowed
        } else {
            QuotaCheckResult::ObjectLimitExceeded { limit: quota.object_limit, count: count }
        }
    }

    fn take_usage(&self, tenant_id: &str) -> (r: TenantUsage)
        ensures
            r@ == self.usage_of(tenant_id@),
    {
        self.get_usage(tenant_id)
    }

    /// Checks the rate limit of `tenant_id` at time `now` and, if the request
    /// fits, records it. A disabled tenant is refused and nothing is recorded.
    pub fn check_and_record_request_at(&mut self, tenant_id: &str, now: i64) -> (r:
        QuotaCheckResult)
        ensures
            ({
                let q = old(self).effective_quota(tenant_id@);
                let u = old(self).usage_of(tenant_id@);
                if !q.enabled {
                    &&& r == QuotaCheckResult::TenantDisabled
                    &&& final(self).usage_view() == old(self).usage_view()
                    &&& final(self).usage_tenants() == old(self).usage_tenants()
                } else {
                    &&& r == spec_rate_result(q, rate_allows(u.request_times, q, now))
                    &&& final(self).usage_view() == old(self).usage_view().insert(
                        tenant_id@,
                        usage_after_request(u, q, now),
                    )
                    &&& final(self).usage_tenants() == tenants_after(
                        old(self).usage_tenants(),
                        old(self).usage_view(),
                        tenant_id@,
                    )
                }
            }),
            final(self).quota_tenants() == old(self).quota_tenants(),
            final(self).quotas_view() == old(self).quotas_view(),
            final(self).default_quota_view() == old(self).default_quota_view(),
    {
        let quota = self.quota_for(tenant_id).clone();
        if !quota.enabled {
            return QuotaCheckResult::TenantDisabled;
        }
        let mut usage = self.take_usage(tenant_id);
        let allowed = usage.check_rate_at(&quota, now);
        if allowed {
            usage.record_request_at(now);
        }
        let ghost nu = usage@;
        self.usage.insert(tenant_id.to_owned(), usage);
        proof {
            assert(nu == usage_after_request(old(self).usage_of(tenant_id@), quota, now));
            assert(self.usage_view() =~= old(self).usage_view().insert(tenant_id@, nu));
        }
        if allowed {
            QuotaCheckResult::Allowed
        } else {
            QuotaCheckResult::RateLimitExceeded {
                limit: quota.rate_limit,
                window_secs: DEFAULT_RATE_WINDOW_SECS,
            }
        }
    }

    /// What a rate check of `tenant` at time `now` leaves behind and answers.
    pub open spec fn request_outcome(
        before: &Self,
        after: &Self,
        tenant: Seq<char>,
        r: QuotaCheckResult,
        now: i64,
    ) -> bool {
        let q = before.effective_quota(tenant);
        let u = before.usage_of(tenant);
        if !q.enabled {
            &&& r == QuotaCheckResult::TenantDisabled
            &&& after.usage_view() == before.usage_view()
            &&& after.usage_tenants() == before.usage_tenants()
        } else {
            &&& r == spec_rate_result(q, rate_allows(u.request_times, q, now))
            &&& after.usage_view() == before.usage_view().insert(
                tenant,
                usage_after_request(u, q, now),
            )
            &&& after.usage_tenants() == tenants_after(
                before.usage_tenants(),
                before.usage_view(),
                tenant,
            )
        }
    }

    /// Checks the rate limit of `tenant_id` now and, if the request fits, records it.
    pub fn check_and_record_request(&mut self, tenant_id: &str) -> (r: QuotaCheckResult)
        ensures
            exists|now: i64|
                #[trigger] Self::request_outcome(old(self), final(self), tenant_id@, r, now),
            final(self).quotas_view() == old(self).quotas_view(),
            final(self).default_quota_view() == old(self).default_quota_view(),
    {
        let now = now_nanos();
        let r = self.check_and_record_request_at(tenant_id, now);
        assert(Self::request_outcome(old(self), self, tenant_id@, r, now));
        r
    }

    /// Records that `tenant_id` stored one object of `bytes` bytes.
    pub fn record_storage_add(&mut self, tenant_id: &str, bytes: u64)
        ensures
            final(self).usage_tenants() == tenants_after(
                old(self).usage_tenants(),
                old(self).usage_view(),
                tenant_id@,
            ),
            final(self).usage_view() == old(self).usage_view().insert(
                tenant_id@,
                usage_after_add(old(self).usage_of(tenant_id@), bytes),
            ),
            final(self).quotas_view() == old(self).quotas_view(),
            final(self).quota_seq() == old(self).quota_seq(),
            final(self).quota_tenants() == old(self).quota_tenants(),
            final(self).default_quota_view() == old(self).default_quota_view(),
    {
        let mut usage = self.take_usage(tenant_id);
        usage.add_storage(bytes);
        usage.add_objects(1);
        let ghost nu = usage@;
        self.usage.insert(tenant_id.to_owned(), usage);
        proof {
            assert(nu == usage_after_add(old(self).usage_of(tenant_id@), bytes));
            assert(self.usage_view() =~= old(self).usage_view().insert(tenant_id@, nu));
        }
    }

    /// Records that `tenant_id` removed one object of `bytes` bytes; nothing
    /// happens for a tenant without recorded usage.
    pub fn record_storage_remove(&mut self, tenant_id: &str, bytes: u64)
        ensures
            final(self).usage_tenants() == old(self).usage_tenants(),
            old(self).usage_view().contains_key(tenant_id@) ==> final(self).usage_view()
                == old(self).usage_view().insert(
                tenant_id@,
                usage_after_remove(old(self).usage_of(tenant_id@), bytes),
            ),
            !old(self).usage_view().contains_key(tenant_id@) ==> final(self).usage_view()
                == old(self).usage_view(),
            final(self).quotas_view() == old(self).quotas_view(),
            final(self).quota_seq() == old(self).quota_seq(),
            final(self).quota_tenants() == old(self).quota_tenants(),
            final(self).default_quota_view() == old(self).default_quota_view(),
    {
        match self.usage.find(tenant_id) {
            None => {},
            Some(i) => {
                let mut usage = self.usage.value_at(i).duplicate();
                usage.remove_storage(bytes);
                usage.remove_objects(1);
                let ghost nu = usage@;
                self.usage.set_value_at(i, usage);
                proof {
                    assert(old(self).usage_of(tenant_id@) == old(self).usage.value_seq()[i as int]@);
                    assert(nu == usage_after_remove(old(self).usage_of(tenant_id@), bytes));
                    assert(self.usage_view() =~= old(self).usage_view().insert(tenant_id@, nu));
                }
            },
        }
    }

    /// The usage and limits of every tenant with recorded usage, in Prometheus text format.
    pub fn to_prometheus(&self) -> (r: String)
        ensures
            self.lists_tenants(),
            r@ == self.prometheus_prefix(self.usage_tenants().len() as int),
    {
        proof {
            use_type_invariant(&self.quotas);
            use_type_invariant(&self.usage);
            self.lemma_lists_tenants();
        }
        let mut out = String::new();
        let n = self.usage.len();
        let mut i: usize = 0;
        while i < n
            invariant
                n == self.usage_tenants().len(),
                i <= n,
                out@ == self.prometheus_prefix(i as int),
            decreases n - i,
        {
            proof {
                use_type_invariant(&self.usage);
                self.usage.lemma_view();
            }
            let tenant = self.usage.key_at(i);
            let u = self.usage.value_at(i);
            let quota = self.quota_for(tenant.as_str());
            proof {
                assert(self.usage_view()[tenant@] == u@);
            }
            let block = prometheus_block_string(tenant.as_str(), u, quota);
            out.append(block.as_str());
            i = i + 1;
            proof {
                let t = self.usage_tenants()[i - 1];
                assert(t == tenant@);
                assert(out@ =~= self.prometheus_prefix(i - 1) + prometheus_block(
                    t,
                    self.usage_view()[t],
                    self.effective_quota(t),
                ));
            }
        }
        out
    }
}

impl Default for QuotaManager {
    fn default() -> (r: Self)
        ensures
            r.quotas_view() == Map::<Seq<char>, TenantQuota>::empty(),
            r.usage_view() == Map::<Seq<char>, UsageView>::empty(),
            r.quota_tenants() == Seq::<Seq<char>>::empty(),
            r.usage_tenants() == Seq::<Seq<char>>::empty(),
    {
        Self::new()
    }
}

} // verus!
