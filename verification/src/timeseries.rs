//! Time-series storage engine.
//!
//! Series are stored per series key (the metric and its sorted tags) in
//! hourly buckets of encoded points. Timestamps are milliseconds since the
//! epoch. A point's value is held as the bit pattern of its IEEE-754 double
//! (`f64::to_bits`), which is exactly what the encoding stores; arithmetic on
//! the values themselves (aggregation) is left to the caller.

use vstd::bytes::*;
use vstd::prelude::*;
use crate::chars::{
    after_first, before_first, chars_of, ends_with, find_char, lemma_next_pos, less_than, next_pos,
    starts_with, str_lt, string_of_range,
};
use crate::clock::now_millis;
use crate::codec::{append_u32_le, append_u64_le, read_u32_le, read_u64_le, u32_at, u64_at};
use crate::error::Error;
use crate::strmap::StrMap;

verus! {

/// The default retention, in days.
pub fn default_retention_days() -> (r: u32)
    ensures
        r == 30,
{
    30
}

/// The default maximum number of points a query returns.
pub fn default_max_points() -> (r: usize)
    ensures
        r == 10000,
{
    10000
}

/// The default interval of the background jobs, in seconds.
pub fn default_job_interval() -> (r: u64)
    ensures
        r == 3600,
{
    3600
}

/// `true`, the default of the compression switches.
pub fn default_true() -> (r: bool)
    ensures
        r,
{
    true
}

/// A time resolution.
#[derive(Debug, Clone, Copy, PartialEq, Eq, Structural)]
pub enum Resolution {
    Second,
    Minute,
    Hour,
    Day,
    Week,
    Month,
}

/// The length of a resolution step, in milliseconds (a month counts 30 days).
pub open spec fn spec_millis(r: Resolution) -> i64 {
    match r {
        Resolution::Second => 1_000,
        Resolution::Minute => 60_000,
        Resolution::Hour => 3_600_000,
        Resolution::Day => 86_400_000,
        Resolution::Week => 604_800_000,
        Resolution::Month => 2_592_000_000,
    }
}

/// `ts` rounded down to a multiple of `step`: the start of the step that
/// holds it (`/` on `int` is floor division for a positive `step`).
pub open spec fn align_to(ts: int, step: int) -> int {
    (ts / step) * step
}

/// Floor division of `t` by `m`, from the division of non-negative numbers.
proof fn lemma_floor_div(t: int, m: int, q: int)
    requires
        m > 0,
        t >= 0 ==> q == t / m,
        t < 0 ==> q == -((-t + m - 1) / m),
    ensures
        q == t / m,
        q * m <= t,
        t - q * m < m,
{
    if t >= 0 {
        vstd::arithmetic::div_mod::lemma_fundamental_div_mod(t, m);
        assert(t == m * q + t % m);
        assert(m * q == q * m) by (nonlinear_arith);
    } else {
        let x = -t + m - 1;
        let c = x / m;
        vstd::arithmetic::div_mod::lemma_fundamental_div_mod(x, m);
        let r = x % m;
        assert(x == m * c + r);
        assert(m * c == c * m) by (nonlinear_arith);
        assert(0 <= r < m);
        assert(t == (-c) * m + (m - 1 - r)) by (nonlinear_arith)
            requires
                x == c * m + r,
                x == -t + m - 1,
        ;
        vstd::arithmetic::div_mod::lemma_fundamental_div_mod_converse(t, m, -c, m - 1 - r);
    }
}

impl Resolution {
    /// The length of a step, in milliseconds.
    pub fn as_millis(&self) -> (r: i64)
        ensures
            r == spec_millis(*self),
    {
        match self {
            Resolution::Second => 1_000,
            Resolution::Minute => 60_000,
            Resolution::Hour => 3_600_000,
            Resolution::Day => 86_400_000,
            Resolution::Week => 604_800_000,
            Resolution::Month => 2_592_000_000,
        }
    }

    /// `ts` rounded down to a step boundary: the start of the step that
    /// holds it. The start must be representable.
    pub fn align(&self, ts: i64) -> (r: i64)
        requires
            align_to(ts as int, spec_millis(*self) as int) >= i64::MIN,
        ensures
            r == align_to(ts as int, spec_millis(*self) as int),
    {
        let m: i128 = self.as_millis() as i128;
        let t: i128 = ts as i128;
        let q: i128 = if t >= 0 {
            t / m
        } else {
            0 - ((0 - t) + m - 1) / m
        };
        proof {
            lemma_floor_div(t as int, m as int, q as int);
            assert(-0x8000_0000_0000_0001 <= q <= 0x8000_0000_0000_0000) by (nonlinear_arith)
                requires
                    q * m <= t,
                    t - q * m < m,
                    1000 <= m <= 2_592_000_000,
                    -0x8000_0000_0000_0000 <= t < 0x8000_0000_0000_0000,
            ;
            assert(-0x8000_0000_0000_0001 * 2_592_000_000 <= q * m <= 0x8000_0000_0000_0000
                * 2_592_000_000) by (nonlinear_arith)
                requires
                    -0x8000_0000_0000_0001 <= q <= 0x8000_0000_0000_0000,
                    1000 <= m <= 2_592_000_000,
            ;
        }
        let a: i128 = q * m;
        a as i64
    }
}

/// Rounding down to a step moves a timestamp back by less than one step,
/// onto a multiple of the step; an aligned timestamp stays where it is.
pub proof fn lemma_align(ts: int, step: int)
    requires
        step > 0,
    ensures
        align_to(ts, step) <= ts,
        ts - align_to(ts, step) < step,
        align_to(ts, step) % step == 0,
        0 <= ts ==> 0 <= align_to(ts, step),
        align_to(align_to(ts, step), step) == align_to(ts, step),
{
    let q = ts / step;
    lemma_floor_div(ts, step, if ts >= 0 { ts / step } else { -((-ts + step - 1) / step) });
    vstd::arithmetic::div_mod::lemma_fundamental_div_mod_converse(q * step, step, q, 0);
    if ts >= 0 {
        assert(q >= 0) by (nonlinear_arith)
            requires
                q == ts / step,
                step > 0,
                ts >= 0,
        ;
        assert(q * step >= 0) by (nonlinear_arith)
            requires
                q >= 0,
                step > 0,
        ;
    }
}

/// An aggregation function.
#[derive(Debug, Clone, Copy, PartialEq, Eq, Structural)]
pub enum Aggregation {
    Average,
    Sum,
    Min,
    Max,
    Count,
    First,
    Last,
}

/// How points are encoded.
#[derive(Debug, Clone, Copy, PartialEq, Eq, Structural)]
pub struct CompressionConfig {
    /// Enable delta encoding for timestamps
    pub delta_encoding: bool,
    /// Enable run-length encoding for repeated values
    pub run_length_encoding: bool,
    /// Enable Gorilla compression for floats
    pub gorilla_compression: bool,
}

impl Default for CompressionConfig {
    fn default() -> (r: Self)
        ensures
            r.delta_encoding && r.run_length_encoding && r.gorilla_compression,
    {
        Self { delta_encoding: true, run_length_encoding: true, gorilla_compression: true }
    }
}

/// A downsampling rule: data older than `after_secs` seconds goes to `resolution`.
#[derive(Debug, Clone, Copy, PartialEq, Eq, Structural)]
pub struct DownsampleRule {
    /// Apply after this many seconds
    pub after_secs: i64,
    /// Target resolution
    pub resolution: Resolution,
    /// Aggregation function
    pub aggregation: Aggregation,
}

/// The time-series configuration.
#[derive(Debug, Clone)]
pub struct TimeseriesConfig {
    /// Enable time-series optimizations
    pub enabled: bool,
    /// Data retention in days
    pub retention_days: u32,
    /// Downsampling rules
    pub downsample_rules: Vec<DownsampleRule>,
    /// Compression settings
    pub compression: CompressionConfig,
    /// Maximum points per query
    pub max_points_per_query: usize,
    /// Background job interval (seconds)
    pub job_interval_secs: u64,
}

impl Default for TimeseriesConfig {
    /// Off, 30 days of retention, hourly averages after a week and daily
    /// averages after 30 days, every encoding on.
    fn default() -> (r: Self)
        ensures
            !r.enabled,
            r.retention_days == 30,
            r.downsample_rules@ == seq![
                DownsampleRule {
                    after_secs: 604800i64,
                    resolution: Resolution::Hour,
                    aggregation: Aggregation::Average,
                },
                DownsampleRule {
                    after_secs: 2592000i64,
                    resolution: Resolution::Day,
                    aggregation: Aggregation::Average,
                },
            ],
            r.compression.delta_encoding,
            r.compression.run_length_encoding,
            r.compression.gorilla_compression,
            r.max_points_per_query == 10000,
            r.job_interval_secs == 3600,
    {
        let mut rules: Vec<DownsampleRule> = Vec::new();
        rules.push(
            DownsampleRule {
                after_secs: 7 * 86400,
                resolution: Resolution::Hour,
                aggregation: Aggregation::Average,
            },
        );
        rules.push(
            DownsampleRule {
                after_secs: 30 * 86400,
                resolution: Resolution::Day,
                aggregation: Aggregation::Average,
            },
        );
        Self {
            enabled: false,
            retention_days: 30,
            downsample_rules: rules,
            compression: CompressionConfig::default(),
            max_points_per_query: 10000,
            job_interval_secs: 3600,
        }
    }
}

/// A single data point.
#[derive(Debug, Clone, Copy, PartialEq, Eq, Structural)]
pub struct DataPoint {
    /// Timestamp in milliseconds since epoch
    pub timestamp: i64,
    /// The value, as the bits of an IEEE-754 double
    pub value_bits: u64,
}

impl DataPoint {
    /// A point at `timestamp` with the value whose bits are `value_bits`.
    pub fn new(timestamp: i64, value_bits: u64) -> (r: Self)
        ensures
            r == (DataPoint { timestamp, value_bits }),
    {
        Self { timestamp, value_bits }
    }

    /// A point now.
    pub fn now(value_bits: u64) -> (r: Self)
        ensures
            r.value_bits == value_bits,
            r.timestamp >= 0,
    {
        Self { timestamp: now_millis(), value_bits }
    }
}

/// The compressed points of one bucket.
#[derive(Debug, Clone)]
pub struct CompressedBlock {
    /// Start timestamp
    pub start_ts: i64,
    /// End timestamp
    pub end_ts: i64,
    /// Number of points
    pub count: usize,
    /// Compressed data
    pub data: Vec<u8>,
}

/// The bytes of one delta-encoded point: the timestamp's distance from the
/// previous one, cut to 32 bits, then the value's bits, little-endian.
pub open spec fn delta_record(delta: int, value_bits: u64) -> Seq<u8> {
    spec_u32_to_le_bytes(wrap32(delta)) + spec_u64_to_le_bytes(value_bits)
}

/// The bytes of one raw point: the timestamp's 64 bits, then the value's bits.
pub open spec fn raw_record(ts: i64, value_bits: u64) -> Seq<u8> {
    spec_u64_to_le_bytes(wrap64(ts as int)) + spec_u64_to_le_bytes(value_bits)
}

/// `x` cut to its low 32 bits, as `x as i32` keeps them.
pub open spec fn wrap32(x: int) -> u32 {
    (x % 0x1_0000_0000) as u32
}

/// `x` cut to its low 64 bits, as the two's-complement bytes of an `i64` hold them.
pub open spec fn wrap64(x: int) -> u64 {
    (x % 0x1_0000_0000_0000_0000) as u64
}

/// A 32-bit pattern read as a signed number.
pub open spec fn sext32(x: u32) -> int {
    if x < 0x8000_0000 {
        x as int
    } else {
        x as int - 0x1_0000_0000
    }
}

/// A 64-bit pattern read as a signed number.
pub open spec fn sext64(x: u64) -> int {
    if x < 0x8000_0000_0000_0000 {
        x as int
    } else {
        x as int - 0x1_0000_0000_0000_0000
    }
}

/// The timestamp point `k` of `ps` is measured from: the previous point's,
/// or its own for the first point.
pub open spec fn prev_ts(ps: Seq<DataPoint>, k: int) -> i64 {
    if k == 0 {
        ps[0].timestamp
    } else {
        ps[k - 1].timestamp
    }
}

/// The delta encoding of the first `n` points of `ps`; the first point's
/// distance is taken from `ps[0]` itself.
pub open spec fn encode_delta(ps: Seq<DataPoint>, n: int) -> Seq<u8>
    decreases n,
{
    if n <= 0 {
        Seq::empty()
    } else {
        encode_delta(ps, n - 1) + delta_record(
            ps[n - 1].timestamp - prev_ts(ps, n - 1),
            ps[n - 1].value_bits,
        )
    }
}

/// The raw encoding of the first `n` points of `ps`.
pub open spec fn encode_raw(ps: Seq<DataPoint>, n: int) -> Seq<u8>
    decreases n,
{
    if n <= 0 {
        Seq::empty()
    } else {
        encode_raw(ps, n - 1) + raw_record(ps[n - 1].timestamp, ps[n - 1].value_bits)
    }
}

/// The timestamp of record `k` of delta-encoded `data` that starts at `start`:
/// `start` plus the distances of records `0..=k`.
pub open spec fn delta_ts(data: Seq<u8>, start: int, k: int) -> int
    decreases k,
{
    if k <= 0 {
        start + sext32(u32_at(data, 0))
    } else {
        delta_ts(data, start, k - 1) + sext32(u32_at(data, 12 * k))
    }
}

/// Whether every timestamp of delta-encoded `data` fits an `i64`.
pub open spec fn delta_fits(data: Seq<u8>, start: int) -> bool {
    forall|k: int|
        0 <= k < data.len() / 12 ==> i64::MIN <= #[trigger] delta_ts(data, start, k) <= i64::MAX
}

/// The points that delta-encoded `data` starting at `start` holds: one per
/// whole 12-byte record; trailing bytes are ignored.
pub open spec fn decode_delta(data: Seq<u8>, start: int) -> Seq<DataPoint> {
    Seq::new(
        (data.len() / 12) as nat,
        |k: int|
            DataPoint {
                timestamp: delta_ts(data, start, k) as i64,
                value_bits: u64_at(data, 12 * k + 4),
            },
    )
}

/// The points that raw-encoded `data` holds: one per whole 16-byte record.
pub open spec fn decode_raw(data: Seq<u8>) -> Seq<DataPoint> {
    Seq::new(
        (data.len() / 16) as nat,
        |k: int|
            DataPoint {
                timestamp: sext64(u64_at(data, 16 * k)) as i64,
                value_bits: u64_at(data, 16 * k + 8),
            },
    )
}

/// Whether the distance between consecutive points of `ps` fits 32 signed bits.
pub open spec fn deltas_fit(ps: Seq<DataPoint>) -> bool {
    forall|k: int|
        0 < k < ps.len() ==> -0x8000_0000 <= #[trigger] ps[k].timestamp - ps[k - 1].timestamp
            < 0x8000_0000
}

/// Whether the start of the step of `step` milliseconds that holds each
/// point of `ps` is representable.
pub open spec fn points_alignable(ps: Seq<DataPoint>, step: int) -> bool {
    forall|i: int| 0 <= i < ps.len() ==> align_to(#[trigger] ps[i].timestamp as int, step) >= i64::MIN
}

/// Whether the distances between consecutive points of `ps` can be computed
/// without overflow.
pub open spec fn deltas_computable(ps: Seq<DataPoint>) -> bool {
    forall|k: int|
        0 < k < ps.len() ==> i64::MIN <= #[trigger] ps[k].timestamp - ps[k - 1].timestamp
            <= i64::MAX
}

/// Whether the distances between consecutive points can be computed without overflow.
pub fn points_deltas_computable(points: &[DataPoint]) -> (r: bool)
    ensures
        r == deltas_computable(points@),
{
    let mut k: usize = 1;
    while k < points.len()
        invariant
            1 <= k,
            forall|m: int|
                0 < m < k && m < points@.len() ==> i64::MIN <= #[trigger] points@[m].timestamp
                    - points@[m - 1].timestamp <= i64::MAX,
        decreases points@.len() - k,
    {
        let d: i128 = (points[k].timestamp as i128) - (points[k - 1].timestamp as i128);
        if d < i64::MIN as i128 || d > i64::MAX as i128 {
            return false;
        }
        k = k + 1;
    }
    true
}

fn wrap32_of(d: i64) -> (r: u32)
    ensures
        r == wrap32(d as int),
{
    if d >= 0 {
        let u: u64 = d as u64;
        (u % 0x1_0000_0000) as u32
    } else {
        let m: u64 = if d == i64::MIN {
            9223372036854775808u64
        } else {
            (-d) as u64
        };
        let low: u64 = m % 0x1_0000_0000;
        if low == 0 {
            0
        } else {
            (0x1_0000_0000u64 - low) as u32
        }
    }
}

fn wrap64_of(d: i64) -> (r: u64)
    ensures
        r == wrap64(d as int),
{
    if d >= 0 {
        d as u64
    } else if d == i64::MIN {
        9223372036854775808u64
    } else {
        let m: u64 = (-d) as u64;
        (18446744073709551615u64 - m) + 1
    }
}

fn sext32_of(x: u32) -> (r: i64)
    ensures
        r == sext32(x),
{
    if x < 0x8000_0000 {
        x as i64
    } else {
        (x as i64) - 0x1_0000_0000
    }
}

fn sext64_of(x: u64) -> (r: i64)
    ensures
        r == sext64(x),
{
    if x < 0x8000_0000_0000_0000 {
        x as i64
    } else {
        let m: u64 = 18446744073709551615u64 - x;
        -(m as i64) - 1
    }
}

/// Delta-encodes `points`.
pub fn encode_points_delta(points: &[DataPoint]) -> (r: Vec<u8>)
    requires
        deltas_computable(points@),
    ensures
        r@ == encode_delta(points@, points@.len() as int),
{
    let mut data: Vec<u8> = Vec::new();
    let n = points.len();
    if n == 0 {
        return data;
    }
    let mut prev_ts = points[0].timestamp;
    let mut i: usize = 0;
    while i < n
        invariant
            n == points@.len(),
            n > 0,
            deltas_computable(points@),
            i <= n,
            prev_ts == (if i == 0 {
                points@[0].timestamp
            } else {
                points@[i - 1].timestamp
            }),
            data@ == encode_delta(points@, i as int),
        decreases n - i,
    {
        let p = points[i];
        let delta: i64 = if i == 0 {
            0
        } else {
            p.timestamp - prev_ts
        };
        append_u32_le(&mut data, wrap32_of(delta));
        append_u64_le(&mut data, p.value_bits);
        prev_ts = p.timestamp;
        i = i + 1;
        proof {
            assert(data@ =~= encode_delta(points@, i as int));
        }
    }
    data
}

/// Raw-encodes `points`.
pub fn encode_points_raw(points: &[DataPoint]) -> (r: Vec<u8>)
    ensures
        r@ == encode_raw(points@, points@.len() as int),
{
    let mut data: Vec<u8> = Vec::new();
    let n = points.len();
    let mut i: usize = 0;
    while i < n
        invariant
            n == points@.len(),
            i <= n,
            data@ == encode_raw(points@, i as int),
        decreases n - i,
    {
        let p = points[i];
        append_u64_le(&mut data, wrap64_of(p.timestamp));
        append_u64_le(&mut data, p.value_bits);
        i = i + 1;
        proof {
            assert(data@ =~= encode_raw(points@, i as int));
        }
    }
    data
}

/// Decodes delta-encoded `data` whose timestamps start from `start`.
pub fn decode_points_delta(data: &[u8], start: i64) -> (r: Vec<DataPoint>)
    requires
        delta_fits(data@, start as int),
    ensures
        r@ == decode_delta(data@, start as int),
{
    let mut points: Vec<DataPoint> = Vec::new();
    let mut pos: usize = 0;
    let mut ts: i64 = start;
    let ghost n = data@.len() / 12;
    while data.len() - pos >= 12
        invariant
            pos <= data@.len(),
            n == data@.len() / 12,
            delta_fits(data@, start as int),
            pos == 12 * points@.len(),
            points@.len() <= n,
            points@.len() == 0 ==> ts == start,
            points@.len() > 0 ==> ts == delta_ts(data@, start as int, points@.len() - 1),
            points@ == decode_delta(data@, start as int).take(points@.len() as int),
        decreases data@.len() - pos,
    {
        let k = points.len();
        let delta = sext32_of(read_u32_le(data, pos));
        proof {
            assert(k < n) by (nonlinear_arith)
                requires
                    pos == 12 * k,
                    pos + 12 <= data@.len(),
                    n == data@.len() / 12,
            ;
            assert(i64::MIN <= delta_ts(data@, start as int, k as int) <= i64::MAX);
        }
        ts = ts + delta;
        let value = read_u64_le(data, pos + 4);
        points.push(DataPoint { timestamp: ts, value_bits: value });
        pos = pos + 12;
        proof {
            assert(points@ =~= decode_delta(data@, start as int).take(points@.len() as int));
        }
    }
    proof {
        assert(points@.len() >= n) by (nonlinear_arith)
            requires
                pos == 12 * points@.len(),
                pos + 12 > data@.len(),
                n == data@.len() / 12,
        ;
        assert(points@ =~= decode_delta(data@, start as int));
    }
    points
}

/// Decodes raw-encoded `data`.
pub fn decode_points_raw(data: &[u8]) -> (r: Vec<DataPoint>)
    ensures
        r@ == decode_raw(data@),
{
    let mut points: Vec<DataPoint> = Vec::new();
    let mut pos: usize = 0;
    let ghost n = data@.len() / 16;
    while data.len() - pos >= 16
        invariant
            pos <= data@.len(),
            n == data@.len() / 16,
            pos == 16 * points@.len(),
            points@.len() <= n,
            points@ == decode_raw(data@).take(points@.len() as int),
        decreases data@.len() - pos,
    {
        let k = points.len();
        proof {
            assert(k < n) by (nonlinear_arith)
                requires
                    pos == 16 * k,
                    pos + 16 <= data@.len(),
                    n == data@.len() / 16,
            ;
        }
        let ts = sext64_of(read_u64_le(data, pos));
        let value = read_u64_le(data, pos + 8);
        points.push(DataPoint { timestamp: ts, value_bits: value });
        pos = pos + 16;
        proof {
            assert(points@ =~= decode_raw(data@).take(points@.len() as int));
        }
    }
    proof {
        assert(points@.len() >= n) by (nonlinear_arith)
            requires
                pos == 16 * points@.len(),
                pos + 16 > data@.len(),
                n == data@.len() / 16,
        ;
        assert(points@ =~= decode_raw(data@));
    }
    points
}

/// Where each field of each record sits in the raw encoding.
proof fn lemma_encode_raw_layout(ps: Seq<DataPoint>, n: int)
    requires
        0 <= n <= ps.len(),
    ensures
        encode_raw(ps, n).len() == 16 * n,
        forall|k: int|
            0 <= k < n ==> u64_at(encode_raw(ps, n), 16 * k) == wrap64(
                (#[trigger] ps[k]).timestamp as int,
            ) && u64_at(encode_raw(ps, n), 16 * k + 8) == ps[k].value_bits,
    decreases n,
{
    lemma_auto_spec_u64_to_from_le_bytes();
    if n > 0 {
        lemma_encode_raw_layout(ps, n - 1);
        let prev = encode_raw(ps, n - 1);
        let rec = raw_record(ps[n - 1].timestamp, ps[n - 1].value_bits);
        let all = encode_raw(ps, n);
        assert(all == prev + rec);
        assert forall|k: int| 0 <= k < n implies u64_at(all, 16 * k) == wrap64(
            (#[trigger] ps[k]).timestamp as int,
        ) && u64_at(all, 16 * k + 8) == ps[k].value_bits by {
            if k < n - 1 {
                assert(all.subrange(16 * k, 16 * k + 8) =~= prev.subrange(16 * k, 16 * k + 8));
                assert(all.subrange(16 * k + 8, 16 * k + 16) =~= prev.subrange(
                    16 * k + 8,
                    16 * k + 16,
                ));
            } else {
                assert(all.subrange(16 * k, 16 * k + 8) =~= spec_u64_to_le_bytes(
                    wrap64(ps[k].timestamp as int),
                ));
                assert(all.subrange(16 * k + 8, 16 * k + 16) =~= spec_u64_to_le_bytes(
                    ps[k].value_bits,
                ));
            }
        }
    }
}

/// Raw encoding loses nothing: decoding it gives back every point.
pub proof fn lemma_raw_roundtrip(ps: Seq<DataPoint>)
    ensures
        decode_raw(encode_raw(ps, ps.len() as int)) == ps,
{
    let n = ps.len() as int;
    lemma_encode_raw_layout(ps, n);
    let data = encode_raw(ps, n);
    assert(data.len() / 16 == n);
    let d = decode_raw(data);
    assert forall|k: int| 0 <= k < n implies #[trigger] d[k] == ps[k] by {
        let t = ps[k].timestamp;
        assert(u64_at(data, 16 * k) == wrap64(t as int));
        assert(sext64(wrap64(t as int)) == t);
    }
    assert(d =~= ps);
}

/// Where each field of each record sits in the delta encoding.
#[verifier::rlimit(40)]
proof fn lemma_encode_delta_layout(ps: Seq<DataPoint>, n: int)
    requires
        0 <= n <= ps.len(),
    ensures
        encode_delta(ps, n).len() == 12 * n,
        forall|k: int|
            0 <= k < n ==> u32_at(encode_delta(ps, n), 12 * k) == wrap32(
                (#[trigger] ps[k]).timestamp - prev_ts(ps, k),
            ) && u64_at(encode_delta(ps, n), 12 * k + 4) == ps[k].value_bits,
    decreases n,
{
    if n > 0 {
        lemma_encode_delta_layout(ps, n - 1);
        let prev = encode_delta(ps, n - 1);
        let rec = delta_record(ps[n - 1].timestamp - prev_ts(ps, n - 1), ps[n - 1].value_bits);
        let all = encode_delta(ps, n);
        assert(all == prev + rec);
        lemma_delta_record_fields(prev, ps[n - 1].timestamp - prev_ts(ps, n - 1), ps[n - 1].value_bits);
        assert forall|k: int| 0 <= k < n implies u32_at(all, 12 * k) == wrap32(
            (#[trigger] ps[k]).timestamp - prev_ts(ps, k),
        ) && u64_at(all, 12 * k + 4) == ps[k].value_bits by {
            if k < n - 1 {
                assert(all.subrange(12 * k, 12 * k + 4) =~= prev.subrange(12 * k, 12 * k + 4));
                assert(all.subrange(12 * k + 4, 12 * k + 12) =~= prev.subrange(
                    12 * k + 4,
                    12 * k + 12,
                ));
            }
        }
    }
}

proof fn lemma_delta_record_fields(prev: Seq<u8>, d: int, bits: u64)
    ensures
        (prev + delta_record(d, bits)).len() == prev.len() + 12,
        u32_at(prev + delta_record(d, bits), prev.len() as int) == wrap32(d),
        u64_at(prev + delta_record(d, bits), prev.len() as int + 4) == bits,
{
    lemma_auto_spec_u32_to_from_le_bytes();
    lemma_auto_spec_u64_to_from_le_bytes();
    let all = prev + delta_record(d, bits);
    let p = prev.len() as int;
    assert(all.subrange(p, p + 4) =~= spec_u32_to_le_bytes(wrap32(d)));
    assert(all.subrange(p + 4, p + 12) =~= spec_u64_to_le_bytes(bits));
}

/// Delta encoding loses nothing as long as consecutive timestamps lie less
/// than 2^31 milliseconds apart: decoding from the first timestamp gives back
/// every point (and no timestamp overflows on the way).
pub proof fn lemma_delta_roundtrip(ps: Seq<DataPoint>)
    requires
        ps.len() > 0,
        deltas_fit(ps),
    ensures
        delta_fits(encode_delta(ps, ps.len() as int), ps[0].timestamp as int),
        decode_delta(encode_delta(ps, ps.len() as int), ps[0].timestamp as int) == ps,
{
    let n = ps.len() as int;
    lemma_encode_delta_layout(ps, n);
    let data = encode_delta(ps, n);
    let start = ps[0].timestamp as int;
    assert(data.len() / 12 == n);
    assert forall|k: int| 0 <= k < n implies #[trigger] delta_ts(data, start, k)
        == ps[k].timestamp by {
        lemma_delta_ts_prefix(ps, data, k);
    }
    let d = decode_delta(data, start);
    assert forall|k: int| 0 <= k < n implies #[trigger] d[k] == ps[k] by {
        assert(delta_ts(data, start, k) == ps[k].timestamp);
    }
    assert(d =~= ps);
}

proof fn lemma_delta_ts_prefix(ps: Seq<DataPoint>, data: Seq<u8>, k: int)
    requires
        ps.len() > 0,
        deltas_fit(ps),
        0 <= k < ps.len(),
        data == encode_delta(ps, ps.len() as int),
        forall|j: int|
            0 <= j < ps.len() ==> u32_at(data, 12 * j) == wrap32(
                (#[trigger] ps[j]).timestamp - prev_ts(ps, j),
            ),
    ensures
        delta_ts(data, ps[0].timestamp as int, k) == ps[k].timestamp,
    decreases k,
{
    let start = ps[0].timestamp as int;
    if k == 0 {
        assert(u32_at(data, 0) == wrap32(0));
        assert(sext32(wrap32(0)) == 0);
    } else {
        lemma_delta_ts_prefix(ps, data, k - 1);
        let d = ps[k].timestamp - ps[k - 1].timestamp;
        assert(u32_at(data, 12 * k) == wrap32(d));
        assert(-0x8000_0000 <= d < 0x8000_0000);
        assert(sext32(wrap32(d)) == d);
    }
}

/// The abstract value of a tag table: tag name to tag value.
pub open spec fn tag_view(m: StrMap<String>) -> Map<Seq<char>, Seq<char>> {
    Map::new(|k: Seq<char>| m@.contains_key(k), |k: Seq<char>| m@[k]@)
}

/// A series: a metric, its tags and its points.
pub struct TimeSeries {
    /// Metric name
    pub metric: String,
    /// Tags for filtering
    pub tags: StrMap<String>,
    /// Data points
    pub points: Vec<DataPoint>,
}

impl TimeSeries {
    /// An empty series of `metric` without tags.
    pub fn new(metric: &str) -> (r: Self)
        ensures
            r.metric@ == metric@,
            tag_view(r.tags) == Map::<Seq<char>, Seq<char>>::empty(),
            r.points@ == Seq::<DataPoint>::empty(),
    {
        let r = Self { metric: metric.to_owned(), tags: StrMap::new(), points: Vec::new() };
        assert(tag_view(r.tags) =~= Map::<Seq<char>, Seq<char>>::empty());
        r
    }

    /// The series with tag `key` set to `value`.
    pub fn with_tag(self, key: &str, value: &str) -> (r: Self)
        ensures
            r.metric == self.metric,
            tag_view(r.tags) == tag_view(self.tags).insert(key@, value@),
            r.points == self.points,
    {
        let mut s = self;
        s.tags.insert(key.to_owned(), value.to_owned());
        assert(tag_view(s.tags) =~= tag_view(self.tags).insert(key@, value@));
        s
    }

    /// Appends `point`.
    pub fn add_point(&mut self, point: DataPoint)
        ensures
            final(self).metric == old(self).metric,
            final(self).tags == old(self).tags,
            final(self).points@ == old(self).points@.push(point),
    {
        self.points.push(point);
    }
}

/// `s` with `x` placed before its first element that comes after `x`.
pub open spec fn lex_insert(s: Seq<Seq<char>>, x: Seq<char>) -> Seq<Seq<char>>
    decreases s.len(),
{
    if s.len() == 0 {
        seq![x]
    } else if str_lt(x, s[0]) {
        seq![x] + s
    } else {
        seq![s[0]] + lex_insert(s.drop_first(), x)
    }
}

/// The strings of `s` in the order of strings.
pub open spec fn lex_sort(s: Seq<Seq<char>>) -> Seq<Seq<char>>
    decreases s.len(),
{
    if s.len() == 0 {
        s
    } else {
        lex_insert(lex_sort(s.drop_last()), s.last())
    }
}

proof fn lemma_lex_insert_at(s: Seq<Seq<char>>, x: Seq<char>, p: int)
    requires
        0 <= p <= s.len(),
        forall|j: int| 0 <= j < p ==> !str_lt(x, #[trigger] s[j]),
        p < s.len() ==> str_lt(x, s[p]),
    ensures
        lex_insert(s, x) == s.insert(p, x),
    decreases p,
{
    if p == 0 {
        if s.len() == 0 {
            assert(seq![x] =~= s.insert(0, x));
        } else {
            assert(seq![x] + s =~= s.insert(0, x));
        }
    } else {
        let t = s.drop_first();
        assert forall|j: int| 0 <= j < p - 1 implies !str_lt(x, #[trigger] t[j]) by {
            assert(t[j] == s[j + 1]);
        }
        assert(p - 1 < t.len() ==> t[p - 1] == s[p]);
        lemma_lex_insert_at(t, x, p - 1);
        assert(seq![s[0]] + t.insert(p - 1, x) =~= s.insert(p, x));
    }
}

proof fn lemma_lex_insert_elems(s: Seq<Seq<char>>, x: Seq<char>)
    ensures
        lex_insert(s, x).len() == s.len() + 1,
        forall|j: int|
            0 <= j < lex_insert(s, x).len() ==> #[trigger] lex_insert(s, x)[j] == x || s.contains(
                lex_insert(s, x)[j],
            ),
    decreases s.len(),
{
    if s.len() > 0 && !str_lt(x, s[0]) {
        let t = s.drop_first();
        lemma_lex_insert_elems(t, x);
        let r = lex_insert(s, x);
        assert forall|j: int| 0 <= j < r.len() implies #[trigger] r[j] == x || s.contains(r[j]) by {
            if j > 0 {
                let y = lex_insert(t, x)[j - 1];
                assert(r[j] == y);
                if y != x {
                    let k = choose|k: int| 0 <= k < t.len() && t[k] == y;
                    assert(s[k + 1] == y);
                }
            } else {
                assert(s[0] == r[0]);
            }
        }
    } else if s.len() > 0 {
        let r = lex_insert(s, x);
        assert forall|j: int| 0 <= j < r.len() implies #[trigger] r[j] == x || s.contains(r[j]) by {
            if j > 0 {
                assert(r[j] == s[j - 1]);
            }
        }
    }
}

/// Sorting keeps the length, and every sorted string comes from `s`.
pub proof fn lemma_lex_sort_elems(s: Seq<Seq<char>>)
    ensures
        lex_sort(s).len() == s.len(),
        forall|j: int| 0 <= j < s.len() ==> s.contains(#[trigger] lex_sort(s)[j]),
    decreases s.len(),
{
    if s.len() > 0 {
        let p = s.drop_last();
        lemma_lex_sort_elems(p);
        lemma_lex_insert_elems(lex_sort(p), s.last());
        assert forall|j: int| 0 <= j < s.len() implies s.contains(#[trigger] lex_sort(s)[j]) by {
            let y = lex_sort(s)[j];
            if y != s.last() {
                let k = choose|k: int| 0 <= k < lex_sort(p).len() && lex_sort(p)[k] == y;
                let i = choose|i: int| 0 <= i < p.len() && p[i] == lex_sort(p)[k];
                assert(s[i] == y);
            } else {
                assert(s[s.len() - 1] == y);
            }
        }
    }
}

/// `name=value`.
pub open spec fn tag_pair(name: Seq<char>, value: Seq<char>) -> Seq<char> {
    name + seq!['='] + value
}

/// The first `n` tags of `names`, as `name=value` joined with commas.
pub open spec fn join_tags(names: Seq<Seq<char>>, tags: Map<Seq<char>, Seq<char>>, n: int) -> Seq<
    char,
>
    decreases n,
{
    if n <= 0 {
        Seq::empty()
    } else if n == 1 {
        tag_pair(names[0], tags[names[0]])
    } else {
        join_tags(names, tags, n - 1) + seq![','] + tag_pair(names[n - 1], tags[names[n - 1]])
    }
}

/// The key of the series of `metric` with tags `tags` (whose names, in any
/// order, are `names`): the metric alone if there is no tag, else the metric,
/// `|`, and the tags in the order of their names as `name=value` joined with
/// commas.
pub open spec fn series_key_of(
    metric: Seq<char>,
    names: Seq<Seq<char>>,
    tags: Map<Seq<char>, Seq<char>>,
) -> Seq<char> {
    if names.len() == 0 {
        metric
    } else {
        let sorted = lex_sort(names);
        metric + seq!['|'] + join_tags(sorted, tags, sorted.len() as int)
    }
}

/// The metric part of a series key: what comes before the first `|`.
pub open spec fn key_metric(key: Seq<char>) -> Seq<char> {
    before_first(key, '|')
}

/// Whether `pattern` has exactly one `*`.
pub open spec fn single_star(pattern: Seq<char>) -> bool {
    next_pos(pattern, '*', 0) < pattern.len() && next_pos(
        pattern,
        '*',
        next_pos(pattern, '*', 0) + 1,
    ) == pattern.len()
}

/// Whether the metric of series `key` matches `pattern`: without `*`, the
/// metric is the pattern; with one `*`, the metric starts with what precedes
/// it and ends with what follows it; with more, the metric starts with what
/// precedes the first.
pub open spec fn metric_matches(key: Seq<char>, pattern: Seq<char>) -> bool {
    let metric = key_metric(key);
    if next_pos(pattern, '*', 0) < pattern.len() {
        if single_star(pattern) {
            before_first(pattern, '*').is_prefix_of(metric) && ends_with(
                metric,
                after_first(pattern, '*'),
            )
        } else {
            before_first(pattern, '*').is_prefix_of(metric)
        }
    } else {
        metric == pattern
    }
}

/// The tags of the piece `part[start..end]`: the piece holds `name=value`
/// split at its first `=`; a piece without `=` adds nothing.
pub open spec fn add_piece(
    part: Seq<char>,
    start: int,
    end: int,
    acc: Map<Seq<char>, Seq<char>>,
) -> Map<Seq<char>, Seq<char>> {
    let q = next_pos(part, '=', start);
    if q < end {
        acc.insert(part.subrange(start, q), part.subrange(q + 1, end))
    } else {
        acc
    }
}

/// `acc` with the tags of the comma-separated pieces of `part` from `start`
/// on added in order (a later piece with the same name wins).
pub open spec fn tags_from(part: Seq<char>, start: int, acc: Map<Seq<char>, Seq<char>>) -> Map<
    Seq<char>,
    Seq<char>,
>
    decreases part.len() - start,
{
    if start < 0 || start > part.len() {
        acc
    } else {
        let e = next_pos(part, ',', start);
        let acc2 = add_piece(part, start, e, acc);
        if e >= part.len() {
            acc2
        } else {
            proof {
                lemma_next_pos(part, ',', start);
            }
            tags_from(part, e + 1, acc2)
        }
    }
}

/// The tag part of a series key: what lies between its first and second `|`.
pub open spec fn tags_part(key: Seq<char>) -> Seq<char> {
    before_first(after_first(key, '|'), '|')
}

/// The tags a series key carries.
pub open spec fn key_tags(key: Seq<char>) -> Map<Seq<char>, Seq<char>> {
    if next_pos(key, '|', 0) < key.len() {
        tags_from(tags_part(key), 0, Map::empty())
    } else {
        Map::empty()
    }
}

/// Whether every filter names a tag of series `key` with the filter's value.
pub open spec fn tags_match(key: Seq<char>, filters: Map<Seq<char>, Seq<char>>) -> bool {
    forall|k: Seq<char>|
        #[trigger] filters.contains_key(k) ==> key_tags(key).contains_key(k) && key_tags(key)[k]
            == filters[k]
}

/// The keys of `tags`, sorted.
fn sorted_keys<V>(tags: &StrMap<V>) -> (r: Vec<String>)
    ensures
        r@.map_values(|s: String| s@) == lex_sort(tags.key_seq()),
{
    let n = tags.len();
    let ghost ks = tags.key_seq();
    let mut out: Vec<String> = Vec::new();
    let mut out_chars: Vec<Vec<char>> = Vec::new();
    let mut i: usize = 0;
    while i < n
        invariant
            n == ks.len(),
            ks == tags.key_seq(),
            i <= n,
            out@.len() == out_chars@.len(),
            forall|j: int| 0 <= j < out@.len() ==> (#[trigger] out_chars@[j])@ == out@[j]@,
            out@.map_values(|s: String| s@) == lex_sort(ks.take(i as int)),
        decreases n - i,
    {
        let name = tags.key_at(i);
        let name_chars = chars_of(name.as_str());
        let ghost sorted = out@.map_values(|s: String| s@);
        let mut p: usize = 0;
        while p < out_chars.len() && !less_than(&name_chars, &out_chars[p])
            invariant
                out@.len() == out_chars@.len(),
                forall|j: int| 0 <= j < out@.len() ==> (#[trigger] out_chars@[j])@ == out@[j]@,
                sorted == out@.map_values(|s: String| s@),
                p <= out_chars@.len(),
                forall|j: int| 0 <= j < p ==> !str_lt(name_chars@, #[trigger] sorted[j]),
            decreases out_chars@.len() - p,
        {
            p = p + 1;
        }
        proof {
            assert(ks.take(i as int + 1).drop_last() =~= ks.take(i as int));
            assert(ks.take(i as int + 1).last() == name@);
            lemma_lex_insert_at(sorted, name@, p as int);
        }
        out.insert(p, name.clone());
        out_chars.insert(p, name_chars);
        i = i + 1;
        proof {
            assert(out@.map_values(|s: String| s@) =~= sorted.insert((p as int), name@));
        }
    }
    assert(ks.take(n as int) =~= ks);
    out
}

/// Whether `s` ends with `suffix`.
fn ends_with_str(s: &str, suffix: &str) -> (r: bool)
    ensures
        r == ends_with(s@, suffix@),
{
    let n = s.unicode_len();
    let m = suffix.unicode_len();
    if m > n {
        return false;
    }
    let tail = string_of_range(s, n - m, n);
    let sfx = suffix.to_owned();
    tail == sfx
}

/// The abstract value of a `CompressedBlock`.
pub struct BlockView {
    pub start_ts: i64,
    pub end_ts: i64,
    pub count: usize,
    pub data: Seq<u8>,
}

impl View for CompressedBlock {
    type V = BlockView;

    open spec fn view(&self) -> BlockView {
        BlockView {
            start_ts: self.start_ts,
            end_ts: self.end_ts,
            count: self.count,
            data: self.data@,
        }
    }
}

/// The block that holds `ps` (not empty), encoded with deltas or raw.
pub open spec fn encode_block(delta: bool, ps: Seq<DataPoint>) -> BlockView {
    BlockView {
        start_ts: ps[0].timestamp,
        end_ts: ps.last().timestamp,
        count: ps.len() as usize,
        data: if delta {
            encode_delta(ps, ps.len() as int)
        } else {
            encode_raw(ps, ps.len() as int)
        },
    }
}

/// The points block `b` holds.
pub open spec fn decode_block(delta: bool, b: BlockView) -> Seq<DataPoint> {
    if delta {
        decode_delta(b.data, b.start_ts as int)
    } else {
        decode_raw(b.data)
    }
}

/// Whether block `b` decodes without a timestamp overflowing.
pub open spec fn block_decodable(delta: bool, b: BlockView) -> bool {
    delta ==> delta_fits(b.data, b.start_ts as int)
}

/// A block gives back the points it was made of, as long as, with delta
/// encoding, consecutive timestamps lie less than 2^31 milliseconds apart.
pub proof fn lemma_block_roundtrip(delta: bool, ps: Seq<DataPoint>)
    requires
        ps.len() > 0,
        delta ==> deltas_fit(ps),
    ensures
        block_decodable(delta, encode_block(delta, ps)),
        decode_block(delta, encode_block(delta, ps)) == ps,
{
    if delta {
        lemma_delta_roundtrip(ps);
    } else {
        lemma_raw_roundtrip(ps);
    }
}

/// Whether bucket times ascend strictly.
pub open spec fn buckets_ascending(bs: Seq<(i64, BlockView)>) -> bool {
    forall|i: int, j: int| 0 <= i < j < bs.len() ==> (#[trigger] bs[i]).0 < (#[trigger] bs[j]).0
}

/// `bs` with the block of bucket `ts` set to `b`: an existing bucket is
/// replaced, a new one goes where its time keeps the order.
pub open spec fn bucket_insert(bs: Seq<(i64, BlockView)>, ts: i64, b: BlockView) -> Seq<
    (i64, BlockView),
>
    decreases bs.len(),
{
    if bs.len() == 0 {
        seq![(ts, b)]
    } else if bs[0].0 == ts {
        seq![(ts, b)] + bs.drop_first()
    } else if ts < bs[0].0 {
        seq![(ts, b)] + bs
    } else {
        seq![bs[0]] + bucket_insert(bs.drop_first(), ts, b)
    }
}

/// The abstract buckets of a bucket vector.
pub open spec fn block_seq(v: Seq<(i64, CompressedBlock)>) -> Seq<(i64, BlockView)> {
    v.map_values(|e: (i64, CompressedBlock)| (e.0, e.1@))
}

#[verifier::rlimit(60)]
#[verifier::spinoff_prover]
proof fn lemma_bucket_insert_at(bs: Seq<(i64, BlockView)>, ts: i64, b: BlockView, p: int)
    requires
        buckets_ascending(bs),
        0 <= p <= bs.len(),
        forall|j: int| 0 <= j < p ==> (#[trigger] bs[j]).0 < ts,
        p < bs.len() ==> bs[p].0 >= ts,
    ensures
        p < bs.len() && bs[p].0 == ts ==> bucket_insert(bs, ts, b) == bs.update(p, (ts, b)),
        !(p < bs.len() && bs[p].0 == ts) ==> bucket_insert(bs, ts, b) == bs.insert(p, (ts, b)),
        buckets_ascending(bucket_insert(bs, ts, b)),
    decreases p,
{
    if p == 0 {
        if bs.len() == 0 {
            assert(seq![(ts, b)] =~= bs.insert(0, (ts, b)));
        } else if bs[0].0 == ts {
            assert(seq![(ts, b)] + bs.drop_first() =~= bs.update(0, (ts, b)));
        } else {
            assert(seq![(ts, b)] + bs =~= bs.insert(0, (ts, b)));
        }
    } else {
        let t = bs.drop_first();
        assert forall|i: int, j: int| 0 <= i < j < t.len() implies (#[trigger] t[i]).0 < (
        #[trigger] t[j]).0 by {
            assert(t[i] == bs[i + 1] && t[j] == bs[j + 1]);
        }
        assert forall|j: int| 0 <= j < p - 1 implies (#[trigger] t[j]).0 < ts by {
            assert(t[j] == bs[j + 1]);
        }
        assert(p - 1 < t.len() ==> t[p - 1] == bs[p]);
        lemma_bucket_insert_at(t, ts, b, p - 1);
        if p < bs.len() && bs[p].0 == ts {
            assert(seq![bs[0]] + t.update(p - 1, (ts, b)) =~= bs.update(p, (ts, b)));
        } else {
            assert(seq![bs[0]] + t.insert(p - 1, (ts, b)) =~= bs.insert(p, (ts, b)));
        }
    }
    let r = bucket_insert(bs, ts, b);
    if p < bs.len() && bs[p].0 == ts {
        assert(r == bs.update(p, (ts, b)));
        assert forall|i: int, j: int| 0 <= i < j < r.len() implies (#[trigger] r[i]).0 < (
        #[trigger] r[j]).0 by {
            if i != p && j != p {
                assert(r[i] == bs[i] && r[j] == bs[j]);
            } else if i == p {
                assert(r[j] == bs[j]);
            } else {
                assert(r[i] == bs[i]);
            }
        }
    } else {
        assert(r == bs.insert(p, (ts, b)));
        assert forall|i: int, j: int| 0 <= i < j < r.len() implies (#[trigger] r[i]).0 < (
        #[trigger] r[j]).0 by {
            if j < p {
                assert(r[i] == bs[i] && r[j] == bs[j]);
            } else if j == p {
                assert(r[i] == bs[i]);
            } else if i < p {
                assert(r[i] == bs[i] && r[j] == bs[j - 1]);
            } else if i == p {
                assert(r[j] == bs[j - 1]);
            } else {
                assert(r[i] == bs[i - 1] && r[j] == bs[j - 1]);
            }
        }
    }
}

/// Sets the block of bucket `ts` in `bs`.
fn insert_bucket(bs: &mut Vec<(i64, CompressedBlock)>, ts: i64, block: CompressedBlock)
    requires
        buckets_ascending(block_seq(old(bs)@)),
    ensures
        block_seq(final(bs)@) == bucket_insert(block_seq(old(bs)@), ts, block@),
        buckets_ascending(block_seq(final(bs)@)),
{
    let ghost old_bs = block_seq(bs@);
    let mut p: usize = 0;
    while p < bs.len() && bs[p].0 < ts
        invariant
            old_bs == block_seq(bs@),
            p <= bs@.len(),
            forall|j: int| 0 <= j < p ==> (#[trigger] old_bs[j]).0 < ts,
        decreases bs@.len() - p,
    {
        p = p + 1;
    }
    let ghost bv = block@;
    proof {
        lemma_bucket_insert_at(old_bs, ts, bv, p as int);
    }
    if p < bs.len() && bs[p].0 == ts {
        bs.remove(p);
        bs.insert(p, (ts, block));
        assert(block_seq(bs@) =~= old_bs.update(p as int, (ts, bv)));
    } else {
        bs.insert(p, (ts, block));
        assert(block_seq(bs@) =~= old_bs.insert(p as int, (ts, bv)));
    }
}

/// The points of the first `n` buckets of `bs` whose time lies in
/// `start..end` (start inclusive, end exclusive), in bucket order. Every
/// bucket is read: a bucket is keyed by the hour of its first point, and
/// its later points may lie in any hour.
pub open spec fn bucket_points(
    bs: Seq<(i64, BlockView)>,
    delta: bool,
    start: i64,
    end: i64,
    n: int,
) -> Seq<DataPoint>
    decreases n,
{
    if n <= 0 {
        Seq::empty()
    } else {
        let prev = bucket_points(bs, delta, start, end, n - 1);
        let b = bs[n - 1];
        prev + decode_block(delta, b.1).filter(
            |p: DataPoint| start <= p.timestamp && p.timestamp < end,
        )
    }
}

/// How many points the buckets among the first `n` of `bs` whose time lies
/// in `start..=end` hold: what a scan for `start..end` reports as scanned.
pub open spec fn bucket_count(bs: Seq<(i64, BlockView)>, start: i64, end: i64, n: int) -> int
    decreases n,
{
    if n <= 0 {
        0
    } else {
        bucket_count(bs, start, end, n - 1) + if start <= bs[n - 1].0 <= end {
            bs[n - 1].1.count as int
        } else {
            0
        }
    }
}

/// What a scan finds in one series: its key and its points in the query's range.
pub struct ScannedSeries {
    pub key: String,
    pub points: Vec<DataPoint>,
}

/// A query for time-series data.
pub struct TimeseriesQuery {
    /// Metric name pattern (supports wildcards)
    pub metric: String,
    /// Start time (inclusive), in milliseconds since the epoch
    pub start: i64,
    /// End time (exclusive), in milliseconds since the epoch
    pub end: i64,
    /// Tag filters
    pub tags: StrMap<String>,
    /// Aggregation function
    pub aggregation: Option<Aggregation>,
    /// Group by resolution
    pub resolution: Option<Resolution>,
    /// Maximum number of points
    pub limit: Option<usize>,
}

/// The result of a query.
pub struct TimeseriesResult {
    /// Matching series
    pub series: Vec<TimeSeries>,
    /// Query execution time in milliseconds
    pub execution_time_ms: u64,
    /// Number of points scanned
    pub points_scanned: u64,
    /// Number of points returned
    pub points_returned: u64,
}

/// Storage statistics.
#[derive(Debug, Clone, Copy, PartialEq, Eq, Structural)]
pub struct TimeseriesStats {
    pub total_series: usize,
    pub total_points: usize,
    pub total_bytes: usize,
    pub retention_days: u32,
    pub downsample_rules: usize,
}

/// Whether series `key` is one that query `q` asks for.
pub open spec fn series_selected(key: Seq<char>, q: TimeseriesQuery) -> bool {
    metric_matches(key, q.metric@) && tags_match(key, tag_view(q.tags))
}

/// The hourly bucket a batch of points (not empty) is stored under: its
/// first point's time, rounded to the hour.
pub open spec fn hour_bucket(ps: Seq<DataPoint>) -> i64 {
    align_to(ps[0].timestamp as int, 3_600_000) as i64
}

/// What a scan finds in the first `n` series of `keys` (in that order):
/// for each series the query asks for, its key and points in range.
pub open spec fn scan_of(
    keys: Seq<Seq<char>>,
    bv: Map<Seq<char>, Seq<(i64, BlockView)>>,
    delta: bool,
    q: TimeseriesQuery,
    n: int,
) -> Seq<(Seq<char>, Seq<DataPoint>)>
    decreases n,
{
    if n <= 0 {
        Seq::empty()
    } else {
        let prev = scan_of(keys, bv, delta, q, n - 1);
        let k = keys[n - 1];
        if series_selected(k, q) {
            prev.push((k, bucket_points(bv[k], delta, q.start, q.end, bv[k].len() as int)))
        } else {
            prev
        }
    }
}

/// How many points a scan of the first `n` series of `keys` reads.
pub open spec fn scan_count(
    keys: Seq<Seq<char>>,
    bv: Map<Seq<char>, Seq<(i64, BlockView)>>,
    q: TimeseriesQuery,
    n: int,
) -> int
    decreases n,
{
    if n <= 0 {
        0
    } else {
        let k = keys[n - 1];
        scan_count(keys, bv, q, n - 1) + if series_selected(k, q) {
            bucket_count(bv[k], q.start, q.end, bv[k].len() as int)
        } else {
            0
        }
    }
}

/// The abstract value of what a scan found.
pub open spec fn scanned_views(v: Seq<ScannedSeries>) -> Seq<(Seq<char>, Seq<DataPoint>)> {
    v.map_values(|s: ScannedSeries| (s.key@, s.points@))
}

/// At most `limit` of the points `ps`, the first ones.
pub open spec fn limited(ps: Seq<DataPoint>, limit: Option<usize>) -> Seq<DataPoint> {
    match limit {
        Some(l) => if l < ps.len() {
            ps.take(l as int)
        } else {
            ps
        },
        None => ps,
    }
}

/// How many points the first `n` scanned series return once limited.
pub open spec fn returned_count(
    scanned: Seq<(Seq<char>, Seq<DataPoint>)>,
    limit: Option<usize>,
    n: int,
) -> int
    decreases n,
{
    if n <= 0 {
        0
    } else {
        returned_count(scanned, limit, n - 1) + limited(scanned[n - 1].1, limit).len()
    }
}

/// Whether the points a query returns once limited can be counted in a `u64`.
pub fn returned_fits(scanned: &Vec<ScannedSeries>, limit: Option<usize>) -> (r: bool)
    ensures
        r == (returned_count(scanned_views(scanned@), limit, scanned@.len() as int) <= u64::MAX),
{
    let ghost sv = scanned_views(scanned@);
    let mut total: u64 = 0;
    let mut i: usize = 0;
    while i < scanned.len()
        invariant
            sv == scanned_views(scanned@),
            i <= scanned@.len(),
            total == returned_count(sv, limit, i as int),
        decreases scanned@.len() - i,
    {
        let len = scanned[i].points.len();
        let n = match limit {
            Some(l) => if l < len {
                l
            } else {
                len
            },
            None => len,
        };
        proof {
            assert(sv[i as int].1 == scanned@[i as int].points@);
            lemma_returned_mono(sv, limit, i as int + 1, scanned@.len() as int);
        }
        match total.checked_add(n as u64) {
            Some(t) => {
                total = t;
            },
            None => {
                return false;
            },
        }
        i = i + 1;
    }
    true
}

/// The abstract value of a series: its metric, tags and points.
pub open spec fn series_view(s: TimeSeries) -> (Seq<char>, Map<Seq<char>, Seq<char>>, Seq<DataPoint>) {
    (s.metric@, tag_view(s.tags), s.points@)
}

/// The series the first `n` scanned series give once limited: those left
/// with points, their metric and tags taken from their key.
pub open spec fn finished(
    scanned: Seq<(Seq<char>, Seq<DataPoint>)>,
    limit: Option<usize>,
    n: int,
) -> Seq<(Seq<char>, Map<Seq<char>, Seq<char>>, Seq<DataPoint>)>
    decreases n,
{
    if n <= 0 {
        Seq::empty()
    } else {
        let prev = finished(scanned, limit, n - 1);
        let (k, ps) = scanned[n - 1];
        if limited(ps, limit).len() == 0 {
            prev
        } else {
            prev.push((key_metric(k), key_tags(k), limited(ps, limit)))
        }
    }
}

/// A point limit keeps the first points, in order: with a limit `l` the
/// result is the first `min(l, len)` points of `ps`; without one, all of them.
pub proof fn lemma_limit_keeps_first_points(ps: Seq<DataPoint>, limit: Option<usize>)
    ensures
        limit matches Some(l) ==> limited(ps, limit).len() == (if l < ps.len() {
            l as int
        } else {
            ps.len() as int
        }),
        limit is None ==> limited(ps, limit).len() == ps.len(),
        forall|i: int| 0 <= i < limited(ps, limit).len() ==> #[trigger] limited(ps, limit)[i] == ps[i],
{
}

/// The first `l` points of `ps` (all of them when there are fewer).
pub open spec fn first_n(ps: Seq<DataPoint>, l: int) -> Seq<DataPoint> {
    if l < ps.len() {
        ps.take(l)
    } else {
        ps
    }
}

/// A query with a point limit `l` of at least one returns the same series as
/// without a limit, in the same order, each cut to its first `l` points; a
/// limit of zero returns no series.
pub proof fn lemma_limit_cuts_each_series(
    scanned: Seq<(Seq<char>, Seq<DataPoint>)>,
    l: usize,
    n: int,
)
    requires
        0 <= n <= scanned.len(),
    ensures
        l >= 1 ==> finished(scanned, Some(l), n) == finished(scanned, None, n).map_values(
            |s: (Seq<char>, Map<Seq<char>, Seq<char>>, Seq<DataPoint>)| (s.0, s.1, first_n(s.2, l as int)),
        ),
        l == 0 ==> finished(scanned, Some(l), n).len() == 0,
    decreases n,
{
    let cut = |s: (Seq<char>, Map<Seq<char>, Seq<char>>, Seq<DataPoint>)| (s.0, s.1, first_n(s.2, l as int));
    if n > 0 {
        lemma_limit_cuts_each_series(scanned, l, n - 1);
        let ps = scanned[n - 1].1;
        lemma_limit_keeps_first_points(ps, Some(l));
        lemma_limit_keeps_first_points(ps, None);
        if l >= 1 {
            assert(finished(scanned, Some(l), n) =~= finished(scanned, None, n).map_values(cut));
        }
    } else {
        assert(finished(scanned, Some(l), n) =~= finished(scanned, None, n).map_values(cut));
    }
}

/// Without a limit, a query returns every scanned series that has points,
/// in scan order, with all its points and the metric and tags its key names.
pub proof fn lemma_unlimited_keeps_all_points(scanned: Seq<(Seq<char>, Seq<DataPoint>)>, n: int)
    requires
        0 <= n <= scanned.len(),
    ensures
        finished(scanned, None, n) == scanned.take(n).filter(
            |s: (Seq<char>, Seq<DataPoint>)| s.1.len() > 0,
        ).map_values(
            |s: (Seq<char>, Seq<DataPoint>)| (key_metric(s.0), key_tags(s.0), s.1),
        ),
    decreases n,
{
    reveal(Seq::filter);
    let keep = |s: (Seq<char>, Seq<DataPoint>)| s.1.len() > 0;
    let conv = |s: (Seq<char>, Seq<DataPoint>)| (key_metric(s.0), key_tags(s.0), s.1);
    if n > 0 {
        lemma_unlimited_keeps_all_points(scanned, n - 1);
        assert(scanned.take(n) =~= scanned.take(n - 1).push(scanned[n - 1]));
        assert(scanned.take(n).drop_last() =~= scanned.take(n - 1));
        assert(scanned.take(n).filter(keep) == {
            let rest = scanned.take(n - 1).filter(keep);
            if keep(scanned[n - 1]) { rest.push(scanned[n - 1]) } else { rest }
        });
        assert(finished(scanned, None, n) =~= scanned.take(n).filter(keep).map_values(conv));
    } else {
        assert(scanned.take(n).filter(keep) =~= Seq::empty());
        assert(finished(scanned, None, n) =~= scanned.take(n).filter(keep).map_values(conv));
    }
}

/// `gs` with value `v` added to group `b`: appended to an existing group, or
/// a new group placed where its key keeps the order.
pub open spec fn group_add(gs: Seq<(i64, Seq<u64>)>, b: i64, v: u64) -> Seq<(i64, Seq<u64>)>
    decreases gs.len(),
{
    if gs.len() == 0 {
        seq![(b, seq![v])]
    } else if gs[0].0 == b {
        seq![(b, gs[0].1.push(v))] + gs.drop_first()
    } else if b < gs[0].0 {
        seq![(b, seq![v])] + gs
    } else {
        seq![gs[0]] + group_add(gs.drop_first(), b, v)
    }
}

/// The values of the first `n` points of `ps`, grouped by their time rounded
/// to `step`, groups in ascending time, values in the order of the points.
pub open spec fn groups_of(ps: Seq<DataPoint>, step: int, n: int) -> Seq<(i64, Seq<u64>)>
    decreases n,
{
    if n <= 0 {
        Seq::empty()
    } else {
        group_add(
            groups_of(ps, step, n - 1),
            align_to(ps[n - 1].timestamp as int, step) as i64,
            ps[n - 1].value_bits,
        )
    }
}

/// Whether group keys ascend strictly.
pub open spec fn groups_ascending(gs: Seq<(i64, Seq<u64>)>) -> bool {
    forall|i: int, j: int| 0 <= i < j < gs.len() ==> (#[trigger] gs[i]).0 < (#[trigger] gs[j]).0
}

/// The abstract value of a group vector.
pub open spec fn group_views(v: Seq<(i64, Vec<u64>)>) -> Seq<(i64, Seq<u64>)> {
    v.map_values(|g: (i64, Vec<u64>)| (g.0, g.1@))
}

/// Whether bucket `e` is kept by a cleanup with cutoff `cutoff`.
pub open spec fn bucket_kept(cutoff: int) -> spec_fn((i64, BlockView)) -> bool {
    |e: (i64, BlockView)| e.0 >= cutoff
}

/// How many points the first `n` buckets of `bs` older than `cutoff` hold.
pub open spec fn expired_count(bs: Seq<(i64, BlockView)>, cutoff: int, n: int) -> int
    decreases n,
{
    if n <= 0 {
        0
    } else {
        expired_count(bs, cutoff, n - 1) + if bs[n - 1].0 < cutoff {
            bs[n - 1].1.count as int
        } else {
            0
        }
    }
}

/// How many points the buckets older than `cutoff` of the first `n` series of `keys` hold.
pub open spec fn expired_total(
    keys: Seq<Seq<char>>,
    bv: Map<Seq<char>, Seq<(i64, BlockView)>>,
    cutoff: int,
    n: int,
) -> int
    decreases n,
{
    if n <= 0 {
        0
    } else {
        expired_total(keys, bv, cutoff, n - 1) + expired_count(
            bv[keys[n - 1]],
            cutoff,
            bv[keys[n - 1]].len() as int,
        )
    }
}

/// The retention cutoff at `now`: `days` days earlier, in milliseconds.
pub open spec fn retention_cutoff(now: i64, days: u32) -> int {
    now - days * 86_400_000
}

/// How many points the first `n` buckets of `bs` that are older than
/// `cutoff` and hold more than one point hold.
pub open spec fn coarse_count(bs: Seq<(i64, BlockView)>, cutoff: int, n: int) -> int
    decreases n,
{
    if n <= 0 {
        0
    } else {
        coarse_count(bs, cutoff, n - 1) + if bs[n - 1].0 < cutoff && bs[n - 1].1.count > 1 {
            bs[n - 1].1.count as int
        } else {
            0
        }
    }
}

/// `coarse_count` over the first `n` series of `keys`.
pub open spec fn coarse_total(
    keys: Seq<Seq<char>>,
    bv: Map<Seq<char>, Seq<(i64, BlockView)>>,
    cutoff: int,
    n: int,
) -> int
    decreases n,
{
    if n <= 0 {
        0
    } else {
        coarse_total(keys, bv, cutoff, n - 1) + coarse_count(
            bv[keys[n - 1]],
            cutoff,
            bv[keys[n - 1]].len() as int,
        )
    }
}

/// What the first `n` downsampling rules find to downsample at `now`.
pub open spec fn downsample_total(
    rules: Seq<DownsampleRule>,
    keys: Seq<Seq<char>>,
    bv: Map<Seq<char>, Seq<(i64, BlockView)>>,
    now: i64,
    n: int,
) -> int
    decreases n,
{
    if n <= 0 {
        0
    } else {
        downsample_total(rules, keys, bv, now, n - 1) + coarse_total(
            keys,
            bv,
            now - rules[n - 1].after_secs * 1000,
            keys.len() as int,
        )
    }
}

/// The points, or the encoded bytes, of the first `n` buckets of `bs`.
pub open spec fn bucket_sum(bs: Seq<(i64, BlockView)>, bytes: bool, n: int) -> int
    decreases n,
{
    if n <= 0 {
        0
    } else {
        bucket_sum(bs, bytes, n - 1) + if bytes {
            bs[n - 1].1.data.len() as int
        } else {
            bs[n - 1].1.count as int
        }
    }
}

/// `bucket_sum` over the first `n` series of `keys`.
pub open spec fn store_sum(
    keys: Seq<Seq<char>>,
    bv: Map<Seq<char>, Seq<(i64, BlockView)>>,
    bytes: bool,
    n: int,
) -> int
    decreases n,
{
    if n <= 0 {
        0
    } else {
        store_sum(keys, bv, bytes, n - 1) + bucket_sum(
            bv[keys[n - 1]],
            bytes,
            bv[keys[n - 1]].len() as int,
        )
    }
}

proof fn lemma_bucket_count_mono(bs: Seq<(i64, BlockView)>, start: i64, end: i64, i: int, j: int)
    requires
        0 <= i <= j,
    ensures
        0 <= bucket_count(bs, start, end, i) <= bucket_count(bs, start, end, j),
    decreases j,
{
    if i < j {
        lemma_bucket_count_mono(bs, start, end, i, j - 1);
    } else if i > 0 {
        lemma_bucket_count_mono(bs, start, end, i - 1, i - 1);
    }
}

proof fn lemma_scan_count_mono(
    keys: Seq<Seq<char>>,
    bv: Map<Seq<char>, Seq<(i64, BlockView)>>,
    q: TimeseriesQuery,
    i: int,
    j: int,
)
    requires
        0 <= i <= j,
    ensures
        0 <= scan_count(keys, bv, q, i) <= scan_count(keys, bv, q, j),
    decreases j,
{
    if j > 0 {
        let k = keys[j - 1];
        lemma_bucket_count_mono(bv[k], q.start, q.end, 0, bv[k].len() as int);
        if i < j {
            lemma_scan_count_mono(keys, bv, q, i, j - 1);
        } else {
            lemma_scan_count_mono(keys, bv, q, i - 1, j - 1);
        }
    }
}

proof fn lemma_returned_mono(scanned: Seq<(Seq<char>, Seq<DataPoint>)>, limit: Option<usize>, i: int, j: int)
    requires
        0 <= i <= j,
    ensures
        0 <= returned_count(scanned, limit, i) <= returned_count(scanned, limit, j),
    decreases j,
{
    if j > 0 {
        if i < j {
            lemma_returned_mono(scanned, limit, i, j - 1);
        } else {
            lemma_returned_mono(scanned, limit, i - 1, j - 1);
        }
    }
}

proof fn lemma_expired_count_mono(bs: Seq<(i64, BlockView)>, cutoff: int, i: int, j: int)
    requires
        0 <= i <= j,
    ensures
        0 <= expired_count(bs, cutoff, i) <= expired_count(bs, cutoff, j),
    decreases j,
{
    if j > 0 {
        if i < j {
            lemma_expired_count_mono(bs, cutoff, i, j - 1);
        } else {
            lemma_expired_count_mono(bs, cutoff, i - 1, j - 1);
        }
    }
}

proof fn lemma_expired_total_mono(
    keys: Seq<Seq<char>>,
    bv: Map<Seq<char>, Seq<(i64, BlockView)>>,
    cutoff: int,
    i: int,
    j: int,
)
    requires
        0 <= i <= j,
    ensures
        0 <= expired_total(keys, bv, cutoff, i) <= expired_total(keys, bv, cutoff, j),
    decreases j,
{
    if j > 0 {
        let bs = bv[keys[j - 1]];
        lemma_expired_count_mono(bs, cutoff, 0, bs.len() as int);
        if i < j {
            lemma_expired_total_mono(keys, bv, cutoff, i, j - 1);
        } else {
            lemma_expired_total_mono(keys, bv, cutoff, i - 1, j - 1);
        }
    }
}

proof fn lemma_coarse_count_mono(bs: Seq<(i64, BlockView)>, cutoff: int, i: int, j: int)
    requires
        0 <= i <= j,
    ensures
        0 <= coarse_count(bs, cutoff, i) <= coarse_count(bs, cutoff, j),
    decreases j,
{
    if j > 0 {
        if i < j {
            lemma_coarse_count_mono(bs, cutoff, i, j - 1);
        } else {
            lemma_coarse_count_mono(bs, cutoff, i - 1, j - 1);
        }
    }
}

proof fn lemma_coarse_total_mono(
    keys: Seq<Seq<char>>,
    bv: Map<Seq<char>, Seq<(i64, BlockView)>>,
    cutoff: int,
    i: int,
    j: int,
)
    requires
        0 <= i <= j,
    ensures
        0 <= coarse_total(keys, bv, cutoff, i) <= coarse_total(keys, bv, cutoff, j),
    decreases j,
{
    if j > 0 {
        let bs = bv[keys[j - 1]];
        lemma_coarse_count_mono(bs, cutoff, 0, bs.len() as int);
        if i < j {
            lemma_coarse_total_mono(keys, bv, cutoff, i, j - 1);
        } else {
            lemma_coarse_total_mono(keys, bv, cutoff, i - 1, j - 1);
        }
    }
}

proof fn lemma_downsample_total_mono(
    rules: Seq<DownsampleRule>,
    keys: Seq<Seq<char>>,
    bv: Map<Seq<char>, Seq<(i64, BlockView)>>,
    now: i64,
    i: int,
    j: int,
)
    requires
        0 <= i <= j,
    ensures
        0 <= downsample_total(rules, keys, bv, now, i) <= downsample_total(rules, keys, bv, now, j),
    decreases j,
{
    if j > 0 {
        lemma_coarse_total_mono(
            keys,
            bv,
            now - rules[j - 1].after_secs * 1000,
            0,
            keys.len() as int,
        );
        if i < j {
            lemma_downsample_total_mono(rules, keys, bv, now, i, j - 1);
        } else {
            lemma_downsample_total_mono(rules, keys, bv, now, i - 1, j - 1);
        }
    }
}

proof fn lemma_bucket_sum_mono(bs: Seq<(i64, BlockView)>, bytes: bool, i: int, j: int)
    requires
        0 <= i <= j,
    ensures
        0 <= bucket_sum(bs, bytes, i) <= bucket_sum(bs, bytes, j),
    decreases j,
{
    if j > 0 {
        if i < j {
            lemma_bucket_sum_mono(bs, bytes, i, j - 1);
        } else {
            lemma_bucket_sum_mono(bs, bytes, i - 1, j - 1);
        }
    }
}

proof fn lemma_store_sum_mono(
    keys: Seq<Seq<char>>,
    bv: Map<Seq<char>, Seq<(i64, BlockView)>>,
    bytes: bool,
    i: int,
    j: int,
)
    requires
        0 <= i <= j,
    ensures
        0 <= store_sum(keys, bv, bytes, i) <= store_sum(keys, bv, bytes, j),
    decreases j,
{
    if j > 0 {
        let bs = bv[keys[j - 1]];
        lemma_bucket_sum_mono(bs, bytes, 0, bs.len() as int);
        if i < j {
            lemma_store_sum_mono(keys, bv, bytes, i, j - 1);
        } else {
            lemma_store_sum_mono(keys, bv, bytes, i - 1, j - 1);
        }
    }
}

#[verifier::rlimit(60)]
#[verifier::spinoff_prover]
proof fn lemma_group_add_at(gs: Seq<(i64, Seq<u64>)>, b: i64, v: u64, p: int)
    requires
        groups_ascending(gs),
        0 <= p <= gs.len(),
        forall|j: int| 0 <= j < p ==> (#[trigger] gs[j]).0 < b,
        p < gs.len() ==> gs[p].0 >= b,
    ensures
        p < gs.len() && gs[p].0 == b ==> group_add(gs, b, v) == gs.update(p, (b, gs[p].1.push(v))),
        !(p < gs.len() && gs[p].0 == b) ==> group_add(gs, b, v) == gs.insert(p, (b, seq![v])),
        groups_ascending(group_add(gs, b, v)),
    decreases p,
{
    if p == 0 {
        if gs.len() == 0 {
            assert(seq![(b, seq![v])] =~= gs.insert(0, (b, seq![v])));
        } else if gs[0].0 == b {
            assert(seq![(b, gs[0].1.push(v))] + gs.drop_first() =~= gs.update(0, (b, gs[0].1.push(v))));
        } else {
            assert(seq![(b, seq![v])] + gs =~= gs.insert(0, (b, seq![v])));
        }
    } else {
        let t = gs.drop_first();
        assert forall|i: int, j: int| 0 <= i < j < t.len() implies (#[trigger] t[i]).0 < (
        #[trigger] t[j]).0 by {
            assert(t[i] == gs[i + 1] && t[j] == gs[j + 1]);
        }
        assert forall|j: int| 0 <= j < p - 1 implies (#[trigger] t[j]).0 < b by {
            assert(t[j] == gs[j + 1]);
        }
        assert(p - 1 < t.len() ==> t[p - 1] == gs[p]);
        lemma_group_add_at(t, b, v, p - 1);
        if p < gs.len() && gs[p].0 == b {
            assert(seq![gs[0]] + t.update(p - 1, (b, t[p - 1].1.push(v))) =~= gs.update(
                p,
                (b, gs[p].1.push(v)),
            ));
        } else {
            assert(seq![gs[0]] + t.insert(p - 1, (b, seq![v])) =~= gs.insert(p, (b, seq![v])));
        }
    }
    let r = group_add(gs, b, v);
    if p < gs.len() && gs[p].0 == b {
        assert forall|i: int, j: int| 0 <= i < j < r.len() implies (#[trigger] r[i]).0 < (
        #[trigger] r[j]).0 by {
            if i != p && j != p {
                assert(r[i] == gs[i] && r[j] == gs[j]);
            } else if i == p {
                assert(r[j] == gs[j]);
            } else {
                assert(r[i] == gs[i]);
            }
        }
    } else {
        assert forall|i: int, j: int| 0 <= i < j < r.len() implies (#[trigger] r[i]).0 < (
        #[trigger] r[j]).0 by {
            if j < p {
                assert(r[i] == gs[i] && r[j] == gs[j]);
            } else if j == p {
                assert(r[i] == gs[i]);
            } else if i < p {
                assert(r[i] == gs[i] && r[j] == gs[j - 1]);
            } else if i == p {
                assert(r[j] == gs[j - 1]);
            } else {
                assert(r[i] == gs[i - 1] && r[j] == gs[j - 1]);
            }
        }
    }
}

/// The values of `points` grouped by their time rounded to `resolution`:
/// groups in ascending time, values in the order of the points. This is the
/// grouping step of aggregation; what a group reduces to is up to the caller.
pub fn group_points(points: &[DataPoint], resolution: Resolution) -> (r: Vec<(i64, Vec<u64>)>)
    requires
        points_alignable(points@, spec_millis(resolution) as int),
    ensures
        group_views(r@) == groups_of(points@, spec_millis(resolution) as int, points@.len() as int),
        groups_ascending(group_views(r@)),
{
    let mut groups: Vec<(i64, Vec<u64>)> = Vec::new();
    let n = points.len();
    let ghost step = spec_millis(resolution) as int;
    let mut i: usize = 0;
    assert(group_views(groups@) =~= Seq::<(i64, Seq<u64>)>::empty());
    while i < n
        invariant
            n == points@.len(),
            step == spec_millis(resolution) as int,
            points_alignable(points@, step),
            i <= n,
            group_views(groups@) == groups_of(points@, step, i as int),
            groups_ascending(group_views(groups@)),
        decreases n - i,
    {
        let p = points[i];
        let b = resolution.align(p.timestamp);
        let ghost gv = group_views(groups@);
        let mut k: usize = 0;
        while k < groups.len() && groups[k].0 < b
            invariant
                gv == group_views(groups@),
                k <= groups@.len(),
                forall|j: int| 0 <= j < k ==> (#[trigger] gv[j]).0 < b,
            decreases groups@.len() - k,
        {
            k = k + 1;
        }
        proof {
            lemma_group_add_at(gv, b, p.value_bits, k as int);
        }
        if k < groups.len() && groups[k].0 == b {
            let (gb, mut vals) = groups.remove(k);
            vals.push(p.value_bits);
            groups.insert(k, (gb, vals));
            assert(group_views(groups@) =~= gv.update(k as int, (b, gv[k as int].1.push(p.value_bits))));
        } else {
            let mut vals: Vec<u64> = Vec::new();
            vals.push(p.value_bits);
            groups.insert(k, (b, vals));
            assert(group_views(groups@) =~= gv.insert(k as int, (b, seq![p.value_bits])));
        }
        i = i + 1;
    }
    groups
}

/// Splits `bs` into the buckets kept by a cleanup with cutoff `cutoff` and
/// the number of points the others held.
fn split_expired(bs: Vec<(i64, CompressedBlock)>, cutoff: i128) -> (r: (
    Vec<(i64, CompressedBlock)>,
    u64,
))
    requires
        buckets_ascending(block_seq(bs@)),
        expired_count(block_seq(bs@), cutoff as int, bs@.len() as int) <= u64::MAX,
    ensures
        block_seq(r.0@) == block_seq(bs@).filter(bucket_kept(cutoff as int)),
        buckets_ascending(block_seq(r.0@)),
        r.1 == expired_count(block_seq(bs@), cutoff as int, bs@.len() as int),
{
    let ghost orig = block_seq(bs@);
    let ghost pred = bucket_kept(cutoff as int);
    let ghost n = bs@.len() as int;
    let mut rest = bs;
    let mut kept: Vec<(i64, CompressedBlock)> = Vec::new();
    let mut removed: u64 = 0;
    let ghost mut j: int = 0;
    assert(block_seq(kept@) =~= orig.take(0).filter(pred)) by {
        reveal(Seq::filter);
    }
    while rest.len() > 0
        invariant
            orig == block_seq(bs@),
            n == orig.len(),
            buckets_ascending(orig),
            expired_count(orig, cutoff as int, n) <= u64::MAX,
            pred == bucket_kept(cutoff as int),
            0 <= j <= n,
            block_seq(rest@) == orig.subrange(j, n),
            block_seq(kept@) == orig.take(j).filter(pred),
            buckets_ascending(block_seq(kept@)),
            removed == expired_count(orig, cutoff as int, j),
        decreases rest@.len(),
    {
        let ghost before_rest = block_seq(rest@);
        let e = rest.remove(0);
        proof {
            assert(block_seq(rest@) =~= before_rest.drop_first());
            assert(before_rest[0] == orig[j]);
            assert((e.0, e.1@) == orig[j]);
            assert(orig.take(j + 1) =~= orig.take(j).push(orig[j]));
            orig.take(j).lemma_filter_push(orig[j], pred);
            lemma_expired_count_mono(orig, cutoff as int, j + 1, n);
        }
        if (e.0 as i128) < cutoff {
            removed = removed + e.1.count as u64;
        } else {
            let ghost kv = block_seq(kept@);
            proof {
                assert forall|i: int| 0 <= i < kv.len() implies (#[trigger] kv[i]).0 < e.0 by {
                    let x = kv[i];
                    orig.take(j).lemma_filter_contains_rev(pred, x);
                    assert(orig.take(j).filter(pred).contains(x)) by {
                        assert(orig.take(j).filter(pred)[i] == x);
                    }
                    let m = choose|m: int| 0 <= m < j && orig.take(j)[m] == x;
                    assert(orig[m] == x);
                }
            }
            kept.push(e);
            proof {
                assert(block_seq(kept@) =~= kv.push((e.0, e.1@)));
            }
        }
        proof {
            j = j + 1;
        }
    }
    proof {
        assert(j == n);
        assert(orig.take(n) =~= orig);
    }
    (kept, removed)
}

/// What a read gives back of a write: on an engine that holds no series,
/// one write of the points `ps` under series key `key` leaves that key alone
/// with one block in the points' hourly bucket; a scan for a query that
/// selects `key` then gives back this series alone, with exactly the
/// written points whose time lies in the query's range (start inclusive,
/// end exclusive), in the order written; it counts all of them as scanned
/// when their bucket lies in `start..=end`, and none otherwise. With delta encoding this needs
/// consecutive points less than 2^31 ms apart.
pub proof fn lemma_scan_after_first_write(
    delta: bool,
    key: Seq<char>,
    ps: Seq<DataPoint>,
    q: TimeseriesQuery,
)
    requires
        0 < ps.len() <= usize::MAX,
        delta ==> deltas_fit(ps),
        series_selected(key, q),
    ensures
        ({
            let keys = Seq::<Seq<char>>::empty().push(key);
            let bv = Map::<Seq<char>, Seq<(i64, BlockView)>>::empty().insert(
                key,
                bucket_insert(Seq::empty(), hour_bucket(ps), encode_block(delta, ps)),
            );
            &&& scan_of(lex_sort(keys), bv, delta, q, keys.len() as int) == seq![
                (key, ps.filter(|p: DataPoint| q.start <= p.timestamp && p.timestamp < q.end)),
            ]
            &&& scan_count(lex_sort(keys), bv, q, keys.len() as int) == if q.start <= hour_bucket(ps)
                <= q.end {
                ps.len() as int
            } else {
                0
            }
        }),
{
    let keys = Seq::<Seq<char>>::empty().push(key);
    let blk = encode_block(delta, ps);
    let hb = hour_bucket(ps);
    let bs = bucket_insert(Seq::<(i64, BlockView)>::empty(), hb, blk);
    let bv = Map::<Seq<char>, Seq<(i64, BlockView)>>::empty().insert(key, bs);
    assert(keys.drop_last() =~= Seq::<Seq<char>>::empty());
    assert(lex_sort(keys) == lex_insert(lex_sort(keys.drop_last()), key));
    assert(lex_sort(keys) =~= seq![key]);
    assert(bs =~= seq![(hb, blk)]);
    lemma_block_roundtrip(delta, ps);
    let in_range = |p: DataPoint| q.start <= p.timestamp && p.timestamp < q.end;
    assert(bucket_points(bs, delta, q.start, q.end, 0) == Seq::<DataPoint>::empty());
    assert(bs[0] == (hb, blk));
    assert(bucket_points(bs, delta, q.start, q.end, 1) == Seq::<DataPoint>::empty() + ps.filter(
        in_range,
    ));
    assert(Seq::<DataPoint>::empty() + ps.filter(in_range) =~= ps.filter(in_range));
    assert(bv[key] == bs);
    assert(seq![key][0] == key);
    assert(scan_of(seq![key], bv, delta, q, 0) == Seq::<(Seq<char>, Seq<DataPoint>)>::empty());
    assert(scan_count(seq![key], bv, q, 0) == 0);
    assert(bucket_count(bs, q.start, q.end, 0) == 0);
    assert(scan_of(seq![key], bv, delta, q, 1) =~= seq![
        (key, ps.filter(|p: DataPoint| q.start <= p.timestamp && p.timestamp < q.end)),
    ]);
    assert(bucket_count(bs, q.start, q.end, 1) == if q.start <= hb <= q.end {
        ps.len() as int
    } else {
        0
    });
}

/// Whether every timestamp of delta-encoded `data` starting at `start` fits an `i64`.
fn delta_data_fits(data: &[u8], start: i64) -> (r: bool)
    ensures
        r == delta_fits(data@, start as int),
{
    let ghost n = data@.len() / 12;
    let mut ts: i128 = start as i128;
    let mut k: usize = 0;
    let mut pos: usize = 0;
    while data.len() - pos >= 12
        invariant
            pos <= data@.len(),
            n == data@.len() / 12,
            pos == 12 * k,
            k <= n,
            k == 0 ==> ts == start,
            k > 0 ==> ts == delta_ts(data@, start as int, k - 1),
            forall|m: int|
                0 <= m < k ==> i64::MIN <= #[trigger] delta_ts(data@, start as int, m) <= i64::MAX,
            i64::MIN <= ts <= i64::MAX,
        decreases data@.len() - pos,
    {
        proof {
            assert(k < n) by (nonlinear_arith)
                requires
                    pos == 12 * k,
                    pos + 12 <= data@.len(),
                    n == data@.len() / 12,
            ;
        }
        let delta = sext32_of(read_u32_le(data, pos));
        ts = ts + delta as i128;
        assert(ts == delta_ts(data@, start as int, k as int));
        if ts < i64::MIN as i128 || ts > i64::MAX as i128 {
            return false;
        }
        k = k + 1;
        pos = pos + 12;
    }
    proof {
        assert(k >= n) by (nonlinear_arith)
            requires
                pos == 12 * k,
                pos + 12 > data@.len(),
                n == data@.len() / 12,
        ;
    }
    true
}

/// The time-series storage engine.
pub struct TimeseriesEngine {
    config: TimeseriesConfig,
    /// series key -> buckets, in ascending time
    data: StrMap<Vec<(i64, CompressedBlock)>>,
    /// metric -> the series keys written for it
    index: StrMap<Vec<String>>,
}

impl TimeseriesEngine {
    /// The configuration.
    pub closed spec fn config_view(&self) -> TimeseriesConfig {
        self.config
    }

    /// Whether points are delta-encoded.
    pub open spec fn delta(&self) -> bool {
        self.config_view().compression.delta_encoding
    }

    /// The buckets of each series.
    pub closed spec fn buckets_view(&self) -> Map<Seq<char>, Seq<(i64, BlockView)>> {
        Map::new(|k: Seq<char>| self.data@.contains_key(k), |k: Seq<char>| block_seq(self.data@[k]@))
    }

    /// The keys of the stored series, in the order they were first written.
    pub closed spec fn series_keys(&self) -> Seq<Seq<char>> {
        self.data.key_seq()
    }

    /// For each metric, the series keys written for it, in order.
    pub closed spec fn index_view(&self) -> Map<Seq<char>, Seq<Seq<char>>> {
        Map::new(
            |k: Seq<char>| self.index@.contains_key(k),
            |k: Seq<char>| self.index@[k]@.map_values(|s: String| s@),
        )
    }

    /// Every series keeps its buckets in ascending time.
    #[verifier::type_invariant]
    closed spec fn wf(&self) -> bool {
        forall|k: Seq<char>|
            #[trigger] self.data@.contains_key(k) ==> buckets_ascending(block_seq(self.data@[k]@))
    }

    /// Whether every stored block of a series `q` selects decodes without a
    /// timestamp overflowing.
    pub open spec fn decodable_for(&self, q: TimeseriesQuery) -> bool {
        forall|k: Seq<char>, i: int|
            #[trigger] self.buckets_view().contains_key(k) && series_selected(k, q) && 0 <= i
                < self.buckets_view()[k].len() ==> block_decodable(
                self.delta(),
                #[trigger] self.buckets_view()[k][i].1,
            )
    }

    /// An engine with nothing stored.
    pub fn new(config: TimeseriesConfig) -> (r: Self)
        ensures
            r.config_view() == config,
            r.buckets_view() == Map::<Seq<char>, Seq<(i64, BlockView)>>::empty(),
            r.series_keys() == Seq::<Seq<char>>::empty(),
            r.index_view() == Map::<Seq<char>, Seq<Seq<char>>>::empty(),
    {
        let r = Self { config, data: StrMap::new(), index: StrMap::new() };
        assert(r.buckets_view() =~= Map::<Seq<char>, Seq<(i64, BlockView)>>::empty());
        assert(r.index_view() =~= Map::<Seq<char>, Seq<Seq<char>>>::empty());
        r
    }

    /// The key of the series of `metric` with `tags`.
    pub fn series_key(&self, metric: &str, tags: &StrMap<String>) -> (r: String)
        ensures
            r@ == series_key_of(metric@, tags.key_seq(), tag_view(*tags)),
    {
        if tags.is_empty() {
            return metric.to_owned();
        }
        proof {
            use_type_invariant(tags);
            tags.lemma_view();
            lemma_lex_sort_elems(tags.key_seq());
            reveal_strlit("|");
            reveal_strlit(",");
            reveal_strlit("=");
        }
        let names = sorted_keys(tags);
        let ghost sorted = names@.map_values(|s: String| s@);
        let ghost tv = tag_view(*tags);
        let mut out = metric.to_owned();
        out.append("|");
        let n = names.len();
        let mut i: usize = 0;
        while i < n
            invariant
                n == names@.len(),
                sorted == names@.map_values(|s: String| s@),
                sorted == lex_sort(tags.key_seq()),
                sorted.len() == tags.key_seq().len(),
                forall|j: int| 0 <= j < n ==> tags.key_seq().contains(#[trigger] sorted[j]),
                tags@.dom() == tags.key_seq().to_set(),
                tv == tag_view(*tags),
                i <= n,
                out@ == metric@ + seq!['|'] + join_tags(sorted, tv, i as int),
            decreases n - i,
        {
            let ghost before = out@;
            proof {
                reveal_strlit(",");
                reveal_strlit("=");
            }
            if i > 0 {
                out.append(",");
            }
            let ghost with_comma = out@;
            let name = &names[i];
            proof {
                assert(sorted[i as int] == name@);
                assert(tags.key_seq().contains(name@));
                assert(tags@.contains_key(name@));
            }
            out.append(name.as_str());
            out.append("=");
            match tags.get(name.as_str()) {
                Some(v) => {
                    assert(tv[name@] == v@);
                    out.append(v.as_str());
                    proof {
                        assert(out@ =~= with_comma + tag_pair(name@, tv[name@]));
                    }
                },
                None => {},
            }
            i = i + 1;
            proof {
                if i == 1 {
                    assert(with_comma == before);
                } else {
                    assert(with_comma =~= before + seq![',']);
                }
                assert(out@ =~= metric@ + seq!['|'] + join_tags(sorted, tv, i as int));
            }
        }
        out
    }

    /// Whether the metric of `series_key` matches `pattern`.
    pub fn matches_metric(&self, series_key: &str, pattern: &str) -> (r: bool)
        ensures
            r == metric_matches(series_key@, pattern@),
    {
        let kc = chars_of(series_key);
        let bar = find_char(&kc, '|', 0);
        proof {
            lemma_next_pos(series_key@, '|', 0);
        }
        let metric = string_of_range(series_key, 0, bar);
        let pc = chars_of(pattern);
        let star = find_char(&pc, '*', 0);
        proof {
            lemma_next_pos(pattern@, '*', 0);
        }
        if star < pc.len() {
            let head = string_of_range(pattern, 0, star);
            let second = find_char(&pc, '*', star + 1);
            if second == pc.len() {
                let tail = string_of_range(pattern, star + 1, pc.len());
                starts_with(metric.as_str(), head.as_str()) && ends_with_str(
                    metric.as_str(),
                    tail.as_str(),
                )
            } else {
                starts_with(metric.as_str(), head.as_str())
            }
        } else {
            let pat = pattern.to_owned();
            metric == pat
        }
    }

    /// The tags `series_key` carries.
    pub fn extract_tags(&self, series_key: &str) -> (r: StrMap<String>)
        ensures
            tag_view(r) == key_tags(series_key@),
    {
        let mut tags: StrMap<String> = StrMap::new();
        proof {
            assert(tag_view(tags) =~= Map::<Seq<char>, Seq<char>>::empty());
        }
        let kc = chars_of(series_key);
        let n = kc.len();
        let bar = find_char(&kc, '|', 0);
        proof {
            lemma_next_pos(series_key@, '|', 0);
        }
        if bar >= n {
            return tags;
        }
        let rest = string_of_range(series_key, bar + 1, n);
        let rc = chars_of(rest.as_str());
        let stop = find_char(&rc, '|', 0);
        proof {
            lemma_next_pos(rest@, '|', 0);
        }
        let part = string_of_range(rest.as_str(), 0, stop);
        let pc = chars_of(part.as_str());
        let m = pc.len();
        let ghost want = tags_from(part@, 0, Map::empty());
        let mut start: usize = 0;
        let mut done = false;
        while !done
            invariant
                pc@ == part@,
                m == part@.len(),
                start <= m,
                !done ==> want == tags_from(part@, start as int, tag_view(tags)),
                done ==> want == tag_view(tags),
            decreases m - start + (if done { 0int } else { 1int }),
        {
            let e = find_char(&pc, ',', start);
            let q = find_char(&pc, '=', start);
            proof {
                lemma_next_pos(part@, ',', start as int);
                lemma_next_pos(part@, '=', start as int);
            }
            let ghost before = tag_view(tags);
            if q < e {
                let k = string_of_range(part.as_str(), start, q);
                let v = string_of_range(part.as_str(), q + 1, e);
                let ghost kv = k@;
                let ghost vv = v@;
                tags.insert(k, v);
                proof {
                    assert(tag_view(tags) =~= before.insert(kv, vv));
                }
            }
            if e >= m {
                done = true;
            } else {
                start = e + 1;
            }
        }
        proof {
            assert(after_first(series_key@, '|') =~= rest@);
            assert(tags_part(series_key@) =~= part@);
        }
        tags
    }

    /// Whether every filter names a tag of `series_key` with the filter's value.
    pub fn matches_tags(&self, series_key: &str, filters: &StrMap<String>) -> (r: bool)
        ensures
            r == tags_match(series_key@, tag_view(*filters)),
    {
        if filters.is_empty() {
            proof {
                use_type_invariant(filters);
                filters.lemma_view();
                assert(tag_view(*filters).dom() =~= Set::<Seq<char>>::empty());
            }
            return true;
        }
        let tags = self.extract_tags(series_key);
        proof {
            use_type_invariant(filters);
            filters.lemma_view();
        }
        let n = filters.len();
        let mut i: usize = 0;
        while i < n
            invariant
                n == filters.key_seq().len(),
                filters@.dom() == filters.key_seq().to_set(),
                forall|j: int|
                    0 <= j < n ==> #[trigger] filters@[filters.key_seq()[j]] == filters.value_seq()[j],
                tag_view(tags) == key_tags(series_key@),
                i <= n,
                forall|j: int|
                    0 <= j < i ==> key_tags(series_key@).contains_key(#[trigger] filters.key_seq()[j])
                        && key_tags(series_key@)[filters.key_seq()[j]]
                        == tag_view(*filters)[filters.key_seq()[j]],
            decreases n - i,
        {
            let k = filters.key_at(i);
            let v = filters.value_at(i);
            proof {
                assert(filters.key_seq().contains(k@));
            }
            proof {
                assert(tag_view(*filters).contains_key(k@));
                assert(tag_view(*filters)[k@] == v@);
            }
            match tags.get(k.as_str()) {
                Some(t) => {
                    if *t != *v {
                        assert(tag_view(tags)[k@] == t@);
                        return false;
                    }
                },
                None => {
                    assert(!tag_view(tags).contains_key(k@));
                    return false;
                },
            }
            i = i + 1;
        }
        proof {
            assert forall|k: Seq<char>| #[trigger] tag_view(*filters).contains_key(k) implies key_tags(
                series_key@,
            ).contains_key(k) && key_tags(series_key@)[k] == tag_view(*filters)[k] by {
                assert(filters.key_seq().to_set().contains(k));
                let j = choose|j: int| 0 <= j < n && filters.key_seq()[j] == k;
            }
        }
        true
    }

    /// Encodes `points` into one block, as the configuration says.
    pub fn compress_points(&self, points: &[DataPoint]) -> (r: Result<CompressedBlock, Error>)
        requires
            self.delta() ==> deltas_computable(points@),
        ensures
            points@.len() == 0 ==> (r matches Err(Error::Internal(msg)) && msg@
                == "No points to compress"@),
            points@.len() > 0 ==> (r matches Ok(b) && b@ == encode_block(self.delta(), points@)),
    {
        if points.len() == 0 {
            return Err(Error::Internal("No points to compress".to_owned()));
        }
        let start_ts = points[0].timestamp;
        let end_ts = points[points.len() - 1].timestamp;
        let count = points.len();
        let data = if self.config.compression.delta_encoding {
            encode_points_delta(points)
        } else {
            encode_points_raw(points)
        };
        Ok(CompressedBlock { start_ts, end_ts, count, data })
    }

    /// The points `block` holds.
    pub fn decompress_block(&self, block: &CompressedBlock) -> (r: Result<Vec<DataPoint>, Error>)
        requires
            block_decodable(self.delta(), block@),
        ensures
            r matches Ok(v) && v@ == decode_block(self.delta(), block@),
    {
        if self.config.compression.delta_encoding {
            Ok(decode_points_delta(block.data.as_slice(), block.start_ts))
        } else {
            Ok(decode_points_raw(block.data.as_slice()))
        }
    }

    proof fn lemma_series(&self)
        requires
            self.data.inv(),
        ensures
            self.series_keys().no_duplicates(),
            self.buckets_view().dom() == self.series_keys().to_set(),
            forall|i: int|
                0 <= i < self.series_keys().len() ==> #[trigger] self.buckets_view()[self.series_keys()[i]]
                    == block_seq(self.data.value_seq()[i]@),
    {
        self.data.lemma_view();
        assert(self.buckets_view().dom() =~= self.data@.dom());
        assert forall|i: int| 0 <= i < self.series_keys().len() implies #[trigger] self.buckets_view()[self.series_keys()[i]]
            == block_seq(self.data.value_seq()[i]@) by {
            assert(self.data.key_seq().contains(self.data.key_seq()[i]));
        }
    }

    /// Stores the points of `series` (nothing if it has none) as one block in
    /// the hourly bucket of its first point, replacing a block already there,
    /// and records the series key under the metric.
    pub fn write(&mut self, series: &TimeSeries) -> (r: Result<(), Error>)
        requires
            old(self).delta() ==> deltas_computable(series.points@),
            series.points@.len() > 0 ==> align_to(series.points@[0].timestamp as int, 3_600_000)
                >= i64::MIN,
        ensures
            r is Ok,
            final(self).config_view() == old(self).config_view(),
            series.points@.len() == 0 ==> {
                &&& final(self).buckets_view() == old(self).buckets_view()
                &&& final(self).series_keys() == old(self).series_keys()
                &&& final(self).index_view() == old(self).index_view()
            },
            series.points@.len() > 0 ==> {
                let key = series_key_of(series.metric@, series.tags.key_seq(), tag_view(series.tags));
                let old_bs = if old(self).buckets_view().contains_key(key) {
                    old(self).buckets_view()[key]
                } else {
                    Seq::empty()
                };
                let old_ix = if old(self).index_view().contains_key(series.metric@) {
                    old(self).index_view()[series.metric@]
                } else {
                    Seq::empty()
                };
                &&& final(self).buckets_view() == old(self).buckets_view().insert(
                    key,
                    bucket_insert(
                        old_bs,
                        hour_bucket(series.points@),
                        encode_block(old(self).delta(), series.points@),
                    ),
                )
                &&& final(self).index_view() == old(self).index_view().insert(
                    series.metric@,
                    old_ix.push(key),
                )
                &&& final(self).series_keys() == if old(self).buckets_view().contains_key(key) {
                    old(self).series_keys()
                } else {
                    old(self).series_keys().push(key)
                }
            },
    {
        if series.points.len() == 0 {
            return Ok(());
        }
        let key = self.series_key(series.metric.as_str(), &series.tags);
        proof {
            use_type_invariant(&*self);
        }
        let ghost old_index = self.index_view();
        let mut index: StrMap<Vec<String>> = StrMap::new();
        std::mem::swap(&mut index, &mut self.index);
        proof {
            use_type_invariant(&index);
            index.lemma_view();
        }
        match index.find(series.metric.as_str()) {
            Some(i) => {
                proof {
                    assert(index@[series.metric@] == index.value_seq()[i as int]);
                }
                let mut keys = index.replace_value_at(i, Vec::new());
                let ghost before = keys@;
                keys.push(key.clone());
                proof {
                    assert(keys@.map_values(|s: String| s@) =~= before.map_values(|s: String| s@).push(key@));
                }
                index.set_value_at(i, keys);
            },
            None => {
                let mut keys: Vec<String> = Vec::new();
                keys.push(key.clone());
                proof {
                    assert(keys@.map_values(|s: String| s@) =~= Seq::<Seq<char>>::empty().push(key@));
                }
                index.insert(series.metric.clone(), keys);
            },
        }
        self.index = index;
        proof {
            let m = series.metric@;
            let old_ix = if old_index.contains_key(m) {
                old_index[m]
            } else {
                Seq::empty()
            };
            assert(self.index_view() =~= old_index.insert(m, old_ix.push(key@)));
        }
        let block = match self.compress_points(series.points.as_slice()) {
            Ok(b) => b,
            Err(e) => {
                return Err(e);
            },
        };
        let ghost bv = block@;
        let bucket_ts = Resolution::Hour.align(series.points[0].timestamp);
        proof {
            use_type_invariant(&*self);
            use_type_invariant(&self.data);
            self.data.lemma_view();
        }
        let ghost old_buckets = self.buckets_view();
        let ghost old_keys = self.series_keys();
        let mut data: StrMap<Vec<(i64, CompressedBlock)>> = StrMap::new();
        std::mem::swap(&mut data, &mut self.data);
        assert(old_buckets.contains_key(key@) == data@.contains_key(key@));
        match data.find(key.as_str()) {
            Some(i) => {
                proof {
                    assert(data@[key@] == data.value_seq()[i as int]);
                }
                let empty: Vec<(i64, CompressedBlock)> = Vec::new();
                let mut bs = data.replace_value_at(i, empty);
                insert_bucket(&mut bs, bucket_ts, block);
                data.set_value_at(i, bs);
            },
            None => {
                let mut bs: Vec<(i64, CompressedBlock)> = Vec::new();
                proof {
                    assert(block_seq(bs@) =~= Seq::<(i64, BlockView)>::empty());
                }
                insert_bucket(&mut bs, bucket_ts, block);
                data.insert(key.clone(), bs);
            },
        }
        self.data = data;
        proof {
            let k = key@;
            let old_bs = if old_buckets.contains_key(k) {
                old_buckets[k]
            } else {
                Seq::empty()
            };
            assert(self.buckets_view() =~= old_buckets.insert(
                k,
                bucket_insert(old_bs, bucket_ts, bv),
            ));
        }
        Ok(())
    }

    /// The points of the buckets of `bs` whose time lies in `start..=end`
    /// that lie in `start..end`, and how many points those buckets hold.
    fn scan_buckets(&self, bs: &Vec<(i64, CompressedBlock)>, start: i64, end: i64) -> (r: (
        Vec<DataPoint>,
        u64,
    ))
        requires
            forall|j: int|
                0 <= j < bs@.len() ==> block_decodable(self.delta(), (#[trigger] block_seq(bs@)[j]).1),
            bucket_count(block_seq(bs@), start, end, bs@.len() as int) <= u64::MAX,
        ensures
            r.0@ == bucket_points(block_seq(bs@), self.delta(), start, end, bs@.len() as int),
            r.1 == bucket_count(block_seq(bs@), start, end, bs@.len() as int),
    {
        let ghost bv = block_seq(bs@);
        let ghost delta = self.delta();
        let ghost pred = |p: DataPoint| start <= p.timestamp && p.timestamp < end;
        let mut points: Vec<DataPoint> = Vec::new();
        let mut count: u64 = 0;
        let mut j: usize = 0;
        while j < bs.len()
            invariant
                bv == block_seq(bs@),
                delta == self.delta(),
                pred == (|p: DataPoint| start <= p.timestamp && p.timestamp < end),
                forall|k: int| 0 <= k < bs@.len() ==> block_decodable(delta, (#[trigger] bv[k]).1),
                bucket_count(bv, start, end, bs@.len() as int) <= u64::MAX,
                j <= bs@.len(),
                points@ == bucket_points(bv, delta, start, end, j as int),
                count == bucket_count(bv, start, end, j as int),
            decreases bs@.len() - j,
        {
            let ts = bs[j].0;
            let block = &bs[j].1;
            proof {
                assert(bv[j as int] == (ts, block@));
                lemma_bucket_count_mono(bv, start, end, j as int + 1, bs@.len() as int);
            }
            if start <= ts && ts <= end {
                count = count + block.count as u64;
            }
            {
                let decoded = match self.decompress_block(block) {
                    Ok(v) => v,
                    Err(_) => Vec::new(),
                };
                let ghost base = points@;
                let mut m: usize = 0;
                while m < decoded.len()
                    invariant
                        pred == (|p: DataPoint| start <= p.timestamp && p.timestamp < end),
                        m <= decoded@.len(),
                        points@ == base + decoded@.take(m as int).filter(pred),
                    decreases decoded@.len() - m,
                {
                    let p = decoded[m];
                    proof {
                        assert(decoded@.take(m as int + 1) =~= decoded@.take(m as int).push(p));
                        decoded@.take(m as int).lemma_filter_push(p, pred);
                    }
                    if start <= p.timestamp && p.timestamp < end {
                        points.push(p);
                    }
                    m = m + 1;
                    proof {
                        assert(points@ =~= base + decoded@.take(m as int).filter(pred));
                    }
                }
                proof {
                    assert(decoded@.take(m as int) =~= decoded@);
                }
            }
            j = j + 1;
        }
        (points, count)
    }

    /// Scans the stored series, in the order of their keys, for those the
    /// query asks for (metric pattern and tag filters), and gives each one's
    /// points whose time lies in `start..end` (start inclusive, end
    /// exclusive). Also gives how many points the series' buckets whose time
    /// lies in `start..=end` hold: the points it reports as scanned.
    pub fn query_scan(&self, query: &TimeseriesQuery) -> (r: (Vec<ScannedSeries>, u64))
        requires
            self.decodable_for(*query),
            scan_count(
                lex_sort(self.series_keys()),
                self.buckets_view(),
                *query,
                self.series_keys().len() as int,
            ) <= u64::MAX,
        ensures
            scanned_views(r.0@) == scan_of(
                lex_sort(self.series_keys()),
                self.buckets_view(),
                self.delta(),
                *query,
                self.series_keys().len() as int,
            ),
            r.1 == scan_count(
                lex_sort(self.series_keys()),
                self.buckets_view(),
                *query,
                self.series_keys().len() as int,
            ),
    {
        proof {
            use_type_invariant(&self.data);
            self.lemma_series();
            lemma_lex_sort_elems(self.series_keys());
        }
        let names = sorted_keys(&self.data);
        let ghost keys = lex_sort(self.series_keys());
        let ghost bv = self.buckets_view();
        let n = names.len();
        let mut out: Vec<ScannedSeries> = Vec::new();
        let mut scanned: u64 = 0;
        let mut i: usize = 0;
        while i < n
            invariant
                n == names@.len(),
                keys == names@.map_values(|s: String| s@),
                keys == lex_sort(self.series_keys()),
                keys.len() == self.series_keys().len(),
                forall|j: int| 0 <= j < n ==> self.series_keys().contains(#[trigger] keys[j]),
                bv == self.buckets_view(),
                bv.dom() == self.series_keys().to_set(),
                self.decodable_for(*query),
                scan_count(keys, bv, *query, n as int) <= u64::MAX,
                i <= n,
                scanned_views(out@) == scan_of(keys, bv, self.delta(), *query, i as int),
                scanned == scan_count(keys, bv, *query, i as int),
            decreases n - i,
        {
            let name = &names[i];
            proof {
                assert(keys[i as int] == name@);
                assert(self.series_keys().contains(name@));
                assert(bv.contains_key(name@));
                lemma_scan_count_mono(keys, bv, *query, i as int + 1, n as int);
            }
            if self.matches_metric(name.as_str(), query.metric.as_str()) && self.matches_tags(
                name.as_str(),
                &query.tags,
            ) {
                match self.data.get(name.as_str()) {
                    Some(bs) => {
                        proof {
                            assert(bv[name@] == block_seq(bs@));
                            assert(series_selected(name@, *query));
                            assert forall|j: int| 0 <= j < bs@.len() implies block_decodable(
                                self.delta(),
                                (#[trigger] block_seq(bs@)[j]).1,
                            ) by {
                                assert(bv[name@][j] == block_seq(bs@)[j]);
                            }
                        }
                        let (points, count) = self.scan_buckets(bs, query.start, query.end);
                        scanned = scanned + count;
                        let ghost before = scanned_views(out@);
                        let item = ScannedSeries { key: name.clone(), points };
                        out.push(item);
                        proof {
                            assert(scanned_views(out@) =~= before.push((name@, item.points@)));
                        }
                    },
                    None => {},
                }
            }
            i = i + 1;
        }
        (out, scanned)
    }

    /// The result of a query from what its scan found (each series' points
    /// possibly aggregated since): each series' points are cut to `limit`;
    /// those left with points are returned, with the metric and tags their
    /// key carries.
    pub fn finish_query(
        &self,
        scanned: &Vec<ScannedSeries>,
        limit: Option<usize>,
        points_scanned: u64,
        execution_time_ms: u64,
    ) -> (r: TimeseriesResult)
        requires
            returned_count(scanned_views(scanned@), limit, scanned@.len() as int) <= u64::MAX,
        ensures
            r.series@.map_values(|s: TimeSeries| series_view(s)) == finished(
                scanned_views(scanned@),
                limit,
                scanned@.len() as int,
            ),
            r.points_returned == returned_count(scanned_views(scanned@), limit, scanned@.len() as int),
            r.points_scanned == points_scanned,
            r.execution_time_ms == execution_time_ms,
    {
        let ghost sv = scanned_views(scanned@);
        let n = scanned.len();
        let mut series: Vec<TimeSeries> = Vec::new();
        let mut returned: u64 = 0;
        let mut i: usize = 0;
        while i < n
            invariant
                n == scanned@.len(),
                sv == scanned_views(scanned@),
                returned_count(sv, limit, n as int) <= u64::MAX,
                i <= n,
                series@.map_values(|s: TimeSeries| series_view(s)) == finished(sv, limit, i as int),
                returned == returned_count(sv, limit, i as int),
            decreases n - i,
        {
            let item = &scanned[i];
            let len = item.points.len();
            let keep = match limit {
                Some(l) => if l < len {
                    l
                } else {
                    len
                },
                None => len,
            };
            let mut points: Vec<DataPoint> = Vec::new();
            let mut m: usize = 0;
            while m < keep
                invariant
                    keep <= item.points@.len(),
                    m <= keep,
                    points@ == item.points@.take(m as int),
                decreases keep - m,
            {
                points.push(item.points[m]);
                m = m + 1;
                assert(points@ =~= item.points@.take(m as int));
            }
            proof {
                assert(sv[i as int] == (item.key@, item.points@));
                assert(points@ =~= limited(item.points@, limit));
                lemma_returned_mono(sv, limit, i as int + 1, n as int);
            }
            returned = returned + keep as u64;
            if keep > 0 {
                let kc = chars_of(item.key.as_str());
                let bar = find_char(&kc, '|', 0);
                proof {
                    lemma_next_pos(item.key@, '|', 0);
                }
                let metric = string_of_range(item.key.as_str(), 0, bar);
                let tags = self.extract_tags(item.key.as_str());
                let ghost before = series@.map_values(|s: TimeSeries| series_view(s));
                let ts = TimeSeries { metric, tags, points };
                series.push(ts);
                proof {
                    assert(series@.map_values(|s: TimeSeries| series_view(s)) =~= before.push(
                        series_view(ts),
                    ));
                }
            }
            i = i + 1;
        }
        TimeseriesResult { series, execution_time_ms, points_scanned, points_returned: returned }
    }

    /// Drops, from every series, the buckets older than `retention_days`
    /// days before `now` (milliseconds), and says how many points they held.
    pub fn run_retention_at(&mut self, now: i64) -> (r: Result<u64, Error>)
        requires
            expired_total(
                old(self).series_keys(),
                old(self).buckets_view(),
                retention_cutoff(now, old(self).config_view().retention_days),
                old(self).series_keys().len() as int,
            ) <= u64::MAX,
        ensures
            r matches Ok(d) && d == expired_total(
                old(self).series_keys(),
                old(self).buckets_view(),
                retention_cutoff(now, old(self).config_view().retention_days),
                old(self).series_keys().len() as int,
            ),
            final(self).buckets_view().dom() == old(self).buckets_view().dom(),
            forall|k: Seq<char>|
                #[trigger] final(self).buckets_view().contains_key(k) ==> final(self).buckets_view()[k]
                    == old(self).buckets_view()[k].filter(
                    bucket_kept(retention_cutoff(now, old(self).config_view().retention_days)),
                ),
            final(self).series_keys() == old(self).series_keys(),
            final(self).index_view() == old(self).index_view(),
            final(self).config_view() == old(self).config_view(),
    {
        proof {
            use_type_invariant(&*self);
            use_type_invariant(&self.data);
            self.lemma_series();
        }
        let cutoff: i128 = (now as i128) - (self.config.retention_days as i128) * 86_400_000;
        let ghost c = cutoff as int;
        let ghost keys = self.series_keys();
        let ghost bv = self.buckets_view();
        let mut data: StrMap<Vec<(i64, CompressedBlock)>> = StrMap::new();
        std::mem::swap(&mut data, &mut self.data);
        proof {
            use_type_invariant(&data);
            data.lemma_view();
            assert forall|j: int| 0 <= j < keys.len() implies buckets_ascending(
                #[trigger] block_seq(data.value_seq()[j]@),
            ) by {
                assert(keys.contains(keys[j]));
                assert(data@.contains_key(keys[j]));
            }
        }
        let n = data.len();
        let mut deleted: u64 = 0;
        let mut i: usize = 0;
        while i < n
            invariant
                n == keys.len(),
                keys == data.key_seq(),
                bv.dom() == keys.to_set(),
                keys.no_duplicates(),
                c == cutoff as int,
                expired_total(keys, bv, c, n as int) <= u64::MAX,
                i <= n,
                deleted == expired_total(keys, bv, c, i as int),
                forall|j: int| i <= j < n ==> #[trigger] block_seq(data.value_seq()[j]@) == bv[keys[j]],
                forall|j: int| 0 <= j < i ==> #[trigger] block_seq(data.value_seq()[j]@) == bv[keys[j]].filter(bucket_kept(c)),
                forall|j: int| 0 <= j < n ==> buckets_ascending(#[trigger] block_seq(data.value_seq()[j]@)),
                data@.dom() == keys.to_set(),
                forall|j: int| 0 <= j < n ==> #[trigger] data@[keys[j]] == data.value_seq()[j],
            decreases n - i,
        {
            proof {
                use_type_invariant(&data);
                data.lemma_view();
                lemma_expired_total_mono(keys, bv, c, i as int + 1, n as int);
            }
            let bs = data.replace_value_at(i, Vec::new());
            proof {
                assert(block_seq(bs@) == bv[keys[i as int]]);
                assert(expired_total(keys, bv, c, i as int + 1) == expired_total(keys, bv, c, i as int)
                    + expired_count(bv[keys[i as int]], c, bv[keys[i as int]].len() as int));
            }
            let (kept, removed) = split_expired(bs, cutoff);
            data.set_value_at(i, kept);
            deleted = deleted + removed;
            i = i + 1;
            proof {
                use_type_invariant(&data);
                data.lemma_view();
            }
        }
        proof {
            assert forall|k: Seq<char>| #[trigger] data@.contains_key(k) implies buckets_ascending(
                block_seq(data@[k]@),
            ) by {
                assert(keys.to_set().contains(k));
                let j = choose|j: int| 0 <= j < n && keys[j] == k;
                assert(data@[keys[j]] == data.value_seq()[j]);
            }
        }
        self.data = data;
        proof {
            assert forall|k: Seq<char>| #[trigger] self.buckets_view().contains_key(k) implies self.buckets_view()[k]
                == bv[k].filter(bucket_kept(c)) by {
                assert(keys.to_set().contains(k));
                let j = choose|j: int| 0 <= j < n && keys[j] == k;
                assert(self.data@[keys[j]] == self.data.value_seq()[j]);
            }
            assert(self.buckets_view().dom() =~= bv.dom());
        }
        Ok(deleted)
    }

    /// Drops the buckets older than the retention period, now.
    pub fn run_retention(&mut self) -> (r: Result<u64, Error>)
        requires
            forall|now: i64|
                #![trigger retention_cutoff(now, old(self).config_view().retention_days)]
                expired_total(
                    old(self).series_keys(),
                    old(self).buckets_view(),
                    retention_cutoff(now, old(self).config_view().retention_days),
                    old(self).series_keys().len() as int,
                ) <= u64::MAX,
        ensures
            exists|now: i64|
                #![trigger retention_cutoff(now, old(self).config_view().retention_days)]
                {
                    &&& r matches Ok(d) && d == expired_total(
                        old(self).series_keys(),
                        old(self).buckets_view(),
                        retention_cutoff(now, old(self).config_view().retention_days),
                        old(self).series_keys().len() as int,
                    )
                    &&& forall|k: Seq<char>|
                        #[trigger] final(self).buckets_view().contains_key(k)
                            ==> final(self).buckets_view()[k] == old(self).buckets_view()[k].filter(
                            bucket_kept(retention_cutoff(now, old(self).config_view().retention_days)),
                        )
                },
            final(self).buckets_view().dom() == old(self).buckets_view().dom(),
            final(self).series_keys() == old(self).series_keys(),
            final(self).index_view() == old(self).index_view(),
            final(self).config_view() == old(self).config_view(),
    {
        let now = now_millis();
        self.run_retention_at(now)
    }

    /// How many points each downsampling rule finds at `now` (milliseconds)
    /// in buckets older than the rule's age that hold more than one point,
    /// summed over the rules.
    pub fn run_downsampling_at(&self, now: i64) -> (r: Result<u64, Error>)
        requires
            downsample_total(
                self.config_view().downsample_rules@,
                self.series_keys(),
                self.buckets_view(),
                now,
                self.config_view().downsample_rules@.len() as int,
            ) <= u64::MAX,
        ensures
            r matches Ok(d) && d == downsample_total(
                self.config_view().downsample_rules@,
                self.series_keys(),
                self.buckets_view(),
                now,
                self.config_view().downsample_rules@.len() as int,
            ),
    {
        proof {
            use_type_invariant(&self.data);
            self.lemma_series();
        }
        let ghost rules = self.config.downsample_rules@;
        let ghost keys = self.series_keys();
        let ghost bv = self.buckets_view();
        let nr = self.config.downsample_rules.len();
        let n = self.data.len();
        let mut total: u64 = 0;
        let mut r: usize = 0;
        while r < nr
            invariant
                nr == rules.len(),
                rules == self.config.downsample_rules@,
                n == keys.len(),
                keys == self.series_keys(),
                bv == self.buckets_view(),
                forall|j: int|
                    0 <= j < n ==> #[trigger] bv[keys[j]] == block_seq(self.data.value_seq()[j]@),
                keys.len() == self.data.key_seq().len(),
                downsample_total(rules, keys, bv, now, nr as int) <= u64::MAX,
                r <= nr,
                total == downsample_total(rules, keys, bv, now, r as int),
            decreases nr - r,
        {
            let after = self.config.downsample_rules[r].after_secs;
            let cutoff: i128 = (now as i128) - (after as i128) * 1000;
            let ghost c = cutoff as int;
            proof {
                lemma_downsample_total_mono(rules, keys, bv, now, r as int + 1, nr as int);
            }
            let ghost base = total;
            let mut i: usize = 0;
            while i < n
                invariant
                    n == keys.len(),
                    keys.len() == self.data.key_seq().len(),
                    forall|j: int|
                        0 <= j < n ==> #[trigger] bv[keys[j]] == block_seq(self.data.value_seq()[j]@),
                    c == cutoff as int,
                    base + coarse_total(keys, bv, c, n as int) <= u64::MAX,
                    i <= n,
                    total == base + coarse_total(keys, bv, c, i as int),
                decreases n - i,
            {
                let bs = self.data.value_at(i);
                let ghost bsv = block_seq(bs@);
                proof {
                    assert(bv[keys[i as int]] == bsv);
                    lemma_coarse_total_mono(keys, bv, c, i as int + 1, n as int);
                }
                let mut j: usize = 0;
                let ghost inner = total;
                while j < bs.len()
                    invariant
                        bsv == block_seq(bs@),
                            c == cutoff as int,
                        inner + coarse_count(bsv, c, bsv.len() as int) <= u64::MAX,
                        j <= bs@.len(),
                        total == inner + coarse_count(bsv, c, j as int),
                    decreases bs@.len() - j,
                {
                    proof {
                        lemma_coarse_count_mono(bsv, c, j as int + 1, bsv.len() as int);
                    }
                    if (bs[j].0 as i128) < cutoff && bs[j].1.count > 1 {
                        total = total + bs[j].1.count as u64;
                    }
                    j = j + 1;
                }
                i = i + 1;
            }
            r = r + 1;
        }
        Ok(total)
    }

    /// What the downsampling rules find, now.
    pub fn run_downsampling(&self) -> (r: Result<u64, Error>)
        requires
            forall|now: i64|
                downsample_total(
                    self.config_view().downsample_rules@,
                    self.series_keys(),
                    self.buckets_view(),
                    now,
                    self.config_view().downsample_rules@.len() as int,
                ) <= u64::MAX,
        ensures
            exists|now: i64|
                #![trigger downsample_total(self.config_view().downsample_rules@, self.series_keys(), self.buckets_view(), now, self.config_view().downsample_rules@.len() as int)]
                r matches Ok(d) && d == downsample_total(
                    self.config_view().downsample_rules@,
                    self.series_keys(),
                    self.buckets_view(),
                    now,
                    self.config_view().downsample_rules@.len() as int,
                ),
    {
        let now = now_millis();
        self.run_downsampling_at(now)
    }

    /// Storage statistics: the number of series, the points and encoded
    /// bytes they hold, the retention and the number of downsampling rules.
    pub fn stats(&self) -> (r: TimeseriesStats)
        requires
            store_sum(self.series_keys(), self.buckets_view(), false, self.series_keys().len() as int)
                <= usize::MAX,
            store_sum(self.series_keys(), self.buckets_view(), true, self.series_keys().len() as int)
                <= usize::MAX,
        ensures
            r.total_series == self.series_keys().len(),
            r.total_points == store_sum(
                self.series_keys(),
                self.buckets_view(),
                false,
                self.series_keys().len() as int,
            ),
            r.total_bytes == store_sum(
                self.series_keys(),
                self.buckets_view(),
                true,
                self.series_keys().len() as int,
            ),
            r.retention_days == self.config_view().retention_days,
            r.downsample_rules == self.config_view().downsample_rules@.len(),
    {
        proof {
            use_type_invariant(&self.data);
            self.lemma_series();
        }
        let ghost keys = self.series_keys();
        let ghost bv = self.buckets_view();
        let n = self.data.len();
        let mut points: usize = 0;
        let mut bytes: usize = 0;
        let mut i: usize = 0;
        while i < n
            invariant
                n == keys.len(),
                keys == self.series_keys(),
                bv == self.buckets_view(),
                keys.len() == self.data.key_seq().len(),
                forall|j: int|
                    0 <= j < n ==> #[trigger] bv[keys[j]] == block_seq(self.data.value_seq()[j]@),
                store_sum(keys, bv, false, n as int) <= usize::MAX,
                store_sum(keys, bv, true, n as int) <= usize::MAX,
                i <= n,
                points == store_sum(keys, bv, false, i as int),
                bytes == store_sum(keys, bv, true, i as int),
            decreases n - i,
        {
            let bs = self.data.value_at(i);
            let ghost bsv = block_seq(bs@);
            proof {
                assert(bv[keys[i as int]] == bsv);
                lemma_store_sum_mono(keys, bv, false, i as int + 1, n as int);
                lemma_store_sum_mono(keys, bv, true, i as int + 1, n as int);
            }
            let ghost p0 = points;
            let ghost b0 = bytes;
            let mut j: usize = 0;
            while j < bs.len()
                invariant
                    bsv == block_seq(bs@),
                    p0 + bucket_sum(bsv, false, bsv.len() as int) <= usize::MAX,
                    b0 + bucket_sum(bsv, true, bsv.len() as int) <= usize::MAX,
                    j <= bs@.len(),
                    points == p0 + bucket_sum(bsv, false, j as int),
                    bytes == b0 + bucket_sum(bsv, true, j as int),
                decreases bs@.len() - j,
            {
                proof {
                    lemma_bucket_sum_mono(bsv, false, j as int + 1, bsv.len() as int);
                    lemma_bucket_sum_mono(bsv, true, j as int + 1, bsv.len() as int);
                }
                points = points + bs[j].1.count;
                bytes = bytes + bs[j].1.data.len();
                j = j + 1;
            }
            i = i + 1;
        }
        TimeseriesStats {
            total_series: n,
            total_points: points,
            total_bytes: bytes,
            retention_days: self.config.retention_days,
            downsample_rules: self.config.downsample_rules.len(),
        }
    }
    /// The configuration.
    pub fn config(&self) -> (r: &TimeseriesConfig)
        ensures
            *r == self.config_view(),
    {
        &self.config
    }

    /// Whether every block of the series `query` selects decodes without a
    /// timestamp overflowing (always so without delta encoding).
    pub fn is_decodable_for(&self, query: &TimeseriesQuery) -> (r: bool)
        ensures
            r == self.decodable_for(*query),
    {
        if !self.config.compression.delta_encoding {
            return true;
        }
        proof {
            use_type_invariant(&self.data);
            self.lemma_series();
        }
        let ghost keys = self.series_keys();
        let ghost bv = self.buckets_view();
        let n = self.data.len();
        let mut i: usize = 0;
        while i < n
            invariant
                self.delta(),
                n == keys.len(),
                keys == self.series_keys(),
                keys == self.data.key_seq(),
                bv == self.buckets_view(),
                bv.dom() == keys.to_set(),
                forall|j: int|
                    0 <= j < n ==> #[trigger] bv[keys[j]] == block_seq(self.data.value_seq()[j]@),
                i <= n,
                forall|j: int, m: int|
                    0 <= j < i && series_selected(keys[j], *query) && 0 <= m < bv[keys[j]].len()
                        ==> block_decodable(true, #[trigger] bv[keys[j]][m].1),
            decreases n - i,
        {
            let name = self.data.key_at(i);
            if self.matches_metric(name.as_str(), query.metric.as_str()) && self.matches_tags(
                name.as_str(),
                &query.tags,
            ) {
                let bs = self.data.value_at(i);
                let ghost bsv = block_seq(bs@);
                proof {
                    assert(bv[keys[i as int]] == bsv);
                    assert(name@ == keys[i as int]);
                }
                let mut j: usize = 0;
                while j < bs.len()
                    invariant
                        bsv == block_seq(bs@),
                        self.delta(),
                        i < n,
                        n == keys.len(),
                        keys == self.series_keys(),
                        bv == self.buckets_view(),
                        bv.dom() == keys.to_set(),
                        bsv == bv[keys[i as int]],
                        series_selected(keys[i as int], *query),
                        j <= bs@.len(),
                        forall|m: int| 0 <= m < j ==> block_decodable(true, #[trigger] bsv[m].1),
                    decreases bs@.len() - j,
                {
                    let block = &bs[j].1;
                    assert(bsv[j as int].1 == block@);
                    if !delta_data_fits(block.data.as_slice(), block.start_ts) {
                        proof {
                            assert(keys.contains(keys[i as int]));
                            assert(keys.to_set().contains(keys[i as int]));
                            assert(bv.contains_key(keys[i as int]));
                            assert(!block_decodable(true, bv[keys[i as int]][j as int].1));
                        }
                        return false;
                    }
                    j = j + 1;
                }
            }
            i = i + 1;
        }
        proof {
            assert forall|k: Seq<char>, m: int|
                #[trigger] self.buckets_view().contains_key(k) && series_selected(k, *query) && 0
                    <= m < self.buckets_view()[k].len() implies block_decodable(
                self.delta(),
                #[trigger] self.buckets_view()[k][m].1,
            ) by {
                assert(keys.to_set().contains(k));
                let j = choose|j: int| 0 <= j < n && keys[j] == k;
                assert(bv[keys[j]][m].1 == self.buckets_view()[k][m].1);
            }
        }
        true
    }

    /// Whether the points a scan for `query` reads can be counted in a `u64`.
    pub fn scan_fits(&self, query: &TimeseriesQuery) -> (r: bool)
        ensures
            r == (scan_count(
                lex_sort(self.series_keys()),
                self.buckets_view(),
                *query,
                self.series_keys().len() as int,
            ) <= u64::MAX),
    {
        proof {
            use_type_invariant(&self.data);
            self.lemma_series();
            lemma_lex_sort_elems(self.series_keys());
        }
        let names = sorted_keys(&self.data);
        let ghost keys = lex_sort(self.series_keys());
        let ghost bv = self.buckets_view();
        let n = names.len();
        let mut total: u64 = 0;
        let mut i: usize = 0;
        while i < n
            invariant
                n == names@.len(),
                keys == names@.map_values(|s: String| s@),
                keys == lex_sort(self.series_keys()),
                keys.len() == self.series_keys().len(),
                forall|j: int| 0 <= j < n ==> self.series_keys().contains(#[trigger] keys[j]),
                bv == self.buckets_view(),
                bv.dom() == self.series_keys().to_set(),
                i <= n,
                total == scan_count(keys, bv, *query, i as int),
            decreases n - i,
        {
            let name = &names[i];
            proof {
                assert(keys[i as int] == name@);
                assert(self.series_keys().contains(name@));
                assert(bv.contains_key(name@));
            }
            if self.matches_metric(name.as_str(), query.metric.as_str()) && self.matches_tags(
                name.as_str(),
                &query.tags,
            ) {
                match self.data.get(name.as_str()) {
                    Some(bs) => {
                        let ghost bsv = block_seq(bs@);
                        proof {
                            assert(bv[name@] == bsv);
                        }
                        let ghost base = total;
                        assert(series_selected(keys[i as int], *query));
                        let mut j: usize = 0;
                        while j < bs.len()
                            invariant
                                bsv == block_seq(bs@),
                                i < n,
                                n == keys.len(),
                                keys == lex_sort(self.series_keys()),
                                keys.len() == self.series_keys().len(),
                                bv == self.buckets_view(),
                                bsv == bv[keys[i as int]],
                                base == scan_count(keys, bv, *query, i as int),
                                series_selected(keys[i as int], *query),
                                j <= bs@.len(),
                                total == base + bucket_count(bsv, query.start, query.end, j as int),
                            decreases bs@.len() - j,
                        {
                            assert(bsv[j as int] == (bs@[j as int].0, bs@[j as int].1@));
                            if query.start <= bs[j].0 && bs[j].0 <= query.end {
                                match total.checked_add(bs[j].1.count as u64) {
                                    Some(t) => {
                                        total = t;
                                    },
                                    None => {
                                        proof {
                                            lemma_bucket_count_mono(
                                                bsv,
                                                query.start,
                                                query.end,
                                                j as int + 1,
                                                bsv.len() as int,
                                            );
                                            lemma_scan_count_mono(
                                                keys,
                                                bv,
                                                *query,
                                                i as int + 1,
                                                n as int,
                                            );
                                        }
                                        return false;
                                    },
                                }
                            }
                            j = j + 1;
                        }
                    },
                    None => {},
                }
            }
            i = i + 1;
        }
        true
    }

    /// Whether the points and encoded bytes of the store can be counted in a `usize`.
    pub fn stats_fit(&self) -> (r: bool)
        ensures
            r == (store_sum(
                self.series_keys(),
                self.buckets_view(),
                false,
                self.series_keys().len() as int,
            ) <= usize::MAX && store_sum(
                self.series_keys(),
                self.buckets_view(),
                true,
                self.series_keys().len() as int,
            ) <= usize::MAX),
    {
        proof {
            use_type_invariant(&self.data);
            self.lemma_series();
        }
        let ghost keys = self.series_keys();
        let ghost bv = self.buckets_view();
        let n = self.data.len();
        let mut points: usize = 0;
        let mut bytes: usize = 0;
        let mut i: usize = 0;
        while i < n
            invariant
                n == keys.len(),
                keys == self.series_keys(),
                bv == self.buckets_view(),
                keys.len() == self.data.key_seq().len(),
                forall|j: int|
                    0 <= j < n ==> #[trigger] bv[keys[j]] == block_seq(self.data.value_seq()[j]@),
                i <= n,
                points == store_sum(keys, bv, false, i as int),
                bytes == store_sum(keys, bv, true, i as int),
            decreases n - i,
        {
            let bs = self.data.value_at(i);
            let ghost bsv = block_seq(bs@);
            proof {
                assert(bv[keys[i as int]] == bsv);
            }
            let ghost p0 = points;
            let ghost b0 = bytes;
            let mut j: usize = 0;
            while j < bs.len()
                invariant
                    bsv == block_seq(bs@),
                    i < n,
                    n == keys.len(),
                    keys == self.series_keys(),
                    bv == self.buckets_view(),
                    bsv == bv[keys[i as int]],
                    p0 == store_sum(keys, bv, false, i as int),
                    b0 == store_sum(keys, bv, true, i as int),
                    j <= bs@.len(),
                    points == p0 + bucket_sum(bsv, false, j as int),
                    bytes == b0 + bucket_sum(bsv, true, j as int),
                decreases bs@.len() - j,
            {
                assert(bsv[j as int] == (bs@[j as int].0, bs@[j as int].1@));
                proof {
                    lemma_bucket_sum_mono(bsv, false, j as int + 1, bsv.len() as int);
                    lemma_bucket_sum_mono(bsv, true, j as int + 1, bsv.len() as int);
                    lemma_store_sum_mono(keys, bv, false, i as int + 1, n as int);
                    lemma_store_sum_mono(keys, bv, true, i as int + 1, n as int);
                }
                match points.checked_add(bs[j].1.count) {
                    Some(t) => {
                        points = t;
                    },
                    None => {
                        return false;
                    },
                }
                match bytes.checked_add(bs[j].1.data.len()) {
                    Some(t) => {
                        bytes = t;
                    },
                    None => {
                        return false;
                    },
                }
                j = j + 1;
            }
            i = i + 1;
        }
        true
    }

    /// Whether the points a retention run at `now` drops can be counted in a `u64`.
    pub fn retention_fits(&self, now: i64) -> (r: bool)
        ensures
            r == (expired_total(
                self.series_keys(),
                self.buckets_view(),
                retention_cutoff(now, self.config_view().retention_days),
                self.series_keys().len() as int,
            ) <= u64::MAX),
    {
        proof {
            use_type_invariant(&self.data);
            self.lemma_series();
        }
        let cutoff: i128 = (now as i128) - (self.config.retention_days as i128) * 86_400_000;
        let ghost c = cutoff as int;
        let ghost keys = self.series_keys();
        let ghost bv = self.buckets_view();
        let n = self.data.len();
        let mut total: u64 = 0;
        let mut i: usize = 0;
        while i < n
            invariant
                n == keys.len(),
                keys == self.series_keys(),
                bv == self.buckets_view(),
                keys.len() == self.data.key_seq().len(),
                forall|j: int|
                    0 <= j < n ==> #[trigger] bv[keys[j]] == block_seq(self.data.value_seq()[j]@),
                c == cutoff as int,
                c == retention_cutoff(now, self.config_view().retention_days),
                i <= n,
                total == expired_total(keys, bv, c, i as int),
            decreases n - i,
        {
            let bs = self.data.value_at(i);
            let ghost bsv = block_seq(bs@);
            proof {
                assert(bv[keys[i as int]] == bsv);
            }
            let ghost base = total;
            let mut j: usize = 0;
            while j < bs.len()
                invariant
                    bsv == block_seq(bs@),
                    c == cutoff as int,
                    c == retention_cutoff(now, self.config_view().retention_days),
                    i < n,
                    n == keys.len(),
                    keys == self.series_keys(),
                    bv == self.buckets_view(),
                    bsv == bv[keys[i as int]],
                    base == expired_total(keys, bv, c, i as int),
                    j <= bs@.len(),
                    total == base + expired_count(bsv, c, j as int),
                decreases bs@.len() - j,
            {
                assert(bsv[j as int] == (bs@[j as int].0, bs@[j as int].1@));
                if (bs[j].0 as i128) < cutoff {
                    match total.checked_add(bs[j].1.count as u64) {
                        Some(t) => {
                            total = t;
                        },
                        None => {
                            proof {
                                lemma_expired_count_mono(bsv, c, j as int + 1, bsv.len() as int);
                                lemma_expired_total_mono(keys, bv, c, i as int + 1, n as int);
                            }
                            return false;
                        },
                    }
                }
                j = j + 1;
            }
            i = i + 1;
        }
        true
    }

    /// Whether the points the downsampling rules find at `now` can be counted in a `u64`.
    pub fn downsampling_fits(&self, now: i64) -> (r: bool)
        ensures
            r == (downsample_total(
                self.config_view().downsample_rules@,
                self.series_keys(),
                self.buckets_view(),
                now,
                self.config_view().downsample_rules@.len() as int,
            ) <= u64::MAX),
    {
        proof {
            use_type_invariant(&self.data);
            self.lemma_series();
        }
        let ghost rules = self.config.downsample_rules@;
        let ghost keys = self.series_keys();
        let ghost bv = self.buckets_view();
        let nr = self.config.downsample_rules.len();
        let n = self.data.len();
        let mut total: u64 = 0;
        let mut r: usize = 0;
        while r < nr
            invariant
                nr == rules.len(),
                rules == self.config.downsample_rules@,
                n == keys.len(),
                keys == self.series_keys(),
                bv == self.buckets_view(),
                forall|j: int|
                    0 <= j < n ==> #[trigger] bv[keys[j]] == block_seq(self.data.value_seq()[j]@),
                keys.len() == self.data.key_seq().len(),
                r <= nr,
                total == downsample_total(rules, keys, bv, now, r as int),
            decreases nr - r,
        {
            let after = self.config.downsample_rules[r].after_secs;
            let cutoff: i128 = (now as i128) - (after as i128) * 1000;
            let ghost c = cutoff as int;
            let ghost base = total;
            let mut i: usize = 0;
            while i < n
                invariant
                    n == keys.len(),
                    keys.len() == self.data.key_seq().len(),
                    forall|j: int|
                        0 <= j < n ==> #[trigger] bv[keys[j]] == block_seq(self.data.value_seq()[j]@),
                    c == cutoff as int,
                    r < nr,
                    nr == rules.len(),
                    rules == self.config.downsample_rules@,
                    keys == self.series_keys(),
                    bv == self.buckets_view(),
                    c == now - rules[r as int].after_secs * 1000,
                    base == downsample_total(rules, keys, bv, now, r as int),
                    i <= n,
                    total == base + coarse_total(keys, bv, c, i as int),
                decreases n - i,
            {
                let bs = self.data.value_at(i);
                let ghost bsv = block_seq(bs@);
                proof {
                    assert(bv[keys[i as int]] == bsv);
                }
                let mut j: usize = 0;
                let ghost inner = total;
                while j < bs.len()
                    invariant
                        bsv == block_seq(bs@),
                        c == cutoff as int,
                        r < nr,
                        nr == rules.len(),
                        rules == self.config.downsample_rules@,
                        keys == self.series_keys(),
                        bv == self.buckets_view(),
                        i < n,
                        n == keys.len(),
                        bsv == bv[keys[i as int]],
                        c == now - rules[r as int].after_secs * 1000,
                        base == downsample_total(rules, keys, bv, now, r as int),
                        inner == base + coarse_total(keys, bv, c, i as int),
                        j <= bs@.len(),
                        total == inner + coarse_count(bsv, c, j as int),
                    decreases bs@.len() - j,
                {
                    assert(bsv[j as int] == (bs@[j as int].0, bs@[j as int].1@));
                    if (bs[j].0 as i128) < cutoff && bs[j].1.count > 1 {
                        match total.checked_add(bs[j].1.count as u64) {
                            Some(t) => {
                                total = t;
                            },
                            None => {
                                proof {
                                    lemma_coarse_count_mono(
                                        bsv,
                                        c,
                                        j as int + 1,
                                        bsv.len() as int,
                                    );
                                    lemma_coarse_total_mono(keys, bv, c, i as int + 1, n as int);
                                    lemma_downsample_total_mono(
                                        rules,
                                        keys,
                                        bv,
                                        now,
                                        r as int + 1,
                                        nr as int,
                                    );
                                }
                                return false;
                            },
                        }
                    }
                    j = j + 1;
                }
                i = i + 1;
            }
            r = r + 1;
        }
        true
    }
}

} // verus!
