//! Change Data Capture: captures data changes as events, numbered in
//! order, filtered by configuration, for delivery to sinks.
//!
//! Delivery itself (channels, HTTP, files) happens elsewhere; this module
//! builds the events, decides which pass the filters, keeps the in-memory
//! sink's bounded buffer, and decides the webhook sink's retries.

use vstd::prelude::*;
use std::collections::VecDeque;
use crate::chars::starts_with;
use crate::clock::now_nanos;
use crate::error::Error;
use crate::ids::{is_hyphenated_uuid, new_uuid_string};
use crate::strmap::StrMap;
use crate::text::{concat2, decimal, u64_to_decimal};

verus! {

/// `true`, the default of the switches that are on unless configured off.
pub fn default_true() -> (r: bool)
    ensures
        r,
{
    true
}

/// The default event buffer size.
pub fn default_buffer_size() -> (r: usize)
    ensures
        r == 10000,
{
    10000
}

/// The default delivery batch size.
pub fn default_batch_size() -> (r: usize)
    ensures
        r == 100,
{
    100
}

/// The default flush interval, in milliseconds.
pub fn default_flush_interval() -> (r: u64)
    ensures
        r == 1000,
{
    1000
}

/// The default webhook timeout, in milliseconds.
pub fn default_timeout() -> (r: u64)
    ensures
        r == 5000,
{
    5000
}

/// The default number of webhook retries.
pub fn default_retries() -> (r: u32)
    ensures
        r == 3,
{
    3
}

/// The default capacity of the in-memory sink.
pub fn default_memory_limit() -> (r: usize)
    ensures
        r == 1000,
{
    1000
}

/// CDC operation type
#[derive(Debug, Clone, Copy, PartialEq, Eq, Structural)]
pub enum CDCOperation {
    /// New key inserted
    Insert,
    /// Existing key updated
    Update,
    /// Key deleted
    Delete,
    /// Snapshot of all data
    Snapshot,
}

/// The abstract value of a string table.
pub open spec fn str_table(m: StrMap<String>) -> Map<Seq<char>, Seq<char>> {
    Map::new(|k: Seq<char>| m@.contains_key(k), |k: Seq<char>| m@[k]@)
}

/// A copy of a string table.
pub fn copy_table(m: &StrMap<String>) -> (r: StrMap<String>)
    ensures
        str_table(r) == str_table(*m),
{
    proof {
        use_type_invariant(m);
        m.lemma_view();
    }
    let ghost ks = m.key_seq();
    let n = m.len();
    let mut out: StrMap<String> = StrMap::new();
    let mut i: usize = 0;
    while i < n
        invariant
            n == ks.len(),
            ks == m.key_seq(),
            ks.no_duplicates(),
            m@.dom() == ks.to_set(),
            forall|j: int| 0 <= j < n ==> #[trigger] m@[ks[j]] == m.value_seq()[j],
            i <= n,
            forall|q: Seq<char>|
                #[trigger] str_table(out).contains_key(q) <==> exists|j: int|
                    0 <= j < i && ks[j] == q,
            forall|j: int|
                0 <= j < i ==> #[trigger] str_table(out)[ks[j]] == str_table(*m)[ks[j]],
        decreases n - i,
    {
        let k = m.key_at(i);
        let v = m.value_at(i);
        let ghost before = str_table(out);
        proof {
            assert(ks.contains(ks[i as int]));
        }
        out.insert(k.clone(), v.clone());
        proof {
            assert(str_table(out) =~= before.insert(k@, v@));
            assert forall|q: Seq<char>| #[trigger] str_table(out).contains_key(q) <==> exists|j: int|
                0 <= j < i + 1 && ks[j] == q by {
                if q == k@ {
                    assert(ks[i as int] == q);
                }
                if exists|j: int| 0 <= j < i + 1 && ks[j] == q {
                    let j = choose|j: int| 0 <= j < i + 1 && ks[j] == q;
                    if j < i {
                        assert(before.contains_key(q));
                    }
                }
            }
            assert forall|j: int| 0 <= j < i + 1 implies #[trigger] str_table(out)[ks[j]]
                == str_table(*m)[ks[j]] by {
                if j < i {
                    assert(ks[j] != ks[i as int]);
                }
            }
        }
        i = i + 1;
    }
    proof {
        assert forall|q: Seq<char>| #[trigger] str_table(out).contains_key(q) <==> str_table(
            *m,
        ).contains_key(q) by {
            if str_table(*m).contains_key(q) {
                assert(ks.to_set().contains(q));
                let j = choose|j: int| 0 <= j < ks.len() && ks[j] == q;
            }
            if str_table(out).contains_key(q) {
                let j = choose|j: int| 0 <= j < n && ks[j] == q;
                assert(ks.contains(q));
            }
        }
        assert forall|q: Seq<char>| #[trigger] str_table(out).contains_key(q) implies str_table(
            out,
        )[q] == str_table(*m)[q] by {
            let j = choose|j: int| 0 <= j < n && ks[j] == q;
        }
        assert(str_table(out) =~= str_table(*m));
    }
    out
}

/// Additional metadata for CDC events
#[derive(Debug)]
pub struct CDCMetadata {
    /// Source coordinator/volume ID
    pub source_node: Option<String>,
    /// Datacenter ID
    pub datacenter: Option<String>,
    /// Transaction ID (if part of a transaction)
    pub transaction_id: Option<String>,
    /// User/API key that made the change
    pub actor: Option<String>,
    /// Custom tags
    pub tags: StrMap<String>,
}

/// The abstract value of an optional string.
pub open spec fn opt_text(s: Option<String>) -> Option<Seq<char>> {
    match s {
        Some(x) => Some(x@),
        None => None,
    }
}

/// The abstract value of optional bytes.
pub open spec fn opt_bytes(b: Option<Vec<u8>>) -> Option<Seq<u8>> {
    match b {
        Some(x) => Some(x@),
        None => None,
    }
}

/// The abstract value of `CDCMetadata`.
pub struct MetadataView {
    pub source_node: Option<Seq<char>>,
    pub datacenter: Option<Seq<char>>,
    pub transaction_id: Option<Seq<char>>,
    pub actor: Option<Seq<char>>,
    pub tags: Map<Seq<char>, Seq<char>>,
}

impl View for CDCMetadata {
    type V = MetadataView;

    open spec fn view(&self) -> MetadataView {
        MetadataView {
            source_node: opt_text(self.source_node),
            datacenter: opt_text(self.datacenter),
            transaction_id: opt_text(self.transaction_id),
            actor: opt_text(self.actor),
            tags: str_table(self.tags),
        }
    }
}

fn copy_opt_text(s: &Option<String>) -> (r: Option<String>)
    ensures
        opt_text(r) == opt_text(*s),
{
    match s {
        Some(x) => Some(x.clone()),
        None => None,
    }
}

fn copy_opt_bytes(b: &Option<Vec<u8>>) -> (r: Option<Vec<u8>>)
    ensures
        opt_bytes(r) == opt_bytes(*b),
{
    match b {
        Some(x) => {
            let mut out: Vec<u8> = Vec::new();
            let mut i: usize = 0;
            while i < x.len()
                invariant
                    i <= x@.len(),
                    out@ == x@.take(i as int),
                decreases x@.len() - i,
            {
                out.push(x[i]);
                i = i + 1;
                assert(out@ =~= x@.take(i as int));
            }
            assert(x@.take(i as int) =~= x@);
            Some(out)
        },
        None => None,
    }
}

impl Clone for CDCMetadata {
    fn clone(&self) -> (r: Self)
        ensures
            r@ == self@,
    {
        CDCMetadata {
            source_node: copy_opt_text(&self.source_node),
            datacenter: copy_opt_text(&self.datacenter),
            transaction_id: copy_opt_text(&self.transaction_id),
            actor: copy_opt_text(&self.actor),
            tags: copy_table(&self.tags),
        }
    }
}

impl Default for CDCMetadata {
    /// No metadata.
    fn default() -> (r: Self)
        ensures
            r@ == (MetadataView {
                source_node: None,
                datacenter: None,
                transaction_id: None,
                actor: None,
                tags: Map::empty(),
            }),
    {
        let r = CDCMetadata {
            source_node: None,
            datacenter: None,
            transaction_id: None,
            actor: None,
            tags: StrMap::new(),
        };
        assert(str_table(r.tags) =~= Map::<Seq<char>, Seq<char>>::empty());
        r
    }
}

/// A change event.
#[derive(Debug)]
pub struct CDCEvent {
    /// Event ID (UUID)
    pub id: String,
    /// Sequence number for ordering
    pub sequence: u64,
    /// Time of the event, in nanoseconds since the epoch
    pub timestamp: i64,
    /// Type of operation
    pub operation: CDCOperation,
    /// Key that was modified
    pub key: String,
    /// Value before the change (for updates and deletes)
    pub old_value: Option<Vec<u8>>,
    /// Value after the change (for inserts and updates)
    pub new_value: Option<Vec<u8>>,
    /// Tenant that owns the data
    pub tenant: Option<String>,
    /// Additional metadata
    pub metadata: CDCMetadata,
}

/// The abstract value of a `CDCEvent`.
pub struct EventView {
    pub id: Seq<char>,
    pub sequence: u64,
    pub timestamp: i64,
    pub operation: CDCOperation,
    pub key: Seq<char>,
    pub old_value: Option<Seq<u8>>,
    pub new_value: Option<Seq<u8>>,
    pub tenant: Option<Seq<char>>,
    pub metadata: MetadataView,
}

impl View for CDCEvent {
    type V = EventView;

    open spec fn view(&self) -> EventView {
        EventView {
            id: self.id@,
            sequence: self.sequence,
            timestamp: self.timestamp,
            operation: self.operation,
            key: self.key@,
            old_value: opt_bytes(self.old_value),
            new_value: opt_bytes(self.new_value),
            tenant: opt_text(self.tenant),
            metadata: self.metadata@,
        }
    }
}

impl Clone for CDCEvent {
    fn clone(&self) -> (r: Self)
        ensures
            r@ == self@,
    {
        CDCEvent {
            id: self.id.clone(),
            sequence: self.sequence,
            timestamp: self.timestamp,
            operation: self.operation,
            key: self.key.clone(),
            old_value: copy_opt_bytes(&self.old_value),
            new_value: copy_opt_bytes(&self.new_value),
            tenant: copy_opt_text(&self.tenant),
            metadata: self.metadata.clone(),
        }
    }
}

/// The abstract values of a sequence of events.
pub open spec fn event_views(s: Seq<CDCEvent>) -> Seq<EventView> {
    s.map_values(|e: CDCEvent| e@)
}

/// Sink configuration
#[derive(Debug, Clone)]
pub enum SinkConfig {
    /// Webhook sink - sends events to an HTTP endpoint
    Webhook { url: String, headers: StrMap<String>, timeout_ms: u64, max_retries: u32 },
    /// Kafka sink - sends events to a Kafka topic
    Kafka { brokers: Vec<String>, topic: String, client_id: Option<String> },
    /// File sink - appends events to a file
    File { path: String, rotate_size_mb: Option<u64>, max_files: Option<u32> },
    /// Memory sink - stores events in memory (for testing)
    Memory { max_events: usize },
}

/// CDC configuration
#[derive(Debug, Clone)]
pub struct CDCConfig {
    /// Enable CDC
    pub enabled: bool,
    /// Buffer size for events
    pub buffer_size: usize,
    /// Batch size for sink delivery
    pub batch_size: usize,
    /// Flush interval in milliseconds
    pub flush_interval_ms: u64,
    /// Sink configurations
    pub sinks: Vec<SinkConfig>,
    /// Filter by operation types
    pub filter_operations: Vec<CDCOperation>,
    /// Filter by key prefix
    pub filter_key_prefix: Option<String>,
    /// Include old values in events
    pub include_old_values: bool,
}

impl Default for CDCConfig {
    /// On, buffering 10000 events, batches of 100 every second, no sink, no
    /// filter, old values included.
    fn default() -> (r: Self)
        ensures
            r.enabled,
            r.buffer_size == 10000,
            r.batch_size == 100,
            r.flush_interval_ms == 1000,
            r.sinks@.len() == 0,
            r.filter_operations@.len() == 0,
            r.filter_key_prefix is None,
            r.include_old_values,
    {
        Self {
            enabled: true,
            buffer_size: 10000,
            batch_size: 100,
            flush_interval_ms: 1000,
            sinks: Vec::new(),
            filter_operations: Vec::new(),
            filter_key_prefix: None,
            include_old_values: true,
        }
    }
}

/// The in-memory buffer after one event arrives: when full (at capacity
/// `max`), the oldest event leaves first.
pub open spec fn buffer_after(b: Seq<EventView>, e: EventView, max: usize) -> Seq<EventView> {
    let kept = if b.len() >= max && b.len() > 0 {
        b.drop_first()
    } else {
        b
    };
    kept.push(e)
}

/// The in-memory buffer after the first `n` events of `es` arrive.
pub open spec fn buffer_after_all(b: Seq<EventView>, es: Seq<EventView>, max: usize, n: int) -> Seq<
    EventView,
>
    decreases n,
{
    if n <= 0 {
        b
    } else {
        buffer_after(buffer_after_all(b, es, max, n - 1), es[n - 1], max)
    }
}

/// The sink that keeps the most recent events in memory.
pub struct MemorySink {
    name: String,
    events: VecDeque<CDCEvent>,
    max_events: usize,
}

impl MemorySink {
    /// The sink's name.
    pub closed spec fn name_view(&self) -> Seq<char> {
        self.name@
    }

    /// The buffered events, oldest first.
    pub closed spec fn events_view(&self) -> Seq<EventView> {
        event_views(self.events@)
    }

    /// The sink's capacity.
    pub closed spec fn capacity(&self) -> usize {
        self.max_events
    }

    /// An empty sink named `memory` that keeps at most `max_events` events
    /// (one, if `max_events` is zero).
    pub fn new(max_events: usize) -> (r: Self)
        ensures
            r.name_view() == "memory"@,
            r.events_view() == Seq::<EventView>::empty(),
            r.capacity() == max_events,
    {
        let r = Self { name: "memory".to_owned(), events: VecDeque::new(), max_events };
        assert(r.events_view() =~= Seq::<EventView>::empty());
        r
    }

    /// The sink's name.
    pub fn name(&self) -> (r: &str)
        ensures
            r@ == self.name_view(),
    {
        self.name.as_str()
    }

    /// Buffers `events` in order, each one dropping the oldest buffered
    /// event when the buffer is full.
    pub fn send(&mut self, events: Vec<CDCEvent>) -> (r: Result<(), Error>)
        ensures
            r is Ok,
            final(self).events_view() == buffer_after_all(
                old(self).events_view(),
                event_views(events@),
                old(self).capacity(),
                events@.len() as int,
            ),
            final(self).capacity() == old(self).capacity(),
            final(self).name_view() == old(self).name_view(),
    {
        let ghost es = event_views(events@);
        let ghost n = events@.len() as int;
        let mut rest = events;
        let ghost mut i: int = 0;
        while rest.len() > 0
            invariant
                es == event_views(events@),
                n == es.len(),
                0 <= i <= n,
                event_views(rest@) == es.subrange(i, n),
                self.max_events == old(self).max_events,
                self.name == old(self).name,
                self.events_view() == buffer_after_all(
                    old(self).events_view(),
                    es,
                    self.max_events,
                    i,
                ),
            decreases rest@.len(),
        {
            let ghost before_rest = event_views(rest@);
            let e = rest.remove(0);
            proof {
                assert(event_views(rest@) =~= before_rest.drop_first());
                assert(before_rest[0] == es[i]);
            }
            let ghost before = self.events_view();
            if self.events.len() >= self.max_events {
                let _dropped = self.events.pop_front();
            }
            self.events.push_back(e);
            proof {
                assert(self.events_view() =~= buffer_after(before, e@, self.max_events));
                i = i + 1;
            }
        }
        Ok(())
    }

    /// Copies of the buffered events, oldest first.
    pub fn get_events(&self) -> (r: Vec<CDCEvent>)
        ensures
            event_views(r@) == self.events_view(),
    {
        let mut out: Vec<CDCEvent> = Vec::new();
        let mut i: usize = 0;
        while i < self.events.len()
            invariant
                i <= self.events@.len(),
                out@.len() == i,
                forall|j: int| 0 <= j < i ==> (#[trigger] out@[j])@ == self.events@[j]@,
            decreases self.events@.len() - i,
        {
            out.push(self.events[i].clone());
            i = i + 1;
        }
        assert(event_views(out@) =~= event_views(self.events@));
        out
    }

    /// Drops every buffered event.
    pub fn clear(&mut self)
        ensures
            final(self).events_view() == Seq::<EventView>::empty(),
            final(self).capacity() == old(self).capacity(),
            final(self).name_view() == old(self).name_view(),
    {
        self.events.clear();
        assert(self.events_view() =~= Seq::<EventView>::empty());
    }
}

/// The last `n` events of `s` (all of them if it holds fewer).
pub open spec fn last_n(s: Seq<EventView>, n: int) -> Seq<EventView> {
    if s.len() <= n {
        s
    } else {
        s.subrange(s.len() - n, s.len() as int)
    }
}

/// A memory sink of capacity `max` (at least one) that holds no more than
/// `max` events keeps, after any more arrive, the `max` most recent of all.
pub proof fn lemma_memory_sink_keeps_latest(b: Seq<EventView>, es: Seq<EventView>, max: usize)
    requires
        max >= 1,
        b.len() <= max,
    ensures
        buffer_after_all(b, es, max, es.len() as int) == last_n(b + es, max as int),
{
    lemma_buffer_prefix(b, es, max, es.len() as int);
    assert((b + es).take(b.len() + es.len() as int) =~= b + es);
}

proof fn lemma_buffer_prefix(b: Seq<EventView>, es: Seq<EventView>, max: usize, k: int)
    requires
        max >= 1,
        b.len() <= max,
        0 <= k <= es.len(),
    ensures
        buffer_after_all(b, es, max, k) == last_n((b + es).take(b.len() + k), max as int),
    decreases k,
{
    let all = b + es;
    if k == 0 {
        assert(all.take(b.len() as int) =~= b);
    } else {
        lemma_buffer_prefix(b, es, max, k - 1);
        let prev = all.take(b.len() + k - 1);
        let cur = all.take(b.len() + k);
        assert(cur =~= prev.push(es[k - 1]));
        let kept = last_n(prev, max as int);
        if prev.len() <= max {
            if prev.len() >= max {
                assert(kept.drop_first().push(es[k - 1]) =~= cur.subrange(
                    cur.len() - max,
                    cur.len() as int,
                ));
            }
        } else {
            assert(kept.drop_first().push(es[k - 1]) =~= cur.subrange(
                cur.len() - max,
                cur.len() as int,
            ));
        }
    }
}

/// The name of the webhook sink for `url`.
pub fn webhook_sink_name(url: &str) -> (r: String)
    ensures
        r@ == "webhook:"@ + url@,
{
    concat2("webhook:", url)
}

/// The name of the file sink for `path`.
pub fn file_sink_name(path: &str) -> (r: String)
    ensures
        r@ == "file:"@ + path@,
{
    concat2("file:", path)
}

/// Whether the webhook sink tries again after failed attempt `attempt`
/// (counted from 0) with `max_retries` retries allowed.
pub fn webhook_should_retry(attempt: u32, max_retries: u32) -> (r: bool)
    ensures
        r == (attempt < max_retries),
{
    attempt < max_retries
}

/// How long the webhook sink waits after failed attempt `attempt` (counted
/// from 0), in milliseconds: 100 more for each attempt.
pub fn webhook_backoff_ms(attempt: u32) -> (r: u64)
    ensures
        r == 100 * (attempt + 1),
{
    100 * (attempt as u64 + 1)
}

/// The error of a webhook delivery that failed every attempt.
pub fn webhook_failure_message(max_retries: u32, last_error: Option<String>) -> (r: String)
    ensures
        r@ == "Webhook sink failed after "@ + decimal(max_retries as nat) + " retries: "@ + match last_error {
            Some(e) => e@,
            None => Seq::<char>::empty(),
        },
{
    let mut m = "Webhook sink failed after ".to_owned();
    let n = u64_to_decimal(max_retries as u64);
    m.append(n.as_str());
    m.append(" retries: ");
    match last_error {
        Some(e) => {
            m.append(e.as_str());
        },
        None => {},
    }
    m
}

/// Whether an event with `op` on `key` passes the filters of `config`: its
/// operation is among the filtered ones (if any are set) and its key starts
/// with the filtered prefix (if one is set).
pub open spec fn passes(config: CDCConfig, op: CDCOperation, key: Seq<char>) -> bool {
    &&& (config.filter_operations@.len() == 0 || config.filter_operations@.contains(op))
    &&& (config.filter_key_prefix matches Some(p) ==> p@.is_prefix_of(key))
}

/// Captures data changes as numbered events.
pub struct CDCManager {
    config: CDCConfig,
    sequence: u64,
    buffer: Vec<CDCEvent>,
}

impl CDCManager {
    /// The configuration.
    pub closed spec fn config_view(&self) -> CDCConfig {
        self.config
    }

    /// The last sequence number handed out (0 before the first event).
    pub closed spec fn sequence_view(&self) -> u64 {
        self.sequence
    }

    /// Events waiting for a flush.
    pub closed spec fn buffer_view(&self) -> Seq<EventView> {
        event_views(self.buffer@)
    }

    /// A manager with `config` that has numbered no event yet.
    pub fn new(config: CDCConfig) -> (r: Self)
        ensures
            r.config_view() == config,
            r.sequence_view() == 0,
            r.buffer_view() == Seq::<EventView>::empty(),
    {
        let r = Self { config, sequence: 0, buffer: Vec::new() };
        assert(r.buffer_view() =~= Seq::<EventView>::empty());
        r
    }

    /// The next sequence number.
    fn next_sequence(&mut self) -> (r: u64)
        requires
            old(self).sequence_view() < u64::MAX,
        ensures
            r == old(self).sequence_view() + 1,
            final(self).sequence_view() == r,
            final(self).config_view() == old(self).config_view(),
            final(self).buffer_view() == old(self).buffer_view(),
    {
        self.sequence = self.sequence + 1;
        self.sequence
    }

    /// The last sequence number handed out.
    pub fn current_sequence(&self) -> (r: u64)
        ensures
            r == self.sequence_view(),
    {
        self.sequence
    }

    /// Whether `event` passes the configured filters.
    pub fn passes_filter(&self, event: &CDCEvent) -> (r: bool)
        ensures
            r == passes(self.config_view(), event.operation, event.key@),
    {
        let ops = &self.config.filter_operations;
        if ops.len() > 0 {
            let mut found = false;
            let mut i: usize = 0;
            while i < ops.len()
                invariant
                    i <= ops@.len(),
                    found == ops@.take(i as int).contains(event.operation),
                decreases ops@.len() - i,
            {
                let ghost t = ops@.take(i as int);
                proof {
                    assert(ops@.take(i as int + 1) =~= t.push(ops@[i as int]));
                }
                if ops[i] == event.operation {
                    found = true;
                    proof {
                        assert(ops@.take(i as int + 1)[i as int] == event.operation);
                    }
                } else {
                    proof {
                        let u = ops@.take(i as int + 1);
                        if u.contains(event.operation) {
                            let j = choose|j: int| 0 <= j < u.len() && u[j] == event.operation;
                            assert(t[j] == event.operation);
                        }
                    }
                }
                proof {
                    if found && t.contains(event.operation) {
                        let j = choose|j: int| 0 <= j < i && t[j] == event.operation;
                        assert(ops@.take(i as int + 1)[j] == event.operation);
                    }
                }
                i = i + 1;
            }
            assert(ops@.take(i as int) =~= ops@);
            if !found {
                return false;
            }
        }
        match &self.config.filter_key_prefix {
            Some(prefix) => starts_with(event.key.as_str(), prefix.as_str()),
            None => true,
        }
    }

    /// Builds the event of a change of `key` with `id` at `now`: when CDC is
    /// on, the event takes the next sequence number, and is handed back for
    /// delivery if it passes the filters; when off, nothing happens.
    fn capture_at(
        &mut self,
        operation: CDCOperation,
        key: &str,
        old_value: Option<Vec<u8>>,
        new_value: Option<Vec<u8>>,
        tenant: Option<String>,
        metadata: CDCMetadata,
        id: String,
        now: i64,
    ) -> (r: Option<CDCEvent>)
        requires
            old(self).config_view().enabled ==> old(self).sequence_view() < u64::MAX,
        ensures
            final(self).config_view() == old(self).config_view(),
            final(self).buffer_view() == old(self).buffer_view(),
            !old(self).config_view().enabled ==> r is None && final(self).sequence_view() == old(
                self,
            ).sequence_view(),
            old(self).config_view().enabled ==> {
                &&& final(self).sequence_view() == old(self).sequence_view() + 1
                &&& passes(old(self).config_view(), operation, key@) ==> (r matches Some(e) && e@
                    == (EventView {
                    id: id@,
                    sequence: final(self).sequence_view(),
                    timestamp: now,
                    operation,
                    key: key@,
                    old_value: opt_bytes(old_value),
                    new_value: opt_bytes(new_value),
                    tenant: opt_text(tenant),
                    metadata: metadata@,
                }))
                &&& !passes(old(self).config_view(), operation, key@) ==> r is None
            },
    {
        if !self.config.enabled {
            return None;
        }
        let sequence = self.next_sequence();
        let event = CDCEvent {
            id,
            sequence,
            timestamp: now,
            operation,
            key: key.to_owned(),
            old_value,
            new_value,
            tenant,
            metadata,
        };
        if self.passes_filter(&event) {
            Some(event)
        } else {
            None
        }
    }

    /// Captures an insert of `value` under `key`, with event `id` at `now`.
    pub fn capture_insert_at(
        &mut self,
        key: &str,
        value: Vec<u8>,
        tenant: Option<String>,
        metadata: CDCMetadata,
        id: String,
        now: i64,
    ) -> (r: Option<CDCEvent>)
        requires
            old(self).config_view().enabled ==> old(self).sequence_view() < u64::MAX,
        ensures
            final(self).config_view() == old(self).config_view(),
            final(self).buffer_view() == old(self).buffer_view(),
            !old(self).config_view().enabled ==> r is None && final(self).sequence_view() == old(
                self,
            ).sequence_view(),
            old(self).config_view().enabled ==> {
                &&& final(self).sequence_view() == old(self).sequence_view() + 1
                &&& passes(old(self).config_view(), CDCOperation::Insert, key@) ==> (r matches Some(e)
                    && e@ == (EventView {
                    id: id@,
                    sequence: final(self).sequence_view(),
                    timestamp: now,
                    operation: CDCOperation::Insert,
                    key: key@,
                    old_value: None,
                    new_value: Some(value@),
                    tenant: opt_text(tenant),
                    metadata: metadata@,
                }))
                &&& !passes(old(self).config_view(), CDCOperation::Insert, key@) ==> r is None
            },
    {
        self.capture_at(CDCOperation::Insert, key, None, Some(value), tenant, metadata, id, now)
    }

    /// Captures an update of `key` to `new_value`, with event `id` at `now`;
    /// the old value is kept only if the configuration includes old values.
    pub fn capture_update_at(
        &mut self,
        key: &str,
        old_value: Option<Vec<u8>>,
        new_value: Vec<u8>,
        tenant: Option<String>,
        metadata: CDCMetadata,
        id: String,
        now: i64,
    ) -> (r: Option<CDCEvent>)
        requires
            old(self).config_view().enabled ==> old(self).sequence_view() < u64::MAX,
        ensures
            final(self).config_view() == old(self).config_view(),
            final(self).buffer_view() == old(self).buffer_view(),
            !old(self).config_view().enabled ==> r is None && final(self).sequence_view() == old(
                self,
            ).sequence_view(),
            old(self).config_view().enabled ==> {
                &&& final(self).sequence_view() == old(self).sequence_view() + 1
                &&& passes(old(self).config_view(), CDCOperation::Update, key@) ==> (r matches Some(e)
                    && e@ == (EventView {
                    id: id@,
                    sequence: final(self).sequence_view(),
                    timestamp: now,
                    operation: CDCOperation::Update,
                    key: key@,
                    old_value: if old(self).config_view().include_old_values {
                        opt_bytes(old_value)
                    } else {
                        None
                    },
                    new_value: Some(new_value@),
                    tenant: opt_text(tenant),
                    metadata: metadata@,
                }))
                &&& !passes(old(self).config_view(), CDCOperation::Update, key@) ==> r is None
            },
    {
        let kept = if self.config.include_old_values {
            old_value
        } else {
            None
        };
        self.capture_at(CDCOperation::Update, key, kept, Some(new_value), tenant, metadata, id, now)
    }

    /// Captures a delete of `key`, with event `id` at `now`; the old value is
    /// kept only if the configuration includes old values.
    pub fn capture_delete_at(
        &mut self,
        key: &str,
        old_value: Option<Vec<u8>>,
        tenant: Option<String>,
        metadata: CDCMetadata,
        id: String,
        now: i64,
    ) -> (r: Option<CDCEvent>)
        requires
            old(self).config_view().enabled ==> old(self).sequence_view() < u64::MAX,
        ensures
            final(self).config_view() == old(self).config_view(),
            final(self).buffer_view() == old(self).buffer_view(),
            !old(self).config_view().enabled ==> r is None && final(self).sequence_view() == old(
                self,
            ).sequence_view(),
            old(self).config_view().enabled ==> {
                &&& final(self).sequence_view() == old(self).sequence_view() + 1
                &&& passes(old(self).config_view(), CDCOperation::Delete, key@) ==> (r matches Some(e)
                    && e@ == (EventView {
                    id: id@,
                    sequence: final(self).sequence_view(),
                    timestamp: now,
                    operation: CDCOperation::Delete,
                    key: key@,
                    old_value: if old(self).config_view().include_old_values {
                        opt_bytes(old_value)
                    } else {
                        None
                    },
                    new_value: None,
                    tenant: opt_text(tenant),
                    metadata: metadata@,
                }))
                &&& !passes(old(self).config_view(), CDCOperation::Delete, key@) ==> r is None
            },
    {
        let kept = if self.config.include_old_values {
            old_value
        } else {
            None
        };
        self.capture_at(CDCOperation::Delete, key, kept, None, tenant, metadata, id, now)
    }

    /// Captures an insert now, under a fresh random ID.
    pub fn capture_insert(
        &mut self,
        key: &str,
        value: Vec<u8>,
        tenant: Option<String>,
        metadata: CDCMetadata,
    ) -> (r: Option<CDCEvent>)
        requires
            old(self).config_view().enabled ==> old(self).sequence_view() < u64::MAX,
        ensures
            final(self).config_view() == old(self).config_view(),
            final(self).buffer_view() == old(self).buffer_view(),
            !old(self).config_view().enabled ==> r is None && final(self).sequence_view() == old(
                self,
            ).sequence_view(),
            old(self).config_view().enabled ==> {
                &&& final(self).sequence_view() == old(self).sequence_view() + 1
                &&& passes(old(self).config_view(), CDCOperation::Insert, key@) ==> (r matches Some(e)
                    && is_hyphenated_uuid(e.id@) && e.sequence == final(self).sequence_view() && e.timestamp >= 0
                    && e.operation == CDCOperation::Insert && e.key@ == key@ && e@.new_value == Some(
                    value@,
                ) && e.old_value is None && e@.tenant == opt_text(tenant) && e@.metadata
                    == metadata@)
                &&& !passes(old(self).config_view(), CDCOperation::Insert, key@) ==> r is None
            },
    {
        let id = new_uuid_string();
        let now = now_nanos();
        self.capture_insert_at(key, value, tenant, metadata, id, now)
    }

    /// Captures an update now, under a fresh random ID.
    pub fn capture_update(
        &mut self,
        key: &str,
        old_value: Option<Vec<u8>>,
        new_value: Vec<u8>,
        tenant: Option<String>,
        metadata: CDCMetadata,
    ) -> (r: Option<CDCEvent>)
        requires
            old(self).config_view().enabled ==> old(self).sequence_view() < u64::MAX,
        ensures
            final(self).config_view() == old(self).config_view(),
            final(self).buffer_view() == old(self).buffer_view(),
            !old(self).config_view().enabled ==> r is None && final(self).sequence_view() == old(
                self,
            ).sequence_view(),
            old(self).config_view().enabled ==> {
                &&& final(self).sequence_view() == old(self).sequence_view() + 1
                &&& passes(old(self).config_view(), CDCOperation::Update, key@) ==> (r matches Some(e)
                    && is_hyphenated_uuid(e.id@) && e.sequence == final(self).sequence_view() && e.timestamp >= 0
                    && e.operation == CDCOperation::Update && e.key@ == key@ && e@.new_value == Some(
                    new_value@,
                ) && e@.old_value == (if old(self).config_view().include_old_values {
                    opt_bytes(old_value)
                } else {
                    None
                }) && e@.tenant == opt_text(tenant) && e@.metadata == metadata@)
                &&& !passes(old(self).config_view(), CDCOperation::Update, key@) ==> r is None
            },
    {
        let id = new_uuid_string();
        let now = now_nanos();
        self.capture_update_at(key, old_value, new_value, tenant, metadata, id, now)
    }

    /// Captures a delete now, under a fresh random ID.
    pub fn capture_delete(
        &mut self,
        key: &str,
        old_value: Option<Vec<u8>>,
        tenant: Option<String>,
        metadata: CDCMetadata,
    ) -> (r: Option<CDCEvent>)
        requires
            old(self).config_view().enabled ==> old(self).sequence_view() < u64::MAX,
        ensures
            final(self).config_view() == old(self).config_view(),
            final(self).buffer_view() == old(self).buffer_view(),
            !old(self).config_view().enabled ==> r is None && final(self).sequence_view() == old(
                self,
            ).sequence_view(),
            old(self).config_view().enabled ==> {
                &&& final(self).sequence_view() == old(self).sequence_view() + 1
                &&& passes(old(self).config_view(), CDCOperation::Delete, key@) ==> (r matches Some(e)
                    && is_hyphenated_uuid(e.id@) && e.sequence == final(self).sequence_view() && e.timestamp >= 0
                    && e.operation == CDCOperation::Delete && e.key@ == key@ && e.new_value is None
                    && e@.old_value == (if old(self).config_view().include_old_values {
                    opt_bytes(old_value)
                } else {
                    None
                }) && e@.tenant == opt_text(tenant) && e@.metadata == metadata@)
                &&& !passes(old(self).config_view(), CDCOperation::Delete, key@) ==> r is None
            },
    {
        let id = new_uuid_string();
        let now = now_nanos();
        self.capture_delete_at(key, old_value, tenant, metadata, id, now)
    }

    /// Takes the events waiting for a flush, leaving none.
    pub fn take_buffer(&mut self) -> (r: Vec<CDCEvent>)
        ensures
            event_views(r@) == old(self).buffer_view(),
            final(self).buffer_view() == Seq::<EventView>::empty(),
            final(self).sequence_view() == old(self).sequence_view(),
            final(self).config_view() == old(self).config_view(),
    {
        let mut taken: Vec<CDCEvent> = Vec::new();
        std::mem::swap(&mut taken, &mut self.buffer);
        assert(self.buffer_view() =~= Seq::<EventView>::empty());
        taken
    }

    /// The configuration.
    pub fn config(&self) -> (r: &CDCConfig)
        ensures
            *r == self.config_view(),
    {
        &self.config
    }
}

} // verus!
