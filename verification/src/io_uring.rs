//! io_uring I/O backend (Linux 5.1+).
//!
//! The submission queue, its statistics and the batching of writes. Whether
//! the kernel offers io_uring is decided from the text of `/proc/version`,
//! which the caller reads and hands in.

use crate::chars::{chars_of, is_digit, parse_digits, parse_u32, parse_u32_chars};
use crate::error::Error;
use vstd::prelude::*;

verus! {

/// io_uring configuration
pub struct IoUringConfig {
    pub enabled: bool,
    pub sq_depth: u32,
    pub cq_depth: u32,
    pub kernel_poll: bool,
    pub poll_idle_ms: u32,
    pub registered_buffers: bool,
    pub buffer_count: usize,
    pub buffer_size: usize,
    pub direct_io: bool,
    pub batch_size: usize,
}

fn default_sq_depth() -> (r: u32)
    ensures
        r == 256,
{
    256
}

fn default_cq_depth() -> (r: u32)
    ensures
        r == 512,
{
    512
}

fn default_poll_idle() -> (r: u32)
    ensures
        r == 1000,
{
    1000
}

fn default_buffer_count() -> (r: usize)
    ensures
        r == 64,
{
    64
}

fn default_buffer_size() -> (r: usize)
    ensures
        r == 65536,
{
    65536
}

fn default_batch_size() -> (r: usize)
    ensures
        r == 32,
{
    32
}

fn default_true() -> (r: bool)
    ensures
        r,
{
    true
}

impl Default for IoUringConfig {
    fn default() -> (r: Self)
        ensures
            !r.enabled,
            r.sq_depth == 256,
            r.cq_depth == 512,
            !r.kernel_poll,
            r.poll_idle_ms == 1000,
            r.registered_buffers,
            r.buffer_count == 64,
            r.buffer_size == 65536,
            !r.direct_io,
            r.batch_size == 32,
    {
        IoUringConfig {
            enabled: false,
            sq_depth: default_sq_depth(),
            cq_depth: default_cq_depth(),
            kernel_poll: false,
            poll_idle_ms: default_poll_idle(),
            registered_buffers: default_true(),
            buffer_count: default_buffer_count(),
            buffer_size: default_buffer_size(),
            direct_io: false,
            batch_size: default_batch_size(),
        }
    }
}

impl Clone for IoUringConfig {
    fn clone(&self) -> (r: Self)
        ensures
            r == *self,
    {
        IoUringConfig { ..*self }
    }
}

/// Kind of I/O operation.
#[derive(Debug, Clone, Copy, PartialEq, Eq, Structural)]
pub enum IoOpType {
    Read,
    Write,
    Fsync,
    Fdatasync,
}

/// A submitted request.
#[derive(Debug)]
pub struct IoRequest {
    pub op: IoOpType,
    pub fd: i32,
    pub offset: u64,
    pub buffer: Vec<u8>,
    pub user_data: u64,
}

/// The abstract value of a request.
pub struct RequestView {
    pub op: IoOpType,
    pub fd: i32,
    pub offset: u64,
    pub buffer: Seq<u8>,
    pub user_data: u64,
}

impl View for IoRequest {
    type V = RequestView;

    open spec fn view(&self) -> RequestView {
        RequestView {
            op: self.op,
            fd: self.fd,
            offset: self.offset,
            buffer: self.buffer@,
            user_data: self.user_data,
        }
    }
}

/// The completion of a request.
#[derive(Debug, Clone, Copy, PartialEq, Eq, Structural)]
pub struct IoResult {
    pub user_data: u64,
    pub result: i32,
    pub op: IoOpType,
}

/// io_uring statistics.
#[derive(Debug)]
pub struct IoUringStats {
    pub submissions: u64,
    pub completions: u64,
    pub bytes_read: u64,
    pub bytes_written: u64,
    pub batched_submissions: u64,
    pub avg_batch_size: u64,
    pub poll_wakeups: u64,
}

impl Default for IoUringStats {
    fn default() -> (r: Self)
        ensures
            r.submissions == 0,
            r.completions == 0,
            r.bytes_read == 0,
            r.bytes_written == 0,
            r.batched_submissions == 0,
            r.avg_batch_size == 0,
            r.poll_wakeups == 0,
    {
        IoUringStats {
            submissions: 0,
            completions: 0,
            bytes_read: 0,
            bytes_written: 0,
            batched_submissions: 0,
            avg_batch_size: 0,
            poll_wakeups: 0,
        }
    }
}

/// `x + y` wrapped around to a `u64`.
pub open spec fn wrap_add(x: int, y: int) -> u64 {
    ((x + y) % 0x10000000000000000) as u64
}

/// What completing a request reports: the buffer's length for reads and
/// writes (as an `i32`, wrapped), zero for syncs.
pub open spec fn completion_of(r: RequestView) -> IoResult {
    IoResult {
        user_data: r.user_data,
        result: match r.op {
            IoOpType::Read => r.buffer.len() as i32,
            IoOpType::Write => r.buffer.len() as i32,
            _ => 0,
        },
        op: r.op,
    }
}

/// The bytes read by the requests.
pub open spec fn read_total(reqs: Seq<RequestView>) -> nat
    decreases reqs.len(),
{
    if reqs.len() == 0 {
        0
    } else {
        read_total(reqs.drop_last()) + if reqs.last().op == IoOpType::Read {
            reqs.last().buffer.len()
        } else {
            0
        }
    }
}

/// The bytes written by the requests.
pub open spec fn write_total(reqs: Seq<RequestView>) -> nat
    decreases reqs.len(),
{
    if reqs.len() == 0 {
        0
    } else {
        write_total(reqs.drop_last()) + if reqs.last().op == IoOpType::Write {
            reqs.last().buffer.len()
        } else {
            0
        }
    }
}

/// Whether `c` is white space, as `char::is_whitespace` decides.
pub open spec fn is_ws(c: char) -> bool {
    c == '\t' || c == '\n' || c == '\u{0B}' || c == '\u{0C}' || c == '\r' || c == ' '
        || c == '\u{85}' || c == '\u{A0}' || c == '\u{1680}' || ('\u{2000}' <= c
        && c <= '\u{200A}') || c == '\u{2028}' || c == '\u{2029}' || c == '\u{202F}'
        || c == '\u{205F}' || c == '\u{3000}'
}

fn is_ws_exec(c: char) -> (r: bool)
    ensures
        r == is_ws(c),
{
    c == '\t' || c == '\n' || c == '\u{0B}' || c == '\u{0C}' || c == '\r' || c == ' '
        || c == '\u{85}' || c == '\u{A0}' || c == '\u{1680}' || ('\u{2000}' <= c
        && c <= '\u{200A}') || c == '\u{2028}' || c == '\u{2029}' || c == '\u{202F}'
        || c == '\u{205F}' || c == '\u{3000}'
}

/// Whether a word (a maximal run of characters that are not white space) starts at `a`.
pub open spec fn is_word_start(s: Seq<char>, a: int) -> bool {
    0 <= a < s.len() && !is_ws(s[a]) && (a == 0 || is_ws(s[a - 1]))
}

/// The number of words that start before position `i`.
pub open spec fn starts_before(s: Seq<char>, i: int) -> nat
    decreases i,
{
    if i <= 0 {
        0
    } else {
        starts_before(s, i - 1) + if is_word_start(s, i - 1) {
            1nat
        } else {
            0nat
        }
    }
}

/// Whether the word that starts at `a` ends at `e`.
pub open spec fn word_ends_at(s: Seq<char>, a: int, e: int) -> bool {
    &&& a < e <= s.len()
    &&& forall|j: int| a <= j < e ==> !is_ws(#[trigger] s[j])
    &&& (e == s.len() || is_ws(s[e]))
}

/// The number of ASCII digits at the start of `s`.
pub open spec fn digit_run(s: Seq<char>) -> nat
    decreases s.len(),
{
    if s.len() > 0 && is_digit(s[0]) {
        1 + digit_run(s.drop_first())
    } else {
        0
    }
}

/// A parsed number, or zero when parsing failed.
pub open spec fn or_zero(o: Option<u32>) -> u32 {
    match o {
        Some(v) => v,
        None => 0,
    }
}

/// Whether a kernel release string (such as `5.15.0-91-generic`) names
/// version 5.1 or later: the text before its first dot is the major version,
/// the digits right after that dot the minor one (each zero if unreadable).
pub open spec fn release_supports_io_uring(w: Seq<char>) -> bool {
    exists|d: int|
        0 <= d < w.len() && #[trigger] w[d] == '.' && (forall|j: int| 0 <= j < d ==> w[j] != '.')
            && ({
            let major = or_zero(parse_u32(w.take(d)));
            let rest = w.skip(d + 1);
            let minor = or_zero(parse_digits(rest.take(digit_run(rest) as int)));
            major > 5 || (major == 5 && minor >= 1)
        })
}

/// Whether the text of `/proc/version` names a kernel that offers io_uring:
/// its third word is a release of version 5.1 or later.
pub open spec fn kernel_supports_io_uring(s: Seq<char>) -> bool {
    exists|a: int, e: int|
        #[trigger] is_word_start(s, a) && starts_before(s, a) == 2 && #[trigger] word_ends_at(
            s,
            a,
            e,
        ) && release_supports_io_uring(s.subrange(a, e))
}

proof fn lemma_starts_before_mono(s: Seq<char>, i: int, j: int)
    requires
        i <= j,
    ensures
        starts_before(s, i) <= starts_before(s, j),
        is_word_start(s, i) && i < j ==> starts_before(s, i) < starts_before(s, j),
    decreases j - i,
{
    if i < j {
        lemma_starts_before_mono(s, i, j - 1);
        if is_word_start(s, i) && i < j - 1 {
        }
    }
}

proof fn lemma_word_end_unique(s: Seq<char>, a: int, e1: int, e2: int)
    requires
        word_ends_at(s, a, e1),
        word_ends_at(s, a, e2),
    ensures
        e1 == e2,
{
    if e1 < e2 {
        assert(!is_ws(s[e1]));
    } else if e2 < e1 {
        assert(!is_ws(s[e2]));
    }
}

fn release_check(c: &Vec<char>, a: usize, e: usize) -> (r: bool)
    requires
        a < e <= c@.len(),
    ensures
        r == release_supports_io_uring(c@.subrange(a as int, e as int)),
{
    let ghost w = c@.subrange(a as int, e as int);
    let mut d = a;
    while d < e && c[d] != '.'
        invariant
            a <= d <= e,
            e <= c@.len(),
            w == c@.subrange(a as int, e as int),
            forall|j: int| 0 <= j < d - a ==> w[j] != '.',
        decreases e - d,
    {
        d = d + 1;
    }
    if d == e {
        assert(!release_supports_io_uring(w)) by {
            if release_supports_io_uring(w) {
                let k = choose|k: int|
                    0 <= k < w.len() && #[trigger] w[k] == '.' && (forall|j: int|
                        0 <= j < k ==> w[j] != '.') && ({
                        let major = or_zero(parse_u32(w.take(k)));
                        let rest = w.skip(k + 1);
                        let minor = or_zero(parse_digits(rest.take(digit_run(rest) as int)));
                        major > 5 || (major == 5 && minor >= 1)
                    });
                assert(w[k] != '.');
            }
        }
        return false;
    }
    let ghost dd = (d - a) as int;
    assert(w[dd] == '.');
    let major = match parse_u32_chars(c, a, d) {
        Some(v) => v,
        None => 0,
    };
    assert(c@.subrange(a as int, d as int) =~= w.take(dd));
    let ghost rest = w.skip(dd + 1);
    let start = d + 1;
    let mut m = start;
    while m < e && '0' <= c[m] && c[m] <= '9'
        invariant
            start <= m <= e,
            e <= c@.len(),
            rest == c@.subrange(start as int, e as int),
            forall|j: int| 0 <= j < m - start ==> is_digit(#[trigger] rest[j]),
        decreases e - m,
    {
        m = m + 1;
    }
    proof {
        assert(rest =~= c@.subrange(start as int, e as int));
        lemma_digit_run(rest, (m - start) as int);
        assert(c@.subrange(start as int, m as int) =~= rest.take((m - start) as int));
        let ds = rest.take((m - start) as int);
        if ds.len() > 0 && ds[0] == '+' {
            assert(is_digit(rest[0]));
        }
    }
    let minor = match parse_u32_chars(c, start, m) {
        Some(v) => v,
        None => 0,
    };
    let r = major > 5 || (major == 5 && minor >= 1);
    proof {
        if r {
            assert(release_supports_io_uring(w)) by {
                assert(w[dd] == '.');
            }
        } else {
            assert(!release_supports_io_uring(w)) by {
                if release_supports_io_uring(w) {
                    let k = choose|k: int|
                        0 <= k < w.len() && #[trigger] w[k] == '.' && (forall|j: int|
                            0 <= j < k ==> w[j] != '.') && ({
                            let major = or_zero(parse_u32(w.take(k)));
                            let rest = w.skip(k + 1);
                            let minor = or_zero(parse_digits(rest.take(digit_run(rest) as int)));
                            major > 5 || (major == 5 && minor >= 1)
                        });
                    if k < dd {
                        assert(w[k] != '.');
                    } else if k > dd {
                        assert(w[dd] != '.');
                    }
                }
            }
        }
    }
    r
}

proof fn lemma_digit_run(s: Seq<char>, m: int)
    requires
        0 <= m <= s.len(),
        forall|j: int| 0 <= j < m ==> is_digit(#[trigger] s[j]),
        m == s.len() || !is_digit(s[m]),
    ensures
        digit_run(s) == m,
    decreases m,
{
    if m > 0 {
        lemma_digit_run(s.drop_first(), m - 1);
    }
}

/// Whether io_uring is available, judged from the text of `/proc/version`
/// (none if it could not be read).
pub fn check_availability(proc_version: Option<&str>) -> (r: bool)
    ensures
        r == match proc_version {
            Some(v) => kernel_supports_io_uring(v@),
            None => false,
        },
{
    let text = match proc_version {
        Some(v) => v,
        None => {
            return false;
        },
    };
    let c = chars_of(text);
    let n = c.len();
    let ghost s = c@;
    let mut i: usize = 0;
    let mut count: usize = 0;
    let mut found = false;
    while i < n
        invariant_except_break
            !found,
        invariant
            n == s.len(),
            s == c@,
            i <= n,
            count as nat == starts_before(s, i as int),
            count <= 2,
            forall|a: int| 0 <= a < i && #[trigger] is_word_start(s, a) ==> starts_before(s, a) != 2,
        ensures
            n == s.len(),
            s == c@,
            i <= n,
            found ==> i < n && is_word_start(s, i as int) && starts_before(s, i as int) == 2,
            !found ==> i == n,
            forall|a: int| 0 <= a < i && #[trigger] is_word_start(s, a) ==> starts_before(s, a) != 2,
        decreases n - i,
    {
        let start = !is_ws_exec(c[i]) && (i == 0 || is_ws_exec(c[i - 1]));
        assert(start == is_word_start(s, i as int));
        if start {
            if count == 2 {
                found = true;
                break;
            }
            count = count + 1;
        }
        i = i + 1;
    }
    if !found {
        assert(!kernel_supports_io_uring(s)) by {
            if kernel_supports_io_uring(s) {
                let (a, e) = choose|a: int, e: int|
                    #[trigger] is_word_start(s, a) && starts_before(s, a) == 2
                        && #[trigger] word_ends_at(s, a, e) && release_supports_io_uring(
                        s.subrange(a, e),
                    );
                assert(a < n);
            }
        }
        return false;
    }
    let a = i;
    let mut e = a;
    while e < n && !is_ws_exec(c[e])
        invariant
            a <= e <= n,
            is_word_start(s, a as int),
            n == s.len(),
            s == c@,
            forall|j: int| a <= j < e ==> !is_ws(#[trigger] s[j]),
        decreases n - e,
    {
        e = e + 1;
    }
    assert(e > a) by {
        assert(!is_ws(s[a as int]));
    }
    assert(word_ends_at(s, a as int, e as int));
    let r = release_check(&c, a, e);
    proof {
        if r {
            assert(kernel_supports_io_uring(s));
        } else {
            assert(!kernel_supports_io_uring(s)) by {
                if kernel_supports_io_uring(s) {
                    let (a2, e2) = choose|a2: int, e2: int|
                        #[trigger] is_word_start(s, a2) && starts_before(s, a2) == 2
                            && #[trigger] word_ends_at(s, a2, e2) && release_supports_io_uring(
                            s.subrange(a2, e2),
                        );
                    if a2 < a {
                        lemma_starts_before_mono(s, a2, a as int);
                    } else if a2 > a {
                        lemma_starts_before_mono(s, a as int, a2);
                    }
                    lemma_word_end_unique(s, a as int, e as int, e2);
                }
            }
        }
    }
    r
}

/// io_uring interface.
pub struct IoUring {
    config: IoUringConfig,
    pending: std::collections::VecDeque<IoRequest>,
    stats: IoUringStats,
    available: bool,
}

proof fn lemma_wrap_step(a: u64, s: int, x: int)
    requires
        0 <= s,
        0 <= x <= u64::MAX,
        a == ((s % 0x10000000000000000) as u64),
    ensures
        (if a + x > u64::MAX {
            (a + x - 0x10000000000000000) as u64
        } else {
            (a + x) as u64
        }) == wrap_add(s, x),
{
    assert(((s % 0x10000000000000000) + x) % 0x10000000000000000 == (s + x) % 0x10000000000000000)
        by (nonlinear_arith)
        requires
            0 <= s,
            0 <= x,
    ;
}

impl IoUring {
    /// The configuration.
    pub closed spec fn config_view(&self) -> IoUringConfig {
        self.config
    }

    /// The requests waiting to be flushed, oldest first.
    pub closed spec fn pending_view(&self) -> Seq<RequestView> {
        self.pending@.map_values(|r: IoRequest| r@)
    }

    /// The statistics.
    pub closed spec fn stats_view(&self) -> IoUringStats {
        self.stats
    }

    /// Whether the kernel offers io_uring.
    pub closed spec fn available_view(&self) -> bool {
        self.available
    }

    /// A ring with nothing pending and zero statistics. `proc_version` is the
    /// text of `/proc/version`, if it could be read; io_uring is taken to be
    /// available when that text names a kernel of version 5.1 or later.
    pub fn new(config: IoUringConfig, proc_version: Option<&str>) -> (r: Result<IoUring, Error>)
        ensures
            r matches Ok(u) && u.config_view() == config && u.pending_view().len() == 0
                && u.available_view() == (match proc_version {
                Some(v) => kernel_supports_io_uring(v@),
                None => false,
            }) && u.stats_view().submissions == 0 && u.stats_view().completions == 0
                && u.stats_view().bytes_read == 0 && u.stats_view().bytes_written == 0
                && u.stats_view().batched_submissions == 0 && u.stats_view().avg_batch_size == 0
                && u.stats_view().poll_wakeups == 0,
    {
        let available = check_availability(proc_version);
        let r = IoUring {
            config,
            pending: std::collections::VecDeque::new(),
            stats: IoUringStats::default(),
            available,
        };
        assert(r.pending_view() =~= Seq::<RequestView>::empty());
        Ok(r)
    }

    /// Whether io_uring is both requested and available.
    pub fn is_enabled(&self) -> (r: bool)
        ensures
            r == (self.config_view().enabled && self.available_view()),
    {
        self.config.enabled && self.available
    }

    fn push_request(&mut self, request: IoRequest)
        ensures
            final(self).pending_view() == old(self).pending_view().push(request@),
            final(self).stats_view().submissions == wrap_add(old(self).stats_view().submissions as int, 1),
            final(self).stats_view().completions == old(self).stats_view().completions,
            final(self).stats_view().bytes_read == old(self).stats_view().bytes_read,
            final(self).stats_view().bytes_written == old(self).stats_view().bytes_written,
            final(self).stats_view().batched_submissions == old(self).stats_view().batched_submissions,
            final(self).stats_view().avg_batch_size == old(self).stats_view().avg_batch_size,
            final(self).stats_view().poll_wakeups == old(self).stats_view().poll_wakeups,
            final(self).config_view() == old(self).config_view(),
            final(self).available_view() == old(self).available_view(),
    {
        let ghost rv = request@;
        self.pending.push_back(request);
        assert(self.pending_view() =~= old(self).pending_view().push(rv));
        proof {
            lemma_wrap_step(self.stats.submissions, self.stats.submissions as int, 1);
        }
        self.stats.submissions = self.stats.submissions.wrapping_add(1);
    }

    /// Queues a read of `len` bytes at `offset` of `fd`.
    pub fn submit_read(&mut self, fd: i32, offset: u64, len: usize, user_data: u64)
        ensures
            final(self).pending_view() == old(self).pending_view().push(
                RequestView {
                    op: IoOpType::Read,
                    fd,
                    offset,
                    buffer: Seq::new(len as nat, |i: int| 0u8),
                    user_data,
                },
            ),
            final(self).stats_view().submissions == wrap_add(old(self).stats_view().submissions as int, 1),
            final(self).stats_view().completions == old(self).stats_view().completions,
            final(self).stats_view().bytes_read == old(self).stats_view().bytes_read,
            final(self).stats_view().bytes_written == old(self).stats_view().bytes_written,
            final(self).stats_view().batched_submissions == old(self).stats_view().batched_submissions,
            final(self).stats_view().avg_batch_size == old(self).stats_view().avg_batch_size,
            final(self).stats_view().poll_wakeups == old(self).stats_view().poll_wakeups,
            final(self).config_view() == old(self).config_view(),
            final(self).available_view() == old(self).available_view(),
    {
        let mut buffer: Vec<u8> = Vec::new();
        let mut i: usize = 0;
        while i < len
            invariant
                i <= len,
                buffer@ == Seq::new(i as nat, |j: int| 0u8),
            decreases len - i,
        {
            buffer.push(0u8);
            i = i + 1;
            assert(buffer@ =~= Seq::new(i as nat, |j: int| 0u8));
        }
        self.push_request(IoRequest { op: IoOpType::Read, fd, offset, buffer, user_data });
    }

    /// Queues a write of `data` at `offset` of `fd`.
    pub fn submit_write(&mut self, fd: i32, offset: u64, data: Vec<u8>, user_data: u64)
        ensures
            final(self).pending_view() == old(self).pending_view().push(
                RequestView { op: IoOpType::Write, fd, offset, buffer: data@, user_data },
            ),
            final(self).stats_view().submissions == wrap_add(old(self).stats_view().submissions as int, 1),
            final(self).stats_view().completions == old(self).stats_view().completions,
            final(self).stats_view().bytes_read == old(self).stats_view().bytes_read,
            final(self).stats_view().bytes_written == old(self).stats_view().bytes_written,
            final(self).stats_view().batched_submissions == old(self).stats_view().batched_submissions,
            final(self).stats_view().avg_batch_size == old(self).stats_view().avg_batch_size,
            final(self).stats_view().poll_wakeups == old(self).stats_view().poll_wakeups,
            final(self).config_view() == old(self).config_view(),
            final(self).available_view() == old(self).available_view(),
    {
        self.push_request(IoRequest { op: IoOpType::Write, fd, offset, buffer: data, user_data });
    }

    /// Queues an fsync of `fd`.
    pub fn submit_fsync(&mut self, fd: i32, user_data: u64)
        ensures
            final(self).pending_view() == old(self).pending_view().push(
                RequestView {
                    op: IoOpType::Fsync,
                    fd,
                    offset: 0,
                    buffer: Seq::empty(),
                    user_data,
                },
            ),
            final(self).stats_view().submissions == wrap_add(old(self).stats_view().submissions as int, 1),
            final(self).stats_view().completions == old(self).stats_view().completions,
            final(self).stats_view().bytes_read == old(self).stats_view().bytes_read,
            final(self).stats_view().bytes_written == old(self).stats_view().bytes_written,
            final(self).stats_view().batched_submissions == old(self).stats_view().batched_submissions,
            final(self).stats_view().avg_batch_size == old(self).stats_view().avg_batch_size,
            final(self).stats_view().poll_wakeups == old(self).stats_view().poll_wakeups,
            final(self).config_view() == old(self).config_view(),
            final(self).available_view() == old(self).available_view(),
    {
        let buffer: Vec<u8> = Vec::new();
        assert(buffer@ =~= Seq::<u8>::empty());
        self.push_request(IoRequest { op: IoOpType::Fsync, fd, offset: 0, buffer, user_data });
    }

    /// Completes every pending request, oldest first, and records the batch.
    pub fn flush(&mut self) -> (r: Vec<IoResult>)
        ensures
            r@ == old(self).pending_view().map_values(|q: RequestView| completion_of(q)),
            final(self).pending_view().len() == 0,
            final(self).stats_view().completions == wrap_add(
                old(self).stats_view().completions as int,
                old(self).pending_view().len() as int,
            ),
            final(self).stats_view().bytes_read == wrap_add(
                old(self).stats_view().bytes_read as int,
                read_total(old(self).pending_view()) as int,
            ),
            final(self).stats_view().bytes_written == wrap_add(
                old(self).stats_view().bytes_written as int,
                write_total(old(self).pending_view()) as int,
            ),
            final(self).stats_view().batched_submissions == if old(self).pending_view().len() > 0 {
                wrap_add(old(self).stats_view().batched_submissions as int, 1)
            } else {
                old(self).stats_view().batched_submissions
            },
            final(self).stats_view().avg_batch_size == if old(self).pending_view().len() > 0 {
                old(self).pending_view().len() as u64
            } else {
                old(self).stats_view().avg_batch_size
            },
            final(self).stats_view().submissions == old(self).stats_view().submissions,
            final(self).config_view() == old(self).config_view(),
    {
        let results = self.flush_sync();
        let count = results.len() as u64;
        if count > 0 {
            proof {
                lemma_wrap_step(
                    self.stats.batched_submissions,
                    self.stats.batched_submissions as int,
                    1,
                );
            }
            self.stats.batched_submissions = self.stats.batched_submissions.wrapping_add(1);
            self.stats.avg_batch_size = count;
        }
        results
    }

    fn flush_sync(&mut self) -> (r: Vec<IoResult>)
        ensures
            r@ == old(self).pending_view().map_values(|q: RequestView| completion_of(q)),
            final(self).pending_view().len() == 0,
            final(self).stats_view().completions == wrap_add(
                old(self).stats_view().completions as int,
                old(self).pending_view().len() as int,
            ),
            final(self).stats_view().bytes_read == wrap_add(
                old(self).stats_view().bytes_read as int,
                read_total(old(self).pending_view()) as int,
            ),
            final(self).stats_view().bytes_written == wrap_add(
                old(self).stats_view().bytes_written as int,
                write_total(old(self).pending_view()) as int,
            ),
            final(self).stats_view().batched_submissions == old(self).stats_view().batched_submissions,
            final(self).stats_view().avg_batch_size == old(self).stats_view().avg_batch_size,
            final(self).stats_view().submissions == old(self).stats_view().submissions,
            final(self).config_view() == old(self).config_view(),
    {
        let ghost all = self.pending_view();
        let ghost c0 = self.stats.completions as int;
        let ghost r0 = self.stats.bytes_read as int;
        let ghost w0 = self.stats.bytes_written as int;
        let mut results: Vec<IoResult> = Vec::new();
        let ghost mut k: int = 0;
        proof {
            assert(all.take(0) =~= Seq::<RequestView>::empty());
            assert(all.skip(0) =~= all);
            assert(c0 % 0x10000000000000000 == c0);
            assert(r0 % 0x10000000000000000 == r0);
            assert(w0 % 0x10000000000000000 == w0);
        }
        while self.pending.len() > 0
            invariant
                0 <= k <= all.len(),
                self.pending_view() == all.skip(k),
                results@ == all.take(k).map_values(|q: RequestView| completion_of(q)),
                self.stats.completions == ((c0 + k) % 0x10000000000000000) as u64,
                self.stats.bytes_read == ((r0 + read_total(all.take(k))) % 0x10000000000000000) as u64,
                self.stats.bytes_written == ((w0 + write_total(all.take(k)))
                    % 0x10000000000000000) as u64,
                self.stats.batched_submissions == old(self).stats.batched_submissions,
                self.stats.avg_batch_size == old(self).stats.avg_batch_size,
                self.stats.submissions == old(self).stats.submissions,
                self.config == old(self).config,
                0 <= c0,
                0 <= r0,
                0 <= w0,
            decreases all.len() - k,
        {
            let ghost before = self.pending@;
            let ghost bv = self.pending_view();
            assert(bv == all.skip(k));
            assert(bv.len() > 0);
            let request = self.pending.pop_front().unwrap();
            proof {
                assert(bv[0] == all[k]);
                assert(bv[0] == before[0]@);
                assert(request@ == all[k]);
                assert forall|j: int| 0 <= j < self.pending_view().len() implies self.pending_view()[j]
                    == all.skip(k + 1)[j] by {
                    assert(self.pending@[j] == before[j + 1]);
                    assert(bv[j + 1] == before[j + 1]@);
                }
                assert(self.pending_view() =~= all.skip(k + 1));
            }
            let len = request.buffer.len();
            let result: i32 = match request.op {
                IoOpType::Read => {
                    proof {
                        lemma_wrap_step(self.stats.bytes_read, r0 + read_total(all.take(k)), len as int);
                    }
                    self.stats.bytes_read = self.stats.bytes_read.wrapping_add(len as u64);
                    len as i32
                },
                IoOpType::Write => {
                    proof {
                        lemma_wrap_step(
                            self.stats.bytes_written,
                            w0 + write_total(all.take(k)),
                            len as int,
                        );
                    }
                    self.stats.bytes_written = self.stats.bytes_written.wrapping_add(len as u64);
                    len as i32
                },
                IoOpType::Fsync => 0,
                IoOpType::Fdatasync => 0,
            };
            results.push(IoResult { user_data: request.user_data, result, op: request.op });
            proof {
                lemma_wrap_step(self.stats.completions, c0 + k, 1);
            }
            self.stats.completions = self.stats.completions.wrapping_add(1);
            proof {
                let t1 = all.take(k + 1);
                assert(t1.drop_last() =~= all.take(k));
                assert(t1.last() == all[k]);
                assert(results@ =~= t1.map_values(|q: RequestView| completion_of(q)));
                k = k + 1;
            }
        }
        proof {
            assert(all.skip(k).len() == 0);
            assert(all.take(k) =~= all);
        }
        results
    }

    /// The statistics.
    pub fn stats(&self) -> (r: &IoUringStats)
        ensures
            *r == self.stats_view(),
    {
        &self.stats
    }

    /// The number of requests waiting to be flushed.
    pub fn pending_count(&self) -> (r: usize)
        ensures
            r == self.pending_view().len(),
    {
        self.pending.len()
    }
}

/// The total number of bytes in a batch.
pub open spec fn batch_bytes(entries: Seq<(u64, Seq<u8>)>) -> nat
    decreases entries.len(),
{
    if entries.len() == 0 {
        0
    } else {
        batch_bytes(entries.drop_last()) + entries.last().1.len()
    }
}

/// The batch `entries` becomes after offering it the writes `adds` in
/// order, with at most `max_entries` writes and `max_bytes` bytes: a write is
/// taken if one more write and its bytes still fit, and refused otherwise.
pub open spec fn after_adds(
    entries: Seq<(u64, Seq<u8>)>,
    max_entries: usize,
    max_bytes: usize,
    adds: Seq<(u64, Seq<u8>)>,
) -> Seq<(u64, Seq<u8>)>
    decreases adds.len(),
{
    if adds.len() == 0 {
        entries
    } else {
        let prev = after_adds(entries, max_entries, max_bytes, adds.drop_last());
        let w = adds.last();
        if prev.len() < max_entries && batch_bytes(prev) + w.1.len() <= max_bytes {
            prev.push(w)
        } else {
            prev
        }
    }
}

/// A batch that starts within its bounds stays within them whatever writes
/// are offered to it: at most `max_entries` writes and `max_bytes` bytes.
/// The writes it takes are appended after those it held, in order.
pub proof fn lemma_adds_stay_bounded(
    entries: Seq<(u64, Seq<u8>)>,
    max_entries: usize,
    max_bytes: usize,
    adds: Seq<(u64, Seq<u8>)>,
)
    requires
        entries.len() <= max_entries,
        batch_bytes(entries) <= max_bytes,
    ensures
        after_adds(entries, max_entries, max_bytes, adds).len() <= max_entries,
        batch_bytes(after_adds(entries, max_entries, max_bytes, adds)) <= max_bytes,
        entries.len() <= after_adds(entries, max_entries, max_bytes, adds).len(),
        after_adds(entries, max_entries, max_bytes, adds).subrange(0, entries.len() as int)
            == entries,
    decreases adds.len(),
{
    if adds.len() > 0 {
        lemma_adds_stay_bounded(entries, max_entries, max_bytes, adds.drop_last());
        let prev = after_adds(entries, max_entries, max_bytes, adds.drop_last());
        let w = adds.last();
        if prev.len() < max_entries && batch_bytes(prev) + w.1.len() <= max_bytes {
            assert(prev.push(w).drop_last() =~= prev);
            assert(prev.push(w).subrange(0, entries.len() as int) =~= prev.subrange(
                0,
                entries.len() as int,
            ));
        }
    }
}

/// Collects writes into batches bounded in entries and bytes.
pub struct WriteBatcher {
    buffer: Vec<(u64, Vec<u8>)>,
    max_entries: usize,
    max_bytes: usize,
    current_bytes: usize,
}

impl WriteBatcher {
    /// The batched writes, oldest first, as (offset, data).
    pub closed spec fn entries_view(&self) -> Seq<(u64, Seq<u8>)> {
        self.buffer@.map_values(|e: (u64, Vec<u8>)| (e.0, e.1@))
    }

    /// The bound on the number of writes in a batch.
    pub closed spec fn max_entries_view(&self) -> usize {
        self.max_entries
    }

    /// The bound on the number of bytes in a batch.
    pub closed spec fn max_bytes_view(&self) -> usize {
        self.max_bytes
    }

    /// The byte count kept by the batcher is the sum of its writes' lengths,
    /// and stays within the byte bound.
    pub closed spec fn wf(&self) -> bool {
        &&& self.current_bytes == batch_bytes(self.entries_view())
        &&& self.current_bytes <= self.max_bytes
        &&& self.buffer@.len() <= self.max_entries
    }

    /// A well-formed batch is within its bounds: at most `max_entries_view`
    /// writes and `max_bytes_view` bytes.
    pub proof fn lemma_within_bounds(&self)
        requires
            self.wf(),
        ensures
            self.entries_view().len() <= self.max_entries_view(),
            self.bytes_view() <= self.max_bytes_view(),
    {
    }

    /// The number of bytes batched.
    pub open spec fn bytes_view(&self) -> nat {
        batch_bytes(self.entries_view())
    }

    /// An empty batcher with the given bounds.
    pub fn new(max_entries: usize, max_bytes: usize) -> (r: Self)
        ensures
            r.wf(),
            r.entries_view() == Seq::<(u64, Seq<u8>)>::empty(),
            r.max_entries_view() == max_entries,
            r.max_bytes_view() == max_bytes,
    {
        let r = WriteBatcher {
            buffer: Vec::with_capacity(max_entries),
            max_entries,
            max_bytes,
            current_bytes: 0,
        };
        assert(r.entries_view() =~= Seq::<(u64, Seq<u8>)>::empty());
        r
    }

    /// Adds a write if it fits both bounds; says whether it was added.
    pub fn add(&mut self, offset: u64, data: Vec<u8>) -> (r: bool)
        requires
            old(self).wf(),
        ensures
            final(self).wf(),
            r == (old(self).entries_view().len() < old(self).max_entries_view()
                && old(self).bytes_view() + data@.len() <= old(self).max_bytes_view()),
            r ==> final(self).entries_view() == old(self).entries_view().push((offset, data@)),
            !r ==> final(self).entries_view() == old(self).entries_view(),
            final(self).entries_view() == after_adds(
                old(self).entries_view(),
                old(self).max_entries_view(),
                old(self).max_bytes_view(),
                seq![(offset, data@)],
            ),
            final(self).max_entries_view() == old(self).max_entries_view(),
            final(self).max_bytes_view() == old(self).max_bytes_view(),
    {
        proof {
            let adds = seq![(offset, data@)];
            let e = self.entries_view();
            assert(adds.drop_last() =~= Seq::<(u64, Seq<u8>)>::empty());
            assert(adds.last() == (offset, data@));
            assert(after_adds(e, self.max_entries, self.max_bytes, adds.drop_last()) == e);
            assert(after_adds(e, self.max_entries, self.max_bytes, adds) == if e.len()
                < self.max_entries && batch_bytes(e) + data@.len() <= self.max_bytes {
                e.push((offset, data@))
            } else {
                e
            });
        }
        let data_len = data.len();
        if self.buffer.len() >= self.max_entries || data_len > self.max_bytes - self.current_bytes {
            return false;
        }
        let ghost dv = data@;
        self.buffer.push((offset, data));
        self.current_bytes = self.current_bytes + data_len;
        proof {
            let ev = self.entries_view();
            assert(ev =~= old(self).entries_view().push((offset, dv)));
            assert(ev.drop_last() =~= old(self).entries_view());
        }
        true
    }

    /// Whether the batch has reached either bound.
    pub fn is_full(&self) -> (r: bool)
        requires
            self.wf(),
        ensures
            r == (self.entries_view().len() >= self.max_entries_view() || self.bytes_view()
                >= self.max_bytes_view()),
    {
        self.buffer.len() >= self.max_entries || self.current_bytes >= self.max_bytes
    }

    /// Hands out the batched writes and empties the batcher.
    pub fn take(&mut self) -> (r: Vec<(u64, Vec<u8>)>)
        requires
            old(self).wf(),
        ensures
            final(self).wf(),
            r@.map_values(|e: (u64, Vec<u8>)| (e.0, e.1@)) == old(self).entries_view(),
            final(self).entries_view() == Seq::<(u64, Seq<u8>)>::empty(),
            final(self).max_entries_view() == old(self).max_entries_view(),
            final(self).max_bytes_view() == old(self).max_bytes_view(),
    {
        self.current_bytes = 0;
        let mut out: Vec<(u64, Vec<u8>)> = Vec::new();
        std::mem::swap(&mut out, &mut self.buffer);
        assert(self.entries_view() =~= Seq::<(u64, Seq<u8>)>::empty());
        out
    }

    /// The number of batched writes.
    pub fn len(&self) -> (r: usize)
        ensures
            r == self.entries_view().len(),
    {
        self.buffer.len()
    }

    /// Whether nothing is batched.
    pub fn is_empty(&self) -> (r: bool)
        ensures
            r == (self.entries_view().len() == 0),
    {
        self.buffer.len() == 0
    }
}

/// A copy of the statistics at one moment.
#[derive(Debug, Clone, Copy, PartialEq, Eq, Structural)]
pub struct IoUringStatsSnapshot {
    pub submissions: u64,
    pub completions: u64,
    pub bytes_read: u64,
    pub bytes_written: u64,
    pub batched_submissions: u64,
    pub avg_batch_size: u64,
    pub poll_wakeups: u64,
}

impl From<&IoUringStats> for IoUringStatsSnapshot {
    fn from(stats: &IoUringStats) -> (r: Self) {
        IoUringStatsSnapshot {
            submissions: stats.submissions,
            completions: stats.completions,
            bytes_read: stats.bytes_read,
            bytes_written: stats.bytes_written,
            batched_submissions: stats.batched_submissions,
            avg_batch_size: stats.avg_batch_size,
            poll_wakeups: stats.poll_wakeups,
        }
    }
}

impl vstd::std_specs::convert::FromSpecImpl<&IoUringStats> for IoUringStatsSnapshot {
    open spec fn obeys_from_spec() -> bool {
        true
    }

    open spec fn from_spec(stats: &IoUringStats) -> Self {
        IoUringStatsSnapshot {
            submissions: stats.submissions,
            completions: stats.completions,
            bytes_read: stats.bytes_read,
            bytes_written: stats.bytes_written,
            batched_submissions: stats.batched_submissions,
            avg_batch_size: stats.avg_batch_size,
            poll_wakeups: stats.poll_wakeups,
        }
    }
}

} // verus!
