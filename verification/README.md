# minikv

Building blocks of a distributed, multi-tenant key-value and object store,
with their behaviour stated as contracts and proved with Verus.

## Layout

- `src/` — the verified library:
  - `index.rs`, `snapshot.rs` — the volume index (blob locations with TTLs)
    and its binary snapshot format; reading a snapshot back gives the index
    again (an expiry of zero reads back as none), as long as no key or hash
    is longer than `u32::MAX` bytes.
  - `quota.rs` — per-tenant storage, object and request-rate limits.
  - `replication.rs` — vector clocks and cross-datacenter conflict resolution.
  - `cdc.rs` — change-data-capture events, filters and the in-memory sink.
  - `timeseries.rs` — the time-series engine: delta/raw point encoding,
    hourly buckets, queries, retention and downsampling.
  - `tiering.rs` — hot/warm/cold/archive tiering policies and access tracking.
  - `plugin.rs` — plugin metadata and the lifecycle registry.
  - `k8s_operator.rs` — the Kubernetes operator's resource generation and
    reconciliation state.
  - `io_uring.rs` — the I/O request queue, write batching and kernel checks.
  - `ops.rs`, `admin_ui.rs` — cluster operation reports and dashboard types.
  - `strmap.rs`, `chars.rs`, `codec.rs`, `text.rs`, `sorting.rs` — verified
    helpers (an insertion-ordered string map, string and byte utilities).
  - `clock.rs`, `ids.rs` — the clock and UUID sources, trusted.
- `tests/` — tests of the library.
- `app/` — the command-line tool and the asynchronous, networked and
  file-backed parts: sinks, plugin hosting, the admin router, snapshot files.
