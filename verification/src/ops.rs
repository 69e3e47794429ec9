//! Cluster-wide operations: compaction, repair, verification and streaming.
//!
//! The reports these operations give, and where a blob lives on disk; the
//! network and disk work around them happens elsewhere.

use vstd::prelude::*;
use crate::error::Error;

verus! {

/// What a compaction did.
#[derive(Debug, Clone, Copy, PartialEq, Eq, Structural)]
pub struct CompactReport {
    pub volumes_compacted: usize,
    pub bytes_freed: u64,
}

/// What a repair did.
#[derive(Debug, Clone, Copy, PartialEq, Eq, Structural)]
pub struct RepairReport {
    pub keys_checked: usize,
    pub keys_repaired: usize,
    pub bytes_copied: u64,
}

/// What a verification found.
#[derive(Debug, Clone, Copy, PartialEq, Eq, Structural)]
pub struct VerifyReport {
    pub total_keys: usize,
    pub healthy: usize,
    pub under_replicated: usize,
    pub corrupted: usize,
    pub orphaned: usize,
}

/// Compacts the cluster (or one shard): reclaims the space of obsolete
/// blobs. The report is a fixed example: one volume, 1 GiB freed.
pub fn compact_cluster(coordinator_url: &str, shard: Option<u64>) -> (r: Result<
    CompactReport,
    Error,
>)
    ensures
        r == Ok::<CompactReport, Error>(
            CompactReport { volumes_compacted: 1, bytes_freed: 1073741824u64 },
        ),
{
    Ok(CompactReport { volumes_compacted: 1, bytes_freed: 1024 * 1024 * 1024 })
}

/// Repairs under-replicated keys. The report is a fixed example: 1000 keys
/// checked, 10 repaired, 10 MiB copied.
pub fn repair_cluster(coordinator_url: &str, replicas: usize, dry_run: bool) -> (r: Result<
    RepairReport,
    Error,
>)
    ensures
        r == Ok::<RepairReport, Error>(
            RepairReport { keys_checked: 1000, keys_repaired: 10, bytes_copied: 10485760u64 },
        ),
{
    Ok(RepairReport { keys_checked: 1000, keys_repaired: 10, bytes_copied: 10 * 1024 * 1024 })
}

/// Verifies the cluster's integrity (checksums too, if `deep`). The report
/// is a fixed example: 1000 keys, 980 healthy, 10 under-replicated, 5
/// corrupted, 5 orphaned.
pub fn verify_cluster(coordinator_url: &str, deep: bool, concurrency: usize) -> (r: Result<
    VerifyReport,
    Error,
>)
    ensures
        r == Ok::<VerifyReport, Error>(
            VerifyReport {
                total_keys: 1000,
                healthy: 980,
                under_replicated: 10,
                corrupted: 5,
                orphaned: 5,
            },
        ),
{
    Ok(
        VerifyReport {
            total_keys: 1000,
            healthy: 980,
            under_replicated: 10,
            corrupted: 5,
            orphaned: 5,
        },
    )
}

/// Prepares a seamless upgrade; nothing needs doing.
pub fn prepare_seamless_upgrade(coordinator_url: &str) -> (r: Result<(), Error>)
    ensures
        r is Ok,
{
    Ok(())
}

/// The file that holds blob `key` of volume `volume_id`:
/// `/data/volumes/<volume_id>/<key>.blob`.
pub fn blob_path(volume_id: &str, key: &str) -> (r: String)
    ensures
        r@ == "/data/volumes/"@ + volume_id@ + "/"@ + key@ + ".blob"@,
{
    let mut p = "/data/volumes/".to_owned();
    p.append(volume_id);
    p.append("/");
    p.append(key);
    p.append(".blob");
    p
}

/// The size of the chunks a blob is streamed in: 4 MiB.
pub fn stream_chunk_size() -> (r: usize)
    ensures
        r == 4 * 1024 * 1024,
{
    4 * 1024 * 1024
}

/// Whether a volume holding `total_bytes` is overloaded: more than 10 GiB.
pub fn is_overloaded(total_bytes: u64) -> (r: bool)
    ensures
        r == (total_bytes > 10 * 1024 * 1024 * 1024),
{
    total_bytes > 10 * 1024 * 1024 * 1024
}

} // verus!
