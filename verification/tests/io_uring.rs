use minikv::io_uring::{
    check_availability, IoUring, IoUringConfig, IoUringStats, IoUringStatsSnapshot, WriteBatcher,
};

#[test]
fn test_io_uring_config() {
    let config = IoUringConfig::default();
    assert!(!config.enabled);
    assert_eq!(config.sq_depth, 256);
    assert_eq!(config.buffer_size, 64 * 1024);
}

#[test]
fn test_io_uring_creation() {
    let config = IoUringConfig::default();
    let uring = IoUring::new(config, None).unwrap();
    assert_eq!(uring.pending_count(), 0);
}

#[test]
fn test_write_batcher() {
    let mut batcher = WriteBatcher::new(10, 1024);

    assert!(batcher.add(0, vec![1, 2, 3]));
    assert!(batcher.add(100, vec![4, 5, 6]));
    assert_eq!(batcher.len(), 2);

    let batch = batcher.take();
    assert_eq!(batch.len(), 2);
    assert!(batcher.is_empty());
}

#[test]
fn test_write_batcher_full() {
    let mut batcher = WriteBatcher::new(2, 1024);

    assert!(batcher.add(0, vec![1]));
    assert!(batcher.add(1, vec![2]));
    assert!(batcher.is_full());
    assert!(!batcher.add(2, vec![3]));
}

#[test]
fn test_stats_snapshot() {
    let mut stats = IoUringStats::default();
    stats.submissions = 100;
    stats.completions = 95;
    stats.bytes_read = 1024 * 1024;

    let snapshot = IoUringStatsSnapshot::from(&stats);
    assert_eq!(snapshot.submissions, 100);
    assert_eq!(snapshot.completions, 95);
    assert_eq!(snapshot.bytes_read, 1024 * 1024);
}

#[test]
fn io_uring_kernel_versions() {
    assert!(check_availability(Some("Linux version 5.15.0-91-generic (buildd@lcy02)")));
    assert!(check_availability(Some("Linux version 5.1.0 #1 SMP")));
    assert!(!check_availability(Some("Linux version 5.0.21 #1 SMP")));
    assert!(!check_availability(Some("Linux version 4.19.0 #1 SMP")));
    assert!(check_availability(Some("Linux version 6.2.0 #1 SMP")));
    assert!(!check_availability(Some("no version here")));
    assert!(!check_availability(None));
}

#[test]
fn io_uring_flush_completes_every_request() {
    let mut config = IoUringConfig::default();
    config.enabled = true;
    let mut uring = IoUring::new(config, Some("Linux version 5.10.0 #1")).unwrap();
    assert!(uring.is_enabled());
    uring.submit_read(3, 0, 4096, 1);
    uring.submit_write(3, 4096, vec![1, 2, 3, 4], 2);
    uring.submit_fsync(3, 3);
    assert_eq!(uring.pending_count(), 3);
    let results = uring.flush();
    assert_eq!(results.len(), 3);
    assert_eq!(uring.pending_count(), 0);
    assert_eq!(results[0].user_data, 1);
    assert_eq!(results[1].user_data, 2);
    assert_eq!(results[2].user_data, 3);
    assert_eq!(uring.stats().completions, 3);
}

#[test]
fn io_uring_batcher_respects_byte_budget() {
    let mut batcher = WriteBatcher::new(10, 4);
    assert!(batcher.add(0, vec![1, 2, 3]));
    assert!(!batcher.add(3, vec![4, 5]));
    assert_eq!(batcher.len(), 1);
}
