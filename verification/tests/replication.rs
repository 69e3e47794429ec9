use minikv::replication::{
    ConflictResolution, RemoteDatacenter, ReplicationConfig, ReplicationEvent, ReplicationEventType,
    ReplicationManager, VectorClock,
};

#[test]
fn test_vector_clock_increment() {
    let mut vc = VectorClock::new();
    vc.increment(&"dc1".to_string());
    vc.increment(&"dc1".to_string());
    vc.increment(&"dc2".to_string());

    assert_eq!(vc.get(&"dc1".to_string()), 2);
    assert_eq!(vc.get(&"dc2".to_string()), 1);
    assert_eq!(vc.get(&"dc3".to_string()), 0);
}

#[test]
fn test_vector_clock_merge() {
    let mut vc1 = VectorClock::new();
    vc1.clocks.insert("dc1".to_string(), 3);
    vc1.clocks.insert("dc2".to_string(), 1);

    let mut vc2 = VectorClock::new();
    vc2.clocks.insert("dc1".to_string(), 2);
    vc2.clocks.insert("dc2".to_string(), 4);
    vc2.clocks.insert("dc3".to_string(), 1);

    vc1.merge(&vc2);

    assert_eq!(vc1.get(&"dc1".to_string()), 3);
    assert_eq!(vc1.get(&"dc2".to_string()), 4);
    assert_eq!(vc1.get(&"dc3".to_string()), 1);
}

#[test]
fn test_vector_clock_dominates() {
    let mut vc1 = VectorClock::new();
    vc1.clocks.insert("dc1".to_string(), 3);
    vc1.clocks.insert("dc2".to_string(), 2);

    let mut vc2 = VectorClock::new();
    vc2.clocks.insert("dc1".to_string(), 2);
    vc2.clocks.insert("dc2".to_string(), 1);

    assert!(vc1.dominates(&vc2));
    assert!(!vc2.dominates(&vc1));
}

#[test]
fn test_vector_clock_concurrent() {
    let mut vc1 = VectorClock::new();
    vc1.clocks.insert("dc1".to_string(), 3);
    vc1.clocks.insert("dc2".to_string(), 1);

    let mut vc2 = VectorClock::new();
    vc2.clocks.insert("dc1".to_string(), 2);
    vc2.clocks.insert("dc2".to_string(), 4);

    assert!(vc1.is_concurrent(&vc2));
    assert!(vc2.is_concurrent(&vc1));
}

fn clock(entries: &[(&str, u64)]) -> VectorClock {
    let mut vc = VectorClock::new();
    for (dc, t) in entries {
        vc.clocks.insert(dc.to_string(), *t);
    }
    vc
}

#[test]
fn replication_merge_is_commutative_on_example() {
    let a = clock(&[("dc1", 3), ("dc2", 1)]);
    let b = clock(&[("dc2", 5), ("dc3", 2)]);
    let mut ab = a.duplicate();
    ab.merge(&b);
    let mut ba = b.duplicate();
    ba.merge(&a);
    for dc in ["dc1", "dc2", "dc3", "dc4"] {
        assert_eq!(ab.get(&dc.to_string()), ba.get(&dc.to_string()));
    }
    assert_eq!(ab.get(&"dc2".to_string()), 5);
}

#[test]
fn replication_merge_twice_changes_nothing() {
    let mut a = clock(&[("dc1", 3)]);
    let b = clock(&[("dc1", 1), ("dc2", 7)]);
    a.merge(&b);
    let once = a.duplicate();
    a.merge(&b);
    for dc in ["dc1", "dc2"] {
        assert_eq!(a.get(&dc.to_string()), once.get(&dc.to_string()));
    }
}

#[test]
fn replication_clock_does_not_dominate_itself() {
    let a = clock(&[("dc1", 3)]);
    assert!(!a.dominates(&a));
    let empty = VectorClock::new();
    assert!(!empty.dominates(&empty));
    // Equal clocks dominate neither way, so they count as concurrent.
    assert!(empty.is_concurrent(&empty));
}

#[test]
fn replication_increment_dominates_previous() {
    let before = clock(&[("dc1", 3), ("dc2", 1)]);
    let mut after = before.duplicate();
    after.increment(&"dc2".to_string());
    assert!(after.dominates(&before));
    assert!(!before.dominates(&after));
}

fn event(dc: &str, ts: i64, vc: Option<VectorClock>) -> ReplicationEvent {
    ReplicationEvent {
        id: format!("ev-{}", ts),
        source_dc: dc.to_string(),
        event_type: ReplicationEventType::Put,
        key: "k".to_string(),
        value: Some(vec![1]),
        timestamp: ts,
        vector_clock: vc,
        tenant: None,
    }
}

fn manager(resolution: ConflictResolution) -> ReplicationManager {
    let mut config = ReplicationConfig::default();
    config.conflict_resolution = resolution;
    config.remote_dcs.push(RemoteDatacenter {
        id: "dc2".to_string(),
        name: "second".to_string(),
        endpoints: vec!["http://dc2:5000".to_string()],
        priority: 0,
        region: "eu".to_string(),
        read_only: false,
    });
    ReplicationManager::new(config)
}

#[test]
fn replication_last_write_wins() {
    let m = manager(ConflictResolution::LastWriteWins);
    let local = event("dc1", 100, None);
    let remote = event("dc2", 200, None);
    assert_eq!(m.resolve_conflict(&local, &remote).timestamp, 200);
    assert_eq!(m.resolve_conflict(&remote, &local).timestamp, 200);
    let tie = event("dc2", 100, None);
    assert_eq!(m.resolve_conflict(&local, &tie).source_dc, "dc1");
}

#[test]
fn replication_vector_clock_resolution() {
    let m = manager(ConflictResolution::VectorClock);
    let local = event("dc1", 100, Some(clock(&[("dc1", 2), ("dc2", 2)])));
    let remote = event("dc2", 500, Some(clock(&[("dc1", 1), ("dc2", 1)])));
    // The local clock dominates: local wins despite its older timestamp.
    assert_eq!(m.resolve_conflict(&local, &remote).source_dc, "dc1");
    // Concurrent clocks fall back to timestamps.
    let concurrent = event("dc2", 500, Some(clock(&[("dc1", 0), ("dc2", 9)])));
    assert_eq!(m.resolve_conflict(&local, &concurrent).source_dc, "dc2");
}

#[test]
fn replication_local_first_and_primary_first() {
    let local_first = manager(ConflictResolution::LocalFirst);
    let a = event("dc2", 1, None);
    let b = event("dc1", 2, None);
    assert_eq!(local_first.resolve_conflict(&a, &b).source_dc, "dc2");
    let primary_first = manager(ConflictResolution::PrimaryFirst);
    assert_eq!(primary_first.resolve_conflict(&a, &b).source_dc, "dc1");
    assert_eq!(primary_first.resolve_conflict(&b, &a).source_dc, "dc1");
}

#[test]
fn replication_status_starts_healthy() {
    let m = manager(ConflictResolution::LastWriteWins);
    let status = m.get_status();
    assert_eq!(status.len(), 1);
    assert_eq!(status[0].dc_id, "dc2");
    assert!(m.is_healthy());
    assert!(m.get_dc_status("dc9").is_none());
}

#[test]
fn replication_update_status_marks_unhealthy() {
    let mut m = manager(ConflictResolution::LastWriteWins);
    m.update_status("dc2", |mut s| {
        s.lag_secs = 120;
        s
    });
    assert!(!m.is_healthy());
    assert_eq!(m.get_dc_status("dc2").unwrap().lag_secs, 120);
}

#[test]
fn replication_clock_counts_unrecorded_datacenters_as_zero() {
    let a = clock(&[("dc1", 1)]);
    let empty = VectorClock::new();
    assert!(a.dominates(&empty));
    assert!(!empty.dominates(&a));
    assert!(!a.is_concurrent(&empty));
    let b = clock(&[("dc2", 1)]);
    assert!(!a.dominates(&b));
    assert!(!b.dominates(&a));
    assert!(a.is_concurrent(&b));
    let zero = clock(&[("dc3", 0)]);
    assert!(!zero.dominates(&empty));
}
