use minikv::cdc::{
    webhook_backoff_ms, webhook_failure_message, webhook_should_retry, webhook_sink_name, CDCConfig,
    CDCEvent, CDCManager, CDCMetadata, CDCOperation, MemorySink,
};

fn event(id: &str, sequence: u64, key: &str, value: &[u8]) -> CDCEvent {
    CDCEvent {
        id: id.to_string(),
        sequence,
        timestamp: 0,
        operation: CDCOperation::Insert,
        key: key.to_string(),
        old_value: None,
        new_value: Some(value.to_vec()),
        tenant: None,
        metadata: CDCMetadata::default(),
    }
}

#[test]
fn test_memory_sink() {
    let mut sink = MemorySink::new(100);
    let e = event("test-1", 1, "test-key", b"test-value");
    sink.send(vec![e.clone()]).unwrap();
    let events = sink.get_events();
    assert_eq!(events.len(), 1);
    assert_eq!(events[0].key, "test-key");
}

#[test]
fn test_memory_sink_overflow() {
    let mut sink = MemorySink::new(2);
    for i in 0..5 {
        let e = event(&format!("test-{}", i), i, &format!("key-{}", i), b"value");
        sink.send(vec![e]).unwrap();
    }
    let events = sink.get_events();
    assert_eq!(events.len(), 2);
    assert_eq!(events[0].key, "key-3");
    assert_eq!(events[1].key, "key-4");
}

#[test]
fn cdc_memory_sink_zero_capacity_keeps_last() {
    let mut sink = MemorySink::new(0);
    sink.send(vec![event("a", 1, "k1", b"v"), event("b", 2, "k2", b"v")]).unwrap();
    let events = sink.get_events();
    assert_eq!(events.len(), 1);
    assert_eq!(events[0].key, "k2");
    sink.clear();
    assert!(sink.get_events().is_empty());
    assert_eq!(sink.name(), "memory");
}

#[test]
fn cdc_sequence_and_filters() {
    let mut config = CDCConfig::default();
    config.filter_operations = vec![CDCOperation::Insert, CDCOperation::Delete];
    config.filter_key_prefix = Some("user/".to_string());
    config.include_old_values = false;
    let mut manager = CDCManager::new(config);
    assert_eq!(manager.current_sequence(), 0);

    let e = manager
        .capture_insert_at("user/1", b"v".to_vec(), None, CDCMetadata::default(), "id-1".to_string(), 42)
        .unwrap();
    assert_eq!(e.sequence, 1);
    assert_eq!(e.timestamp, 42);
    assert_eq!(e.operation, CDCOperation::Insert);
    assert_eq!(e.new_value.as_deref(), Some(&b"v"[..]));

    // Filtered out by the key prefix, but the sequence still moves.
    assert!(manager
        .capture_insert_at("other/1", b"v".to_vec(), None, CDCMetadata::default(), "id-2".to_string(), 43)
        .is_none());
    assert_eq!(manager.current_sequence(), 2);

    // Updates are not among the filtered operations.
    assert!(manager
        .capture_update_at("user/1", Some(b"old".to_vec()), b"new".to_vec(), None, CDCMetadata::default(), "id-3".to_string(), 44)
        .is_none());

    let d = manager
        .capture_delete_at("user/1", Some(b"old".to_vec()), Some("t".to_string()), CDCMetadata::default(), "id-4".to_string(), 45)
        .unwrap();
    assert_eq!(d.sequence, 4);
    assert_eq!(d.old_value, None);
    assert_eq!(d.tenant.as_deref(), Some("t"));
}

#[test]
fn cdc_disabled_captures_nothing() {
    let mut config = CDCConfig::default();
    config.enabled = false;
    let mut manager = CDCManager::new(config);
    assert!(manager.capture_insert("k", vec![1], None, CDCMetadata::default()).is_none());
    assert_eq!(manager.current_sequence(), 0);
}

#[test]
fn cdc_fresh_ids_are_uuids() {
    let mut manager = CDCManager::new(CDCConfig::default());
    let e = manager.capture_update("k", Some(vec![0]), vec![1], None, CDCMetadata::default()).unwrap();
    assert_eq!(e.id.len(), 36);
    assert_eq!(e.id.chars().filter(|c| *c == '-').count(), 4);
    assert_eq!(e.old_value, Some(vec![0]));
    let f = manager.capture_delete("k", None, None, CDCMetadata::default()).unwrap();
    assert_ne!(e.id, f.id);
    assert!(f.timestamp > 0);
}

#[test]
fn cdc_webhook_policy() {
    assert_eq!(webhook_sink_name("http://hook"), "webhook:http://hook");
    assert!(webhook_should_retry(0, 3));
    assert!(!webhook_should_retry(3, 3));
    assert_eq!(webhook_backoff_ms(0), 100);
    assert_eq!(webhook_backoff_ms(2), 300);
    assert_eq!(
        webhook_failure_message(3, Some("HTTP error: 500".to_string())),
        "Webhook sink failed after 3 retries: HTTP error: 500"
    );
    assert_eq!(webhook_failure_message(0, None), "Webhook sink failed after 0 retries: ");
}
