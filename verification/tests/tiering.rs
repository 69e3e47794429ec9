use minikv::tiering::{
    compress, decompress, CompressionAlgorithm, ItemMetadata, Tier, TierChange, TieringCondition,
    TieringConfig, TieringManager, TieringPolicy, TieringRule,
};

fn sample_config() -> TieringConfig {
    let mut config = TieringConfig::default();
    config.enabled = true;
    config.policies = vec![
        TieringPolicy {
            name: "hot-access".to_string(),
            prefix: None,
            priority: 10,
            enabled: true,
            rules: vec![TieringRule {
                condition: TieringCondition::AccessCount {
                    min_count: Some(100),
                    max_count: None,
                    window_secs: 3600,
                },
                target_tier: Tier::Hot,
            }],
        },
        TieringPolicy {
            name: "cold-age".to_string(),
            prefix: None,
            priority: 5,
            enabled: true,
            rules: vec![TieringRule {
                condition: TieringCondition::Age { min_age_secs: Some(86400 * 30), max_age_secs: None },
                target_tier: Tier::Cold,
            }],
        },
    ];
    config
}

#[test]
fn test_track_item() {
    let mut manager = TieringManager::new(sample_config());

    manager.track_item("key1", 1000, Tier::Hot);
    manager.track_item("key2", 2000, Tier::Warm);

    let stats = manager.get_stats();
    assert_eq!(stats.hot.item_count, 1);
    assert_eq!(stats.hot.size_bytes, 1000);
    assert_eq!(stats.warm.item_count, 1);
    assert_eq!(stats.warm.size_bytes, 2000);
}

#[test]
fn test_record_access() {
    let mut manager = TieringManager::new(sample_config());

    manager.track_item("key1", 1000, Tier::Hot);

    for _ in 0..10 {
        manager.record_access("key1");
    }

    let metadata = manager.get_metadata("key1").unwrap();
    assert_eq!(metadata.access_count, 10);
}

#[test]
fn test_tier_change() {
    let mut manager = TieringManager::new(sample_config());

    manager.track_item("key1", 1000, Tier::Hot);

    let change = TierChange {
        key: "key1".to_string(),
        from_tier: Tier::Hot,
        to_tier: Tier::Warm,
        reason: "Test".to_string(),
    };

    manager.apply_change(&change).unwrap();

    let metadata = manager.get_metadata("key1").unwrap();
    assert_eq!(metadata.tier, Tier::Warm);

    let stats = manager.get_stats();
    assert_eq!(stats.hot.item_count, 0);
    assert_eq!(stats.warm.item_count, 1);
    assert_eq!(stats.total_demotions, 1);
}

#[test]
fn test_hottest_items() {
    let mut manager = TieringManager::new(sample_config());

    manager.track_item("key1", 100, Tier::Hot);
    manager.track_item("key2", 100, Tier::Hot);
    manager.track_item("key3", 100, Tier::Hot);

    for _ in 0..50 {
        manager.record_access("key1");
    }
    for _ in 0..100 {
        manager.record_access("key2");
    }
    for _ in 0..10 {
        manager.record_access("key3");
    }

    let hottest = manager.hottest_items(2);
    assert_eq!(hottest.len(), 2);
    assert_eq!(hottest[0].key, "key2");
    assert_eq!(hottest[1].key, "key1");
}

#[test]
fn tiering_policies_by_priority() {
    let mut manager = TieringManager::new(sample_config());
    let day = 86_400_000_000_000i64;
    manager.track_item_at("old", 10, Tier::Hot, 0);
    for i in 0..100 {
        manager.record_access_at("old", 40 * day + i);
    }
    manager.track_item_at("fresh", 10, Tier::Cold, 40 * day);
    // "old" is hot by access (already hot: no change) and old by age: the
    // age policy asks to move it; "fresh" meets neither policy.
    let changes = manager.evaluate_policies_at(40 * day + 1000);
    assert_eq!(changes.len(), 1);
    assert_eq!(changes[0].key, "old");
    assert_eq!(changes[0].from_tier, Tier::Hot);
    assert_eq!(changes[0].to_tier, Tier::Cold);
    assert_eq!(changes[0].reason, "Policy: cold-age");

    manager.track_item_at("stale", 10, Tier::Hot, 0);
    let changes = manager.evaluate_policies_at(40 * day + 1000);
    assert_eq!(changes.len(), 2);
    assert_eq!(changes[1].key, "stale");
    assert_eq!(changes[1].to_tier, Tier::Cold);
    assert_eq!(manager.get_pending_changes().len(), 2);
}

#[test]
fn tiering_conditions_combine() {
    let day = 86_400_000_000_000i64;
    let mut item = ItemMetadata::new_at("k".to_string(), 500, Tier::Warm, 0);
    item.record_access_at(5 * day);
    assert_eq!(item.age_secs_at(day), 86_400);
    assert_eq!(item.since_last_access_secs_at(6 * day), 86_400);
    assert_eq!(item.since_last_access_secs_at(0), 0);
    assert_eq!(item.access_count_in_window_at(3600, 5 * day), 1);
    assert_eq!(item.access_count_in_window_at(3600, 6 * day), 0);
    let size = TieringCondition::Size { min_bytes: Some(100), max_bytes: Some(1000) };
    let young = TieringCondition::Age { min_age_secs: None, max_age_secs: Some(10) };
    let both = TieringCondition::And { conditions: vec![size.clone(), young.clone()] };
    let either = TieringCondition::Or { conditions: vec![size, young] };
    assert!(!minikv::tiering::evaluate_condition_at(&both, &item, day));
    assert!(minikv::tiering::evaluate_condition_at(&either, &item, day));
    assert!(minikv::tiering::evaluate_condition_at(&TieringCondition::And { conditions: vec![] }, &item, day));
    assert!(!minikv::tiering::evaluate_condition_at(&TieringCondition::Or { conditions: vec![] }, &item, day));
}

#[test]
fn tiering_history_is_bounded() {
    let mut item = ItemMetadata::new_at("k".to_string(), 1, Tier::Hot, 0);
    for t in 0..150 {
        item.record_access_at(t);
    }
    assert_eq!(item.access_count, 150);
    assert_eq!(item.access_history.len(), 100);
    assert_eq!(item.access_history[0], 50);
}

#[test]
fn tiering_missing_key_and_untrack() {
    let mut manager = TieringManager::new(TieringConfig::default());
    let change = TierChange { key: "nope".to_string(), from_tier: Tier::Hot, to_tier: Tier::Cold, reason: String::new() };
    match manager.apply_change(&change) {
        Err(minikv::Error::Internal(m)) => assert_eq!(m, "Key not found: nope"),
        other => panic!("unexpected {:?}", other),
    }
    assert_eq!(manager.record_access("nope"), None);
    manager.track_item_at("a", 70, Tier::Archive, 5);
    manager.track_item_at("b", 30, Tier::Archive, 9);
    assert_eq!(manager.items_in_tier(Tier::Archive).len(), 2);
    let coldest = manager.coldest_items(1);
    assert_eq!(coldest[0].key, "a");
    manager.untrack_item("a");
    assert_eq!(manager.get_stats().archive.item_count, 1);
    assert_eq!(manager.get_stats().archive.size_bytes, 30);
    assert_eq!(manager.get_tier("a"), None);
    assert_eq!(manager.get_tier("b"), Some(Tier::Archive));
}

#[test]
fn tiering_promotion_counts() {
    let mut manager = TieringManager::new(TieringConfig::default());
    manager.track_item_at("k", 64, Tier::Cold, 0);
    let up = TierChange { key: "k".to_string(), from_tier: Tier::Cold, to_tier: Tier::Hot, reason: String::new() };
    manager.apply_change(&up).unwrap();
    let stats = manager.get_stats();
    assert_eq!(stats.total_promotions, 1);
    assert_eq!(stats.bytes_moved, 64);
    assert_eq!(Tier::Hot.temperature(), 3);
    assert_eq!(Tier::Archive.temperature(), 0);
}

#[test]
fn tiering_codecs_keep_bytes() {
    for alg in [
        CompressionAlgorithm::Uncompressed,
        CompressionAlgorithm::Lz4,
        CompressionAlgorithm::Zstd,
        CompressionAlgorithm::Snappy,
        CompressionAlgorithm::Gzip,
    ] {
        let c = compress(b"payload", alg).unwrap();
        assert_eq!(decompress(&c, alg).unwrap(), b"payload".to_vec());
    }
}
