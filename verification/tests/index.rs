use minikv::index::{BlobLocation, Index};
use minikv::snapshot::SnapshotError;

fn loc(shard: u64, offset: u64, size: u64, blake3: &str, expires_at: Option<u64>) -> BlobLocation {
    BlobLocation { shard, offset, size, blake3: blake3.to_string(), expires_at }
}

#[test]
fn test_index_basic() {
    let mut index = Index::new();

    index.insert(
        "key1".to_string(),
        BlobLocation {
            shard: 0,
            offset: 100,
            size: 1024,
            blake3: "abc123".to_string(),
            expires_at: None,
        },
    );

    assert_eq!(index.len(), 1);
    assert!(index.contains("key1"));

    let loc = index.get("key1").unwrap();
    assert_eq!(loc.shard, 0);
    assert_eq!(loc.offset, 100);
    assert_eq!(loc.size, 1024);

    index.remove("key1");
    assert_eq!(index.len(), 0);
}

#[test]
fn test_snapshot_roundtrip() {
    let mut index = Index::new();
    index.insert(
        "key1".to_string(),
        BlobLocation {
            shard: 0,
            offset: 100,
            size: 1024,
            blake3: "5e4a3c46b1c1a3e6e3f3bdbcc1b4a2bd9c5d4e6f708192a3b4c5d6e7f8091a2b".to_string(),
            expires_at: None,
        },
    );
    index.insert(
        "key2".to_string(),
        BlobLocation {
            shard: 1,
            offset: 200,
            size: 2048,
            blake3: "0f1e2d3c4b5a69788796a5b4c3d2e1f00f1e2d3c4b5a69788796a5b4c3d2e1f0".to_string(),
            expires_at: Some(9999999999999),
        },
    );

    let bytes = index.encode_snapshot();
    let loaded = Index::decode_snapshot(&bytes).unwrap();

    assert_eq!(loaded.len(), 2);
    assert!(loaded.contains("key1"));
    assert!(loaded.contains("key2"));

    let loc1 = loaded.get("key1").unwrap();
    assert_eq!(loc1.offset, 100);
    assert_eq!(loc1.expires_at, None);

    let loc2 = loaded.get("key2").unwrap();
    assert_eq!(loc2.expires_at, Some(9999999999999));
}

fn now_ms() -> u64 {
    std::time::SystemTime::now().duration_since(std::time::UNIX_EPOCH).unwrap().as_millis() as u64
}

#[test]
fn test_ttl_expiration() {
    let mut index = Index::new();

    let past_time = now_ms() - 1000;
    index.insert("expired_key".to_string(), loc(0, 0, 100, "test", Some(past_time)));

    let future_time = now_ms() + 60000;
    index.insert("valid_key".to_string(), loc(0, 100, 100, "test", Some(future_time)));

    index.insert("permanent_key".to_string(), loc(0, 200, 100, "test", None));

    assert!(index.is_expired("expired_key"));
    assert!(!index.is_expired("valid_key"));
    assert!(!index.is_expired("permanent_key"));

    assert!(index.get_if_valid("expired_key").is_none());
    assert!(index.get_if_valid("valid_key").is_some());
    assert!(index.get_if_valid("permanent_key").is_some());

    let removed = index.cleanup_expired();
    assert_eq!(removed, 1);
    assert_eq!(index.len(), 2);
    assert!(!index.contains("expired_key"));
    assert!(index.contains("valid_key"));
    assert!(index.contains("permanent_key"));
}

#[test]
fn test_keys_with_ttl() {
    let mut index = Index::new();

    index.insert(
        "key_with_ttl".to_string(),
        BlobLocation {
            shard: 0,
            offset: 0,
            size: 100,
            blake3: "test".to_string(),
            expires_at: Some(12345),
        },
    );

    index.insert(
        "key_without_ttl".to_string(),
        BlobLocation {
            shard: 0,
            offset: 100,
            size: 100,
            blake3: "test".to_string(),
            expires_at: None,
        },
    );

    let keys_with_ttl = index.keys_with_ttl();
    assert_eq!(keys_with_ttl.len(), 1);
    assert_eq!(keys_with_ttl[0].0, "key_with_ttl");
    assert_eq!(keys_with_ttl[0].1, 12345);
}

#[test]
fn index_expiry_is_strictly_after() {
    let mut index = Index::new();
    index.insert("k".to_string(), loc(0, 0, 1, "h", Some(1000)));
    assert!(!index.is_expired_at("k", 1000));
    assert!(index.is_expired_at("k", 1001));
    assert!(index.get_if_valid_at("k", 1000).is_some());
    assert!(index.get_if_valid_at("k", 1001).is_none());
    assert!(!index.is_expired_at("missing", 5));
}

#[test]
fn index_cleanup_at_removes_only_expired() {
    let mut index = Index::new();
    index.insert("a".to_string(), loc(0, 0, 1, "h", Some(10)));
    index.insert("b".to_string(), loc(0, 0, 1, "h", Some(30)));
    index.insert("c".to_string(), loc(0, 0, 1, "h", None));
    assert_eq!(index.cleanup_expired_at(20), 1);
    assert_eq!(index.len(), 2);
    assert!(!index.contains("a"));
    assert_eq!(index.cleanup_expired_at(20), 0);
}

#[test]
fn index_insert_replaces_location() {
    let mut index = Index::new();
    index.insert("k".to_string(), loc(0, 1, 1, "h", None));
    index.insert("k".to_string(), loc(2, 3, 4, "h2", None));
    assert_eq!(index.len(), 1);
    assert_eq!(index.get("k").unwrap().shard, 2);
    assert_eq!(index.get("k").unwrap().blake3, "h2");
    let removed = index.remove("k").unwrap();
    assert_eq!(removed.offset, 3);
    assert!(index.remove("k").is_none());
    assert!(index.is_empty());
}

#[test]
fn index_snapshot_errors() {
    assert_eq!(Index::decode_snapshot(b"MIN").err(), Some(SnapshotError::UnexpectedEof));
    assert_eq!(Index::decode_snapshot(b"XXXXXXXX\x00\x00\x00\x00\x00\x00\x00\x00").err(), Some(SnapshotError::InvalidMagic));
    // A key whose bytes are not UTF-8.
    let mut index = Index::new();
    index.insert("ab".to_string(), loc(0, 0, 0, "h", None));
    let mut bytes = index.encode_snapshot();
    // magic (8), entry count (8), key length (4), then the key.
    let key_at = 8 + 8 + 4;
    bytes[key_at] = 0xff;
    assert_eq!(Index::decode_snapshot(&bytes).err(), Some(SnapshotError::InvalidKeyUtf8));
}

#[test]
fn index_snapshot_roundtrip_keeps_every_field() {
    let mut index = Index::new();
    index.insert("x".to_string(), loc(7, 8, 9, "hash-x", Some(123)));
    index.insert("y".to_string(), loc(1, 2, 3, "hash-y", None));
    let loaded = Index::decode_snapshot(&index.encode_snapshot()).unwrap();
    let x = loaded.get("x").unwrap();
    assert_eq!((x.shard, x.offset, x.size, x.blake3.as_str(), x.expires_at), (7, 8, 9, "hash-x", Some(123)));
    let y = loaded.get("y").unwrap();
    assert_eq!((y.shard, y.offset, y.size, y.blake3.as_str(), y.expires_at), (1, 2, 3, "hash-y", None));
}

#[test]
fn index_snapshot_reads_zero_expiry_as_none() {
    let mut index = Index::new();
    index.insert("z".to_string(), loc(1, 2, 3, "h", Some(0)));
    index.insert("t".to_string(), loc(4, 5, 6, "h", Some(7)));
    let loaded = Index::decode_snapshot(&index.encode_snapshot()).unwrap();
    assert_eq!(loaded.len(), 2);
    assert_eq!(loaded.get("z").unwrap().expires_at, None);
    assert_eq!(loaded.get("t").unwrap().expires_at, Some(7));
    let keys: Vec<String> = loaded.keys().into_iter().cloned().collect();
    assert_eq!(keys, vec!["z".to_string(), "t".to_string()]);
}
