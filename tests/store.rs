use milena::keys::build_cache_key;
use milena::keys::calculate_hash;
use milena::store::Key;
use milena::store::LRUStore;
use milena::store::Store;
use milena::store::Value;
use milena::store::{read_result, CacheError, StoreRead};

#[test]
fn mod_test_build_cache() {
    let a = "topic".as_bytes().to_vec();
    let b = "some_key".as_bytes().to_vec();
    let result = build_cache_key(&a, &Key(b));

    assert_eq!(
        String::from_utf8_lossy(result.0.as_slice()),
        "254/cb9e520cda80413019ed2449e017137f"
    );
    let digest = format!("{:x}", md5::compute(b"254/some_keytopic"));
    assert_eq!(result.0, format!("254/{digest}").into_bytes());
}

#[test]
fn cache_key_is_deterministic() {
    let first = build_cache_key(b"bucket", &Key(b"key".to_vec()));
    let second = build_cache_key(b"bucket", &Key(b"key".to_vec()));
    assert_eq!(first, second);
    assert_eq!(calculate_hash(&b"key".to_vec()), calculate_hash(&b"key".to_vec()));
}

#[test]
fn cache_key_shape() {
    let h = build_cache_key(b"bucket", &Key(b"key".to_vec()));
    let text = String::from_utf8(h.0.clone()).unwrap();
    let (shard, digest) = text.split_once('/').unwrap();
    let n: u64 = shard.parse().unwrap();
    assert!((1..=256).contains(&n));
    assert_eq!(n, calculate_hash(&b"key".to_vec()) % 256 + 1);
    assert_eq!(digest.len(), 32);
    assert!(digest.chars().all(|c| c.is_ascii_digit() || ('a'..='f').contains(&c)));
    assert_ne!(h, build_cache_key(b"other", &Key(b"key".to_vec())));
}

#[test]
fn test_lru_store_methods() {
    let mut store = LRUStore::new(100);
    let bucket = "bucket";
    let key = Key("key".as_bytes().to_vec());
    let value = Value("value".as_bytes().to_vec());

    store.put(bucket, &key, &value).unwrap();
    assert_eq!(store.len(), 1);

    let result = store.get(bucket, &key).unwrap();
    assert_eq!(result.unwrap(), value.clone());

    store.delete(bucket, &key).unwrap();
    assert_eq!(store.len(), 0);
}

#[test]
fn lru_never_exceeds_capacity() {
    let mut store = LRUStore::new(3);
    for i in 0..10u8 {
        store.put("b", &Key(vec![i]), &Value(vec![i])).unwrap();
        assert!(store.len() <= 3);
        let _ = store.get("b", &Key(vec![i / 2])).unwrap();
        assert!(store.len() <= 3);
    }
    assert_eq!(store.len(), 3);
}

#[test]
fn lru_evicts_least_recently_used() {
    let mut store = LRUStore::new(2);
    let k1 = Key(b"k1".to_vec());
    let k2 = Key(b"k2".to_vec());
    let k3 = Key(b"k3".to_vec());
    store.put("b", &k1, &Value(b"v1".to_vec())).unwrap();
    store.put("b", &k2, &Value(b"v2".to_vec())).unwrap();
    assert_eq!(store.get("b", &k1).unwrap(), Some(Value(b"v1".to_vec())));
    store.put("b", &k3, &Value(b"v3".to_vec())).unwrap();
    assert_eq!(store.get("b", &k2).unwrap(), None);
    assert_eq!(store.get("b", &k1).unwrap(), Some(Value(b"v1".to_vec())));
    assert_eq!(store.get("b", &k3).unwrap(), Some(Value(b"v3".to_vec())));
}

#[test]
fn lru_overwrite_keeps_one_entry() {
    let mut store = LRUStore::new(2);
    let k = Key(b"k".to_vec());
    store.put("b", &k, &Value(b"a".to_vec())).unwrap();
    store.put("b", &k, &Value(b"b".to_vec())).unwrap();
    assert_eq!(store.len(), 1);
    assert_eq!(store.get("b", &k).unwrap(), Some(Value(b"b".to_vec())));
}

#[test]
fn lru_delete_of_missing_key_changes_nothing() {
    let mut store = LRUStore::new(2);
    store.put("b", &Key(b"k".to_vec()), &Value(b"v".to_vec())).unwrap();
    store.delete("b", &Key(b"other".to_vec())).unwrap();
    assert_eq!(store.len(), 1);
}

#[test]
fn tier_read_results() {
    assert_eq!(read_result(StoreRead::Found(b"v".to_vec())).unwrap(), Some(Value(b"v".to_vec())));
    assert_eq!(read_result(StoreRead::Missing).unwrap(), None);
    match read_result(StoreRead::Failed("disk corrupt".to_string())) {
        Err(CacheError::StorageError(m)) => assert_eq!(m, "disk corrupt"),
        other => panic!("unexpected {other:?}"),
    }
    assert_eq!(
        CacheError::StorageError("x".to_string()).message(),
        "Storage error: x"
    );
}
