use milena::operation::{read_step, Operation, ReadStep, Tier};
use milena::service::RequestStats;
use milena::store::CacheError;
use milena::service::CacheService;
use milena::store::Key;
use milena::store::LRUStore;
use milena::store::MockStore;
use milena::store::Store;
use milena::store::Value;

fn mock_operation() -> Operation<MockStore, MockStore, MockStore> {
    Operation {
        in_memory_store: MockStore::new(),
        on_disk_store: MockStore::new(),
        cloud_store: MockStore::new(),
    }
}

#[test]
fn test_get() {
    let mut operation = mock_operation();
    let bucket = "bucket";
    let key = Key(vec![1, 2, 3]);
    let value = Value(vec![4, 5, 6]);

    assert!(operation.get(bucket, &key).unwrap().is_none());

    operation.put(bucket, &key, &value).unwrap();
    assert_eq!(operation.get(bucket, &key).unwrap(), Some(value.clone()));
}

#[test]
fn test_put() {
    let mut operation = mock_operation();
    let bucket = "bucket";
    let key = Key(vec![1, 2, 3]);
    let value = Value(vec![4, 5, 6]);

    operation.put(bucket, &key, &value).unwrap();
    assert_eq!(operation.get(bucket, &key).unwrap(), Some(value));
}

#[test]
fn test_delete() {
    let mut operation = mock_operation();
    let bucket = "bucket";
    let key = Key(vec![1, 2, 3]);
    let value = Value(vec![4, 5, 6]);

    operation.put(bucket, &key, &value).unwrap();
    operation.delete(bucket, &key).unwrap();
    assert!(operation.get(bucket, &key).unwrap().is_none());
}

#[test]
fn second_put_wins() {
    let mut operation = mock_operation();
    let key = Key(b"k".to_vec());
    operation.put("b", &key, &Value(b"v1".to_vec())).unwrap();
    operation.put("b", &key, &Value(b"v2".to_vec())).unwrap();
    assert_eq!(operation.get("b", &key).unwrap(), Some(Value(b"v2".to_vec())));
    assert_eq!(operation.in_memory_store.get("b", &key).unwrap(), Some(Value(b"v2".to_vec())));
    assert_eq!(operation.on_disk_store.get("b", &key).unwrap(), Some(Value(b"v2".to_vec())));
    assert_eq!(operation.cloud_store.get("b", &key).unwrap(), Some(Value(b"v2".to_vec())));
}

#[test]
fn put_then_delete_leaves_every_tier_empty() {
    let mut operation = mock_operation();
    let key = Key(b"k".to_vec());
    operation.put("b", &key, &Value(b"v".to_vec())).unwrap();
    operation.delete("b", &key).unwrap();
    assert_eq!(operation.in_memory_store.get("b", &key).unwrap(), None);
    assert_eq!(operation.on_disk_store.get("b", &key).unwrap(), None);
    assert_eq!(operation.cloud_store.get("b", &key).unwrap(), None);
}

#[test]
fn delete_of_missing_key_is_no_error() {
    let mut operation = mock_operation();
    assert!(operation.delete("b", &Key(b"nothing".to_vec())).is_ok());
}

#[test]
fn buckets_do_not_collide() {
    let mut operation = mock_operation();
    let key = Key(b"k".to_vec());
    operation.put("one", &key, &Value(b"1".to_vec())).unwrap();
    operation.put("two", &key, &Value(b"2".to_vec())).unwrap();
    assert_eq!(operation.get("one", &key).unwrap(), Some(Value(b"1".to_vec())));
    assert_eq!(operation.get("two", &key).unwrap(), Some(Value(b"2".to_vec())));
}

#[test]
fn disk_hit_is_promoted_and_remote_is_not_consulted() {
    let bucket = "bucket";
    let key = Key(b"key".to_vec());
    let value = Value(b"on disk".to_vec());
    let mut disk = MockStore::new();
    disk.put(bucket, &key, &value).unwrap();
    let mut operation = Operation {
        in_memory_store: MockStore::new(),
        on_disk_store: disk,
        cloud_store: MockStore::failing(),
    };
    assert_eq!(operation.get(bucket, &key).unwrap(), Some(value.clone()));
    assert_eq!(operation.in_memory_store.get(bucket, &key).unwrap(), Some(value.clone()));
    assert_eq!(operation.on_disk_store.get(bucket, &key).unwrap(), Some(value));
}

#[test]
fn remote_hit_is_promoted_to_memory_and_disk() {
    let key = Key(b"key".to_vec());
    let value = Value(b"remote".to_vec());
    let mut remote = MockStore::new();
    remote.put("b", &key, &value).unwrap();
    let mut operation = Operation {
        in_memory_store: MockStore::new(),
        on_disk_store: MockStore::new(),
        cloud_store: remote,
    };
    assert_eq!(operation.get("b", &key).unwrap(), Some(value.clone()));
    assert_eq!(operation.in_memory_store.get("b", &key).unwrap(), Some(value.clone()));
    assert_eq!(operation.on_disk_store.get("b", &key).unwrap(), Some(value));
}

#[test]
fn memory_hit_does_not_touch_lower_tiers() {
    let key = Key(b"key".to_vec());
    let value = Value(b"hot".to_vec());
    let mut memory = MockStore::new();
    memory.put("b", &key, &value).unwrap();
    let mut operation = Operation {
        in_memory_store: memory,
        on_disk_store: MockStore::failing(),
        cloud_store: MockStore::failing(),
    };
    assert_eq!(operation.get("b", &key).unwrap(), Some(value));
}

#[test]
fn failing_tier_ends_the_read() {
    let mut operation = Operation {
        in_memory_store: MockStore::new(),
        on_disk_store: MockStore::failing(),
        cloud_store: MockStore::new(),
    };
    assert!(operation.get("b", &Key(b"k".to_vec())).is_err());
}

#[test]
fn failing_remote_ends_the_write_before_lower_tiers() {
    let key = Key(b"k".to_vec());
    let mut operation = Operation {
        in_memory_store: MockStore::new(),
        on_disk_store: MockStore::new(),
        cloud_store: MockStore::failing(),
    };
    assert!(operation.put("b", &key, &Value(b"v".to_vec())).is_err());
    assert_eq!(operation.on_disk_store.get("b", &key).unwrap(), None);
    assert_eq!(operation.in_memory_store.get("b", &key).unwrap(), None);
}

#[test]
fn evicted_key_misses_when_lower_tiers_are_empty() {
    let b = "bucket";
    let k1 = Key(b"k1".to_vec());
    let k2 = Key(b"k2".to_vec());
    let k3 = Key(b"k3".to_vec());
    let operation = Operation {
        in_memory_store: LRUStore::new(2),
        on_disk_store: MockStore::new(),
        cloud_store: MockStore::new(),
    };
    let mut node = CacheService::new(operation);
    node.put(b, k1.0.clone(), b"v1".to_vec()).unwrap();
    node.put(b, k2.0.clone(), b"v2".to_vec()).unwrap();
    node.put(b, k3.0.clone(), b"v3".to_vec()).unwrap();
    node.operation.on_disk_store.delete(b, &k1).unwrap();
    node.operation.cloud_store.delete(b, &k1).unwrap();
    let misses = node.stats.misses;
    let resp = node.get(b, k1.0.clone()).unwrap();
    assert!(resp.successful);
    assert!(resp.value.is_empty());
    assert_eq!(node.stats.misses, misses + 1);
    assert_eq!(node.stats.hits, 0);
    assert_eq!(node.stats.requests, 4);
}

#[test]
fn service_counts_hits_and_errors() {
    let operation = Operation {
        in_memory_store: MockStore::new(),
        on_disk_store: MockStore::new(),
        cloud_store: MockStore::new(),
    };
    let mut node = CacheService::new(operation);
    node.put("b", b"k".to_vec(), b"v".to_vec()).unwrap();
    let resp = node.get("b", b"k".to_vec()).unwrap();
    assert!(resp.successful);
    assert_eq!(resp.value, b"v".to_vec());
    assert_eq!(node.stats.hits, 1);
    assert_eq!(node.stats.misses, 0);
    assert!(node.delete("b", b"k".to_vec()).unwrap().successful);
    assert_eq!(node.stats.requests, 3);
    assert_eq!(node.stats.errors, 0);
}

#[test]
fn service_failure_is_internal_and_counted() {
    let operation = Operation {
        in_memory_store: MockStore::new(),
        on_disk_store: MockStore::new(),
        cloud_store: MockStore::failing(),
    };
    let mut node = CacheService::new(operation);
    let status = node.put("b", b"k".to_vec(), b"v".to_vec()).unwrap_err();
    assert_eq!(status.code, milena::service::Code::Internal);
    assert!(status.message.starts_with("Storage error: "));
    assert_eq!(node.stats.errors, 1);
    let status = node.get("b", b"k".to_vec()).unwrap_err();
    assert_eq!(status.code, milena::service::Code::Internal);
    assert_eq!(node.stats.errors, 2);
}

#[test]
fn read_steps() {
    let v = Value(b"v".to_vec());
    assert!(matches!(read_step(Tier::Memory, Ok(Some(v.clone()))), ReadStep::Done(Ok(Some(_)))));
    assert!(matches!(read_step(Tier::Memory, Ok(None)), ReadStep::Next));
    assert!(matches!(read_step(Tier::Disk, Ok(Some(v.clone()))), ReadStep::Promote(x) if x == v));
    assert!(matches!(read_step(Tier::Disk, Ok(None)), ReadStep::Next));
    assert!(matches!(read_step(Tier::Remote, Ok(Some(v.clone()))), ReadStep::Promote(_)));
    assert!(matches!(read_step(Tier::Remote, Ok(None)), ReadStep::Done(Ok(None))));
    match read_step(Tier::Disk, Err(CacheError::StorageError("io".to_string()))) {
        ReadStep::Done(Err(CacheError::StorageError(m))) => assert_eq!(m, "io"),
        other => panic!("unexpected {other:?}"),
    }
}

#[test]
fn answers_count_outcomes() {
    let mut stats = RequestStats::new();
    let resp = stats.answer_get(Ok(Some(Value(b"v".to_vec())))).unwrap();
    assert_eq!(resp.value, b"v".to_vec());
    assert!(stats.answer_get(Ok(None)).unwrap().value.is_empty());
    let status = stats
        .answer_get(Err(CacheError::StorageError("disk full".to_string())))
        .unwrap_err();
    assert_eq!(status.message, "Storage error: disk full");
    assert!(stats.answer_write(Ok(())).is_ok());
    assert!(stats.answer_write(Err(CacheError::RateLimitExceeded)).is_err());
    assert_eq!((stats.hits, stats.misses, stats.errors, stats.requests), (1, 1, 2, 0));
}

#[test]
fn full_miss_writes_nothing() {
    let mut operation = mock_operation();
    let key = Key(vec![1, 2, 3]);
    assert_eq!(operation.get("bucket", &key).unwrap(), None);
    assert_eq!(operation.in_memory_store.get("bucket", &key).unwrap(), None);
    assert_eq!(operation.on_disk_store.get("bucket", &key).unwrap(), None);
    assert_eq!(operation.cloud_store.get("bucket", &key).unwrap(), None);
}

#[test]
fn failing_disk_keeps_the_remote_write() {
    let key = Key(b"k".to_vec());
    let mut operation = Operation {
        in_memory_store: MockStore::new(),
        on_disk_store: MockStore::failing(),
        cloud_store: MockStore::new(),
    };
    assert!(operation.put("b", &key, &Value(b"v".to_vec())).is_err());
    assert_eq!(operation.cloud_store.get("b", &key).unwrap(), Some(Value(b"v".to_vec())));
    assert_eq!(operation.in_memory_store.get("b", &key).unwrap(), None);
}
