use milena::config::Config;
use milena::config::ConfigError;
use milena::connection::CacheClientManager;
use milena::connection::ConnectionError;
use milena::router::relay;
use milena::router::RouterError;
use milena::router::RouterServiceImpl;
use milena::service::Code;
use milena::validation::validate_address;
use milena::validation::validate_bucket_name;
use milena::validation::validate_key;
use milena::validation::validate_value;
use milena::validation::ValidationError;
use std::num::NonZeroU32;

fn test_keys() -> Vec<Vec<u8>> {
    (0..200u32).map(|i| format!("key-{i}").into_bytes()).collect()
}

#[test]
fn bucket_rules() {
    assert!(matches!(validate_bucket_name(""), Err(ValidationError::InvalidBucketName(_))));
    assert!(matches!(validate_bucket_name("my_bucket"), Err(ValidationError::InvalidBucketName(_))));
    assert!(matches!(
        validate_bucket_name(&"a".repeat(64)),
        Err(ValidationError::InvalidBucketName(_))
    ));
    assert!(validate_bucket_name(&"a".repeat(63)).is_ok());
    assert!(validate_bucket_name("my-bucket-01").is_ok());
    assert!(validate_bucket_name("café").is_ok());
    assert!(validate_bucket_name(&"é".repeat(63)).is_ok());
    assert!(validate_bucket_name(&"é".repeat(64)).is_err());
    assert!(validate_bucket_name("a b").is_err());
}

#[test]
fn key_rules() {
    assert!(matches!(validate_key(b""), Err(ValidationError::InvalidKey(_))));
    assert!(matches!(validate_key(&vec![7u8; 1025]), Err(ValidationError::InvalidKey(_))));
    assert!(validate_key(&vec![7u8; 1024]).is_ok());
    assert!(validate_key(b"k").is_ok());
}

#[test]
fn value_rules() {
    assert!(matches!(
        validate_value(&vec![0u8; 5 * 1024 * 1024 + 1]),
        Err(ValidationError::InvalidValue(_))
    ));
    assert!(validate_value(&vec![0u8; 5 * 1024 * 1024]).is_ok());
    assert!(validate_value(b"").is_ok());
}

#[test]
fn address_rules() {
    assert!(matches!(validate_address(""), Err(ValidationError::InvalidAddress(_))));
    assert!(matches!(validate_address("localhost:50051"), Err(ValidationError::InvalidAddress(_))));
    assert!(matches!(validate_address("ftp://host"), Err(ValidationError::InvalidAddress(_))));
    assert!(validate_address("http://[::1]:50051").is_ok());
    assert!(validate_address("https://cache.example").is_ok());
    let e = validate_address("host").unwrap_err();
    assert_eq!(e.message(), "Invalid address: Address must start with http:// or https://");
}

#[test]
fn empty_ring_has_no_owner() {
    let router: RouterServiceImpl<u32> = RouterServiceImpl::new();
    assert!(matches!(router.get_connection_for_key(b"k"), Err(RouterError::NodeNotFound(_))));
    let status = router.route(true, "bucket", b"k").unwrap_err();
    assert_eq!(status.code, Code::Internal);
}

#[test]
fn lookup_is_constant_while_membership_is() {
    let mut router = RouterServiceImpl::new();
    router.join_node("http://a".to_string(), 1u32).unwrap();
    router.join_node("http://b".to_string(), 2u32).unwrap();
    for key in test_keys() {
        let first = *router.get_connection_for_key(&key).unwrap();
        let second = *router.get_connection_for_key(&key).unwrap();
        assert_eq!(first, second);
        assert!(first == 1 || first == 2);
    }
}

#[test]
fn join_moves_keys_only_to_new_node() {
    let mut router = RouterServiceImpl::new();
    router.join_node("http://A".to_string(), 1u32).unwrap();
    router.join_node("http://B".to_string(), 2u32).unwrap();
    let before: Vec<u32> = test_keys()
        .iter()
        .map(|k| *router.get_connection_for_key(k).unwrap())
        .collect();
    router.join(true, "http://C".to_string(), 3u32).unwrap();
    let mut moved = 0;
    for (key, old_owner) in test_keys().iter().zip(before) {
        let new_owner = *router.get_connection_for_key(key).unwrap();
        if new_owner != old_owner {
            assert_eq!(new_owner, 3);
            moved += 1;
        }
    }
    assert!(moved > 0);
}

#[test]
fn leave_moves_only_the_leaving_nodes_keys() {
    let mut router = RouterServiceImpl::new();
    router.join_node("http://A".to_string(), 1u32).unwrap();
    router.join_node("http://B".to_string(), 2u32).unwrap();
    router.join_node("http://C".to_string(), 3u32).unwrap();
    let before: Vec<u32> = test_keys()
        .iter()
        .map(|k| *router.get_connection_for_key(k).unwrap())
        .collect();
    assert!(router.leave(true, "http://C".to_string()).unwrap().successful);
    for (key, old_owner) in test_keys().iter().zip(before) {
        let new_owner = *router.get_connection_for_key(key).unwrap();
        assert_ne!(new_owner, 3);
        if new_owner != old_owner {
            assert_eq!(old_owner, 3);
        }
    }
    router.leave_node("http://A".to_string());
    router.leave_node("http://B".to_string());
    assert!(router.get_connection_for_key(b"k").is_err());
}

#[test]
fn rejoin_replaces_the_pool() {
    let mut router = RouterServiceImpl::new();
    router.join_node("http://A".to_string(), 1u32).unwrap();
    router.join_node("http://A".to_string(), 9u32).unwrap();
    assert_eq!(*router.get_connection_for_key(b"k").unwrap(), 9);
}

#[test]
fn join_rejects_bad_address() {
    let mut router: RouterServiceImpl<u32> = RouterServiceImpl::new();
    assert!(matches!(
        router.join_node("cache:50051".to_string(), 1),
        Err(RouterError::ValidationError(ValidationError::InvalidAddress(_)))
    ));
    let status = router.join(true, "".to_string(), 1).unwrap_err();
    assert_eq!(status.code, Code::InvalidArgument);
    let status = router.join(true, "[::1]:50051".to_string(), 1).unwrap_err();
    assert_eq!(status.code, Code::InvalidArgument);
    assert!(router.get_connection_for_key(b"k").is_err());
}

#[test]
fn oversized_put_is_invalid_and_not_forwarded() {
    let mut router = RouterServiceImpl::new();
    router.join_node("http://A".to_string(), 1u32).unwrap();
    let big = vec![0u8; 5 * 1024 * 1024 + 1];
    let status = router.route_put(true, "bucket", b"key", &big).unwrap_err();
    assert_eq!(status.code, Code::InvalidArgument);
    assert_eq!(*router.route_put(true, "bucket", b"key", b"v").unwrap(), 1);
}

#[test]
fn invalid_requests_are_rejected() {
    let mut router = RouterServiceImpl::new();
    router.join_node("http://A".to_string(), 1u32).unwrap();
    assert_eq!(router.route(true, "", b"k").unwrap_err().code, Code::InvalidArgument);
    assert_eq!(router.route(true, "a_b", b"k").unwrap_err().code, Code::InvalidArgument);
    assert_eq!(router.route(true, "b", b"").unwrap_err().code, Code::InvalidArgument);
    assert_eq!(
        router.route(true, "b", &vec![1u8; 1025]).unwrap_err().code,
        Code::InvalidArgument
    );
    assert_eq!(*router.route(true, "b", b"k").unwrap(), 1);
}

#[test]
fn refused_admission_is_resource_exhausted() {
    let mut router = RouterServiceImpl::new();
    router.join_node("http://A".to_string(), 1u32).unwrap();
    assert_eq!(router.route(false, "b", b"k").unwrap_err().code, Code::ResourceExhausted);
    assert_eq!(
        router.route_put(false, "b", b"k", b"v").unwrap_err().code,
        Code::ResourceExhausted
    );
    assert_eq!(
        router.join(false, "http://B".to_string(), 2).unwrap_err().code,
        Code::ResourceExhausted
    );
    assert_eq!(
        router.leave(false, "http://A".to_string()).unwrap_err().code,
        Code::ResourceExhausted
    );
    assert_eq!(*router.route(true, "b", b"k").unwrap(), 1);
}

#[test]
fn burst_over_the_limit_is_turned_away() {
    let limiter = governor::RateLimiter::direct(governor::Quota::per_second(
        NonZeroU32::new(100).unwrap(),
    ));
    let mut router = RouterServiceImpl::new();
    router.join_node("http://A".to_string(), 1u32).unwrap();
    let mut exhausted = 0;
    for _ in 0..101 {
        match router.route(limiter.check().is_ok(), "b", b"k") {
            Ok(pool) => assert_eq!(*pool, 1),
            Err(status) => {
                assert_eq!(status.code, Code::ResourceExhausted);
                exhausted += 1;
            }
        }
    }
    assert!(exhausted >= 1);
}

#[test]
fn relay_maps_failures_to_internal() {
    assert_eq!(relay::<u32>(Ok(5)).unwrap(), 5);
    let status = relay::<u32>(Err("transport down".to_string())).unwrap_err();
    assert_eq!(status.code, Code::Internal);
    assert_eq!(status.message, "transport down");
}

#[test]
fn config_checks() {
    let config = Config::default();
    assert!(config.validate().is_ok());
    assert_eq!(config.lru_size, 100);
    assert_eq!(config.ttl_seconds, 360);
    let zero_lru = Config { lru_size: 0, ..Config::default() };
    assert!(matches!(zero_lru.validate(), Err(ConfigError::InvalidConfig(_))));
    let zero_ttl = Config { ttl_seconds: 0, ..Config::default() };
    assert!(matches!(zero_ttl.validate(), Err(ConfigError::InvalidConfig(_))));
    let no_router = Config { router_addr: String::new(), ..Config::default() };
    assert!(matches!(no_router.validate(), Err(ConfigError::MissingConfig(_))));
}

#[test]
fn manager_keeps_its_endpoint() {
    let manager = CacheClientManager::new("http://A".to_string());
    assert_eq!(manager.endpoint(), "http://A");
    assert_eq!(
        ConnectionError::CreateError("refused".to_string()).message(),
        "Failed to create connection: refused"
    );
}
