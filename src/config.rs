//! The settings of a cache node and their checks.
use vstd::prelude::*;
use vstd::string::StringExecFns;

verus! {

/// The failures of a node's settings.
#[derive(Debug)]
pub enum ConfigError {
    InvalidConfig(String),
    MissingConfig(String),
}

impl ConfigError {
    /// A human-readable description of the error.
    pub fn message(&self) -> (r: String) {
        let (prefix, detail) = match self {
            ConfigError::InvalidConfig(m) => ("Invalid configuration: ", m.as_str()),
            ConfigError::MissingConfig(m) => ("Missing required configuration: ", m.as_str()),
        };
        let mut s = String::from_str(prefix);
        s.append(detail);
        s
    }
}

/// The settings of a cache node. `listen_addr` is `host:port` text.
#[derive(Debug)]
pub struct Config {
    pub listen_addr: String,
    pub aws_region: String,
    pub lru_size: usize,
    pub ttl_seconds: u64,
    pub router_addr: String,
    pub s3_bucket: String,
    pub log_level: String,
    pub metrics_port: u16,
}

impl Config {
    /// Checks the settings: the LRU size and the TTL must be positive (else
    /// `InvalidConfig`, in that order), then the router address must be given
    /// (else `MissingConfig`).
    pub fn validate(&self) -> (r: Result<(), ConfigError>)
        ensures
            r is Ok <==> (self.lru_size > 0 && self.ttl_seconds > 0 && self.router_addr@.len() > 0),
            (self.lru_size == 0 || self.ttl_seconds == 0) ==> r matches Err(ConfigError::InvalidConfig(_)),
            (self.lru_size > 0 && self.ttl_seconds > 0 && self.router_addr@.len() == 0) ==> r matches Err(
                ConfigError::MissingConfig(_),
            ),
    {
        if self.lru_size == 0 {
            return Err(ConfigError::InvalidConfig(String::from_str("LRU size must be greater than 0")));
        }
        if self.ttl_seconds == 0 {
            return Err(ConfigError::InvalidConfig(String::from_str("TTL must be greater than 0")));
        }
        if self.router_addr.as_str().is_empty() {
            return Err(ConfigError::MissingConfig(String::from_str("Router address is required")));
        }
        Ok(())
    }
}

impl Default for Config {
    /// The settings of a node on the local host: LRU of 100 entries, a TTL
    /// of 360 seconds, metrics on port 9090.
    fn default() -> (r: Self)
        ensures
            r.lru_size == 100,
            r.ttl_seconds == 360,
            r.metrics_port == 9090,
            r.router_addr@.len() > 0,
    {
        let router_addr = String::from_str("http://localhost:50052");
        proof {
            reveal_strlit("http://localhost:50052");
        }
        Config {
            listen_addr: String::from_str("[::1]:50051"),
            aws_region: String::from_str("us-east-1"),
            lru_size: 100,
            ttl_seconds: 360,
            router_addr,
            s3_bucket: String::from_str("milena-cache"),
            log_level: String::from_str("info"),
            metrics_port: 9090,
        }
    }
}

} // verus!
