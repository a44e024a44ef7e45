//! What the router knows of its pooled connections to one cache node.
use vstd::prelude::*;
use vstd::string::StringExecFns;

verus! {

/// The failures of a connection pool.
#[derive(Debug)]
pub enum ConnectionError {
    CreateError(String),
    RecycleError(String),
}

impl ConnectionError {
    /// A human-readable description of the error.
    pub fn message(&self) -> (r: String) {
        let (prefix, detail) = match self {
            ConnectionError::CreateError(m) => ("Failed to create connection: ", m.as_str()),
            ConnectionError::RecycleError(m) => ("Failed to recycle connection: ", m.as_str()),
        };
        let mut s = String::from_str(prefix);
        s.append(detail);
        s
    }
}

/// The most connections that a pool keeps to one node.
pub const POOL_MAX_SIZE: usize = 10;

/// Makes connections to one cache node, given by its endpoint address.
pub struct CacheClientManager {
    endpoint: String,
}

impl CacheClientManager {
    /// A manager for the node at `endpoint`.
    pub fn new(endpoint: String) -> (r: Self)
        ensures
            r.endpoint_view() == endpoint@,
    {
        Self { endpoint }
    }

    /// The endpoint, as a sequence of characters.
    pub closed spec fn endpoint_view(&self) -> Seq<char> {
        self.endpoint@
    }

    /// The address that new connections dial.
    pub fn endpoint(&self) -> (r: &str)
        ensures
            r@ == self.endpoint_view(),
    {
        self.endpoint.as_str()
    }
}

} // verus!
