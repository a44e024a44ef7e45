//! The request surface of a cache node: each wire request runs as one
//! composite operation on the tiered cache, and its outcome is counted.
use vstd::prelude::*;

use crate::operation::Operation;
use crate::store::slot;
use crate::store::Key;
use crate::store::Store;
use crate::store::CacheError;
use crate::store::Value;

verus! {

/// The status codes of a failed call.
#[derive(Debug, Clone, Copy, PartialEq, Eq, Structural)]
pub enum Code {
    InvalidArgument,
    ResourceExhausted,
    Internal,
}

/// A failed call: its code and a human-readable cause.
#[derive(Debug)]
pub struct Status {
    pub code: Code,
    pub message: String,
}

/// The answer to a `GET`; a miss is successful with an empty value.
#[derive(Debug)]
pub struct GetResponse {
    pub successful: bool,
    pub value: Vec<u8>,
}

/// The answer to a `PUT`.
#[derive(Debug)]
pub struct PutResponse {
    pub successful: bool,
}

/// The answer to a `DELETE`.
#[derive(Debug)]
pub struct DeleteResponse {
    pub successful: bool,
}

/// The counters of a cache node: requests, errors, and `GET` hits and misses.
#[derive(Debug, Clone, Copy, PartialEq, Eq, Structural)]
pub struct RequestStats {
    pub requests: u64,
    pub errors: u64,
    pub hits: u64,
    pub misses: u64,
}

/// A counter after one more event; it stays at its largest value.
pub open spec fn bumped(n: u64) -> u64 {
    if n < u64::MAX {
        (n + 1) as u64
    } else {
        n
    }
}

fn bump(n: u64) -> (r: u64)
    ensures
        r == bumped(n),
{
    if n < u64::MAX {
        n + 1
    } else {
        n
    }
}

impl RequestStats {
    /// All counters at zero.
    pub fn new() -> (r: Self)
        ensures
            r == (RequestStats { requests: 0, errors: 0, hits: 0, misses: 0 }),
    {
        RequestStats { requests: 0, errors: 0, hits: 0, misses: 0 }
    }

    /// Answers a `GET` from the read's result and counts it: a value is a
    /// hit, "absent" is a miss answered with an empty value, and an error is
    /// answered `Internal` with the error's description.
    pub fn answer_get(&mut self, result: Result<Option<Value>, CacheError>) -> (r: Result<GetResponse, Status>)
        ensures
            final(self).requests == old(self).requests,
            match result {
                Ok(Some(v)) => {
                    &&& r matches Ok(resp) && resp.successful && resp.value@ == v@
                    &&& *final(self) == (RequestStats { hits: bumped(old(self).hits), ..*old(self) })
                },
                Ok(None) => {
                    &&& r matches Ok(resp) && resp.successful && resp.value@.len() == 0
                    &&& *final(self) == (RequestStats { misses: bumped(old(self).misses), ..*old(self) })
                },
                Err(e) => {
                    &&& r matches Err(status) && status.code == Code::Internal && status.message@
                        == e.describe()
                    &&& *final(self) == (RequestStats { errors: bumped(old(self).errors), ..*old(self) })
                },
            },
    {
        match result {
            Err(e) => {
                self.errors = bump(self.errors);
                Err(Status { code: Code::Internal, message: e.message() })
            },
            Ok(Some(v)) => {
                self.hits = bump(self.hits);
                Ok(GetResponse { successful: true, value: v.0 })
            },
            Ok(None) => {
                self.misses = bump(self.misses);
                Ok(GetResponse { successful: true, value: Vec::new() })
            },
        }
    }

    /// Answers a `PUT` or `DELETE` from the write's result: success as it is,
    /// and an error as `Internal` with its description, counted.
    pub fn answer_write(&mut self, result: Result<(), CacheError>) -> (r: Result<(), Status>)
        ensures
            match result {
                Ok(()) => r is Ok && *final(self) == *old(self),
                Err(e) => {
                    &&& r matches Err(status) && status.code == Code::Internal && status.message@
                        == e.describe()
                    &&& *final(self) == (RequestStats { errors: bumped(old(self).errors), ..*old(self) })
                },
            },
    {
        match result {
            Err(e) => {
                self.errors = bump(self.errors);
                Err(Status { code: Code::Internal, message: e.message() })
            },
            Ok(()) => Ok(()),
        }
    }
}

/// A cache node: its tiered cache and its counters.
pub struct CacheService<I, O, C> {
    pub operation: Operation<I, O, C>,
    pub stats: RequestStats,
}

impl<I: Store, O: Store, C: Store> CacheService<I, O, C> {
    /// A node with fresh counters.
    pub fn new(operation: Operation<I, O, C>) -> (r: Self)
        ensures
            r.operation == operation,
            r.stats == (RequestStats { requests: 0, errors: 0, hits: 0, misses: 0 }),
    {
        CacheService { operation, stats: RequestStats::new() }
    }

    /// Serves a `GET`: a hit answers the value and counts a hit, a miss
    /// answers an empty value and counts a miss, a failure answers
    /// `Internal` and counts an error.
    pub fn get(&mut self, bucket: &str, key: Vec<u8>) -> (r: Result<GetResponse, Status>)
        requires
            old(self).operation.inv(),
        ensures
            final(self).operation.inv(),
            final(self).stats.requests == bumped(old(self).stats.requests),
            old(self).operation.in_memory_store.serves() && old(self).operation.on_disk_store.serves()
                && old(self).operation.cloud_store.serves() ==> r is Ok,
            r matches Err(status) ==> exists|e: CacheError| status.message@ == e.describe(),
            match r {
                Ok(resp) => {
                    &&& resp.successful
                    &&& resp.value@ == match old(self).operation.read(slot(bucket, Key(key))) {
                        Some(v) => v,
                        None => Seq::<u8>::empty(),
                    }
                    &&& old(self).operation.read(slot(bucket, Key(key))) is Some ==> {
                        &&& final(self).stats.hits == bumped(old(self).stats.hits)
                        &&& final(self).stats.misses == old(self).stats.misses
                    }
                    &&& old(self).operation.read(slot(bucket, Key(key))) is None ==> {
                        &&& final(self).stats.misses == bumped(old(self).stats.misses)
                        &&& final(self).stats.hits == old(self).stats.hits
                    }
                    &&& final(self).stats.errors == old(self).stats.errors
                },
                Err(status) => {
                    &&& status.code == Code::Internal
                    &&& final(self).stats.errors == bumped(old(self).stats.errors)
                    &&& final(self).stats.hits == old(self).stats.hits
                    &&& final(self).stats.misses == old(self).stats.misses
                },
            },
    {
        self.stats.requests = bump(self.stats.requests);
        let key = Key(key);
        let result = self.operation.get(bucket, &key);
        self.stats.answer_get(result)
    }

    /// Serves a `PUT`: success answers `successful`, a failure answers
    /// `Internal` and counts an error.
    pub fn put(&mut self, bucket: &str, key: Vec<u8>, value: Vec<u8>) -> (r: Result<PutResponse, Status>)
        requires
            old(self).operation.inv(),
        ensures
            final(self).operation.inv(),
            final(self).stats.requests == bumped(old(self).stats.requests),
            old(self).operation.in_memory_store.serves() && old(self).operation.on_disk_store.serves()
                && old(self).operation.cloud_store.serves() ==> r is Ok,
            r matches Err(status) ==> exists|e: CacheError| status.message@ == e.describe(),
            final(self).stats.hits == old(self).stats.hits,
            final(self).stats.misses == old(self).stats.misses,
            match r {
                Ok(resp) => {
                    &&& resp.successful
                    &&& final(self).operation.holds(slot(bucket, Key(key)), value@)
                    &&& final(self).stats.errors == old(self).stats.errors
                },
                Err(status) => {
                    &&& status.code == Code::Internal
                    &&& final(self).stats.errors == bumped(old(self).stats.errors)
                },
            },
    {
        self.stats.requests = bump(self.stats.requests);
        let key = Key(key);
        let value = Value(value);
        let result = self.operation.put(bucket, &key, &value);
        match self.stats.answer_write(result) {
            Err(status) => Err(status),
            Ok(()) => Ok(PutResponse { successful: true }),
        }
    }

    /// Serves a `DELETE`: success answers `successful`, a failure answers
    /// `Internal` and counts an error.
    pub fn delete(&mut self, bucket: &str, key: Vec<u8>) -> (r: Result<DeleteResponse, Status>)
        requires
            old(self).operation.inv(),
        ensures
            final(self).operation.inv(),
            final(self).stats.requests == bumped(old(self).stats.requests),
            old(self).operation.in_memory_store.serves() && old(self).operation.on_disk_store.serves()
                && old(self).operation.cloud_store.serves() ==> r is Ok,
            r matches Err(status) ==> exists|e: CacheError| status.message@ == e.describe(),
            final(self).stats.hits == old(self).stats.hits,
            final(self).stats.misses == old(self).stats.misses,
            match r {
                Ok(resp) => {
                    &&& resp.successful
                    &&& final(self).operation.lacks(slot(bucket, Key(key)))
                    &&& final(self).stats.errors == old(self).stats.errors
                },
                Err(status) => {
                    &&& status.code == Code::Internal
                    &&& final(self).stats.errors == bumped(old(self).stats.errors)
                },
            },
    {
        self.stats.requests = bump(self.stats.requests);
        let key = Key(key);
        let result = self.operation.delete(bucket, &key);
        match self.stats.answer_write(result) {
            Err(status) => Err(status),
            Ok(()) => Ok(DeleteResponse { successful: true }),
        }
    }
}

} // verus!
