//! The tiered cache of a cache node: memory over disk over the remote store.
//! Reads are served by the fastest tier that holds the entry and promote it
//! upward; writes and deletes go through every tier, remote first.
use vstd::prelude::*;

use crate::store::opt_bytes;
use crate::store::slot;
use crate::store::CacheError;
use crate::store::Key;
use crate::store::Store;
use crate::store::Value;

verus! {

/// A tier of a cache node, fastest first.
#[derive(Debug, Clone, Copy, PartialEq, Eq, Structural)]
pub enum Tier {
    Memory,
    Disk,
    Remote,
}

/// What the read path does with a tier's answer.
#[derive(Debug)]
pub enum ReadStep {
    /// The read ends with this result.
    Done(Result<Option<Value>, CacheError>),
    /// The next tier is asked.
    Next,
    /// The value is copied into the faster tiers and then returned.
    Promote(Value),
}

/// Decides the read path's next move on the answer of `tier`: an error ends
/// the read with that very error; a hit in memory is the result, a hit
/// below is promoted; a miss goes on to the next tier, and a miss at the
/// remote store ends the read with "absent".
pub fn read_step(tier: Tier, reply: Result<Option<Value>, CacheError>) -> (r: ReadStep)
    ensures
        match reply {
            Err(e) => r == ReadStep::Done(Err(e)),
            Ok(Some(v)) => if tier == Tier::Memory {
                r == ReadStep::Done(Ok(Some(v)))
            } else {
                r == ReadStep::Promote(v)
            },
            Ok(None) => if tier == Tier::Remote {
                r == ReadStep::Done(Ok(None))
            } else {
                r == ReadStep::Next
            },
        },
{
    match reply {
        Err(e) => ReadStep::Done(Err(e)),
        Ok(Some(v)) => match tier {
            Tier::Memory => ReadStep::Done(Ok(Some(v))),
            _ => ReadStep::Promote(v),
        },
        Ok(None) => match tier {
            Tier::Remote => ReadStep::Done(Ok(None)),
            _ => ReadStep::Next,
        },
    }
}

/// The three tiers of a cache node.
pub struct Operation<I, O, C> {
    pub in_memory_store: I,
    pub on_disk_store: O,
    pub cloud_store: C,
}

impl<I: Store, O: Store, C: Store> Operation<I, O, C> {
    /// Every tier is well formed.
    pub open spec fn inv(&self) -> bool {
        &&& self.in_memory_store.inv()
        &&& self.on_disk_store.inv()
        &&& self.cloud_store.inv()
    }

    /// What the read path finds for physical key `h` when no tier fails: the
    /// value of the fastest tier that holds it.
    pub open spec fn read(&self, h: Seq<u8>) -> Option<Seq<u8>> {
        if self.in_memory_store.contents().contains_key(h) {
            Some(self.in_memory_store.contents()[h])
        } else if self.on_disk_store.contents().contains_key(h) {
            Some(self.on_disk_store.contents()[h])
        } else {
            self.cloud_store.contents().get(h)
        }
    }

    /// Every tier holds `v` at `h`.
    pub open spec fn holds(&self, h: Seq<u8>, v: Seq<u8>) -> bool {
        &&& self.in_memory_store.contents().get(h) == Some(v)
        &&& self.on_disk_store.contents().get(h) == Some(v)
        &&& self.cloud_store.contents().get(h) == Some(v)
    }

    /// No tier holds anything at `h`.
    pub open spec fn lacks(&self, h: Seq<u8>) -> bool {
        &&& !self.in_memory_store.contents().contains_key(h)
        &&& !self.on_disk_store.contents().contains_key(h)
        &&& !self.cloud_store.contents().contains_key(h)
    }

    /// Puts the three tiers together.
    pub fn new(in_memory_store: I, on_disk_store: O, cloud_store: C) -> (r: Self)
        ensures
            r.in_memory_store == in_memory_store,
            r.on_disk_store == on_disk_store,
            r.cloud_store == cloud_store,
    {
        Operation { in_memory_store, on_disk_store, cloud_store }
    }

    /// Reads `(bucket, key)`: memory first; else disk, copying a hit into
    /// memory; else the remote store, copying a hit into memory and then disk.
    /// Each tier's answer is handled as `read_step` says: the first tier that
    /// fails ends the read with its error, and later tiers are not consulted.
    pub fn get(&mut self, bucket: &str, key: &Key) -> (r: Result<Option<Value>, CacheError>)
        requires
            old(self).inv(),
        ensures
            final(self).inv(),
            ({
                let h = slot(bucket, *key);
                let mem = old(self).in_memory_store.contents();
                let disk = old(self).on_disk_store.contents();
                let remote = old(self).cloud_store.contents();
                &&& old(self).in_memory_store.serves() && old(self).on_disk_store.serves()
                    && old(self).cloud_store.serves() ==> r is Ok
                &&& old(self).in_memory_store.serves() && mem.contains_key(h) ==> r is Ok
                &&& old(self).in_memory_store.serves() && old(self).on_disk_store.serves()
                    && disk.contains_key(h) ==> r is Ok
                &&& r is Ok ==> opt_bytes(r->Ok_0) == old(self).read(h)
                &&& final(self).cloud_store.contents() == remote
                &&& mem.contains_key(h) ==> {
                    &&& final(self).on_disk_store == old(self).on_disk_store
                    &&& final(self).cloud_store == old(self).cloud_store
                }
                &&& !mem.contains_key(h) && disk.contains_key(h) ==> {
                    &&& final(self).on_disk_store.contents() == disk
                    &&& final(self).cloud_store == old(self).cloud_store
                    &&& r is Ok ==> final(self).in_memory_store.contents().get(h) == Some(disk[h])
                }
                &&& !mem.contains_key(h) && !disk.contains_key(h) && remote.contains_key(h) ==> {
                    r is Ok ==> {
                        &&& final(self).in_memory_store.contents().get(h) == Some(remote[h])
                        &&& final(self).on_disk_store.contents().get(h) == Some(remote[h])
                    }
                }
                &&& !mem.contains_key(h) && !disk.contains_key(h) && !remote.contains_key(h) ==> {
                    &&& final(self).in_memory_store.contents() == mem
                    &&& final(self).on_disk_store.contents() == disk
                }
            }),
    {
        let reply = self.in_memory_store.get(bucket, key);
        match read_step(Tier::Memory, reply) {
            ReadStep::Done(r) => return r,
            _ => {},
        }
        let reply = self.on_disk_store.get(bucket, key);
        match read_step(Tier::Disk, reply) {
            ReadStep::Done(r) => return r,
            ReadStep::Promote(data) => {
                match self.in_memory_store.put(bucket, key, &data) {
                    Err(e) => return Err(e),
                    Ok(()) => {},
                }
                return Ok(Some(data));
            },
            ReadStep::Next => {},
        }
        let reply = self.cloud_store.get(bucket, key);
        match read_step(Tier::Remote, reply) {
            ReadStep::Done(r) => r,
            ReadStep::Promote(data) => {
                match self.in_memory_store.put(bucket, key, &data) {
                    Err(e) => return Err(e),
                    Ok(()) => {},
                }
                match self.on_disk_store.put(bucket, key, &data) {
                    Err(e) => return Err(e),
                    Ok(()) => {},
                }
                Ok(Some(data))
            },
            ReadStep::Next => Ok(None),
        }
    }

    /// Writes `(bucket, key) -> value` to the remote store, then disk, then
    /// memory. The first failure ends the write; earlier writes stay.
    pub fn put(&mut self, bucket: &str, key: &Key, value: &Value) -> (r: Result<(), CacheError>)
        requires
            old(self).inv(),
        ensures
            final(self).inv(),
            old(self).in_memory_store.serves() && old(self).on_disk_store.serves()
                && old(self).cloud_store.serves() ==> r is Ok,
            r is Ok ==> final(self).holds(slot(bucket, *key), value@),
            final(self).cloud_store.contents().get(slot(bucket, *key)) == Some(value@) || (
            final(self).on_disk_store == old(self).on_disk_store && final(self).in_memory_store
                == old(self).in_memory_store),
            final(self).on_disk_store.contents().get(slot(bucket, *key)) == Some(value@)
                || final(self).in_memory_store == old(self).in_memory_store,
    {
        match self.cloud_store.put(bucket, key, value) {
            Err(e) => return Err(e),
            Ok(()) => {},
        }
        match self.on_disk_store.put(bucket, key, value) {
            Err(e) => return Err(e),
            Ok(()) => {},
        }
        self.in_memory_store.put(bucket, key, value)
    }

    /// Deletes `(bucket, key)` from the remote store, then disk, then memory.
    /// The first failure ends the delete; a missing entry is no failure.
    pub fn delete(&mut self, bucket: &str, key: &Key) -> (r: Result<(), CacheError>)
        requires
            old(self).inv(),
        ensures
            final(self).inv(),
            old(self).in_memory_store.serves() && old(self).on_disk_store.serves()
                && old(self).cloud_store.serves() ==> r is Ok,
            r is Ok ==> final(self).lacks(slot(bucket, *key)),
            !final(self).cloud_store.contents().contains_key(slot(bucket, *key)) || (
            final(self).on_disk_store == old(self).on_disk_store && final(self).in_memory_store
                == old(self).in_memory_store),
            !final(self).on_disk_store.contents().contains_key(slot(bucket, *key))
                || final(self).in_memory_store == old(self).in_memory_store,
    {
        match self.cloud_store.delete(bucket, key) {
            Err(e) => return Err(e),
            Ok(()) => {},
        }
        match self.on_disk_store.delete(bucket, key) {
            Err(e) => return Err(e),
            Ok(()) => {},
        }
        self.in_memory_store.delete(bucket, key)
    }
}

/// After a successful `put(bucket, key, value)`, a successful
/// `get(bucket, key)` returns `value`.
pub proof fn lemma_get_after_put<I: Store, O: Store, C: Store>(
    op: Operation<I, O, C>,
    h: Seq<u8>,
    value: Seq<u8>,
)
    requires
        op.holds(h, value),
    ensures
        op.read(h) == Some(value),
{
}

/// The last successful put wins: whatever a tier held before, including an
/// earlier put of another value, once `put(bucket, key, v)` has succeeded
/// every tier holds `v` and a successful `get(bucket, key)` returns it, not
/// the earlier value.
pub proof fn lemma_last_put_wins<I: Store, O: Store, C: Store>(
    op: Operation<I, O, C>,
    h: Seq<u8>,
    earlier: Seq<u8>,
    last: Seq<u8>,
)
    requires
        op.holds(h, last),
        earlier != last,
    ensures
        op.read(h) == Some(last),
        op.read(h) != Some(earlier),
        !op.holds(h, earlier),
{
}

/// After a successful `delete(bucket, key)`, a successful `get(bucket, key)`
/// finds nothing, whatever was put before.
pub proof fn lemma_get_after_delete<I: Store, O: Store, C: Store>(op: Operation<I, O, C>, h: Seq<u8>)
    requires
        op.lacks(h),
    ensures
        op.read(h) is None,
{
}

} // verus!
