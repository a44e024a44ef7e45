//! The store abstraction shared by the three tiers of a cache node, and the
//! stores that live in memory: the LRU tier and a plain map for tests.
use lru::LruCache;
use std::num::NonZeroUsize;
use vstd::prelude::*;
use vstd::string::StringExecFns;
use vstd::string::StringSliceAdditionalSpecFns;

use crate::keys::build_cache_key;
use crate::keys::cache_key;

verus! {

/// Whether two byte vectors hold the same bytes.
pub fn bytes_equal(a: &Vec<u8>, b: &Vec<u8>) -> (r: bool)
    ensures
        r == (a@ == b@),
{
    if a.len() != b.len() {
        return false;
    }
    let mut i: usize = 0;
    while i < a.len()
        invariant
            a@.len() == b@.len(),
            i <= a@.len(),
            forall|j: int| 0 <= j < i ==> a@[j] == b@[j],
        decreases a@.len() - i,
    {
        if a[i] != b[i] {
            return false;
        }
        i = i + 1;
    }
    assert(a@ =~= b@);
    true
}

/// A key as the client addressed it: opaque bytes.
#[derive(Clone, Debug)]
pub struct Key(pub Vec<u8>);

/// A value: opaque bytes.
#[derive(Clone, Debug)]
pub struct Value(pub Vec<u8>);

impl View for Key {
    type V = Seq<u8>;

    open spec fn view(&self) -> Seq<u8> {
        self.0@
    }
}

impl View for Value {
    type V = Seq<u8>;

    open spec fn view(&self) -> Seq<u8> {
        self.0@
    }
}

impl PartialEq for Key {
    fn eq(&self, other: &Key) -> (r: bool) {
        bytes_equal(&self.0, &other.0)
    }
}

impl vstd::std_specs::cmp::PartialEqSpecImpl for Key {
    open spec fn obeys_eq_spec() -> bool {
        true
    }

    open spec fn eq_spec(&self, other: &Key) -> bool {
        self@ == other@
    }
}

impl PartialEq for Value {
    fn eq(&self, other: &Value) -> (r: bool) {
        bytes_equal(&self.0, &other.0)
    }
}

impl vstd::std_specs::cmp::PartialEqSpecImpl for Value {
    open spec fn obeys_eq_spec() -> bool {
        true
    }

    open spec fn eq_spec(&self, other: &Value) -> bool {
        self@ == other@
    }
}


/// The failures of a cache node and of its stores.
#[derive(Debug)]
pub enum CacheError {
    StorageError(String),
    KeyNotFound(String),
    InvalidInput(String),
    RateLimitExceeded,
    ConnectionError(String),
    RouterError(String),
    InternalError(String),
}

impl CacheError {
    /// The human-readable description of the error.
    pub open spec fn describe(&self) -> Seq<char> {
        match self {
            CacheError::StorageError(m) => "Storage error: "@ + m@,
            CacheError::KeyNotFound(m) => "Key not found: "@ + m@,
            CacheError::InvalidInput(m) => "Invalid input: "@ + m@,
            CacheError::RateLimitExceeded => "Rate limit exceeded"@,
            CacheError::ConnectionError(m) => "Connection error: "@ + m@,
            CacheError::RouterError(m) => "Router error: "@ + m@,
            CacheError::InternalError(m) => "Internal error: "@ + m@,
        }
    }

    /// A human-readable description of the error.
    pub fn message(&self) -> (r: String)
        ensures
            r@ == self.describe(),
    {
        let (prefix, detail) = match self {
            CacheError::StorageError(m) => ("Storage error: ", m.as_str()),
            CacheError::KeyNotFound(m) => ("Key not found: ", m.as_str()),
            CacheError::InvalidInput(m) => ("Invalid input: ", m.as_str()),
            CacheError::RateLimitExceeded => ("Rate limit exceeded", ""),
            CacheError::ConnectionError(m) => ("Connection error: ", m.as_str()),
            CacheError::RouterError(m) => ("Router error: ", m.as_str()),
            CacheError::InternalError(m) => ("Internal error: ", m.as_str()),
        };
        proof {
            reveal_strlit("");
        }
        let mut s = String::from_str(prefix);
        s.append(detail);
        assert(s@ =~= self.describe());
        s
    }
}

/// The physical key of `(bucket, key)` in every tier: `H(bucket, key)`.
pub open spec fn slot(bucket: &str, key: Key) -> Seq<u8> {
    cache_key(bucket.spec_bytes(), key@)
}

/// The bytes of an optional value.
pub open spec fn opt_bytes(o: Option<Value>) -> Option<Seq<u8>> {
    match o {
        Some(v) => Some(v@),
        None => None,
    }
}

/// One tier of a cache node: a map from physical keys `H(bucket, key)` to
/// values. `get` reports "absent" apart from failure and changes no entry.
/// A write may make the store forget other entries (a cache evicts), but a
/// store never makes one up or changes one that it was not asked to write.
/// A store that `serves` answers every call without failing.
pub trait Store {
    /// The store's internal well-formedness.
    spec fn inv(&self) -> bool;

    /// What a `get` would find now, by physical key.
    spec fn contents(&self) -> Map<Seq<u8>, Seq<u8>>;

    /// Whether every call succeeds.
    spec fn serves(&self) -> bool;

    /// Reads the value stored for `(bucket, key)`, if any.
    fn get(&mut self, bucket: &str, key: &Key) -> (r: Result<Option<Value>, CacheError>)
        requires
            old(self).inv(),
        ensures
            final(self).inv(),
            final(self).serves() == old(self).serves(),
            old(self).serves() ==> r is Ok,
            r is Ok ==> opt_bytes(r->Ok_0) == old(self).contents().get(slot(bucket, *key)),
            final(self).contents() == old(self).contents(),
    ;

    /// Stores `value` for `(bucket, key)`, overwriting what was there.
    fn put(&mut self, bucket: &str, key: &Key, value: &Value) -> (r: Result<(), CacheError>)
        requires
            old(self).inv(),
        ensures
            final(self).inv(),
            final(self).serves() == old(self).serves(),
            old(self).serves() ==> r is Ok,
            r is Ok ==> final(self).contents().get(slot(bucket, *key)) == Some(value@),
            final(self).contents().remove(slot(bucket, *key)).submap_of(old(self).contents()),
    ;

    /// Removes what is stored for `(bucket, key)`; removing nothing is no error.
    fn delete(&mut self, bucket: &str, key: &Key) -> (r: Result<(), CacheError>)
        requires
            old(self).inv(),
        ensures
            final(self).inv(),
            final(self).serves() == old(self).serves(),
            old(self).serves() ==> r is Ok,
            r is Ok ==> !final(self).contents().contains_key(slot(bucket, *key)),
            final(self).contents().submap_of(old(self).contents()),
    ;
}

/// What a disk or remote tier answered to a read of one physical key.
#[derive(Debug)]
pub enum StoreRead {
    Found(Vec<u8>),
    Missing,
    Failed(String),
}

/// The result of a tier's read: the bytes when found, "absent" when the key
/// or object is missing, and a storage error with the cause otherwise.
pub fn read_result(reply: StoreRead) -> (r: Result<Option<Value>, CacheError>)
    ensures
        match reply {
            StoreRead::Found(b) => r is Ok && opt_bytes(r->Ok_0) == Some(b@),
            StoreRead::Missing => r is Ok && r->Ok_0 is None,
            StoreRead::Failed(m) => r matches Err(CacheError::StorageError(e)) && e@ == m@,
        },
{
    match reply {
        StoreRead::Found(b) => Ok(Some(Value(b))),
        StoreRead::Missing => Ok(None),
        StoreRead::Failed(m) => Err(CacheError::StorageError(m)),
    }
}

/// The first position of `k` among the keys of `s`, if it occurs.
pub open spec fn position_of(s: Seq<(Seq<u8>, Seq<u8>)>, k: Seq<u8>) -> Option<int> {
    if exists|i: int| 0 <= i < s.len() && s[i].0 == k {
        Some(choose|i: int| 0 <= i < s.len() && s[i].0 == k)
    } else {
        None
    }
}

/// No key occurs twice in `s`.
pub open spec fn unique_keys(s: Seq<(Seq<u8>, Seq<u8>)>) -> bool {
    forall|i: int, j: int| 0 <= i < s.len() && 0 <= j < s.len() && i != j ==> s[i].0 != s[j].0
}

/// The map that a sequence of key/value entries stands for.
pub open spec fn entries_map(s: Seq<(Seq<u8>, Seq<u8>)>) -> Map<Seq<u8>, Seq<u8>> {
    Map::new(|k: Seq<u8>| position_of(s, k) is Some, |k: Seq<u8>| s[position_of(s, k)->0].1)
}

/// The entries of an LRU cache, least recently used first.
pub uninterp spec fn lru_entries(c: LruCache<Vec<u8>, Vec<u8>>) -> Seq<(Seq<u8>, Seq<u8>)>;

/// The capacity that an LRU cache was made with.
pub uninterp spec fn lru_capacity(c: LruCache<Vec<u8>, Vec<u8>>) -> nat;

/// An LRU cache as the `lru` crate keeps it: no key twice, never over capacity.
pub open spec fn lru_sound(c: LruCache<Vec<u8>, Vec<u8>>) -> bool {
    unique_keys(lru_entries(c)) && lru_entries(c).len() <= lru_capacity(c)
}

#[verifier::external_type_specification]
#[verifier::external_body]
#[verifier::reject_recursive_types(K)]
#[verifier::reject_recursive_types(V)]
#[verifier::reject_recursive_types(S)]
pub struct ExLruCache<K, V, S>(LruCache<K, V, S>);

#[verifier::external_type_specification]
#[verifier::external_body]
pub struct ExLruHasher(lru::DefaultHasher);

/// Relies on `LruCache::new`: an empty cache that holds at most `cap` entries.
#[verifier::external_body]
fn lru_new(cap: usize) -> (r: LruCache<Vec<u8>, Vec<u8>>)
    requires
        cap > 0,
    ensures
        lru_entries(r) == Seq::<(Seq<u8>, Seq<u8>)>::empty(),
        lru_capacity(r) == cap,
{
    LruCache::new(NonZeroUsize::new(cap).unwrap())
}

/// Relies on `LruCache::get`: returns the value of `k` and makes it the most
/// recently used entry; a missing key changes nothing.
#[verifier::external_body]
fn lru_get(c: &mut LruCache<Vec<u8>, Vec<u8>>, k: &Vec<u8>) -> (r: Option<Vec<u8>>)
    ensures
        lru_capacity(*final(c)) == lru_capacity(*old(c)),
        lru_sound(*final(c)),
        match position_of(lru_entries(*old(c)), k@) {
            Some(i) => {
                &&& r is Some
                &&& r->0@ == lru_entries(*old(c))[i].1
                &&& lru_entries(*final(c)) == lru_entries(*old(c)).remove(i).push(
                    lru_entries(*old(c))[i],
                )
            },
            None => r is None && lru_entries(*final(c)) == lru_entries(*old(c)),
        },
{
    c.get(k).cloned()
}

/// Relies on `LruCache::put`: an existing key gets the new value and becomes
/// the most recently used; a new key is added as the most recently used,
/// after the least recently used entry is evicted when the cache is full.
#[verifier::external_body]
fn lru_put(c: &mut LruCache<Vec<u8>, Vec<u8>>, k: Vec<u8>, v: Vec<u8>)
    ensures
        lru_capacity(*final(c)) == lru_capacity(*old(c)),
        lru_sound(*final(c)),
        lru_entries(*final(c)) == match position_of(lru_entries(*old(c)), k@) {
            Some(i) => lru_entries(*old(c)).remove(i).push((k@, v@)),
            None => if lru_entries(*old(c)).len() == lru_capacity(*old(c)) {
                lru_entries(*old(c)).drop_first().push((k@, v@))
            } else {
                lru_entries(*old(c)).push((k@, v@))
            },
        },
{
    c.put(k, v);
}

/// Relies on `LruCache::pop_entry`: removes the entry of `k`, if any, and
/// leaves the order of the others as it was.
#[verifier::external_body]
fn lru_pop_entry(c: &mut LruCache<Vec<u8>, Vec<u8>>, k: &Vec<u8>)
    ensures
        lru_capacity(*final(c)) == lru_capacity(*old(c)),
        lru_sound(*final(c)),
        lru_entries(*final(c)) == match position_of(lru_entries(*old(c)), k@) {
            Some(i) => lru_entries(*old(c)).remove(i),
            None => lru_entries(*old(c)),
        },
{
    c.pop_entry(k);
}

/// Relies on `LruCache::len`: the number of entries.
#[verifier::external_body]
fn lru_len(c: &LruCache<Vec<u8>, Vec<u8>>) -> (r: usize)
    ensures
        r == lru_entries(*c).len(),
{
    c.len()
}


/// Every entry of `t` whose key is not `skip` is an entry of `s`.
pub open spec fn entries_from(t: Seq<(Seq<u8>, Seq<u8>)>, s: Seq<(Seq<u8>, Seq<u8>)>, skip: Option<Seq<u8>>) -> bool {
    forall|j: int|
        0 <= j < t.len() && Some(#[trigger] t[j].0) != skip ==> exists|i: int| 0 <= i < s.len() && s[i] == t[j]
}

/// The map of a sequence holds each key at the one position where it occurs.
proof fn lemma_entry_at(s: Seq<(Seq<u8>, Seq<u8>)>, i: int)
    requires
        unique_keys(s),
        0 <= i < s.len(),
    ensures
        entries_map(s).get(s[i].0) == Some(s[i].1),
{
    assert(position_of(s, s[i].0) is Some);
    let j = position_of(s, s[i].0)->0;
    assert(s[j].0 == s[i].0);
}

/// Entries taken over from `s` keep their values in the map of `t`.
proof fn lemma_entries_from(t: Seq<(Seq<u8>, Seq<u8>)>, s: Seq<(Seq<u8>, Seq<u8>)>, skip: Option<Seq<u8>>)
    requires
        unique_keys(s),
        unique_keys(t),
        entries_from(t, s, skip),
    ensures
        skip is None ==> entries_map(t).submap_of(entries_map(s)),
        skip is Some ==> entries_map(t).remove(skip->0).submap_of(entries_map(s)),
{
    assert forall|k: Seq<u8>|
        entries_map(t).contains_key(k) && Some(k) != skip implies entries_map(s).contains_key(k)
            && entries_map(t)[k] == entries_map(s)[k] by {
        let j = position_of(t, k)->0;
        assert(t[j].0 == k);
        let i = choose|i: int| 0 <= i < s.len() && s[i] == t[j];
        lemma_entry_at(s, i);
    }
    if skip is Some {
        assert forall|k: Seq<u8>| #[trigger]
            entries_map(t).remove(skip->0).dom().contains(k) implies entries_map(s).dom().contains(k)
            && entries_map(t).remove(skip->0)[k] == entries_map(s)[k] by {
            assert(entries_map(t).contains_key(k) && Some(k) != skip);
        }
    }
}

/// A key that occurs nowhere is absent from the map.
proof fn lemma_absent(s: Seq<(Seq<u8>, Seq<u8>)>, k: Seq<u8>)
    requires
        forall|i: int| 0 <= i < s.len() ==> s[i].0 != k,
    ensures
        !entries_map(s).contains_key(k),
{
}

/// The in-memory tier: an LRU cache of at most `N` entries, keyed by `H(bucket, key)`.
pub struct LRUStore {
    cache: LruCache<Vec<u8>, Vec<u8>>,
}

impl LRUStore {
    /// The entries, least recently used first.
    pub closed spec fn entries(&self) -> Seq<(Seq<u8>, Seq<u8>)> {
        lru_entries(self.cache)
    }

    /// The configured capacity `N`.
    pub closed spec fn capacity(&self) -> nat {
        lru_capacity(self.cache)
    }

    /// An empty store that holds at most `capacity` entries.
    pub fn new(capacity: u64) -> (r: Self)
        requires
            0 < capacity <= usize::MAX,
        ensures
            r.inv(),
            r.entries() == Seq::<(Seq<u8>, Seq<u8>)>::empty(),
            r.contents() == Map::<Seq<u8>, Seq<u8>>::empty(),
            r.capacity() == capacity,
    {
        let r = LRUStore { cache: lru_new(capacity as usize) };
        assert(r.contents() =~= Map::<Seq<u8>, Seq<u8>>::empty());
        r
    }

    /// The number of entries held.
    pub fn len(&self) -> (r: usize)
        ensures
            r == self.entries().len(),
    {
        lru_len(&self.cache)
    }
}

/// What the store serves is the map of its entries.
pub proof fn lemma_lru_contents(s: LRUStore)
    ensures
        s.contents() == entries_map(s.entries()),
{
}

/// The store never holds more entries than its capacity.
pub proof fn lemma_lru_bounded(s: LRUStore)
    requires
        s.inv(),
    ensures
        s.entries().len() <= s.capacity(),
        s.contents().len() <= s.capacity(),
{
    let e = s.entries();
    let m = s.contents();
    assert(m.dom().finite() && m.dom().len() <= e.len()) by {
        let ks = Set::new(|k: Seq<u8>| exists|i: int| 0 <= i < e.len() && e[i].0 == k);
        assert(ks =~= e.map_values(|p: (Seq<u8>, Seq<u8>)| p.0).to_set()) by {
            assert forall|k: Seq<u8>| ks.contains(k) implies e.map_values(|p: (Seq<u8>, Seq<u8>)| p.0).contains(k) by {
                let i = choose|i: int| 0 <= i < e.len() && e[i].0 == k;
                assert(e.map_values(|p: (Seq<u8>, Seq<u8>)| p.0)[i] == k);
            }
        }
        e.map_values(|p: (Seq<u8>, Seq<u8>)| p.0).lemma_cardinality_of_set();
        assert(m.dom() =~= ks);
    }
}

impl Store for LRUStore {
    closed spec fn inv(&self) -> bool {
        lru_sound(self.cache)
    }

    closed spec fn contents(&self) -> Map<Seq<u8>, Seq<u8>> {
        entries_map(lru_entries(self.cache))
    }

    closed spec fn serves(&self) -> bool {
        true
    }

    /// Finds the entry and makes it the most recently used; never fails.
    fn get(&mut self, bucket: &str, key: &Key) -> (r: Result<Option<Value>, CacheError>)
        ensures
            r is Ok,
            final(self).capacity() == old(self).capacity(),
            final(self).entries() == match position_of(old(self).entries(), slot(bucket, *key)) {
                Some(i) => old(self).entries().remove(i).push(old(self).entries()[i]),
                None => old(self).entries(),
            },
    {
        let h = build_cache_key(bucket.as_bytes(), key);
        let ghost s = lru_entries(self.cache);
        let found = lru_get(&mut self.cache, &h.0);
        proof {
            let t = lru_entries(self.cache);
            match position_of(s, h@) {
                Some(i) => {
                    lemma_entry_at(s, i);
                    assert(entries_from(t, s, None)) by {
                        assert forall|j: int| 0 <= j < t.len() implies exists|m: int|
                            0 <= m < s.len() && s[m] == #[trigger] t[j] by {
                            if j < i {
                                assert(s[j] == t[j]);
                            } else if j < t.len() - 1 {
                                assert(s[j + 1] == t[j]);
                            } else {
                                assert(s[i] == t[j]);
                            }
                        }
                    }
                    assert(entries_from(s, t, None)) by {
                        assert forall|j: int| 0 <= j < s.len() implies exists|m: int|
                            0 <= m < t.len() && t[m] == #[trigger] s[j] by {
                            if j < i {
                                assert(t[j] == s[j]);
                            } else if j > i {
                                assert(t[j - 1] == s[j]);
                            } else {
                                assert(t[t.len() - 1] == s[j]);
                            }
                        }
                    }
                    lemma_entries_from(t, s, None);
                    lemma_entries_from(s, t, None);
                    assert(entries_map(t) =~= entries_map(s));
                },
                None => {
                    lemma_absent(s, h@);
                },
            }
        }
        match found {
            Some(v) => Ok(Some(Value(v))),
            None => Ok(None),
        }
    }

    /// Inserts as the most recently used entry, evicting the least recently
    /// used one when the store is full; never fails.
    fn put(&mut self, bucket: &str, key: &Key, value: &Value) -> (r: Result<(), CacheError>)
        ensures
            r is Ok,
            final(self).capacity() == old(self).capacity(),
            final(self).entries() == match position_of(old(self).entries(), slot(bucket, *key)) {
                Some(i) => old(self).entries().remove(i).push((slot(bucket, *key), value@)),
                None => if old(self).entries().len() == old(self).capacity() {
                    old(self).entries().drop_first().push((slot(bucket, *key), value@))
                } else {
                    old(self).entries().push((slot(bucket, *key), value@))
                },
            },
    {
        let h = build_cache_key(bucket.as_bytes(), key);
        let ghost s = lru_entries(self.cache);
        lru_put(&mut self.cache, h.0, value.0.clone());
        proof {
            let t = lru_entries(self.cache);
            lemma_entry_at(t, t.len() - 1);
            assert(entries_from(t, s, Some(h@))) by {
                assert forall|j: int| 0 <= j < t.len() && Some(#[trigger] t[j].0) != Some(h@) implies exists|m: int|
                    0 <= m < s.len() && s[m] == t[j] by {
                    match position_of(s, h@) {
                        Some(i) => {
                            if j < i {
                                assert(s[j] == t[j]);
                            } else {
                                assert(s[j + 1] == t[j]);
                            }
                        },
                        None => {
                            if s.len() == lru_capacity(self.cache) {
                                assert(s[j + 1] == t[j]);
                            } else {
                                assert(s[j] == t[j]);
                            }
                        },
                    }
                }
            }
            lemma_entries_from(t, s, Some(h@));
        }
        Ok(())
    }

    /// Removes the entry, leaving the order of the others; never fails.
    fn delete(&mut self, bucket: &str, key: &Key) -> (r: Result<(), CacheError>)
        ensures
            r is Ok,
            final(self).capacity() == old(self).capacity(),
            final(self).entries() == match position_of(old(self).entries(), slot(bucket, *key)) {
                Some(i) => old(self).entries().remove(i),
                None => old(self).entries(),
            },
    {
        let h = build_cache_key(bucket.as_bytes(), key);
        let ghost s = lru_entries(self.cache);
        lru_pop_entry(&mut self.cache, &h.0);
        proof {
            let t = lru_entries(self.cache);
            match position_of(s, h@) {
                Some(i) => {
                    assert(entries_from(t, s, None)) by {
                        assert forall|j: int| 0 <= j < t.len() implies exists|m: int|
                            0 <= m < s.len() && s[m] == #[trigger] t[j] by {
                            if j < i {
                                assert(s[j] == t[j]);
                            } else {
                                assert(s[j + 1] == t[j]);
                            }
                        }
                    }
                    assert forall|j: int| 0 <= j < t.len() implies t[j].0 != h@ by {
                        if j < i {
                            assert(s[j] == t[j]);
                        } else {
                            assert(s[j + 1] == t[j]);
                        }
                    }
                    lemma_absent(t, h@);
                },
                None => {
                    lemma_absent(s, h@);
                    assert(entries_from(t, s, None)) by {
                        assert forall|j: int| 0 <= j < t.len() implies exists|m: int|
                            0 <= m < s.len() && s[m] == #[trigger] t[j] by {
                            assert(s[j] == t[j]);
                        }
                    }
                },
            }
            lemma_entries_from(t, s, None);
        }
        Ok(())
    }
}

/// A store held in a plain list, for tests: it can be made to fail every call.
pub struct MockStore {
    map: Vec<(Vec<u8>, Vec<u8>)>,
    failing: bool,
}

impl MockStore {
    /// The entries, in the order in which they were written.
    pub closed spec fn entries(&self) -> Seq<(Seq<u8>, Seq<u8>)> {
        self.map@.map_values(|e: (Vec<u8>, Vec<u8>)| (e.0@, e.1@))
    }

    /// Whether every call fails.
    pub closed spec fn is_failing(&self) -> bool {
        self.failing
    }

    /// An empty store that serves every call.
    pub fn new() -> (r: Self)
        ensures
            r.inv(),
            r.contents() == Map::<Seq<u8>, Seq<u8>>::empty(),
            !r.is_failing(),
            r.serves(),
    {
        let r = Self { map: Vec::new(), failing: false };
        assert(r.contents() =~= Map::<Seq<u8>, Seq<u8>>::empty());
        r
    }

    /// An empty store whose every call fails with a storage error.
    pub fn failing() -> (r: Self)
        ensures
            r.inv(),
            r.contents() == Map::<Seq<u8>, Seq<u8>>::empty(),
            r.is_failing(),
            !r.serves(),
    {
        let r = Self { map: Vec::new(), failing: true };
        assert(r.contents() =~= Map::<Seq<u8>, Seq<u8>>::empty());
        r
    }

    /// The position of the entry with physical key `h`.
    fn find(&self, h: &Vec<u8>) -> (r: Option<usize>)
        ensures
            match r {
                Some(i) => i < self.entries().len() && self.entries()[i as int].0 == h@,
                None => forall|i: int| 0 <= i < self.entries().len() ==> self.entries()[i].0 != h@,
            },
    {
        let mut i: usize = 0;
        while i < self.map.len()
            invariant
                i <= self.map@.len(),
                forall|j: int| 0 <= j < i ==> self.entries()[j].0 != h@,
            decreases self.map@.len() - i,
        {
            if bytes_equal(&self.map[i].0, h) {
                return Some(i);
            }
            i = i + 1;
        }
        None
    }

    fn unavailable() -> CacheError {
        CacheError::StorageError(String::from_str("store unavailable"))
    }
}

impl Store for MockStore {
    closed spec fn inv(&self) -> bool {
        unique_keys(self.entries())
    }

    closed spec fn contents(&self) -> Map<Seq<u8>, Seq<u8>> {
        entries_map(self.entries())
    }

    closed spec fn serves(&self) -> bool {
        !self.failing
    }

    /// Fails exactly when the store is failing, and changes nothing.
    fn get(&mut self, bucket: &str, key: &Key) -> (r: Result<Option<Value>, CacheError>)
        ensures
            r is Ok <==> !old(self).is_failing(),
            *final(self) == *old(self),
    {
        if self.failing {
            return Err(Self::unavailable());
        }
        let h = build_cache_key(bucket.as_bytes(), key);
        match self.find(&h.0) {
            Some(i) => {
                proof {
                    lemma_entry_at(self.entries(), i as int);
                }
                Ok(Some(Value(self.map[i].1.clone())))
            },
            None => {
                proof {
                    lemma_absent(self.entries(), h@);
                }
                Ok(None)
            },
        }
    }

    /// Fails exactly when the store is failing, and then changes nothing.
    fn put(&mut self, bucket: &str, key: &Key, value: &Value) -> (r: Result<(), CacheError>)
        ensures
            r is Ok <==> !old(self).is_failing(),
            final(self).is_failing() == old(self).is_failing(),
            r is Err ==> *final(self) == *old(self),
    {
        if self.failing {
            return Err(Self::unavailable());
        }
        let h = build_cache_key(bucket.as_bytes(), key);
        let ghost s = self.entries();
        let found = self.find(&h.0);
        match found {
            Some(i) => {
                self.map.remove(i);
            },
            None => {},
        }
        let ghost u = self.entries();
        proof {
            match found {
                Some(i) => {
                    assert(u =~= s.remove(i as int));
                },
                None => {
                    assert(u =~= s);
                },
            }
        }
        self.map.push((h.0, value.0.clone()));
        proof {
            let t = self.entries();
            assert(t =~= u.push((h@, value@)));
            assert forall|a: int, b: int| 0 <= a < t.len() && 0 <= b < t.len() && a != b implies t[a].0 != t[b].0 by {
                match found {
                    Some(i) => {
                        if a < t.len() - 1 && b < t.len() - 1 {
                            let a2 = if a < i { a } else { a + 1 };
                            let b2 = if b < i { b } else { b + 1 };
                            assert(t[a] == s[a2] && t[b] == s[b2]);
                        } else if a < t.len() - 1 {
                            let a2 = if a < i { a } else { a + 1 };
                            assert(t[a] == s[a2] && a2 != i);
                        } else {
                            let b2 = if b < i { b } else { b + 1 };
                            assert(t[b] == s[b2] && b2 != i);
                        }
                    },
                    None => {
                        if a < t.len() - 1 && b < t.len() - 1 {
                            assert(t[a] == s[a] && t[b] == s[b]);
                        } else if a < t.len() - 1 {
                            assert(t[a] == s[a]);
                        } else {
                            assert(t[b] == s[b]);
                        }
                    },
                }
            }
            lemma_entry_at(t, t.len() - 1);
            assert(entries_from(t, s, Some(h@))) by {
                assert forall|j: int| 0 <= j < t.len() && Some(#[trigger] t[j].0) != Some(h@) implies exists|m: int|
                    0 <= m < s.len() && s[m] == t[j] by {
                    match found {
                        Some(i) => {
                            if j < i {
                                assert(s[j] == t[j]);
                            } else {
                                assert(s[j + 1] == t[j]);
                            }
                        },
                        None => {
                            assert(s[j] == t[j]);
                        },
                    }
                }
            }
            lemma_entries_from(t, s, Some(h@));
        }
        Ok(())
    }

    /// Fails exactly when the store is failing, and then changes nothing.
    fn delete(&mut self, bucket: &str, key: &Key) -> (r: Result<(), CacheError>)
        ensures
            r is Ok <==> !old(self).is_failing(),
            final(self).is_failing() == old(self).is_failing(),
            r is Err ==> *final(self) == *old(self),
    {
        if self.failing {
            return Err(Self::unavailable());
        }
        let h = build_cache_key(bucket.as_bytes(), key);
        let ghost s = self.entries();
        match self.find(&h.0) {
            Some(i) => {
                self.map.remove(i);
                proof {
                    let t = self.entries();
                    assert(t =~= s.remove(i as int));
                    assert(entries_from(t, s, None)) by {
                        assert forall|j: int| 0 <= j < t.len() implies exists|m: int|
                            0 <= m < s.len() && s[m] == #[trigger] t[j] by {
                            if j < i {
                                assert(s[j] == t[j]);
                            } else {
                                assert(s[j + 1] == t[j]);
                            }
                        }
                    }
                    assert forall|j: int| 0 <= j < t.len() implies t[j].0 != h@ by {
                        if j < i {
                            assert(s[j] == t[j]);
                        } else {
                            assert(s[j + 1] == t[j]);
                        }
                    }
                    lemma_absent(t, h@);
                    lemma_entries_from(t, s, None);
                }
            },
            None => {
                proof {
                    lemma_absent(s, h@);
                }
            },
        }
        Ok(())
    }
}

} // verus!
