//! The router: admission, validation and placement of each client request,
//! and the membership of cache nodes on the ring with a connection pool each.
use vstd::prelude::*;
use vstd::string::StringExecFns;

use crate::keys::md5_of;
use crate::ring::lemma_join_moves_keys_only_to_joiner;
use crate::ring::lemma_leave_moves_only_its_keys;
use crate::ring::owner_point;
use crate::ring::positions;
use crate::ring::ring_add;
use crate::ring::ring_get;
use crate::ring::ring_new;
use crate::ring::ring_points;
use crate::ring::ring_remove;
use crate::ring::ring_replicas;
use crate::ring::with_node;
use crate::ring::without_node;
use crate::ring::HashRing;
use crate::ring::ServerNode;
use crate::service::Code;
use crate::service::Status;
use crate::validation::address_ok;
use crate::validation::bucket_name_ok;
use crate::validation::key_ok;
use crate::validation::validate_address;
use crate::validation::validate_bucket_name;
use crate::validation::validate_key;
use crate::validation::validate_value;
use crate::validation::value_ok;
use crate::validation::ValidationError;

verus! {

/// The number of positions that each cache node takes on the ring.
pub const REPLICAS: usize = 2;

/// The refusal of the router's admission limiter.
#[derive(Debug)]
pub enum RateLimitError {
    RateLimitExceeded,
}

impl RateLimitError {
    /// A human-readable description of the error.
    pub fn message(&self) -> (r: String) {
        String::from_str("Rate limit exceeded")
    }
}

/// The failures of the router.
#[derive(Debug)]
pub enum RouterError {
    NodeNotFound(String),
    ConnectionError(String),
    InternalError(String),
    ValidationError(ValidationError),
    RateLimitError(RateLimitError),
}

impl RouterError {
    /// A human-readable description of the error.
    pub fn message(&self) -> (r: String) {
        match self {
            RouterError::NodeNotFound(m) => {
                let mut s = String::from_str("Node not found: ");
                s.append(m.as_str());
                s
            },
            RouterError::ConnectionError(m) => {
                let mut s = String::from_str("Connection error: ");
                s.append(m.as_str());
                s
            },
            RouterError::InternalError(m) => {
                let mut s = String::from_str("Internal error: ");
                s.append(m.as_str());
                s
            },
            RouterError::ValidationError(e) => {
                let mut s = String::from_str("Validation error: ");
                let m = e.message();
                s.append(m.as_str());
                s
            },
            RouterError::RateLimitError(e) => {
                let mut s = String::from_str("Rate limit error: ");
                let m = e.message();
                s.append(m.as_str());
                s
            },
        }
    }
}

/// The answer to a `JOIN`.
#[derive(Debug)]
pub struct JoinResponse {
    pub successful: bool,
}

/// The answer to a `LEAVE`.
#[derive(Debug)]
pub struct LeaveResponse {
    pub successful: bool,
}

/// The router's ring of cache nodes and a connection pool of type `P` for each.
pub struct RouterServiceImpl<P> {
    nodes: HashRing,
    node_conns: Vec<(String, P)>,
}

impl<P> RouterServiceImpl<P> {
    /// The addresses of the nodes that have a pool, in the order they joined.
    pub closed spec fn members(&self) -> Seq<Seq<char>> {
        self.node_conns@.map_values(|e: (String, P)| e.0@)
    }

    /// The ring's positions, each with the address of the node there.
    pub closed spec fn points(&self) -> Map<Seq<u8>, Seq<char>> {
        ring_points(self.nodes)
    }

    /// The ring's nodes, each with its number of positions.
    pub closed spec fn replicas(&self) -> Map<Seq<char>, nat> {
        ring_replicas(self.nodes)
    }

    /// Whether node `name` has a pool.
    pub closed spec fn has_member(&self, name: Seq<char>) -> bool {
        exists|i: int| 0 <= i < self.members().len() && self.members()[i] == name
    }

    /// The pool of node `name`, if it has one.
    pub closed spec fn pool_of(&self, name: Seq<char>) -> Option<P> {
        if self.has_member(name) {
            Some(
                self.node_conns@[choose|i: int|
                    0 <= i < self.members().len() && self.members()[i] == name].1,
            )
        } else {
            None
        }
    }

    /// The placement invariant: a node is on the ring exactly when it has a
    /// pool, with `REPLICAS` positions, and every position belongs to such a
    /// node at one of its own replica positions.
    pub closed spec fn inv(&self) -> bool {
        &&& self.unique_members()
        &&& forall|n: Seq<char>| #[trigger] self.replicas().contains_key(n) <==> self.has_member(n)
        &&& forall|n: Seq<char>| #[trigger] self.replicas().contains_key(n) ==> self.replicas()[n] == REPLICAS
        &&& forall|p: Seq<u8>| #[trigger]
            self.points().contains_key(p) ==> {
                &&& self.replicas().contains_key(self.points()[p])
                &&& positions(self.points()[p], self.replicas()[self.points()[p]]).contains(p)
            }
    }

    /// `pool` is where a request for `key` goes: the pool of the node that
    /// owns the key's hash on the ring.
    pub open spec fn routes_to(&self, key: Seq<u8>, pool: P) -> bool {
        exists|p: Seq<u8>|
            owner_point(self.points(), md5_of(key), p) && self.pool_of(self.points()[p]) == Some(pool)
    }

    /// A router with no nodes.
    pub fn new() -> (r: Self)
        ensures
            r.inv(),
            r.members().len() == 0,
            r.points().dom() == Set::<Seq<u8>>::empty(),
    {
        let r = RouterServiceImpl { nodes: ring_new(), node_conns: Vec::new() };
        assert(r.members() =~= Seq::<Seq<char>>::empty());
        r
    }

    /// The position in the pool list of node `name`.
    fn find(&self, name: &String) -> (r: Option<usize>)
        ensures
            match r {
                Some(i) => i < self.members().len() && self.members()[i as int] == name@,
                None => !self.has_member(name@),
            },
    {
        let mut i: usize = 0;
        while i < self.node_conns.len()
            invariant
                i <= self.node_conns@.len(),
                forall|j: int| 0 <= j < i ==> self.members()[j] != name@,
            decreases self.node_conns@.len() - i,
        {
            if self.node_conns[i].0 == *name {
                return Some(i);
            }
            i = i + 1;
        }
        None
    }

    /// Finds the pool for `key`: the pool of the node that owns the key on the
    /// ring. Fails with `NodeNotFound` exactly when the ring is empty.
    pub fn get_connection_for_key(&self, key: &[u8]) -> (r: Result<&P, RouterError>)
        requires
            self.inv(),
        ensures
            r is Ok <==> self.points().dom() != Set::<Seq<u8>>::empty(),
            r is Err ==> r->Err_0 is NodeNotFound,
            r is Ok ==> self.routes_to(key@, *r->Ok_0),
    {
        match ring_get(&self.nodes, key) {
            None => Err(RouterError::NodeNotFound(String::from_str("No node found for key"))),
            Some(host) => {
                let ghost p = choose|p: Seq<u8>|
                    owner_point(self.points(), md5_of(key@), p) && self.points()[p] == host@;
                assert(self.points().contains_key(p));
                assert(self.replicas().contains_key(self.points()[p]));
                match self.find(&host) {
                    Some(i) => {
                        proof {
                            let j = choose|j: int|
                                0 <= j < self.members().len() && self.members()[j] == host@;
                            assert(i == j);
                        }
                        Ok(&self.node_conns[i].1)
                    },
                    None => {
                        Err(RouterError::NodeNotFound(String::from_str("No connection found for node")))
                    },
                }
            },
        }
    }

    /// No address has two pools.
    pub closed spec fn unique_members(&self) -> bool {
        forall|i: int, j: int|
            0 <= i < self.members().len() && 0 <= j < self.members().len() && i != j
                ==> self.members()[i] != self.members()[j]
    }

    /// With unique addresses, the pool of the node listed at `k` is the one listed there.
    proof fn lemma_pool_at(&self, k: int)
        requires
            self.unique_members(),
            0 <= k < self.members().len(),
        ensures
            self.has_member(self.members()[k]),
            self.pool_of(self.members()[k]) == Some(self.node_conns@[k].1),
    {
        let n = self.members()[k];
        assert(self.has_member(n));
        let j = choose|j: int| 0 <= j < self.members().len() && self.members()[j] == n;
        assert(j == k);
    }

    /// Drops the pool of node `name`, if it has one; the ring is left alone.
    fn remove_conn(&mut self, name: &String)
        requires
            old(self).unique_members(),
        ensures
            final(self).nodes == old(self).nodes,
            final(self).unique_members(),
            forall|n: Seq<char>| final(self).has_member(n) <==> (old(self).has_member(n) && n != name@),
            forall|n: Seq<char>| n != name@ ==> final(self).pool_of(n) == old(self).pool_of(n),
    {
        let ghost before = *self;
        match self.find(name) {
            None => {},
            Some(i) => {
                self.node_conns.remove(i);
                proof {
                    let s = before.members();
                    let t = self.members();
                    assert(t.len() == s.len() - 1);
                    assert(forall|k: int| 0 <= k < i ==> t[k] == s[k] && self.node_conns@[k] == before.node_conns@[k]);
                    assert(forall|k: int| i <= k < t.len() ==> t[k] == s[k + 1] && self.node_conns@[k] == before.node_conns@[k + 1]);
                    assert forall|n: Seq<char>| self.has_member(n) <==> (before.has_member(n) && n != name@) by {
                        if self.has_member(n) {
                            let k = choose|k: int| 0 <= k < t.len() && t[k] == n;
                            if k < i {
                                assert(s[k] == n);
                            } else {
                                assert(s[k + 1] == n);
                            }
                        }
                        if before.has_member(n) && n != name@ {
                            let k = choose|k: int| 0 <= k < s.len() && s[k] == n;
                            if k < i {
                                assert(t[k] == n);
                            } else {
                                assert(k != i);
                                assert(t[k - 1] == n);
                            }
                        }
                    }
                    assert forall|n: Seq<char>| n != name@ implies self.pool_of(n) == before.pool_of(n) by {
                        if self.has_member(n) {
                            let k = choose|k: int| 0 <= k < t.len() && t[k] == n;
                            self.lemma_pool_at(k);
                            if k < i {
                                before.lemma_pool_at(k);
                            } else {
                                before.lemma_pool_at(k + 1);
                            }
                        }
                    }
                }
            },
        }
    }

    /// Joins the node at `address` with its pool: validates the address, puts
    /// the node on the ring with `REPLICAS` positions (placing it anew if it
    /// was on already) and keeps the pool, replacing an older one.
    pub fn join_node(&mut self, address: String, pool: P) -> (r: Result<(), RouterError>)
        requires
            old(self).inv(),
        ensures
            final(self).inv(),
            r is Ok <==> address_ok(address@),
            r is Err ==> r->Err_0 is ValidationError && *final(self) == *old(self),
            r is Ok ==> {
                &&& forall|n: Seq<char>|
                    final(self).has_member(n) <==> (old(self).has_member(n) || n == address@)
                &&& final(self).pool_of(address@) == Some(pool)
                &&& forall|n: Seq<char>|
                    n != address@ ==> final(self).pool_of(n) == old(self).pool_of(n)
                &&& final(self).points() == with_node(
                    without_node(old(self).points(), old(self).replicas(), address@),
                    address@,
                    REPLICAS as nat,
                )
            },
    {
        match validate_address(address.as_str()) {
            Err(e) => return Err(RouterError::ValidationError(e)),
            Ok(()) => {},
        }
        let ghost before = *self;
        assert(before.unique_members());
        let node = ServerNode::new(address.clone());
        ring_add(&mut self.nodes, &node, REPLICAS);
        assert(self.node_conns == before.node_conns);
        assert(self.members() =~= before.members());
        assert(self.unique_members());
        let ghost added = *self;
        assert(forall|n: Seq<char>| added.has_member(n) == before.has_member(n));
        assert(forall|n: Seq<char>| added.pool_of(n) == before.pool_of(n));
        self.remove_conn(&address);
        let ghost mid = *self;
        let ghost a = address@;
        self.node_conns.push((address, pool));
        proof {
            let s = mid.members();
            let t = self.members();
            assert(t.len() == s.len() + 1);
            assert(forall|k: int| 0 <= k < s.len() ==> t[k] == s[k] && self.node_conns@[k] == mid.node_conns@[k]);
            assert(t[s.len() as int] == a);
            assert(!mid.has_member(a));
            assert(self.unique_members()) by {
                assert forall|i: int, j: int|
                    0 <= i < t.len() && 0 <= j < t.len() && i != j implies t[i] != t[j] by {
                    if i < s.len() && j < s.len() {
                    } else if i < s.len() {
                        assert(mid.has_member(t[i]));
                    } else {
                        assert(mid.has_member(t[j]));
                    }
                }
            }
            assert forall|n: Seq<char>| self.has_member(n) <==> (mid.has_member(n) || n == a) by {
                if self.has_member(n) && n != a {
                    let k = choose|k: int| 0 <= k < t.len() && t[k] == n;
                    assert(k < s.len());
                    assert(s[k] == n);
                }
                if mid.has_member(n) {
                    let k = choose|k: int| 0 <= k < s.len() && s[k] == n;
                    assert(t[k] == n);
                }
                if n == a {
                    assert(t[s.len() as int] == a);
                }
            }
            self.lemma_pool_at(s.len() as int);
            assert forall|n: Seq<char>| n != a implies self.pool_of(n) == mid.pool_of(n) by {
                if mid.has_member(n) {
                    let k = choose|k: int| 0 <= k < s.len() && s[k] == n;
                    mid.lemma_pool_at(k);
                    self.lemma_pool_at(k);
                }
            }
            let pts = before.points();
            let reps = before.replicas();
            assert(self.replicas() == reps.insert(a, REPLICAS as nat));
            assert(self.points() == with_node(without_node(pts, reps, a), a, REPLICAS as nat));
            assert forall|n: Seq<char>| #[trigger] self.replicas().contains_key(n) <==> self.has_member(n) by {
                assert(self.replicas().contains_key(n) <==> (reps.contains_key(n) || n == a));
                assert(reps.contains_key(n) <==> before.has_member(n));
                assert(mid.has_member(n) <==> (before.has_member(n) && n != a));
            }
            assert(forall|n: Seq<char>| self.has_member(n) <==> (before.has_member(n) || n == a));
            assert forall|p: Seq<u8>| #[trigger] self.points().contains_key(p) implies {
                &&& self.replicas().contains_key(self.points()[p])
                &&& positions(self.points()[p], self.replicas()[self.points()[p]]).contains(p)
            } by {
                if !positions(a, REPLICAS as nat).contains(p) {
                    let rest = without_node(pts, reps, a);
                    assert(rest.contains_key(p));
                    assert(pts.contains_key(p));
                    let m = pts[p];
                    assert(self.points()[p] == m);
                    assert(reps.contains_key(m));
                    if m == a {
                        assert(positions(a, reps[a]).contains(p));
                        assert(!rest.contains_key(p));
                    }
                }
            }
        }
        Ok(())
    }

    /// Takes the node at `address` off the ring and drops its pool. A node
    /// that is not there is no failure.
    pub fn leave_node(&mut self, address: String)
        requires
            old(self).inv(),
        ensures
            final(self).inv(),
            forall|n: Seq<char>| final(self).has_member(n) <==> (old(self).has_member(n) && n != address@),
            forall|n: Seq<char>| n != address@ ==> final(self).pool_of(n) == old(self).pool_of(n),
            final(self).points() == without_node(old(self).points(), old(self).replicas(), address@),
    {
        let ghost before = *self;
        let node = ServerNode::new(address.clone());
        ring_remove(&mut self.nodes, &node);
        assert(self.members() =~= before.members());
        self.remove_conn(&address);
        proof {
            let a = address@;
            let pts = before.points();
            let reps = before.replicas();
            assert forall|p: Seq<u8>| #[trigger] self.points().contains_key(p) implies {
                &&& self.replicas().contains_key(self.points()[p])
                &&& positions(self.points()[p], self.replicas()[self.points()[p]]).contains(p)
            } by {
                assert(pts.contains_key(p));
                let m = pts[p];
                assert(self.points()[p] == m);
                assert(reps.contains_key(m));
                if m == a {
                    assert(positions(a, reps[a]).contains(p));
                }
            }
        }
    }

    /// The answer to a request that the limiter turned away.
    pub fn rate_limited() -> (r: Status)
        ensures
            r.code == Code::ResourceExhausted,
    {
        let mut message = String::from_str("Rate limit exceeded: ");
        let detail = RateLimitError::RateLimitExceeded.message();
        message.append(detail.as_str());
        Status { code: Code::ResourceExhausted, message }
    }

    /// The answer to a request that failed validation.
    fn invalid(e: ValidationError) -> (r: Status)
        ensures
            r.code == Code::InvalidArgument,
    {
        Status { code: Code::InvalidArgument, message: e.message() }
    }

    /// The answer to a request that the router could not place or forward.
    fn internal(e: RouterError) -> (r: Status)
        ensures
            r.code == Code::Internal,
    {
        Status { code: Code::Internal, message: e.message() }
    }

    /// Places a `GET` or `DELETE` of `(bucket, key)`: turned away with
    /// `ResourceExhausted` unless `admitted` by the limiter; then
    /// `InvalidArgument` for a bad bucket name or key; then `Internal` when no
    /// node is on the ring; else the pool of the key's owner.
    pub fn route(&self, admitted: bool, bucket: &str, key: &[u8]) -> (r: Result<&P, Status>)
        requires
            self.inv(),
        ensures
            !admitted ==> r is Err && r->Err_0.code == Code::ResourceExhausted,
            admitted && !(bucket_name_ok(bucket) && key_ok(key@)) ==> r is Err && r->Err_0.code
                == Code::InvalidArgument,
            admitted && bucket_name_ok(bucket) && key_ok(key@) ==> {
                &&& r is Ok <==> self.points().dom() != Set::<Seq<u8>>::empty()
                &&& r is Err ==> r->Err_0.code == Code::Internal
                &&& r is Ok ==> self.routes_to(key@, *r->Ok_0)
            },
    {
        if !admitted {
            return Err(Self::rate_limited());
        }
        match validate_bucket_name(bucket) {
            Err(e) => return Err(Self::invalid(e)),
            Ok(()) => {},
        }
        match validate_key(key) {
            Err(e) => return Err(Self::invalid(e)),
            Ok(()) => {},
        }
        match self.get_connection_for_key(key) {
            Err(e) => Err(Self::internal(e)),
            Ok(pool) => Ok(pool),
        }
    }

    /// Places a `PUT` of `(bucket, key, value)` as `route` does, with the value
    /// checked against its size limit after the key.
    pub fn route_put(&self, admitted: bool, bucket: &str, key: &[u8], value: &[u8]) -> (r: Result<&P, Status>)
        requires
            self.inv(),
        ensures
            !admitted ==> r is Err && r->Err_0.code == Code::ResourceExhausted,
            admitted && !(bucket_name_ok(bucket) && key_ok(key@) && value_ok(value@)) ==> r is Err
                && r->Err_0.code == Code::InvalidArgument,
            admitted && bucket_name_ok(bucket) && key_ok(key@) && value_ok(value@) ==> {
                &&& r is Ok <==> self.points().dom() != Set::<Seq<u8>>::empty()
                &&& r is Err ==> r->Err_0.code == Code::Internal
                &&& r is Ok ==> self.routes_to(key@, *r->Ok_0)
            },
    {
        if !admitted {
            return Err(Self::rate_limited());
        }
        match validate_bucket_name(bucket) {
            Err(e) => return Err(Self::invalid(e)),
            Ok(()) => {},
        }
        match validate_key(key) {
            Err(e) => return Err(Self::invalid(e)),
            Ok(()) => {},
        }
        match validate_value(value) {
            Err(e) => return Err(Self::invalid(e)),
            Ok(()) => {},
        }
        match self.get_connection_for_key(key) {
            Err(e) => Err(Self::internal(e)),
            Ok(pool) => Ok(pool),
        }
    }

    /// Serves a `JOIN`: `ResourceExhausted` unless `admitted`; else the node
    /// joins as `join_node` says, and a bad address answers `InvalidArgument`.
    pub fn join(&mut self, admitted: bool, address: String, pool: P) -> (r: Result<JoinResponse, Status>)
        requires
            old(self).inv(),
        ensures
            final(self).inv(),
            !admitted ==> r is Err && r->Err_0.code == Code::ResourceExhausted && *final(self)
                == *old(self),
            admitted ==> (r is Ok <==> address_ok(address@)),
            admitted && !address_ok(address@) ==> r->Err_0.code == Code::InvalidArgument
                && *final(self) == *old(self),
            r is Ok ==> {
                &&& r->Ok_0.successful
                &&& forall|n: Seq<char>|
                    final(self).has_member(n) <==> (old(self).has_member(n) || n == address@)
                &&& final(self).pool_of(address@) == Some(pool)
                &&& final(self).points() == with_node(
                    without_node(old(self).points(), old(self).replicas(), address@),
                    address@,
                    REPLICAS as nat,
                )
            },
    {
        if !admitted {
            return Err(Self::rate_limited());
        }
        match self.join_node(address, pool) {
            Ok(()) => Ok(JoinResponse { successful: true }),
            Err(RouterError::ValidationError(e)) => Err(Self::invalid(e)),
            Err(e) => Err(Self::internal(e)),
        }
    }

    /// Serves a `LEAVE`: `ResourceExhausted` unless `admitted`; else the node
    /// leaves as `leave_node` says, and the answer is always successful.
    pub fn leave(&mut self, admitted: bool, address: String) -> (r: Result<LeaveResponse, Status>)
        requires
            old(self).inv(),
        ensures
            final(self).inv(),
            r is Ok <==> admitted,
            !admitted ==> r->Err_0.code == Code::ResourceExhausted && *final(self) == *old(self),
            r is Ok ==> {
                &&& r->Ok_0.successful
                &&& forall|n: Seq<char>|
                    final(self).has_member(n) <==> (old(self).has_member(n) && n != address@)
                &&& final(self).points() == without_node(
                    old(self).points(),
                    old(self).replicas(),
                    address@,
                )
            },
    {
        if !admitted {
            return Err(Self::rate_limited());
        }
        self.leave_node(address);
        Ok(LeaveResponse { successful: true })
    }
}

/// Relays what a cache node answered: its answer as it is, and a failure of
/// the call or of the node as `Internal` with the cause.
pub fn relay<T>(upstream: Result<T, String>) -> (r: Result<T, Status>)
    ensures
        match upstream {
            Ok(v) => r == Ok::<T, Status>(v),
            Err(m) => r is Err && r->Err_0.code == Code::Internal && r->Err_0.message@ == m@,
        },
{
    match upstream {
        Ok(v) => Ok(v),
        Err(m) => Err(Status { code: Code::Internal, message: m }),
    }
}

/// The placement invariant: whatever position owns a key, the node there has
/// a connection pool.
pub proof fn lemma_owner_has_pool<P>(router: RouterServiceImpl<P>, key: Seq<u8>, p: Seq<u8>)
    requires
        router.inv(),
        owner_point(router.points(), md5_of(key), p),
    ensures
        router.pool_of(router.points()[p]) is Some,
{
}

/// After a node that was not a member joins, every key whose owner changed
/// is now owned by the new node; all other keys keep their owner.
pub proof fn lemma_join_is_stable<P>(
    before: RouterServiceImpl<P>,
    after: RouterServiceImpl<P>,
    address: Seq<char>,
    key: Seq<u8>,
    owner_before: Seq<u8>,
    owner_after: Seq<u8>,
)
    requires
        before.inv(),
        !before.has_member(address),
        after.points() == with_node(
            without_node(before.points(), before.replicas(), address),
            address,
            REPLICAS as nat,
        ),
        owner_point(before.points(), md5_of(key), owner_before),
        owner_point(after.points(), md5_of(key), owner_after),
    ensures
        after.points()[owner_after] != before.points()[owner_before] ==> after.points()[owner_after]
            == address,
{
    assert(without_node(before.points(), before.replicas(), address) == before.points());
    lemma_join_moves_keys_only_to_joiner(before.points(), address, REPLICAS as nat, md5_of(key), owner_before, owner_after);
}

/// After a node leaves, every key whose owner changed was owned by the
/// leaving node, provided no position of that node coincides with a position
/// of another.
pub proof fn lemma_leave_is_stable<P>(
    before: RouterServiceImpl<P>,
    after: RouterServiceImpl<P>,
    address: Seq<char>,
    key: Seq<u8>,
    owner_before: Seq<u8>,
    owner_after: Seq<u8>,
)
    requires
        before.inv(),
        before.has_member(address),
        forall|p: Seq<u8>|
            positions(address, REPLICAS as nat).contains(p) && before.points().contains_key(p)
                ==> before.points()[p] == address,
        after.points() == without_node(before.points(), before.replicas(), address),
        owner_point(before.points(), md5_of(key), owner_before),
        owner_point(after.points(), md5_of(key), owner_after),
    ensures
        after.points()[owner_after] != before.points()[owner_before] ==> before.points()[owner_before]
            == address,
{
    assert(before.replicas().contains_key(address));
    lemma_leave_moves_only_its_keys(
        before.points(),
        positions(address, REPLICAS as nat),
        address,
        md5_of(key),
        owner_before,
        owner_after,
    );
}

} // verus!
