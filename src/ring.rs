//! The consistent-hash ring of the router: each cache node stands at a few
//! positions on a circle of byte strings, and a key belongs to the node at
//! the first position at or after the key's hash, wrapping around.
use conhash::ConsistentHash;
use conhash::Node;
use vstd::prelude::*;

use crate::keys::md5_of;

verus! {

/// A cache node on the ring, named by its address.
#[derive(Debug, Clone)]
pub struct ServerNode {
    pub host: String,
}

impl Node for ServerNode {
    fn name(&self) -> String {
        self.host.clone()
    }
}

impl ServerNode {
    /// A node for the given address.
    pub fn new(host: String) -> (r: Self)
        ensures
            r.host@ == host@,
    {
        ServerNode { host }
    }
}

/// The ring of `conhash`, whose type Verus cannot take as declared: only the
/// trusted functions below look inside.
#[verifier::external_body]
pub struct HashRing {
    ring: ConsistentHash<ServerNode>,
}

/// The positions of a ring, each with the name of the node that stands there.
pub uninterp spec fn ring_points(c: HashRing) -> Map<Seq<u8>, Seq<char>>;

/// The nodes of a ring, each with the number of positions it was added with.
pub uninterp spec fn ring_replicas(c: HashRing) -> Map<Seq<char>, nat>;

/// The position of replica `replica` of node `name`: the ring's hash of the
/// text `"{name}:{replica}"`.
pub uninterp spec fn replica_position(name: Seq<char>, replica: nat) -> Seq<u8>;

/// `a` comes before or equals `b` in the lexicographic order of byte strings.
pub open spec fn lex_le(a: Seq<u8>, b: Seq<u8>) -> bool
    decreases a.len(),
{
    if a.len() == 0 {
        true
    } else if b.len() == 0 {
        false
    } else if a[0] != b[0] {
        a[0] < b[0]
    } else {
        lex_le(a.drop_first(), b.drop_first())
    }
}

/// `p` is the position that owns hash `h` on a ring with positions `points`:
/// the least position at or after `h`, or the least position of all when no
/// position is at or after `h`.
pub open spec fn owner_point(points: Map<Seq<u8>, Seq<char>>, h: Seq<u8>, p: Seq<u8>) -> bool {
    &&& points.contains_key(p)
    &&& if exists|q: Seq<u8>| points.contains_key(q) && lex_le(h, q) {
        &&& lex_le(h, p)
        &&& forall|q: Seq<u8>| points.contains_key(q) && lex_le(h, q) ==> lex_le(p, q)
    } else {
        forall|q: Seq<u8>| points.contains_key(q) ==> lex_le(p, q)
    }
}

/// The positions of the first `count` replicas of node `name`.
pub open spec fn positions(name: Seq<char>, count: nat) -> Set<Seq<u8>> {
    Set::new(|p: Seq<u8>| exists|i: nat| i < count && p == replica_position(name, i))
}

/// `points` without the positions of node `name`, when `replicas` lists it.
pub open spec fn without_node(
    points: Map<Seq<u8>, Seq<char>>,
    replicas: Map<Seq<char>, nat>,
    name: Seq<char>,
) -> Map<Seq<u8>, Seq<char>> {
    if replicas.contains_key(name) {
        points.remove_keys(positions(name, replicas[name]))
    } else {
        points
    }
}

/// `points` with node `name` placed at the positions of its first `count` replicas.
pub open spec fn with_node(
    points: Map<Seq<u8>, Seq<char>>,
    name: Seq<char>,
    count: nat,
) -> Map<Seq<u8>, Seq<char>> {
    points.union_prefer_right(Map::new(|p: Seq<u8>| positions(name, count).contains(p), |p: Seq<u8>| name))
}

/// Relies on `ConsistentHash::new`: an empty ring.
#[verifier::external_body]
pub(crate) fn ring_new() -> (r: HashRing)
    ensures
        ring_points(r).dom() == Set::<Seq<u8>>::empty(),
        ring_replicas(r).dom() == Set::<Seq<char>>::empty(),
{
    HashRing { ring: ConsistentHash::new() }
}

/// Relies on `ConsistentHash::add`: removes the node as `remove` does, then
/// places it at the positions of replicas `0..num_replicas` and records that
/// number.
#[verifier::external_body]
pub(crate) fn ring_add(c: &mut HashRing, node: &ServerNode, num_replicas: usize)
    ensures
        ring_replicas(*final(c)) == ring_replicas(*old(c)).insert(node.host@, num_replicas as nat),
        ring_points(*final(c)) == with_node(
            without_node(ring_points(*old(c)), ring_replicas(*old(c)), node.host@),
            node.host@,
            num_replicas as nat,
        ),
        forall|i: nat|
            i < num_replicas ==> ring_points(*final(c))[replica_position(node.host@, i)] == node.host@,
{
    c.ring.add(node, num_replicas)
}

/// Relies on `ConsistentHash::remove`: a recorded node loses the positions of
/// the replicas it was added with, and its record; anything else is left alone.
#[verifier::external_body]
pub(crate) fn ring_remove(c: &mut HashRing, node: &ServerNode)
    ensures
        ring_replicas(*final(c)) == ring_replicas(*old(c)).remove(node.host@),
        ring_points(*final(c)) == without_node(ring_points(*old(c)), ring_replicas(*old(c)), node.host@),
{
    c.ring.remove(node)
}

/// Relies on `ConsistentHash::get`: nothing on an empty ring; else the node
/// at the owning position of the key's MD5 digest, positions ordered as
/// byte strings.
#[verifier::external_body]
pub(crate) fn ring_get(c: &HashRing, key: &[u8]) -> (r: Option<String>)
    ensures
        r is None <==> ring_points(*c).dom() == Set::<Seq<u8>>::empty(),
        r matches Some(name) ==> exists|p: Seq<u8>|
            owner_point(ring_points(*c), md5_of(key@), p) && ring_points(*c)[p] == name@,
{
    c.ring.get(key).map(|n| n.host.clone())
}

/// The lexicographic order on byte strings is antisymmetric.
pub proof fn lemma_lex_antisymmetric(a: Seq<u8>, b: Seq<u8>)
    requires
        lex_le(a, b),
        lex_le(b, a),
    ensures
        a == b,
    decreases a.len(),
{
    if a.len() == 0 {
        assert(b.len() == 0);
        assert(a =~= b);
    } else {
        lemma_lex_antisymmetric(a.drop_first(), b.drop_first());
        assert(a =~= seq![a[0]] + a.drop_first());
        assert(b =~= seq![b[0]] + b.drop_first());
    }
}

/// A hash has at most one owning position: as long as the ring does not
/// change, every lookup of a key answers the same node.
pub proof fn lemma_lookup_stable(points: Map<Seq<u8>, Seq<char>>, h: Seq<u8>, first: Seq<u8>, second: Seq<u8>)
    requires
        owner_point(points, h, first),
        owner_point(points, h, second),
    ensures
        first == second,
        points[first] == points[second],
{
    lemma_lex_antisymmetric(first, second);
}

/// When a node that is not on the ring joins it, a hash whose owner changes
/// now belongs to the new node: every other key keeps its owner.
pub proof fn lemma_join_moves_keys_only_to_joiner(
    points: Map<Seq<u8>, Seq<char>>,
    name: Seq<char>,
    count: nat,
    h: Seq<u8>,
    before: Seq<u8>,
    after: Seq<u8>,
)
    requires
        owner_point(points, h, before),
        owner_point(with_node(points, name, count), h, after),
    ensures
        with_node(points, name, count)[after] != points[before] ==> with_node(points, name, count)[after]
            == name,
{
    let joined = with_node(points, name, count);
    if !positions(name, count).contains(after) {
        assert(points.contains_key(after));
        assert(joined[after] == points[after]);
        if exists|q: Seq<u8>| joined.contains_key(q) && lex_le(h, q) {
            assert(lex_le(h, after));
            assert(exists|q: Seq<u8>| points.contains_key(q) && lex_le(h, q));
            assert(lex_le(h, before));
            assert(joined.contains_key(before));
            assert(lex_le(after, before));
            assert(lex_le(before, after));
        } else {
            assert(!exists|q: Seq<u8>| points.contains_key(q) && lex_le(h, q)) by {
                assert forall|q: Seq<u8>| points.contains_key(q) implies !lex_le(h, q) by {
                    assert(joined.contains_key(q));
                }
            }
            assert(joined.contains_key(before));
            assert(lex_le(after, before));
            assert(lex_le(before, after));
        }
        lemma_lex_antisymmetric(before, after);
    }
}

/// When a node leaves the ring, a hash whose owner changes was owned by the
/// leaving node, provided every position that is taken away held that node.
pub proof fn lemma_leave_moves_only_its_keys(
    points: Map<Seq<u8>, Seq<char>>,
    removed: Set<Seq<u8>>,
    name: Seq<char>,
    h: Seq<u8>,
    before: Seq<u8>,
    after: Seq<u8>,
)
    requires
        forall|p: Seq<u8>| removed.contains(p) && points.contains_key(p) ==> points[p] == name,
        owner_point(points, h, before),
        owner_point(points.remove_keys(removed), h, after),
    ensures
        points.remove_keys(removed)[after] != points[before] ==> points[before] == name,
{
    let left = points.remove_keys(removed);
    if !removed.contains(before) {
        assert(left.contains_key(before));
        assert(points.contains_key(after));
        if exists|q: Seq<u8>| points.contains_key(q) && lex_le(h, q) {
            assert(lex_le(h, before));
            assert(lex_le(h, after));
            assert(lex_le(after, before));
            assert(lex_le(before, after));
        } else {
            assert(!exists|q: Seq<u8>| left.contains_key(q) && lex_le(h, q));
            assert(lex_le(after, before));
            assert(lex_le(before, after));
        }
        lemma_lex_antisymmetric(before, after);
    }
}

} // verus!
