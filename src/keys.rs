//! The derived cache key `H(bucket, key)`: the physical address of an entry in
//! every tier of a cache node, computed identically by router and cache node.
//!
//! `H(bucket, key) = shard + "/" + md5_hex(shard + "/" + key + bucket)`, where
//! `shard` is `(hash64(key) mod 256) + 1` in decimal ASCII and `hash64` is the
//! standard library's `DefaultHasher` fed with the key as a `Vec<u8>`.
use std::collections::hash_map::DefaultHasher;
use std::hash::Hash;
use std::hash::Hasher;
use vstd::prelude::*;
use vstd::std_specs::hash::DefaultHasherAdditionalSpecFns;

use crate::store::Key;

verus! {

/// What `<Vec<u8> as Hash>::hash` makes of a hasher's writes so far, given the key.
pub uninterp spec fn fed_with_key(writes: Seq<Seq<u8>>, key: Seq<u8>) -> Seq<Seq<u8>>;

/// Relies on `<Vec<u8> as Hash>::hash`: the writes that it makes into a
/// `DefaultHasher` depend on the bytes of the key alone.
#[verifier::external_body]
fn feed_key(key: &Vec<u8>, state: &mut DefaultHasher)
    ensures
        final(state)@ == fed_with_key(old(state)@, key@),
{
    key.hash(state)
}

/// The 64-bit hash of a key: a fresh `DefaultHasher` fed with the key.
pub open spec fn hash64(key: Seq<u8>) -> u64 {
    DefaultHasher::spec_finish(fed_with_key(Seq::empty(), key))
}

/// Hashes a key with a fresh `DefaultHasher`: the same bytes give the same
/// hash within one build.
pub fn calculate_hash(key: &Vec<u8>) -> (r: u64)
    ensures
        r == hash64(key@),
{
    let mut s = DefaultHasher::new();
    feed_key(key, &mut s);
    s.finish()
}

/// The MD5 digest of `data`.
pub uninterp spec fn md5_of(data: Seq<u8>) -> Seq<u8>;

/// Relies on `md5::compute`: the 16-byte MD5 digest of the data.
#[verifier::external_body]
fn md5_digest(data: &Vec<u8>) -> (r: [u8; 16])
    ensures
        r@ == md5_of(data@),
{
    md5::compute(data).0
}

/// The ASCII code of a lowercase hexadecimal digit.
pub open spec fn hex_digit(d: u8) -> u8
    recommends
        d < 16,
{
    if d < 10 {
        (48 + d) as u8
    } else {
        (87 + d) as u8
    }
}

/// Lowercase hexadecimal text of some bytes: two digits per byte, high nibble first.
pub open spec fn hex_lower(s: Seq<u8>) -> Seq<u8>
    decreases s.len(),
{
    if s.len() == 0 {
        Seq::empty()
    } else {
        seq![hex_digit(s[0] / 16), hex_digit(s[0] % 16)] + hex_lower(s.drop_first())
    }
}

/// Decimal ASCII text of a natural number, without leading zeros.
pub open spec fn decimal(n: nat) -> Seq<u8>
    decreases n,
{
    if n < 10 {
        seq![(48 + n) as u8]
    } else {
        decimal(n / 10) + seq![(48 + n % 10) as u8]
    }
}

/// The shard of a key: `(hash64(key) mod 256) + 1`, in `1..=256`.
pub open spec fn shard_of(key: Seq<u8>) -> nat {
    (hash64(key) % 256) as nat + 1
}

/// The prefix `shard + "/"` of a derived key.
pub open spec fn shard_prefix(key: Seq<u8>) -> Seq<u8> {
    decimal(shard_of(key)) + seq![47u8]
}

/// The derived cache key `H(bucket, key)`.
pub open spec fn cache_key(bucket: Seq<u8>, key: Seq<u8>) -> Seq<u8> {
    shard_prefix(key) + hex_lower(md5_of(shard_prefix(key) + key + bucket))
}

/// Appends the lowercase hexadecimal text of `bytes` to `out`.
fn push_hex(out: &mut Vec<u8>, bytes: &[u8; 16])
    ensures
        final(out)@ == old(out)@ + hex_lower(bytes@),
{
    let ghost start = out@;
    let mut i: usize = 0;
    while i < 16
        invariant
            i <= 16,
            bytes@.len() == 16,
            out@ == start + hex_lower(bytes@.subrange(0, i as int)),
        decreases 16 - i,
    {
        let b = bytes[i];
        let hi = b / 16;
        let lo = b % 16;
        out.push(if hi < 10 { 48 + hi } else { 87 + hi });
        out.push(if lo < 10 { 48 + lo } else { 87 + lo });
        proof {
            lemma_hex_lower_push(bytes@.subrange(0, i as int), b);
            assert(bytes@.subrange(0, i as int).push(b) =~= bytes@.subrange(0, i + 1));
        }
        i = i + 1;
    }
    assert(bytes@.subrange(0, 16) =~= bytes@);
}

/// Hex text grows by two digits for each byte appended.
proof fn lemma_hex_lower_push(s: Seq<u8>, b: u8)
    ensures
        hex_lower(s.push(b)) == hex_lower(s) + seq![hex_digit(b / 16), hex_digit(b % 16)],
    decreases s.len(),
{
    if s.len() == 0 {
        assert(s.push(b).drop_first() =~= Seq::<u8>::empty());
        assert(hex_lower(Seq::<u8>::empty()) =~= Seq::<u8>::empty());
        assert(hex_lower(s.push(b)) =~= seq![hex_digit(b / 16), hex_digit(b % 16)]);
    } else {
        lemma_hex_lower_push(s.drop_first(), b);
        assert(s.push(b).drop_first() =~= s.drop_first().push(b));
        assert(hex_lower(s.push(b)) =~= hex_lower(s) + seq![hex_digit(b / 16), hex_digit(b % 16)]);
    }
}

/// Appends the decimal text of a shard number (`1..=256`) to `out`.
fn push_decimal(out: &mut Vec<u8>, n: u64)
    requires
        1 <= n <= 256,
    ensures
        final(out)@ == old(out)@ + decimal(n as nat),
{
    let ghost start = out@;
    if n >= 100 {
        out.push((48 + n / 100) as u8);
        out.push((48 + (n / 10) % 10) as u8);
        out.push((48 + n % 10) as u8);
        assert(decimal((n / 100) as nat) == seq![(48 + n / 100) as u8]);
        assert(decimal((n / 10) as nat) =~= seq![(48 + n / 100) as u8, (48 + (n / 10) % 10) as u8]) by {
            assert((n / 10) / 10 == n / 100);
        }
        assert(out@ =~= start + decimal(n as nat));
    } else if n >= 10 {
        out.push((48 + n / 10) as u8);
        out.push((48 + n % 10) as u8);
        assert(decimal((n / 10) as nat) == seq![(48 + n / 10) as u8]);
        assert(out@ =~= start + decimal(n as nat));
    } else {
        out.push((48 + n) as u8);
        assert(out@ =~= start + decimal(n as nat));
    }
}

/// Every byte is an ASCII code.
pub open spec fn ascii(s: Seq<u8>) -> bool {
    forall|i: int| 0 <= i < s.len() ==> #[trigger] s[i] < 128
}

/// Decimal text is ASCII.
proof fn lemma_decimal_ascii(n: nat)
    ensures
        ascii(decimal(n)),
    decreases n,
{
    if n >= 10 {
        lemma_decimal_ascii(n / 10);
    }
}

/// Hexadecimal text is ASCII.
proof fn lemma_hex_ascii(s: Seq<u8>)
    ensures
        ascii(hex_lower(s)),
    decreases s.len(),
{
    if s.len() > 0 {
        lemma_hex_ascii(s.drop_first());
        let head = seq![hex_digit(s[0] / 16), hex_digit(s[0] % 16)];
        assert(hex_lower(s) == head + hex_lower(s.drop_first()));
        assert forall|i: int| 0 <= i < hex_lower(s).len() implies #[trigger] hex_lower(s)[i] < 128 by {
            if i >= 2 {
                assert(hex_lower(s)[i] == hex_lower(s.drop_first())[i - 2]);
            }
        }
    }
}

/// A derived key is ASCII text, so it can name an object in the remote store.
pub proof fn lemma_cache_key_ascii(bucket: Seq<u8>, key: Seq<u8>)
    ensures
        ascii(cache_key(bucket, key)),
{
    let prefix = shard_prefix(key);
    let digest = hex_lower(md5_of(prefix + key + bucket));
    lemma_decimal_ascii(shard_of(key));
    lemma_hex_ascii(md5_of(prefix + key + bucket));
    assert forall|i: int| 0 <= i < cache_key(bucket, key).len() implies #[trigger] cache_key(bucket, key)[i] < 128 by {
        if i < decimal(shard_of(key)).len() {
            assert(cache_key(bucket, key)[i] == decimal(shard_of(key))[i]);
        } else if i >= prefix.len() {
            assert(cache_key(bucket, key)[i] == digest[i - prefix.len()]);
        }
    }
}

/// Computes the derived cache key `H(bucket, key)`, which is ASCII text.
pub fn build_cache_key(bucket: &[u8], key: &Key) -> (r: Key)
    ensures
        r@ == cache_key(bucket@, key@),
        ascii(r@),
{
    proof {
        lemma_cache_key_ascii(bucket@, key@);
    }
    let shard = calculate_hash(&key.0) % 256 + 1;
    let mut key_vec: Vec<u8> = Vec::new();
    push_decimal(&mut key_vec, shard);
    key_vec.push(47u8);
    assert(key_vec@ =~= shard_prefix(key@));
    let mut key_to_md5 = key_vec.clone();
    let mut i: usize = 0;
    while i < key.0.len()
        invariant
            i <= key.0@.len(),
            key_to_md5@ == shard_prefix(key@) + key.0@.subrange(0, i as int),
        decreases key.0@.len() - i,
    {
        key_to_md5.push(key.0[i]);
        assert(key.0@.subrange(0, i as int).push(key.0@[i as int]) =~= key.0@.subrange(0, i + 1));
        i = i + 1;
    }
    let mut j: usize = 0;
    while j < bucket.len()
        invariant
            j <= bucket@.len(),
            key_to_md5@ == shard_prefix(key@) + key.0@ + bucket@.subrange(0, j as int),
        decreases bucket@.len() - j,
    {
        key_to_md5.push(bucket[j]);
        assert(bucket@.subrange(0, j as int).push(bucket@[j as int]) =~= bucket@.subrange(0, j + 1));
        j = j + 1;
    }
    assert(key.0@.subrange(0, key.0@.len() as int) =~= key.0@);
    assert(bucket@.subrange(0, bucket@.len() as int) =~= bucket@);
    let digest = md5_digest(&key_to_md5);
    push_hex(&mut key_vec, &digest);
    Key(key_vec)
}

/// The derived key is a function of its inputs: the same bucket and key give
/// the same derived key on every call, on router and cache node alike.
pub proof fn lemma_cache_key_deterministic(bucket1: Seq<u8>, key1: Seq<u8>, bucket2: Seq<u8>, key2: Seq<u8>)
    requires
        bucket1 == bucket2,
        key1 == key2,
    ensures
        cache_key(bucket1, key1) == cache_key(bucket2, key2),
{
}

} // verus!
