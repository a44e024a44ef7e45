//! Input rules that the router applies to every request before routing it.
use vstd::prelude::*;
use vstd::string::StrSliceExecFns;
use vstd::string::StringExecFns;

verus! {

/// The largest key, in bytes.
pub const MAX_KEY_LEN: usize = 1024;

/// The longest bucket name, in characters.
pub const MAX_BUCKET_LEN: usize = 63;

/// The largest value, in bytes (5 MiB).
pub const MAX_VALUE_LEN: usize = 5242880;

#[derive(Debug)]
pub enum ValidationError {
    InvalidBucketName(String),
    InvalidKey(String),
    InvalidValue(String),
    InvalidAddress(String),
}

impl ValidationError {
    /// A human-readable description of the error.
    pub fn message(&self) -> (r: String) {
        match self {
            ValidationError::InvalidBucketName(m) => {
                let mut s = String::from_str("Invalid bucket name: ");
                s.append(m.as_str());
                s
            },
            ValidationError::InvalidKey(m) => {
                let mut s = String::from_str("Invalid key: ");
                s.append(m.as_str());
                s
            },
            ValidationError::InvalidValue(m) => {
                let mut s = String::from_str("Invalid value: ");
                s.append(m.as_str());
                s
            },
            ValidationError::InvalidAddress(m) => {
                let mut s = String::from_str("Invalid address: ");
                s.append(m.as_str());
                s
            },
        }
    }
}

/// What `char::is_alphanumeric` answers for `c` (Unicode letters and numbers).
pub uninterp spec fn alphanumeric(c: char) -> bool;

/// Relies on `char::is_alphanumeric`: whether `c` is a Unicode letter or number.
#[verifier::external_body]
fn is_alphanumeric(c: char) -> (r: bool)
    ensures
        r == alphanumeric(c),
{
    c.is_alphanumeric()
}

/// A character that may stand in a bucket name.
pub open spec fn bucket_char(c: char) -> bool {
    alphanumeric(c) || c == '-'
}

/// A bucket name: 1 to 63 characters, each alphanumeric or a hyphen.
pub open spec fn bucket_name_ok(name: &str) -> bool {
    &&& name@.len() > 0
    &&& name@.len() <= MAX_BUCKET_LEN
    &&& forall|i: int| 0 <= i < name@.len() ==> bucket_char(#[trigger] name@[i])
}

/// Checks a bucket name: nonempty, at most 63 characters, and made only of
/// alphanumeric characters and hyphens. The checks are made in that order,
/// and the first that fails names the error.
pub fn validate_bucket_name(name: &str) -> (r: Result<(), ValidationError>)
    ensures
        r is Ok <==> bucket_name_ok(name),
        r is Err ==> r->Err_0 is InvalidBucketName,
{
    if name.is_empty() {
        return Err(ValidationError::InvalidBucketName(String::from_str("Bucket name cannot be empty")));
    }
    let n = name.unicode_len();
    if n > MAX_BUCKET_LEN {
        return Err(
            ValidationError::InvalidBucketName(
                String::from_str("Bucket name cannot be longer than 63 characters"),
            ),
        );
    }
    let mut i: usize = 0;
    while i < n
        invariant
            n == name@.len(),
            n > 0,
            n <= MAX_BUCKET_LEN,
            i <= n,
            forall|j: int| 0 <= j < i ==> bucket_char(#[trigger] name@[j]),
        decreases n - i,
    {
        let c = name.get_char(i);
        if !(is_alphanumeric(c) || c == '-') {
            return Err(
                ValidationError::InvalidBucketName(
                    String::from_str(
                        "Bucket name can only contain alphanumeric characters and hyphens",
                    ),
                ),
            );
        }
        i = i + 1;
    }
    Ok(())
}

/// A key is 1 to 1024 bytes long.
pub open spec fn key_ok(key: Seq<u8>) -> bool {
    0 < key.len() <= MAX_KEY_LEN
}

/// Checks that a key is nonempty and at most 1024 bytes long.
pub fn validate_key(key: &[u8]) -> (r: Result<(), ValidationError>)
    ensures
        r is Ok <==> key_ok(key@),
        r is Err ==> r->Err_0 is InvalidKey,
{
    if key.len() == 0 {
        return Err(ValidationError::InvalidKey(String::from_str("Key cannot be empty")));
    }
    if key.len() > MAX_KEY_LEN {
        return Err(
            ValidationError::InvalidKey(String::from_str("Key cannot be longer than 1024 bytes")),
        );
    }
    Ok(())
}

/// A value holds at most 5 MiB.
pub open spec fn value_ok(value: Seq<u8>) -> bool {
    value.len() <= MAX_VALUE_LEN
}

/// Checks that a value is no larger than 5 MiB.
pub fn validate_value(value: &[u8]) -> (r: Result<(), ValidationError>)
    ensures
        r is Ok <==> value_ok(value@),
        r is Err ==> r->Err_0 is InvalidValue,
{
    if value.len() > MAX_VALUE_LEN {
        return Err(ValidationError::InvalidValue(String::from_str("Value cannot be larger than 5MB")));
    }
    Ok(())
}

/// `s` begins with `p`.
pub open spec fn has_prefix(s: Seq<char>, p: Seq<char>) -> bool {
    p.len() <= s.len() && s.subrange(0, p.len() as int) == p
}

/// An address is nonempty and starts with `http://` or `https://`.
pub open spec fn address_ok(addr: Seq<char>) -> bool {
    &&& addr.len() > 0
    &&& (has_prefix(addr, seq!['h', 't', 't', 'p', ':', '/', '/']) || has_prefix(
        addr,
        seq!['h', 't', 't', 'p', 's', ':', '/', '/'],
    ))
}

/// Whether `s` begins with the characters of `p`.
fn starts_with(s: &str, p: &str) -> (r: bool)
    ensures
        r == has_prefix(s@, p@),
{
    let n = s.unicode_len();
    let m = p.unicode_len();
    if m > n {
        return false;
    }
    let mut i: usize = 0;
    while i < m
        invariant
            n == s@.len(),
            m == p@.len(),
            m <= n,
            i <= m,
            forall|j: int| 0 <= j < i ==> s@[j] == p@[j],
        decreases m - i,
    {
        if s.get_char(i) != p.get_char(i) {
            return false;
        }
        i = i + 1;
    }
    assert(s@.subrange(0, m as int) =~= p@);
    true
}

/// Checks a cache node's address: nonempty, with an `http://` or `https://`
/// scheme. An empty address names the first error.
pub fn validate_address(addr: &str) -> (r: Result<(), ValidationError>)
    ensures
        r is Ok <==> address_ok(addr@),
        r is Err ==> r->Err_0 is InvalidAddress,
{
    if addr.is_empty() {
        return Err(ValidationError::InvalidAddress(String::from_str("Address cannot be empty")));
    }
    let http = "http://";
    let https = "https://";
    proof {
        reveal_strlit("http://");
        reveal_strlit("https://");
    }
    assert(http@ =~= seq!['h', 't', 't', 'p', ':', '/', '/']);
    assert(https@ =~= seq!['h', 't', 't', 'p', 's', ':', '/', '/']);
    if !starts_with(addr, http) && !starts_with(addr, https) {
        return Err(
            ValidationError::InvalidAddress(
                String::from_str("Address must start with http:// or https://"),
            ),
        );
    }
    Ok(())
}

} // verus!
