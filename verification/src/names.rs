//! Namespace safety: validation of bucket names and object keys, the
//! leaf/directory conflict policy, and deterministic path resolution.
//!
//! A bucket is a directory directly under the storage root; a key maps to a
//! nested path inside its bucket, using `/` as the separator.  Names that
//! could escape the root (`..` segments, absolute paths, separator bytes in
//! bucket names) are rejected before any state is touched.

use vstd::prelude::*;
use crate::bytes::{is_prefix, bytes_clone, bytes_extend};
use crate::errors::StorageError;

verus! {

pub const SLASH: u8 = 0x2f;

pub const BACKSLASH: u8 = 0x5c;

pub const DOT: u8 = 0x2e;

/// A bucket name is a single non-empty path segment: no separator bytes, no
/// NUL, and not the `.` or `..` segment.
pub open spec fn valid_bucket_name(n: Seq<u8>) -> bool {
    &&& 0 < n.len()
    &&& forall|i: int| 0 <= i < n.len() ==> n[i] != 0u8 && n[i] != SLASH && n[i] != BACKSLASH
    &&& !(n.len() == 1 && n[0] == DOT)
    &&& !(n.len() == 2 && n[0] == DOT && n[1] == DOT)
}

/// A `..` path segment starts at position `i` of `k`.
pub open spec fn dotdot_at(k: Seq<u8>, i: int) -> bool {
    &&& 0 <= i
    &&& i + 2 <= k.len()
    &&& k[i] == DOT
    &&& k[i + 1] == DOT
    &&& (i == 0 || k[i - 1] == SLASH)
    &&& (i + 2 == k.len() || k[i + 2] == SLASH)
}

/// A `.` path segment starts at position `i` of `k`.
pub open spec fn dot_at(k: Seq<u8>, i: int) -> bool {
    &&& 0 <= i
    &&& i + 1 <= k.len()
    &&& k[i] == DOT
    &&& (i == 0 || k[i - 1] == SLASH)
    &&& (i + 1 == k.len() || k[i + 1] == SLASH)
}

/// A key is a non-empty `/`-separated sequence of segments that stays inside
/// its bucket: not absolute, no empty segment, no trailing separator, and no
/// `.` or `..` segment; NUL and `\` bytes are rejected outright.
pub open spec fn valid_key(k: Seq<u8>) -> bool {
    &&& 0 < k.len()
    &&& k[0] != SLASH
    &&& k[k.len() - 1] != SLASH
    &&& forall|i: int| 0 <= i < k.len() ==> k[i] != 0u8 && k[i] != BACKSLASH
    &&& forall|i: int| 0 <= i < k.len() - 1 ==> !(#[trigger] k[i] == SLASH && k[i + 1] == SLASH)
    &&& forall|i: int| !dotdot_at(k, i)
    &&& forall|i: int| !dot_at(k, i)
}

/// Two keys collide when one would have to be both a leaf object and a
/// directory on the way to the other.
pub open spec fn key_conflicts(a: Seq<u8>, b: Seq<u8>) -> bool {
    is_prefix(a.push(SLASH), b) || is_prefix(b.push(SLASH), a)
}

/// Checks `valid_bucket_name`.
pub fn check_bucket_name(n: &Vec<u8>) -> (r: bool)
    ensures
        r == valid_bucket_name(n@),
{
    if n.len() == 0 {
        return false;
    }
    if n.len() == 1 && n[0] == DOT {
        return false;
    }
    if n.len() == 2 && n[0] == DOT && n[1] == DOT {
        return false;
    }
    let mut i: usize = 0;
    while i < n.len()
        invariant
            i <= n@.len(),
            forall|j: int| 0 <= j < i ==> n@[j] != 0u8 && n@[j] != SLASH && n@[j] != BACKSLASH,
        decreases n.len() - i,
    {
        let c = n[i];
        if c == 0u8 || c == SLASH || c == BACKSLASH {
            return false;
        }
        i = i + 1;
    }
    true
}

/// Checks `valid_key`.
pub fn check_key(k: &Vec<u8>) -> (r: bool)
    ensures
        r == valid_key(k@),
{
    if k.len() == 0 {
        return false;
    }
    if k[0] == SLASH {
        return false;
    }
    if k[k.len() - 1] == SLASH {
        return false;
    }
    let mut i: usize = 0;
    while i < k.len()
        invariant
            0 < k@.len(),
            i <= k@.len(),
            forall|j: int| 0 <= j < i ==> k@[j] != 0u8 && k@[j] != BACKSLASH,
            forall|j: int| 0 <= j < i && j < k@.len() - 1 ==> !(#[trigger] k@[j] == SLASH && k@[j
                + 1] == SLASH),
            forall|j: int| j < i ==> !dotdot_at(k@, j),
            forall|j: int| j < i ==> !dot_at(k@, j),
        decreases k.len() - i,
    {
        let c = k[i];
        if c == 0u8 || c == BACKSLASH {
            return false;
        }
        if i + 1 < k.len() && c == SLASH && k[i + 1] == SLASH {
            return false;
        }
        if c == DOT && (i == 0 || k[i - 1] == SLASH) {
            // a segment starts with `.` here
            if i + 1 == k.len() || k[i + 1] == SLASH {
                assert(dot_at(k@, i as int));
                return false;
            }
            if k[i + 1] == DOT && (i + 2 == k.len() || k[i + 2] == SLASH) {
                assert(dotdot_at(k@, i as int));
                return false;
            }
        }
        i = i + 1;
    }
    true
}

/// Is `x` followed by a separator an initial segment of `y`?
fn dir_prefix(x: &Vec<u8>, y: &Vec<u8>) -> (r: bool)
    requires
        x@.len() < y@.len(),
    ensures
        r == is_prefix(x@.push(SLASH), y@),
{
    if y[x.len()] != SLASH {
        assert(y@.take(x@.len() as int + 1)[x@.len() as int] == y@[x@.len() as int]);
        assert(x@.push(SLASH)[x@.len() as int] == SLASH);
        return false;
    }
    let mut i: usize = 0;
    while i < x.len()
        invariant
            i <= x@.len(),
            x@.len() < y@.len(),
            y@[x@.len() as int] == SLASH,
            forall|j: int| 0 <= j < i ==> y@[j] == x@[j],
        decreases x.len() - i,
    {
        if y[i] != x[i] {
            assert(y@.take(x@.len() as int + 1)[i as int] == y@[i as int]);
            assert(x@.push(SLASH)[i as int] == x@[i as int]);
            return false;
        }
        i = i + 1;
    }
    proof {
        assert(y@.take(x@.len() as int + 1) =~= x@.push(SLASH));
    }
    true
}

/// Checks `key_conflicts`.
pub fn keys_conflict(a: &Vec<u8>, b: &Vec<u8>) -> (r: bool)
    ensures
        r == key_conflicts(a@, b@),
{
    if a.len() < b.len() {
        let c = dir_prefix(a, b);
        assert(!is_prefix(b@.push(SLASH), a@));
        c
    } else if b.len() < a.len() {
        let c = dir_prefix(b, a);
        assert(!is_prefix(a@.push(SLASH), b@));
        c
    } else {
        assert(!is_prefix(a@.push(SLASH), b@));
        assert(!is_prefix(b@.push(SLASH), a@));
        false
    }
}

/// The path of `name` directly under `base`.
pub open spec fn joined(base: Seq<u8>, name: Seq<u8>) -> Seq<u8> {
    base + seq![SLASH] + name
}

/// Resolves a bucket name to its path under the storage root.  Deterministic:
/// the same name always yields the same path.  Rejects unsafe names before
/// any further work.
pub fn resolve_bucket(root: &Vec<u8>, name: &Vec<u8>) -> (r: Result<Vec<u8>, StorageError>)
    ensures
        match r {
            Ok(p) => valid_bucket_name(name@) && p@ == joined(root@, name@),
            Err(e) => e == StorageError::InvalidName && !valid_bucket_name(name@),
        },
{
    if !check_bucket_name(name) {
        return Err(StorageError::InvalidName);
    }
    let mut p = bytes_clone(root);
    p.push(SLASH);
    bytes_extend(&mut p, name);
    proof {
        assert(p@ =~= joined(root@, name@));
    }
    Ok(p)
}

/// Resolves `(bucket, key)` to the object's path under the storage root.
/// Deterministic, and rejects names that would escape the root.
pub fn resolve_object(root: &Vec<u8>, bucket: &Vec<u8>, key: &Vec<u8>) -> (r: Result<
    Vec<u8>,
    StorageError,
>)
    ensures
        match r {
            Ok(p) => valid_bucket_name(bucket@) && valid_key(key@) && p@ == joined(
                joined(root@, bucket@),
                key@,
            ),
            Err(e) => e == StorageError::InvalidName && !(valid_bucket_name(bucket@) && valid_key(
                key@,
            )),
        },
{
    if !check_bucket_name(bucket) || !check_key(key) {
        return Err(StorageError::InvalidName);
    }
    let mut p = bytes_clone(root);
    p.push(SLASH);
    bytes_extend(&mut p, bucket);
    p.push(SLASH);
    bytes_extend(&mut p, key);
    proof {
        assert(p@ =~= joined(joined(root@, bucket@), key@));
    }
    Ok(p)
}

} // verus!
