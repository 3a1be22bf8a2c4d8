//! Content checksums: a 64-bit FNV-1a fingerprint over the object bytes,
//! used as the ETag-equivalent for objects and multipart parts.

use vstd::prelude::*;

verus! {

/// The FNV-1a offset basis.
pub open spec fn fnv_offset() -> u64 {
    0xcbf29ce484222325u64
}

/// The FNV-1a prime.
pub open spec fn fnv_prime() -> u64 {
    0x100000001b3u64
}

/// The FNV-1a fingerprint of a byte string.
pub open spec fn fingerprint(s: Seq<u8>) -> u64
    decreases s.len(),
{
    if s.len() == 0 {
        fnv_offset()
    } else {
        (fingerprint(s.drop_last()) ^ (s.last() as u64)).wrapping_mul(fnv_prime())
    }
}

/// Computes the FNV-1a fingerprint of `v`.
pub fn checksum_bytes(v: &Vec<u8>) -> (r: u64)
    ensures
        r == fingerprint(v@),
{
    let mut h: u64 = 0xcbf29ce484222325u64;
    let mut i: usize = 0;
    while i < v.len()
        invariant
            i <= v.len(),
            h == fingerprint(v@.take(i as int)),
        decreases v.len() - i,
    {
        h = (h ^ (v[i] as u64)).wrapping_mul(0x100000001b3u64);
        proof {
            assert(v@.take(i + 1).drop_last() =~= v@.take(i as int));
            assert(v@.take(i + 1).last() == v@[i as int]);
        }
        i = i + 1;
    }
    proof {
        assert(v@.take(v@.len() as int) =~= v@);
    }
    h
}

} // verus!
