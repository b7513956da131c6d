//! Keys for the hash-bucketed map.
//!
//! A map key supplies a stable 64-bit hash that is a pure function of the
//! key's abstract value, and an equality test at that same level.  The map
//! places an entry by `hash mod bucket count`, so agreement between the hash
//! and equality is what makes a later lookup find what an insert placed.

use vstd::prelude::*;

verus! {

/// The offset basis of the 64-bit FNV-1a hash.
pub const FNV_OFFSET: u64 = 0xcbf29ce484222325;

/// The prime of the 64-bit FNV-1a hash.
pub const FNV_PRIME: u64 = 0x100000001b3;

/// One FNV-1a round: fold the next byte into the running hash.
pub open spec fn fnv1a_step(h: u64, b: u8) -> u64 {
    vstd::wrapping::u64_specs::wrapping_mul(h ^ (b as u64), FNV_PRIME)
}

/// The 64-bit FNV-1a hash of a byte sequence, folded left to right.
pub open spec fn fnv1a(bytes: Seq<u8>) -> u64
    decreases bytes.len(),
{
    if bytes.len() == 0 {
        FNV_OFFSET
    } else {
        fnv1a_step(fnv1a(bytes.drop_last()), bytes.last())
    }
}

/// Computes the FNV-1a hash of a byte slice.
pub fn fnv1a_bytes(bytes: &[u8]) -> (h: u64)
    ensures
        h == fnv1a(bytes@),
{
    let mut h = FNV_OFFSET;
    let mut k: usize = 0;
    while k < bytes.len()
        invariant
            k <= bytes@.len(),
            h == fnv1a(bytes@.take(k as int)),
        decreases bytes@.len() - k,
    {
        h = (h ^ (bytes[k] as u64)).wrapping_mul(FNV_PRIME);
        proof {
            assert(bytes@.take(k + 1 as int).drop_last() =~= bytes@.take(k as int));
            assert(bytes@.take(k + 1 as int).last() == bytes@[k as int]);
        }
        k = k + 1;
    }
    proof {
        assert(bytes@.take(bytes@.len() as int) =~= bytes@);
    }
    h
}

/// A key the map can hash and compare.  The hash is a function of the key's
/// abstract value alone, so equal keys always land in the same bucket.
pub trait MapKey: View + Sized {
    /// The key's hash, as a function of its abstract value.
    spec fn hash_of(v: Self::V) -> u64;

    /// Computes the hash of this key.
    fn key_hash(&self) -> (h: u64)
        ensures
            h == Self::hash_of(self@),
    ;

    /// Decides whether two keys have the same abstract value.
    fn key_eq(&self, other: &Self) -> (r: bool)
        ensures
            r <==> self@ == other@,
    ;

    /// A key with the same abstract value as this one.
    fn key_clone(&self) -> (r: Self)
        ensures
            r@ == self@,
    ;
}

impl MapKey for u64 {
    /// An integer key stands for itself.
    open spec fn hash_of(v: u64) -> u64 {
        v
    }

    fn key_hash(&self) -> u64 {
        *self
    }

    fn key_eq(&self, other: &Self) -> bool {
        *self == *other
    }

    fn key_clone(&self) -> Self {
        *self
    }
}

impl MapKey for String {
    /// A string key hashes as the FNV-1a hash of its UTF-8 bytes.
    open spec fn hash_of(v: Seq<char>) -> u64 {
        fnv1a(vstd::utf8::encode_utf8(v))
    }

    fn key_hash(&self) -> u64 {
        fnv1a_bytes(self.as_str().as_bytes())
    }

    fn key_eq(&self, other: &Self) -> bool {
        *self == *other
    }

    fn key_clone(&self) -> Self {
        self.clone()
    }
}

} // verus!
