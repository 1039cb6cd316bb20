//! Key hashing policy: a keyed (seeded) hash so that distinct table
//! instances probe in different orders, resisting algorithmic-complexity
//! attacks.  The table relies only on the contract below: the same key and
//! seed always give the same hash, and key equality agrees with mathematical
//! equality.

use vstd::prelude::*;

verus! {

/// A 64-bit finalising mixer: XOR-shifts and odd-constant multiplications,
/// a bijection on 64-bit words.
pub open spec fn mix64(x: u64) -> u64 {
    let a = (x ^ (x >> 33)).wrapping_mul(0xff51afd7ed558ccd);
    let b = (a ^ (a >> 33)).wrapping_mul(0xc4ceb9fe1a85ec53);
    b ^ (b >> 33)
}

/// A key type the table can store: it offers a deterministic, seedable hash
/// and an equality test that agrees with mathematical equality.
pub trait HashKey: Sized {
    /// The hash of this key under `seed`: a pure function of key and seed.
    spec fn hash_spec(&self, seed: u64) -> u64;

    /// Computes the hash; the same key and seed always give the same value.
    fn hash_of(&self, seed: u64) -> (h: u64)
        ensures
            h == self.hash_spec(seed),
    ;

    /// Equality test on keys.
    fn eq_key(&self, other: &Self) -> (b: bool)
        ensures
            b == (self == other),
    ;
}

impl HashKey for u64 {
    closed spec fn hash_spec(&self, seed: u64) -> u64 {
        mix64(*self ^ seed)
    }

    fn hash_of(&self, seed: u64) -> (h: u64) {
        let x = *self ^ seed;
        let a = (x ^ (x >> 33)).wrapping_mul(0xff51afd7ed558ccd);
        let b = (a ^ (a >> 33)).wrapping_mul(0xc4ceb9fe1a85ec53);
        b ^ (b >> 33)
    }

    fn eq_key(&self, other: &Self) -> (b: bool) {
        *self == *other
    }
}

impl HashKey for u32 {
    closed spec fn hash_spec(&self, seed: u64) -> u64 {
        mix64((*self as u64) ^ seed)
    }

    fn hash_of(&self, seed: u64) -> (h: u64) {
        let x = (*self as u64) ^ seed;
        let a = (x ^ (x >> 33)).wrapping_mul(0xff51afd7ed558ccd);
        let b = (a ^ (a >> 33)).wrapping_mul(0xc4ceb9fe1a85ec53);
        b ^ (b >> 33)
    }

    fn eq_key(&self, other: &Self) -> (b: bool) {
        *self == *other
    }
}

/// Relies on rand::random: draws a fresh seed for a new table so that
/// distinct instances hash differently.  Nothing is promised of the value.
#[verifier::external_body]
pub(crate) fn random_seed() -> u64 {
    rand::random::<u64>()
}

} // verus!
