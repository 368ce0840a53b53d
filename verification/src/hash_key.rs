//! Keys for the hash map.
//!
//! A key type provides a hash and an equality test, both tied to the key's
//! abstract value (its view): the hash is a function of the view alone, so
//! equal keys always hash alike, and the equality test decides equality of
//! views. Hash values for unequal keys may collide; the map resolves
//! collisions by chaining.

use std::collections::hash_map::DefaultHasher;
use std::hash::Hasher;
use vstd::prelude::*;
use vstd::std_specs::hash::DefaultHasherAdditionalSpecFns;
use vstd::utf8::encode_utf8;

verus! {

/// A type usable as a hash-map key.
///
/// `key_hash` is a specification-level function of the key's view, which
/// makes the hash deterministic by construction: two keys with equal views
/// hash to the same value, within one process and across rehashes.
pub trait HashKey: View + Sized {
    /// The hash of a key with abstract value `v`.
    spec fn key_hash(v: Self::V) -> u64;

    /// Computes the hash of `self`.
    fn hash_code(&self) -> (h: u64)
        ensures
            h == Self::key_hash(self@),
    ;

    /// Decides whether `self` and `other` have the same abstract value.
    fn key_eq(&self, other: &Self) -> (r: bool)
        ensures
            r == (self@ == other@),
    ;
}

impl HashKey for String {
    open spec fn key_hash(v: Seq<char>) -> u64 {
        DefaultHasher::spec_finish(seq![encode_utf8(v)])
    }

    fn hash_code(&self) -> (h: u64) {
        let mut hasher = DefaultHasher::new();
        hasher.write(self.as_str().as_bytes());
        let h = hasher.finish();
        proof {
            assert(hasher@ =~= seq![encode_utf8(self@)]);
        }
        h
    }

    fn key_eq(&self, other: &Self) -> (r: bool) {
        <String as PartialEq>::eq(self, other)
    }
}

impl HashKey for u64 {
    open spec fn key_hash(v: u64) -> u64 {
        v
    }

    fn hash_code(&self) -> (h: u64) {
        *self
    }

    fn key_eq(&self, other: &Self) -> (r: bool) {
        *self == *other
    }
}

impl HashKey for u32 {
    open spec fn key_hash(v: u32) -> u64 {
        v as u64
    }

    fn hash_code(&self) -> (h: u64) {
        *self as u64
    }

    fn key_eq(&self, other: &Self) -> (r: bool) {
        *self == *other
    }
}

impl HashKey for usize {
    open spec fn key_hash(v: usize) -> u64 {
        v as u64
    }

    fn hash_code(&self) -> (h: u64) {
        *self as u64
    }

    fn key_eq(&self, other: &Self) -> (r: bool) {
        *self == *other
    }
}

impl HashKey for i32 {
    open spec fn key_hash(v: i32) -> u64 {
        (v as i64 - i32::MIN as i64) as u64
    }

    fn hash_code(&self) -> (h: u64) {
        (*self as i64 - i32::MIN as i64) as u64
    }

    fn key_eq(&self, other: &Self) -> (r: bool) {
        *self == *other
    }
}

impl HashKey for i64 {
    open spec fn key_hash(v: i64) -> u64 {
        (v as i128 - i64::MIN as i128) as u64
    }

    fn hash_code(&self) -> (h: u64) {
        (*self as i128 - i64::MIN as i128) as u64
    }

    fn key_eq(&self, other: &Self) -> (r: bool) {
        *self == *other
    }
}

} // verus!
