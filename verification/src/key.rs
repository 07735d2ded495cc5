//! Keys of the table: what can be hashed, compared and copied.

use std::collections::hash_map::DefaultHasher;
use std::hash::Hash;
use std::hash::Hasher;
use vstd::prelude::*;
use vstd::std_specs::hash::DefaultHasherAdditionalSpecFns;

verus! {

/// A type whose values can serve as keys of the table.
///
/// A key is known to the table by its view: two keys are the same key exactly
/// when their views are equal, and the hash of a key depends on its view alone.
pub trait TableKey: View + Sized {
    /// The hash of the key with view `id`.
    spec fn spec_hash(id: Self::V) -> u64;

    /// Computes the hash of the key.
    fn hash_value(&self) -> (h: u64)
        ensures
            h == Self::spec_hash(self@),
    ;

    /// Tells whether `other` is the same key.
    fn same_key(&self, other: &Self) -> (b: bool)
        ensures
            b == (self@ == other@),
    ;

    /// Makes another value of the same key.
    fn duplicate(&self) -> (c: Self)
        ensures
            c@ == self@,
    ;
}

/// What hashing an `i32` writes into a hasher: a sequence of writes.
pub uninterp spec fn i32_hash_writes(key: i32) -> Seq<Seq<u8>>;

/// What hashing a string writes into a hasher: a sequence of writes.
pub uninterp spec fn string_hash_writes(key: Seq<char>) -> Seq<Seq<u8>>;

/// Calls `<i32 as Hash>::hash` with a `DefaultHasher`. Not proved: that the
/// call only appends writes to the hasher, and that these writes are determined
/// by the integer.
#[verifier::external_body]
fn feed_i32(key: &i32, hasher: &mut DefaultHasher)
    ensures
        final(hasher)@ == old(hasher)@ + i32_hash_writes(*key),
{
    key.hash(hasher)
}

/// Calls `<String as Hash>::hash` with a `DefaultHasher`. Not proved: that the
/// call only appends writes to the hasher, and that these writes are determined
/// by the characters of the string.
#[verifier::external_body]
fn feed_string(key: &String, hasher: &mut DefaultHasher)
    ensures
        final(hasher)@ == old(hasher)@ + string_hash_writes(key@),
{
    key.hash(hasher)
}

impl TableKey for i32 {
    open spec fn spec_hash(id: i32) -> u64 {
        DefaultHasher::spec_finish(i32_hash_writes(id))
    }

    fn hash_value(&self) -> (h: u64) {
        let mut hasher = DefaultHasher::new();
        feed_i32(self, &mut hasher);
        assert(hasher@ =~= i32_hash_writes(*self));
        hasher.finish()
    }

    fn same_key(&self, other: &Self) -> (b: bool) {
        *self == *other
    }

    fn duplicate(&self) -> (c: Self) {
        *self
    }
}

impl TableKey for String {
    open spec fn spec_hash(id: Seq<char>) -> u64 {
        DefaultHasher::spec_finish(string_hash_writes(id))
    }

    fn hash_value(&self) -> (h: u64) {
        let mut hasher = DefaultHasher::new();
        feed_string(self, &mut hasher);
        assert(hasher@ =~= string_hash_writes(self@));
        hasher.finish()
    }

    fn same_key(&self, other: &Self) -> (b: bool) {
        *self == *other
    }

    fn duplicate(&self) -> (c: Self) {
        self.clone()
    }
}

} // verus!
