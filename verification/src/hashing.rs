//! The streaming hash accumulator, taken from the `seahash` crate.
//!
//! Nothing in this file is proved: each contract states what the `seahash`
//! source shows of the function it names.

use seahash::SeaHasher;
use std::hash::Hasher;
use vstd::prelude::*;

verus! {

/// `seahash::SeaHasher`, of which the proofs see nothing but what is named
/// below.
#[verifier::external_type_specification]
#[verifier::external_body]
pub struct ExSeaHasher(SeaHasher);

/// The bytes that a hasher has been given since it was made, in the order in
/// which they were written. The hasher keeps four lanes of state, a count and
/// a tail of up to seven bytes; together they depend on these bytes alone, not
/// on how the bytes were split over calls of `write`.
pub uninterp spec fn hasher_input(hasher: SeaHasher) -> Seq<u8>;

/// The 64-bit state that `finish` reports for a hasher made by
/// `SeaHasher::new` to which exactly `data` has been written.
pub uninterp spec fn sea_hash(data: Seq<u8>) -> u64;

/// `SeaHasher::new`: a hasher with the crate's fixed seeds, to which nothing
/// has been written yet.
#[verifier::external_body]
pub(crate) fn hasher_new() -> (hasher: SeaHasher)
    ensures
        hasher_input(hasher) == Seq::<u8>::empty(),
{
    SeaHasher::new()
}

/// `Hasher::write` of `SeaHasher`: folds `bytes` in after what was written
/// before. The hasher counts the bytes it has taken in a `u64`, so the total
/// has to stay within one.
#[verifier::external_body]
pub(crate) fn hasher_write(hasher: &mut SeaHasher, bytes: &[u8])
    requires
        hasher_input(*old(hasher)).len() + bytes@.len() <= u64::MAX,
    ensures
        hasher_input(*final(hasher)) == hasher_input(*old(hasher)) + bytes@,
{
    hasher.write(bytes)
}

/// `Hasher::finish` of `SeaHasher`: the state for the bytes written so far.
/// The hasher is left as it was and can take more bytes.
#[verifier::external_body]
pub(crate) fn hasher_finish(hasher: &SeaHasher) -> (state: u64)
    requires
        hasher_input(*hasher).len() <= u64::MAX,
    ensures
        state == sea_hash(hasher_input(*hasher)),
{
    hasher.finish()
}

} // verus!
