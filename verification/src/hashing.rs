//! Deterministic single-value and ordered-pair hashing, the primitive every
//! tree level is built from. `std`'s `DefaultHasher` supplies the algorithm;
//! what matters to the rest of the library is only that the result is a
//! function of the bytes written, which `vstd`'s model of `DefaultHasher`
//! states.

use std::collections::hash_map::DefaultHasher;
use std::hash::Hasher;
use vstd::bytes::spec_u64_to_le_bytes;
use vstd::bytes::u64_to_le_bytes;
use vstd::prelude::*;
use vstd::std_specs::hash::DefaultHasherAdditionalSpecFns;

verus! {

/// The hash of a single value: what `DefaultHasher` yields after the value's
/// eight little-endian bytes are written to it.
pub open spec fn spec_hash_single(value: u64) -> u64 {
    DefaultHasher::spec_finish(seq![spec_u64_to_le_bytes(value)])
}

/// The hash of an ordered pair: what `DefaultHasher` yields after the bytes
/// of `first`, then the bytes of `second`, are written to it. The order of
/// the writes encodes which operand is the left child.
pub open spec fn spec_hash_pair(first: u64, second: u64) -> u64 {
    DefaultHasher::spec_finish(
        seq![spec_u64_to_le_bytes(first), spec_u64_to_le_bytes(second)],
    )
}

/// Returns the hash of a single value.
pub fn hash_single(value: u64) -> (r: u64)
    ensures
        r == spec_hash_single(value),
{
    let mut hasher = DefaultHasher::new();
    let bytes = u64_to_le_bytes(value);
    hasher.write(bytes.as_slice());
    proof {
        assert(hasher@ =~= seq![spec_u64_to_le_bytes(value)]);
    }
    hasher.finish()
}

/// Returns the hash resulting from combining two values in order.
pub fn hash_pair(first: u64, second: u64) -> (r: u64)
    ensures
        r == spec_hash_pair(first, second),
{
    let mut hasher = DefaultHasher::new();
    let first_bytes = u64_to_le_bytes(first);
    hasher.write(first_bytes.as_slice());
    let second_bytes = u64_to_le_bytes(second);
    hasher.write(second_bytes.as_slice());
    proof {
        assert(hasher@ =~= seq![
            spec_u64_to_le_bytes(first),
            spec_u64_to_le_bytes(second),
        ]);
    }
    hasher.finish()
}

} // verus!
