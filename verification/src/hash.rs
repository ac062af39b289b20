//! Keccak-256.

use crate::primitives::{FixedBytes, B256};
use vstd::prelude::*;

verus! {

/// The Keccak-256 digest of `bytes`, as `alloy_primitives::keccak256` computes it.
pub uninterp spec fn keccak256_digest(bytes: Seq<u8>) -> Seq<u8>;

/// Calls `alloy_primitives::keccak256`, a function of the bytes alone, whose result is named
/// [`keccak256_digest`].
#[verifier::external_body]
pub(crate) fn keccak256(bytes: &[u8]) -> (r: B256)
    ensures
        r@ == keccak256_digest(bytes@),
{
    FixedBytes { bytes: alloy_primitives::keccak256(bytes).0 }
}

} // verus!
