//! A stable, deterministic 32-bit content hash over byte sequences, used
//! downstream to fingerprint serialized state.

use vstd::prelude::*;

verus! {

/// The XXH32 digest, with seed 0, of a byte sequence: a fixed function of
/// the bytes alone, the same in every process and on every machine.
pub uninterp spec fn xxhash32_of(data: Seq<u8>) -> u32;

/// Relies on twox_hash::XxHash32::oneshot: the XXH32 digest is computed
/// from the seed and the input bytes alone.
#[verifier::external_body]
fn xxhash32(data: &[u8]) -> (r: u32)
    ensures
        r == xxhash32_of(data@),
{
    twox_hash::XxHash32::oneshot(0, data)
}

/// The stable content hash of `data`. Fixed at 32 bits, narrower than the
/// natural word size, because the persisted-state format this feeds into
/// stores integers in a signed 64-bit representation and the narrow value
/// keeps headroom there; the width is a cross-component contract.
pub fn hash(data: &[u8]) -> (r: u32)
    ensures
        r == xxhash32_of(data@),
{
    xxhash32(data)
}

/// The hash is deterministic: equal byte sequences hash equal, across
/// repeated calls and across process runs.
pub proof fn lemma_hash_deterministic(a: Seq<u8>, b: Seq<u8>)
    requires
        a =~= b,
    ensures
        xxhash32_of(a) == xxhash32_of(b),
{
}

} // verus!
