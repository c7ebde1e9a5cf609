//! Shard selection: a primary key's shard is its hash modulo the shard
//! count.

use vstd::prelude::*;

verus! {

/// The 64-bit hash of a byte string, as the outside hasher computes it:
/// a pure function of the bytes.
pub uninterp spec fn fx_hash64_of(bytes: Seq<u8>) -> u64;

/// Relies on fxhash::hash64: the hasher starts from a fixed state and
/// the result depends on the bytes alone.
#[verifier::external_body]
fn hash64_bytes(b: &[u8]) -> (r: u64)
    ensures
        r == fx_hash64_of(b@),
{
    fxhash::hash64(b)
}

/// The shard a primary key lives in, among `n` shards.
pub open spec fn spec_segment_of(pk: Seq<u8>, n: int) -> int {
    fx_hash64_of(pk) as int % n
}

/// Pick the shard for a primary key.
pub fn segment_of(primary_key: &[u8], n: usize) -> (r: usize)
    requires
        n > 0,
    ensures
        r as int == spec_segment_of(primary_key@, n as int),
        r < n,
{
    let h = hash64_bytes(primary_key);
    (h % (n as u64)) as usize
}

} // verus!
