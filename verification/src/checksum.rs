//! The checksum that tells one source version from another.
use vstd::prelude::*;

verus! {

/// What the checksum of no bytes is.
pub const FNV_OFFSET_BASIS: u64 = 0xcbf29ce484222325;

/// What the checksum is multiplied by for each byte.
pub const FNV_PRIME: u64 = 0x100000001b3;

/// The 64-bit FNV-1a checksum of `data`.
pub open spec fn fnv1a64_of(data: Seq<u8>) -> u64
    decreases data.len(),
{
    if data.len() == 0 {
        FNV_OFFSET_BASIS
    } else {
        let before = fnv1a64_of(data.drop_last());
        (((before ^ data.last() as u64) * FNV_PRIME) % 0x1_0000_0000_0000_0000) as u64
    }
}

/// Deterministic, non-cryptographic checksum by which most sources that merely have the same length
/// as the original are told from it.
pub fn fnv1a64(data: &[u8]) -> (hash: u64)
    ensures
        hash == fnv1a64_of(data@),
{
    let mut hash: u64 = FNV_OFFSET_BASIS;
    let mut i: usize = 0;
    while i < data.len()
        invariant
            i <= data.len(),
            hash == fnv1a64_of(data@.take(i as int)),
        decreases data.len() - i,
    {
        let byte: u8 = data[i];
        hash = (hash ^ byte as u64).wrapping_mul(FNV_PRIME);
        i = i + 1;
        assert(data@.take(i as int).drop_last() =~= data@.take(i - 1));
    }
    assert(data@.take(i as int) =~= data@);
    hash
}

} // verus!
