//! Operations on 128-bit SimHash values: Hamming distance and byte conversion.
//!
//! The hash itself is computed from floating-point projections outside this
//! crate's verified core; everything here works on the finished `u128`.

use vstd::prelude::*;

use super::error::ElidError;
use crate::bits::{be_bytes_to_u128, be_value, lemma_be_value_injective, count_ones_u128, lemma_popcount_zero, popcount, u128_to_be_bytes};

verus! {

/// The BLAKE3 digest (32 bytes) of a byte string.
pub uninterp spec fn blake3_digest(input: Seq<u8>) -> Seq<u8>;

/// Calls `blake3::hash` and returns the digest's bytes (`Hash::as_bytes`).
/// The contract names the result as the BLAKE3 digest of the input, a
/// function of the input bytes alone; nothing more is claimed of it.
#[verifier::external_body]
pub(crate) fn blake3_hash(input: &[u8]) -> (r: [u8; 32])
    ensures
        r@ == blake3_digest(input@),
{
    *blake3::hash(input).as_bytes()
}

/// Little-endian bytes of a 64-bit value.
pub open spec fn le64_bytes(x: u64) -> Seq<u8> {
    Seq::new(8, |i: int| ((x >> (8 * i) as u64) & 0xffu64) as u8)
}

/// Little-endian bytes of a 16-bit value.
pub open spec fn le16_bytes(x: u16) -> Seq<u8> {
    seq![(x & 0xffu16) as u8, (x >> 8u16) as u8]
}

/// Appends the little-endian bytes of a 64-bit value.
pub(crate) fn push_le64(out: &mut Vec<u8>, x: u64)
    ensures
        final(out)@ == old(out)@ + le64_bytes(x),
{
    let ghost start = out@;
    let mut i: u64 = 0;
    while i < 8
        invariant
            i <= 8,
            out@ == start + le64_bytes(x).take(i as int),
        decreases 8 - i,
    {
        out.push(((x >> (8 * i)) & 0xff) as u8);
        assert(out@ =~= start + le64_bytes(x).take(i + 1));
        i = i + 1;
    }
    assert(le64_bytes(x).take(8) =~= le64_bytes(x));
}

/// Seed for the random projection of one SimHash bit: the BLAKE3 digest of
/// the base seed's 8 little-endian bytes followed by the bit index.
pub fn derive_bit_seed(base_seed: u64, bit_idx: u8) -> (r: [u8; 32])
    ensures
        r@ == blake3_digest(le64_bytes(base_seed).push(bit_idx)),
{
    let mut input: Vec<u8> = Vec::new();
    push_le64(&mut input, base_seed);
    input.push(bit_idx);
    blake3_hash(input.as_slice())
}

/// Number of bit positions at which two 128-bit hashes differ.
pub open spec fn spec_hash_distance(a: u128, b: u128) -> nat {
    popcount((a ^ b) as nat)
}

/// Computes the Hamming distance between two 128-bit hashes.
#[must_use]
pub fn elid_hamming_distance(a: u128, b: u128) -> (r: u32)
    ensures
        r == spec_hash_distance(a, b),
        r <= 128,
{
    count_ones_u128(a ^ b)
}

/// The Hamming distance between 128-bit hashes is symmetric, zero exactly on
/// equal hashes, and at most 128.
pub proof fn lemma_hash_distance_metric(a: u128, b: u128)
    ensures
        spec_hash_distance(a, b) == spec_hash_distance(b, a),
        spec_hash_distance(a, b) == 0 <==> a == b,
{
    assert(a ^ b == b ^ a) by (bit_vector);
    assert(a ^ b == 0 <==> a == b) by (bit_vector);
    lemma_popcount_zero((a ^ b) as nat);
}

/// Converts a 128-bit hash to 16 big-endian bytes.
#[must_use]
pub fn simhash_to_bytes(hash: u128) -> (bytes: [u8; 16])
    ensures
        bytes@.len() == 16,
        be_value(bytes@) == hash,
{
    u128_to_be_bytes(hash)
}

/// Reads a 128-bit hash from exactly 16 big-endian bytes.
pub fn simhash_from_bytes(bytes: &[u8]) -> (r: Result<u128, ElidError>)
    ensures
        match r {
            Ok(hash) => bytes@.len() == 16 && hash == be_value(bytes@),
            Err(e) => bytes@.len() != 16 && e == ElidError::InvalidEncoding,
        },
{
    if bytes.len() != 16 {
        return Err(ElidError::InvalidEncoding);
    }
    Ok(be_bytes_to_u128(bytes))
}

/// Writing back the hash read from 16 bytes gives the same 16 bytes: any two
/// 16-byte strings that denote the same hash are equal.
pub proof fn lemma_simhash_bytes_roundtrip(bytes: Seq<u8>, written: Seq<u8>)
    requires
        bytes.len() == 16,
        written.len() == 16,
        be_value(written) == be_value(bytes),
    ensures
        written == bytes,
{
    lemma_be_value_injective(written, bytes);
}

} // verus!
