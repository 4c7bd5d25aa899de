//! Reversible full vector encoding: a 12-byte header followed by the vector's
//! values at a chosen precision.
//!
//! Values travel as integers: IEEE-754 single-precision bit patterns (Full32),
//! half-precision bit patterns (Half16), or quantization levels together with
//! the bit patterns of the range they were taken from (Quant8 and custom bit
//! depths). Custom depths are packed MSB first, one value after the other.

use vstd::prelude::*;

use super::error::{decimal, hex_char, profile_type_label, push_decimal, ElidError};
use super::vector_simhash::{blake3_digest, blake3_hash, le16_bytes, le64_bytes, push_le64};
use super::types::{
    be16, be16_bytes, be32, full_vector_header_info, lemma_header_roundtrip, mode_error, mode_from_byte,
    mode_valid, parse_header, precision_error, precision_from_byte, precision_valid,
    spec_output_dims, spec_to_header, DimensionMode, ProfileInfo, VectorPrecision,
};

verus! {

/// Size of the full vector header in bytes.
pub const FULL_VECTOR_HEADER_SIZE: usize = 12;

// ============================================================================
// Bit streams
// ============================================================================

/// Bit `i` (0 = most significant) of a byte.
pub open spec fn byte_bit(b: u8, i: u32) -> bool {
    (b >> ((7 - i) as u8)) & 1u8 == 1u8
}

/// Bit `j` (0 = least significant) of a 32-bit word.
pub open spec fn word_bit(v: u32, j: u32) -> bool {
    (v >> j) & 1u32 == 1u32
}

/// Bit `k` of a byte string read as a stream, most significant bit of each
/// byte first.
pub open spec fn stream_bit(s: Seq<u8>, k: int) -> bool {
    byte_bit(s[k / 8], (k % 8) as u32)
}

/// Bit `j` of the `bits`-bit field of `v`, counted from its most significant
/// end (bit 0 is bit `bits - 1` of `v`).
pub open spec fn field_bit(v: u32, bits: int, j: int) -> bool {
    word_bit(v, (bits - 1 - j) as u32)
}

/// Whether `v` fits in `bits` bits.
pub open spec fn fits_in_bits(v: u32, bits: u8) -> bool {
    bits >= 32 || v >> (bits as u32) == 0
}

/// Writing an `n`-bit chunk of `value` (its bits `shift + n - 1` down to
/// `shift`) into bits `cb .. cb + n` of a byte leaves the other bits alone.
proof fn lemma_pack_chunk(old: u8, value: u32, cb: u32, n: u32, shift: u32, i: u32)
    by (bit_vector)
    requires
        cb < 8,
        1 <= n <= 8 - cb,
        shift + n <= 32,
        i < 8,
    ensures
        byte_bit(
            old | (((value >> shift) & (((1u32 << n) - 1) as u8) as u32) as u8) << ((8 - cb
                - n) as u8),
            i,
        ) == (byte_bit(old, i) || (cb <= i < cb + n && word_bit(value, (shift + (cb + n - 1 - i)) as u32))),
{
}

/// Appending an `n`-bit chunk read from bits `cb .. cb + n` of a byte to an
/// accumulator shifts the accumulator up by `n`.
proof fn lemma_unpack_chunk(acc: u32, byte: u8, cb: u32, n: u32, j: u32)
    by (bit_vector)
    requires
        cb < 8,
        1 <= n <= 8 - cb,
        j < 32,
    ensures
        word_bit(
            (acc << n) | (((byte >> ((8 - cb - n) as u8)) & (((1u32 << n) - 1) as u8)) as u32),
            j,
        ) == if j < n {
            byte_bit(byte, (cb + n - 1 - j) as u32)
        } else {
            word_bit(acc, (j - n) as u32)
        },
{
}

/// ORs the low `bits` bits of `value` into `bytes`, MSB first, starting at bit
/// `bit_offset`; bits that fall past the end of `bytes` are dropped.
pub fn pack_value(bytes: &mut [u8], value: u32, bit_offset: usize, bits: u8)
    requires
        bits <= 32,
    ensures
        final(bytes)@.len() == old(bytes)@.len(),
        forall|k: int|
            0 <= k < 8 * old(bytes)@.len() ==> #[trigger] stream_bit(final(bytes)@, k) == (
            stream_bit(old(bytes)@, k) || (bit_offset <= k < bit_offset + bits && field_bit(
                value,
                bits as int,
                k - bit_offset,
            ))),
{
    let ghost orig = bytes@;
    let bits = bits as usize;
    let byte_idx = bit_offset / 8;
    let bit_within_byte = bit_offset % 8;

    let mut remaining_bits = bits;
    let mut current_byte = byte_idx;
    let mut current_bit = bit_within_byte;

    while remaining_bits > 0 && current_byte < bytes.len()
        invariant
            bytes@.len() == orig.len(),
            bits <= 32,
            remaining_bits <= bits,
            current_bit < 8,
            remaining_bits == 0 || current_byte * 8 + current_bit == bit_offset + (bits
                - remaining_bits),
            forall|k: int|
                0 <= k < 8 * orig.len() ==> #[trigger] stream_bit(bytes@, k) == (stream_bit(
                    orig,
                    k,
                ) || (bit_offset <= k < bit_offset + (bits - remaining_bits) && field_bit(
                    value,
                    bits as int,
                    k - bit_offset,
                ))),
        decreases remaining_bits,
    {
        let room = 8 - current_bit;
        let bits_in_this_byte = if room < remaining_bits {
            room
        } else {
            remaining_bits
        };
        let n32 = bits_in_this_byte as u32;
        let shift32 = (remaining_bits - bits_in_this_byte) as u32;
        let cb32 = current_bit as u32;
        proof {
            assert(1 <= (1u32 << n32) <= 256) by (bit_vector)
                requires
                    1 <= n32 <= 8,
            ;
        }
        let mask = ((1u32 << n32) - 1) as u8;
        let extracted = ((value >> shift32) & mask as u32) as u8;
        let byte_shift = (8 - cb32 - n32) as u8;
        let ghost before = bytes@;
        bytes[current_byte] = bytes[current_byte] | (extracted << byte_shift);
        proof {
            let consumed = bits - remaining_bits;
            assert forall|k: int| 0 <= k < 8 * orig.len() implies #[trigger] stream_bit(bytes@, k)
                == (stream_bit(orig, k) || (bit_offset <= k < bit_offset + consumed
                + bits_in_this_byte && field_bit(value, bits as int, k - bit_offset))) by {
                assert(stream_bit(before, k) == byte_bit(before[k / 8], (k % 8) as u32));
                if k / 8 == current_byte {
                    let i = (k % 8) as u32;
                    lemma_pack_chunk(before[current_byte as int], value, cb32, n32, shift32, i);
                    assert(k == current_byte * 8 + i);
                } else {
                    assert(bytes@[k / 8] == before[k / 8]);
                    assert(k < current_byte * 8 || k >= current_byte * 8 + 8);
                }
            }
        }
        remaining_bits = remaining_bits - bits_in_this_byte;
        current_byte = current_byte + 1;
        current_bit = 0;
    }
}

/// Number of the `bits` bits starting at `bit_offset` that lie within a
/// stream of `len` bytes.
pub open spec fn bits_available(len: nat, bit_offset: nat, bits: nat) -> nat {
    if bit_offset >= 8 * len {
        0
    } else if bit_offset + bits <= 8 * len {
        bits
    } else {
        (8 * len - bit_offset) as nat
    }
}

/// Whether `r` is what reading `bits` bits of `s` at `bit_offset` gives: bit
/// `j` of `r` is the `j`-th bit from the end of the bits that lie within the
/// stream, and bits beyond those are zero.
pub open spec fn is_unpacked(s: Seq<u8>, bit_offset: nat, bits: nat, r: u32) -> bool {
    let a = bits_available(s.len(), bit_offset, bits);
    forall|j: u32| j < 32 ==> #[trigger] word_bit(r, j) == (j < a && stream_bit(s, bit_offset + a - 1 - j))
}

/// Reads `bits` bits of `bytes`, MSB first, starting at bit `bit_offset`, as
/// a big-endian number; reading stops at the end of `bytes`, and only the
/// low 32 bits of the number are kept.
pub fn unpack_value(bytes: &[u8], bit_offset: usize, bits: u8) -> (r: u32)
    ensures
        is_unpacked(bytes@, bit_offset as nat, bits as nat, r),
{
    let bits = bits as usize;
    let byte_idx = bit_offset / 8;
    let bit_within_byte = bit_offset % 8;

    let mut value = 0u32;
    let mut remaining_bits = bits;
    let mut current_byte = byte_idx;
    let mut current_bit = bit_within_byte;

    proof {
        assert forall|j: u32| j < 32 implies !#[trigger] word_bit(0u32, j) by {
            assert(!word_bit(0u32, j)) by (bit_vector);
        }
    }
    while remaining_bits > 0 && current_byte < bytes.len()
        invariant
            bits <= 255,
            remaining_bits <= bits,
            current_bit < 8,
            remaining_bits == 0 || current_byte * 8 + current_bit == bit_offset + (bits
                - remaining_bits),
            remaining_bits == bits || current_bit == 0,
            current_byte * 8 + current_bit >= bit_offset,
            remaining_bits == bits || bit_offset + (bits - remaining_bits) <= 8 * bytes@.len(),
            forall|j: u32|
                j < 32 ==> #[trigger] word_bit(value, j) == (j < bits - remaining_bits
                    && stream_bit(bytes@, bit_offset + (bits - remaining_bits) - 1 - j)),
        decreases remaining_bits,
    {
        let room = 8 - current_bit;
        let bits_in_this_byte = if room < remaining_bits {
            room
        } else {
            remaining_bits
        };
        let n32 = bits_in_this_byte as u32;
        let cb32 = current_bit as u32;
        proof {
            assert(1 <= (1u32 << n32) <= 256) by (bit_vector)
                requires
                    1 <= n32 <= 8,
            ;
        }
        let byte_shift = (8 - cb32 - n32) as u8;
        let mask = ((1u32 << n32) - 1) as u8;
        let byte = bytes[current_byte];
        let extracted = (byte >> byte_shift) & mask;
        let ghost old_value = value;
        value = (value << n32) | extracted as u32;
        proof {
            let consumed = bits - remaining_bits;
            let p = bit_offset + consumed;
            assert forall|j: u32| j < 32 implies #[trigger] word_bit(value, j) == (j < consumed
                + bits_in_this_byte && stream_bit(
                bytes@,
                p + bits_in_this_byte - 1 - j,
            )) by {
                lemma_unpack_chunk(old_value, byte, cb32, n32, j);
                if j < n32 {
                    let k = p + bits_in_this_byte - 1 - j;
                    assert(k / 8 == current_byte && k % 8 == cb32 + n32 - 1 - j);
                } else {
                    assert(word_bit(old_value, (j - n32) as u32) == ((j - n32) < consumed
                        && stream_bit(bytes@, p - 1 - (j - n32))));
                }
            }
        }
        remaining_bits = remaining_bits - bits_in_this_byte;
        current_byte = current_byte + 1;
        current_bit = 0;
    }
    value
}

proof fn lemma_word_eq_down(a: u32, b: u32, n: u32)
    requires
        n <= 31,
        forall|j: u32| n <= j < 32 ==> #[trigger] word_bit(a, j) == word_bit(b, j),
    ensures
        a >> n == b >> n,
    decreases 31 - n,
{
    if n == 31 {
        assert(word_bit(a, 31) == word_bit(b, 31));
        assert(word_bit(a, 31) == word_bit(b, 31) ==> a >> 31u32 == b >> 31u32) by (bit_vector);
    } else {
        lemma_word_eq_down(a, b, (n + 1) as u32);
        assert(word_bit(a, n) == word_bit(b, n));
        let m = (n + 1) as u32;
        assert(a >> m == b >> m && word_bit(a, n) == word_bit(b, n) && n < 31 && m == n + 1
            ==> a >> n == b >> n) by (bit_vector);
    }
}

/// Two words with the same 32 bits are equal.
pub proof fn lemma_word_eq(a: u32, b: u32)
    requires
        forall|j: u32| j < 32 ==> #[trigger] word_bit(a, j) == word_bit(b, j),
    ensures
        a == b,
{
    lemma_word_eq_down(a, b, 0);
    assert(a >> 0u32 == a && b >> 0u32 == b) by (bit_vector);
}

/// A word that fits in `bits` bits has no set bit at or above `bits`.
proof fn lemma_fits_high_bits_clear(v: u32, bits: u8, j: u32)
    requires
        fits_in_bits(v, bits),
        bits <= j < 32,
    ensures
        !word_bit(v, j),
{
    let b = bits as u32;
    assert(v >> b == 0 && b <= j && j < 32 ==> (v >> j) & 1u32 != 1u32) by (bit_vector);
}

/// Reading back the field written into a zeroed region gives the value,
/// whenever the value fits and the field lies within the bytes.
pub proof fn lemma_unpack_pack_value(before: Seq<u8>, after: Seq<u8>, value: u32, bit_offset: nat, bits: u8, r: u32)
    requires
        bits <= 32,
        bit_offset + bits <= 8 * before.len(),
        fits_in_bits(value, bits),
        forall|k: int| bit_offset <= k < bit_offset + bits ==> !#[trigger] stream_bit(before, k),
        after.len() == before.len(),
        forall|k: int|
            0 <= k < 8 * before.len() ==> #[trigger] stream_bit(after, k) == (stream_bit(before, k)
                || (bit_offset <= k < bit_offset + bits && field_bit(value, bits as int, k - bit_offset))),
        is_unpacked(after, bit_offset, bits as nat, r),
    ensures
        r == value,
{
    assert forall|j: u32| j < 32 implies #[trigger] word_bit(r, j) == word_bit(value, j) by {
        if j < bits {
            let k = bit_offset + bits - 1 - j;
            assert(stream_bit(after, k) == field_bit(value, bits as int, k - bit_offset));
        } else {
            lemma_fits_high_bits_clear(value, bits, j);
        }
    }
    lemma_word_eq(r, value);
}

/// Bit `k` of the stream holding each of `levels` in `bits` bits, one after
/// the other, MSB first; zero past the last level.
pub open spec fn packed_level_bit(levels: Seq<u32>, bits: nat, k: int) -> bool {
    0 <= k < levels.len() * bits && field_bit(levels[k / bits as int], bits as int, k % bits as int)
}

/// Byte length of `n` values of `bits` bits each.
pub open spec fn packed_len(n: nat, bits: nat) -> nat {
    (n * bits + 7) / 8
}

proof fn lemma_field_index(k: int, i: int, bits: int)
    requires
        bits > 0,
        i >= 0,
        i * bits <= k < i * bits + bits,
    ensures
        k / bits == i,
        k % bits == k - i * bits,
{
    assert(k / bits == i && k % bits == k - i * bits) by (nonlinear_arith)
        requires
            bits > 0,
            i >= 0,
            i * bits <= k < i * bits + bits,
    ;
}

/// Whether `packed` holds `levels` at `bits` bits each, in the fewest bytes,
/// with the unused trailing bits zero.
pub open spec fn is_packing(packed: Seq<u8>, levels: Seq<u32>, bits: nat) -> bool {
    &&& packed.len() == packed_len(levels.len(), bits)
    &&& forall|k: int|
        0 <= k < 8 * packed.len() ==> #[trigger] stream_bit(packed, k) == packed_level_bit(
            levels,
            bits,
            k,
        )
}

/// Whether `r` holds the `n` values read from `packed` at `bits` bits each.
pub open spec fn are_unpacked(packed: Seq<u8>, bits: nat, n: nat, r: Seq<u32>) -> bool {
    &&& r.len() == n
    &&& forall|i: int| 0 <= i < n ==> is_unpacked(packed, (i * bits) as nat, bits, #[trigger] r[i])
}

/// Packs each level into `bits` bits, one after the other, MSB first, into
/// the fewest bytes that hold them (unused trailing bits are zero).
pub fn pack_levels(levels: &[u32], bits: u8) -> (r: Vec<u8>)
    requires
        1 <= bits <= 32,
        levels@.len() * 32 + 7 <= usize::MAX,
    ensures
        is_packing(r@, levels@, bits as nat),
{
    let n = levels.len();
    let b = bits as usize;
    proof {
        assert(n * b <= n * 32) by (nonlinear_arith)
            requires
                b <= 32,
        ;
    }
    let total_bits = n * b;
    let total_bytes = (total_bits + 7) / 8;
    let mut packed: Vec<u8> = Vec::new();
    let mut z: usize = 0;
    while z < total_bytes
        invariant
            z <= total_bytes,
            packed@.len() == z,
            forall|t: int| 0 <= t < z ==> packed@[t] == 0u8,
        decreases total_bytes - z,
    {
        packed.push(0u8);
        z = z + 1;
    }
    proof {
        assert forall|k: int| 0 <= k < 8 * packed@.len() implies !#[trigger] stream_bit(packed@, k) by {
            let i = (k % 8) as u32;
            assert(packed@[k / 8] == 0u8);
            assert(!byte_bit(0u8, i)) by (bit_vector);
        }
    }
    let mut i: usize = 0;
    while i < n
        invariant
            i <= n,
            n == levels@.len(),
            b == bits,
            1 <= bits <= 32,
            total_bits == n * b,
            packed@.len() == total_bytes,
            total_bytes == (total_bits + 7) / 8,
            n * 32 + 7 <= usize::MAX,
            forall|k: int|
                0 <= k < 8 * packed@.len() ==> #[trigger] stream_bit(packed@, k) == (k < i * b
                    && field_bit(levels@[k / b as int], b as int, k % b as int)),
        decreases n - i,
    {
        proof {
            assert(i * b + b <= n * b) by (nonlinear_arith)
                requires
                    i < n,
            ;
        }
        let offset = i * b;
        assert((i + 1) * b == offset + b) by (nonlinear_arith)
            requires
                offset == i * b,
        ;
        let ghost before = packed@;
        pack_value(packed.as_mut_slice(), levels[i], offset, bits);
        proof {
            assert forall|k: int| 0 <= k < 8 * packed@.len() implies #[trigger] stream_bit(packed@, k)
                == (k < (i + 1) * b && field_bit(levels@[k / b as int], b as int, k % b as int)) by {
                assert(stream_bit(before, k) == (k < i * b && field_bit(levels@[k / b as int], b as int, k % b as int)));
                if offset <= k < offset + b {
                    lemma_field_index(k, i as int, b as int);
                }
            }
        }
        i = i + 1;
    }
    packed
}

/// Reads `n` values of `bits` bits each, one after the other, from `packed`.
pub fn unpack_levels(packed: &[u8], bits: u8, n: usize) -> (r: Vec<u32>)
    requires
        n * bits <= usize::MAX,
    ensures
        are_unpacked(packed@, bits as nat, n as nat, r@),
{
    let b = bits as usize;
    let mut out: Vec<u32> = Vec::new();
    let mut i: usize = 0;
    while i < n
        invariant
            i <= n,
            b == bits,
            n * b <= usize::MAX,
            out@.len() == i,
            forall|t: int| 0 <= t < i ==> is_unpacked(packed@, (t * b) as nat, b as nat, #[trigger] out@[t]),
        decreases n - i,
    {
        proof {
            assert(i * b <= n * b) by (nonlinear_arith)
                requires
                    i < n,
            ;
        }
        let v = unpack_value(packed, i * b, bits);
        out.push(v);
        i = i + 1;
    }
    out
}

/// Unpacking a packing gives back the levels, whenever each fits in `bits`
/// bits.
pub proof fn lemma_unpack_pack_levels(levels: Seq<u32>, bits: u8, packed: Seq<u8>, r: Seq<u32>)
    requires
        1 <= bits <= 32,
        forall|i: int| 0 <= i < levels.len() ==> fits_in_bits(#[trigger] levels[i], bits),
        is_packing(packed, levels, bits as nat),
        are_unpacked(packed, bits as nat, levels.len(), r),
    ensures
        r == levels,
{
    let b = bits as int;
    let n = levels.len() as int;
    assert(8 * packed.len() >= n * b);
    assert forall|i: int| 0 <= i < n implies #[trigger] r[i] == levels[i] by {
        assert(is_unpacked(packed, (i * b) as nat, b as nat, r[i]));
        assert(i * b + b <= n * b) by (nonlinear_arith)
            requires
                0 <= i < n,
                b >= 1,
        ;
        assert(i * b >= 0) by (nonlinear_arith)
            requires
                0 <= i,
                b >= 1,
        ;
        assert forall|j: u32| j < 32 implies #[trigger] word_bit(r[i], j) == word_bit(levels[i], j) by {
            if j < bits {
                let k = i * b + b - 1 - j;
                lemma_field_index(k, i, b);
                assert(stream_bit(packed, k) == packed_level_bit(levels, b as nat, k));
            } else {
                lemma_fits_high_bits_clear(levels[i], bits, j);
            }
        }
        lemma_word_eq(r[i], levels[i]);
    }
    assert(r =~= levels);
}

// ============================================================================
// Byte codecs
// ============================================================================

/// Big-endian bytes of a 32-bit word.
pub open spec fn word_bytes(x: u32) -> Seq<u8> {
    seq![
        (x / 0x100_0000) as u8,
        ((x / 0x1_0000) % 256) as u8,
        ((x / 0x100) % 256) as u8,
        (x % 256) as u8,
    ]
}

/// Big-endian bytes of each word, one after the other.
pub open spec fn words_bytes(v: Seq<u32>) -> Seq<u8> {
    Seq::new(4 * v.len(), |k: int| word_bytes(v[k / 4])[k % 4])
}

/// Big-endian bytes of each 16-bit value, one after the other.
pub open spec fn halves_bytes(v: Seq<u16>) -> Seq<u8> {
    Seq::new(2 * v.len(), |k: int| be16_bytes(v[k / 2])[k % 2])
}

/// Words read from each group of four bytes, big-endian.
pub open spec fn bytes_words(b: Seq<u8>) -> Seq<u32> {
    Seq::new(b.len() / 4, |i: int| be32(b[4 * i], b[4 * i + 1], b[4 * i + 2], b[4 * i + 3]))
}

/// 16-bit values read from each pair of bytes, big-endian.
pub open spec fn bytes_halves(b: Seq<u8>) -> Seq<u16> {
    Seq::new(b.len() / 2, |i: int| be16(b[2 * i], b[2 * i + 1]))
}

proof fn lemma_word_bytes_be32(x: u32)
    ensures
        be32(word_bytes(x)[0], word_bytes(x)[1], word_bytes(x)[2], word_bytes(x)[3]) == x,
{
}

proof fn lemma_be16_bytes_be16(x: u16)
    ensures
        be16(be16_bytes(x)[0], be16_bytes(x)[1]) == x,
{
}

fn push_word(out: &mut Vec<u8>, x: u32)
    ensures
        final(out)@ == old(out)@ + word_bytes(x),
{
    out.push((x / 0x100_0000) as u8);
    out.push(((x / 0x1_0000) % 256) as u8);
    out.push(((x / 0x100) % 256) as u8);
    out.push((x % 256) as u8);
    assert(final(out)@ =~= old(out)@ + word_bytes(x));
}

/// Encodes single-precision values, given as their IEEE-754 bit patterns, as
/// four big-endian bytes each.
pub fn encode_full32(values: &[u32]) -> (r: Vec<u8>)
    ensures
        r@ == words_bytes(values@),
{
    let mut bytes: Vec<u8> = Vec::new();
    let mut i: usize = 0;
    while i < values.len()
        invariant
            i <= values@.len(),
            bytes@ == words_bytes(values@.take(i as int)),
        decreases values@.len() - i,
    {
        let ghost prev = bytes@;
        push_word(&mut bytes, values[i]);
        proof {
            assert(bytes@ =~= words_bytes(values@.take(i + 1))) by {
                assert(values@.take(i + 1).take(i as int) =~= values@.take(i as int));
            }
        }
        i = i + 1;
    }
    assert(values@.take(values@.len() as int) =~= values@);
    bytes
}

/// Decodes groups of four big-endian bytes to single-precision bit patterns.
///
/// Fails with `InvalidEncoding` unless the length is a multiple of 4.
pub fn decode_full32(bytes: &[u8]) -> (r: Result<Vec<u32>, ElidError>)
    ensures
        r is Ok <==> bytes@.len() % 4 == 0,
        r matches Ok(v) ==> v@ == bytes_words(bytes@),
        r matches Err(e) ==> e == ElidError::InvalidEncoding,
{
    if bytes.len() % 4 != 0 {
        return Err(ElidError::InvalidEncoding);
    }
    let n = bytes.len() / 4;
    let mut values: Vec<u32> = Vec::new();
    let mut i: usize = 0;
    while i < n
        invariant
            i <= n,
            n == bytes@.len() / 4,
            bytes@.len() % 4 == 0,
            bytes@.len() <= usize::MAX,
            values@ == bytes_words(bytes@).take(i as int),
        decreases n - i,
    {
        let j = 4 * i;
        let w = (((bytes[j] as u32) * 256 + (bytes[j + 1] as u32)) * 256 + (bytes[j + 2] as u32))
            * 256 + (bytes[j + 3] as u32);
        values.push(w);
        assert(values@ =~= bytes_words(bytes@).take(i + 1));
        i = i + 1;
    }
    assert(values@ =~= bytes_words(bytes@));
    Ok(values)
}

/// Encodes half-precision values, given as their IEEE-754 bit patterns, as two
/// big-endian bytes each.
pub fn encode_half16(values: &[u16]) -> (r: Vec<u8>)
    ensures
        r@ == halves_bytes(values@),
{
    let mut bytes: Vec<u8> = Vec::new();
    let mut i: usize = 0;
    while i < values.len()
        invariant
            i <= values@.len(),
            bytes@ == halves_bytes(values@.take(i as int)),
        decreases values@.len() - i,
    {
        let x = values[i];
        bytes.push((x / 256) as u8);
        bytes.push((x % 256) as u8);
        proof {
            assert(values@.take(i + 1).take(i as int) =~= values@.take(i as int));
            assert(bytes@ =~= halves_bytes(values@.take(i + 1)));
        }
        i = i + 1;
    }
    assert(values@.take(values@.len() as int) =~= values@);
    bytes
}

/// Decodes pairs of big-endian bytes to half-precision bit patterns.
///
/// Fails with `InvalidEncoding` unless the length is even.
pub fn decode_half16(bytes: &[u8]) -> (r: Result<Vec<u16>, ElidError>)
    ensures
        r is Ok <==> bytes@.len() % 2 == 0,
        r matches Ok(v) ==> v@ == bytes_halves(bytes@),
        r matches Err(e) ==> e == ElidError::InvalidEncoding,
{
    if bytes.len() % 2 != 0 {
        return Err(ElidError::InvalidEncoding);
    }
    let n = bytes.len() / 2;
    let mut values: Vec<u16> = Vec::new();
    let mut i: usize = 0;
    while i < n
        invariant
            i <= n,
            n == bytes@.len() / 2,
            bytes@.len() % 2 == 0,
            bytes@.len() <= usize::MAX,
            values@ == bytes_halves(bytes@).take(i as int),
        decreases n - i,
    {
        let j = 2 * i;
        let h = (bytes[j] as u16) * 256 + (bytes[j + 1] as u16);
        values.push(h);
        assert(values@ =~= bytes_halves(bytes@).take(i + 1));
        i = i + 1;
    }
    assert(values@ =~= bytes_halves(bytes@));
    Ok(values)
}

/// Decoding the Full32 encoding of bit patterns gives them back.
pub proof fn lemma_full32_roundtrip(v: Seq<u32>)
    ensures
        words_bytes(v).len() % 4 == 0,
        bytes_words(words_bytes(v)) == v,
{
    let b = words_bytes(v);
    assert forall|i: int| 0 <= i < v.len() implies #[trigger] bytes_words(b)[i] == v[i] by {
        assert((4 * i) / 4 == i && (4 * i + 1) / 4 == i && (4 * i + 2) / 4 == i && (4 * i + 3) / 4
            == i);
        lemma_word_bytes_be32(v[i]);
    }
    assert(bytes_words(b) =~= v);
}

/// Decoding the Half16 encoding of bit patterns gives them back.
pub proof fn lemma_half16_roundtrip(v: Seq<u16>)
    ensures
        halves_bytes(v).len() % 2 == 0,
        bytes_halves(halves_bytes(v)) == v,
{
    let b = halves_bytes(v);
    assert forall|i: int| 0 <= i < v.len() implies #[trigger] bytes_halves(b)[i] == v[i] by {
        assert((2 * i) / 2 == i && (2 * i + 1) / 2 == i);
        lemma_be16_bytes_be16(v[i]);
    }
    assert(bytes_halves(b) =~= v);
}

/// Quantization levels together with the bit patterns of the single-precision
/// minimum and maximum they were measured against.
#[derive(Clone, Debug)]
pub struct QuantizedValues {
    /// Bit pattern of the smallest value
    pub min_bits: u32,
    /// Bit pattern of the largest value
    pub max_bits: u32,
    /// One level per value
    pub levels: Vec<u32>,
}

/// The Quant8 layout: minimum, maximum, then one byte per level (its low 8 bits).
pub open spec fn quant8_bytes(min_bits: u32, max_bits: u32, levels: Seq<u32>) -> Seq<u8> {
    word_bytes(min_bits) + word_bytes(max_bits) + Seq::new(
        levels.len(),
        |i: int| (levels[i] % 256) as u8,
    )
}

/// Encodes 8-bit levels after the big-endian minimum and maximum bit patterns.
pub fn encode_quant8(levels: &[u32], min_bits: u32, max_bits: u32) -> (r: Vec<u8>)
    ensures
        r@ == quant8_bytes(min_bits, max_bits, levels@),
{
    let mut bytes: Vec<u8> = Vec::new();
    push_word(&mut bytes, min_bits);
    push_word(&mut bytes, max_bits);
    let ghost head = bytes@;
    let mut i: usize = 0;
    while i < levels.len()
        invariant
            i <= levels@.len(),
            head.len() == 8,
            head == word_bytes(min_bits) + word_bytes(max_bits),
            bytes@ == head + Seq::new(i as nat, |t: int| (levels@[t] % 256) as u8),
        decreases levels@.len() - i,
    {
        bytes.push((levels[i] % 256) as u8);
        assert(bytes@ =~= head + Seq::new((i + 1) as nat, |t: int| (levels@[t] % 256) as u8));
        i = i + 1;
    }
    bytes
}

/// Reads the minimum and maximum bit patterns from the first eight bytes.
fn read_range(bytes: &[u8]) -> (r: (u32, u32))
    requires
        bytes@.len() >= 8,
    ensures
        r.0 == be32(bytes@[0], bytes@[1], bytes@[2], bytes@[3]),
        r.1 == be32(bytes@[4], bytes@[5], bytes@[6], bytes@[7]),
{
    let lo = (((bytes[0] as u32) * 256 + (bytes[1] as u32)) * 256 + (bytes[2] as u32)) * 256 + (
    bytes[3] as u32);
    let hi = (((bytes[4] as u32) * 256 + (bytes[5] as u32)) * 256 + (bytes[6] as u32)) * 256 + (
    bytes[7] as u32);
    (lo, hi)
}

/// Whether `q` holds the range read from the first eight bytes of `b`.
pub open spec fn has_range_of(q: QuantizedValues, b: Seq<u8>) -> bool {
    &&& q.min_bits == be32(b[0], b[1], b[2], b[3])
    &&& q.max_bits == be32(b[4], b[5], b[6], b[7])
}

/// Decodes the Quant8 layout: the range, then one level per remaining byte.
///
/// Fails with `InsufficientData` when fewer than 8 bytes are given.
pub fn decode_quant8(bytes: &[u8]) -> (r: Result<QuantizedValues, ElidError>)
    ensures
        r is Ok <==> bytes@.len() >= 8,
        r matches Ok(q) ==> has_range_of(q, bytes@) && q.levels@ == Seq::new(
            (bytes@.len() - 8) as nat,
            |i: int| bytes@[8 + i] as u32,
        ),
        r matches Err(e) ==> e == (ElidError::InsufficientData { expected: 8, got: bytes@.len() as usize }),
{
    if bytes.len() < 8 {
        return Err(ElidError::InsufficientData { expected: 8, got: bytes.len() });
    }
    let (min_bits, max_bits) = read_range(bytes);
    let mut levels: Vec<u32> = Vec::new();
    let mut i: usize = 8;
    while i < bytes.len()
        invariant
            8 <= i <= bytes@.len(),
            levels@ == Seq::new((i - 8) as nat, |t: int| bytes@[8 + t] as u32),
        decreases bytes@.len() - i,
    {
        levels.push(bytes[i] as u32);
        assert(levels@ =~= Seq::new((i + 1 - 8) as nat, |t: int| bytes@[8 + t] as u32));
        i = i + 1;
    }
    Ok(QuantizedValues { min_bits, max_bits, levels })
}

/// Encodes levels of a custom bit depth after the big-endian minimum and
/// maximum bit patterns, packed MSB first.
///
/// Fails with `InvalidPrecision` unless `bits` is 1-32.
pub fn encode_bits(levels: &[u32], bits: u8, min_bits: u32, max_bits: u32) -> (r: Result<
    Vec<u8>,
    ElidError,
>)
    requires
        levels@.len() * 32 + 7 <= usize::MAX,
    ensures
        r is Ok <==> 1 <= bits <= 32,
        r matches Ok(b) ==> b@.len() >= 8 && b@.take(8) == word_bytes(min_bits) + word_bytes(
            max_bits,
        ) && is_packing(b@.skip(8), levels@, bits as nat),
        r matches Err(e) ==> precision_error(VectorPrecision::Bits { bits }, e),
{
    let precision = VectorPrecision::Bits { bits };
    precision.validate()?;
    let packed = pack_levels(levels, bits);
    let mut bytes: Vec<u8> = Vec::new();
    push_word(&mut bytes, min_bits);
    push_word(&mut bytes, max_bits);
    let ghost head = bytes@;
    let mut i: usize = 0;
    while i < packed.len()
        invariant
            i <= packed@.len(),
            head.len() == 8,
            head == word_bytes(min_bits) + word_bytes(max_bits),
            bytes@ == head + packed@.take(i as int),
        decreases packed@.len() - i,
    {
        bytes.push(packed[i]);
        assert(bytes@ =~= head + packed@.take(i + 1));
        i = i + 1;
    }
    assert(bytes@.take(8) =~= head);
    assert(bytes@.skip(8) =~= packed@);
    Ok(bytes)
}

/// Decodes the custom bit depth layout: the range, then `num_values` levels
/// of `bits` bits each.
///
/// Fails with `InsufficientData` when fewer than 8 bytes are given; levels
/// that run past the end keep only the bits present.
pub fn decode_bits(bytes: &[u8], bits: u8, num_values: usize) -> (r: Result<
    QuantizedValues,
    ElidError,
>)
    requires
        num_values * bits <= usize::MAX,
    ensures
        r is Ok <==> bytes@.len() >= 8,
        r matches Ok(q) ==> has_range_of(q, bytes@) && are_unpacked(
            bytes@.skip(8),
            bits as nat,
            num_values as nat,
            q.levels@,
        ),
        r matches Err(e) ==> e == (ElidError::InsufficientData { expected: 8, got: bytes@.len() as usize }),
{
    if bytes.len() < 8 {
        return Err(ElidError::InsufficientData { expected: 8, got: bytes.len() });
    }
    let (min_bits, max_bits) = read_range(bytes);
    let packed = &bytes[8..bytes.len()];
    assert(packed@ =~= bytes@.skip(8));
    let levels = unpack_levels(packed, bits, num_values);
    Ok(QuantizedValues { min_bits, max_bits, levels })
}

// ============================================================================
// Full vector encoding
// ============================================================================

/// The values of a full vector encoding, in the form its precision stores.
#[derive(Clone, Debug)]
pub enum VectorPayload {
    /// IEEE-754 single-precision bit patterns (Full32)
    Full32(Vec<u32>),
    /// IEEE-754 half-precision bit patterns (Half16)
    Half16(Vec<u16>),
    /// Quantization levels with their range (Quant8 and custom bit depths)
    Quantized(QuantizedValues),
}

/// Whether a payload has the form a precision stores, with `n` values.
pub open spec fn payload_matches(p: VectorPayload, precision: VectorPrecision, n: nat) -> bool {
    match precision {
        VectorPrecision::Full32 => p matches VectorPayload::Full32(v) && v@.len() == n,
        VectorPrecision::Half16 => p matches VectorPayload::Half16(v) && v@.len() == n,
        _ => p matches VectorPayload::Quantized(q) && q.levels@.len() == n,
    }
}

/// Whether `b` is the payload layout of `p` at a precision.
pub open spec fn encodes_payload(b: Seq<u8>, p: VectorPayload, precision: VectorPrecision) -> bool {
    match (precision, p) {
        (VectorPrecision::Full32, VectorPayload::Full32(v)) => b == words_bytes(v@),
        (VectorPrecision::Half16, VectorPayload::Half16(v)) => b == halves_bytes(v@),
        (VectorPrecision::Quant8, VectorPayload::Quantized(q)) => b == quant8_bytes(
            q.min_bits,
            q.max_bits,
            q.levels@,
        ),
        (VectorPrecision::Bits { bits }, VectorPayload::Quantized(q)) => {
            &&& b.len() >= 8
            &&& b.take(8) == word_bytes(q.min_bits) + word_bytes(q.max_bits)
            &&& is_packing(b.skip(8), q.levels@, bits as nat)
        },
        _ => false,
    }
}

/// Header information of a full vector encoding.
pub open spec fn full_vector_info(
    original_dims: u16,
    precision: VectorPrecision,
    dimensions: DimensionMode,
    seed: u64,
) -> ProfileInfo {
    ProfileInfo {
        version: 0,
        profile_type: 0x04,
        transform_id: None,
        model_id: None,
        original_dims: Some(original_dims),
        precision: Some(precision),
        dimension_mode: Some(dimensions),
        seed: Some(seed),
    }
}

/// Encodes a full vector: the 12-byte header, then the payload at the given
/// precision.
///
/// The payload holds the values after any projection the dimension mode
/// calls for (`n` values, `n` being the mode's output dimension count).
/// Fails as `VectorPrecision::validate` and then `DimensionMode::validate`
/// do for invalid settings.
pub fn encode_full_vector(
    original_dims: u16,
    precision: VectorPrecision,
    dimensions: DimensionMode,
    seed: u64,
    payload: &VectorPayload,
) -> (r: Result<Vec<u8>, ElidError>)
    requires
        precision_valid(precision) && mode_valid(dimensions, original_dims) ==> payload_matches(
            *payload,
            precision,
            spec_output_dims(dimensions, original_dims) as nat,
        ),
    ensures
        r is Ok <==> precision_valid(precision) && mode_valid(dimensions, original_dims),
        r matches Err(e) ==> if !precision_valid(precision) {
            precision_error(precision, e)
        } else {
            mode_error(dimensions, original_dims, e)
        },
        r matches Ok(b) ==> b@.len() >= FULL_VECTOR_HEADER_SIZE && b@.take(12) == spec_to_header(
            full_vector_info(original_dims, precision, dimensions, seed),
        ) && encodes_payload(b@.skip(12), *payload, precision),
{
    precision.validate()?;
    dimensions.validate(original_dims)?;
    let header_info = ProfileInfo::from_full_vector(original_dims, precision, dimensions, seed);
    let header = header_info.to_header();
    let body: Vec<u8> = match (precision, payload) {
        (VectorPrecision::Full32, VectorPayload::Full32(v)) => encode_full32(v.as_slice()),
        (VectorPrecision::Half16, VectorPayload::Half16(v)) => encode_half16(v.as_slice()),
        (VectorPrecision::Quant8, VectorPayload::Quantized(q)) => encode_quant8(
            q.levels.as_slice(),
            q.min_bits,
            q.max_bits,
        ),
        (VectorPrecision::Bits { bits }, VectorPayload::Quantized(q)) => {
            encode_bits(q.levels.as_slice(), bits, q.min_bits, q.max_bits)?
        },
        _ => {
            proof {
                assert(false);
            }
            Vec::new()
        },
    };
    let mut result = header;
    let ghost head = result@;
    let mut i: usize = 0;
    while i < body.len()
        invariant
            i <= body@.len(),
            head.len() == 12,
            result@ == head + body@.take(i as int),
        decreases body@.len() - i,
    {
        result.push(body[i]);
        assert(result@ =~= head + body@.take(i + 1));
        i = i + 1;
    }
    assert(result@.take(12) =~= head);
    assert(result@.skip(12) =~= body@);
    Ok(result)
}

/// Metadata about a decoded full vector.
#[derive(Clone, Copy, Debug, PartialEq, Eq, Structural)]
pub struct FullVectorMetadata {
    /// Original embedding dimension count
    pub original_dims: u16,
    /// Number of dimensions in the encoded representation
    pub encoded_dims: u16,
    /// Precision used for encoding
    pub precision: VectorPrecision,
    /// Dimension handling mode
    pub dimension_mode: DimensionMode,
    /// Seed used for random projection (its low 32 bits, as stored)
    pub seed: u64,
}

impl FullVectorMetadata {
    /// Whether the encoding is lossless: Full32 with all dimensions preserved.
    #[must_use]
    pub fn is_lossless(&self) -> (r: bool)
        ensures
            r <==> (self.precision == VectorPrecision::Full32 && self.dimension_mode
                == DimensionMode::Preserve),
    {
        matches!(self.precision, VectorPrecision::Full32) && matches!(self.dimension_mode, DimensionMode::Preserve)
    }

    /// Whether fewer dimensions were encoded than the original had.
    #[must_use]
    pub fn has_dimension_reduction(&self) -> (r: bool)
        ensures
            r <==> self.encoded_dims < self.original_dims,
    {
        self.encoded_dims < self.original_dims
    }
}

/// The metadata a valid full vector header describes.
pub open spec fn header_metadata(h: Seq<u8>) -> FullVectorMetadata {
    let info = full_vector_header_info(h);
    let original_dims = info.original_dims->0;
    let mode = info.dimension_mode->0;
    FullVectorMetadata {
        original_dims,
        encoded_dims: spec_output_dims(mode, original_dims),
        precision: info.precision->0,
        dimension_mode: mode,
        seed: info.seed->0,
    }
}

/// Whether a payload of this length can be decoded at a precision.
pub open spec fn payload_decodable(b: Seq<u8>, precision: VectorPrecision) -> bool {
    match precision {
        VectorPrecision::Full32 => b.len() % 4 == 0,
        VectorPrecision::Half16 => b.len() % 2 == 0,
        _ => b.len() >= 8,
    }
}

/// The error an undecodable payload is reported with.
pub open spec fn payload_error(b: Seq<u8>, precision: VectorPrecision, e: ElidError) -> bool {
    match precision {
        VectorPrecision::Full32 | VectorPrecision::Half16 => e == ElidError::InvalidEncoding,
        _ => e == (ElidError::InsufficientData { expected: 8, got: b.len() as usize }),
    }
}

/// Whether `p` is what the payload bytes `b` decode to at a precision, for
/// `n` encoded dimensions.
pub open spec fn decodes_payload(b: Seq<u8>, precision: VectorPrecision, n: nat, p: VectorPayload) -> bool {
    match precision {
        VectorPrecision::Full32 => p matches VectorPayload::Full32(v) && v@ == bytes_words(b),
        VectorPrecision::Half16 => p matches VectorPayload::Half16(v) && v@ == bytes_halves(b),
        VectorPrecision::Quant8 => p matches VectorPayload::Quantized(q) && has_range_of(q, b)
            && q.levels@ == Seq::new((b.len() - 8) as nat, |i: int| b[8 + i] as u32),
        VectorPrecision::Bits { bits } => p matches VectorPayload::Quantized(q) && has_range_of(q, b)
            && are_unpacked(b.skip(8), bits as nat, n, q.levels@),
    }
}

/// Whether `r` is what decoding the full vector bytes `b` gives.
pub open spec fn full_vector_decoding(
    b: Seq<u8>,
    r: Result<(VectorPayload, FullVectorMetadata), ElidError>,
) -> bool {
    if b.len() < 12 {
        r == Err::<(VectorPayload, FullVectorMetadata), ElidError>(ElidError::InvalidHeader)
    } else if b[0] & 0x0Fu8 != 4 {
        r matches Err(ElidError::ProfileMismatch { expected, got }) && expected@ == "FullVector"@
            && got@ == "Type 0x"@.push(hex_char((b[0] & 0x0Fu8) as nat))
    } else if precision_from_byte(b[4]) is None {
        r matches Err(ElidError::InvalidMetadata(m)) && m@ == "Invalid precision type"@
    } else if mode_from_byte(b[5], be16(b[6], b[7])) is None {
        r matches Err(ElidError::InvalidMetadata(m)) && m@ == "Invalid dimension mode"@
    } else {
        let meta = header_metadata(b);
        let body = b.skip(12);
        if payload_decodable(body, meta.precision) {
            r matches Ok((p, m)) && m == meta && decodes_payload(
                body,
                meta.precision,
                meta.encoded_dims as nat,
                p,
            )
        } else {
            r matches Err(e) && payload_error(body, meta.precision, e)
        }
    }
}

/// Decodes a full vector: checks the header, then decodes the payload at the
/// precision it names. Values come back in the encoded (possibly reduced)
/// space; the original dimension count is in the metadata.
pub fn decode_full_vector(bytes: &[u8]) -> (r: Result<(VectorPayload, FullVectorMetadata), ElidError>)
    ensures
        full_vector_decoding(bytes@, r),
{
    if bytes.len() < FULL_VECTOR_HEADER_SIZE {
        return Err(ElidError::InvalidHeader);
    }
    let header_info = ProfileInfo::from_header(bytes)?;
    if header_info.profile_type != 0x04 {
        let b0 = bytes[0];
        assert(b0 & 0x0Fu8 < 16) by (bit_vector);
        let got = profile_type_label(header_info.profile_type);
        return Err(ElidError::ProfileMismatch { expected: String::from_str("FullVector"), got });
    }
    let original_dims = match header_info.original_dims {
        Some(d) => d,
        None => {
            return Err(
                ElidError::InvalidMetadata(String::from_str("Missing original dimensions")),
            );
        },
    };
    let precision = match header_info.precision {
        Some(p) => p,
        None => {
            return Err(ElidError::InvalidMetadata(String::from_str("Missing precision")));
        },
    };
    let dimension_mode = match header_info.dimension_mode {
        Some(m) => m,
        None => {
            return Err(ElidError::InvalidMetadata(String::from_str("Missing dimension mode")));
        },
    };
    let seed = match header_info.seed {
        Some(x) => x,
        None => 0,
    };
    let encoded_dims = dimension_mode.output_dims(original_dims);
    let payload = &bytes[FULL_VECTOR_HEADER_SIZE..bytes.len()];
    assert(payload@ =~= bytes@.skip(12));
    let decoded = match precision {
        VectorPrecision::Full32 => VectorPayload::Full32(decode_full32(payload)?),
        VectorPrecision::Half16 => VectorPayload::Half16(decode_half16(payload)?),
        VectorPrecision::Quant8 => VectorPayload::Quantized(decode_quant8(payload)?),
        VectorPrecision::Bits { bits } => {
            proof {
                assert(encoded_dims * bits <= 0xFFFF * 0xFF) by (nonlinear_arith)
                    requires
                        encoded_dims <= 0xFFFF,
                        bits <= 0xFF,
                ;
            }
            VectorPayload::Quantized(decode_bits(payload, bits, encoded_dims as usize)?)
        },
    };
    let metadata = FullVectorMetadata {
        original_dims,
        encoded_dims,
        precision,
        dimension_mode,
        seed,
    };
    Ok((decoded, metadata))
}

/// Whether two payloads hold the same values.
pub open spec fn same_payload(a: VectorPayload, b: VectorPayload) -> bool {
    match (a, b) {
        (VectorPayload::Full32(x), VectorPayload::Full32(y)) => x@ == y@,
        (VectorPayload::Half16(x), VectorPayload::Half16(y)) => x@ == y@,
        (VectorPayload::Quantized(x), VectorPayload::Quantized(y)) => x.min_bits == y.min_bits
            && x.max_bits == y.max_bits && x.levels@ == y.levels@,
        _ => false,
    }
}

/// Whether every quantization level fits the precision's bit depth.
pub open spec fn levels_fit(p: VectorPayload, precision: VectorPrecision) -> bool {
    match (precision, p) {
        (VectorPrecision::Quant8, VectorPayload::Quantized(q)) => forall|i: int|
            0 <= i < q.levels@.len() ==> #[trigger] q.levels@[i] < 256,
        (VectorPrecision::Bits { bits }, VectorPayload::Quantized(q)) => forall|i: int|
            0 <= i < q.levels@.len() ==> fits_in_bits(#[trigger] q.levels@[i], bits),
        _ => true,
    }
}

/// Decoding a full vector encoding gives back its payload, and metadata
/// recording the original dimensions, the encoded dimension count, the
/// precision, the dimension mode and the low 32 bits of the seed (whenever
/// the quantization levels fit the precision's depth).
pub proof fn lemma_full_vector_roundtrip(
    original_dims: u16,
    precision: VectorPrecision,
    dimensions: DimensionMode,
    seed: u64,
    payload: VectorPayload,
    encoded: Seq<u8>,
    decoded: Result<(VectorPayload, FullVectorMetadata), ElidError>,
)
    requires
        precision_valid(precision),
        mode_valid(dimensions, original_dims),
        payload_matches(payload, precision, spec_output_dims(dimensions, original_dims) as nat),
        levels_fit(payload, precision),
        encoded.len() >= 12,
        encoded.take(12) == spec_to_header(full_vector_info(original_dims, precision, dimensions, seed)),
        encodes_payload(encoded.skip(12), payload, precision),
        full_vector_decoding(encoded, decoded),
    ensures
        decoded matches Ok((p, m)) && same_payload(p, payload) && m == (FullVectorMetadata {
            original_dims,
            encoded_dims: spec_output_dims(dimensions, original_dims),
            precision,
            dimension_mode: dimensions,
            seed: seed % 0x1_0000_0000,
        }),
{
    let info = full_vector_info(original_dims, precision, dimensions, seed % 0x1_0000_0000);
    let h = encoded.take(12);
    assert(spec_to_header(info) == h);
    lemma_header_roundtrip(info);
    assert(full_vector_header_info(h) == info);
    assert(encoded[0] == h[0] && encoded[4] == h[4] && encoded[5] == h[5] && encoded[6] == h[6]
        && encoded[7] == h[7]);
    assert(full_vector_header_info(encoded) == full_vector_header_info(h)) by {
        assert(encoded[2] == h[2] && encoded[3] == h[3] && encoded[8] == h[8] && encoded[9] == h[9]
            && encoded[10] == h[10] && encoded[11] == h[11]);
    }
    let body = encoded.skip(12);
    let n = spec_output_dims(dimensions, original_dims) as nat;
    match (precision, payload) {
        (VectorPrecision::Full32, VectorPayload::Full32(v)) => {
            lemma_full32_roundtrip(v@);
        },
        (VectorPrecision::Half16, VectorPayload::Half16(v)) => {
            lemma_half16_roundtrip(v@);
        },
        (VectorPrecision::Quant8, VectorPayload::Quantized(q)) => {
            lemma_word_bytes_be32(q.min_bits);
            lemma_word_bytes_be32(q.max_bits);
            let p = decoded->Ok_0.0;
            let qd = p->Quantized_0;
            assert(qd.levels@ =~= q.levels@) by {
                assert forall|i: int| 0 <= i < q.levels@.len() implies qd.levels@[i] == q.levels@[i] by {
                    assert(q.levels@[i] < 256);
                    assert(body[8 + i] == (q.levels@[i] % 256) as u8);
                }
            }
        },
        (VectorPrecision::Bits { bits }, VectorPayload::Quantized(q)) => {
            lemma_word_bytes_be32(q.min_bits);
            lemma_word_bytes_be32(q.max_bits);
            assert(body[0] == body.take(8)[0] && body[1] == body.take(8)[1] && body[2] == body.take(8)[2]
                && body[3] == body.take(8)[3] && body[4] == body.take(8)[4] && body[5] == body.take(8)[5]
                && body[6] == body.take(8)[6] && body[7] == body.take(8)[7]);
            let p = decoded->Ok_0.0;
            let qd = p->Quantized_0;
            lemma_unpack_pack_levels(q.levels@, bits, body.skip(8), qd.levels@);
        },
        _ => {},
    }
}

// ============================================================================
// Projection seeds
// ============================================================================

/// Seed for one row of a random projection: the BLAKE3 digest of the base
/// seed's 8 little-endian bytes, then the source dimension count and the row
/// index, each as 2 little-endian bytes.
pub fn derive_projection_seed(base_seed: u64, from_dim: u16, to_dim: u16) -> (r: [u8; 32])
    ensures
        r@ == blake3_digest(le64_bytes(base_seed) + le16_bytes(from_dim) + le16_bytes(to_dim)),
{
    let mut input: Vec<u8> = Vec::new();
    push_le64(&mut input, base_seed);
    input.push((from_dim & 0xff) as u8);
    input.push((from_dim >> 8) as u8);
    input.push((to_dim & 0xff) as u8);
    input.push((to_dim >> 8) as u8);
    assert(input@ =~= le64_bytes(base_seed) + le16_bytes(from_dim) + le16_bytes(to_dim));
    blake3_hash(input.as_slice())
}

/// Checks the dimension counts of a projection from `from_dims` to `to_dims`
/// dimensions: the target must be positive and no larger than the source.
pub fn check_projection(from_dims: u16, to_dims: u16) -> (r: Result<(), ElidError>)
    ensures
        r is Ok <==> 0 < to_dims <= from_dims,
        r matches Err(e) ==> if to_dims == 0 {
            e matches ElidError::ProjectionError(m) && m@ == "Target dimensions must be > 0"@
        } else {
            e matches ElidError::ProjectionError(m) && m@ == "Cannot project to higher dimensions: "@
                + decimal(from_dims as nat) + " -> "@ + decimal(to_dims as nat)
        },
{
    if to_dims == 0 {
        return Err(ElidError::ProjectionError(String::from_str("Target dimensions must be > 0")));
    }
    if to_dims > from_dims {
        let mut m = String::from_str("Cannot project to higher dimensions: ");
        push_decimal(&mut m, from_dims as u64);
        m.append(" -> ");
        push_decimal(&mut m, to_dims as u64);
        return Err(ElidError::ProjectionError(m));
    }
    Ok(())
}

} // verus!
