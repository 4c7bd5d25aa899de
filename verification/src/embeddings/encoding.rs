//! Sortable base32hex encoding of identifier bytes.
//!
//! Uses the RFC 4648 base32hex alphabet in lowercase (`0-9`, `a-v`) without
//! padding. The alphabet is in ASCII order, so byte strings keep their
//! lexicographic order once encoded.

use data_encoding::{DecodeError, Specification};
use vstd::prelude::*;
use vstd::utf8::encode_utf8;

use super::error::ElidError;

verus! {

#[verifier::external_type_specification]
#[verifier::external_body]
pub struct ExDecodeError(DecodeError);

/// Symbols of the lowercase base32hex alphabet, in order of their values.
pub const BASE32HEX_LOWER_SYMBOLS: &'static str = "0123456789abcdefghijklmnopqrstuv";

/// The symbol for the 5-bit value `v`: digits for 0-9, then `a`-`v`.
pub open spec fn b32_symbol(v: int) -> char {
    if v < 10 {
        (48 + v) as char
    } else {
        (97 + v - 10) as char
    }
}

/// The lowercase base32hex alphabet as a character sequence.
pub open spec fn base32hex_symbols() -> Seq<char> {
    Seq::new(32, |i: int| b32_symbol(i))
}

/// Bit `k` of a byte string, most significant bit of the first byte first;
/// zero past the end.
pub open spec fn byte_bit(bytes: Seq<u8>, k: int) -> int {
    if 0 <= k < 8 * bytes.len() {
        ((bytes[k / 8] >> ((7 - k % 8) as u8)) & 1u8) as int
    } else {
        0
    }
}

/// Value of the `i`-th group of five bits.
pub open spec fn b32_digit(bytes: Seq<u8>, i: int) -> int {
    16 * byte_bit(bytes, 5 * i) + 8 * byte_bit(bytes, 5 * i + 1) + 4 * byte_bit(bytes, 5 * i + 2)
        + 2 * byte_bit(bytes, 5 * i + 3) + byte_bit(bytes, 5 * i + 4)
}

/// Number of base32 characters for `n` bytes: `ceil(8n / 5)`.
pub open spec fn b32_len(n: nat) -> nat {
    (8 * n + 4) / 5
}

/// Unpadded lowercase base32hex encoding of a byte string.
pub open spec fn base32hex(bytes: Seq<u8>) -> Seq<char> {
    Seq::new(b32_len(bytes.len()), |i: int| b32_symbol(b32_digit(bytes, i)))
}

/// Encodes with `data_encoding` under the given alphabet (most significant
/// bit first, no padding, trailing bits checked).
///
/// Trusted: for the lowercase base32hex alphabet, `Encoding::encode` returns
/// the unpadded RFC 4648 encoding, stated here as `base32hex`. It may panic
/// on inputs longer than `usize::MAX / 512` bytes, which `requires` excludes.
#[verifier::external_body]
fn base32_encode_with(symbols: &str, bytes: &[u8]) -> (r: String)
    requires
        symbols@ == base32hex_symbols(),
        bytes@.len() <= usize::MAX / 512,
    ensures
        r@ == base32hex(bytes@),
{
    let mut spec = Specification::new();
    spec.symbols.push_str(symbols);
    spec.encoding().unwrap().encode(bytes)
}

/// Decodes with `data_encoding` under the given alphabet.
///
/// Trusted: with trailing bits checked and no padding, `Encoding::decode`
/// accepts exactly the canonical encodings and returns the bytes they
/// encode; every other input (bad length, foreign symbol, non-zero trailing
/// bits) is an error. It may panic on inputs longer than `usize::MAX / 8`
/// bytes, which `requires` excludes.
#[verifier::external_body]
fn base32_decode_with(symbols: &str, text: &str) -> (r: Result<Vec<u8>, DecodeError>)
    requires
        symbols@ == base32hex_symbols(),
        encode_utf8(text@).len() <= usize::MAX / 8,
    ensures
        match r {
            Ok(v) => base32hex(v@) == text@,
            Err(_) => forall|v: Seq<u8>| #[trigger] base32hex(v) != text@,
        },
{
    let mut spec = Specification::new();
    spec.symbols.push_str(symbols);
    spec.encoding().unwrap().decode(text.as_bytes())
}

proof fn lemma_byte_bit_range(bytes: Seq<u8>, k: int)
    ensures
        byte_bit(bytes, k) == 0 || byte_bit(bytes, k) == 1,
{
    if 0 <= k < 8 * bytes.len() {
        let b = bytes[k / 8];
        let sh = (7 - k % 8) as u8;
        assert((b >> sh) & 1u8 == 0u8 || (b >> sh) & 1u8 == 1u8) by (bit_vector);
    }
}

/// Every base32hex digit is below 32.
pub proof fn lemma_b32_digit_range(bytes: Seq<u8>, i: int)
    ensures
        0 <= b32_digit(bytes, i) < 32,
{
    lemma_byte_bit_range(bytes, 5 * i);
    lemma_byte_bit_range(bytes, 5 * i + 1);
    lemma_byte_bit_range(bytes, 5 * i + 2);
    lemma_byte_bit_range(bytes, 5 * i + 3);
    lemma_byte_bit_range(bytes, 5 * i + 4);
}

proof fn lemma_byte_from_bits(b: u8)
    ensures
        b == 128 * ((b >> 7u8) & 1u8) + 64 * ((b >> 6u8) & 1u8) + 32 * ((b >> 5u8) & 1u8) + 16 * ((
        b >> 4u8) & 1u8) + 8 * ((b >> 3u8) & 1u8) + 4 * ((b >> 2u8) & 1u8) + 2 * ((b >> 1u8)
            & 1u8) + ((b >> 0u8) & 1u8),
{
    assert(b == 128 * ((b >> 7u8) & 1u8) + 64 * ((b >> 6u8) & 1u8) + 32 * ((b >> 5u8) & 1u8) + 16
        * ((b >> 4u8) & 1u8) + 8 * ((b >> 3u8) & 1u8) + 4 * ((b >> 2u8) & 1u8) + 2 * ((b >> 1u8)
        & 1u8) + ((b >> 0u8) & 1u8)) by (bit_vector);
}

/// Base32hex encoding is injective: distinct byte strings have distinct
/// encodings, so decoding an encoding gives back the bytes encoded.
pub proof fn lemma_base32hex_injective(a: Seq<u8>, b: Seq<u8>)
    requires
        base32hex(a) == base32hex(b),
    ensures
        a == b,
{
    let la = b32_len(a.len());
    let lb = b32_len(b.len());
    assert(base32hex(a).len() == la);
    assert(a.len() == b.len()) by {
        if a.len() < b.len() {
            assert(la < lb);
        } else if a.len() > b.len() {
            assert(la > lb);
        }
    }
    let n = a.len();
    assert forall|i: int| 0 <= i < la implies b32_digit(a, i) == b32_digit(b, i) by {
        lemma_byte_bit_range(a, 5 * i);
        lemma_byte_bit_range(a, 5 * i + 1);
        lemma_byte_bit_range(a, 5 * i + 2);
        lemma_byte_bit_range(a, 5 * i + 3);
        lemma_byte_bit_range(a, 5 * i + 4);
        lemma_byte_bit_range(b, 5 * i);
        lemma_byte_bit_range(b, 5 * i + 1);
        lemma_byte_bit_range(b, 5 * i + 2);
        lemma_byte_bit_range(b, 5 * i + 3);
        lemma_byte_bit_range(b, 5 * i + 4);
        assert(base32hex(a)[i] == base32hex(b)[i]);
        assert(base32hex(a)[i] == b32_symbol(b32_digit(a, i)));
        assert(base32hex(b)[i] == b32_symbol(b32_digit(b, i)));
    }
    assert forall|k: int| 0 <= k < 8 * n implies byte_bit(a, k) == byte_bit(b, k) by {
        let i = k / 5;
        assert(0 <= i < la);
        lemma_byte_bit_range(a, 5 * i);
        lemma_byte_bit_range(a, 5 * i + 1);
        lemma_byte_bit_range(a, 5 * i + 2);
        lemma_byte_bit_range(a, 5 * i + 3);
        lemma_byte_bit_range(a, 5 * i + 4);
        lemma_byte_bit_range(b, 5 * i);
        lemma_byte_bit_range(b, 5 * i + 1);
        lemma_byte_bit_range(b, 5 * i + 2);
        lemma_byte_bit_range(b, 5 * i + 3);
        lemma_byte_bit_range(b, 5 * i + 4);
        assert(b32_digit(a, i) == b32_digit(b, i));
    }
    assert forall|m: int| 0 <= m < n implies a[m] == b[m] by {
        lemma_byte_from_bits(a[m]);
        lemma_byte_from_bits(b[m]);
        assert(byte_bit(a, 8 * m) == byte_bit(b, 8 * m));
        assert(byte_bit(a, 8 * m + 1) == byte_bit(b, 8 * m + 1));
        assert(byte_bit(a, 8 * m + 2) == byte_bit(b, 8 * m + 2));
        assert(byte_bit(a, 8 * m + 3) == byte_bit(b, 8 * m + 3));
        assert(byte_bit(a, 8 * m + 4) == byte_bit(b, 8 * m + 4));
        assert(byte_bit(a, 8 * m + 5) == byte_bit(b, 8 * m + 5));
        assert(byte_bit(a, 8 * m + 6) == byte_bit(b, 8 * m + 6));
        assert(byte_bit(a, 8 * m + 7) == byte_bit(b, 8 * m + 7));
    }
    assert(a =~= b);
}

proof fn lemma_symbols_literal()
    ensures
        BASE32HEX_LOWER_SYMBOLS@ == base32hex_symbols(),
{
    reveal_strlit("0123456789abcdefghijklmnopqrstuv");
    assert(BASE32HEX_LOWER_SYMBOLS@ =~= base32hex_symbols());
}

/// Encodes bytes to a sortable base32hex string (lowercase, no padding).
pub fn encode_sortable(bytes: &[u8]) -> (s: String)
    requires
        bytes@.len() <= usize::MAX / 512,
    ensures
        s@ == base32hex(bytes@),
{
    proof {
        lemma_symbols_literal();
    }
    base32_encode_with(BASE32HEX_LOWER_SYMBOLS, bytes)
}

/// Decodes a sortable base32hex string back to bytes.
///
/// Succeeds exactly on the canonical encodings of byte strings, returning
/// the bytes encoded; any other string is `InvalidEncoding`.
pub fn decode_sortable(s: &str) -> (r: Result<Vec<u8>, ElidError>)
    requires
        encode_utf8(s@).len() <= usize::MAX / 8,
    ensures
        match r {
            Ok(v) => base32hex(v@) == s@,
            Err(e) => e == ElidError::InvalidEncoding && forall|v: Seq<u8>| #[trigger]
                base32hex(v) != s@,
        },
{
    proof {
        lemma_symbols_literal();
    }
    match base32_decode_with(BASE32HEX_LOWER_SYMBOLS, s) {
        Ok(v) => Ok(v),
        Err(_) => Err(ElidError::InvalidEncoding),
    }
}

/// The byte strings first differ at some position, where the first is
/// smaller.
pub open spec fn bytes_lt(a: Seq<u8>, b: Seq<u8>) -> bool {
    exists|i: int| 0 <= i < a.len() && i < b.len() && #[trigger] a.take(i) == b.take(i) && a[i] < b[i]
}

/// The strings first differ at some position, where the first has the
/// smaller character.
pub open spec fn chars_lt(a: Seq<char>, b: Seq<char>) -> bool {
    exists|i: int|
        0 <= i < a.len() && i < b.len() && #[trigger] a.take(i) == b.take(i) && (a[i] as u32) < (
        b[i] as u32)
}

/// `a` is a proper prefix of `b`.
pub open spec fn strict_prefix<T>(a: Seq<T>, b: Seq<T>) -> bool {
    a.len() < b.len() && b.take(a.len() as int) == a
}

/// Lexicographic order of byte strings: the first is a proper prefix of the
/// second, or is smaller where they first differ.
pub open spec fn bytes_before(a: Seq<u8>, b: Seq<u8>) -> bool {
    bytes_lt(a, b) || strict_prefix(a, b)
}

/// Lexicographic order of strings (by character code), as string comparison
/// orders them.
pub open spec fn chars_before(a: Seq<char>, b: Seq<char>) -> bool {
    chars_lt(a, b) || strict_prefix(a, b)
}

/// Bit `s` of a byte, most significant first.
pub open spec fn msb_bit(x: u8, s: int) -> u8 {
    (x >> ((7 - s) as u8)) & 1u8
}

/// The first (most significant) bit position in which two distinct bytes
/// differ, searching from position `t`.
proof fn first_diff_bit(x: u8, y: u8, t: int) -> (j: int)
    requires
        0 <= t <= 8,
        x != y,
        forall|s: int| 0 <= s < t ==> #[trigger] msb_bit(x, s) == msb_bit(y, s),
    ensures
        t <= j < 8,
        forall|s: int| 0 <= s < j ==> #[trigger] msb_bit(x, s) == msb_bit(y, s),
        msb_bit(x, j) != msb_bit(y, j),
    decreases 8 - t,
{
    if t == 8 {
        lemma_byte_from_bits(x);
        lemma_byte_from_bits(y);
        assert(msb_bit(x, 0) == msb_bit(y, 0) && msb_bit(x, 1) == msb_bit(y, 1) && msb_bit(x, 2)
            == msb_bit(y, 2) && msb_bit(x, 3) == msb_bit(y, 3) && msb_bit(x, 4) == msb_bit(y, 4)
            && msb_bit(x, 5) == msb_bit(y, 5) && msb_bit(x, 6) == msb_bit(y, 6) && msb_bit(x, 7)
            == msb_bit(y, 7));
        assert(x == y);
        t
    } else if msb_bit(x, t) != msb_bit(y, t) {
        t
    } else {
        first_diff_bit(x, y, t + 1)
    }
}

/// At the first bit where two bytes differ, the smaller byte has the 0.
proof fn lemma_smaller_has_zero(x: u8, y: u8, j: int)
    requires
        0 <= j < 8,
        x < y,
        forall|s: int| 0 <= s < j ==> #[trigger] msb_bit(x, s) == msb_bit(y, s),
        msb_bit(x, j) != msb_bit(y, j),
    ensures
        msb_bit(x, j) == 0,
        msb_bit(y, j) == 1,
{
    let sh = (7 - j) as u8;
    let sh1 = (8 - j) as u8;
    // Bits above the differing one agree, so the shifted-down prefixes agree.
    assert(x >> sh1 == y >> sh1) by {
        if j == 0 {
            assert(x >> 8u8 == 0 && y >> 8u8 == 0) by (bit_vector);
        } else {
            lemma_prefix_eq(x, y, j);
        }
    }
    assert(((x >> sh) & 1u8) != ((y >> sh) & 1u8) && x >> sh1 == y >> sh1 && sh < 8 && sh1 == sh + 1
        && x < y ==> ((x >> sh) & 1u8) == 0 && ((y >> sh) & 1u8) == 1) by (bit_vector);
}

/// Bytes that agree in their first `j` bits (MSB first) agree once shifted
/// down by `8 - j`.
proof fn lemma_prefix_eq(x: u8, y: u8, j: int)
    requires
        1 <= j <= 8,
        forall|s: int| 0 <= s < j ==> #[trigger] msb_bit(x, s) == msb_bit(y, s),
    ensures
        x >> ((8 - j) as u8) == y >> ((8 - j) as u8),
    decreases j,
{
    let sh = (8 - j) as u8;
    assert(msb_bit(x, j - 1) == msb_bit(y, j - 1));
    if j == 1 {
        assert(((x >> 7u8) & 1u8) == ((y >> 7u8) & 1u8) ==> x >> 7u8 == y >> 7u8) by (bit_vector);
    } else {
        lemma_prefix_eq(x, y, j - 1);
        let sh2 = (9 - j) as u8;
        assert(x >> sh2 == y >> sh2 && ((x >> sh) & 1u8) == ((y >> sh) & 1u8) && sh < 8 && sh2
            == sh + 1 ==> x >> sh == y >> sh) by (bit_vector);
    }
}

proof fn lemma_symbol_monotone(u: int, v: int)
    requires
        0 <= u < v < 32,
    ensures
        (b32_symbol(u) as u32) < (b32_symbol(v) as u32),
{
}

proof fn lemma_base32hex_order_differ(a: Seq<u8>, b: Seq<u8>)
    requires
        bytes_lt(a, b),
    ensures
        chars_lt(base32hex(a), base32hex(b)),
{
    let i = choose|i: int| 0 <= i < a.len() && i < b.len() && #[trigger] a.take(i) == b.take(i) && a[i] < b[i];
    let x = a[i];
    let y = b[i];
    let j = first_diff_bit(x, y, 0);
    lemma_smaller_has_zero(x, y, j);
    let k = 8 * i + j;
    // Bits before k agree; bit k is 0 in a and 1 in b.
    assert forall|p: int| 0 <= p < k implies byte_bit(a, p) == byte_bit(b, p) by {
        if p < 8 * i {
            assert(a[p / 8] == a.take(i)[p / 8]);
            assert(b[p / 8] == b.take(i)[p / 8]);
        } else {
            assert(p / 8 == i);
            assert(p % 8 < j);
            assert(msb_bit(x, p % 8) == msb_bit(y, p % 8));
        }
    }
    assert(byte_bit(a, k) == 0 && byte_bit(b, k) == 1) by {
        assert(k / 8 == i && k % 8 == j);
        assert(msb_bit(x, j) == 0 && msb_bit(y, j) == 1);
    }
    let d = k / 5;
    assert(d < b32_len(a.len()) && d < b32_len(b.len()));
    assert(base32hex(a).take(d) =~= base32hex(b).take(d)) by {
        assert forall|m: int| 0 <= m < d implies base32hex(a)[m] == base32hex(b)[m] by {
            assert(5 * m + 4 < k);
            assert(b32_digit(a, m) == b32_digit(b, m));
        }
    }
    assert(b32_digit(a, d) < b32_digit(b, d)) by {
        lemma_byte_bit_range(a, 5 * d);
        lemma_byte_bit_range(a, 5 * d + 1);
        lemma_byte_bit_range(a, 5 * d + 2);
        lemma_byte_bit_range(a, 5 * d + 3);
        lemma_byte_bit_range(a, 5 * d + 4);
        lemma_byte_bit_range(b, 5 * d);
        lemma_byte_bit_range(b, 5 * d + 1);
        lemma_byte_bit_range(b, 5 * d + 2);
        lemma_byte_bit_range(b, 5 * d + 3);
        lemma_byte_bit_range(b, 5 * d + 4);
        assert(5 * d <= k < 5 * d + 5);
    }
    lemma_b32_digit_range(a, d);
    lemma_b32_digit_range(b, d);
    lemma_symbol_monotone(b32_digit(a, d), b32_digit(b, d));
    assert(base32hex(a)[d] == b32_symbol(b32_digit(a, d)));
    assert(base32hex(b)[d] == b32_symbol(b32_digit(b, d)));
}

proof fn lemma_base32hex_order_prefix(a: Seq<u8>, b: Seq<u8>)
    requires
        strict_prefix(a, b),
    ensures
        chars_before(base32hex(a), base32hex(b)),
{
    let n = a.len();
    let la = b32_len(n);
    let lb = b32_len(b.len());
    let ea = base32hex(a);
    let eb = base32hex(b);
    assert(la < lb);
    assert forall|p: int| 0 <= p < 8 * n implies byte_bit(a, p) == byte_bit(b, p) by {
        assert(a[p / 8] == b.take(n as int)[p / 8]);
    }
    assert forall|m: int| 0 <= m < la - 1 implies ea[m] == eb[m] by {
        assert(5 * m + 4 < 8 * n);
        assert(b32_digit(a, m) == b32_digit(b, m));
    }
    if la > 0 {
        let d = la - 1;
        assert(b32_digit(a, d) <= b32_digit(b, d)) by {
            lemma_byte_bit_range(b, 5 * d);
            lemma_byte_bit_range(b, 5 * d + 1);
            lemma_byte_bit_range(b, 5 * d + 2);
            lemma_byte_bit_range(b, 5 * d + 3);
            lemma_byte_bit_range(b, 5 * d + 4);
            assert(5 * d < 8 * n);
        }
        lemma_b32_digit_range(a, d);
        lemma_b32_digit_range(b, d);
        assert(ea.take(d) =~= eb.take(d));
        if b32_digit(a, d) < b32_digit(b, d) {
            lemma_symbol_monotone(b32_digit(a, d), b32_digit(b, d));
            assert(chars_lt(ea, eb));
        } else {
            assert(eb.take(la as int) =~= ea);
        }
    } else {
        assert(eb.take(la as int) =~= ea);
    }
}

/// Sortability: encoding keeps the lexicographic order of byte strings, so
/// identifiers sort as the bytes they encode.
pub proof fn lemma_base32hex_order(a: Seq<u8>, b: Seq<u8>)
    requires
        bytes_before(a, b),
    ensures
        chars_before(base32hex(a), base32hex(b)),
{
    if bytes_lt(a, b) {
        lemma_base32hex_order_differ(a, b);
    } else {
        lemma_base32hex_order_prefix(a, b);
    }
}

} // verus!
