//! Bit counting and big-endian byte conversions shared by the hashing modules.

use vstd::arithmetic::power2::*;
use vstd::prelude::*;

verus! {

broadcast use vstd::array::group_array_axioms;

/// Number of set bits in the binary representation of `x`.
pub open spec fn popcount(x: nat) -> nat
    decreases x,
{
    if x == 0 {
        0
    } else {
        x % 2 + popcount(x / 2)
    }
}

/// A value below `2^n` has at most `n` set bits.
pub proof fn lemma_popcount_bound(x: nat, n: nat)
    requires
        x < pow2(n),
    ensures
        popcount(x) <= n,
    decreases n,
{
    if n == 0 {
        lemma2_to64();
    } else {
        lemma_pow2_unfold(n);
        lemma_popcount_bound(x / 2, (n - 1) as nat);
    }
}

/// Only zero has no set bits.
pub proof fn lemma_popcount_zero(x: nat)
    ensures
        popcount(x) == 0 <==> x == 0,
    decreases x,
{
    if x > 0 {
        lemma_popcount_zero(x / 2);
    }
}

/// Counts the set bits of a 128-bit value.
pub fn count_ones_u128(x: u128) -> (r: u32)
    ensures
        r == popcount(x as nat),
        r <= 128,
{
    proof {
        lemma2_to64_rest();
        lemma_u128_pow2_bound();
        lemma_popcount_bound(x as nat, 128);
    }
    let mut y: u128 = x;
    let mut c: u32 = 0;
    while y != 0
        invariant
            c + popcount(y as nat) == popcount(x as nat),
            popcount(x as nat) <= 128,
        decreases y,
    {
        let low = y & 1;
        assert(y & 1 == y % 2) by (bit_vector);
        assert(y >> 1 == y / 2) by (bit_vector);
        c = c + (low as u32);
        y = y >> 1;
    }
    c
}

/// Counts the set bits of a 64-bit value.
pub fn count_ones_u64(x: u64) -> (r: u32)
    ensures
        r == popcount(x as nat),
        r <= 64,
{
    proof {
        lemma2_to64();
        lemma_popcount_bound(x as nat, 64);
    }
    let mut y: u64 = x;
    let mut c: u32 = 0;
    while y != 0
        invariant
            c + popcount(y as nat) == popcount(x as nat),
            popcount(x as nat) <= 64,
        decreases y,
    {
        let low = y & 1;
        assert(y & 1 == y % 2) by (bit_vector);
        assert(y >> 1 == y / 2) by (bit_vector);
        c = c + (low as u32);
        y = y >> 1;
    }
    c
}

/// Numeric value of a big-endian byte string (first byte most significant).
pub open spec fn be_value(bytes: Seq<u8>) -> nat
    decreases bytes.len(),
{
    if bytes.len() == 0 {
        0
    } else {
        be_value(bytes.drop_last()) * 256 + bytes.last() as nat
    }
}

/// A big-endian byte string of length `n` denotes a value below `2^(8n)`.
pub proof fn lemma_be_value_bound(bytes: Seq<u8>)
    ensures
        be_value(bytes) < pow2(8 * bytes.len()),
    decreases bytes.len(),
{
    if bytes.len() == 0 {
        lemma2_to64();
    } else {
        let n = bytes.len();
        lemma_be_value_bound(bytes.drop_last());
        lemma2_to64();
        lemma_pow2_adds((8 * (n - 1)) as nat, 8);
        let p = pow2((8 * (n - 1)) as nat);
        let v = be_value(bytes.drop_last());
        let l = bytes.last() as nat;
        assert(v * 256 + l < p * 256) by (nonlinear_arith)
            requires
                v < p,
                l < 256,
        ;
    }
}

/// Prepending a byte adds it at the most significant position.
pub proof fn lemma_be_value_prepend(d: u8, t: Seq<u8>)
    ensures
        be_value(seq![d] + t) == d * pow2(8 * t.len()) + be_value(t),
    decreases t.len(),
{
    let s = seq![d] + t;
    if t.len() == 0 {
        lemma2_to64();
        assert(s.drop_last() =~= Seq::<u8>::empty());
        assert(be_value(s.drop_last()) == 0);
        assert(t =~= Seq::<u8>::empty());
        assert(s.last() == d);
        assert(be_value(s) == d as nat);
        assert(pow2(8 * t.len()) == 1);
        assert(be_value(t) == 0);
    } else {
        let n = t.len();
        assert(s.drop_last() =~= seq![d] + t.drop_last());
        assert(s.last() == t.last());
        lemma_be_value_prepend(d, t.drop_last());
        lemma2_to64();
        lemma_pow2_adds((8 * (n - 1)) as nat, 8);
        let p = pow2((8 * (n - 1)) as nat);
        let v = be_value(t.drop_last());
        assert(pow2(8 * n) == p * 256) by {
            assert((8 * (n - 1)) as nat + 8 == 8 * n);
        }
        assert(be_value(seq![d] + t.drop_last()) == d * p + v);
        assert(be_value(s) == be_value(seq![d] + t.drop_last()) * 256 + t.last() as nat);
        assert((d * p + v) * 256 == d * (p * 256) + v * 256) by (nonlinear_arith);
        assert(be_value(t) == v * 256 + t.last() as nat);
        assert(d * pow2(8 * t.len()) == d * (p * 256));
    }
}

/// The value of a concatenation: the first part shifted above the second.
pub proof fn lemma_be_value_concat(a: Seq<u8>, b: Seq<u8>)
    ensures
        be_value(a + b) == be_value(a) * pow2(8 * b.len()) + be_value(b),
    decreases b.len(),
{
    lemma2_to64();
    if b.len() == 0 {
        assert(a + b =~= a);
        assert(pow2(0) == 1);
        let va = be_value(a);
        assert(va * 1 == va) by (nonlinear_arith);
    } else {
        let n = b.len();
        assert((a + b).drop_last() =~= a + b.drop_last());
        assert((a + b).last() == b.last());
        lemma_be_value_concat(a, b.drop_last());
        lemma_pow2_adds((8 * (n - 1)) as nat, 8);
        assert((8 * (n - 1)) as nat + 8 == 8 * n);
        let p = pow2((8 * (n - 1)) as nat);
        let va = be_value(a);
        let vb = be_value(b.drop_last());
        assert((va * p + vb) * 256 == va * (p * 256) + vb * 256) by (nonlinear_arith);
        assert(be_value(b) == vb * 256 + b.last() as nat);
        assert(be_value(a + b) == be_value(a + b.drop_last()) * 256 + b.last() as nat);
        assert(pow2(8 * n) == p * 256);
    }
}

/// The last bytes of a big-endian string denote its value modulo the
/// matching power of 256.
pub proof fn lemma_be_value_suffix(s: Seq<u8>, k: int)
    requires
        0 <= k <= s.len(),
    ensures
        be_value(s.subrange(k, s.len() as int)) == be_value(s) % pow2(8 * (s.len() - k) as nat),
{
    let a = s.subrange(0, k);
    let b = s.subrange(k, s.len() as int);
    assert(s =~= a + b);
    lemma_be_value_concat(a, b);
    lemma_be_value_bound(b);
    let p = pow2(8 * b.len());
    lemma_pow2_pos(8 * b.len());
    vstd::arithmetic::div_mod::lemma_fundamental_div_mod_converse(
        be_value(s) as int,
        p as int,
        be_value(a) as int,
        be_value(b) as int,
    );
}

/// Big-endian byte strings of one length are equal exactly when their values are.
pub proof fn lemma_be_value_injective(a: Seq<u8>, b: Seq<u8>)
    requires
        a.len() == b.len(),
        be_value(a) == be_value(b),
    ensures
        a == b,
    decreases a.len(),
{
    if a.len() > 0 {
        let va = be_value(a.drop_last());
        let vb = be_value(b.drop_last());
        let la = a.last() as int;
        let lb = b.last() as int;
        assert(va == vb && la == lb) by (nonlinear_arith)
            requires
                va * 256 + la == vb * 256 + lb,
                0 <= la < 256,
                0 <= lb < 256,
                va >= 0,
                vb >= 0,
        ;
        lemma_be_value_injective(a.drop_last(), b.drop_last());
        assert(a =~= a.drop_last().push(a.last()));
        assert(b =~= b.drop_last().push(b.last()));
    }
}

/// Reads a big-endian byte string of at most 16 bytes.
pub fn be_bytes_to_u128(bytes: &[u8]) -> (r: u128)
    requires
        bytes@.len() <= 16,
    ensures
        r == be_value(bytes@),
{
    let n = bytes.len();
    let mut v: u128 = 0;
    let mut i: usize = 0;
    while i < n
        invariant
            n == bytes@.len(),
            n <= 16,
            i <= n,
            v == be_value(bytes@.take(i as int)),
        decreases n - i,
    {
        proof {
            lemma_be_value_bound(bytes@.take(i as int));
            lemma2_to64();
            lemma2_to64_rest();
            
            lemma_pow2_adds(64, 56);
            let p = pow2(8 * i as nat);
                        assert(p * 256 <= pow2(120) * 256) by {
                if i < 15 {
                    lemma_pow2_strictly_increases(8 * i as nat, 120);
                }
            }
            assert((v as int) * 256 + 255 < 256 * pow2(120)) by (nonlinear_arith)
                requires
                    (v as int) < p,
                    p * 256 <= pow2(120) * 256,
            ;
            assert(bytes@.take(i + 1).drop_last() =~= bytes@.take(i as int));
        }
        v = v * 256 + (bytes[i] as u128);
        i = i + 1;
    }
    assert(bytes@.take(n as int) =~= bytes@);
    v
}

/// Writes a 128-bit value as 16 big-endian bytes.
pub fn u128_to_be_bytes(x: u128) -> (out: [u8; 16])
    ensures
        out@.len() == 16,
        be_value(out@) == x,
{
    let mut out: [u8; 16] = [0u8; 16];
    let mut y: u128 = x;
    let mut i: usize = 0;
    proof {
        lemma2_to64();
        lemma_u128_pow2_bound();
        assert(be_value(out@.subrange(16, 16)) == 0);
        assert(pow2(8 * 0usize as nat) == 1);
        assert(x == y * pow2(8 * 0usize as nat) + be_value(out@.subrange(16 - 0usize as int, 16)));
    }
    while i < 16
        invariant
            i <= 16,
            out@.len() == 16,
            x == y * pow2(8 * i as nat) + be_value(out@.subrange(16 - i as int, 16)),
            y < pow2((128 - 8 * i) as nat),
        decreases 16 - i,
    {
        let d = (y % 256) as u8;
        let ghost tail = out@.subrange(16 - i as int, 16);
        let ghost old_y = y;
        out[15 - i] = d;
        y = y / 256;
        proof {
            assert(out@.subrange(15 - i as int, 16) =~= seq![d] + tail);
            lemma_be_value_prepend(d, tail);
            lemma_pow2_adds(8 * i as nat, 8);
            lemma_pow2_adds((128 - 8 * (i + 1)) as nat, 8);
            lemma2_to64();
            let p = pow2(8 * i as nat);
            assert(old_y * p == (y * 256 + d) * p);
            assert((y * 256 + d) * p == y * (p * 256) + d * p) by (nonlinear_arith);
            let q = pow2((128 - 8 * (i + 1)) as nat);
            assert(y < q) by (nonlinear_arith)
                requires
                    old_y < q * 256,
                    y == old_y / 256,
            ;
        }
        i = i + 1;
    }
    proof {
        lemma2_to64();
        assert(out@.subrange(0, 16) =~= out@);
    }
    out
}

proof fn lemma_u128_pow2_bound()
    ensures
        u128::MAX < pow2(128),
{
    lemma2_to64_rest();
    lemma_pow2_adds(64, 64);
}

} // verus!
