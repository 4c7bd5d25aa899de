//! SimHash fingerprints of text for locality-sensitive similarity queries.
//!
//! Features are character trigrams of the lowercased text plus its
//! whitespace-separated words (single characters for texts of at most two
//! characters). Each feature is hashed with 64-bit FNV-1a over its UTF-8
//! bytes, and bit `i` of the fingerprint is set when more features have bit
//! `i` set than cleared.

use vstd::prelude::*;
use vstd::utf8::encode_utf8;

use super::common::{char_is_whitespace, is_white_space, lowercase, push_char, str_chars, to_lowercase};
use crate::bits::{count_ones_u64, lemma_popcount_zero, popcount};

verus! {

/// FNV-1a 64-bit offset basis.
pub const FNV_OFFSET_BASIS: u64 = 14695981039346656037;

/// FNV-1a 64-bit prime.
pub const FNV_PRIME: u64 = 1099511628211;

/// 64-bit FNV-1a hash of a byte string.
pub open spec fn fnv1a(bytes: Seq<u8>) -> u64
    decreases bytes.len(),
{
    if bytes.len() == 0 {
        FNV_OFFSET_BASIS
    } else {
        (((fnv1a(bytes.drop_last()) ^ (bytes.last() as u64)) as nat * FNV_PRIME as nat)
            % 0x1_0000_0000_0000_0000) as u64
    }
}

/// Hash of a text feature: FNV-1a over its UTF-8 encoding.
pub open spec fn feature_hash(s: Seq<char>) -> u64 {
    fnv1a(encode_utf8(s))
}

/// Whitespace-separated words of `t`, where `cur` is the word being read.
pub open spec fn words_from(t: Seq<char>, cur: Seq<char>) -> Seq<Seq<char>>
    decreases t.len(),
{
    let done = if cur.len() > 0 {
        seq![cur]
    } else {
        Seq::empty()
    };
    if t.len() == 0 {
        done
    } else if is_white_space(t[0]) {
        done + words_from(t.drop_first(), Seq::empty())
    } else {
        words_from(t.drop_first(), cur.push(t[0]))
    }
}

/// Maximal runs of non-whitespace characters of `t`, in order.
pub open spec fn words(t: Seq<char>) -> Seq<Seq<char>> {
    words_from(t, Seq::empty())
}

/// Character trigrams of `t`: every window of three consecutive characters.
pub open spec fn trigrams(t: Seq<char>) -> Seq<Seq<char>> {
    Seq::new((t.len() - 2) as nat, |i: int| t.subrange(i, i + 3))
}

/// Features of a (lowercased) text: its single characters when it has at
/// most two, otherwise its trigrams followed by its words.
pub open spec fn features(t: Seq<char>) -> Seq<Seq<char>> {
    if t.len() <= 2 {
        Seq::new(t.len(), |i: int| seq![t[i]])
    } else {
        trigrams(t) + words(t)
    }
}

/// Whether bit `i` of `h` is set.
pub open spec fn bit_set(h: u64, i: u64) -> bool {
    (h >> i) & 1 == 1
}

/// Number of hashes among `hs` with bit `i` set.
pub open spec fn ones_at(hs: Seq<u64>, i: u64) -> nat
    decreases hs.len(),
{
    if hs.len() == 0 {
        0
    } else {
        ones_at(hs.drop_last(), i) + if bit_set(hs.last(), i) {
            1nat
        } else {
            0nat
        }
    }
}

/// Whether bit `i` wins the vote: set in more hashes than it is clear in.
pub open spec fn majority(hs: Seq<u64>, i: u64) -> bool {
    2 * ones_at(hs, i) > hs.len()
}

/// Hashes of all features of the lowercased text.
pub open spec fn text_feature_hashes(text: Seq<char>) -> Seq<u64> {
    features(lowercase(text)).map_values(|f: Seq<char>| feature_hash(f))
}

/// Whether `fp` is the fingerprint whose bits are the votes over `hs`.
pub open spec fn is_fingerprint(fp: u64, hs: Seq<u64>) -> bool {
    forall|i: u64| i < 64 ==> (bit_set(fp, i) <==> majority(hs, i))
}

proof fn lemma_ones_at_bound(hs: Seq<u64>, i: u64)
    ensures
        ones_at(hs, i) <= hs.len(),
    decreases hs.len(),
{
    if hs.len() > 0 {
        lemma_ones_at_bound(hs.drop_last(), i);
    }
}

proof fn lemma_set_bit(fp: u64, i: u64, j: u64)
    requires
        i < 64,
        j < 64,
    ensures
        bit_set(fp | (1u64 << i), j) <==> (j == i || bit_set(fp, j)),
{
    assert(((fp | (1u64 << i)) >> j) & 1 == 1 <==> (j == i || (fp >> j) & 1 == 1)) by (bit_vector)
        requires
            i < 64,
            j < 64,
    ;
}

proof fn lemma_shr_eq(a: u64, b: u64, k: u64)
    requires
        k < 64,
        forall|i: u64| k <= i < 64 ==> (bit_set(a, i) <==> bit_set(b, i)),
    ensures
        a >> k == b >> k,
    decreases 64 - k,
{
    assert(bit_set(a, k) <==> bit_set(b, k));
    assert((a >> k) & 1 == 0 || (a >> k) & 1 == 1) by (bit_vector);
    assert((b >> k) & 1 == 0 || (b >> k) & 1 == 1) by (bit_vector);
    assert((a >> k) & 1 == (b >> k) & 1);
    if k == 63 {
        assert(a >> k == (a >> k) & 1) by (bit_vector)
            requires
                k == 63,
        ;
        assert(b >> k == (b >> k) & 1) by (bit_vector)
            requires
                k == 63,
        ;
    } else {
        lemma_shr_eq(a, b, (k + 1) as u64);
        let k1 = (k + 1) as u64;
        assert(a >> k == ((a >> k1) << 1u64) | ((a >> k) & 1)) by (bit_vector)
            requires
                k < 63,
                k1 == k + 1,
        ;
        assert(b >> k == ((b >> k1) << 1u64) | ((b >> k) & 1)) by (bit_vector)
            requires
                k < 63,
                k1 == k + 1,
        ;
    }
}

/// A fingerprint is determined by the votes: two fingerprints of the same
/// feature hashes are equal.
pub proof fn lemma_fingerprint_unique(fp1: u64, fp2: u64, hs: Seq<u64>)
    requires
        is_fingerprint(fp1, hs),
        is_fingerprint(fp2, hs),
    ensures
        fp1 == fp2,
{
    assert forall|i: u64| 0 <= i < 64 implies (bit_set(fp1, i) <==> bit_set(fp2, i)) by {
        assert(bit_set(fp1, i) <==> majority(hs, i));
        assert(bit_set(fp2, i) <==> majority(hs, i));
    }
    lemma_shr_eq(fp1, fp2, 0);
    assert(fp1 >> 0u64 == fp1) by (bit_vector);
    assert(fp2 >> 0u64 == fp2) by (bit_vector);
}

proof fn lemma_ones_at_filter(hs: Seq<u64>, i: u64)
    ensures
        ones_at(hs, i) == hs.filter(|h: u64| (h >> i) & 1 == 1).len(),
    decreases hs.len(),
{
    reveal(Seq::filter);
    if hs.len() > 0 {
        lemma_ones_at_filter(hs.drop_last(), i);
    }
}

/// Each fingerprint bit is the strict majority vote of the feature hashes:
/// bit `i` is set exactly when more than half of the hashes have bit `i` set.
pub proof fn lemma_fingerprint_bit_votes(fp: u64, hs: Seq<u64>)
    requires
        is_fingerprint(fp, hs),
    ensures
        forall|i: u64|
            i < 64 ==> (((fp >> i) & 1 == 1) <==> 2 * hs.filter(|h: u64| (h >> i) & 1 == 1).len()
                > hs.len()),
{
    assert forall|i: u64| i < 64 implies (((fp >> i) & 1 == 1) <==> 2 * hs.filter(
        |h: u64| (h >> i) & 1 == 1,
    ).len() > hs.len()) by {
        lemma_ones_at_filter(hs, i);
        assert(bit_set(fp, i) <==> majority(hs, i));
    }
}

/// The fingerprint of a single feature hash is that hash.
pub proof fn lemma_fingerprint_single(fp: u64, h: u64)
    requires
        is_fingerprint(fp, seq![h]),
    ensures
        fp == h,
{
    let hs = seq![h];
    assert(hs.drop_last() =~= Seq::<u64>::empty());
    assert forall|i: u64| i < 64 implies (bit_set(h, i) <==> majority(hs, i)) by {
        assert(ones_at(hs.drop_last(), i) == 0);
        assert(hs.last() == h);
        assert(ones_at(hs, i) == if bit_set(h, i) {
            1nat
        } else {
            0nat
        });
    }
    lemma_fingerprint_unique(fp, h, hs);
}

/// SimHash ignores letter case: texts with the same lowercase form (and at
/// least one feature) have the same fingerprint.
pub proof fn lemma_simhash_case_insensitive(a: Seq<char>, b: Seq<char>, fa: u64, fb: u64)
    requires
        lowercase(a) == lowercase(b),
        features(lowercase(a)).len() > 0,
        is_fingerprint(fa, text_feature_hashes(a)),
        is_fingerprint(fb, text_feature_hashes(b)),
    ensures
        fa == fb,
{
    lemma_fingerprint_unique(fa, fb, text_feature_hashes(a));
}

/// Hashes a string with 64-bit FNV-1a over its UTF-8 bytes.
pub fn hash_string(s: &str) -> (h: u64)
    ensures
        h == feature_hash(s@),
{
    let bytes = s.as_bytes();
    let n = bytes.len();
    let mut hash: u64 = FNV_OFFSET_BASIS;
    let mut k: usize = 0;
    while k < n
        invariant
            n == bytes@.len(),
            bytes@ == encode_utf8(s@),
            k <= n,
            hash == fnv1a(bytes@.take(k as int)),
        decreases n - k,
    {
        assert(bytes@.take(k + 1).drop_last() =~= bytes@.take(k as int));
        hash = hash ^ (bytes[k] as u64);
        hash = hash.wrapping_mul(FNV_PRIME);
        k = k + 1;
    }
    assert(bytes@.take(n as int) =~= bytes@);
    hash
}

fn string_of_chars(chars: &Vec<char>, start: usize, end: usize) -> (r: String)
    requires
        start <= end <= chars@.len(),
    ensures
        r@ == chars@.subrange(start as int, end as int),
{
    let mut r = String::new();
    let mut k = start;
    while k < end
        invariant
            start <= k <= end,
            end <= chars@.len(),
            r@ == chars@.subrange(start as int, k as int),
        decreases end - k,
    {
        push_char(&mut r, chars[k]);
        k = k + 1;
        assert(r@ =~= chars@.subrange(start as int, k as int));
    }
    r
}

/// Extracts the SimHash features of a text.
pub fn extract_features(text: &str) -> (fs: Vec<String>)
    ensures
        fs@.len() == features(text@).len(),
        forall|k: int| 0 <= k < fs@.len() ==> (#[trigger] fs@[k])@ == features(text@)[k],
{
    let chars = str_chars(text);
    let n = chars.len();
    let mut fs: Vec<String> = Vec::new();
    let ghost t = text@;
    if n <= 2 {
        let mut k: usize = 0;
        while k < n
            invariant
                chars@ == t,
                n == t.len(),
                n <= 2,
                k <= n,
                fs@.len() == k,
                forall|m: int| 0 <= m < k ==> (#[trigger] fs@[m])@ == seq![t[m]],
            decreases n - k,
        {
            let s = string_of_chars(&chars, k, k + 1);
            assert(s@ =~= seq![t[k as int]]);
            fs.push(s);
            k = k + 1;
        }
        return fs;
    }
    let mut k: usize = 0;
    while k + 2 < n
        invariant
            chars@ == t,
            n == t.len(),
            n > 2,
            k <= n - 2,
            fs@.len() == k,
            forall|m: int| 0 <= m < k ==> (#[trigger] fs@[m])@ == trigrams(t)[m],
        decreases n - k,
    {
        let s = string_of_chars(&chars, k, k + 3);
        fs.push(s);
        k = k + 1;
    }
    let ghost tri = fs@.map_values(|x: String| x@);
    assert(tri =~= trigrams(t));
    // Words: maximal runs of non-whitespace characters.
    let mut cur = String::new();
    let mut i: usize = 0;
    assert(t.subrange(0, n as int) =~= t);
    assert(cur@ =~= Seq::<char>::empty());
    assert(features(t) == trigrams(t) + words(t));
    while i < n
        invariant
            chars@ == t,
            n == t.len(),
            n > 2,
            i <= n,
            fs@.map_values(|x: String| x@) + words_from(t.subrange(i as int, n as int), cur@)
                == features(t),
        decreases n - i,
    {
        let c = chars[i];
        let ghost rest = t.subrange(i as int, n as int);
        assert(rest[0] == c);
        assert(rest.drop_first() =~= t.subrange(i + 1, n as int));
        if char_is_whitespace(c) {
            if !cur.as_str().is_empty() {
                let ghost before = fs@;
                fs.push(cur);
                assert(fs@.map_values(|x: String| x@) =~= before.map_values(|x: String| x@) + seq![
                    cur@,
                ]);
            }
            cur = String::new();
        } else {
            push_char(&mut cur, c);
        }
        i = i + 1;
    }
    proof {
        assert(t.subrange(n as int, n as int) =~= Seq::<char>::empty());
    }
    if !cur.as_str().is_empty() {
        fs.push(cur);
    }
    proof {
        let v = fs@.map_values(|x: String| x@);
        assert forall|k: int| 0 <= k < fs@.len() implies (#[trigger] fs@[k])@ == features(
            t,
        )[k] by {
            assert(v[k] == fs@[k]@);
        }
    }
    fs
}

/// Computes the SimHash fingerprint of a text.
///
/// The empty text hashes to 0. Otherwise bit `i` of the result is set exactly
/// when more features of the lowercased text have bit `i` set in their hash
/// than have it clear (a text without features hashes as a whole).
pub fn simhash(text: &str) -> (r: u64)
    ensures
        text@.len() == 0 ==> r == 0,
        text@.len() > 0 && features(lowercase(text@)).len() == 0 ==> r == feature_hash(text@),
        text@.len() > 0 && features(lowercase(text@)).len() > 0 ==> is_fingerprint(
            r,
            text_feature_hashes(text@),
        ),
        text@.len() > 0 && features(lowercase(text@)).len() == 1 ==> r == feature_hash(
            features(lowercase(text@))[0],
        ),
{
    if text.is_empty() {
        return 0;
    }
    let text_lower = to_lowercase(text);
    let fs = extract_features(text_lower.as_str());
    let ghost hs = text_feature_hashes(text@);
    if fs.len() == 0 {
        return hash_string(text);
    }
    let n = fs.len();
    let mut ones: Vec<usize> = Vec::new();
    let mut b: usize = 0;
    while b < 64
        invariant
            b <= 64,
            ones@.len() == b,
            forall|m: int| 0 <= m < b ==> ones@[m] == 0,
        decreases 64 - b,
    {
        ones.push(0);
        b = b + 1;
    }
    let mut k: usize = 0;
    while k < n
        invariant
            n == fs@.len(),
            n == hs.len(),
            hs == text_feature_hashes(text@),
            forall|m: int| 0 <= m < n ==> hs[m] == feature_hash((#[trigger] fs@[m])@),
            k <= n,
            ones@.len() == 64,
            forall|m: int| 0 <= m < 64 ==> #[trigger] ones@[m] == ones_at(hs.take(k as int), m as u64),
            forall|m: int| 0 <= m < 64 ==> #[trigger] ones@[m] <= k,
        decreases n - k,
    {
        let h = hash_string(fs[k].as_str());
        assert(h == hs[k as int]);
        let ghost prev = ones@;
        let mut i: u64 = 0;
        while i < 64
            invariant
                k < n,
                n == hs.len(),
                h == hs[k as int],
                i <= 64,
                ones@.len() == 64,
                forall|m: int|
                    0 <= m < i ==> #[trigger] ones@[m] == ones_at(hs.take(k + 1), m as u64),
                forall|m: int| i <= m < 64 ==> #[trigger] ones@[m] == prev[m],
                forall|m: int| 0 <= m < 64 ==> #[trigger] prev[m] == ones_at(hs.take(k as int), m as u64),
                forall|m: int| 0 <= m < 64 ==> #[trigger] prev[m] <= k,
                forall|m: int| 0 <= m < 64 ==> #[trigger] ones@[m] <= k + 1,
            decreases 64 - i,
        {
            assert(hs.take(k + 1).drop_last() =~= hs.take(k as int));
            assert(hs.take(k + 1).last() == h);
            if (h >> i) & 1 == 1 {
                let c = ones[i as usize];
                ones.set(i as usize, c + 1);
            }
            i = i + 1;
        }
        k = k + 1;
    }
    assert(hs.take(n as int) =~= hs);
    let mut fingerprint: u64 = 0;
    let mut i: u64 = 0;
    assert forall|j: u64| 0 <= j < 64 implies !bit_set(fingerprint, j) by {
        assert((0u64 >> j) & 1 == 0) by (bit_vector);
    }
    while i < 64
        invariant
            n == hs.len(),
            ones@.len() == 64,
            forall|m: int| 0 <= m < 64 ==> #[trigger] ones@[m] == ones_at(hs, m as u64),
            forall|m: int| 0 <= m < 64 ==> #[trigger] ones@[m] <= n,
            i <= 64,
            forall|j: u64| j < i ==> (bit_set(fingerprint, j) <==> majority(hs, j)),
            forall|j: u64| i <= j < 64 ==> !bit_set(fingerprint, j),
        decreases 64 - i,
    {
        let c = ones[i as usize];
        if c > n - c {
            let ghost old_fp = fingerprint;
            fingerprint = fingerprint | (1u64 << i);
            proof {
                assert forall|j: u64| j < 64 implies (bit_set(fingerprint, j) <==> (j == i
                    || bit_set(old_fp, j))) by {
                    lemma_set_bit(old_fp, i, j);
                }
            }
        }
        i = i + 1;
    }
    proof {
        if n == 1 {
            assert(hs =~= seq![hs[0]]);
            lemma_fingerprint_single(fingerprint, hs[0]);
        }
    }
    fingerprint
}

/// Number of bit positions at which two 64-bit hashes differ.
pub open spec fn spec_simhash_distance(a: u64, b: u64) -> nat {
    popcount((a ^ b) as nat)
}

/// Computes the Hamming distance between two SimHash values.
pub fn simhash_distance(hash1: u64, hash2: u64) -> (d: u32)
    ensures
        d == spec_simhash_distance(hash1, hash2),
        d <= 64,
{
    count_ones_u64(hash1 ^ hash2)
}

/// The SimHash distance is symmetric and zero exactly on equal hashes.
pub proof fn lemma_simhash_distance_metric(a: u64, b: u64)
    ensures
        spec_simhash_distance(a, b) == spec_simhash_distance(b, a),
        spec_simhash_distance(a, b) == 0 <==> a == b,
{
    assert(a ^ b == b ^ a) by (bit_vector);
    assert(a ^ b == 0 <==> a == b) by (bit_vector);
    lemma_popcount_zero((a ^ b) as nat);
}

/// Indices of the candidates within `max_distance` of `query`, in order.
pub open spec fn similar_indices(query: u64, hs: Seq<u64>, max_distance: u32) -> Seq<usize>
    decreases hs.len(),
{
    if hs.len() == 0 {
        Seq::empty()
    } else {
        let prefix = similar_indices(query, hs.drop_last(), max_distance);
        if spec_simhash_distance(query, hs.last()) <= max_distance {
            prefix.push((hs.len() - 1) as usize)
        } else {
            prefix
        }
    }
}

/// The similar candidates are exactly those whose hash differs from the
/// query in at most `max_distance` bits (the set bits of their XOR), each
/// listed once, in increasing order of index.
pub proof fn lemma_similar_indices_members(q: u64, hs: Seq<u64>, m: u32)
    requires
        hs.len() <= usize::MAX,
    ensures
        ({
            let r = similar_indices(q, hs, m);
            &&& forall|k: int|
                0 <= k < r.len() ==> r[k] < hs.len() && popcount((q ^ hs[r[k] as int]) as nat) <= m
            &&& forall|k1: int, k2: int| 0 <= k1 < k2 < r.len() ==> r[k1] < r[k2]
            &&& forall|i: int|
                0 <= i < hs.len() && popcount((q ^ hs[i]) as nat) <= m ==> exists|k: int|
                    0 <= k < r.len() && r[k] == i
        }),
    decreases hs.len(),
{
    if hs.len() > 0 {
        let d = hs.drop_last();
        lemma_similar_indices_members(q, d, m);
        let r0 = similar_indices(q, d, m);
        let r = similar_indices(q, hs, m);
        let n = hs.len() - 1;
        assert forall|k: int| 0 <= k < r0.len() implies hs[r0[k] as int] == d[r0[k] as int] by {}
        assert forall|i: int|
            0 <= i < hs.len() && popcount((q ^ hs[i]) as nat) <= m implies exists|k: int|
                0 <= k < r.len() && r[k] == i by {
            if i < n {
                assert(d[i] == hs[i]);
                let k = choose|k: int| 0 <= k < r0.len() && r0[k] == i;
                assert(r[k] == i);
            } else {
                assert(r[r.len() - 1] == i);
            }
        }
    }
}

/// Finds the indices of all candidate hashes within `max_distance` bits of
/// `query_hash`, in increasing order.
pub fn find_similar_hashes(query_hash: u64, candidate_hashes: &[u64], max_distance: u32) -> (r:
    Vec<usize>)
    ensures
        r@ == similar_indices(query_hash, candidate_hashes@, max_distance),
{
    let n = candidate_hashes.len();
    let mut r: Vec<usize> = Vec::new();
    let mut i: usize = 0;
    while i < n
        invariant
            n == candidate_hashes@.len(),
            i <= n,
            r@ == similar_indices(query_hash, candidate_hashes@.take(i as int), max_distance),
        decreases n - i,
    {
        let ghost pre = candidate_hashes@.take(i + 1);
        assert(pre.drop_last() =~= candidate_hashes@.take(i as int));
        let distance = simhash_distance(query_hash, candidate_hashes[i]);
        if distance <= max_distance {
            r.push(i);
        }
        i = i + 1;
    }
    assert(candidate_hashes@.take(n as int) =~= candidate_hashes@);
    r
}

} // verus!
