//! Hamming distance between equal-length strings.

use vstd::prelude::*;

use super::common::str_chars;

verus! {

/// Number of positions below `n` at which `a` and `b` hold different characters.
pub open spec fn mismatches(a: Seq<char>, b: Seq<char>, n: int) -> nat
    decreases n,
{
    if n <= 0 {
        0
    } else {
        mismatches(a, b, n - 1) + if a[n - 1] != b[n - 1] {
            1nat
        } else {
            0nat
        }
    }
}

/// Hamming distance of two character sequences of equal length.
pub open spec fn char_hamming(a: Seq<char>, b: Seq<char>) -> nat {
    mismatches(a, b, a.len() as int)
}

/// Counting mismatches is symmetric and bounded by the number of positions.
pub proof fn lemma_mismatches_props(a: Seq<char>, b: Seq<char>, n: int)
    requires
        0 <= n,
    ensures
        mismatches(a, b, n) == mismatches(b, a, n),
        mismatches(a, b, n) <= n,
    decreases n,
{
    if n > 0 {
        lemma_mismatches_props(a, b, n - 1);
    }
}

/// Mismatches are zero exactly when the first `n` positions agree.
pub proof fn lemma_mismatches_zero(a: Seq<char>, b: Seq<char>, n: int)
    requires
        0 <= n,
    ensures
        mismatches(a, b, n) == 0 <==> (forall|k: int| 0 <= k < n ==> a[k] == b[k]),
    decreases n,
{
    if n > 0 {
        lemma_mismatches_zero(a, b, n - 1);
    }
}

/// The Hamming distance of equal-length strings is symmetric, zero exactly on
/// equal strings, and at most their length.
pub proof fn lemma_char_hamming_metric(a: Seq<char>, b: Seq<char>)
    requires
        a.len() == b.len(),
    ensures
        char_hamming(a, b) == char_hamming(b, a),
        char_hamming(a, b) <= a.len(),
        char_hamming(a, b) == 0 <==> a == b,
{
    lemma_mismatches_props(a, b, a.len() as int);
    lemma_mismatches_zero(a, b, a.len() as int);
    if char_hamming(a, b) == 0 {
        assert(a =~= b);
    }
}

/// Computes the Hamming distance between two strings.
///
/// Returns the number of positions at which the characters differ, or `None`
/// when the strings have different lengths (in characters).
pub fn hamming(a: &str, b: &str) -> (r: Option<usize>)
    ensures
        match r {
            Some(d) => a@.len() == b@.len() && d == char_hamming(a@, b@),
            None => a@.len() != b@.len(),
        },
{
    let a_chars = str_chars(a);
    let b_chars = str_chars(b);
    if a_chars.len() != b_chars.len() {
        return None;
    }
    let n = a_chars.len();
    let mut distance: usize = 0;
    let mut i: usize = 0;
    while i < n
        invariant
            n == a_chars@.len(),
            n == b_chars@.len(),
            a_chars@ == a@,
            b_chars@ == b@,
            i <= n,
            distance == mismatches(a@, b@, i as int),
        decreases n - i,
    {
        proof {
            lemma_mismatches_props(a@, b@, i as int);
        }
        if a_chars[i] != b_chars[i] {
            distance = distance + 1;
        }
        i = i + 1;
    }
    Some(distance)
}

} // verus!
