//! Levenshtein (edit) distance.
//!
//! The distance is the minimum number of single-character insertions,
//! deletions and substitutions that turn one string into the other.

use vstd::prelude::*;

use super::common::{preprocess, preprocess_strings, str_chars, SimilarityOpts};

verus! {

/// Smallest of three numbers.
pub open spec fn min3(x: nat, y: nat, z: nat) -> nat {
    if x <= y && x <= z {
        x
    } else if y <= z {
        y
    } else {
        z
    }
}

/// Cost of aligning two characters: 0 when they agree, 1 otherwise.
pub open spec fn subst_cost(x: char, y: char) -> nat {
    if x == y {
        0
    } else {
        1
    }
}

/// Levenshtein distance between two character sequences, defined by the
/// classic recurrence on their prefixes.
pub open spec fn lev(a: Seq<char>, b: Seq<char>) -> nat
    decreases a.len() + b.len(),
{
    if a.len() == 0 {
        b.len()
    } else if b.len() == 0 {
        a.len()
    } else {
        min3(
            lev(a.drop_last(), b) + 1,
            lev(a, b.drop_last()) + 1,
            lev(a.drop_last(), b.drop_last()) + subst_cost(a.last(), b.last()),
        )
    }
}

/// Every single edit costs at most one: deleting or inserting a character,
/// or substituting one for another; keeping an equal character costs
/// nothing.
pub proof fn lemma_lev_single_edits(p: Seq<char>, q: Seq<char>, x: char, y: char)
    ensures
        lev(p.push(x), q) <= lev(p, q) + 1,
        lev(p, q.push(y)) <= lev(p, q) + 1,
        lev(p.push(x), q.push(y)) <= lev(p, q) + 1,
        lev(p.push(x), q.push(x)) <= lev(p, q),
{
    assert(p.push(x).drop_last() =~= p);
    assert(q.push(y).drop_last() =~= q);
    assert(q.push(x).drop_last() =~= q);
}

/// The distance never exceeds the length of the longer sequence.
pub proof fn lemma_lev_upper_bound(a: Seq<char>, b: Seq<char>)
    ensures
        lev(a, b) <= if a.len() >= b.len() { a.len() } else { b.len() },
    decreases a.len() + b.len(),
{
    if a.len() > 0 && b.len() > 0 {
        lemma_lev_upper_bound(a.drop_last(), b.drop_last());
    }
}

/// The distance is at least the difference of the lengths.
pub proof fn lemma_lev_lower_bound(a: Seq<char>, b: Seq<char>)
    ensures
        lev(a, b) >= a.len() - b.len(),
        lev(a, b) >= b.len() - a.len(),
    decreases a.len() + b.len(),
{
    if a.len() > 0 && b.len() > 0 {
        lemma_lev_lower_bound(a.drop_last(), b);
        lemma_lev_lower_bound(a, b.drop_last());
        lemma_lev_lower_bound(a.drop_last(), b.drop_last());
    }
}

/// Levenshtein distance is symmetric.
pub proof fn lemma_lev_symmetric(a: Seq<char>, b: Seq<char>)
    ensures
        lev(a, b) == lev(b, a),
    decreases a.len() + b.len(),
{
    if a.len() > 0 && b.len() > 0 {
        lemma_lev_symmetric(a.drop_last(), b);
        lemma_lev_symmetric(a, b.drop_last());
        lemma_lev_symmetric(a.drop_last(), b.drop_last());
    }
}

/// The distance is zero exactly when the sequences are equal.
pub proof fn lemma_lev_zero_iff_equal(a: Seq<char>, b: Seq<char>)
    ensures
        lev(a, b) == 0 <==> a == b,
    decreases a.len() + b.len(),
{
    if a.len() > 0 && b.len() > 0 {
        lemma_lev_zero_iff_equal(a.drop_last(), b.drop_last());
        if a == b {
            assert(a.drop_last() == b.drop_last());
        }
        if lev(a, b) == 0 {
            assert(a =~= a.drop_last().push(a.last()));
            assert(b =~= b.drop_last().push(b.last()));
        }
    } else if a.len() == 0 && b.len() == 0 {
        assert(a =~= b);
    }
}

fn min_usize(x: usize, y: usize) -> (r: usize)
    ensures
        r == if x <= y { x } else { y },
{
    if x <= y {
        x
    } else {
        y
    }
}

/// Single-row dynamic program over a column string `a` no longer than `b`.
fn lev_rows(a: &Vec<char>, b: &Vec<char>) -> (d: usize)
    requires
        a@.len() <= b@.len(),
    ensures
        d == lev(a@, b@),
{
    let a_len = a.len();
    let b_len = b.len();
    let mut prev_row: Vec<usize> = Vec::new();
    let mut k: usize = 0;
    while k < a_len
        invariant
            a_len == a@.len(),
            a_len <= b_len,
            k <= a_len,
            prev_row@.len() == k,
            forall|m: int| 0 <= m < k ==> prev_row@[m] == lev(a@.take(m), b@.take(0)),
        decreases a_len - k,
    {
        assert(b@.take(0).len() == 0);
        prev_row.push(k);
        k = k + 1;
    }
    assert(b@.take(0).len() == 0);
    prev_row.push(a_len);
    let mut i: usize = 0;
    while i < b_len
        invariant
            a_len == a@.len(),
            b_len == b@.len(),
            a_len <= b_len,
            i <= b_len,
            prev_row@.len() == a_len + 1,
            forall|m: int| 0 <= m <= a_len ==> prev_row@[m] == lev(a@.take(m), b@.take(i as int)),
        decreases b_len - i,
    {
        let mut curr_row: Vec<usize> = Vec::new();
        proof {
            assert(a@.take(0).len() == 0);
        }
        curr_row.push(i + 1);
        let mut j: usize = 0;
        while j < a_len
            invariant
                a_len == a@.len(),
                b_len == b@.len(),
                a_len <= b_len,
                    i < b_len,
                j <= a_len,
                prev_row@.len() == a_len + 1,
                forall|m: int|
                    0 <= m <= a_len ==> prev_row@[m] == lev(a@.take(m), b@.take(i as int)),
                curr_row@.len() == j + 1,
                forall|m: int|
                    0 <= m <= j ==> curr_row@[m] == lev(a@.take(m), b@.take(i + 1)),
            decreases a_len - j,
        {
            let ghost aj = a@.take(j + 1);
            let ghost bi = b@.take(i + 1);
            proof {
                assert(aj.drop_last() =~= a@.take(j as int));
                assert(bi.drop_last() =~= b@.take(i as int));
                assert(aj.last() == a@[j as int]);
                assert(bi.last() == b@[i as int]);
                lemma_lev_upper_bound(a@.take(j as int), bi);
                lemma_lev_upper_bound(aj, b@.take(i as int));
                lemma_lev_upper_bound(a@.take(j as int), b@.take(i as int));
            }
            let cost: usize = if a[j] == b[i] {
                0
            } else {
                1
            };
            // min(insertion, deletion) + 1 is only formed when it beats the
            // substitution, so no intermediate value exceeds the result.
            let substitution = prev_row[j] + cost;
            let gap = min_usize(curr_row[j], prev_row[j + 1]);
            let best = if gap < substitution {
                gap + 1
            } else {
                substitution
            };
            curr_row.push(best);
            j = j + 1;
        }
        prev_row = curr_row;
        i = i + 1;
    }
    proof {
        assert(a@.take(a_len as int) =~= a@);
        assert(b@.take(b_len as int) =~= b@);
    }
    prev_row[a_len]
}

/// Computes the Levenshtein distance between two strings.
///
/// The result is the minimum number of single-character edits needed to
/// transform one string into the other; strings compare by Unicode scalar
/// values.
pub fn levenshtein(a: &str, b: &str) -> (d: usize)
    ensures
        d == lev(a@, b@),
{
    let a_chars = str_chars(a);
    let b_chars = str_chars(b);
    let a_len = a_chars.len();
    let b_len = b_chars.len();
    if a_len == 0 {
        return b_len;
    }
    if b_len == 0 {
        return a_len;
    }
    if a_len > b_len {
        proof {
            lemma_lev_symmetric(a@, b@);
        }
        return lev_rows(&b_chars, &a_chars);
    }
    lev_rows(&a_chars, &b_chars)
}

/// Computes the Levenshtein distance after preprocessing both strings with
/// the given options (whitespace trimming, case folding).
pub fn levenshtein_with_opts(a: &str, b: &str, opts: &SimilarityOpts) -> (d: usize)
    ensures
        d == lev(preprocess(a@, *opts), preprocess(b@, *opts)),
{
    let (a_processed, b_processed) = preprocess_strings(a, b, opts);
    levenshtein(a_processed.as_str(), b_processed.as_str())
}

} // verus!
