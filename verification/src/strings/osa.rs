//! Optimal String Alignment (OSA) distance.
//!
//! Like Levenshtein distance, but a swap of two adjacent characters also
//! counts as a single edit (with no substring edited twice).

use vstd::prelude::*;

use super::common::str_chars;
use super::levenshtein::{lemma_lev_upper_bound, lev, min3, subst_cost};

verus! {

/// Whether the last two characters of `a` are those of `b` in swapped order.
pub open spec fn swapped_tail(a: Seq<char>, b: Seq<char>) -> bool {
    &&& a.len() > 1
    &&& b.len() > 1
    &&& a[a.len() - 1] == b[b.len() - 2]
    &&& a[a.len() - 2] == b[b.len() - 1]
}

/// OSA distance between two character sequences, defined by the recurrence
/// of the Levenshtein distance extended with adjacent transpositions.
pub open spec fn osa(a: Seq<char>, b: Seq<char>) -> nat
    decreases a.len() + b.len(),
{
    if a.len() == 0 {
        b.len()
    } else if b.len() == 0 {
        a.len()
    } else {
        let base = min3(
            osa(a.drop_last(), b) + 1,
            osa(a, b.drop_last()) + 1,
            osa(a.drop_last(), b.drop_last()) + subst_cost(a.last(), b.last()),
        );
        if swapped_tail(a, b) {
            let t = osa(a.take(a.len() - 2), b.take(b.len() - 2)) + 1;
            if t < base {
                t
            } else {
                base
            }
        } else {
            base
        }
    }
}

/// OSA distance never exceeds Levenshtein distance.
pub proof fn lemma_osa_le_lev(a: Seq<char>, b: Seq<char>)
    ensures
        osa(a, b) <= lev(a, b),
    decreases a.len() + b.len(),
{
    if a.len() > 0 && b.len() > 0 {
        lemma_osa_le_lev(a.drop_last(), b);
        lemma_osa_le_lev(a, b.drop_last());
        lemma_osa_le_lev(a.drop_last(), b.drop_last());
    }
}

/// OSA distance is symmetric.
pub proof fn lemma_osa_symmetric(a: Seq<char>, b: Seq<char>)
    ensures
        osa(a, b) == osa(b, a),
    decreases a.len() + b.len(),
{
    if a.len() > 0 && b.len() > 0 {
        lemma_osa_symmetric(a.drop_last(), b);
        lemma_osa_symmetric(a, b.drop_last());
        lemma_osa_symmetric(a.drop_last(), b.drop_last());
        if a.len() > 1 && b.len() > 1 {
            lemma_osa_symmetric(a.take(a.len() - 2), b.take(b.len() - 2));
        }
    }
}

/// OSA distance is zero exactly when the sequences are equal.
pub proof fn lemma_osa_zero_iff_equal(a: Seq<char>, b: Seq<char>)
    ensures
        osa(a, b) == 0 <==> a == b,
    decreases a.len() + b.len(),
{
    if a.len() > 0 && b.len() > 0 {
        lemma_osa_zero_iff_equal(a.drop_last(), b.drop_last());
        if a == b {
            assert(a.drop_last() == b.drop_last());
        }
        if osa(a, b) == 0 {
            assert(a =~= a.drop_last().push(a.last()));
            assert(b =~= b.drop_last().push(b.last()));
        }
    } else if a.len() == 0 && b.len() == 0 {
        assert(a =~= b);
    }
}

/// Every single edit costs at most one: deleting or inserting a character,
/// substituting one for another, or swapping two adjacent characters, after
/// any alignment of the prefixes (of any lengths); keeping an equal
/// character costs nothing.
pub proof fn lemma_osa_single_edits(p: Seq<char>, q: Seq<char>, x: char, y: char)
    ensures
        osa(p.push(x), q) <= osa(p, q) + 1,
        osa(p, q.push(y)) <= osa(p, q) + 1,
        osa(p.push(x), q.push(y)) <= osa(p, q) + 1,
        osa(p.push(x), q.push(x)) <= osa(p, q),
        osa(p.push(x).push(y), q.push(y).push(x)) <= osa(p, q) + 1,
{
    assert(p.push(x).drop_last() =~= p);
    assert(q.push(y).drop_last() =~= q);
    assert(q.push(x).drop_last() =~= q);
    let a = p.push(x).push(y);
    let b = q.push(y).push(x);
    assert(a.take(a.len() - 2) =~= p);
    assert(b.take(b.len() - 2) =~= q);
    assert(swapped_tail(a, b));
}

/// OSA distance is at least the difference of the lengths: each edit
/// changes the length by at most one.
pub proof fn lemma_osa_lower_bound(a: Seq<char>, b: Seq<char>)
    ensures
        osa(a, b) >= a.len() - b.len(),
        osa(a, b) >= b.len() - a.len(),
    decreases a.len() + b.len(),
{
    if a.len() > 0 && b.len() > 0 {
        lemma_osa_lower_bound(a.drop_last(), b);
        lemma_osa_lower_bound(a, b.drop_last());
        lemma_osa_lower_bound(a.drop_last(), b.drop_last());
        if a.len() > 1 && b.len() > 1 {
            lemma_osa_lower_bound(a.take(a.len() - 2), b.take(b.len() - 2));
        }
    }
}

fn min_usize(x: usize, y: usize) -> (r: usize)
    ensures
        r == if x <= y { x } else { y },
{
    if x <= y {
        x
    } else {
        y
    }
}

/// Computes the Optimal String Alignment distance between two strings.
///
/// Counts insertions, deletions, substitutions and transpositions of two
/// adjacent characters as single edits.
pub fn osa_distance(a: &str, b: &str) -> (d: usize)
    ensures
        d == osa(a@, b@),
{
    let a_chars = str_chars(a);
    let b_chars = str_chars(b);
    let a_len = a_chars.len();
    let b_len = b_chars.len();
    if a_len == 0 {
        return b_len;
    }
    if b_len == 0 {
        return a_len;
    }
    let ghost sa = a@;
    let ghost sb = b@;
    // Rows of the distance matrix, indexed by prefixes of `a`.
    let mut matrix: Vec<Vec<usize>> = Vec::new();
    let mut first: Vec<usize> = Vec::new();
    let mut j: usize = 0;
    while j < b_len
        invariant
            b_len == sb.len(),
            j <= b_len,
            first@.len() == j,
            forall|m: int| 0 <= m < j ==> first@[m] == osa(sa.take(0), sb.take(m)),
        decreases b_len - j,
    {
        assert(sa.take(0).len() == 0);
        first.push(j);
        j = j + 1;
    }
    assert(sa.take(0).len() == 0);
    first.push(b_len);
    matrix.push(first);
    let mut ii: usize = 0;
    while ii < a_len
        invariant
            a_chars@ == sa,
            b_chars@ == sb,
            a_len == sa.len(),
            b_len == sb.len(),
            ii <= a_len,
            matrix@.len() == ii + 1,
            forall|r: int| 0 <= r <= ii ==> (#[trigger] matrix@[r])@.len() == b_len + 1,
            forall|r: int, c: int|
                0 <= r <= ii && 0 <= c <= b_len ==> #[trigger] matrix@[r]@[c] == osa(
                    sa.take(r),
                    sb.take(c),
                ),
        decreases a_len - ii,
    {
        let i = ii + 1;
        let mut row: Vec<usize> = Vec::new();
        proof {
            assert(sb.take(0).len() == 0);
            assert(sa.take(i as int).len() == i);
        }
        row.push(i);
        let mut jj: usize = 0;
        while jj < b_len
            invariant
                a_chars@ == sa,
                b_chars@ == sb,
                a_len == sa.len(),
                b_len == sb.len(),
                i == ii + 1,
                1 <= i <= a_len,
                jj <= b_len,
                matrix@.len() == i,
                forall|r: int| 0 <= r < i ==> (#[trigger] matrix@[r])@.len() == b_len + 1,
                forall|r: int, c: int|
                    0 <= r < i && 0 <= c <= b_len ==> #[trigger] matrix@[r]@[c] == osa(
                        sa.take(r),
                        sb.take(c),
                    ),
                row@.len() == jj + 1,
                forall|c: int| 0 <= c <= jj ==> row@[c] == osa(sa.take(i as int), sb.take(c)),
            decreases b_len - jj,
        {
            let j = jj + 1;
            let ghost ai = sa.take(i as int);
            let ghost bj = sb.take(j as int);
            proof {
                assert(ai.drop_last() =~= sa.take(i - 1));
                assert(bj.drop_last() =~= sb.take(j - 1));
                assert(ai.last() == sa[i - 1]);
                assert(bj.last() == sb[j - 1]);
                lemma_osa_le_lev(sa.take(i - 1), bj);
                lemma_lev_upper_bound(sa.take(i - 1), bj);
                lemma_osa_le_lev(ai, sb.take(j - 1));
                lemma_lev_upper_bound(ai, sb.take(j - 1));
                lemma_osa_le_lev(sa.take(i - 1), sb.take(j - 1));
                lemma_lev_upper_bound(sa.take(i - 1), sb.take(j - 1));
            }
            let cost: usize = if a_chars[i - 1] == b_chars[j - 1] {
                0
            } else {
                1
            };
            // min(deletion, insertion) + 1 is only formed when it beats the
            // substitution, so no intermediate value exceeds the result.
            let substitution = matrix[i - 1][j - 1] + cost;
            let gap = min_usize(matrix[i - 1][j], row[j - 1]);
            let mut min_dist = if gap < substitution {
                gap + 1
            } else {
                substitution
            };
            if i > 1 && j > 1 && a_chars[i - 1] == b_chars[j - 2] && a_chars[i - 2] == b_chars[j
                - 1] {
                proof {
                    assert(ai.take(ai.len() - 2) =~= sa.take(i - 2));
                    assert(bj.take(bj.len() - 2) =~= sb.take(j - 2));
                    lemma_osa_le_lev(sa.take(i - 2), sb.take(j - 2));
                    lemma_lev_upper_bound(sa.take(i - 2), sb.take(j - 2));
                }
                let transposition = matrix[i - 2][j - 2] + 1;
                min_dist = min_usize(min_dist, transposition);
            }
            row.push(min_dist);
            jj = jj + 1;
        }
        matrix.push(row);
        ii = ii + 1;
    }
    proof {
        assert(sa.take(a_len as int) =~= sa);
        assert(sb.take(b_len as int) =~= sb);
    }
    matrix[a_len][b_len]
}

} // verus!
