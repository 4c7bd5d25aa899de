//! The integer core of Jaro and Jaro-Winkler similarity: which characters
//! match within the match window, how many matched characters are out of
//! order, and how long the common prefix is.
//!
//! Matching is greedy: each character of the first string, in order, takes
//! the first not yet matched equal character of the second string within the
//! window around its position.

use vstd::prelude::*;

use super::common::str_chars;
use super::hamming::mismatches;

verus! {

/// Number of `true` flags.
pub open spec fn count_true(flags: Seq<bool>) -> nat
    decreases flags.len(),
{
    if flags.len() == 0 {
        0
    } else {
        count_true(flags.drop_last()) + if flags.last() {
            1nat
        } else {
            0nat
        }
    }
}

/// The characters of `s` at the flagged positions, in order.
pub open spec fn picked(s: Seq<char>, flags: Seq<bool>) -> Seq<char>
    decreases flags.len(),
{
    if flags.len() == 0 {
        Seq::empty()
    } else if flags.last() {
        picked(s, flags.drop_last()).push(s[flags.len() - 1])
    } else {
        picked(s, flags.drop_last())
    }
}

/// Half-width of the match window: `max(len_a, len_b) / 2 - 1`, at least 0.
pub open spec fn match_window(len_a: nat, len_b: nat) -> nat {
    let m = if len_a >= len_b {
        len_a
    } else {
        len_b
    };
    if m / 2 >= 1 {
        (m / 2 - 1) as nat
    } else {
        0
    }
}

/// First position `j` in `lo .. hi` whose character is `c` and which is not
/// yet matched.
pub open spec fn first_free(c: char, b: Seq<char>, used: Seq<bool>, lo: int, hi: int) -> Option<int>
    decreases hi - lo,
{
    if lo >= hi {
        None
    } else if !used[lo] && b[lo] == c {
        Some(lo)
    } else {
        first_free(c, b, used, lo + 1, hi)
    }
}

/// Window of positions of `b` that character `i` of `a` may match.
pub open spec fn window_lo(i: int, w: nat) -> int {
    if i >= w {
        i - w
    } else {
        0
    }
}

/// End (exclusive) of the window of character `i`.
pub open spec fn window_hi(i: int, w: nat, len_b: nat) -> int {
    if i + w + 1 <= len_b {
        i + w + 1
    } else {
        len_b as int
    }
}

/// The match flags after the first `i` characters of `a` have been matched:
/// one flag per character of `a` seen so far, and one per character of `b`.
pub open spec fn greedy_matches(a: Seq<char>, b: Seq<char>, i: nat) -> (Seq<bool>, Seq<bool>)
    decreases i,
{
    if i == 0 {
        (Seq::empty(), Seq::new(b.len(), |j: int| false))
    } else {
        let (am, bm) = greedy_matches(a, b, (i - 1) as nat);
        let w = match_window(a.len(), b.len());
        let k = (i - 1) as int;
        match first_free(a[k], b, bm, window_lo(k, w), window_hi(k, w, b.len())) {
            Some(j) => (am.push(true), bm.update(j, true)),
            None => (am.push(false), bm),
        }
    }
}

/// Outcome of Jaro matching, from which the similarity follows.
#[derive(Clone, Copy, Debug, PartialEq, Eq, Structural)]
pub enum JaroOutcome {
    /// The strings are equal (similarity 1)
    Identical,
    /// A string is empty, or no characters match (similarity 0)
    NoMatch,
    /// Some characters match
    Matched {
        /// Number of matching characters (positive)
        matches: usize,
        /// Half the number of matched characters out of order (rounded down)
        transpositions: usize,
        /// Character count of the first string
        len_a: usize,
        /// Character count of the second string
        len_b: usize,
    },
}

/// The Jaro outcome of two character sequences.
pub open spec fn spec_jaro_outcome(a: Seq<char>, b: Seq<char>) -> JaroOutcome {
    if a == b {
        JaroOutcome::Identical
    } else if a.len() == 0 || b.len() == 0 {
        JaroOutcome::NoMatch
    } else {
        let (am, bm) = greedy_matches(a, b, a.len());
        let m = count_true(am);
        if m == 0 {
            JaroOutcome::NoMatch
        } else {
            let pa = picked(a, am);
            let pb = picked(b, bm);
            JaroOutcome::Matched {
                matches: m as usize,
                transpositions: (mismatches(pa, pb, pa.len() as int) / 2) as usize,
                len_a: a.len() as usize,
                len_b: b.len() as usize,
            }
        }
    }
}

proof fn lemma_count_true_bound(flags: Seq<bool>)
    ensures
        count_true(flags) <= flags.len(),
    decreases flags.len(),
{
    if flags.len() > 0 {
        lemma_count_true_bound(flags.drop_last());
    }
}

proof fn lemma_count_true_update(flags: Seq<bool>, j: int)
    requires
        0 <= j < flags.len(),
        !flags[j],
    ensures
        count_true(flags.update(j, true)) == count_true(flags) + 1,
    decreases flags.len(),
{
    let u = flags.update(j, true);
    if j == flags.len() - 1 {
        assert(u.drop_last() =~= flags.drop_last());
    } else {
        assert(u.drop_last() =~= flags.drop_last().update(j, true));
        lemma_count_true_update(flags.drop_last(), j);
    }
}

proof fn lemma_picked_len(s: Seq<char>, flags: Seq<bool>)
    ensures
        picked(s, flags).len() == count_true(flags),
    decreases flags.len(),
{
    if flags.len() > 0 {
        lemma_picked_len(s, flags.drop_last());
    }
}

/// Counts of the greedy matching: both flag sequences have as many `true`
/// flags as there were matches.
proof fn lemma_greedy_shape(a: Seq<char>, b: Seq<char>, i: nat)
    requires
        i <= a.len(),
    ensures
        greedy_matches(a, b, i).0.len() == i,
        greedy_matches(a, b, i).1.len() == b.len(),
        count_true(greedy_matches(a, b, i).0) == count_true(greedy_matches(a, b, i).1),
    decreases i,
{
    if i == 0 {
        let bm = Seq::new(b.len(), |j: int| false);
        lemma_count_true_all_false(bm);
    } else {
        lemma_greedy_shape(a, b, (i - 1) as nat);
        let (am, bm) = greedy_matches(a, b, (i - 1) as nat);
        let w = match_window(a.len(), b.len());
        let k = (i - 1) as int;
        let lo = window_lo(k, w);
        let hi = window_hi(k, w, b.len());
        match first_free(a[k], b, bm, lo, hi) {
            Some(j) => {
                lemma_first_free_found(a[k], b, bm, lo, hi);
                lemma_count_true_update(bm, j);
                assert(am.push(true).drop_last() =~= am);
            },
            None => {
                assert(am.push(false).drop_last() =~= am);
            },
        }
    }
}

proof fn lemma_count_true_all_false(flags: Seq<bool>)
    requires
        forall|j: int| 0 <= j < flags.len() ==> !flags[j],
    ensures
        count_true(flags) == 0,
    decreases flags.len(),
{
    if flags.len() > 0 {
        lemma_count_true_all_false(flags.drop_last());
    }
}

proof fn lemma_first_free_found(c: char, b: Seq<char>, used: Seq<bool>, lo: int, hi: int)
    requires
        first_free(c, b, used, lo, hi) is Some,
    ensures
        lo <= first_free(c, b, used, lo, hi)->0 < hi,
        !used[first_free(c, b, used, lo, hi)->0],
        b[first_free(c, b, used, lo, hi)->0] == c,
    decreases hi - lo,
{
    if lo < hi && !(!used[lo] && b[lo] == c) {
        lemma_first_free_found(c, b, used, lo + 1, hi);
    }
}

proof fn lemma_count_true_prefix(flags: Seq<bool>, k: int)
    requires
        0 <= k <= flags.len(),
    ensures
        count_true(flags.take(k)) <= count_true(flags),
    decreases flags.len() - k,
{
    if k < flags.len() {
        assert(flags.take(k + 1).drop_last() =~= flags.take(k));
        lemma_count_true_prefix(flags, k + 1);
    } else {
        assert(flags.take(k) =~= flags);
    }
}

proof fn lemma_picked_rest(s: Seq<char>, flags: Seq<bool>, k: int)
    requires
        0 <= k <= flags.len(),
        count_true(flags.take(k)) == count_true(flags),
    ensures
        picked(s, flags.take(k)) == picked(s, flags),
    decreases flags.len(),
{
    if k == flags.len() {
        assert(flags.take(k) =~= flags);
    } else {
        let d = flags.drop_last();
        assert(d.take(k) =~= flags.take(k));
        lemma_count_true_prefix(d, k);
        lemma_picked_rest(s, d, k);
    }
}

proof fn lemma_mismatches_push(a: Seq<char>, b: Seq<char>, x: char, y: char, n: int)
    requires
        0 <= n,
        a.len() == n,
        b.len() == n,
    ensures
        mismatches(a.push(x), b.push(y), n + 1) == mismatches(a, b, n) + if x != y {
            1nat
        } else {
            0nat
        },
{
    lemma_mismatches_prefix(a, b, a.push(x), b.push(y), n);
}

proof fn lemma_mismatches_prefix(a: Seq<char>, b: Seq<char>, a2: Seq<char>, b2: Seq<char>, n: int)
    requires
        0 <= n,
        forall|k: int| 0 <= k < n ==> a[k] == a2[k] && b[k] == b2[k],
    ensures
        mismatches(a, b, n) == mismatches(a2, b2, n),
    decreases n,
{
    if n > 0 {
        lemma_mismatches_prefix(a, b, a2, b2, n - 1);
    }
}

fn chars_equal(x: &Vec<char>, y: &Vec<char>) -> (r: bool)
    ensures
        r == (x@ == y@),
{
    if x.len() != y.len() {
        return false;
    }
    let mut i: usize = 0;
    while i < x.len()
        invariant
            x@.len() == y@.len(),
            i <= x@.len(),
            forall|k: int| 0 <= k < i ==> x@[k] == y@[k],
        decreases x@.len() - i,
    {
        if x[i] != y[i] {
            return false;
        }
        i = i + 1;
    }
    assert(x@ =~= y@);
    true
}

/// Greedy Jaro matching: the match flags of each string and the number of
/// matches.
fn match_flags(a: &Vec<char>, b: &Vec<char>) -> (r: (Vec<bool>, Vec<bool>, usize))
    ensures
        (r.0@, r.1@) == greedy_matches(a@, b@, a@.len()),
        r.2 == count_true(r.0@),
{
    let a_len = a.len();
    let b_len = b.len();
    let max_len = if a_len >= b_len {
        a_len
    } else {
        b_len
    };
    let w = if max_len / 2 >= 1 {
        max_len / 2 - 1
    } else {
        0
    };
    let mut a_matches: Vec<bool> = Vec::new();
    let mut b_matches: Vec<bool> = Vec::new();
    let mut z: usize = 0;
    while z < b_len
        invariant
            z <= b_len,
            b_len == b@.len(),
            b_matches@ =~= Seq::new(z as nat, |j: int| false),
        decreases b_len - z,
    {
        b_matches.push(false);
        z = z + 1;
    }
    let mut matches: usize = 0;
    let mut i: usize = 0;
    proof {
        lemma_greedy_shape(a@, b@, 0);
    }
    while i < a_len
        invariant
            i <= a_len,
            a_len == a@.len(),
            b_len == b@.len(),
            w == match_window(a@.len(), b@.len()),
            (a_matches@, b_matches@) == greedy_matches(a@, b@, i as nat),
            matches == count_true(a_matches@),
            matches <= i,
        decreases a_len - i,
    {
        proof {
            lemma_greedy_shape(a@, b@, i as nat);
        }
        let start = if i >= w {
            i - w
        } else {
            0
        };
        let end = if i < b_len && w < b_len - i - 1 {
            i + w + 1
        } else {
            b_len
        };
        assert(start == window_lo(i as int, w as nat));
        assert(end == window_hi(i as int, w as nat, b_len as nat));
        let ghost bm0 = b_matches@;
        let c = a[i];
        let mut j = start;
        let mut found = false;
        while j < end && !found
            invariant
                start <= j,
                j == start || j <= end,
                end <= b_len,
                b_len == b@.len(),
                bm0.len() == b_len,
                c == a@[i as int],
                !found ==> b_matches@ == bm0 && first_free(c, b@, bm0, start as int, end as int)
                    == first_free(c, b@, bm0, j as int, end as int),
                found ==> j > start && first_free(c, b@, bm0, start as int, end as int) == Some(
                    (j - 1) as int,
                ) && b_matches@ == bm0.update(j - 1, true),
            decreases end - j + if found {
                0int
            } else {
                1int
            },
        {
            if !b_matches[j] && c == b[j] {
                b_matches.set(j, true);
                found = true;
            }
            j = j + 1;
        }
        proof {
            if found {
                lemma_first_free_found(c, b@, bm0, start as int, end as int);
            }
        }
        a_matches.push(found);
        if found {
            matches = matches + 1;
        }
        assert(a_matches@.drop_last() =~= greedy_matches(a@, b@, i as nat).0);
        i = i + 1;
    }
    (a_matches, b_matches, matches)
}

/// Jaro matching of two strings: whether they are equal, whether nothing
/// matches (or a string is empty), and otherwise the number of matching
/// characters and half the number of those out of order.
pub fn jaro_outcome(a: &str, b: &str) -> (r: JaroOutcome)
    ensures
        r == spec_jaro_outcome(a@, b@),
{
    let a_chars = str_chars(a);
    let b_chars = str_chars(b);
    if chars_equal(&a_chars, &b_chars) {
        return JaroOutcome::Identical;
    }
    let a_len = a_chars.len();
    let b_len = b_chars.len();
    if a_len == 0 || b_len == 0 {
        return JaroOutcome::NoMatch;
    }
    let (a_matches, b_matches, matches) = match_flags(&a_chars, &b_chars);
    if matches == 0 {
        return JaroOutcome::NoMatch;
    }
    let ghost am = a_matches@;
    let ghost bm = b_matches@;
    proof {
        lemma_greedy_shape(a@, b@, a@.len());
        assert(am.take(0) =~= Seq::<bool>::empty());
        assert(bm.take(0) =~= Seq::<bool>::empty());
    }
    let mut transpositions: usize = 0;
    let mut k: usize = 0;
    let mut i: usize = 0;
    while i < a_len
        invariant
            i <= a_len,
            k <= b_len,
            a_len == a@.len(),
            b_len == b@.len(),
            a_chars@ == a@,
            b_chars@ == b@,
            a_matches@ == am,
            b_matches@ == bm,
            am.len() == a_len,
            bm.len() == b_len,
            count_true(am) == count_true(bm),
            count_true(am.take(i as int)) == count_true(bm.take(k as int)),
            transpositions <= i,
            transpositions == mismatches(
                picked(a@, am.take(i as int)),
                picked(b@, bm.take(k as int)),
                count_true(am.take(i as int)) as int,
            ),
        decreases a_len - i,
    {
        let ghost c = count_true(am.take(i as int));
        proof {
            assert(am.take(i + 1).drop_last() =~= am.take(i as int));
            lemma_picked_len(a@, am.take(i as int));
            lemma_picked_len(b@, bm.take(k as int));
        }
        if a_matches[i] {
            proof {
                lemma_count_true_prefix(am, i + 1);
                if k == b_len {
                    assert(bm.take(k as int) =~= bm);
                }
            }
            let ghost pb0 = picked(b@, bm.take(k as int));
            while !b_matches[k]
                invariant
                    k < b_len,
                    b_len == bm.len(),
                    b_matches@ == bm,
                    count_true(bm.take(k as int)) == c,
                    c < count_true(bm),
                    picked(b@, bm.take(k as int)) == pb0,
                decreases b_len - k,
            {
                assert(bm.take(k + 1).drop_last() =~= bm.take(k as int));
                k = k + 1;
                proof {
                    if k == b_len {
                        assert(bm.take(k as int) =~= bm);
                    }
                }
            }
            let ghost pa = picked(a@, am.take(i as int));
            let ghost pb = picked(b@, bm.take(k as int));
            assert(bm.take(k + 1).drop_last() =~= bm.take(k as int));
            proof {
                lemma_picked_len(b@, bm.take(k as int));
                lemma_mismatches_push(pa, pb, a@[i as int], b@[k as int], c as int);
            }
            assert(picked(a@, am.take(i + 1)) == pa.push(a@[i as int]));
            assert(picked(b@, bm.take(k + 1)) == pb.push(b@[k as int]));
            if a_chars[i] != b_chars[k] {
                transpositions = transpositions + 1;
            }
            k = k + 1;
        } else {
            assert(picked(a@, am.take(i + 1)) == picked(a@, am.take(i as int)));
        }
        i = i + 1;
    }
    proof {
        assert(am.take(a_len as int) =~= am);
        lemma_picked_rest(b@, bm, k as int);
        lemma_picked_len(a@, am);
    }
    JaroOutcome::Matched { matches, transpositions: transpositions / 2, len_a: a_len, len_b: b_len }
}

/// Jaro counts stay in range: the strings are reported identical exactly
/// when equal, and a match count is positive, at most either length, with at
/// most half of it transposed. (So the similarity lies in [0, 1].)
pub proof fn lemma_jaro_outcome_bounds(a: Seq<char>, b: Seq<char>)
    requires
        a.len() <= usize::MAX,
        b.len() <= usize::MAX,
    ensures
        spec_jaro_outcome(a, b) is Identical <==> a == b,
        spec_jaro_outcome(a, b) matches JaroOutcome::Matched { matches, transpositions, len_a, len_b }
            ==> 0 < matches <= len_a && matches <= len_b && len_a == a.len() && len_b == b.len()
            && transpositions <= matches / 2,
{
    if a != b && a.len() > 0 && b.len() > 0 {
        lemma_greedy_shape(a, b, a.len());
        let (am, bm) = greedy_matches(a, b, a.len());
        lemma_count_true_bound(am);
        lemma_count_true_bound(bm);
        lemma_picked_len(a, am);
        crate::strings::hamming::lemma_mismatches_props(
            picked(a, am),
            picked(b, bm),
            picked(a, am).len() as int,
        );
    }
}

/// The position of `b` that character `k` of `a` takes in the greedy
/// matching, if any.
pub open spec fn greedy_choice(a: Seq<char>, b: Seq<char>, k: int) -> Option<int> {
    let w = match_window(a.len(), b.len());
    first_free(a[k], b, greedy_matches(a, b, k as nat).1, window_lo(k, w), window_hi(k, w, b.len()))
}

proof fn lemma_first_free_spec(c: char, b: Seq<char>, used: Seq<bool>, lo: int, hi: int)
    ensures
        match first_free(c, b, used, lo, hi) {
            Some(x) => lo <= x < hi && !used[x] && b[x] == c && forall|y: int|
                #![trigger used[y]]
                #![trigger b[y]]
                lo <= y < x ==> used[y] || b[y] != c,
            None => forall|y: int|
                #![trigger used[y]]
                #![trigger b[y]]
                lo <= y < hi ==> used[y] || b[y] != c,
        },
    decreases hi - lo,
{
    if lo < hi && !(!used[lo] && b[lo] == c) {
        lemma_first_free_spec(c, b, used, lo + 1, hi);
    }
}

/// What the greedy step for character `k` of `a` chose: a free equal
/// character of `b` within the window, before which every candidate was
/// taken; or nothing, when every candidate was taken.
proof fn lemma_choice_facts(a: Seq<char>, b: Seq<char>, k: int)
    requires
        0 <= k < a.len(),
    ensures
        ({
            let w = match_window(a.len(), b.len());
            let used = greedy_matches(a, b, k as nat).1;
            match greedy_choice(a, b, k) {
                Some(j) => 0 <= j < b.len() && k - w <= j <= k + w && b[j] == a[k] && !used[j]
                    && forall|y: int|
                    #![trigger used[y]]
                    #![trigger b[y]]
                    0 <= y < j && k - w <= y ==> used[y] || b[y] != a[k],
                None => forall|y: int|
                    #![trigger used[y]]
                    #![trigger b[y]]
                    0 <= y < b.len() && k - w <= y <= k + w ==> used[y] || b[y] != a[k],
            }
        }),
{
    let w = match_window(a.len(), b.len());
    let used = greedy_matches(a, b, k as nat).1;
    lemma_first_free_spec(a[k], b, used, window_lo(k, w), window_hi(k, w, b.len()));
}

/// The greedy state after `i` characters of `a`: a character of `a` is
/// flagged when its step chose a position, and a position of `b` is flagged
/// when some earlier step chose it.
proof fn lemma_greedy_state(a: Seq<char>, b: Seq<char>, i: int)
    requires
        0 <= i <= a.len(),
    ensures
        greedy_matches(a, b, i as nat).0.len() == i,
        greedy_matches(a, b, i as nat).1.len() == b.len(),
        forall|k: int|
            0 <= k < i ==> #[trigger] greedy_matches(a, b, i as nat).0[k] == (greedy_choice(
                a,
                b,
                k,
            ) is Some),
        forall|j: int|
            0 <= j < b.len() ==> (#[trigger] greedy_matches(a, b, i as nat).1[j] <==> exists|k: int|
                0 <= k < i && #[trigger] greedy_choice(a, b, k) == Some(j)),
    decreases i,
{
    if i > 0 {
        let p = i - 1;
        lemma_greedy_state(a, b, p);
        lemma_choice_facts(a, b, p);
        let (am, bm) = greedy_matches(a, b, p as nat);
        let (am2, bm2) = greedy_matches(a, b, i as nat);
        assert((p + 1) as nat == i as nat);
        assert forall|k: int| 0 <= k < i implies am2[k] == (greedy_choice(a, b, k) is Some) by {
            if k < p {
                assert(am2[k] == am[k]);
            }
        }
        assert forall|j: int| 0 <= j < b.len() implies (bm2[j] <==> exists|k: int|
            0 <= k < i && #[trigger] greedy_choice(a, b, k) == Some(j)) by {
            if bm2[j] {
                if bm[j] {
                    let k = choose|k: int| 0 <= k < p && #[trigger] greedy_choice(a, b, k) == Some(j);
                    assert(0 <= k < i && greedy_choice(a, b, k) == Some(j));
                } else {
                    assert(greedy_choice(a, b, p) == Some(j));
                }
            }
            if exists|k: int| 0 <= k < i && #[trigger] greedy_choice(a, b, k) == Some(j) {
                let k = choose|k: int| 0 <= k < i && #[trigger] greedy_choice(a, b, k) == Some(j);
                if k < p {
                    assert(bm[j]);
                }
            }
        }
    }
}

/// No two characters of `a` take the same position of `b`.
proof fn lemma_greedy_injective(a: Seq<char>, b: Seq<char>, k1: int, k2: int)
    requires
        0 <= k1 < k2 < a.len(),
    ensures
        greedy_choice(a, b, k1) is Some ==> greedy_choice(a, b, k2) != greedy_choice(a, b, k1),
{
    if greedy_choice(a, b, k1) is Some {
        let j = greedy_choice(a, b, k1)->0;
        lemma_choice_facts(a, b, k1);
        lemma_choice_facts(a, b, k2);
        lemma_greedy_state(a, b, k2);
        assert(greedy_matches(a, b, k2 as nat).1[j]);
    }
}

/// Position `j` of `b` takes, matching from `b`, exactly the character of
/// `a` that took `j` when matching from `a`.
pub open spec fn pairs_agree(a: Seq<char>, b: Seq<char>, j: int) -> bool {
    forall|i: int|
        0 <= i < a.len() ==> (greedy_choice(b, a, j) == Some(i) <==> #[trigger] greedy_choice(
            a,
            b,
            i,
        ) == Some(j))
}

/// Matching from `b`, the characters of `a` taken before position `j` are
/// those that took a position before `j` when matching from `a`.
proof fn lemma_taken_before(a: Seq<char>, b: Seq<char>, j: int)
    requires
        0 <= j < b.len(),
        forall|jj: int| 0 <= jj < j ==> #[trigger] pairs_agree(a, b, jj),
    ensures
        greedy_matches(b, a, j as nat).1.len() == a.len(),
        forall|i: int|
            0 <= i < a.len() ==> (#[trigger] greedy_matches(b, a, j as nat).1[i] <==> (greedy_choice(
                a,
                b,
                i,
            ) is Some && greedy_choice(a, b, i)->0 < j)),
{
    let used = greedy_matches(b, a, j as nat).1;
    lemma_greedy_state(b, a, j);
    assert forall|i: int| 0 <= i < a.len() implies (used[i] <==> (greedy_choice(a, b, i) is Some
        && greedy_choice(a, b, i)->0 < j)) by {
        if used[i] {
            let jj = choose|jj: int| 0 <= jj < j && #[trigger] greedy_choice(b, a, jj) == Some(i);
            assert(pairs_agree(a, b, jj));
            assert(greedy_choice(a, b, i) == Some(jj));
        }
        if greedy_choice(a, b, i) is Some && greedy_choice(a, b, i)->0 < j {
            let x = greedy_choice(a, b, i)->0;
            lemma_choice_facts(a, b, i);
            assert(pairs_agree(a, b, x));
            assert(greedy_choice(b, a, x) == Some(i));
        }
    }
}

/// A character of `a` equal to position `j` of `b` and within its window,
/// that did not take `j`, took an earlier position when `j` was free.
proof fn lemma_earlier_taken(a: Seq<char>, b: Seq<char>, j: int, y: int)
    requires
        0 <= j < b.len(),
        0 <= y < a.len(),
        a[y] == b[j],
        y - match_window(a.len(), b.len()) <= j <= y + match_window(a.len(), b.len()),
        forall|k: int| 0 <= k < y ==> #[trigger] greedy_choice(a, b, k) != Some(j),
        greedy_choice(a, b, y) != Some(j),
    ensures
        greedy_choice(a, b, y) is Some && greedy_choice(a, b, y)->0 < j,
{
    lemma_choice_facts(a, b, y);
    lemma_greedy_state(a, b, y);
    assert(!greedy_matches(a, b, y as nat).1[j]);
}

/// When some character of `a` took position `j` matching from `a`, matching
/// from `b` position `j` takes that character.
proof fn lemma_agree_matched(a: Seq<char>, b: Seq<char>, j: int, i0: int)
    requires
        0 <= j < b.len(),
        0 <= i0 < a.len(),
        greedy_choice(a, b, i0) == Some(j),
        forall|jj: int| 0 <= jj < j ==> #[trigger] pairs_agree(a, b, jj),
    ensures
        greedy_choice(b, a, j) == Some(i0),
{
    let n = a.len();
    let w = match_window(n, b.len());
    assert(match_window(b.len(), n) == w);
    lemma_taken_before(a, b, j);
    let used = greedy_matches(b, a, j as nat).1;
    let lo = window_lo(j, w);
    let hi = window_hi(j, w, n);
    lemma_choice_facts(a, b, i0);
    assert(!used[i0]);
    assert forall|y: int| lo <= y < i0 implies used[y] || a[y] != b[j] by {
        if a[y] == b[j] {
            assert forall|k: int| 0 <= k < y implies #[trigger] greedy_choice(a, b, k) != Some(j) by {
                lemma_greedy_injective(a, b, k, i0);
            }
            lemma_greedy_injective(a, b, y, i0);
            lemma_earlier_taken(a, b, j, y);
        }
    }
    lemma_first_free_spec(b[j], a, used, lo, hi);
    match first_free(b[j], a, used, lo, hi) {
        Some(x) => {
            if x < i0 {
                assert(used[x] || a[x] != b[j]);
            } else if x > i0 {
                assert(used[i0] || a[i0] != b[j]);
            }
        },
        None => {
            assert(used[i0] || a[i0] != b[j]);
        },
    }
}

/// When no character of `a` took position `j` matching from `a`, matching
/// from `b` position `j` takes nothing.
proof fn lemma_agree_unmatched(a: Seq<char>, b: Seq<char>, j: int)
    requires
        0 <= j < b.len(),
        forall|i: int| 0 <= i < a.len() ==> #[trigger] greedy_choice(a, b, i) != Some(j),
        forall|jj: int| 0 <= jj < j ==> #[trigger] pairs_agree(a, b, jj),
    ensures
        greedy_choice(b, a, j) is None,
{
    let n = a.len();
    let w = match_window(n, b.len());
    assert(match_window(b.len(), n) == w);
    lemma_taken_before(a, b, j);
    let used = greedy_matches(b, a, j as nat).1;
    let lo = window_lo(j, w);
    let hi = window_hi(j, w, n);
    assert forall|y: int| lo <= y < hi implies used[y] || a[y] != b[j] by {
        if a[y] == b[j] {
            lemma_earlier_taken(a, b, j, y);
        }
    }
    lemma_first_free_spec(b[j], a, used, lo, hi);
    if first_free(b[j], a, used, lo, hi) is Some {
        let x = first_free(b[j], a, used, lo, hi)->0;
        assert(used[x] || a[x] != b[j]);
    }
}

proof fn lemma_pairs_agree_step(a: Seq<char>, b: Seq<char>, j: int)
    requires
        0 <= j < b.len(),
        forall|jj: int| 0 <= jj < j ==> #[trigger] pairs_agree(a, b, jj),
    ensures
        pairs_agree(a, b, j),
{
    if exists|i0: int| 0 <= i0 < a.len() && #[trigger] greedy_choice(a, b, i0) == Some(j) {
        let i0 = choose|i0: int| 0 <= i0 < a.len() && #[trigger] greedy_choice(a, b, i0) == Some(j);
        lemma_agree_matched(a, b, j, i0);
        assert forall|i: int| 0 <= i < a.len() implies (greedy_choice(b, a, j) == Some(i)
            <==> #[trigger] greedy_choice(a, b, i) == Some(j)) by {
            if i < i0 {
                lemma_greedy_injective(a, b, i, i0);
            } else if i > i0 {
                lemma_greedy_injective(a, b, i0, i);
            }
        }
    } else {
        lemma_agree_unmatched(a, b, j);
    }
}

proof fn lemma_pairs_agree_upto(a: Seq<char>, b: Seq<char>, j: int)
    requires
        0 <= j <= b.len(),
    ensures
        forall|jj: int| 0 <= jj < j ==> #[trigger] pairs_agree(a, b, jj),
    decreases j,
{
    if j > 0 {
        lemma_pairs_agree_upto(a, b, j - 1);
        lemma_pairs_agree_step(a, b, j - 1);
    }
}

/// Greedy matching pairs the same characters whichever string it starts
/// from: the flags of each string swap places.
pub proof fn lemma_greedy_matches_transpose(a: Seq<char>, b: Seq<char>)
    ensures
        greedy_matches(b, a, b.len()).0 == greedy_matches(a, b, a.len()).1,
        greedy_matches(b, a, b.len()).1 == greedy_matches(a, b, a.len()).0,
{
    let n = a.len();
    let m = b.len();
    lemma_pairs_agree_upto(a, b, m as int);
    lemma_greedy_state(a, b, n as int);
    lemma_greedy_state(b, a, m as int);
    let (am, bm) = greedy_matches(a, b, n);
    let (am2, bm2) = greedy_matches(b, a, m);
    assert forall|j: int| 0 <= j < m implies am2[j] == bm[j] by {
        assert(pairs_agree(a, b, j));
        lemma_choice_facts(b, a, j);
        if am2[j] {
            let i = greedy_choice(b, a, j)->0;
            assert(greedy_choice(a, b, i) == Some(j));
        }
        if bm[j] {
            let i = choose|i: int| 0 <= i < n && #[trigger] greedy_choice(a, b, i) == Some(j);
            assert(greedy_choice(b, a, j) == Some(i));
        }
    }
    assert forall|i: int| 0 <= i < n implies bm2[i] == am[i] by {
        if bm2[i] {
            let j = choose|j: int| 0 <= j < m && #[trigger] greedy_choice(b, a, j) == Some(i);
            assert(pairs_agree(a, b, j));
            assert(greedy_choice(a, b, i) == Some(j));
        }
        if am[i] {
            lemma_choice_facts(a, b, i);
            let j = greedy_choice(a, b, i)->0;
            assert(pairs_agree(a, b, j));
            assert(greedy_choice(b, a, j) == Some(i));
        }
    }
    assert(am2 =~= bm);
    assert(bm2 =~= am);
}

proof fn lemma_count_true_pos(flags: Seq<bool>, k: int)
    requires
        0 <= k < flags.len(),
        flags[k],
    ensures
        count_true(flags) >= 1,
    decreases flags.len(),
{
    if k < flags.len() - 1 {
        lemma_count_true_pos(flags.drop_last(), k);
    }
}

/// Jaro reports no match (for distinct strings) exactly when a string is
/// empty or no character of the first equals a character of the second at
/// most `max(len) / 2 - 1` positions away; otherwise it reports the number
/// of greedy matches, which is then at least one.
pub proof fn lemma_jaro_no_match_iff(a: Seq<char>, b: Seq<char>)
    requires
        a != b,
        a.len() <= usize::MAX,
    ensures
        ({
            let m = if a.len() >= b.len() {
                a.len()
            } else {
                b.len()
            };
            let w: int = if m / 2 >= 1 {
                m / 2 - 1
            } else {
                0
            };
            spec_jaro_outcome(a, b) is NoMatch <==> (a.len() == 0 || b.len() == 0 || forall|
                i: int,
                j: int,
            |
                0 <= i < a.len() && 0 <= j < b.len() && i - w <= j <= i + w ==> a[i] != b[j])
        }),
        spec_jaro_outcome(a, b) matches JaroOutcome::Matched { matches, .. } ==> matches >= 1
            && matches == count_true(greedy_matches(a, b, a.len()).0),
{
    let n = a.len();
    let mm = if a.len() >= b.len() {
        a.len()
    } else {
        b.len()
    };
    let w: int = if mm / 2 >= 1 {
        mm / 2 - 1
    } else {
        0
    };
    assert(w == match_window(a.len(), b.len()));
    if n > 0 && b.len() > 0 {
        lemma_greedy_state(a, b, n as int);
        lemma_greedy_shape(a, b, n);
        let am = greedy_matches(a, b, n).0;
        lemma_count_true_bound(am);
        if exists|i: int, j: int|
            0 <= i < a.len() && 0 <= j < b.len() && i - w <= j <= i + w && a[i] == b[j] {
            let (i, j) = choose|i: int, j: int|
                0 <= i < a.len() && 0 <= j < b.len() && i - w <= j <= i + w && a[i] == b[j];
            lemma_choice_facts(a, b, i);
            if greedy_choice(a, b, i) is Some {
                assert(am[i]);
                lemma_count_true_pos(am, i);
            } else {
                lemma_greedy_state(a, b, i);
                assert(greedy_matches(a, b, i as nat).1[j]);
                let k = choose|k: int| 0 <= k < i && #[trigger] greedy_choice(a, b, k) == Some(j);
                assert(am[k]);
                lemma_count_true_pos(am, k);
            }
        } else {
            assert forall|k: int| 0 <= k < am.len() implies !am[k] by {
                lemma_choice_facts(a, b, k);
                if greedy_choice(a, b, k) is Some {
                    let j = greedy_choice(a, b, k)->0;
                    assert(a[k] == b[j]);
                }
            }
            lemma_count_true_all_false(am);
        }
    }
}

proof fn lemma_mismatches_filter(x: Seq<char>, y: Seq<char>, n: nat)
    ensures
        mismatches(x, y, n as int) == Seq::new(n, |k: int| k).filter(|k: int| x[k] != y[k]).len(),
    decreases n,
{
    reveal(Seq::filter);
    if n > 0 {
        lemma_mismatches_filter(x, y, (n - 1) as nat);
        let s = Seq::new(n, |k: int| k);
        assert(s.drop_last() =~= Seq::new((n - 1) as nat, |k: int| k));
        assert(s.last() == n - 1);
    }
}

/// Jaro transpositions: with the matched characters of each string taken in
/// order (as many as there are matches), the transposition count is half the
/// number of positions at which they differ, rounded down.
pub proof fn lemma_jaro_transpositions(a: Seq<char>, b: Seq<char>)
    requires
        a.len() <= usize::MAX,
        b.len() <= usize::MAX,
    ensures
        spec_jaro_outcome(a, b) matches JaroOutcome::Matched { matches, transpositions, .. } ==> {
            let pa = picked(a, greedy_matches(a, b, a.len()).0);
            let pb = picked(b, greedy_matches(a, b, a.len()).1);
            &&& pa.len() == matches
            &&& pb.len() == matches
            &&& transpositions == Seq::new(matches as nat, |k: int| k).filter(
                |k: int| pa[k] != pb[k],
            ).len() / 2
        },
{
    if a != b && a.len() > 0 && b.len() > 0 {
        lemma_greedy_shape(a, b, a.len());
        let (am, bm) = greedy_matches(a, b, a.len());
        lemma_count_true_bound(am);
        lemma_picked_len(a, am);
        lemma_picked_len(b, bm);
        let pa = picked(a, am);
        let pb = picked(b, bm);
        lemma_mismatches_filter(pa, pb, pa.len());
        crate::strings::hamming::lemma_mismatches_props(pa, pb, pa.len() as int);
    }
}

/// A Jaro outcome with the two strings' lengths exchanged.
pub open spec fn swap_lengths(o: JaroOutcome) -> JaroOutcome {
    match o {
        JaroOutcome::Matched { matches, transpositions, len_a, len_b } => JaroOutcome::Matched {
            matches,
            transpositions,
            len_a: len_b,
            len_b: len_a,
        },
        _ => o,
    }
}

/// Jaro matching is symmetric: exchanging the strings gives the same match
/// and transposition counts (so the same similarity), and Jaro-Winkler's
/// common prefix is the same too.
pub proof fn lemma_jaro_symmetric(a: Seq<char>, b: Seq<char>)
    ensures
        spec_jaro_outcome(b, a) == swap_lengths(spec_jaro_outcome(a, b)),
        prefix_len4(b, a) == prefix_len4(a, b),
{
    if a != b && a.len() > 0 && b.len() > 0 {
        lemma_greedy_matches_transpose(a, b);
        lemma_greedy_shape(a, b, a.len());
        let (am, bm) = greedy_matches(a, b, a.len());
        lemma_picked_len(a, am);
        lemma_picked_len(b, bm);
        let pa = picked(a, am);
        let pb = picked(b, bm);
        crate::strings::hamming::lemma_mismatches_props(pa, pb, pa.len() as int);
    }
}

/// Length of the common prefix of two character sequences, counting at most
/// four characters.
pub open spec fn prefix_len4(a: Seq<char>, b: Seq<char>) -> nat {
    if a.len() >= 1 && b.len() >= 1 && a[0] == b[0] {
        if a.len() >= 2 && b.len() >= 2 && a[1] == b[1] {
            if a.len() >= 3 && b.len() >= 3 && a[2] == b[2] {
                if a.len() >= 4 && b.len() >= 4 && a[3] == b[3] {
                    4
                } else {
                    3
                }
            } else {
                2
            }
        } else {
            1
        }
    } else {
        0
    }
}

/// Length of the common prefix of two strings, up to four characters: the
/// prefix that earns the Jaro-Winkler bonus.
pub fn common_prefix_len(a: &str, b: &str) -> (r: usize)
    ensures
        r == prefix_len4(a@, b@),
        r <= 4,
        forall|k: int| 0 <= k < r ==> a@[k] == b@[k],
        r < 4 ==> r == a@.len() || r == b@.len() || a@[r as int] != b@[r as int],
{
    let a_chars = str_chars(a);
    let b_chars = str_chars(b);
    let mut n: usize = 0;
    while n < 4 && n < a_chars.len() && n < b_chars.len() && a_chars[n] == b_chars[n]
        invariant
            n <= 4,
            a_chars@ == a@,
            b_chars@ == b@,
            n <= a@.len(),
            n <= b@.len(),
            forall|k: int| 0 <= k < n ==> a@[k] == b@[k],
        decreases 4 - n,
    {
        n = n + 1;
    }
    n
}

} // verus!
