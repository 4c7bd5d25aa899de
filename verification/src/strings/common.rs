//! Helpers shared by the string similarity algorithms.

use vstd::prelude::*;

verus! {

/// Lowercase mapping of a character sequence as performed by
/// `str::to_lowercase` (Unicode default case conversion).
pub uninterp spec fn lowercase(s: Seq<char>) -> Seq<char>;

/// Whether a character has the Unicode `White_Space` property, which
/// `char::is_whitespace` reports: tab to carriage return, space, next line,
/// no-break space, Ogham space mark, the spaces U+2000 to U+200A, line and
/// paragraph separators, narrow no-break space, medium mathematical space
/// and ideographic space.
pub open spec fn is_white_space(c: char) -> bool {
    let v = c as u32;
    ||| 0x09 <= v <= 0x0D
    ||| v == 0x20
    ||| v == 0x85
    ||| v == 0xA0
    ||| v == 0x1680
    ||| 0x2000 <= v <= 0x200A
    ||| v == 0x2028
    ||| v == 0x2029
    ||| v == 0x202F
    ||| v == 0x205F
    ||| v == 0x3000
}

/// Lowercases a string with `str::to_lowercase`.
///
/// Trusted: the result is the standard library's Unicode lowercase mapping
/// of the input, named `lowercase`; nothing more is stated of it.
#[verifier::external_body]
pub(crate) fn to_lowercase(s: &str) -> (r: String)
    ensures
        r@ == lowercase(s@),
{
    s.to_lowercase()
}

/// Whether a character is white space (the Unicode `White_Space` property).
pub fn char_is_whitespace(c: char) -> (r: bool)
    ensures
        r == is_white_space(c),
{
    let v = c as u32;
    (0x09 <= v && v <= 0x0D) || v == 0x20 || v == 0x85 || v == 0xA0 || v == 0x1680 || (0x2000
        <= v && v <= 0x200A) || v == 0x2028 || v == 0x2029 || v == 0x202F || v == 0x205F || v
        == 0x3000
}

/// Appends a character with `String::push`.
///
/// Trusted: the standard library documents that `push` appends the given
/// character to the end of the string.
#[verifier::external_body]
pub(crate) fn push_char(s: &mut String, c: char)
    ensures
        final(s)@ == old(s)@.push(c),
{
    s.push(c)
}

/// Collects the characters of a string slice.
pub fn str_chars(s: &str) -> (v: Vec<char>)
    ensures
        v@ == s@,
{
    let mut v: Vec<char> = Vec::new();
    for c in it: s.chars()
        invariant
            v@ == it.seq().take(it.index() as int),
    {
        v.push(c);
    }
    v
}

/// Options for configuring string comparisons.
#[derive(Debug, Clone, Copy)]
pub struct SimilarityOpts {
    /// Case-sensitive comparison (default: true)
    pub case_sensitive: bool,
    /// Trim whitespace before comparison (default: false)
    pub trim_whitespace: bool,
}

impl Default for SimilarityOpts {
    fn default() -> (r: Self)
        ensures
            r.case_sensitive,
            !r.trim_whitespace,
    {
        SimilarityOpts { case_sensitive: true, trim_whitespace: false }
    }
}

/// `s` without its leading whitespace characters.
pub open spec fn trim_start(s: Seq<char>) -> Seq<char>
    decreases s.len(),
{
    if s.len() > 0 && is_white_space(s[0]) {
        trim_start(s.drop_first())
    } else {
        s
    }
}

/// `s` without its trailing whitespace characters.
pub open spec fn trim_end(s: Seq<char>) -> Seq<char>
    decreases s.len(),
{
    if s.len() > 0 && is_white_space(s.last()) {
        trim_end(s.drop_last())
    } else {
        s
    }
}

/// `s` without leading and trailing whitespace, as `str::trim` returns it.
pub open spec fn trim(s: Seq<char>) -> Seq<char> {
    trim_end(trim_start(s))
}

proof fn trim_start_index(s: Seq<char>) -> (i: int)
    ensures
        0 <= i <= s.len(),
        trim_start(s) == s.subrange(i, s.len() as int),
        forall|k: int| 0 <= k < i ==> is_white_space(#[trigger] s[k]),
        i < s.len() ==> !is_white_space(s[i]),
    decreases s.len(),
{
    if s.len() > 0 && is_white_space(s[0]) {
        let t = s.drop_first();
        let i = trim_start_index(t);
        assert(t.subrange(i, t.len() as int) =~= s.subrange(i + 1, s.len() as int));
        assert forall|k: int| 0 <= k < i + 1 implies is_white_space(#[trigger] s[k]) by {
            if k > 0 {
                assert(s[k] == t[k - 1]);
            }
        }
        i + 1
    } else {
        assert(s.subrange(0, s.len() as int) =~= s);
        0
    }
}

proof fn trim_end_index(s: Seq<char>) -> (j: int)
    ensures
        0 <= j <= s.len(),
        trim_end(s) == s.subrange(0, j),
        forall|k: int| j <= k < s.len() ==> is_white_space(#[trigger] s[k]),
        j > 0 ==> !is_white_space(s[j - 1]),
    decreases s.len(),
{
    if s.len() > 0 && is_white_space(s.last()) {
        let t = s.drop_last();
        let j = trim_end_index(t);
        assert(t.subrange(0, j) =~= s.subrange(0, j));
        assert forall|k: int| j <= k < s.len() implies is_white_space(#[trigger] s[k]) by {
            if k < s.len() - 1 {
                assert(s[k] == t[k]);
            }
        }
        j
    } else {
        assert(s.subrange(0, s.len() as int) =~= s);
        s.len() as int
    }
}

/// Trimming removes exactly the leading and trailing white space: the result
/// is a contiguous part of the string, everything cut off before and after
/// it is white space, and (unless empty) it starts and ends with a character
/// that is not.
pub proof fn lemma_trim_removes_outer_white_space(s: Seq<char>)
    ensures
        exists|i: int, j: int|
            0 <= i <= j <= s.len() && trim(s) == s.subrange(i, j) && (forall|k: int|
                0 <= k < i ==> is_white_space(#[trigger] s[k])) && (forall|k: int|
                j <= k < s.len() ==> is_white_space(#[trigger] s[k])) && (i < j ==> !is_white_space(
                s[i],
            ) && !is_white_space(s[j - 1])),
{
    let i = trim_start_index(s);
    let t = s.subrange(i, s.len() as int);
    let j0 = trim_end_index(t);
    let j = i + j0;
    assert(t.subrange(0, j0) =~= s.subrange(i, j));
    assert forall|k: int| j <= k < s.len() implies is_white_space(#[trigger] s[k]) by {
        assert(s[k] == t[k - i]);
    }
    if i < j {
        assert(s[i] == t[0]);
        assert(s[j - 1] == t[j0 - 1]);
    }
    assert(0 <= i <= j <= s.len() && trim(s) == s.subrange(i, j));
}

/// What a string becomes before comparison under the given options:
/// trimmed if requested, then lowercased unless comparison is case-sensitive.
pub open spec fn preprocess(s: Seq<char>, opts: SimilarityOpts) -> Seq<char> {
    let t = if opts.trim_whitespace {
        trim(s)
    } else {
        s
    };
    if !opts.case_sensitive {
        lowercase(t)
    } else {
        t
    }
}

/// What each option does: a case-sensitive, untrimmed comparison sees the
/// string as it is; trimming applies `trim`; case-insensitive comparison
/// lowercases (after trimming).
pub proof fn lemma_preprocess_options(s: Seq<char>)
    ensures
        preprocess(s, (SimilarityOpts { case_sensitive: true, trim_whitespace: false })) == s,
        preprocess(s, (SimilarityOpts { case_sensitive: true, trim_whitespace: true })) == trim(s),
        preprocess(s, (SimilarityOpts { case_sensitive: false, trim_whitespace: false }))
            == lowercase(s),
        preprocess(s, (SimilarityOpts { case_sensitive: false, trim_whitespace: true }))
            == lowercase(trim(s)),
{
}

/// Removes leading and trailing whitespace characters.
pub fn trim_chars(s: &str) -> (r: String)
    ensures
        r@ == trim(s@),
{
    let chars = str_chars(s);
    let n = chars.len();
    let ghost t = s@;
    let mut start: usize = 0;
    assert(t.subrange(0, n as int) =~= t);
    while start < n && char_is_whitespace(chars[start])
        invariant
            chars@ == t,
            n == t.len(),
            start <= n,
            trim_start(t) == trim_start(t.subrange(start as int, n as int)),
        decreases n - start,
    {
        assert(t.subrange(start as int, n as int).drop_first() =~= t.subrange(start + 1, n as int));
        start = start + 1;
    }
    assert(trim_start(t) == t.subrange(start as int, n as int));
    let mut end: usize = n;
    while end > start && char_is_whitespace(chars[end - 1])
        invariant
            chars@ == t,
            n == t.len(),
            start <= end <= n,
            trim(t) == trim_end(t.subrange(start as int, end as int)),
        decreases end,
    {
        assert(t.subrange(start as int, end as int).drop_last() =~= t.subrange(
            start as int,
            end - 1,
        ));
        end = end - 1;
    }
    assert(trim(t) == t.subrange(start as int, end as int));
    let mut r = String::new();
    let mut k = start;
    while k < end
        invariant
            chars@ == t,
            start <= k <= end,
            end <= n,
            n == t.len(),
            r@ == t.subrange(start as int, k as int),
        decreases end - k,
    {
        push_char(&mut r, chars[k]);
        k = k + 1;
        assert(r@ =~= t.subrange(start as int, k as int));
    }
    r
}

fn preprocess_one(s: &str, opts: &SimilarityOpts) -> (r: String)
    ensures
        r@ == preprocess(s@, *opts),
{
    let t = if opts.trim_whitespace {
        trim_chars(s)
    } else {
        String::from_str(s)
    };
    if !opts.case_sensitive {
        to_lowercase(t.as_str())
    } else {
        t
    }
}

/// Preprocesses two strings according to the given options: whitespace
/// trimming, then lowercasing for case-insensitive comparison.
pub fn preprocess_strings(a: &str, b: &str, opts: &SimilarityOpts) -> (r: (String, String))
    ensures
        r.0@ == preprocess(a@, *opts),
        r.1@ == preprocess(b@, *opts),
{
    (preprocess_one(a, opts), preprocess_one(b, opts))
}

} // verus!
