use elid::strings::common::char_is_whitespace;
use elid::strings::jaro::{common_prefix_len, jaro_outcome, JaroOutcome};
use elid::strings::simhash::extract_features;
use elid::{
    find_similar_hashes, hamming, levenshtein, levenshtein_with_opts, osa_distance,
    preprocess_strings, simhash, simhash_distance, SimilarityOpts,
};

/// Jaro similarity from a matching outcome, as the formula defines it.
fn jaro_value(o: JaroOutcome) -> f64 {
    match o {
        JaroOutcome::Identical => 1.0,
        JaroOutcome::NoMatch => 0.0,
        JaroOutcome::Matched { matches, transpositions, len_a, len_b } => {
            let m = matches as f64;
            let t = transpositions as f64;
            (m / len_a as f64 + m / len_b as f64 + (m - t) / m) / 3.0
        }
    }
}

// ---------------------------------------------------------------------------
// Levenshtein
// ---------------------------------------------------------------------------

#[test]
fn test_levenshtein_identical() {
    assert_eq!(levenshtein("hello", "hello"), 0);
}

#[test]
fn test_levenshtein_empty() {
    assert_eq!(levenshtein("", "hello"), 5);
    assert_eq!(levenshtein("hello", ""), 5);
    assert_eq!(levenshtein("", ""), 0);
}

#[test]
fn test_levenshtein_classic() {
    assert_eq!(levenshtein("kitten", "sitting"), 3);
    assert_eq!(levenshtein("saturday", "sunday"), 3);
    assert_eq!(levenshtein("book", "back"), 2);
}

#[test]
fn test_levenshtein_with_opts() {
    let opts = SimilarityOpts {
        case_sensitive: false,
        trim_whitespace: true,
        ..Default::default()
    };

    assert_eq!(levenshtein_with_opts("Hello ", " hello", &opts), 0);
    assert_eq!(levenshtein_with_opts("ABC", "abc", &opts), 0);
}

#[test]
fn test_levenshtein_unicode() {
    assert_eq!(levenshtein("café", "cafe"), 1);
    assert_eq!(levenshtein("你好", "您好"), 1);
}

#[test]
fn test_levenshtein_comprehensive() {
    assert_eq!(levenshtein("kitten", "sitting"), 3);
    assert_eq!(levenshtein("saturday", "sunday"), 3);
    assert_eq!(levenshtein("book", "back"), 2);

    assert_eq!(levenshtein("", "abc"), 3);
    assert_eq!(levenshtein("abc", ""), 3);

    assert_eq!(levenshtein("café", "cafe"), 1);
    assert_eq!(levenshtein("你好", "您好"), 1);
}

#[test]
fn levenshtein_is_symmetric_on_samples() {
    for (a, b) in [("hello", "world"), ("abc", "xyz"), ("test", "testing"), ("", "q")] {
        assert_eq!(levenshtein(a, b), levenshtein(b, a));
    }
}

#[test]
fn levenshtein_bounded_by_longer_length() {
    assert_eq!(levenshtein("abc", "xyz"), 3);
    assert!(levenshtein("test", "testing") <= 7);
    assert_eq!(levenshtein("test", "testing"), 3);
}

// ---------------------------------------------------------------------------
// Similarity options
// ---------------------------------------------------------------------------

#[test]
fn test_similarity_opts_case_insensitive() {
    let opts = SimilarityOpts {
        case_sensitive: false,
        trim_whitespace: false,
        ..Default::default()
    };

    let dist = levenshtein_with_opts("HELLO", "hello", &opts);
    assert_eq!(dist, 0, "Case-insensitive comparison should match");

    let dist = levenshtein_with_opts("ABC", "abc", &opts);
    assert_eq!(dist, 0, "Case-insensitive comparison should match");
}

#[test]
fn test_similarity_opts_trim_whitespace() {
    let opts = SimilarityOpts {
        case_sensitive: true,
        trim_whitespace: true,
        ..Default::default()
    };

    let dist = levenshtein_with_opts("  hello  ", "hello", &opts);
    assert_eq!(dist, 0, "Trimmed strings should match");

    let dist = levenshtein_with_opts("\thello\n", "hello", &opts);
    assert_eq!(dist, 0, "Trimmed strings should match");
}

#[test]
fn test_similarity_opts_combined() {
    let opts = SimilarityOpts {
        case_sensitive: false,
        trim_whitespace: true,
        ..Default::default()
    };

    let dist = levenshtein_with_opts("  HELLO  ", "hello", &opts);
    assert_eq!(dist, 0, "Case-insensitive and trimmed strings should match");
}

#[test]
fn similarity_opts_default_is_case_sensitive_untrimmed() {
    let opts = SimilarityOpts::default();
    assert!(opts.case_sensitive);
    assert!(!opts.trim_whitespace);
    assert_eq!(levenshtein_with_opts("ABC", "abc", &opts), 3);
    assert_eq!(levenshtein_with_opts(" a", "a", &opts), 1);
}

#[test]
fn common_test_preprocess_case_insensitive() {
    let opts = SimilarityOpts {
        case_sensitive: false,
        ..Default::default()
    };

    let (a, b) = preprocess_strings("HELLO", "hello", &opts);
    assert_eq!(a, "hello");
    assert_eq!(b, "hello");
}

#[test]
fn common_test_preprocess_trim() {
    let opts = SimilarityOpts {
        trim_whitespace: true,
        ..Default::default()
    };

    let (a, b) = preprocess_strings("  hello  ", "  world  ", &opts);
    assert_eq!(a, "hello");
    assert_eq!(b, "world");
}

#[test]
fn common_test_preprocess_both() {
    let opts = SimilarityOpts {
        case_sensitive: false,
        trim_whitespace: true,
        ..Default::default()
    };

    let (a, b) = preprocess_strings("  HELLO  ", "  world  ", &opts);
    assert_eq!(a, "hello");
    assert_eq!(b, "world");
}

#[test]
fn preprocess_keeps_inner_whitespace() {
    let opts = SimilarityOpts {
        case_sensitive: false,
        trim_whitespace: true,
        ..Default::default()
    };
    let (a, b) = preprocess_strings("\t A b \n", "", &opts);
    assert_eq!(a, "a b");
    assert_eq!(b, "");
}

// ---------------------------------------------------------------------------
// OSA
// ---------------------------------------------------------------------------

#[test]
fn test_osa_identical() {
    assert_eq!(osa_distance("hello", "hello"), 0);
}

#[test]
fn test_osa_empty() {
    assert_eq!(osa_distance("", "hello"), 5);
    assert_eq!(osa_distance("hello", ""), 5);
    assert_eq!(osa_distance("", ""), 0);
}

#[test]
fn test_osa_transposition() {
    assert_eq!(osa_distance("ca", "ac"), 1);
    assert_eq!(osa_distance("abcd", "acbd"), 1);

    assert_eq!(osa_distance("abc", "bca"), 2);
}

#[test]
fn test_osa_vs_levenshtein() {
    let osa = osa_distance("ca", "ac");
    let lev = levenshtein("ca", "ac");
    assert!(osa <= lev);
}

#[test]
fn test_osa_transposition_handling() {
    assert_eq!(osa_distance("ca", "ac"), 1);
    assert_eq!(osa_distance("abcd", "acbd"), 1);

    let osa = osa_distance("ca", "ac");
    let lev = levenshtein("ca", "ac");
    assert!(
        osa <= lev,
        "OSA distance ({}) should be <= Levenshtein ({}) for transpositions",
        osa,
        lev
    );
}

#[test]
fn osa_is_symmetric_and_below_levenshtein_on_samples() {
    for (a, b) in [("hello", "world"), ("abc", "xyz"), ("test", "testing"), ("ab", "ba")] {
        assert_eq!(osa_distance(a, b), osa_distance(b, a));
        assert!(osa_distance(a, b) <= levenshtein(a, b));
    }
    assert_eq!(levenshtein("ab", "ba"), 2);
    assert_eq!(osa_distance("ab", "ba"), 1);
}

// ---------------------------------------------------------------------------
// Hamming
// ---------------------------------------------------------------------------

#[test]
fn test_hamming_identical() {
    assert_eq!(hamming("hello", "hello"), Some(0));
}

#[test]
fn test_hamming_different_length() {
    assert_eq!(hamming("hello", "world!"), None);
    assert_eq!(hamming("hi", "hello"), None);
}

#[test]
fn test_hamming_classic() {
    assert_eq!(hamming("karolin", "kathrin"), Some(3));
    assert_eq!(hamming("1011101", "1001001"), Some(2));
    assert_eq!(hamming("2173896", "2233796"), Some(3));
}

#[test]
fn test_hamming_empty() {
    assert_eq!(hamming("", ""), Some(0));
}

#[test]
fn test_hamming_unicode() {
    assert_eq!(hamming("café", "cafe"), Some(1));
    assert_eq!(hamming("你好", "您好"), Some(1));
}

#[test]
fn test_hamming_distance() {
    assert_eq!(hamming("karolin", "kathrin"), Some(3));
    assert_eq!(hamming("1011101", "1001001"), Some(2));
    assert_eq!(hamming("hello", "hallo"), Some(1));

    assert_eq!(hamming("hello", "world!"), None);
    assert_eq!(hamming("hi", "hello"), None);
}

#[test]
fn hamming_is_symmetric_on_samples() {
    assert_eq!(hamming("karolin", "kathrin"), hamming("kathrin", "karolin"));
    assert_eq!(hamming("abc", "abd"), hamming("abd", "abc"));
}

// ---------------------------------------------------------------------------
// SimHash
// ---------------------------------------------------------------------------

#[test]
fn test_simhash_identical() {
    let hash1 = simhash("hello world");
    let hash2 = simhash("hello world");
    assert_eq!(hash1, hash2);
}

#[test]
fn test_simhash_similar() {
    let hash1 = simhash("iPhone 14");
    let hash2 = simhash("iPhone 15");
    let hash3 = simhash("Galaxy S23");

    let dist_similar = simhash_distance(hash1, hash2);
    let dist_different = simhash_distance(hash1, hash3);

    assert!(dist_similar < dist_different);
    assert!(dist_similar < 20);
}

#[test]
fn test_simhash_distance() {
    let hash1 = simhash("test");
    let hash2 = simhash("test");
    assert_eq!(simhash_distance(hash1, hash2), 0);
}

#[test]
fn test_find_similar_hashes() {
    let candidates = vec!["iPhone 14 Pro", "iPhone 13", "Galaxy S23", "iPhone 14"];
    let hashes: Vec<u64> = candidates.iter().map(|s| simhash(s)).collect();

    let query_hash = simhash("iPhone 14");
    let matches = find_similar_hashes(query_hash, &hashes, 15);

    assert!(matches.len() >= 2);
    assert!(matches.contains(&3));
}

#[test]
fn test_empty_string() {
    let hash = simhash("");
    assert_eq!(hash, 0);
}

#[test]
fn test_case_insensitive() {
    let hash1 = simhash("Hello World");
    let hash2 = simhash("hello world");
    assert_eq!(hash1, hash2);
}

#[test]
fn test_feature_extraction() {
    let features = extract_features("abc");
    assert!(features.len() > 0);

    let features = extract_features("hello world");
    assert!(features.len() > 0);
}

#[test]
fn simhash_distance_counts_differing_bits() {
    assert_eq!(simhash_distance(0, u64::MAX), 64);
    assert_eq!(simhash_distance(0b1010, 0b0110), 2);
    assert_eq!(simhash_distance(7, 7), 0);
}

#[test]
fn find_similar_hashes_keeps_order_and_threshold() {
    let hashes = vec![0b0000u64, 0b0111, 0b0001, 0b1111_1111];
    assert_eq!(find_similar_hashes(0, &hashes, 1), vec![0, 2]);
    assert_eq!(find_similar_hashes(0, &hashes, 3), vec![0, 1, 2]);
    assert!(find_similar_hashes(0, &[], 64).is_empty());
}

#[test]
fn feature_extraction_trigrams_then_words() {
    let features = extract_features("ab cd");
    assert_eq!(features, vec!["ab ", "b c", " cd", "ab", "cd"]);
    let features = extract_features("ab");
    assert_eq!(features, vec!["a", "b"]);
}

// ---------------------------------------------------------------------------
// Jaro / Jaro-Winkler core
// ---------------------------------------------------------------------------

#[test]
fn jaro_outcome_classic_pairs() {
    assert_eq!(
        jaro_outcome("martha", "marhta"),
        JaroOutcome::Matched { matches: 6, transpositions: 1, len_a: 6, len_b: 6 }
    );
    assert!(jaro_value(jaro_outcome("martha", "marhta")) > 0.9);

    assert_eq!(
        jaro_outcome("DIXON", "DICKSON"),
        JaroOutcome::Matched { matches: 4, transpositions: 0, len_a: 5, len_b: 7 }
    );
    assert!(jaro_value(jaro_outcome("DIXON", "DICKSON")) > 0.7);

    assert_eq!(jaro_outcome("abc", "xyz"), JaroOutcome::NoMatch);
    assert!(jaro_value(jaro_outcome("abc", "xyz")) < 0.5);
}

#[test]
fn jaro_outcome_edge_cases() {
    assert_eq!(jaro_outcome("", ""), JaroOutcome::Identical);
    assert_eq!(jaro_outcome("hello", "hello"), JaroOutcome::Identical);
    assert_eq!(jaro_outcome("", "abc"), JaroOutcome::NoMatch);
    assert_eq!(jaro_outcome("abc", ""), JaroOutcome::NoMatch);
    // Outside the match window: no match even though the characters agree.
    assert_eq!(jaro_outcome("ab", "ba"), JaroOutcome::NoMatch);
    assert_eq!(
        jaro_outcome("café", "cafe"),
        JaroOutcome::Matched { matches: 3, transpositions: 0, len_a: 4, len_b: 4 }
    );
}

#[test]
fn jaro_winkler_prefix_lengths() {
    assert_eq!(common_prefix_len("DIXON", "DICKSON"), 2);
    assert_eq!(common_prefix_len("prefix", "preface"), 4);
    assert_eq!(common_prefix_len("martha", "marhta"), 3);
    assert_eq!(common_prefix_len("", "abc"), 0);
    assert_eq!(common_prefix_len("ab", "ab"), 2);
    assert_eq!(common_prefix_len("hello", "help"), 3);
}

/// Jaro-Winkler similarity (prefix scale 0.1) from the outcome and prefix.
fn jaro_winkler_value(a: &str, b: &str) -> f64 {
    let j = jaro_value(jaro_outcome(a, b));
    if j < 0.7 {
        return j;
    }
    j + common_prefix_len(a, b) as f64 * 0.1 * (1.0 - j)
}

#[test]
fn test_symmetry() {
    let test_pairs = vec![("hello", "world"), ("abc", "xyz"), ("test", "testing")];
    for (a, b) in test_pairs {
        assert_eq!(levenshtein(a, b), levenshtein(b, a), "Levenshtein should be symmetric");
        assert_eq!(
            jaro_value(jaro_outcome(a, b)),
            jaro_value(jaro_outcome(b, a)),
            "Jaro should be symmetric"
        );
        assert_eq!(
            jaro_winkler_value(a, b),
            jaro_winkler_value(b, a),
            "Jaro-Winkler should be symmetric"
        );
        assert_eq!(osa_distance(a, b), osa_distance(b, a), "OSA should be symmetric");
        assert_eq!(hamming(a, b), hamming(b, a), "Hamming should be symmetric");
    }
}

#[test]
fn jaro_outcome_swaps_only_lengths() {
    assert_eq!(
        jaro_outcome("DICKSON", "DIXON"),
        JaroOutcome::Matched { matches: 4, transpositions: 0, len_a: 7, len_b: 5 }
    );
    for (a, b) in [("abcab", "bacba"), ("aabba", "babab"), ("crate", "trace"), ("test", "testing")] {
        let ab = jaro_outcome(a, b);
        let ba = jaro_outcome(b, a);
        match (ab, ba) {
            (
                JaroOutcome::Matched { matches: m1, transpositions: t1, len_a: la1, len_b: lb1 },
                JaroOutcome::Matched { matches: m2, transpositions: t2, len_a: la2, len_b: lb2 },
            ) => {
                assert_eq!((m1, t1, la1, lb1), (m2, t2, lb2, la2));
            }
            (x, y) => assert_eq!(x, y),
        }
        assert_eq!(common_prefix_len(a, b), common_prefix_len(b, a));
    }
}

#[test]
fn whitespace_matches_std_on_every_char() {
    for v in 0u32..=0x10FFFF {
        if let Some(c) = char::from_u32(v) {
            assert_eq!(char_is_whitespace(c), c.is_whitespace(), "U+{:04X}", v);
        }
    }
}

#[test]
fn trimming_removes_unicode_white_space() {
    let opts = SimilarityOpts { case_sensitive: true, trim_whitespace: true };
    let (a, b) = preprocess_strings("\u{3000}hello\u{2003}\n", " hello\u{85}", &opts);
    assert_eq!(a, "hello");
    assert_eq!(b, "hello");
    assert_eq!(levenshtein_with_opts("\u{a0}abc\t", "abc", &opts), 0);
}
