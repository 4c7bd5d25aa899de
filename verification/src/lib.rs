//! ELID: string similarity metrics and sortable identifiers for embeddings.

pub mod bits;
pub mod embeddings;
pub mod models;
pub mod strings;

pub use bits::popcount;
pub use strings::common::{preprocess_strings, SimilarityOpts};
pub use strings::hamming::hamming;
pub use strings::jaro::{common_prefix_len, jaro_outcome, JaroOutcome};
pub use strings::levenshtein::{levenshtein, levenshtein_with_opts};
pub use strings::osa::osa_distance;
pub use strings::simhash::{find_similar_hashes, simhash, simhash_distance};
