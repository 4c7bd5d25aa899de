//! String similarity algorithms.

pub mod common;
pub mod hamming;
pub mod jaro;
pub mod levenshtein;
pub mod osa;
pub mod simhash;
