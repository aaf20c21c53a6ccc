//! Pairwise sequence similarity: exact edit distance, k-mer frequency
//! statistics and MinHash signatures, each with a verified contract.
use vstd::prelude::*;

pub mod analysis;
pub mod edit;
pub mod kmers;
pub mod minhash;
pub mod window;

pub use analysis::{analyze_kmers, KmerAnalysisResult};
pub use edit::{levenshtein_distance, levenshtein_impl};
pub use kmers::{extract_kmer_freqs, KmerTable};
pub use minhash::{get_min_hash_signature, hash_window, min_hash_matches, seed_of, signature_agreement};

verus! {

} // verus!
