use wasm_compute::{
    analyze_kmers, extract_kmer_freqs, get_min_hash_signature, hash_window, levenshtein_distance,
    levenshtein_impl, min_hash_matches, seed_of, signature_agreement, KmerAnalysisResult, KmerTable,
};

fn count_of(t: &KmerTable, key: &str) -> usize {
    for (i, k) in t.kmers.iter().enumerate() {
        if k.as_slice() == key.as_bytes() {
            return t.counts[i];
        }
    }
    0
}

fn same(x: &KmerAnalysisResult, y: &KmerAnalysisResult) -> bool {
    x.k == y.k
        && x.unique_kmers_a == y.unique_kmers_a
        && x.unique_kmers_b == y.unique_kmers_b
        && x.shared_kmers == y.shared_kmers
        && x.dot_product == y.dot_product
        && x.norm_a_squared == y.norm_a_squared
        && x.norm_b_squared == y.norm_b_squared
        && x.sum_abs_diff == y.sum_abs_diff
        && x.sum_total == y.sum_total
}

#[test]
fn kitten_sitting() {
    assert_eq!(levenshtein_distance("kitten", "sitting"), 3);
}

#[test]
fn edit_distance_symmetric() {
    let pairs = [("kitten", "sitting"), ("flaw", "lawn"), ("", "abc"), ("GATTACA", "GCATGCU")];
    for (a, b) in pairs {
        assert_eq!(levenshtein_distance(a, b), levenshtein_distance(b, a));
    }
    assert_eq!(levenshtein_distance("flaw", "lawn"), 2);
    assert_eq!(levenshtein_distance("GATTACA", "GCATGCU"), 4);
}

#[test]
fn edit_distance_identity() {
    assert_eq!(levenshtein_distance("ACGTACGT", "ACGTACGT"), 0);
    assert_eq!(levenshtein_distance("", ""), 0);
}

#[test]
fn edit_distance_from_empty_counts_characters() {
    assert_eq!(levenshtein_distance("", "héllo"), 5);
    assert_eq!(levenshtein_distance("日本語", ""), 3);
    assert_eq!(levenshtein_distance("café", "cafe"), 1);
}

#[test]
fn edit_distance_on_slices() {
    let a: Vec<char> = "abc".chars().collect();
    let b: Vec<char> = "yabd".chars().collect();
    assert_eq!(levenshtein_impl(&a, &b), 2);
    assert_eq!(levenshtein_impl(&b, &a), 2);
}

#[test]
fn extract_counts_repeats() {
    let t = extract_kmer_freqs("AAAA", 2);
    assert_eq!(t.kmers.len(), 1);
    assert_eq!(count_of(&t, "AA"), 3);
}

#[test]
fn extract_shorter_than_k_is_empty() {
    let t = extract_kmer_freqs("ACG", 4);
    assert_eq!(t.kmers.len(), 0);
    assert_eq!(t.counts.len(), 0);
}

#[test]
fn extract_skips_unknown_windows() {
    let t = extract_kmer_freqs("ANCGT", 2);
    assert_eq!(t.kmers.len(), 2);
    assert_eq!(count_of(&t, "AN"), 0);
    assert_eq!(count_of(&t, "NC"), 0);
    assert_eq!(count_of(&t, "CG"), 1);
    assert_eq!(count_of(&t, "GT"), 1);
    let lower = extract_kmer_freqs("ancgt", 2);
    assert_eq!(lower.kmers.len(), 2);
    assert_eq!(count_of(&lower, "CG"), 1);
}

#[test]
fn extract_uppercases_keys() {
    let t = extract_kmer_freqs("acgTACG", 3);
    assert_eq!(count_of(&t, "ACG"), 2);
    assert_eq!(count_of(&t, "CGT"), 1);
    assert_eq!(count_of(&t, "acg"), 0);
    assert_eq!(t.kmers[0], b"ACG".to_vec());
}

#[test]
fn identical_sequences_analysis() {
    // Five windows, ATCG twice: four distinct k-mers, all shared.
    let r = analyze_kmers("ATCGATCG", "ATCGATCG", 4);
    assert_eq!(r.k, 4);
    assert_eq!(r.unique_kmers_a, 4);
    assert_eq!(r.unique_kmers_b, 4);
    assert_eq!(r.shared_kmers, 4);
    assert_eq!(r.dot_product, 7);
    assert_eq!(r.norm_a_squared, 7);
    assert_eq!(r.norm_b_squared, 7);
    assert_eq!(r.sum_abs_diff, 0);
    assert_eq!(r.sum_total, 10);
}

#[test]
fn disjoint_sequences_analysis() {
    let r = analyze_kmers("AAAA", "TTTT", 2);
    assert_eq!(r.unique_kmers_a, 1);
    assert_eq!(r.unique_kmers_b, 1);
    assert_eq!(r.shared_kmers, 0);
    assert_eq!(r.dot_product, 0);
    assert_eq!(r.norm_a_squared, 9);
    assert_eq!(r.norm_b_squared, 9);
    assert_eq!(r.sum_abs_diff, 6);
    assert_eq!(r.sum_total, 6);
}

#[test]
fn analysis_is_case_insensitive() {
    let upper = analyze_kmers("ACGT", "ACGT", 2);
    let mixed = analyze_kmers("ACGT", "acgt", 2);
    assert!(same(&upper, &mixed));
    assert_eq!(mixed.shared_kmers, 3);
}

#[test]
fn analysis_swap_symmetry() {
    let ab = analyze_kmers("ACGTACGGA", "CGTTTACG", 2);
    let ba = analyze_kmers("CGTTTACG", "ACGTACGGA", 2);
    assert_eq!(ab.unique_kmers_a, ba.unique_kmers_b);
    assert_eq!(ab.unique_kmers_b, ba.unique_kmers_a);
    assert_eq!(ab.shared_kmers, ba.shared_kmers);
    assert_eq!(ab.dot_product, ba.dot_product);
    assert_eq!(ab.norm_a_squared, ba.norm_b_squared);
    assert_eq!(ab.sum_abs_diff, ba.sum_abs_diff);
    assert_eq!(ab.sum_total, ba.sum_total);
}

#[test]
fn analysis_exact_tallies() {
    // A: AC x2, CG x2, GT, TA, GG, GA; B: CG x2, GT, TT x2, TA, AC.
    let r = analyze_kmers("ACGTACGGA", "CGTTTACG", 2);
    assert_eq!(r.unique_kmers_a, 6);
    assert_eq!(r.unique_kmers_b, 5);
    assert_eq!(r.shared_kmers, 4);
    assert_eq!(r.dot_product, 2 * 1 + 2 * 2 + 1 * 1 + 1 * 1);
    assert_eq!(r.norm_a_squared, 4 + 4 + 1 + 1 + 1 + 1);
    assert_eq!(r.norm_b_squared, 4 + 1 + 4 + 1 + 1);
    assert_eq!(r.sum_abs_diff, 1 + 0 + 0 + 0 + 1 + 1 + 2);
    assert_eq!(r.sum_total, 15);
}

#[test]
fn analysis_both_empty() {
    let r = analyze_kmers("", "AC", 3);
    assert_eq!(r.unique_kmers_a, 0);
    assert_eq!(r.unique_kmers_b, 0);
    assert_eq!(r.shared_kmers, 0);
    assert_eq!(r.sum_total, 0);
    assert_eq!(r.sum_abs_diff, 0);
}

#[test]
fn analysis_all_unknown() {
    let r = analyze_kmers("NNNN", "ACGT", 2);
    assert_eq!(r.unique_kmers_a, 0);
    assert_eq!(r.unique_kmers_b, 3);
    assert_eq!(r.shared_kmers, 0);
    assert_eq!(r.sum_abs_diff, 3);
    assert_eq!(r.sum_total, 3);
}

#[test]
fn seed_multiplies_index() {
    assert_eq!(seed_of(0), 0);
    assert_eq!(seed_of(1), 0x9E37_79B9);
    assert_eq!(seed_of(2), 0x9E37_79B9u32.wrapping_mul(2));
}

#[test]
fn hash_of_one_byte() {
    // (0 ^ 'A') * 0x01000193
    assert_eq!(hash_window(b"A", 0, 1, 0), 65 * 0x0100_0193);
    assert_eq!(hash_window(b"a", 0, 1, 0), 65 * 0x0100_0193);
    let two = (65u32 * 0x0100_0193 ^ 67).wrapping_mul(0x0100_0193);
    assert_eq!(hash_window(b"xAC", 1, 2, 0), two);
    assert_ne!(hash_window(b"A", 0, 1, 7), 65 * 0x0100_0193);
}

#[test]
fn signature_of_single_kmer() {
    let sig = get_min_hash_signature("A", 1, 2);
    assert_eq!(sig.len(), 2);
    assert_eq!(sig[0], 65 * 0x0100_0193);
    assert_eq!(sig[1], (0x9E37_79B9u32 ^ 65).wrapping_mul(0x0100_0193));
}

#[test]
fn signature_short_sequence_is_all_max() {
    let sig = get_min_hash_signature("AC", 3, 4);
    assert_eq!(sig, vec![u32::MAX; 4]);
    assert_eq!(min_hash_matches("AC", "G", 3, 4), 4);
}

#[test]
fn signature_ignores_unknown_and_case() {
    assert_eq!(get_min_hash_signature("acgNNN", 3, 8), get_min_hash_signature("ACG", 3, 8));
    assert_eq!(get_min_hash_signature("NNN", 2, 3), vec![u32::MAX; 3]);
}

#[test]
fn min_hash_identical_agrees_everywhere() {
    assert_eq!(min_hash_matches("ATCGATCGGA", "ATCGATCGGA", 3, 64), 64);
    assert_eq!(min_hash_matches("ACGT", "acgt", 2, 16), 16);
}

#[test]
fn min_hash_disjoint_agrees_nowhere() {
    assert_eq!(min_hash_matches("AAAA", "TTTT", 2, 32), 0);
}

#[test]
fn min_hash_zero_slots() {
    assert_eq!(min_hash_matches("ACGT", "ACGT", 2, 0), 0);
    assert!(get_min_hash_signature("ACGT", 2, 0).is_empty());
}

#[test]
fn agreement_counts_equal_slots() {
    let a = vec![1u32, 2, 3, 4];
    let b = vec![1u32, 5, 3, 6];
    assert_eq!(signature_agreement(&a, &b), 2);
    assert_eq!(signature_agreement(&a, &a), 4);
}

#[test]
fn min_hash_tracks_jaccard() {
    // With many slots the agreement ratio lies near the exact Jaccard index.
    let a = "ACGTTGCAAGGCTTAC";
    let b = "ACGTTGCAATTCCGGA";
    let r = analyze_kmers(a, b, 3);
    let jaccard = r.shared_kmers as f64 / (r.unique_kmers_a + r.unique_kmers_b - r.shared_kmers) as f64;
    let estimate = min_hash_matches(a, b, 3, 512) as f64 / 512.0;
    assert!((estimate - jaccard).abs() < 0.2);
}
