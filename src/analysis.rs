//! Set and vector similarity of the k-mer tables of two sequences, as
//! exact integer tallies: every score is a ratio of two of them.
use vstd::prelude::*;
use vstd::string::StringSliceAdditionalSpecFns;
use crate::kmers::{
    KmerTable, kmers_of, count_of, total_of, sum_over, extract_kmer_freqs, lemma_keys_props,
    lemma_sum_counts, lemma_sum_bounds, lemma_sum_prefix_step, lemma_count_le, kmer_count,
    lemma_sum_const, lemma_sum_add, lemma_sum_congruent, lemma_sum_same_support, lemma_case_insensitive,
};
use crate::window::{num_windows, canonical};

verus! {

/// Occurrence count in `s`, as a function of the key.
pub open spec fn count_fn(s: Seq<u8>, k: nat) -> spec_fn(Seq<u8>) -> int {
    |x: Seq<u8>| count_of(s, k, x) as int
}

/// One for a key that occurs in `s`, zero otherwise.
pub open spec fn present_fn(s: Seq<u8>, k: nat) -> spec_fn(Seq<u8>) -> int {
    |x: Seq<u8>| if count_of(s, k, x) > 0 { 1int } else { 0int }
}

/// Product of the counts of a key in `a` and in `b`.
pub open spec fn product_fn(a: Seq<u8>, b: Seq<u8>, k: nat) -> spec_fn(Seq<u8>) -> int {
    |x: Seq<u8>| (count_of(a, k, x) * count_of(b, k, x)) as int
}

/// Absolute difference of the counts of a key in `a` and in `b`.
pub open spec fn abs_diff_fn(a: Seq<u8>, b: Seq<u8>, k: nat) -> spec_fn(Seq<u8>) -> int {
    |x: Seq<u8>|
        if count_of(a, k, x) >= count_of(b, k, x) {
            count_of(a, k, x) - count_of(b, k, x)
        } else {
            count_of(b, k, x) - count_of(a, k, x)
        }
}

/// Count of a key in `b` where it is absent from `a`, zero otherwise.
pub open spec fn only_fn(a: Seq<u8>, b: Seq<u8>, k: nat) -> spec_fn(Seq<u8>) -> int {
    |x: Seq<u8>| if count_of(a, k, x) == 0 { count_of(b, k, x) as int } else { 0int }
}

/// Number of distinct k-mers of `a` that also occur in `b`.
pub open spec fn shared_spec(a: Seq<u8>, b: Seq<u8>, k: nat) -> int {
    sum_over(kmers_of(a, k), present_fn(b, k))
}

/// Dot product of the two frequency vectors.
pub open spec fn dot_spec(a: Seq<u8>, b: Seq<u8>, k: nat) -> int {
    sum_over(kmers_of(a, k), product_fn(a, b, k))
}

/// Squared Euclidean norm of the frequency vector of `s`.
pub open spec fn norm_sq_spec(s: Seq<u8>, k: nat) -> int {
    sum_over(kmers_of(s, k), product_fn(s, s, k))
}

/// Sum over all keys of the absolute difference of the two counts.
pub open spec fn diff_spec(a: Seq<u8>, b: Seq<u8>, k: nat) -> int {
    sum_over(kmers_of(a, k), abs_diff_fn(a, b, k)) + sum_over(kmers_of(b, k), only_fn(a, b, k))
}

/// Sum of all counts of both sequences.
pub open spec fn total_spec(a: Seq<u8>, b: Seq<u8>, k: nat) -> int {
    sum_over(kmers_of(a, k), count_fn(a, k)) + sum_over(kmers_of(b, k), count_fn(b, k))
}

/// Exact tallies behind the k-mer similarity scores of two sequences:
/// Jaccard is `shared / (unique_a + unique_b - shared)`, containment is
/// `shared / unique_a` (or `/ unique_b`), cosine is
/// `dot_product / sqrt(norm_a_squared * norm_b_squared)` and Bray-Curtis is
/// `sum_abs_diff / sum_total`.
pub struct KmerAnalysisResult {
    pub k: usize,
    pub unique_kmers_a: usize,
    pub unique_kmers_b: usize,
    pub shared_kmers: usize,
    pub dot_product: u128,
    pub norm_a_squared: u128,
    pub norm_b_squared: u128,
    pub sum_abs_diff: u128,
    pub sum_total: u128,
}

impl KmerAnalysisResult {
    /// The tallies are those of sequences `a` and `b` at width `k`.
    pub open spec fn describes(&self, a: Seq<u8>, b: Seq<u8>, k: nat) -> bool {
        &&& self.k == k
        &&& self.unique_kmers_a == kmers_of(a, k).len()
        &&& self.unique_kmers_b == kmers_of(b, k).len()
        &&& self.shared_kmers == shared_spec(a, b, k)
        &&& self.dot_product == dot_spec(a, b, k)
        &&& self.norm_a_squared == norm_sq_spec(a, k)
        &&& self.norm_b_squared == norm_sq_spec(b, k)
        &&& self.sum_abs_diff == diff_spec(a, b, k)
        &&& self.sum_total == total_spec(a, b, k)
    }
}

/// Facts about the table of a whole sequence that the tallies rely on:
/// counts are positive, bounded by the total, and the total fits in usize.
proof fn lemma_table_facts(t: &KmerTable, s: Seq<u8>, k: nat)
    requires
        t.of(s, k),
        k >= 1,
        s.len() <= usize::MAX,
    ensures
        sum_over(kmers_of(s, k), count_fn(s, k)) == total_of(s, k),
        total_of(s, k) <= usize::MAX,
        kmers_of(s, k).no_duplicates(),
        forall|x: Seq<u8>| #[trigger] kmers_of(s, k).contains(x) <==> count_of(s, k, x) > 0,
        forall|x: Seq<u8>| #[trigger] count_of(s, k, x) <= total_of(s, k),
        forall|j: int| 0 <= j <= kmers_of(s, k).len() ==> #[trigger] sum_over(kmers_of(s, k).subrange(0, j), count_fn(s, k)) <= total_of(s, k),
{
    let n = num_windows(s.len(), k);
    lemma_sum_counts(s, k, n);
    lemma_keys_props(s, k, n);
    assert(count_fn(s, k) =~= |x: Seq<u8>| kmer_count(s, k, x, n) as int);
    lemma_sum_bounds(kmers_of(s, k), count_fn(s, k));
    lemma_count_le(s, k, Seq::empty(), n);
    assert forall|x: Seq<u8>| #[trigger] count_of(s, k, x) <= total_of(s, k) by {
        lemma_count_le(s, k, x, n);
    }
}

/// Looks up the count in `t`, the table of `s`, of a key; zero when absent.
fn count_in(t: &KmerTable, key: &Vec<u8>, Ghost(s): Ghost<Seq<u8>>, Ghost(k): Ghost<nat>) -> (r: usize)
    requires
        t.of(s, k),
        forall|x: Seq<u8>| #[trigger] kmers_of(s, k).contains(x) <==> count_of(s, k, x) > 0,
    ensures
        r == count_of(s, k, key@),
{
    let r = t.get(key);
    proof {
        if t.keys().contains(key@) {
            let j = choose|j: int| 0 <= j < t.keys().len() && t.keys()[j] == key@ && r == t.counts@[j];
            assert(t.counts@[j] == kmer_count(s, k, t.keys()[j], num_windows(s.len(), k)));
        } else {
            assert(!kmers_of(s, k).contains(key@));
        }
    }
    r
}

/// Computes the exact k-mer tallies of two sequences at width `k`: the
/// number of distinct k-mers of each, how many they share, the dot product
/// and squared norms of their frequency vectors, the summed absolute count
/// differences and the summed counts.
#[verifier::rlimit(50)]
pub fn analyze_kmers(sequence_a: &str, sequence_b: &str, k: usize) -> (r: KmerAnalysisResult)
    requires
        k >= 1,
    ensures
        r.describes(sequence_a.spec_bytes(), sequence_b.spec_bytes(), k as nat),
{
    let ta = extract_kmer_freqs(sequence_a, k);
    let tb = extract_kmer_freqs(sequence_b, k);
    let ghost a = sequence_a.spec_bytes();
    let ghost b = sequence_b.spec_bytes();
    let ghost kk = k as nat;
    let ghost ka = kmers_of(a, kk);
    let ghost kb = kmers_of(b, kk);
    let ghost na = total_of(a, kk);
    let ghost nb = total_of(b, kk);
    proof {
        lemma_table_facts(&ta, a, kk);
        lemma_table_facts(&tb, b, kk);
        assert(ka.subrange(0, 0) =~= Seq::<Seq<u8>>::empty());
        assert(kb.subrange(0, 0) =~= Seq::<Seq<u8>>::empty());
    }
    let len_a = ta.len();
    let len_b = tb.len();
    let mut shared: usize = 0;
    let mut dot: u128 = 0;
    let mut norm_a: u128 = 0;
    let mut diff: u128 = 0;
    let mut total_a: u128 = 0;
    let mut j: usize = 0;
    while j < len_a
        invariant
            ta.of(a, kk),
            tb.of(b, kk),
            len_a == ka.len(),
            ka == ta.keys(),
            ka == kmers_of(a, kk),
            ta.kmers@.len() == len_a,
            j <= len_a,
            na <= usize::MAX,
            nb <= usize::MAX,
            forall|x: Seq<u8>| #[trigger] kmers_of(b, kk).contains(x) <==> count_of(b, kk, x) > 0,
            forall|x: Seq<u8>| #[trigger] count_of(a, kk, x) <= na,
            forall|x: Seq<u8>| #[trigger] count_of(b, kk, x) <= nb,
            forall|i: int| 0 <= i <= ka.len() ==> #[trigger] sum_over(ka.subrange(0, i), count_fn(a, kk)) <= na,
            shared == sum_over(ka.subrange(0, j as int), present_fn(b, kk)),
            dot == sum_over(ka.subrange(0, j as int), product_fn(a, b, kk)),
            norm_a == sum_over(ka.subrange(0, j as int), product_fn(a, a, kk)),
            diff == sum_over(ka.subrange(0, j as int), abs_diff_fn(a, b, kk)),
            total_a == sum_over(ka.subrange(0, j as int), count_fn(a, kk)),
            shared <= j,
            dot <= total_a * nb,
            norm_a <= total_a * na,
            diff <= total_a + j * nb,
        decreases len_a - j,
    {
        let key = &ta.kmers[j];
        let ca = ta.counts[j];
        let cb = count_in(&tb, key, Ghost(b), Ghost(kk));
        proof {
            assert(key@ == ta.keys()[j as int]);
            lemma_sum_prefix_step(ka, present_fn(b, kk), j as int);
            lemma_sum_prefix_step(ka, product_fn(a, b, kk), j as int);
            lemma_sum_prefix_step(ka, product_fn(a, a, kk), j as int);
            lemma_sum_prefix_step(ka, abs_diff_fn(a, b, kk), j as int);
            lemma_sum_prefix_step(ka, count_fn(a, kk), j as int);
            assert(ca <= na && cb <= nb);
            assert(total_a + ca <= na);
            assert((ca as int) * (cb as int) <= (ca as int) * (nb as int)) by (nonlinear_arith)
                requires cb <= nb;
            assert((ca as int) * (ca as int) <= (ca as int) * (na as int)) by (nonlinear_arith)
                requires ca <= na;
            assert((total_a + ca) * nb == total_a * nb + ca * nb) by (nonlinear_arith);
            assert((total_a + ca) * na == total_a * na + ca * na) by (nonlinear_arith);
            assert((total_a + ca) * (nb as int) <= (na as int) * (nb as int)) by (nonlinear_arith)
                requires total_a + ca <= na;
            assert((total_a + ca) * (na as int) <= (na as int) * (na as int)) by (nonlinear_arith)
                requires total_a + ca <= na;
            assert((na as int) * (nb as int) <= (usize::MAX as int) * (usize::MAX as int)) by (nonlinear_arith)
                requires na <= usize::MAX, nb <= usize::MAX;
            assert((na as int) * (na as int) <= (usize::MAX as int) * (usize::MAX as int)) by (nonlinear_arith)
                requires na <= usize::MAX;
            assert((j as int) * (nb as int) <= (usize::MAX as int) * (usize::MAX as int)) by (nonlinear_arith)
                requires j <= usize::MAX, nb <= usize::MAX;
            assert(((j + 1) as int) * (nb as int) == (j as int) * (nb as int) + nb) by (nonlinear_arith);
        }
        if cb > 0 {
            shared = shared + 1;
        }
        dot = dot + (ca as u128) * (cb as u128);
        norm_a = norm_a + (ca as u128) * (ca as u128);
        let d: usize = if ca >= cb { ca - cb } else { cb - ca };
        diff = diff + d as u128;
        total_a = total_a + ca as u128;
        j = j + 1;
    }
    let mut norm_b: u128 = 0;
    let mut only_b: u128 = 0;
    let mut total_b: u128 = 0;
    let mut j: usize = 0;
    while j < len_b
        invariant
            ta.of(a, kk),
            tb.of(b, kk),
            len_b == kb.len(),
            kb == tb.keys(),
            kb == kmers_of(b, kk),
            tb.kmers@.len() == len_b,
            j <= len_b,
            nb <= usize::MAX,
            forall|x: Seq<u8>| #[trigger] kmers_of(a, kk).contains(x) <==> count_of(a, kk, x) > 0,
            forall|x: Seq<u8>| #[trigger] count_of(b, kk, x) <= nb,
            forall|i: int| 0 <= i <= kb.len() ==> #[trigger] sum_over(kb.subrange(0, i), count_fn(b, kk)) <= nb,
            norm_b == sum_over(kb.subrange(0, j as int), product_fn(b, b, kk)),
            only_b == sum_over(kb.subrange(0, j as int), only_fn(a, b, kk)),
            total_b == sum_over(kb.subrange(0, j as int), count_fn(b, kk)),
            norm_b <= total_b * nb,
            only_b <= total_b,
        decreases len_b - j,
    {
        let key = &tb.kmers[j];
        let cb = tb.counts[j];
        let ca = count_in(&ta, key, Ghost(a), Ghost(kk));
        proof {
            assert(key@ == tb.keys()[j as int]);
            lemma_sum_prefix_step(kb, product_fn(b, b, kk), j as int);
            lemma_sum_prefix_step(kb, only_fn(a, b, kk), j as int);
            lemma_sum_prefix_step(kb, count_fn(b, kk), j as int);
            assert(total_b + cb <= nb);
            assert((cb as int) * (cb as int) <= (cb as int) * (nb as int)) by (nonlinear_arith)
                requires cb <= nb;
            assert((total_b + cb) * nb == total_b * nb + cb * nb) by (nonlinear_arith);
            assert((total_b + cb) * (nb as int) <= (nb as int) * (nb as int)) by (nonlinear_arith)
                requires total_b + cb <= nb;
            assert((nb as int) * (nb as int) <= (usize::MAX as int) * (usize::MAX as int)) by (nonlinear_arith)
                requires nb <= usize::MAX;
        }
        norm_b = norm_b + (cb as u128) * (cb as u128);
        if ca == 0 {
            only_b = only_b + cb as u128;
        }
        total_b = total_b + cb as u128;
        j = j + 1;
    }
    proof {
        assert(ka.subrange(0, ka.len() as int) =~= ka);
        assert(kb.subrange(0, kb.len() as int) =~= kb);
        assert((len_a as int) * (nb as int) <= (usize::MAX as int) * (usize::MAX as int)) by (nonlinear_arith)
            requires len_a <= usize::MAX, nb <= usize::MAX;
    }
    KmerAnalysisResult {
        k,
        unique_kmers_a: len_a,
        unique_kmers_b: len_b,
        shared_kmers: shared,
        dot_product: dot,
        norm_a_squared: norm_a,
        norm_b_squared: norm_b,
        sum_abs_diff: diff + only_b,
        sum_total: total_a + total_b,
    }
}

/// The distinct k-mers of a sequence hold no repetition, and a key is among
/// them exactly when it occurs.
pub proof fn lemma_kmers_facts(s: Seq<u8>, k: nat)
    ensures
        kmers_of(s, k).no_duplicates(),
        forall|x: Seq<u8>| #[trigger] kmers_of(s, k).contains(x) <==> count_of(s, k, x) > 0,
{
    lemma_keys_props(s, k, num_windows(s.len(), k));
}

/// Compared with itself, a sequence shares every one of its k-mers, its
/// dot product equals its squared norm (cosine one) and no count differs
/// (Bray-Curtis zero).
pub proof fn lemma_analysis_identity(a: Seq<u8>, k: nat)
    ensures
        shared_spec(a, a, k) == kmers_of(a, k).len(),
        dot_spec(a, a, k) == norm_sq_spec(a, k),
        diff_spec(a, a, k) == 0,
{
    let ka = kmers_of(a, k);
    lemma_kmers_facts(a, k);
    assert forall|j: int| 0 <= j < ka.len() implies #[trigger] count_of(a, k, ka[j]) > 0 by {
        assert(ka.contains(ka[j]));
    }
    lemma_sum_const(ka, present_fn(a, k), 1);
    lemma_sum_const(ka, abs_diff_fn(a, a, k), 0);
    lemma_sum_const(ka, only_fn(a, a, k), 0);
}

/// Swapping the two sequences leaves the shared count, the dot product, the
/// summed count differences and the summed counts unchanged.
pub proof fn lemma_analysis_swap(a: Seq<u8>, b: Seq<u8>, k: nat)
    ensures
        shared_spec(a, b, k) == shared_spec(b, a, k),
        dot_spec(a, b, k) == dot_spec(b, a, k),
        diff_spec(a, b, k) == diff_spec(b, a, k),
        total_spec(a, b, k) == total_spec(b, a, k),
{
    let ka = kmers_of(a, k);
    let kb = kmers_of(b, k);
    lemma_kmers_facts(a, k);
    lemma_kmers_facts(b, k);
    let both = |x: Seq<u8>| if count_of(a, k, x) > 0 && count_of(b, k, x) > 0 { 1int } else { 0int };
    assert forall|j: int| 0 <= j < ka.len() implies present_fn(b, k)(#[trigger] ka[j]) == both(ka[j]) by {
        assert(ka.contains(ka[j]));
    }
    assert forall|j: int| 0 <= j < kb.len() implies present_fn(a, k)(#[trigger] kb[j]) == both(kb[j]) by {
        assert(kb.contains(kb[j]));
    }
    lemma_sum_congruent(ka, present_fn(b, k), both);
    lemma_sum_congruent(kb, present_fn(a, k), both);
    lemma_sum_same_support(ka, kb, both);

    assert forall|j: int| 0 <= j < kb.len() implies product_fn(b, a, k)(#[trigger] kb[j]) == product_fn(a, b, k)(kb[j]) by {
        let x = kb[j];
        assert(count_of(b, k, x) * count_of(a, k, x) == count_of(a, k, x) * count_of(b, k, x)) by (nonlinear_arith);
    }
    lemma_sum_congruent(kb, product_fn(b, a, k), product_fn(a, b, k));
    assert forall|x: Seq<u8>| product_fn(a, b, k)(x) != 0 && (ka.contains(x) || kb.contains(x)) implies ka.contains(x) && kb.contains(x) by {
        if count_of(a, k, x) == 0 || count_of(b, k, x) == 0 {
            assert(count_of(a, k, x) * count_of(b, k, x) == 0) by (nonlinear_arith)
                requires count_of(a, k, x) == 0 || count_of(b, k, x) == 0;
        }
    }
    lemma_sum_same_support(ka, kb, product_fn(a, b, k));

    let both_abs = |x: Seq<u8>|
        if count_of(a, k, x) > 0 && count_of(b, k, x) > 0 { abs_diff_fn(a, b, k)(x) } else { 0int };
    assert forall|j: int| 0 <= j < ka.len() implies abs_diff_fn(a, b, k)(#[trigger] ka[j]) == both_abs(ka[j]) + only_fn(b, a, k)(ka[j]) by {
        assert(ka.contains(ka[j]));
    }
    assert forall|j: int| 0 <= j < kb.len() implies abs_diff_fn(b, a, k)(#[trigger] kb[j]) == both_abs(kb[j]) + only_fn(a, b, k)(kb[j]) by {
        assert(kb.contains(kb[j]));
    }
    lemma_sum_add(ka, both_abs, only_fn(b, a, k), abs_diff_fn(a, b, k));
    lemma_sum_add(kb, both_abs, only_fn(a, b, k), abs_diff_fn(b, a, k));
    lemma_sum_same_support(ka, kb, both_abs);
}

/// When no k-mer is shared, the dot product is zero (cosine zero) and the
/// summed count differences equal the summed counts (Bray-Curtis one).
pub proof fn lemma_analysis_disjoint(a: Seq<u8>, b: Seq<u8>, k: nat)
    requires
        shared_spec(a, b, k) == 0,
    ensures
        dot_spec(a, b, k) == 0,
        diff_spec(a, b, k) == total_spec(a, b, k),
        shared_spec(b, a, k) == 0,
{
    let ka = kmers_of(a, k);
    let kb = kmers_of(b, k);
    lemma_kmers_facts(a, k);
    lemma_kmers_facts(b, k);
    lemma_sum_bounds(ka, present_fn(b, k));
    assert forall|x: Seq<u8>| ka.contains(x) implies count_of(b, k, x) == 0 by {
        let j = choose|j: int| 0 <= j < ka.len() && ka[j] == x;
        assert(present_fn(b, k)(ka[j]) <= 0);
    }
    assert forall|j: int| 0 <= j < ka.len() implies product_fn(a, b, k)(#[trigger] ka[j]) == 0 by {
        assert(ka.contains(ka[j]));
        assert(count_of(a, k, ka[j]) * count_of(b, k, ka[j]) == 0) by (nonlinear_arith)
            requires count_of(b, k, ka[j]) == 0;
    }
    lemma_sum_const(ka, product_fn(a, b, k), 0);
    assert forall|j: int| 0 <= j < ka.len() implies abs_diff_fn(a, b, k)(#[trigger] ka[j]) == count_fn(a, k)(ka[j]) by {
        assert(ka.contains(ka[j]));
    }
    lemma_sum_congruent(ka, abs_diff_fn(a, b, k), count_fn(a, k));
    assert forall|j: int| 0 <= j < kb.len() implies only_fn(a, b, k)(#[trigger] kb[j]) == count_fn(b, k)(kb[j]) by {
        assert(kb.contains(kb[j]));
        if count_of(a, k, kb[j]) > 0 {
            assert(ka.contains(kb[j]));
        }
    }
    lemma_sum_congruent(kb, only_fn(a, b, k), count_fn(b, k));
    lemma_analysis_swap(a, b, k);
}

/// Case does not matter to the analysis: replacing each sequence by one
/// that agrees with it once uppercased leaves every tally unchanged.
pub proof fn lemma_analysis_case_insensitive(a: Seq<u8>, a2: Seq<u8>, b: Seq<u8>, b2: Seq<u8>, k: nat)
    requires
        canonical(a) == canonical(a2),
        canonical(b) == canonical(b2),
    ensures
        kmers_of(a, k).len() == kmers_of(a2, k).len(),
        kmers_of(b, k).len() == kmers_of(b2, k).len(),
        shared_spec(a, b, k) == shared_spec(a2, b2, k),
        dot_spec(a, b, k) == dot_spec(a2, b2, k),
        norm_sq_spec(a, k) == norm_sq_spec(a2, k),
        norm_sq_spec(b, k) == norm_sq_spec(b2, k),
        diff_spec(a, b, k) == diff_spec(a2, b2, k),
        total_spec(a, b, k) == total_spec(a2, b2, k),
{
    lemma_case_insensitive(a, a2, k);
    lemma_case_insensitive(b, b2, k);
    assert(count_fn(a, k) =~= count_fn(a2, k));
    assert(count_fn(b, k) =~= count_fn(b2, k));
    assert(present_fn(b, k) =~= present_fn(b2, k));
    assert(product_fn(a, b, k) =~= product_fn(a2, b2, k));
    assert(product_fn(a, a, k) =~= product_fn(a2, a2, k));
    assert(product_fn(b, b, k) =~= product_fn(b2, b2, k));
    assert(abs_diff_fn(a, b, k) =~= abs_diff_fn(a2, b2, k));
    assert(only_fn(a, b, k) =~= only_fn(a2, b2, k));
}

} // verus!
