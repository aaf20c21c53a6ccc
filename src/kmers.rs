//! K-mer extraction: the distinct canonical k-mers of a sequence, in order
//! of first appearance, with the number of valid windows that give each.
use vstd::prelude::*;
use vstd::string::StringSliceAdditionalSpecFns;
use crate::window::{upper_byte, is_unknown, num_windows, window, window_valid, canonical, to_upper_byte, window_is_valid};

verus! {

/// Number of valid windows among the first `n` start offsets whose
/// canonical key is `key`.
pub open spec fn kmer_count(s: Seq<u8>, k: nat, key: Seq<u8>, n: nat) -> nat
    decreases n,
{
    if n == 0 {
        0
    } else {
        let w = window(s, n - 1, k);
        kmer_count(s, k, key, (n - 1) as nat) + if window_valid(w) && canonical(w) == key { 1nat } else { 0nat }
    }
}

/// Number of valid windows among the first `n` start offsets.
pub open spec fn valid_count(s: Seq<u8>, k: nat, n: nat) -> nat
    decreases n,
{
    if n == 0 {
        0
    } else {
        valid_count(s, k, (n - 1) as nat) + if window_valid(window(s, n - 1, k)) { 1nat } else { 0nat }
    }
}

/// The distinct canonical keys of the valid windows among the first `n`
/// start offsets, in order of first appearance.
pub open spec fn kmer_keys(s: Seq<u8>, k: nat, n: nat) -> Seq<Seq<u8>>
    decreases n,
{
    if n == 0 {
        Seq::empty()
    } else {
        let ks = kmer_keys(s, k, (n - 1) as nat);
        let w = window(s, n - 1, k);
        if window_valid(w) && !ks.contains(canonical(w)) { ks.push(canonical(w)) } else { ks }
    }
}

/// The distinct k-mers of a whole sequence.
pub open spec fn kmers_of(s: Seq<u8>, k: nat) -> Seq<Seq<u8>> {
    kmer_keys(s, k, num_windows(s.len(), k))
}

/// How often `key` occurs as a k-mer of the whole sequence.
pub open spec fn count_of(s: Seq<u8>, k: nat, key: Seq<u8>) -> nat {
    kmer_count(s, k, key, num_windows(s.len(), k))
}

/// Number of valid windows of the whole sequence.
pub open spec fn total_of(s: Seq<u8>, k: nat) -> nat {
    valid_count(s, k, num_windows(s.len(), k))
}

/// Sum of `f` over a sequence of keys.
pub open spec fn sum_over(keys: Seq<Seq<u8>>, f: spec_fn(Seq<u8>) -> int) -> int
    decreases keys.len(),
{
    if keys.len() == 0 {
        0
    } else {
        sum_over(keys.drop_last(), f) + f(keys.last())
    }
}

/// A key's count is at most the number of valid windows, which is at most
/// the number of windows looked at.
pub proof fn lemma_count_le(s: Seq<u8>, k: nat, key: Seq<u8>, n: nat)
    ensures
        kmer_count(s, k, key, n) <= valid_count(s, k, n),
        valid_count(s, k, n) <= n,
    decreases n,
{
    if n > 0 {
        lemma_count_le(s, k, key, (n - 1) as nat);
    }
}

/// A key has a positive count exactly when it is among the distinct keys,
/// and the distinct keys hold no repetition.
pub proof fn lemma_keys_props(s: Seq<u8>, k: nat, n: nat)
    ensures
        kmer_keys(s, k, n).no_duplicates(),
        forall|x: Seq<u8>| #[trigger] kmer_keys(s, k, n).contains(x) <==> kmer_count(s, k, x, n) > 0,
    decreases n,
{
    if n > 0 {
        lemma_keys_props(s, k, (n - 1) as nat);
        let ks = kmer_keys(s, k, (n - 1) as nat);
        let w = window(s, n - 1, k);
        if window_valid(w) && !ks.contains(canonical(w)) {
            assert forall|x: Seq<u8>| #[trigger] kmer_keys(s, k, n).contains(x) <==> kmer_count(s, k, x, n) > 0 by {
                if x == canonical(w) {
                    assert(kmer_keys(s, k, n)[ks.len() as int] == x);
                } else if ks.contains(x) {
                    let j = choose|j: int| 0 <= j < ks.len() && ks[j] == x;
                    assert(kmer_keys(s, k, n)[j] == x);
                } else if kmer_keys(s, k, n).contains(x) {
                    let j = choose|j: int| 0 <= j < kmer_keys(s, k, n).len() && kmer_keys(s, k, n)[j] == x;
                    if j < ks.len() {
                        assert(ks.contains(x));
                    }
                }
            }
        }
    }
}

/// Every distinct key is the canonical form of a window free of the
/// unknown-base marker, so it holds neither `N` nor `n`.
pub proof fn lemma_keys_have_no_unknown(s: Seq<u8>, k: nat, n: nat)
    ensures
        forall|j: int, t: int|
            0 <= j < kmer_keys(s, k, n).len() && 0 <= t < kmer_keys(s, k, n)[j].len()
                ==> !is_unknown(#[trigger] kmer_keys(s, k, n)[j][t]),
    decreases n,
{
    if n > 0 {
        lemma_keys_have_no_unknown(s, k, (n - 1) as nat);
        let ks = kmer_keys(s, k, (n - 1) as nat);
        let w = window(s, n - 1, k);
        if window_valid(w) && !ks.contains(canonical(w)) {
            assert forall|t: int| 0 <= t < canonical(w).len() implies !is_unknown(#[trigger] canonical(w)[t]) by {
                assert(!is_unknown(w[t]));
            }
            assert(kmer_keys(s, k, n)[ks.len() as int] == canonical(w));
        }
    }
}

/// Sums agree where the summed functions agree on every key.
pub proof fn lemma_sum_congruent(keys: Seq<Seq<u8>>, f: spec_fn(Seq<u8>) -> int, g: spec_fn(Seq<u8>) -> int)
    requires
        forall|j: int| 0 <= j < keys.len() ==> f(#[trigger] keys[j]) == g(keys[j]),
    ensures
        sum_over(keys, f) == sum_over(keys, g),
    decreases keys.len(),
{
    if keys.len() > 0 {
        let d = keys.drop_last();
        assert forall|j: int| 0 <= j < d.len() implies f(#[trigger] d[j]) == g(d[j]) by {
            assert(d[j] == keys[j]);
        }
        lemma_sum_congruent(d, f, g);
    }
}

/// With a non-negative summand, each term and each prefix sum is at most
/// the whole sum.
pub proof fn lemma_sum_bounds(keys: Seq<Seq<u8>>, f: spec_fn(Seq<u8>) -> int)
    requires
        forall|j: int| 0 <= j < keys.len() ==> f(#[trigger] keys[j]) >= 0,
    ensures
        sum_over(keys, f) >= 0,
        forall|j: int| 0 <= j < keys.len() ==> f(#[trigger] keys[j]) <= sum_over(keys, f),
        forall|j: int| 0 <= j <= keys.len() ==> #[trigger] sum_over(keys.subrange(0, j), f) <= sum_over(keys, f),
    decreases keys.len(),
{
    if keys.len() > 0 {
        let d = keys.drop_last();
        assert forall|j: int| 0 <= j < d.len() implies f(#[trigger] d[j]) >= 0 by {
            assert(d[j] == keys[j]);
        }
        lemma_sum_bounds(d, f);
        assert forall|j: int| 0 <= j < keys.len() implies f(#[trigger] keys[j]) <= sum_over(keys, f) by {
            if j < d.len() {
                assert(d[j] == keys[j]);
            }
        }
        assert forall|j: int| 0 <= j <= keys.len() implies #[trigger] sum_over(keys.subrange(0, j), f) <= sum_over(keys, f) by {
            if j < keys.len() {
                assert(keys.subrange(0, j) =~= d.subrange(0, j));
            } else {
                assert(keys.subrange(0, j) =~= keys);
            }
        }
    }
}

/// Summing over one more key of a prefix adds that key's term.
pub proof fn lemma_sum_prefix_step(keys: Seq<Seq<u8>>, f: spec_fn(Seq<u8>) -> int, j: int)
    requires
        0 <= j < keys.len(),
    ensures
        sum_over(keys.subrange(0, j + 1), f) == sum_over(keys.subrange(0, j), f) + f(keys[j]),
{
    assert(keys.subrange(0, j + 1).drop_last() =~= keys.subrange(0, j));
}

/// Raising one key's term by one raises a sum over distinct keys by one.
pub proof fn lemma_sum_add_one(keys: Seq<Seq<u8>>, f: spec_fn(Seq<u8>) -> int, g: spec_fn(Seq<u8>) -> int, x: Seq<u8>)
    requires
        keys.no_duplicates(),
        keys.contains(x),
        forall|j: int| 0 <= j < keys.len() ==> g(#[trigger] keys[j]) == f(keys[j]) + if keys[j] == x { 1int } else { 0int },
    ensures
        sum_over(keys, g) == sum_over(keys, f) + 1,
    decreases keys.len(),
{
    let d = keys.drop_last();
    if keys.last() == x {
        assert forall|j: int| 0 <= j < d.len() implies f(#[trigger] d[j]) == g(d[j]) by {
            assert(d[j] == keys[j]);
            assert(keys[j] != keys[keys.len() - 1]);
        }
        lemma_sum_congruent(d, f, g);
    } else {
        let j0 = choose|j: int| 0 <= j < keys.len() && keys[j] == x;
        assert(d[j0] == x);
        assert forall|j: int| 0 <= j < d.len() implies g(#[trigger] d[j]) == f(d[j]) + if d[j] == x { 1int } else { 0int } by {
            assert(d[j] == keys[j]);
        }
        lemma_sum_add_one(d, f, g, x);
    }
}

/// The counts of the distinct keys add up to the number of valid windows.
pub proof fn lemma_sum_counts(s: Seq<u8>, k: nat, n: nat)
    ensures
        sum_over(kmer_keys(s, k, n), |x: Seq<u8>| kmer_count(s, k, x, n) as int) == valid_count(s, k, n),
    decreases n,
{
    if n > 0 {
        let m = (n - 1) as nat;
        lemma_sum_counts(s, k, m);
        lemma_keys_props(s, k, m);
        let ks = kmer_keys(s, k, m);
        let w = window(s, n - 1, k);
        let f = |x: Seq<u8>| kmer_count(s, k, x, m) as int;
        let g = |x: Seq<u8>| kmer_count(s, k, x, n) as int;
        if !window_valid(w) {
            lemma_sum_congruent(ks, f, g);
        } else if !ks.contains(canonical(w)) {
            assert forall|j: int| 0 <= j < ks.len() implies f(#[trigger] ks[j]) == g(ks[j]) by {
                assert(ks.contains(ks[j]));
            }
            lemma_sum_congruent(ks, f, g);
            assert(kmer_keys(s, k, n).drop_last() =~= ks);
        } else {
            lemma_sum_add_one(ks, f, g, canonical(w));
        }
    }
}

/// A k-mer frequency table: distinct keys, each with its number of
/// occurrences at the same index.
pub struct KmerTable {
    pub kmers: Vec<Vec<u8>>,
    pub counts: Vec<usize>,
}

impl KmerTable {
    /// The keys as byte sequences.
    pub open spec fn keys(&self) -> Seq<Seq<u8>> {
        self.kmers@.map_values(|v: Vec<u8>| v@)
    }

    /// The table lists the k-mers of the first `n` windows of `s`, in order
    /// of first appearance, each with its exact count.
    pub open spec fn holds(&self, s: Seq<u8>, k: nat, n: nat) -> bool {
        &&& self.kmers@.len() == self.counts@.len()
        &&& self.keys() == kmer_keys(s, k, n)
        &&& forall|j: int| 0 <= j < self.counts@.len() ==> self.counts@[j] == kmer_count(s, k, #[trigger] self.keys()[j], n)
    }

    /// The table of a whole sequence.
    pub open spec fn of(&self, s: Seq<u8>, k: nat) -> bool {
        self.holds(s, k, num_windows(s.len(), k))
    }

    /// Number of distinct keys.
    pub fn len(&self) -> (r: usize)
        requires
            self.kmers@.len() == self.counts@.len(),
        ensures
            r == self.keys().len(),
    {
        self.kmers.len()
    }

    /// Index of `key` in the table, if present.
    pub fn find(&self, key: &Vec<u8>) -> (r: Option<usize>)
        requires
            self.kmers@.len() == self.counts@.len(),
        ensures
            r matches Some(j) ==> j < self.keys().len() && self.keys()[j as int] == key@,
            r is None ==> !self.keys().contains(key@),
    {
        let mut j: usize = 0;
        while j < self.kmers.len()
            invariant
                j <= self.kmers@.len(),
                forall|t: int| 0 <= t < j ==> self.keys()[t] != key@,
            decreases self.kmers@.len() - j,
        {
            if bytes_equal(&self.kmers[j], key) {
                return Some(j);
            }
            j = j + 1;
        }
        None
    }

    /// Occurrences of `key` recorded in the table; zero when absent.
    pub fn get(&self, key: &Vec<u8>) -> (r: usize)
        requires
            self.kmers@.len() == self.counts@.len(),
        ensures
            self.keys().contains(key@) ==> exists|j: int| 0 <= j < self.keys().len() && self.keys()[j] == key@ && r == self.counts@[j],
            !self.keys().contains(key@) ==> r == 0,
    {
        match self.find(key) {
            Some(j) => self.counts[j],
            None => 0,
        }
    }
}

/// Whether two byte vectors hold the same bytes.
pub fn bytes_equal(a: &Vec<u8>, b: &Vec<u8>) -> (r: bool)
    ensures
        r == (a@ == b@),
{
    if a.len() != b.len() {
        return false;
    }
    let mut i: usize = 0;
    while i < a.len()
        invariant
            a@.len() == b@.len(),
            i <= a@.len(),
            forall|t: int| 0 <= t < i ==> a@[t] == b@[t],
        decreases a@.len() - i,
    {
        if a[i] != b[i] {
            return false;
        }
        i = i + 1;
    }
    assert(a@ =~= b@);
    true
}

/// The uppercased bytes of the window of width `k` at offset `i`.
pub fn canonical_window(s: &[u8], i: usize, k: usize) -> (r: Vec<u8>)
    requires
        i + k <= s@.len(),
    ensures
        r@ == canonical(window(s@, i as int, k as nat)),
{
    let len = s.len();
    let mut key: Vec<u8> = Vec::new();
    let mut t: usize = 0;
    while t < k
        invariant
            t <= k,
            len == s@.len(),
            i + k <= len,
            key@ == canonical(window(s@, i as int, t as nat)),
        decreases k - t,
    {
        key.push(to_upper_byte(s[i + t]));
        proof {
            assert(key@ =~= canonical(window(s@, i as int, (t + 1) as nat)));
        }
        t = t + 1;
    }
    key
}

/// Counts the canonical k-mers of `sequence`: windows of width `k` over its
/// bytes, skipping any window that holds `N` or `n`, each key uppercased.
pub fn extract_kmer_freqs(sequence: &str, k: usize) -> (t: KmerTable)
    requires
        k >= 1,
    ensures
        t.of(sequence.spec_bytes(), k as nat),
        sequence.spec_bytes().len() <= usize::MAX,
{
    let bytes = sequence.as_bytes();
    let ghost s = bytes@;
    let len = bytes.len();
    let nw: usize = if len >= k { len - k + 1 } else { 0 };
    let mut table = KmerTable { kmers: Vec::new(), counts: Vec::new() };
    proof {
        assert(table.keys() =~= Seq::<Seq<u8>>::empty());
    }
    let mut i: usize = 0;
    while i < nw
        invariant
            s == bytes@,
            len == s.len(),
            nw == num_windows(len as nat, k as nat),
            i <= nw,
            table.holds(s, k as nat, i as nat),
        decreases nw - i,
    {
        let ghost old_table = table;
        let ghost n1 = (i + 1) as nat;
        proof {
            lemma_keys_props(s, k as nat, i as nat);
            lemma_count_le(s, k as nat, canonical(window(s, i as int, k as nat)), i as nat);
        }
        if window_is_valid(bytes, i, k) {
            let key = canonical_window(bytes, i, k);
            match table.find(&key) {
                Some(j) => {
                    let c = table.counts[j];
                    table.counts.set(j, c + 1);
                    proof {
                        assert(table.keys() =~= old_table.keys());
                        assert forall|t: int| 0 <= t < table.counts@.len() implies table.counts@[t] == kmer_count(s, k as nat, #[trigger] table.keys()[t], n1) by {
                            assert(table.keys()[t] == old_table.keys()[t]);
                        }
                    }
                }
                None => {
                    table.kmers.push(key);
                    table.counts.push(1);
                    proof {
                        assert(table.keys() =~= old_table.keys().push(key@));
                        assert forall|t: int| 0 <= t < table.counts@.len() implies table.counts@[t] == kmer_count(s, k as nat, #[trigger] table.keys()[t], n1) by {
                            if t < old_table.counts@.len() {
                                assert(table.keys()[t] == old_table.keys()[t]);
                                assert(old_table.keys().contains(old_table.keys()[t]));
                            }
                        }
                    }
                }
            }
        } else {
            proof {
                assert forall|t: int| 0 <= t < table.counts@.len() implies table.counts@[t] == kmer_count(s, k as nat, #[trigger] table.keys()[t], n1) by {
                }
            }
        }
        i = i + 1;
    }
    table
}

/// A sum whose summand is the constant `c` on every key is `c` times the
/// number of keys.
pub proof fn lemma_sum_const(keys: Seq<Seq<u8>>, f: spec_fn(Seq<u8>) -> int, c: int)
    requires
        forall|j: int| 0 <= j < keys.len() ==> f(#[trigger] keys[j]) == c,
    ensures
        sum_over(keys, f) == c * keys.len(),
    decreases keys.len(),
{
    if keys.len() > 0 {
        let d = keys.drop_last();
        assert forall|j: int| 0 <= j < d.len() implies f(#[trigger] d[j]) == c by {
            assert(d[j] == keys[j]);
        }
        lemma_sum_const(d, f, c);
        assert(c * d.len() + c == c * keys.len()) by (nonlinear_arith)
            requires d.len() + 1 == keys.len();
    }
}

/// A sum of a pointwise sum is the sum of the two sums.
pub proof fn lemma_sum_add(keys: Seq<Seq<u8>>, f: spec_fn(Seq<u8>) -> int, g: spec_fn(Seq<u8>) -> int, h: spec_fn(Seq<u8>) -> int)
    requires
        forall|j: int| 0 <= j < keys.len() ==> h(#[trigger] keys[j]) == f(keys[j]) + g(keys[j]),
    ensures
        sum_over(keys, h) == sum_over(keys, f) + sum_over(keys, g),
    decreases keys.len(),
{
    if keys.len() > 0 {
        let d = keys.drop_last();
        assert forall|j: int| 0 <= j < d.len() implies h(#[trigger] d[j]) == f(d[j]) + g(d[j]) by {
            assert(d[j] == keys[j]);
        }
        lemma_sum_add(d, f, g, h);
    }
}

/// Removing one key from a sum takes away exactly its term.
pub proof fn lemma_sum_remove(keys: Seq<Seq<u8>>, f: spec_fn(Seq<u8>) -> int, i: int)
    requires
        0 <= i < keys.len(),
    ensures
        sum_over(keys, f) == sum_over(keys.remove(i), f) + f(keys[i]),
    decreases keys.len(),
{
    if i == keys.len() - 1 {
        assert(keys.remove(i) =~= keys.drop_last());
    } else {
        let d = keys.drop_last();
        lemma_sum_remove(d, f, i);
        assert(d.remove(i) =~= keys.remove(i).drop_last());
    }
}

/// Two sums over sequences of distinct keys agree when the summand
/// vanishes on every key that lies in one sequence but not the other.
pub proof fn lemma_sum_same_support(s1: Seq<Seq<u8>>, s2: Seq<Seq<u8>>, f: spec_fn(Seq<u8>) -> int)
    requires
        s1.no_duplicates(),
        s2.no_duplicates(),
        forall|x: Seq<u8>| f(x) != 0 && (s1.contains(x) || s2.contains(x)) ==> s1.contains(x) && s2.contains(x),
    ensures
        sum_over(s1, f) == sum_over(s2, f),
    decreases s1.len() + s2.len(),
{
    if s1.len() == 0 {
        if s2.len() > 0 {
            let d2 = s2.drop_last();
            assert(s2.contains(s2.last()));
            assert forall|x: Seq<u8>| f(x) != 0 && (s1.contains(x) || d2.contains(x)) implies s1.contains(x) && d2.contains(x) by {
                if d2.contains(x) {
                    let j = choose|j: int| 0 <= j < d2.len() && d2[j] == x;
                    assert(s2[j] == x);
                }
            }
            lemma_sum_same_support(s1, d2, f);
        }
    } else {
        let x = s1.last();
        let d1 = s1.drop_last();
        assert(s1.contains(x));
        assert(!d1.contains(x)) by {
            if d1.contains(x) {
                let j = choose|j: int| 0 <= j < d1.len() && d1[j] == x;
                assert(s1[j] == s1[s1.len() - 1]);
            }
        }
        assert forall|y: Seq<u8>| d1.contains(y) implies s1.contains(y) by {
            let j = choose|j: int| 0 <= j < d1.len() && d1[j] == y;
            assert(s1[j] == y);
        }
        if f(x) == 0 {
            assert forall|y: Seq<u8>| f(y) != 0 && (d1.contains(y) || s2.contains(y)) implies d1.contains(y) && s2.contains(y) by {
                if s1.contains(y) && y != x {
                    let j = choose|j: int| 0 <= j < s1.len() && s1[j] == y;
                    assert(d1[j] == y);
                }
            }
            lemma_sum_same_support(d1, s2, f);
        } else {
            let i = choose|i: int| 0 <= i < s2.len() && s2[i] == x;
            let r2 = s2.remove(i);
            lemma_sum_remove(s2, f, i);
            assert(r2.no_duplicates()) by {
                assert forall|p: int, q: int| 0 <= p < r2.len() && 0 <= q < r2.len() && p != q implies r2[p] != r2[q] by {
                    let pp = if p < i { p } else { p + 1 };
                    let qq = if q < i { q } else { q + 1 };
                    assert(r2[p] == s2[pp] && r2[q] == s2[qq]);
                }
            }
            assert forall|y: Seq<u8>| f(y) != 0 && (d1.contains(y) || r2.contains(y)) implies d1.contains(y) && r2.contains(y) by {
                if r2.contains(y) {
                    let j = choose|j: int| 0 <= j < r2.len() && r2[j] == y;
                    let jj = if j < i { j } else { j + 1 };
                    assert(s2[jj] == y);
                    assert(y != x);
                }
                if y != x && s1.contains(y) {
                    let j = choose|j: int| 0 <= j < s1.len() && s1[j] == y;
                    assert(d1[j] == y);
                }
                if y != x && s2.contains(y) {
                    let j = choose|j: int| 0 <= j < s2.len() && s2[j] == y;
                    assert(j != i);
                    let jj = if j < i { j } else { j - 1 };
                    assert(r2[jj] == y);
                }
            }
            lemma_sum_same_support(d1, r2, f);
        }
    }
}

/// A key holding the unknown-base marker (`N` or `n`) never occurs as a
/// k-mer: its count is zero and it is not among the distinct k-mers.
pub proof fn lemma_unknown_excluded(s: Seq<u8>, k: nat, x: Seq<u8>, t: int)
    requires
        0 <= t < x.len(),
        is_unknown(x[t]),
    ensures
        count_of(s, k, x) == 0,
        !kmers_of(s, k).contains(x),
{
    let n = num_windows(s.len(), k);
    lemma_keys_props(s, k, n);
    lemma_keys_have_no_unknown(s, k, n);
    if kmers_of(s, k).contains(x) {
        let j = choose|j: int| 0 <= j < kmers_of(s, k).len() && kmers_of(s, k)[j] == x;
        assert(!is_unknown(kmer_keys(s, k, n)[j][t]));
    }
}

/// Windows at the same offset of two sequences that agree after
/// uppercasing are valid together and have the same canonical key.
proof fn lemma_same_fold_window(a: Seq<u8>, b: Seq<u8>, k: nat, i: int)
    requires
        canonical(a) == canonical(b),
        0 <= i,
        i + k <= a.len(),
    ensures
        window_valid(window(a, i, k)) == window_valid(window(b, i, k)),
        canonical(window(a, i, k)) == canonical(window(b, i, k)),
{
    let wa = window(a, i, k);
    let wb = window(b, i, k);
    assert(a.len() == canonical(a).len() && b.len() == canonical(b).len());
    assert forall|t: int| 0 <= t < k implies #[trigger] canonical(wa)[t] == canonical(wb)[t] && (is_unknown(wa[t]) <==> is_unknown(wb[t])) by {
        assert(canonical(a)[i + t] == canonical(b)[i + t]);
        assert(wa[t] == a[i + t] && wb[t] == b[i + t]);
        assert(canonical(a)[i + t] == upper_byte(a[i + t]));
        assert(canonical(b)[i + t] == upper_byte(b[i + t]));
        assert(canonical(wa)[t] == upper_byte(wa[t]) && canonical(wb)[t] == upper_byte(wb[t]));
        assert(is_unknown(wa[t]) <==> is_unknown(upper_byte(wa[t])));
        assert(is_unknown(wb[t]) <==> is_unknown(upper_byte(wb[t])));
    }
    assert(canonical(wa) =~= canonical(wb));
    if window_valid(wa) {
        assert forall|t: int| 0 <= t < wb.len() implies !is_unknown(#[trigger] wb[t]) by {
            assert(canonical(wa)[t] == canonical(wb)[t]);
        }
    }
    if window_valid(wb) {
        assert forall|t: int| 0 <= t < wa.len() implies !is_unknown(#[trigger] wa[t]) by {
            assert(canonical(wa)[t] == canonical(wb)[t]);
        }
    }
}

proof fn lemma_same_fold_upto(a: Seq<u8>, b: Seq<u8>, k: nat, n: nat)
    requires
        canonical(a) == canonical(b),
        n <= num_windows(a.len(), k),
    ensures
        kmer_keys(a, k, n) == kmer_keys(b, k, n),
        forall|x: Seq<u8>| #[trigger] kmer_count(a, k, x, n) == kmer_count(b, k, x, n),
    decreases n,
{
    if n > 0 {
        lemma_same_fold_upto(a, b, k, (n - 1) as nat);
        lemma_same_fold_window(a, b, k, n - 1);
        assert forall|x: Seq<u8>| #[trigger] kmer_count(a, k, x, n) == kmer_count(b, k, x, n) by {
            assert(kmer_count(a, k, x, (n - 1) as nat) == kmer_count(b, k, x, (n - 1) as nat));
        }
    }
}

/// Case does not matter: two sequences that agree once uppercased have the
/// same distinct k-mers, in the same order, with the same counts.
pub proof fn lemma_case_insensitive(a: Seq<u8>, b: Seq<u8>, k: nat)
    requires
        canonical(a) == canonical(b),
    ensures
        kmers_of(a, k) == kmers_of(b, k),
        forall|x: Seq<u8>| #[trigger] count_of(a, k, x) == count_of(b, k, x),
{
    assert(a.len() == canonical(a).len() && b.len() == canonical(b).len());
    lemma_same_fold_upto(a, b, k, num_windows(a.len(), k));
}

} // verus!
