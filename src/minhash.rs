//! MinHash signatures over the valid k-mer windows of a sequence, with a
//! seeded 32-bit FNV-1a style hash.
use vstd::prelude::*;
use vstd::string::StringSliceAdditionalSpecFns;
use crate::window::{upper_byte, num_windows, window, window_valid, to_upper_byte, window_is_valid};

verus! {

/// Multiplier that spreads hash-function indices into seeds.
pub const SEED_MULTIPLIER: u32 = 0x9E37_79B9;

/// The FNV prime used at each byte step.
pub const FNV_PRIME: u32 = 0x0100_0193;

/// Seed of hash function number `h`: `h * 0x9E3779B9` modulo 2^32.
pub open spec fn hash_seed(h: nat) -> u32 {
    (((h % 0x1_0000_0000) * 0x9E37_79B9) % 0x1_0000_0000) as u32
}

/// One step of the hash: fold in the uppercased byte, then multiply by the
/// FNV prime modulo 2^32.
pub open spec fn hash_step(h: u32, b: u8) -> u32 {
    (((h ^ (upper_byte(b) as u32)) as nat * 0x0100_0193) % 0x1_0000_0000) as u32
}

/// Hash of a window, starting from `seed` and taking its bytes in order.
pub open spec fn window_hash(seed: u32, w: Seq<u8>) -> u32
    decreases w.len(),
{
    if w.len() == 0 {
        seed
    } else {
        hash_step(window_hash(seed, w.drop_last()), w.last())
    }
}

/// Smallest hash under `seed` over the valid windows among the first `n`
/// start offsets; `u32::MAX` when there is none.
pub open spec fn min_hash_upto(s: Seq<u8>, k: nat, seed: u32, n: nat) -> u32
    decreases n,
{
    if n == 0 {
        u32::MAX
    } else {
        let prev = min_hash_upto(s, k, seed, (n - 1) as nat);
        let w = window(s, n - 1, k);
        if window_valid(w) && window_hash(seed, w) < prev {
            window_hash(seed, w)
        } else {
            prev
        }
    }
}

/// The MinHash signature of `s`: slot `h` holds the least hash under seed
/// `hash_seed(h)` over all valid windows of width `k`.
pub open spec fn signature(s: Seq<u8>, k: nat, num_hashes: nat) -> Seq<u32> {
    Seq::new(num_hashes, |h: int| min_hash_upto(s, k, hash_seed(h as nat), num_windows(s.len(), k)))
}

/// Number of slots below `n` where the two signatures agree.
pub open spec fn agreement(a: Seq<u32>, b: Seq<u32>, n: nat) -> nat
    decreases n,
{
    if n == 0 {
        0
    } else {
        agreement(a, b, (n - 1) as nat) + if a[n - 1] == b[n - 1] { 1nat } else { 0nat }
    }
}

/// Agreement never exceeds the number of slots compared.
pub proof fn lemma_agreement_le(a: Seq<u32>, b: Seq<u32>, n: nat)
    ensures
        agreement(a, b, n) <= n,
    decreases n,
{
    if n > 0 {
        lemma_agreement_le(a, b, (n - 1) as nat);
    }
}

/// Two identical signatures agree on every slot.
pub proof fn lemma_agreement_self(a: Seq<u32>, n: nat)
    ensures
        agreement(a, a, n) == n,
    decreases n,
{
    if n > 0 {
        lemma_agreement_self(a, (n - 1) as nat);
    }
}

/// Agreement does not depend on which signature comes first.
pub proof fn lemma_agreement_symmetric(a: Seq<u32>, b: Seq<u32>, n: nat)
    ensures
        agreement(a, b, n) == agreement(b, a, n),
    decreases n,
{
    if n > 0 {
        lemma_agreement_symmetric(a, b, (n - 1) as nat);
    }
}

/// Seed of hash function number `h`.
pub fn seed_of(h: usize) -> (r: u32)
    ensures
        r == hash_seed(h as nat),
{
    let low = ((h as u64) % 0x1_0000_0000) as u32;
    low.wrapping_mul(SEED_MULTIPLIER)
}

/// Hash under `seed` of the window of width `k` at offset `i`.
pub fn hash_window(s: &[u8], i: usize, k: usize, seed: u32) -> (r: u32)
    requires
        i + k <= s@.len(),
    ensures
        r == window_hash(seed, window(s@, i as int, k as nat)),
{
    let len = s.len();
    let mut h: u32 = seed;
    let mut t: usize = 0;
    while t < k
        invariant
            t <= k,
            len == s@.len(),
            i + k <= s@.len(),
            h == window_hash(seed, window(s@, i as int, t as nat)),
        decreases k - t,
    {
        let b = to_upper_byte(s[i + t]);
        proof {
            assert(window(s@, i as int, (t + 1) as nat).drop_last() =~= window(s@, i as int, t as nat));
        }
        h = (h ^ (b as u32)).wrapping_mul(FNV_PRIME);
        t = t + 1;
    }
    h
}

/// Builds the MinHash signature of `seq` with `num_hashes` slots: each slot
/// starts at `u32::MAX` and keeps the least hash seen over valid windows.
pub fn get_min_hash_signature(seq: &str, k: usize, num_hashes: usize) -> (r: Vec<u32>)
    requires
        k >= 1,
    ensures
        r@ == signature(seq.spec_bytes(), k as nat, num_hashes as nat),
{
    let bytes = seq.as_bytes();
    let ghost s = bytes@;
    let mut sig: Vec<u32> = Vec::new();
    let mut h: usize = 0;
    while h < num_hashes
        invariant
            h <= num_hashes,
            sig@.len() == h,
            forall|t: int| 0 <= t < h ==> sig@[t] == u32::MAX,
        decreases num_hashes - h,
    {
        sig.push(u32::MAX);
        h = h + 1;
    }
    let len = bytes.len();
    let nw: usize = if len >= k { len - k + 1 } else { 0 };
    let mut i: usize = 0;
    while i < nw
        invariant
            s == bytes@,
            len == s.len(),
            nw == num_windows(len as nat, k as nat),
            i <= nw,
            sig@.len() == num_hashes,
            forall|t: int| 0 <= t < num_hashes ==> sig@[t] == min_hash_upto(s, k as nat, hash_seed(t as nat), i as nat),
        decreases nw - i,
    {
        if window_is_valid(bytes, i, k) {
            let mut h: usize = 0;
            while h < num_hashes
                invariant
                    s == bytes@,
                    len == s.len(),
                    i < nw,
                    nw == num_windows(len as nat, k as nat),
                    window_valid(window(s, i as int, k as nat)),
                    h <= num_hashes,
                    sig@.len() == num_hashes,
                    forall|t: int| 0 <= t < h ==> sig@[t] == min_hash_upto(s, k as nat, hash_seed(t as nat), (i + 1) as nat),
                    forall|t: int| h <= t < num_hashes ==> sig@[t] == min_hash_upto(s, k as nat, hash_seed(t as nat), i as nat),
                decreases num_hashes - h,
            {
                let v = hash_window(bytes, i, k, seed_of(h));
                if v < sig[h] {
                    sig.set(h, v);
                }
                h = h + 1;
            }
        }
        i = i + 1;
    }
    proof {
        assert(sig@ =~= signature(s, k as nat, num_hashes as nat));
    }
    sig
}

/// Number of slots on which two equally long signatures agree.
pub fn signature_agreement(sig_a: &Vec<u32>, sig_b: &Vec<u32>) -> (r: usize)
    requires
        sig_a@.len() == sig_b@.len(),
    ensures
        r == agreement(sig_a@, sig_b@, sig_a@.len()),
        r <= sig_a@.len(),
{
    let n = sig_a.len();
    let mut matches: usize = 0;
    let mut i: usize = 0;
    while i < n
        invariant
            n == sig_a@.len(),
            n == sig_b@.len(),
            i <= n,
            matches == agreement(sig_a@, sig_b@, i as nat),
        decreases n - i,
    {
        proof {
            lemma_agreement_le(sig_a@, sig_b@, i as nat);
        }
        if sig_a[i] == sig_b[i] {
            matches = matches + 1;
        }
        i = i + 1;
    }
    proof {
        lemma_agreement_le(sig_a@, sig_b@, n as nat);
    }
    matches
}

/// Number of the `num_hashes` MinHash slots on which the signatures of the
/// two sequences agree; divided by `num_hashes` it estimates their k-mer
/// Jaccard index.
pub fn min_hash_matches(sequence_a: &str, sequence_b: &str, k: usize, num_hashes: usize) -> (r: usize)
    requires
        k >= 1,
    ensures
        r == agreement(
            signature(sequence_a.spec_bytes(), k as nat, num_hashes as nat),
            signature(sequence_b.spec_bytes(), k as nat, num_hashes as nat),
            num_hashes as nat,
        ),
        r <= num_hashes,
{
    let sig_a = get_min_hash_signature(sequence_a, k, num_hashes);
    let sig_b = get_min_hash_signature(sequence_b, k, num_hashes);
    signature_agreement(&sig_a, &sig_b)
}

/// A sequence shorter than `k` has no window, so every slot of its
/// signature keeps `u32::MAX`, and two such signatures agree everywhere.
pub proof fn lemma_short_signature(s: Seq<u8>, t: Seq<u8>, k: nat, num_hashes: nat)
    requires
        s.len() < k,
        t.len() < k,
    ensures
        forall|h: int| 0 <= h < num_hashes ==> #[trigger] signature(s, k, num_hashes)[h] == u32::MAX,
        agreement(signature(s, k, num_hashes), signature(t, k, num_hashes), num_hashes) == num_hashes,
{
    assert(signature(s, k, num_hashes) =~= signature(t, k, num_hashes));
    lemma_agreement_self(signature(s, k, num_hashes), num_hashes);
}

} // verus!
