//! Edit (Levenshtein) distance over decoded characters, computed with a
//! single rolling row of costs.
use vstd::prelude::*;

verus! {

/// The smallest of two naturals.
pub open spec fn min_nat(x: nat, y: nat) -> nat {
    if x <= y { x } else { y }
}

/// Minimum number of single-character insertions, deletions and
/// substitutions that turn `a` into `b`.
pub open spec fn lev(a: Seq<char>, b: Seq<char>) -> nat
    decreases a.len() + b.len(),
{
    if a.len() == 0 {
        b.len()
    } else if b.len() == 0 {
        a.len()
    } else {
        let sub = lev(a.drop_last(), b.drop_last()) + if a.last() == b.last() { 0nat } else { 1nat };
        min_nat(sub, min_nat(lev(a.drop_last(), b), lev(a, b.drop_last())) + 1)
    }
}

/// The distance never exceeds the length of the longer sequence.
pub proof fn lemma_lev_le_max(a: Seq<char>, b: Seq<char>)
    ensures
        lev(a, b) <= if a.len() >= b.len() { a.len() } else { b.len() },
    decreases a.len() + b.len(),
{
    if a.len() > 0 && b.len() > 0 {
        lemma_lev_le_max(a.drop_last(), b.drop_last());
    }
}

/// Edit distance is symmetric.
pub proof fn lemma_lev_symmetric(a: Seq<char>, b: Seq<char>)
    ensures
        lev(a, b) == lev(b, a),
    decreases a.len() + b.len(),
{
    if a.len() > 0 && b.len() > 0 {
        lemma_lev_symmetric(a.drop_last(), b.drop_last());
        lemma_lev_symmetric(a.drop_last(), b);
        lemma_lev_symmetric(a, b.drop_last());
    }
}

/// A sequence is at distance zero from itself.
pub proof fn lemma_lev_identity(a: Seq<char>)
    ensures
        lev(a, a) == 0,
    decreases a.len(),
{
    if a.len() > 0 {
        lemma_lev_identity(a.drop_last());
    }
}

/// The distance from the empty sequence is the other sequence's length,
/// counted in characters.
pub proof fn lemma_lev_from_empty(s: Seq<char>)
    ensures
        lev(Seq::<char>::empty(), s) == s.len(),
        lev(s, Seq::<char>::empty()) == s.len(),
{
}

/// Rolling-row edit distance between two character slices; the working
/// row has `s1.len() + 1` cells.
pub fn levenshtein_impl(s1: &[char], s2: &[char]) -> (r: usize)
    ensures
        r == lev(s1@, s2@),
{
    let m = s1.len();
    let n = s2.len();
    let mut costs: Vec<usize> = Vec::new();
    costs.push(0);
    let mut i: usize = 0;
    while i < m
        invariant
            i <= m,
            m == s1@.len(),
            costs@.len() == i + 1,
            forall|t: int| 0 <= t <= i ==> costs@[t] == t,
        decreases m - i,
    {
        costs.push(i + 1);
        i = i + 1;
    }
    let row_len = costs.len();
    assert(m < usize::MAX);
    assert forall|t: int| 0 <= t <= m implies costs@[t] == lev(s1@.subrange(0, t), s2@.subrange(0, 0)) by {
        assert(s1@.subrange(0, t).len() == t);
    }
    let mut j: usize = 0;
    while j < n
        invariant
            row_len == m + 1,
            m == s1@.len(),
            n == s2@.len(),
            j <= n,
            m < usize::MAX,
            costs@.len() == m + 1,
            forall|t: int| 0 <= t <= m ==> costs@[t] == lev(s1@.subrange(0, t), s2@.subrange(0, j as int)),
        decreases n - j,
    {
        let c2 = s2[j];
        let mut previous_substitution_cost = costs[0];
        costs.set(0, j + 1);
        let mut i: usize = 0;
        while i < m
            invariant
                m == s1@.len(),
                n == s2@.len(),
                j < n,
                c2 == s2@[j as int],
                i <= m,
                m < usize::MAX,
                costs@.len() == m + 1,
                previous_substitution_cost == lev(s1@.subrange(0, i as int), s2@.subrange(0, j as int)),
                forall|t: int| 0 <= t <= i ==> costs@[t] == lev(s1@.subrange(0, t), s2@.subrange(0, j + 1)),
                forall|t: int| i < t <= m ==> costs@[t] == lev(s1@.subrange(0, t), s2@.subrange(0, j as int)),
            decreases m - i,
        {
            let c1 = s1[i];
            let insertion_cost = costs[i];
            let deletion_cost = costs[i + 1];
            let ghost a = s1@.subrange(0, i + 1);
            let ghost b = s2@.subrange(0, j + 1);
            proof {
                assert(a.drop_last() =~= s1@.subrange(0, i as int));
                assert(b.drop_last() =~= s2@.subrange(0, j as int));
                lemma_lev_le_max(s1@.subrange(0, i as int), s2@.subrange(0, j as int));
                lemma_lev_le_max(a, s2@.subrange(0, j as int));
            }
            let substitution_cost = if c1 == c2 {
                previous_substitution_cost
            } else {
                previous_substitution_cost + 1
            };
            previous_substitution_cost = deletion_cost;
            let step = if insertion_cost < deletion_cost { insertion_cost } else { deletion_cost };
            let cell = if substitution_cost < step + 1 { substitution_cost } else { step + 1 };
            costs.set(i + 1, cell);
            i = i + 1;
        }
        j = j + 1;
    }
    assert(s1@.subrange(0, m as int) =~= s1@);
    assert(s2@.subrange(0, n as int) =~= s2@);
    costs[row_len - 1]
}

/// Collects the characters of `s` in order.
fn chars_of(s: &str) -> (v: Vec<char>)
    ensures
        v@ == s@,
{
    let mut v: Vec<char> = Vec::new();
    for c in it: s.chars()
        invariant
            v@ == it.seq().subrange(0, it.index() as int),
    {
        v.push(c);
    }
    v
}

/// Edit distance between two texts, counted in characters: the result is
/// the same whichever argument is given first, and the shorter one is
/// used as the working row.
pub fn levenshtein_distance(s1: &str, s2: &str) -> (r: usize)
    ensures
        r == lev(s1@, s2@),
{
    let v1 = chars_of(s1);
    let v2 = chars_of(s2);
    let m = v1.len();
    let n = v2.len();
    if m == 0 {
        return n;
    }
    if n == 0 {
        return m;
    }
    if m > n {
        proof {
            lemma_lev_symmetric(s1@, s2@);
        }
        return levenshtein_impl(v2.as_slice(), v1.as_slice());
    }
    levenshtein_impl(v1.as_slice(), v2.as_slice())
}

} // verus!
