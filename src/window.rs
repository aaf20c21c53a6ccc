//! Windows of a byte sequence: which ones count, and their canonical case.
use vstd::prelude::*;

verus! {

/// Uppercase form of an ASCII lowercase letter; other bytes are unchanged.
pub open spec fn upper_byte(b: u8) -> u8 {
    if 97 <= b && b <= 122 { (b - 32) as u8 } else { b }
}

/// The marker of an unknown base, in either case (`N` or `n`).
pub open spec fn is_unknown(b: u8) -> bool {
    b == 78 || b == 110
}

/// Number of start offsets of a window of width `k` in a sequence of
/// `len` bytes.
pub open spec fn num_windows(len: nat, k: nat) -> nat {
    if len >= k { (len - k + 1) as nat } else { 0 }
}

/// The window of width `k` that starts at offset `i`.
pub open spec fn window(s: Seq<u8>, i: int, k: nat) -> Seq<u8> {
    s.subrange(i, i + k)
}

/// A window counts when it holds no unknown-base marker.
pub open spec fn window_valid(w: Seq<u8>) -> bool {
    forall|t: int| 0 <= t < w.len() ==> !is_unknown(#[trigger] w[t])
}

/// The canonical (uppercased) key of a window.
pub open spec fn canonical(w: Seq<u8>) -> Seq<u8> {
    w.map_values(|b: u8| upper_byte(b))
}

/// Uppercases one byte if it is an ASCII lowercase letter.
pub fn to_upper_byte(b: u8) -> (r: u8)
    ensures
        r == upper_byte(b),
{
    if b >= 97 && b <= 122 { b - 32 } else { b }
}

/// Whether the window of width `k` at offset `i` holds no unknown-base marker.
pub fn window_is_valid(s: &[u8], i: usize, k: usize) -> (r: bool)
    requires
        i + k <= s@.len(),
    ensures
        r == window_valid(window(s@, i as int, k as nat)),
{
    let len = s.len();
    let mut t: usize = 0;
    while t < k
        invariant
            t <= k,
            len == s@.len(),
            i + k <= s@.len(),
            forall|u: int| 0 <= u < t ==> !is_unknown(#[trigger] s@[i + u]),
        decreases k - t,
    {
        let b = s[i + t];
        if b == 78 || b == 110 {
            assert(window(s@, i as int, k as nat)[t as int] == b);
            return false;
        }
        t = t + 1;
    }
    assert forall|u: int| 0 <= u < k implies !is_unknown(#[trigger] window(s@, i as int, k as nat)[u]) by {
        assert(window(s@, i as int, k as nat)[u] == s@[i + u]);
    }
    true
}

} // verus!
