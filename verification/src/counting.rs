//! Counts over the five positions of a word, taken over a prefix of them.
use vstd::prelude::*;

verus! {

/// Number of positions below `n` where `w` holds letter `l`.
pub open spec fn letter_count(w: Seq<u8>, l: int, n: int) -> nat
    decreases n,
{
    if n <= 0 {
        0
    } else {
        letter_count(w, l, n - 1) + if w[n - 1] == l { 1nat } else { 0nat }
    }
}

/// Number of positions below `n` where guess `g` has letter `l` in the right place of secret `s`.
pub open spec fn green_count(g: Seq<u8>, s: Seq<u8>, l: int, n: int) -> nat
    decreases n,
{
    if n <= 0 {
        0
    } else {
        green_count(g, s, l, n - 1) + if g[n - 1] == l && s[n - 1] == g[n - 1] {
            1nat
        } else {
            0nat
        }
    }
}

/// Number of positions below `n` where secret `s` has letter `l` and guess `g` has
/// another letter: the occurrences of `l` in the secret left for yellows.
pub open spec fn unmatched_count(g: Seq<u8>, s: Seq<u8>, l: int, n: int) -> nat
    decreases n,
{
    if n <= 0 {
        0
    } else {
        unmatched_count(g, s, l, n - 1) + if s[n - 1] == l && g[n - 1] != s[n - 1] {
            1nat
        } else {
            0nat
        }
    }
}

/// Number of positions below `n` where guess `g` has letter `l` and secret `s` has
/// another letter: the occurrences of `l` in the guess that are not green.
pub open spec fn open_count(g: Seq<u8>, s: Seq<u8>, l: int, n: int) -> nat
    decreases n,
{
    if n <= 0 {
        0
    } else {
        open_count(g, s, l, n - 1) + if g[n - 1] == l && g[n - 1] != s[n - 1] {
            1nat
        } else {
            0nat
        }
    }
}

/// Number of positions below `n` where guess `g` has letter `l` and colour `c` is not gray.
pub open spec fn nongray_count(g: Seq<u8>, c: Seq<u8>, l: int, n: int) -> nat
    decreases n,
{
    if n <= 0 {
        0
    } else {
        nongray_count(g, c, l, n - 1) + if g[n - 1] == l && c[n - 1] != 0 {
            1nat
        } else {
            0nat
        }
    }
}

/// Number of positions below `n` where guess `g` has letter `l` and colour `c` is gray.
pub open spec fn gray_count(g: Seq<u8>, c: Seq<u8>, l: int, n: int) -> nat
    decreases n,
{
    if n <= 0 {
        0
    } else {
        gray_count(g, c, l, n - 1) + if g[n - 1] == l && c[n - 1] == 0 {
            1nat
        } else {
            0nat
        }
    }
}

pub proof fn lemma_counts_bounded(g: Seq<u8>, s: Seq<u8>, c: Seq<u8>, l: int, n: int)
    requires
        0 <= n,
    ensures
        letter_count(s, l, n) <= n,
        green_count(g, s, l, n) <= n,
        unmatched_count(g, s, l, n) <= n,
        open_count(g, s, l, n) <= n,
        nongray_count(g, c, l, n) <= n,
        gray_count(g, c, l, n) <= n,
    decreases n,
{
    if n > 0 {
        lemma_counts_bounded(g, s, c, l, n - 1);
    }
}

} // verus!
