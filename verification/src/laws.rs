//! What the two bitmaps mean together.
//!
//! The solver rules out a candidate secret by one bitwise `and` of its secret
//! bitmap with the information bitmask of a guess and its colours. The laws here
//! say that this test is exact: a candidate survives the information that a guess
//! earned against the real secret precisely when the guess would earn the same
//! colours against the candidate.
use vstd::prelude::*;
use crate::counting::{
    gray_count, green_count, letter_count, lemma_counts_bounded, nongray_count, open_count,
    unmatched_count,
};
use crate::encoding::{count_ruled_out, info_cells, secret_cells};
use crate::feedback::{color_of, colors_of, is_coloring, is_word};

verus! {

/// The smaller of `a` and `b`.
pub open spec fn min_nat(a: nat, b: nat) -> nat {
    if a < b {
        a
    } else {
        b
    }
}

/// Whether guess `g` earns green at the same positions against `s` and against `t`.
pub open spec fn same_greens(g: Seq<u8>, s: Seq<u8>, t: Seq<u8>) -> bool {
    forall|r: int| 0 <= r < 5 ==> (#[trigger] g[r] == s[r]) == (g[r] == t[r])
}

/// The colours a guess earns are colours.
pub proof fn lemma_colors_are_colors(g: Seq<u8>, s: Seq<u8>)
    requires
        is_word(g),
        is_word(s),
    ensures
        is_coloring(colors_of(g, s)),
{
}

proof fn lemma_nongray_of_colors(g: Seq<u8>, s: Seq<u8>, l: int, n: int)
    requires
        is_word(g),
        is_word(s),
        0 <= n <= 5,
    ensures
        nongray_count(g, colors_of(g, s), l, n) == green_count(g, s, l, n) + min_nat(
            open_count(g, s, l, n),
            unmatched_count(g, s, l, 5),
        ),
        gray_count(g, colors_of(g, s), l, n) + min_nat(open_count(g, s, l, n), unmatched_count(g, s, l, 5))
            == open_count(g, s, l, n),
    decreases n,
{
    if n > 0 {
        lemma_nongray_of_colors(g, s, l, n - 1);
        let k = n - 1;
        assert(colors_of(g, s)[k] == color_of(g, s, k));
    }
}

proof fn lemma_letter_split(g: Seq<u8>, t: Seq<u8>, l: int, n: int)
    requires
        is_word(g),
        is_word(t),
        0 <= n <= 5,
    ensures
        letter_count(t, l, n) == green_count(g, t, l, n) + unmatched_count(g, t, l, n),
    decreases n,
{
    if n > 0 {
        lemma_letter_split(g, t, l, n - 1);
    }
}

proof fn lemma_same_greens_counts(g: Seq<u8>, s: Seq<u8>, t: Seq<u8>, l: int, n: int)
    requires
        is_word(g),
        is_word(s),
        is_word(t),
        same_greens(g, s, t),
        0 <= n <= 5,
    ensures
        green_count(g, s, l, n) == green_count(g, t, l, n),
        open_count(g, s, l, n) == open_count(g, t, l, n),
    decreases n,
{
    if n > 0 {
        lemma_same_greens_counts(g, s, t, l, n - 1);
        assert(g[n - 1] == s[n - 1] <==> g[n - 1] == t[n - 1]);
    }
}

proof fn lemma_open_monotonic(g: Seq<u8>, s: Seq<u8>, l: int, n: int, m: int)
    requires
        0 <= n <= m,
    ensures
        open_count(g, s, l, n) <= open_count(g, s, l, m),
    decreases m - n,
{
    if n < m {
        lemma_open_monotonic(g, s, l, n, m - 1);
    }
}

proof fn lemma_open_le_letter(g: Seq<u8>, s: Seq<u8>, l: int, n: int)
    requires
        0 <= n,
    ensures
        open_count(g, s, l, n) <= letter_count(g, l, n),
    decreases n,
{
    if n > 0 {
        lemma_open_le_letter(g, s, l, n - 1);
    }
}

/// Colours agree exactly when the greens agree and, letter by letter, as many of the
/// non-green occurrences in the guess find an unmatched occurrence in either secret.
proof fn lemma_same_colors_iff(g: Seq<u8>, s: Seq<u8>, t: Seq<u8>)
    requires
        is_word(g),
        is_word(s),
        is_word(t),
    ensures
        colors_of(g, t) == colors_of(g, s) <==> (same_greens(g, s, t) && forall|l: int|
            0 <= l < 26 ==> #[trigger] min_nat(open_count(g, s, l, 5), unmatched_count(g, t, l, 5))
                == min_nat(open_count(g, s, l, 5), unmatched_count(g, s, l, 5))),
{
    let cs = colors_of(g, s);
    let ct = colors_of(g, t);
    if ct == cs {
        assert forall|r: int| 0 <= r < 5 implies (#[trigger] g[r] == s[r]) == (g[r] == t[r]) by {
            assert(cs[r] == color_of(g, s, r));
            assert(ct[r] == color_of(g, t, r));
        }
        assert forall|l: int| 0 <= l < 26 implies #[trigger] min_nat(
            open_count(g, s, l, 5),
            unmatched_count(g, t, l, 5),
        ) == min_nat(open_count(g, s, l, 5), unmatched_count(g, s, l, 5)) by {
            lemma_nongray_of_colors(g, s, l, 5);
            lemma_nongray_of_colors(g, t, l, 5);
            lemma_same_greens_counts(g, s, t, l, 5);
        }
    }
    if same_greens(g, s, t) && forall|l: int|
        0 <= l < 26 ==> #[trigger] min_nat(open_count(g, s, l, 5), unmatched_count(g, t, l, 5))
            == min_nat(open_count(g, s, l, 5), unmatched_count(g, s, l, 5)) {
        assert forall|i: int| 0 <= i < 5 implies #[trigger] ct[i] == cs[i] by {
            assert(g[i] == s[i] <==> g[i] == t[i]);
            if g[i] != s[i] {
                let l = g[i] as int;
                lemma_same_greens_counts(g, s, t, l, i);
                lemma_open_monotonic(g, s, l, i + 1, 5);
                assert(min_nat(open_count(g, s, l, 5), unmatched_count(g, t, l, 5))
                    == min_nat(open_count(g, s, l, 5), unmatched_count(g, s, l, 5)));
            }
        }
        assert(ct =~= cs);
    }
}

/// The cells of a secret bitmap and of an information bitmask are disjoint exactly
/// when the greens agree and no letter of the guess has a count the mask rules out.
proof fn lemma_disjoint_iff(g: Seq<u8>, s: Seq<u8>, t: Seq<u8>)
    requires
        is_word(g),
        is_word(s),
        is_word(t),
    ensures
        secret_cells(t).disjoint(info_cells(g, colors_of(g, s))) <==> (same_greens(g, s, t) && forall|l: int|
            0 <= l < 26 && letter_count(g, l, 5) > 0 ==> !#[trigger] count_ruled_out(
                g,
                colors_of(g, s),
                l,
                letter_count(t, l, 5) as int,
            )),
{
    let c = colors_of(g, s);
    let sc = secret_cells(t);
    let ic = info_cells(g, c);
    if sc.disjoint(ic) {
        assert forall|r: int| 0 <= r < 5 implies (#[trigger] g[r] == s[r]) == (g[r] == t[r]) by {
            let b = 26 * r + t[r];
            assert(b / 26 == r && b % 26 == t[r]);
            assert(sc.contains(b));
            assert(c[r] == color_of(g, s, r));
        }
        assert forall|l: int|
            0 <= l < 26 && letter_count(g, l, 5) > 0 implies !#[trigger] count_ruled_out(
            g,
            c,
            l,
            letter_count(t, l, 5) as int,
        ) by {
            lemma_counts_bounded(g, t, c, l, 5);
            let b = 26 * (5 + letter_count(t, l, 5)) + l;
            assert(b / 26 == 5 + letter_count(t, l, 5) && b % 26 == l);
            assert(sc.contains(b));
        }
    }
    if same_greens(g, s, t) && forall|l: int|
        0 <= l < 26 && letter_count(g, l, 5) > 0 ==> !#[trigger] count_ruled_out(
            g,
            c,
            l,
            letter_count(t, l, 5) as int,
        ) {
        assert forall|b: int| !(sc.contains(b) && ic.contains(b)) by {
            if sc.contains(b) && ic.contains(b) {
                let r = b / 26;
                if r < 5 {
                    assert(c[r] == color_of(g, s, r));
                    assert(g[r] == s[r] <==> g[r] == t[r]);
                } else {
                    let l = b % 26;
                    assert(count_ruled_out(g, c, l, letter_count(t, l, 5) as int));
                }
            }
        }
        assert(sc.disjoint(ic));
    }
}

/// A candidate secret `t` agrees with the information bitmask built from the colours
/// that guess `g` earns against secret `s` exactly when `g` earns the same colours
/// against `t`. So filtering candidates by the mask keeps precisely the words that
/// the colours do not tell apart from the secret.
pub proof fn lemma_bitmask_agrees_iff_same_colors(g: Seq<u8>, s: Seq<u8>, t: Seq<u8>)
    requires
        is_word(g),
        is_word(s),
        is_word(t),
    ensures
        secret_cells(t).disjoint(info_cells(g, colors_of(g, s))) <==> colors_of(g, t) == colors_of(g, s),
{
    let c = colors_of(g, s);
    lemma_same_colors_iff(g, s, t);
    lemma_disjoint_iff(g, s, t);
    if same_greens(g, s, t) {
        if secret_cells(t).disjoint(info_cells(g, c)) {
            assert forall|l: int| 0 <= l < 26 implies #[trigger] min_nat(
                open_count(g, s, l, 5),
                unmatched_count(g, t, l, 5),
            ) == min_nat(open_count(g, s, l, 5), unmatched_count(g, s, l, 5)) by {
                assert(letter_count(g, l, 5) > 0 ==> !count_ruled_out(g, c, l, letter_count(t, l, 5) as int));
                lemma_nongray_of_colors(g, s, l, 5);
                lemma_letter_split(g, t, l, 5);
                lemma_same_greens_counts(g, s, t, l, 5);
                lemma_open_le_letter(g, s, l, 5);
            }
        }
        if colors_of(g, t) == c {
            assert forall|l: int|
                0 <= l < 26 && letter_count(g, l, 5) > 0 implies !#[trigger] count_ruled_out(
                g,
                c,
                l,
                letter_count(t, l, 5) as int,
            ) by {
                assert(min_nat(open_count(g, s, l, 5), unmatched_count(g, t, l, 5)) == min_nat(
                    open_count(g, s, l, 5),
                    unmatched_count(g, s, l, 5),
                ));
                lemma_nongray_of_colors(g, s, l, 5);
                lemma_letter_split(g, t, l, 5);
                lemma_same_greens_counts(g, s, t, l, 5);
            }
        }
    }
}

/// The real secret always agrees with the information that a guess earned against it:
/// the solver never rules out the word it is looking for.
pub proof fn lemma_secret_agrees_with_own_colors(g: Seq<u8>, s: Seq<u8>)
    requires
        is_word(g),
        is_word(s),
    ensures
        secret_cells(s).disjoint(info_cells(g, colors_of(g, s))),
{
    lemma_bitmask_agrees_iff_same_colors(g, s, s);
}


proof fn lemma_guess_split(g: Seq<u8>, s: Seq<u8>, l: int, n: int)
    requires
        0 <= n <= 5,
    ensures
        letter_count(g, l, n) == green_count(g, s, l, n) + open_count(g, s, l, n),
    decreases n,
{
    if n > 0 {
        lemma_guess_split(g, s, l, n - 1);
    }
}

proof fn lemma_unmatched_witness(g: Seq<u8>, s: Seq<u8>, l: int, n: int)
    requires
        0 <= n <= 5,
        unmatched_count(g, s, l, n) > 0,
    ensures
        exists|k: int| 0 <= k < n && #[trigger] s[k] == l && g[k] != s[k],
    decreases n,
{
    if unmatched_count(g, s, l, n - 1) > 0 {
        lemma_unmatched_witness(g, s, l, n - 1);
        let k = choose|k: int| 0 <= k < n - 1 && #[trigger] s[k] == l && g[k] != s[k];
        assert(0 <= k < n && s[k] == l && g[k] != s[k]);
    } else {
        assert(s[n - 1] == l && g[n - 1] != s[n - 1]);
    }
}

proof fn lemma_unmatched_absent(g: Seq<u8>, s: Seq<u8>, l: int, n: int)
    requires
        0 <= n <= 5,
        forall|k: int| 0 <= k < n ==> #[trigger] s[k] != l,
    ensures
        unmatched_count(g, s, l, n) == 0,
    decreases n,
{
    if n > 0 {
        lemma_unmatched_absent(g, s, l, n - 1);
    }
}

/// What the colours say about single positions: green exactly where guess and secret
/// agree; yellow only where the secret holds the letter at a place the guess does not
/// match; gray wherever the secret lacks the letter; and for a repeated letter the
/// yellows go to its first non-green occurrences, from the left.
pub proof fn lemma_colors_by_position(g: Seq<u8>, s: Seq<u8>)
    requires
        is_word(g),
        is_word(s),
    ensures
        colors_of(g, s).len() == 5,
        forall|i: int| 0 <= i < 5 ==> #[trigger] colors_of(g, s)[i] <= 2,
        forall|i: int| 0 <= i < 5 ==> (#[trigger] colors_of(g, s)[i] == 2 <==> g[i] == s[i]),
        forall|i: int|
            0 <= i < 5 && #[trigger] colors_of(g, s)[i] == 1 ==> exists|k: int|
                0 <= k < 5 && #[trigger] s[k] == g[i] && g[k] != s[k],
        forall|i: int|
            0 <= i < 5 && (forall|k: int| 0 <= k < 5 ==> #[trigger] s[k] != g[i]) ==> #[trigger] colors_of(g, s)[i] == 0,
        forall|i: int, j: int|
            0 <= i < j < 5 && g[i] == g[j] && g[i] != s[i] && #[trigger] colors_of(g, s)[j] == 1
                ==> #[trigger] colors_of(g, s)[i] == 1,
{
    let c = colors_of(g, s);
    assert forall|i: int| 0 <= i < 5 && #[trigger] c[i] == 1 implies exists|k: int|
        0 <= k < 5 && #[trigger] s[k] == g[i] && g[k] != s[k] by {
        lemma_unmatched_witness(g, s, g[i] as int, 5);
    }
    assert forall|i: int| 0 <= i < 5 && (forall|k: int| 0 <= k < 5 ==> #[trigger] s[k] != g[i]) implies #[trigger] c[i] == 0 by {
        lemma_unmatched_absent(g, s, g[i] as int, 5);
        assert(s[i] != g[i]);
    }
    assert forall|i: int, j: int|
        0 <= i < j < 5 && g[i] == g[j] && g[i] != s[i] && #[trigger] c[j] == 1 implies #[trigger] c[i] == 1 by {
        lemma_open_monotonic(g, s, g[i] as int, i + 1, j);
    }
}

/// For every letter, the green and yellow occurrences in the guess number as many as the
/// smaller of its counts in the guess and in the secret, and the gray ones make up the rest
/// of the guess's count.
pub proof fn lemma_colors_count_common_letters(g: Seq<u8>, s: Seq<u8>, l: int)
    requires
        is_word(g),
        is_word(s),
    ensures
        nongray_count(g, colors_of(g, s), l, 5) == min_nat(letter_count(g, l, 5), letter_count(s, l, 5)),
        nongray_count(g, colors_of(g, s), l, 5) + gray_count(g, colors_of(g, s), l, 5) == letter_count(g, l, 5),
{
    lemma_nongray_of_colors(g, s, l, 5);
    lemma_guess_split(g, s, l, 5);
    lemma_letter_split(g, s, l, 5);
}

} // verus!
