//! The colours a guess earns against a secret.
use vstd::prelude::*;
use crate::counting::{lemma_counts_bounded, open_count, unmatched_count};

verus! {

/// Colour of a letter that is not in the secret (beyond those already accounted for).
pub const GRAY: u8 = 0;

/// Colour of a letter that is in the secret at another place.
pub const YELLOW: u8 = 1;

/// Colour of a letter that is in the secret at this place.
pub const GREEN: u8 = 2;

/// Whether every letter of `w` is one of the 26 letters, `0` for `a`.
pub open spec fn is_word(w: Seq<u8>) -> bool {
    w.len() == 5 && forall|i: int| 0 <= i < 5 ==> #[trigger] w[i] < 26
}

/// Whether every entry of `c` is a colour.
pub open spec fn is_coloring(c: Seq<u8>) -> bool {
    c.len() == 5 && forall|i: int| 0 <= i < 5 ==> #[trigger] c[i] <= 2
}

/// Colour of position `i` of guess `g` against secret `s`: green where the letters agree;
/// otherwise yellow while the occurrences of the letter that the secret has at other
/// places are not used up by the non-green occurrences before it, counted from the left;
/// gray after that.
pub open spec fn color_of(g: Seq<u8>, s: Seq<u8>, i: int) -> u8 {
    if g[i] == s[i] {
        GREEN
    } else if open_count(g, s, g[i] as int, i) < unmatched_count(g, s, g[i] as int, 5) {
        YELLOW
    } else {
        GRAY
    }
}

/// The colours of guess `g` against secret `s`.
pub open spec fn colors_of(g: Seq<u8>, s: Seq<u8>) -> Seq<u8> {
    Seq::new(5, |i: int| color_of(g, s, i))
}

/// Converts a guess and a secret into the colours that the guess earns.
pub fn get_colors(guess: &[u8; 5], secret: &[u8; 5]) -> (colors: [u8; 5])
    requires
        is_word(guess@),
        is_word(secret@),
    ensures
        colors@ == colors_of(guess@, secret@),
{
    let ghost g = guess@;
    let ghost s = secret@;
    let mut colors: [u8; 5] = [0, 0, 0, 0, 0];
    let mut how_many_yellows: [u8; 26] = [0; 26];

    // greens
    let mut i: usize = 0;
    while i < 5
        invariant
            g == guess@,
            s == secret@,
            is_word(g),
            is_word(s),
            i <= 5,
            forall|l: int| 0 <= l < 26 ==> #[trigger] how_many_yellows[l] == unmatched_count(g, s, l, i as int),
            forall|j: int| 0 <= j < i ==> #[trigger] colors[j] == (if g[j] == s[j] { GREEN } else { GRAY }),
            forall|j: int| i <= j < 5 ==> #[trigger] colors[j] == GRAY,
        decreases 5 - i,
    {
        proof {
            assert forall|l: int| 0 <= l < 26 implies unmatched_count(g, s, l, i as int) <= i by {
                lemma_counts_bounded(g, s, g, l, i as int);
            }
        }
        let ltr = secret[i] as usize;
        how_many_yellows[ltr] = how_many_yellows[ltr] + 1;
        if secret[i] == guess[i] {
            colors[i] = GREEN;
            how_many_yellows[ltr] = how_many_yellows[ltr] - 1;
        }
        i = i + 1;
    }

    // yellows, from left to right
    let mut i: usize = 0;
    while i < 5
        invariant
            g == guess@,
            s == secret@,
            is_word(g),
            is_word(s),
            i <= 5,
            forall|l: int| 0 <= l < 26 ==> #[trigger] how_many_yellows[l] == unmatched_count(g, s, l, 5)
                - if open_count(g, s, l, i as int) < unmatched_count(g, s, l, 5) {
                    open_count(g, s, l, i as int)
                } else {
                    unmatched_count(g, s, l, 5)
                },
            forall|j: int| 0 <= j < i ==> #[trigger] colors[j] == color_of(g, s, j),
            forall|j: int| i <= j < 5 ==> #[trigger] colors[j] == (if g[j] == s[j] { GREEN } else { GRAY }),
        decreases 5 - i,
    {
        let ltr = guess[i] as usize;
        if how_many_yellows[ltr] > 0 && colors[i] == GRAY {
            colors[i] = YELLOW;
            how_many_yellows[ltr] = how_many_yellows[ltr] - 1;
        }
        i = i + 1;
    }
    proof {
        assert(colors@ =~= colors_of(g, s));
    }
    colors
}

} // verus!
