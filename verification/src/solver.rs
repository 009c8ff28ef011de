//! Narrowing the possible secrets, and scoring guesses by how many words they rule out.
use vstd::prelude::*;
use crate::bitmap::{bitmaps_match, ones};
use crate::encoding::{build_bitmap, build_bitmask, info_cells, secret_cells};
use crate::feedback::{colors_of, get_colors, is_word};
use crate::laws::{lemma_bitmask_agrees_iff_same_colors, lemma_colors_are_colors};

verus! {

/// Whether word `w` agrees with the information whose mask has the one bits `mask`.
pub open spec fn agrees(mask: Set<int>, w: [u8; 5]) -> bool {
    mask.disjoint(secret_cells(w@))
}

/// Whether every entry of `ws` is a word.
pub open spec fn all_words(ws: Seq<[u8; 5]>) -> bool {
    forall|k: int| 0 <= k < ws.len() ==> is_word(#[trigger] ws[k]@)
}

/// The possible secrets of `ps` that agree with the information bitmask `bitmask`, in order.
pub fn filter_possible_secrets(ps: &Vec<[u8; 5]>, bitmask: &[u128; 3]) -> (kept: Vec<[u8; 5]>)
    requires
        all_words(ps@),
    ensures
        kept@ == ps@.filter(|w: [u8; 5]| agrees(ones(*bitmask), w)),
{
    let ghost pred = |w: [u8; 5]| agrees(ones(*bitmask), w);
    let mut kept: Vec<[u8; 5]> = Vec::new();
    let mut i: usize = 0;
    while i < ps.len()
        invariant
            all_words(ps@),
            pred == (|w: [u8; 5]| agrees(ones(*bitmask), w)),
            i <= ps.len(),
            kept@ == ps@.subrange(0, i as int).filter(pred),
        decreases ps.len() - i,
    {
        let w = ps[i];
        proof {
            assert(is_word(ps@[i as int]@));
        }
        let bitmap = build_bitmap(w);
        let agree = bitmaps_match(bitmask, &bitmap);
        proof {
            reveal(Seq::filter);
            assert(ps@.subrange(0, i + 1).drop_last() =~= ps@.subrange(0, i as int));
        }
        if agree {
            kept.push(w);
        }
        i = i + 1;
    }
    assert(ps@.subrange(0, ps.len() as int) =~= ps@);
    kept
}

/// Filtering by the information that guess `g` earned against secret `s` keeps
/// exactly the words against which `g` earns the same colours.
pub proof fn lemma_filter_keeps_same_colors(g: Seq<u8>, s: Seq<u8>, ws: Seq<[u8; 5]>)
    requires
        is_word(g),
        is_word(s),
        all_words(ws),
    ensures
        ws.filter(|w: [u8; 5]| agrees(info_cells(g, colors_of(g, s)), w)) == ws.filter(
            |w: [u8; 5]| colors_of(g, w@) == colors_of(g, s),
        ),
    decreases ws.len(),
{
    reveal(Seq::filter);
    if ws.len() > 0 {
        lemma_filter_keeps_same_colors(g, s, ws.drop_last());
        lemma_bitmask_agrees_iff_same_colors(g, s, ws.last()@);
    }
}

/// Number of the bitmaps `maps` below index `n` that disagree with the mask whose one bits are `mask`.
pub open spec fn mismatches(mask: Set<int>, maps: Seq<[u128; 3]>, n: int) -> nat
    decreases n,
{
    if n <= 0 {
        0
    } else {
        mismatches(mask, maps, n - 1) + if mask.disjoint(ones(maps[n - 1])) {
            0nat
        } else {
            1nat
        }
    }
}

/// Words ruled out by guess `g`, summed over the possible secrets `ps` below index `n`:
/// for each secret, the bitmaps of `maps` that disagree with the colours `g` earns against it.
pub open spec fn total_elim(g: Seq<u8>, ps: Seq<[u8; 5]>, maps: Seq<[u128; 3]>, n: int) -> nat
    decreases n,
{
    if n <= 0 {
        0
    } else {
        total_elim(g, ps, maps, n - 1) + mismatches(info_cells(g, colors_of(g, ps[n - 1]@)), maps, maps.len() as int)
    }
}

proof fn lemma_mismatches_monotonic(mask: Set<int>, maps: Seq<[u128; 3]>, n: int, m: int)
    requires
        n <= m,
    ensures
        mismatches(mask, maps, n) <= mismatches(mask, maps, m),
    decreases m - n,
{
    if n < m {
        lemma_mismatches_monotonic(mask, maps, n, m - 1);
    }
}

proof fn lemma_total_monotonic(g: Seq<u8>, ps: Seq<[u8; 5]>, maps: Seq<[u128; 3]>, n: int, m: int)
    requires
        n <= m,
    ensures
        total_elim(g, ps, maps, n) <= total_elim(g, ps, maps, m),
    decreases m - n,
{
    if n < m {
        lemma_total_monotonic(g, ps, maps, n, m - 1);
    }
}

/// The score of guess `pg`: over every possible secret of `ps`, the number of bitmaps of
/// `bitmaps` that the colours `pg` earns against that secret rule out; `None` where the
/// count does not fit in a `u32`.
pub fn score_guess(pg: &[u8; 5], ps: &Vec<[u8; 5]>, bitmaps: &Vec<[u128; 3]>) -> (total: Option<u32>)
    requires
        is_word(pg@),
        all_words(ps@),
    ensures
        total is Some <==> total_elim(pg@, ps@, bitmaps@, ps@.len() as int) <= u32::MAX,
        total matches Some(t) ==> t == total_elim(pg@, ps@, bitmaps@, ps@.len() as int),
{
    let mut total_elim_count: u32 = 0;
    let mut k: usize = 0;
    while k < ps.len()
        invariant
            is_word(pg@),
            all_words(ps@),
            k <= ps.len(),
            total_elim_count == total_elim(pg@, ps@, bitmaps@, k as int),
        decreases ps.len() - k,
    {
        proof {
            assert(is_word(ps@[k as int]@));
            lemma_colors_are_colors(pg@, ps@[k as int]@);
            lemma_total_monotonic(pg@, ps@, bitmaps@, k + 1, ps@.len() as int);
        }
        let colors = get_colors(pg, &ps[k]);
        let bitmask = build_bitmask(pg, &colors);
        let ghost mask = info_cells(pg@, colors_of(pg@, ps@[k as int]@));
        let mut elim: u32 = 0;
        let mut j: usize = 0;
        while j < bitmaps.len()
            invariant
                ones(bitmask) == mask,
                j <= bitmaps.len(),
                elim == mismatches(mask, bitmaps@, j as int),
                total_elim_count + mismatches(mask, bitmaps@, bitmaps@.len() as int) <= total_elim(
                    pg@,
                    ps@,
                    bitmaps@,
                    ps@.len() as int,
                ),
            decreases bitmaps.len() - j,
        {
            if !bitmaps_match(&bitmask, &bitmaps[j]) {
                match elim.checked_add(1) {
                    Some(e) => {
                        elim = e;
                    },
                    None => {
                        proof {
                            lemma_mismatches_monotonic(mask, bitmaps@, j + 1, bitmaps@.len() as int);
                        }
                        return None;
                    },
                }
            }
            j = j + 1;
        }
        match total_elim_count.checked_add(elim) {
            Some(t) => {
                total_elim_count = t;
            },
            None => {
                return None;
            },
        }
        k = k + 1;
    }
    Some(total_elim_count)
}

/// Number of the words `ws` below index `n` against which guess `g` earns other colours
/// than against secret `s`.
pub open spec fn differing_colors(g: Seq<u8>, s: Seq<u8>, ws: Seq<[u8; 5]>, n: int) -> nat
    decreases n,
{
    if n <= 0 {
        0
    } else {
        differing_colors(g, s, ws, n - 1) + if colors_of(g, ws[n - 1]@) == colors_of(g, s) {
            0nat
        } else {
            1nat
        }
    }
}

/// Where the bitmaps are those of a list of words, the bitmaps that the colours of a guess
/// against a secret rule out are the words against which the guess earns other colours.
pub proof fn lemma_mismatches_count_differing_colors(
    g: Seq<u8>,
    s: Seq<u8>,
    ws: Seq<[u8; 5]>,
    maps: Seq<[u128; 3]>,
    n: int,
)
    requires
        is_word(g),
        is_word(s),
        all_words(ws),
        maps.len() == ws.len(),
        forall|j: int| 0 <= j < ws.len() ==> #[trigger] ones(maps[j]) == secret_cells(ws[j]@),
        0 <= n <= ws.len(),
    ensures
        mismatches(info_cells(g, colors_of(g, s)), maps, n) == differing_colors(g, s, ws, n),
    decreases n,
{
    if n > 0 {
        lemma_mismatches_count_differing_colors(g, s, ws, maps, n - 1);
        assert(ones(maps[n - 1]) == secret_cells(ws[n - 1]@));
        assert(is_word(ws[n - 1]@));
        lemma_bitmask_agrees_iff_same_colors(g, s, ws[n - 1]@);
    }
}


/// For each possible secret of `ps` below index `n`, the words of the whole list `ws`
/// against which guess `g` earns other colours than against it, summed.
pub open spec fn differing_over_secrets(g: Seq<u8>, ps: Seq<[u8; 5]>, ws: Seq<[u8; 5]>, n: int) -> nat
    decreases n,
{
    if n <= 0 {
        0
    } else {
        differing_over_secrets(g, ps, ws, n - 1) + differing_colors(g, ps[n - 1]@, ws, ws.len() as int)
    }
}

/// Where the bitmaps are those of a word list `ws`, a guess's score sums, over every possible
/// secret, the words of the whole list, however few the possible secrets, against which the
/// guess earns other colours than against that secret.
pub proof fn lemma_score_counts_whole_list(
    g: Seq<u8>,
    ps: Seq<[u8; 5]>,
    ws: Seq<[u8; 5]>,
    maps: Seq<[u128; 3]>,
    n: int,
)
    requires
        is_word(g),
        all_words(ps),
        all_words(ws),
        maps.len() == ws.len(),
        forall|j: int| 0 <= j < ws.len() ==> #[trigger] ones(maps[j]) == secret_cells(ws[j]@),
        0 <= n <= ps.len(),
    ensures
        total_elim(g, ps, maps, n) == differing_over_secrets(g, ps, ws, n),
    decreases n,
{
    if n > 0 {
        lemma_score_counts_whole_list(g, ps, ws, maps, n - 1);
        assert(is_word(ps[n - 1]@));
        lemma_mismatches_count_differing_colors(g, ps[n - 1]@, ws, maps, ws.len() as int);
    }
}

/// Number of words below index `n` of `ws` against which the guess earns other colours is
/// the number of those words minus the ones with the same colours, and each word counts once.
pub proof fn lemma_differing_colors_bounds(g: Seq<u8>, s: Seq<u8>, ws: Seq<[u8; 5]>, n: int)
    requires
        0 <= n <= ws.len(),
    ensures
        differing_colors(g, s, ws, n) <= n,
        (forall|j: int| 0 <= j < n ==> colors_of(g, #[trigger] ws[j]@) != colors_of(g, s)) ==> differing_colors(g, s, ws, n) == n,
        (forall|j: int| 0 <= j < n ==> colors_of(g, #[trigger] ws[j]@) == colors_of(g, s)) ==> differing_colors(g, s, ws, n) == 0,
    decreases n,
{
    if n > 0 {
        lemma_differing_colors_bounds(g, s, ws, n - 1);
    }
}

} // verus!
