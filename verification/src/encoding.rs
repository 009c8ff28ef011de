//! The two bitmaps of the solver.
//!
//! Both are grids of 11 rows of 26 columns, one column per letter, stored in a
//! bitmap of 384 bits (the last 98 bits stay zero). Rows 0 to 4 stand for the
//! five positions of a word, rows 5 to 10 for the number of times, 0 to 5, that a
//! letter occurs in it.
//!
//! A *secret bitmap* describes a word: position row `i` has the word's letter at
//! `i`, and for each letter the count row for the number of times the word holds it.
//! An *information bitmask* describes a guess and its colours: it marks every
//! cell that a word agreeing with them can not have. A word agrees with the
//! information exactly when its bitmap and the mask have no one bit in common.
use vstd::prelude::*;
use crate::bitmap::{cell, ones, write_bit, write_row_excluding_bit};
use crate::counting::{gray_count, letter_count, lemma_counts_bounded, nongray_count};
use crate::feedback::{is_coloring, is_word, GRAY, GREEN, YELLOW};

verus! {

/// Number of bits of the grid: 11 rows of 26 columns.
pub open spec fn grid_bits() -> int {
    286
}

/// Whether the secret bitmap of word `w` has the cell at `row` and `col`.
pub open spec fn secret_has_cell(w: Seq<u8>, row: int, col: int) -> bool {
    if row < 5 {
        w[row] == col
    } else {
        row - 5 == letter_count(w, col, 5)
    }
}

/// The one bits of the secret bitmap of word `w`.
pub open spec fn secret_cells(w: Seq<u8>) -> Set<int> {
    Set::new(|b: int| 0 <= b < grid_bits() && secret_has_cell(w, b / 26, b % 26))
}

/// Whether guess `g` with colours `c` rules out that letter `l` occurs exactly `n`
/// times in the secret: with a gray occurrence of `l` the count must equal the number of
/// its green and yellow occurrences; without, it must be at least that number.
pub open spec fn count_ruled_out(g: Seq<u8>, c: Seq<u8>, l: int, n: int) -> bool {
    if gray_count(g, c, l, 5) > 0 {
        n != nongray_count(g, c, l, 5)
    } else {
        n < nongray_count(g, c, l, 5)
    }
}

/// Whether the information bitmask of guess `g` with colours `c` has the cell at
/// `row` and `col`: at a green position every other letter, at a gray or yellow
/// position the guessed letter, and for each letter of the guess the counts it rules out.
pub open spec fn info_has_cell(g: Seq<u8>, c: Seq<u8>, row: int, col: int) -> bool {
    if row < 5 {
        if c[row] == GREEN {
            col != g[row]
        } else {
            col == g[row]
        }
    } else {
        letter_count(g, col, 5) > 0 && count_ruled_out(g, c, col, row - 5)
    }
}

/// The one bits of the information bitmask of guess `g` with colours `c`.
pub open spec fn info_cells(g: Seq<u8>, c: Seq<u8>) -> Set<int> {
    Set::new(|b: int| 0 <= b < grid_bits() && info_has_cell(g, c, b / 26, b % 26))
}

/// Builds the secret bitmap of word `ps`.
pub fn build_bitmap(ps: [u8; 5]) -> (bitmap: [u128; 3])
    requires
        is_word(ps@),
    ensures
        ones(bitmap) == secret_cells(ps@),
{
    let ghost w = ps@;
    let mut bitmap: [u128; 3] = [0, 0, 0];
    let mut ltr_count: [u8; 26] = [0; 26];
    assert(ones(bitmap) =~= Set::<int>::empty()) by {
        assert(0u128 >> 0u128 == 0) by (bit_vector);
        assert forall|q: u128| (0u128 >> q) & 1 != 1 by {
            assert((0u128 >> q) & 1 != 1) by (bit_vector);
        }
    }

    // position rows, and the counts of the letters
    let mut i: usize = 0;
    while i < 5
        invariant
            w == ps@,
            is_word(w),
            i <= 5,
            ones(bitmap) == Set::new(|b: int| 0 <= b < grid_bits() && b / 26 < i && w[b / 26] == b % 26),
            forall|l: int| 0 <= l < 26 ==> #[trigger] ltr_count[l] == letter_count(w, l, i as int),
        decreases 5 - i,
    {
        let ltr = ps[i];
        proof {
            lemma_counts_bounded(w, w, w, ltr as int, i as int);
        }
        write_bit(&mut bitmap, ltr, i);
        ltr_count[ltr as usize] = ltr_count[ltr as usize] + 1;
        i = i + 1;
        assert(ones(bitmap) =~= Set::new(|b: int| 0 <= b < grid_bits() && b / 26 < i && w[b / 26] == b % 26));
    }

    // count rows
    let mut ltr: u8 = 0;
    while ltr < 26
        invariant
            w == ps@,
            is_word(w),
            ltr <= 26,
            ones(bitmap) == Set::new(|b: int| 0 <= b < grid_bits() && b / 26 < 5 && w[b / 26] == b % 26)
                + Set::new(|b: int| 0 <= b < grid_bits() && b / 26 >= 5 && b % 26 < ltr
                    && b / 26 - 5 == letter_count(w, b % 26, 5)),
            forall|l: int| 0 <= l < 26 ==> #[trigger] ltr_count[l] == letter_count(w, l, 5),
        decreases 26 - ltr,
    {
        proof {
            lemma_counts_bounded(w, w, w, ltr as int, 5);
        }
        write_bit(&mut bitmap, ltr, 5 + ltr_count[ltr as usize] as usize);
        ltr = ltr + 1;
        assert(ones(bitmap) =~= Set::new(|b: int| 0 <= b < grid_bits() && b / 26 < 5 && w[b / 26] == b % 26)
            + Set::new(|b: int| 0 <= b < grid_bits() && b / 26 >= 5 && b % 26 < ltr
                && b / 26 - 5 == letter_count(w, b % 26, 5)));
    }
    assert(ones(bitmap) =~= secret_cells(w));
    bitmap
}


/// The position rows of the information bitmask, for the positions below `n`.
pub open spec fn info_position_cells(g: Seq<u8>, c: Seq<u8>, n: int) -> Set<int> {
    Set::new(|b: int| 0 <= b < grid_bits() && b / 26 < n && info_has_cell(g, c, b / 26, b % 26))
}

/// Encodes guess `pg` and its colours `colors` into an information bitmask.
pub fn build_bitmask(pg: &[u8; 5], colors: &[u8; 5]) -> (bitmask: [u128; 3])
    requires
        is_word(pg@),
        is_coloring(colors@),
    ensures
        ones(bitmask) == info_cells(pg@, colors@),
{
    let ghost g = pg@;
    let ghost c = colors@;
    let mut bitmask: [u128; 3] = [0, 0, 0];
    let mut minimum_of_ltr: [u8; 26] = [0; 26];
    let mut ltrs_with_maximum: [bool; 26] = [false; 26];
    assert(ones(bitmask) =~= info_position_cells(g, c, 0)) by {
        assert forall|q: u128| (0u128 >> q) & 1 != 1 by {
            assert((0u128 >> q) & 1 != 1) by (bit_vector);
        }
    }

    // position rows, and the least and greatest counts the colours allow
    let mut i: usize = 0;
    while i < 5
        invariant
            g == pg@,
            c == colors@,
            is_word(g),
            is_coloring(c),
            i <= 5,
            ones(bitmask) == info_position_cells(g, c, i as int),
            forall|l: int| 0 <= l < 26 ==> #[trigger] minimum_of_ltr[l] == nongray_count(g, c, l, i as int),
            forall|l: int| 0 <= l < 26 ==> #[trigger] ltrs_with_maximum[l] == (gray_count(g, c, l, i as int) > 0),
        decreases 5 - i,
    {
        let letter = pg[i] as usize;
        let ltr = pg[i];
        let color = colors[i];
        proof {
            lemma_counts_bounded(g, g, c, letter as int, i as int);
        }
        let ghost before = ones(bitmask);
        if color == GRAY {
            write_bit(&mut bitmask, ltr, i);
            ltrs_with_maximum[letter] = true;
        } else if color == YELLOW {
            write_bit(&mut bitmask, ltr, i);
            minimum_of_ltr[letter] = minimum_of_ltr[letter] + 1;
        } else {
            write_row_excluding_bit(&mut bitmask, ltr, i);
            minimum_of_ltr[letter] = minimum_of_ltr[letter] + 1;
            assert(!before.contains(cell(i as int, ltr as int)));
        }
        i = i + 1;
        assert(ones(bitmask) =~= info_position_cells(g, c, i as int));
    }

    // count rows
    let mut i: usize = 0;
    while i < 5
        invariant
            g == pg@,
            c == colors@,
            is_word(g),
            is_coloring(c),
            i <= 5,
            ones(bitmask) == info_position_cells(g, c, 5) + Set::new(|b: int| 0 <= b < grid_bits()
                && b / 26 >= 5 && letter_count(g, b % 26, i as int) > 0
                && count_ruled_out(g, c, b % 26, b / 26 - 5)),
            forall|l: int| 0 <= l < 26 ==> #[trigger] minimum_of_ltr[l] == nongray_count(g, c, l, 5),
            forall|l: int| 0 <= l < 26 ==> #[trigger] ltrs_with_maximum[l] == (gray_count(g, c, l, 5) > 0),
        decreases 5 - i,
    {
        let ltr = pg[i] as usize;
        let min = minimum_of_ltr[ltr] as usize;
        let ghost before = ones(bitmask);
        let mut count: usize = 0;
        while count < 6
            invariant
                g == pg@,
                c == colors@,
                is_word(g),
                is_coloring(c),
                i < 5,
                ltr == g[i as int],
                min == nongray_count(g, c, ltr as int, 5),
                ltrs_with_maximum[ltr as int] == (gray_count(g, c, ltr as int, 5) > 0),
                count <= 6,
                ones(bitmask) == before + Set::new(|b: int| 0 <= b < grid_bits() && b / 26 >= 5
                    && b / 26 - 5 < count && b % 26 == ltr && count_ruled_out(g, c, b % 26, b / 26 - 5)),
            decreases 6 - count,
        {
            let ghost mid = ones(bitmask);
            if !(if ltrs_with_maximum[ltr] { min == count } else { min <= count }) {
                write_bit(&mut bitmask, ltr as u8, count + 5);
            }
            count = count + 1;
            assert(ones(bitmask) =~= before + Set::new(|b: int| 0 <= b < grid_bits() && b / 26 >= 5
                && b / 26 - 5 < count && b % 26 == ltr && count_ruled_out(g, c, b % 26, b / 26 - 5)));
        }
        i = i + 1;
        assert(ones(bitmask) =~= info_position_cells(g, c, 5) + Set::new(|b: int| 0 <= b < grid_bits()
            && b / 26 >= 5 && letter_count(g, b % 26, i as int) > 0
            && count_ruled_out(g, c, b % 26, b / 26 - 5)));
    }
    assert(ones(bitmask) =~= info_cells(g, c));
    bitmask
}

} // verus!
