//! Bitmaps of 384 bits held in three `u128` words.
//!
//! Bit number `b` lives in word `b / 128`; inside that word the bits are
//! numbered from the most significant end, so bit `b` is the word's bit
//! `127 - b % 128` counted from the least significant end.
use vstd::prelude::*;

verus! {

/// Number of bits a bitmap holds.
pub const MAP_BITS: usize = 384;

/// Whether bit `p` of `w`, counted from the least significant end, is one.
pub open spec fn word_bit(w: u128, p: int) -> bool {
    0 <= p < 128 && (w >> (p as u128)) & 1 == 1
}

/// Position inside its word of bitmap bit `b`, counted from the least significant end.
pub open spec fn shift_of(b: int) -> int {
    127 - b % 128
}

/// Whether bit number `b` of the bitmap is one.
pub open spec fn bit_at(map: [u128; 3], b: int) -> bool {
    0 <= b < 384 && word_bit(map[b / 128], shift_of(b))
}

/// The numbers of the bits of `map` that are one.
pub open spec fn ones(map: [u128; 3]) -> Set<int> {
    Set::new(|b: int| bit_at(map, b))
}

/// The bit numbers from `left` to `right`, both included.
pub open spec fn span(left: int, right: int) -> Set<int> {
    Set::new(|b: int| left <= b <= right)
}

proof fn lemma_or_one(w: u128, p: u128, q: u128)
    requires
        p < 128,
        q < 128,
    ensures
        ((w | (1u128 << p)) >> q) & 1 == 1 <==> ((w >> q) & 1 == 1 || q == p),
{
    assert(((w | (1u128 << p)) >> q) & 1 == 1 <==> ((w >> q) & 1 == 1 || q == p)) by (bit_vector)
        requires
            p < 128,
            q < 128,
    ;
}

proof fn lemma_and_not_one(w: u128, p: u128, q: u128)
    requires
        p < 128,
        q < 128,
    ensures
        ((w & !(1u128 << p)) >> q) & 1 == 1 <==> ((w >> q) & 1 == 1 && q != p),
{
    assert(((w & !(1u128 << p)) >> q) & 1 == 1 <==> ((w >> q) & 1 == 1 && q != p)) by (bit_vector)
        requires
            p < 128,
            q < 128,
    ;
}

/// Sets bit number `bitnum` of `map` to one.
pub fn write_raw_bit(map: &mut [u128; 3], bitnum: usize)
    requires
        bitnum < MAP_BITS,
    ensures
        ones(*final(map)) == ones(*old(map)).insert(bitnum as int),
{
    let w = bitnum / 128;
    let p = (127 - (bitnum % 128)) as u128;
    let ghost before = *map;
    map[w] = map[w] | (1u128 << p);
    assert forall|b: int| #[trigger] bit_at(*map, b) == (bit_at(before, b) || b == bitnum) by {
        if 0 <= b < 384 {
            if b / 128 == w {
                lemma_or_one(before[w as int], p, shift_of(b) as u128);
            }
        }
    }
    assert(ones(*map) =~= ones(before).insert(bitnum as int));
}


/// Sets bit number `bitnum` of `map` to zero.
pub fn delete_raw_bit(map: &mut [u128; 3], bitnum: usize)
    requires
        bitnum < MAP_BITS,
    ensures
        ones(*final(map)) == ones(*old(map)).remove(bitnum as int),
{
    let w = bitnum / 128;
    let p = (127 - (bitnum % 128)) as u128;
    let ghost before = *map;
    map[w] = map[w] & !(1u128 << p);
    assert forall|b: int| #[trigger] bit_at(*map, b) == (bit_at(before, b) && b != bitnum) by {
        if 0 <= b < 384 {
            if b / 128 == w {
                lemma_and_not_one(before[w as int], p, shift_of(b) as u128);
            }
        }
    }
    assert(ones(*map) =~= ones(before).remove(bitnum as int));
}

proof fn lemma_low_mask_bit(n: u128, r: u128)
    requires
        n < 128,
        r < 128,
    ensures
        ((((1u128 << n) - 1) as u128) >> r) & 1 == 1 <==> r < n,
{
    assert(((((1u128 << n) - 1) as u128) >> r) & 1 == 1 <==> r < n) by (bit_vector)
        requires
            n < 128,
            r < 128,
    ;
}

proof fn lemma_shifted_bit(x: u128, s: u128, q: u128)
    requires
        s < 128,
        q < 128,
    ensures
        ((x << s) >> q) & 1 == 1 <==> (s <= q && (x >> ((q - s) as u128)) & 1 == 1),
{
    assert(((x << s) >> q) & 1 == 1 <==> (s <= q && (x >> ((q - s) as u128)) & 1 == 1))
        by (bit_vector)
        requires
            s < 128,
            q < 128,
    ;
}

proof fn lemma_run_mask(n: u128, s: u128, q: u128)
    requires
        1 <= n < 128,
        s + n <= 128,
        q < 128,
    ensures
        (((((1u128 << n) - 1) as u128) << s) >> q) & 1 == 1 <==> (s <= q && q < s + n),
{
    lemma_shifted_bit((((1u128 << n) - 1) as u128), s, q);
    if s <= q {
        lemma_low_mask_bit(n, (q - s) as u128);
    }
}

proof fn lemma_one_shift_positive(n: u128)
    requires
        n < 128,
    ensures
        (1u128 << n) >= 1,
{
    assert((1u128 << n) >= 1) by (bit_vector)
        requires
            n < 128,
    ;
}

proof fn lemma_or_bit(a: u128, m: u128, q: u128)
    ensures
        ((a | m) >> q) & 1 == 1 <==> ((a >> q) & 1 == 1 || (m >> q) & 1 == 1),
{
    assert(((a | m) >> q) & 1 == 1 <==> ((a >> q) & 1 == 1 || (m >> q) & 1 == 1)) by (bit_vector);
}

proof fn lemma_full_word_bit(q: u128)
    requires
        q < 128,
    ensures
        ((!0u128) >> q) & 1 == 1,
{
    assert(((!0u128) >> q) & 1 == 1) by (bit_vector)
        requires
            q < 128,
    ;
}

/// Sets to one every bit of `map` from `left` to `right`, both included; where `left`
/// lies in a later word than `right` there is no such bit and nothing changes.
pub fn write_raw_bit_sequence(map: &mut [u128; 3], left: usize, right: usize)
    requires
        left / 128 <= right / 128 ==> left <= right && right < MAP_BITS,
    ensures
        ones(*final(map)) == ones(*old(map)) + span(left as int, right as int),
    decreases right / 128 - left / 128,
{
    let leftmost_seg = left / 128;
    let rightmost_seg = right / 128;
    let ghost before = *map;
    if leftmost_seg == rightmost_seg {
        // the write only affects one word
        let seg = left / 128;
        let n = (right - left + 1) as u128;
        let s = (128 - ((right % 128) + 1)) as u128;
        let m: u128 = if n == 128 {
            // the whole word
            !0u128
        } else {
            proof { lemma_one_shift_positive(n); }
            ((1u128 << n) - 1) << s
        };
        map[seg] = map[seg] | m;
        assert forall|b: int| #[trigger] bit_at(*map, b) == (bit_at(before, b) || left <= b <= right) by {
            if 0 <= b < 384 && b / 128 == seg {
                let q = shift_of(b) as u128;
                if n == 128 {
                    lemma_full_word_bit(q);
                } else {
                    lemma_run_mask(n, s, q);
                }
                lemma_or_bit(before[seg as int], m, q);
            }
        }
        assert(ones(*map) =~= ones(before) + span(left as int, right as int));
    } else if leftmost_seg < rightmost_seg {
        // the write affects several words: one run per word
        let mut i = leftmost_seg;
        while i <= rightmost_seg
            invariant
                left <= right < MAP_BITS,
                leftmost_seg == left / 128,
                rightmost_seg == right / 128,
                leftmost_seg < rightmost_seg,
                leftmost_seg <= i <= rightmost_seg + 1,
                ones(*map) == ones(before) + Set::new(|b: int| left <= b <= right && b < 128 * i),
            decreases rightmost_seg + 1 - i,
        {
            let seg_start = 128 * i;
            let seg_end = 128 * (i + 1) - 1;
            if i == leftmost_seg {
                write_raw_bit_sequence(map, left, seg_end);
            } else if i == rightmost_seg {
                write_raw_bit_sequence(map, seg_start, right);
            } else {
                write_raw_bit_sequence(map, seg_start, seg_end);
            }
            assert(ones(*map) =~= ones(before) + Set::new(|b: int| left <= b <= right && b < 128 * (i + 1)));
            i = i + 1;
        }
        assert(ones(*map) =~= ones(before) + span(left as int, right as int));
    } else {
        assert(span(left as int, right as int) =~= Set::<int>::empty());
        assert(ones(*map) =~= ones(before) + span(left as int, right as int));
    }
}

/// Bit number of the cell at `row` and `col` in a grid of rows of 26 columns.
pub open spec fn cell(row: int, col: int) -> int {
    26 * row + col
}

/// Sets to one the bit of the cell at `row` and column `letter`.
pub fn write_bit(map: &mut [u128; 3], letter: u8, row: usize)
    requires
        cell(row as int, letter as int) < MAP_BITS,
    ensures
        ones(*final(map)) == ones(*old(map)).insert(cell(row as int, letter as int)),
{
    write_raw_bit(map, 26 * row + letter as usize);
}

/// Sets to one every cell of `row` except the one in column `letter_excl`,
/// which is set to zero.
pub fn write_row_excluding_bit(map: &mut [u128; 3], letter_excl: u8, row: usize)
    requires
        cell(row as int, 25) < MAP_BITS,
        cell(row as int, letter_excl as int) < MAP_BITS,
    ensures
        ones(*final(map)) == (ones(*old(map)) + span(cell(row as int, 0), cell(row as int, 25))).remove(
            cell(row as int, letter_excl as int),
        ),
{
    write_raw_bit_sequence(map, 26 * row, 26 * (row + 1) - 1);
    delete_raw_bit(map, 26 * row + letter_excl as usize);
}

/// Reads bit number `bitnum` of `map`.
pub fn read_bit(map: &[u128; 3], bitnum: usize) -> (one: bool)
    requires
        bitnum < MAP_BITS,
    ensures
        one == bit_at(*map, bitnum as int),
{
    let w = bitnum / 128;
    let p = (127 - (bitnum % 128)) as u128;
    let x = map[w];
    proof { lemma_single_bit_test(x, p); }
    x & (1u128 << p) != 0
}

proof fn lemma_single_bit_test(x: u128, p: u128)
    requires
        p < 128,
    ensures
        (x & (1u128 << p) != 0) <==> ((x >> p) & 1 == 1),
{
    assert((x & (1u128 << p) != 0) <==> ((x >> p) & 1 == 1)) by (bit_vector)
        requires
            p < 128,
    ;
}

proof fn lemma_top_bits_zero(x: u128, hi: u128) -> (q: u128)
    requires
        x != 0,
        hi <= 128,
        x >> hi == 0,
    ensures
        q < hi,
        (x >> q) & 1 == 1,
    decreases hi,
{
    assert(hi != 0) by (bit_vector)
        requires
            x != 0,
            hi <= 128,
            x >> hi == 0,
    ;
    if x & 1 == 1 {
        assert(x >> 0 == x) by (bit_vector);
        0
    } else {
        let y = x >> 1;
        assert(y != 0 && y >> ((hi - 1) as u128) == 0) by (bit_vector)
            requires
                x & 1 != 1,
                x != 0,
                hi <= 128,
                hi != 0,
                x >> hi == 0,
                y == x >> 1,
        ;
        let j = lemma_top_bits_zero(y, (hi - 1) as u128);
        let k = (j + 1) as u128;
        assert((x >> k) & 1 == 1) by (bit_vector)
            requires
                (y >> j) & 1 == 1,
                y == x >> 1,
                j < 127,
                k == j + 1,
        ;
        k
    }
}

/// Two words share a one bit exactly when their bitwise and is not zero.
proof fn lemma_and_zero(a: u128, b: u128)
    ensures
        (a & b == 0) <==> (forall|q: int| !(#[trigger] word_bit(a, q) && word_bit(b, q))),
{
    if a & b == 0 {
        assert forall|q: int| !(#[trigger] word_bit(a, q) && word_bit(b, q)) by {
            if 0 <= q < 128 {
                let p = q as u128;
                assert(!((a >> p) & 1 == 1 && (b >> p) & 1 == 1)) by (bit_vector)
                    requires
                        a & b == 0,
                ;
            }
        }
    } else {
        let c = a & b;
        assert(c >> 128u128 == 0) by (bit_vector);
        let p = lemma_top_bits_zero(c, 128);
        assert((a >> p) & 1 == 1 && (b >> p) & 1 == 1) by (bit_vector)
            requires
                ((a & b) >> p) & 1 == 1,
        ;
        assert(word_bit(a, p as int) && word_bit(b, p as int));
    }
}

/// Whether the secret described by `bitmap` agrees with the information in
/// `bitmask`: true exactly when no bit is one in both.
pub fn bitmaps_match(bitmask: &[u128; 3], bitmap: &[u128; 3]) -> (agree: bool)
    ensures
        agree == ones(*bitmask).disjoint(ones(*bitmap)),
{
    let mut i: usize = 0;
    while i < 3
        invariant
            i <= 3,
            forall|j: int| 0 <= j < i ==> bitmask[j] & bitmap[j] == 0,
        decreases 3 - i,
    {
        if bitmask[i] & bitmap[i] != 0 {
            proof {
                lemma_and_zero(bitmask[i as int], bitmap[i as int]);
                let q = choose|q: int| #[trigger] word_bit(bitmask[i as int], q) && word_bit(bitmap[i as int], q);
                let b = 128 * i + (127 - q);
                assert(b / 128 == i && shift_of(b) == q);
                assert(ones(*bitmask).contains(b) && ones(*bitmap).contains(b));
            }
            return false;
        }
        i = i + 1;
    }
    proof {
        assert forall|b: int| !(ones(*bitmask).contains(b) && ones(*bitmap).contains(b)) by {
            if 0 <= b < 384 {
                lemma_and_zero(bitmask[b / 128], bitmap[b / 128]);
                assert(!(word_bit(bitmask[b / 128], shift_of(b)) && word_bit(bitmap[b / 128], shift_of(b))));
            }
        }
    }
    true
}


/// The 11 rows of 26 cells of `bits`, each cell true where its bit is one.
pub fn bitmap_grid(bits: &[u128; 3]) -> (grid: Vec<Vec<bool>>)
    ensures
        grid@.len() == 11,
        forall|r: int| 0 <= r < 11 ==> (#[trigger] grid@[r])@.len() == 26,
        forall|r: int, c: int| 0 <= r < 11 && 0 <= c < 26 ==> grid@[r]@[c] == bit_at(*bits, cell(r, c)),
{
    let mut grid: Vec<Vec<bool>> = Vec::new();
    let mut r: usize = 0;
    while r < 11
        invariant
            r <= 11,
            grid@.len() == r,
            forall|i: int| 0 <= i < r ==> (#[trigger] grid@[i])@.len() == 26,
            forall|i: int, c: int| 0 <= i < r && 0 <= c < 26 ==> grid@[i]@[c] == bit_at(*bits, cell(i, c)),
        decreases 11 - r,
    {
        let mut row: Vec<bool> = Vec::new();
        let mut c: usize = 0;
        while c < 26
            invariant
                r < 11,
                c <= 26,
                row@.len() == c,
                forall|j: int| 0 <= j < c ==> row@[j] == bit_at(*bits, cell(r as int, j)),
            decreases 26 - c,
        {
            row.push(read_bit(bits, r * 26 + c));
            c = c + 1;
        }
        grid.push(row);
        r = r + 1;
    }
    grid
}

} // verus!
