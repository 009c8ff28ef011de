use wordle_bits::bitmap::{
    bitmap_grid, bitmaps_match, delete_raw_bit, read_bit, write_bit, write_raw_bit,
    write_raw_bit_sequence, write_row_excluding_bit,
};

#[test]
fn raw_bits_count_from_the_most_significant_end() {
    let mut map = [0u128; 3];
    write_raw_bit(&mut map, 0);
    assert_eq!(map, [1u128 << 127, 0, 0]);
    write_raw_bit(&mut map, 383);
    assert_eq!(map, [1u128 << 127, 0, 1]);
    write_raw_bit(&mut map, 128);
    assert_eq!(map, [1u128 << 127, 1u128 << 127, 1]);
    write_raw_bit(&mut map, 0);
    assert_eq!(map, [1u128 << 127, 1u128 << 127, 1]);
}

#[test]
fn delete_raw_bit_clears_only_that_bit() {
    let mut map = [u128::MAX; 3];
    delete_raw_bit(&mut map, 130);
    assert_eq!(map, [u128::MAX, u128::MAX & !(1u128 << 125), u128::MAX]);
    let mut empty = [0u128; 3];
    delete_raw_bit(&mut empty, 5);
    assert_eq!(empty, [0, 0, 0]);
}

#[test]
fn bit_sequence_inside_one_word() {
    let mut map = [0u128; 3];
    write_raw_bit_sequence(&mut map, 2, 5);
    assert_eq!(map, [0b1111u128 << 122, 0, 0]);
}

#[test]
fn bit_sequence_across_two_words() {
    let mut map = [0u128; 3];
    write_raw_bit_sequence(&mut map, 120, 135);
    assert_eq!(map, [0xffu128, 0xffu128 << 120, 0]);
}

#[test]
fn bit_sequence_of_one_bit() {
    let mut map = [0u128; 3];
    write_raw_bit_sequence(&mut map, 300, 300);
    let mut single = [0u128; 3];
    write_raw_bit(&mut single, 300);
    assert_eq!(map, single);
}

#[test]
fn write_bit_uses_rows_of_26() {
    let mut map = [0u128; 3];
    write_bit(&mut map, 3, 2);
    let mut raw = [0u128; 3];
    write_raw_bit(&mut raw, 55);
    assert_eq!(map, raw);
}

#[test]
fn row_excluding_bit_leaves_one_zero() {
    let mut map = [0u128; 3];
    write_row_excluding_bit(&mut map, 4, 1);
    for b in 0..384 {
        let expected = (26..52).contains(&b) && b != 30;
        assert_eq!(read_bit(&map, b), expected, "bit {b}");
    }
}

#[test]
fn row_excluding_bit_across_a_word_boundary() {
    let mut map = [0u128; 3];
    // row 4 covers bits 104 to 129
    write_row_excluding_bit(&mut map, 25, 4);
    for b in 0..384 {
        let expected = (104..130).contains(&b) && b != 129;
        assert_eq!(read_bit(&map, b), expected, "bit {b}");
    }
}

#[test]
fn bitmaps_match_when_no_common_bit() {
    let mut a = [0u128; 3];
    let mut b = [0u128; 3];
    write_raw_bit(&mut a, 10);
    write_raw_bit(&mut b, 11);
    assert!(bitmaps_match(&a, &b));
    write_raw_bit(&mut b, 10);
    assert!(!bitmaps_match(&a, &b));
    let mut c = [0u128; 3];
    write_raw_bit(&mut c, 300);
    let mut d = [0u128; 3];
    write_raw_bit(&mut d, 300);
    assert!(!bitmaps_match(&c, &d));
    assert!(bitmaps_match(&[0; 3], &[u128::MAX; 3]));
}

#[test]
fn grid_shows_cells() {
    let mut map = [0u128; 3];
    write_bit(&mut map, 25, 10);
    write_bit(&mut map, 0, 0);
    let grid = bitmap_grid(&map);
    assert_eq!(grid.len(), 11);
    for (r, row) in grid.iter().enumerate() {
        assert_eq!(row.len(), 26);
        for (c, &one) in row.iter().enumerate() {
            assert_eq!(one, (r == 10 && c == 25) || (r == 0 && c == 0));
        }
    }
}

#[test]
fn bit_sequence_starting_in_a_later_word_does_nothing() {
    let mut map = [5u128, 6, 7];
    write_raw_bit_sequence(&mut map, 200, 10);
    assert_eq!(map, [5, 6, 7]);
}

#[test]
fn bit_sequence_ending_at_the_last_bit() {
    let mut map = [0u128; 3];
    write_raw_bit_sequence(&mut map, 300, 383);
    assert_eq!(map, [0, 0, (1u128 << 84) - 1]);
}

#[test]
fn bit_sequence_covering_a_whole_word() {
    let mut map = [0u128; 3];
    write_raw_bit_sequence(&mut map, 0, 127);
    assert_eq!(map, [u128::MAX, 0, 0]);
}

#[test]
fn bit_sequence_covering_a_middle_word() {
    let mut map = [0u128; 3];
    write_raw_bit_sequence(&mut map, 100, 300);
    for b in 0..384 {
        assert_eq!(read_bit(&map, b), (100..=300).contains(&b), "bit {b}");
    }
    assert_eq!(map[1], u128::MAX);
}

#[test]
fn bit_sequence_covering_every_bit() {
    let mut map = [0u128; 3];
    write_raw_bit_sequence(&mut map, 0, 383);
    assert_eq!(map, [u128::MAX; 3]);
}
