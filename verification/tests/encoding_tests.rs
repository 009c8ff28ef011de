use wordle_bits::bitmap::{bitmap_grid, bitmaps_match};
use wordle_bits::encoding::{build_bitmap, build_bitmask};
use wordle_bits::feedback::get_colors;
use wordle_bits::words::encode_word;

fn cells(map: &[u128; 3]) -> Vec<(usize, usize)> {
    let mut out = Vec::new();
    for (r, row) in bitmap_grid(map).iter().enumerate() {
        for (c, &one) in row.iter().enumerate() {
            if one {
                out.push((r, c));
            }
        }
    }
    out
}

#[test]
fn secret_bitmap_has_positions_and_counts() {
    let word = encode_word("aabbc");
    let map = build_bitmap(word);
    let got = cells(&map);
    let mut expected = vec![(0, 0), (1, 0), (2, 1), (3, 1), (4, 2)];
    for l in 0..26 {
        let count = word.iter().filter(|&&x| x as usize == l).count();
        expected.push((5 + count, l));
    }
    expected.sort();
    assert_eq!(got, expected);
    // the bits past the grid stay zero
    assert_eq!(map[2] & ((1u128 << 98) - 1), 0);
}

#[test]
fn information_bitmask_for_gray_yellow_green() {
    // guess "crane": c gray, r yellow, a green, n gray, e gray
    let g = encode_word("crane");
    let mask = build_bitmask(&g, &[0, 1, 2, 0, 0]);
    let got = cells(&mask);
    let mut expected = vec![(0, 2), (1, 17), (3, 13), (4, 4)];
    for c in 0..26 {
        if c != 0 {
            expected.push((2, c));
        }
    }
    // c, n, e: gray with no other occurrence: every count but 0 is ruled out
    for l in [2usize, 13, 4] {
        for n in 1..6 {
            expected.push((5 + n, l));
        }
    }
    // r and a: one green or yellow, no gray: count 0 is ruled out
    expected.push((5, 17));
    expected.push((5, 0));
    expected.sort();
    assert_eq!(got, expected);
}

#[test]
fn gray_next_to_yellow_fixes_the_count() {
    // "speed" against "abide": e yellow then gray, so exactly one e
    let g = encode_word("speed");
    let mask = build_bitmask(&g, &[0, 0, 1, 0, 1]);
    let grid = bitmap_grid(&mask);
    let e = 4;
    for n in 0..6 {
        assert_eq!(grid[5 + n][e], n != 1, "count {n}");
    }
}

#[test]
fn secret_survives_its_own_colors() {
    let words = ["crane", "react", "speed", "abide", "hello", "llama", "eerie", "sheep"];
    for g in words {
        for s in words {
            let gw = encode_word(g);
            let sw = encode_word(s);
            let mask = build_bitmask(&gw, &get_colors(&gw, &sw));
            assert!(bitmaps_match(&mask, &build_bitmap(sw)), "{g} against {s}");
        }
    }
}

#[test]
fn bitmask_agrees_exactly_with_same_colors() {
    let words = [
        "crane", "react", "trace", "cater", "speed", "abide", "hello", "llama", "eerie", "sheep",
        "alley", "lolly", "creep", "crepe", "geese",
    ];
    for g in words {
        for s in words {
            for t in words {
                let gw = encode_word(g);
                let sw = encode_word(s);
                let tw = encode_word(t);
                let mask = build_bitmask(&gw, &get_colors(&gw, &sw));
                let agrees = bitmaps_match(&mask, &build_bitmap(tw));
                let same = get_colors(&gw, &tw) == get_colors(&gw, &sw);
                assert_eq!(agrees, same, "{g} {s} {t}");
            }
        }
    }
}
