use wordle_bits::encoding::{build_bitmap, build_bitmask};
use wordle_bits::feedback::get_colors;
use wordle_bits::ranking::rank_by_total;
use wordle_bits::solver::{filter_possible_secrets, score_guess};
use wordle_bits::words::encode_word;

fn words(list: &[&str]) -> Vec<[u8; 5]> {
    list.iter().map(|w| encode_word(w)).collect()
}

#[test]
fn filter_keeps_words_with_the_same_colors() {
    let ps = words(&["crane", "react", "trace", "cater", "slate", "bumpy"]);
    let g = encode_word("trace");
    let s = encode_word("cater");
    let mask = build_bitmask(&g, &get_colors(&g, &s));
    let kept = filter_possible_secrets(&ps, &mask);
    let expected: Vec<[u8; 5]> = ps.iter().copied().filter(|w| get_colors(&g, w) == get_colors(&g, &s)).collect();
    assert_eq!(kept, expected);
    assert!(kept.contains(&s));
}

#[test]
fn score_counts_words_with_other_colors() {
    let list = words(&["crane", "react", "slate", "bumpy"]);
    let bitmaps: Vec<[u128; 3]> = list.iter().map(|&w| build_bitmap(w)).collect();
    let g = encode_word("crane");
    let score = score_guess(&g, &list, &bitmaps).unwrap();
    let mut expected = 0u32;
    for s in &list {
        for t in &list {
            if get_colors(&g, t) != get_colors(&g, s) {
                expected += 1;
            }
        }
    }
    assert_eq!(score, expected);
    // every pair of these four words is told apart by "crane"
    assert_eq!(score, 12);
}

#[test]
fn score_of_no_secrets_is_zero() {
    let g = encode_word("crane");
    assert_eq!(score_guess(&g, &Vec::new(), &vec![build_bitmap(g)]), Some(0));
}

#[test]
fn rank_orders_by_total_then_index() {
    assert_eq!(rank_by_total(&vec![3, 9, 3, 1, 9]), vec![1, 4, 0, 2, 3]);
    assert_eq!(rank_by_total(&vec![]), Vec::<usize>::new());
}
