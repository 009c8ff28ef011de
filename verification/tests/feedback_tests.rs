use wordle_bits::feedback::get_colors;
use wordle_bits::words::encode_word;

fn colors(guess: &str, secret: &str) -> [u8; 5] {
    get_colors(&encode_word(guess), &encode_word(secret))
}

#[test]
fn colors_for_crane_against_react() {
    assert_eq!(colors("crane", "react"), [1, 1, 2, 0, 1]);
}

#[test]
fn colors_all_green_for_the_secret() {
    assert_eq!(colors("slate", "slate"), [2, 2, 2, 2, 2]);
}

#[test]
fn colors_all_gray_without_common_letters() {
    assert_eq!(colors("crane", "bumpy"), [0, 0, 0, 0, 0]);
}

#[test]
fn repeated_letter_is_yellow_only_as_often_as_the_secret_has_it() {
    assert_eq!(colors("speed", "abide"), [0, 0, 1, 0, 1]);
    assert_eq!(colors("eerie", "sheep"), [1, 1, 0, 0, 0]);
}

#[test]
fn green_uses_up_a_letter_before_yellows() {
    // both `l` of the secret are matched in place, so the first `l` is gray
    assert_eq!(colors("lolly", "hello"), [0, 1, 2, 2, 0]);
    assert_eq!(colors("llama", "hello"), [1, 1, 0, 0, 0]);
    assert_eq!(colors("lolly", "alley"), [1, 0, 2, 0, 2]);
}
