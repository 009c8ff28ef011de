use wordle_bits::words::{decode_word, encode_word, words_from_text};

#[test]
fn encode_counts_from_a() {
    assert_eq!(encode_word("crane"), [2, 17, 0, 13, 4]);
    assert_eq!(encode_word("CrAnE"), [2, 17, 0, 13, 4]);
    assert_eq!(encode_word("azzza"), [0, 25, 25, 25, 0]);
}

#[test]
fn decode_spells_the_word() {
    assert_eq!(decode_word(&[2, 17, 0, 13, 4]), "crane");
    assert_eq!(decode_word(&[0, 25, 0, 25, 0]), "azaza");
}

#[test]
fn decode_then_encode_gives_the_word_back() {
    for w in [[0u8, 1, 2, 3, 4], [25, 24, 23, 22, 21], [7, 7, 7, 7, 7]] {
        assert_eq!(encode_word(&decode_word(&w)), w);
    }
}

#[test]
fn encode_then_decode_gives_lower_case() {
    for w in ["Slate", "CRANE", "react"] {
        assert_eq!(decode_word(&encode_word(w)), w.to_ascii_lowercase());
    }
}

#[test]
fn word_list_lines_are_trimmed() {
    let words = words_from_text("  crane\r\nReact \n\tslate\n\n").unwrap();
    assert_eq!(words, vec![[2, 17, 0, 13, 4], [17, 4, 0, 2, 19], [18, 11, 0, 19, 4]]);
}

#[test]
fn word_list_rejects_bad_lines() {
    assert_eq!(words_from_text("crane\n\nslate"), None);
    assert_eq!(words_from_text("crane\nslates"), None);
    assert_eq!(words_from_text("cr4ne"), None);
    assert_eq!(words_from_text(""), None);
    assert_eq!(words_from_text("caf\u{e9}s"), None);
}

#[test]
fn word_list_trims_unicode_white_space() {
    let words = words_from_text("\u{3000}crane\u{a0}\n\u{2009}slate").unwrap();
    assert_eq!(words, vec![[2, 17, 0, 13, 4], [18, 11, 0, 19, 4]]);
}
