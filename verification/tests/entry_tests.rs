use wordle_bits::entry::{apply_entry, entry_is_readable, parse_entry, EntryOutcome};
use wordle_bits::words::encode_word;

#[test]
fn parse_reads_guess_and_colors() {
    assert_eq!(parse_entry("lares __g_y"), Some(([11, 0, 17, 4, 18], [0, 0, 2, 0, 1])));
    assert_eq!(parse_entry("CRANE gyx_g"), Some(([2, 17, 0, 13, 4], [2, 1, 0, 0, 2])));
}

#[test]
fn parse_rejects_other_forms() {
    assert_eq!(parse_entry("lares __g_"), None);
    assert_eq!(parse_entry("lares__g_y_"), None);
    assert_eq!(parse_entry("lar3s __g_y"), None);
    assert_eq!(parse_entry(""), None);
}

#[test]
fn readable_entries() {
    assert!(entry_is_readable("lares __g_y"));
    assert!(entry_is_readable("nonsense"));
    assert!(entry_is_readable("lar3s  _g y"));
    // the colours would run out of characters
    assert!(!entry_is_readable("lares  _g_y"));
    // eleven bytes but only five characters
    assert!(!entry_is_readable("\u{1F600}\u{1F600}abc"));
}

#[test]
fn entry_narrows_the_possible_secrets() {
    let ps: Vec<[u8; 5]> = ["crane", "react", "trace", "slate", "bumpy"].iter().map(|w| encode_word(w)).collect();
    // "crane" against "react" earns c y, r y, a g, n _, e y
    match apply_entry("crane yyg_y", &ps) {
        EntryOutcome::Narrowed(kept) => assert_eq!(kept, vec![encode_word("react")]),
        _ => panic!("expected narrowed secrets"),
    }
    assert!(matches!(apply_entry("crane ggggg", &vec![encode_word("slate")]), EntryOutcome::EliminatesAll));
    assert!(matches!(apply_entry("crane", &ps), EntryOutcome::Invalid));
}
