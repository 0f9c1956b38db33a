//! Tests for diceware word-list extraction.

use elrs_uid_lookup::diceware_words;

#[test]
fn extracts_words_after_tabs() {
    let input = b"1111\tabandon\n2222\tability\n";
    assert_eq!(
        diceware_words(input),
        Some(b"abandon\nability\n".to_vec())
    );
}

#[test]
fn handles_missing_trailing_newline_and_cr() {
    let input = b"1111\tabandon\r\n2222\tability";
    assert_eq!(
        diceware_words(input),
        Some(b"abandon\nability\n".to_vec())
    );
}

#[test]
fn rejects_line_without_tab() {
    assert_eq!(diceware_words(b"1111 abandon\n"), None);
    assert_eq!(diceware_words(b"1111\tabandon\nnotab\n"), None);
}

#[test]
fn empty_input_yields_no_words() {
    assert_eq!(diceware_words(b""), Some(Vec::new()));
}

#[test]
fn keeps_everything_after_first_tab() {
    assert_eq!(diceware_words(b"11\ttwo\twords\n"), Some(b"two\twords\n".to_vec()));
}
