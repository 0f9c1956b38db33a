//! Tests for building, serializing, parsing and querying the table.

use elrs_uid_lookup::Table;
use md5::{Digest, Md5};

fn widen(b: &[u8]) -> u64 {
    ((b[0] as u64) << 40)
        | ((b[1] as u64) << 32)
        | ((b[2] as u64) << 24)
        | ((b[3] as u64) << 16)
        | ((b[4] as u64) << 8)
        | (b[5] as u64)
}

/// The UID of a phrase, computed independently of the library.
fn hash_uid(phrase: &[u8]) -> u64 {
    let mut hasher = Md5::new();
    hasher.update(b"-DMY_BINDING_PHRASE=\"");
    hasher.update(phrase);
    hasher.update(b"\"");
    let digest = hasher.finalize();
    widen(&digest[0..6])
}

#[test]
fn empty_serialized_table_parses_to_empty() {
    let table = Table::parse(&[0, 0, 0, 0]);
    assert_eq!(table.len(), 0);
    assert!(table.is_empty());
    assert!(table.is_sorted());
    assert_eq!(table.find(42), None);
}

#[test]
fn parses_handcrafted_bytes() {
    let mut file: Vec<u8> = vec![2, 0, 0, 0];
    file.extend_from_slice(&[1, 1, 1, 1, 1, 1]);
    file.extend_from_slice(b"ab\0");
    file.extend_from_slice(&[2, 2, 2, 2, 2, 2]);
    file.extend_from_slice(b"c\0");
    let table = Table::parse(&file);
    assert_eq!(table.len(), 2);
    assert!(table.is_sorted());
    assert_eq!(table.find(widen(&[1, 1, 1, 1, 1, 1])), Some(&b"ab"[..]));
    assert_eq!(table.find(widen(&[2, 2, 2, 2, 2, 2])), Some(&b"c"[..]));
    assert_eq!(table.find(widen(&[1, 1, 1, 1, 1, 2])), None);
}

#[test]
fn count_prefix_is_advisory() {
    // The header claims 9 entries but only one follows: scanning finds it.
    let mut file: Vec<u8> = vec![9, 0, 0, 0];
    file.extend_from_slice(&[5, 4, 3, 2, 1, 0]);
    file.extend_from_slice(b"word\0");
    let table = Table::parse(&file);
    assert_eq!(table.len(), 1);
    assert_eq!(table.find(widen(&[5, 4, 3, 2, 1, 0])), Some(&b"word"[..]));
}

#[test]
fn round_trip_preserves_lookups() {
    let corpus = b"alpha\nbravo\ncharlie\ndelta";
    let built = Table::from_words(corpus);
    let bytes = built.serialize().unwrap();
    let parsed = Table::parse(&bytes);
    assert!(parsed.is_sorted());
    assert_eq!(parsed.len(), built.len());
    for word in [&b"alpha"[..], b"bravo", b"charlie", b"delta"] {
        let uid = hash_uid(word);
        assert_eq!(built.find(uid), Some(word));
        assert_eq!(parsed.find(uid), Some(word));
    }
}

#[test]
fn builds_are_deterministic() {
    let corpus = b"one\ntwo\nthree\nfour\nfive";
    let first = Table::from_words(corpus).serialize().unwrap();
    let second = Table::from_words(corpus).serialize().unwrap();
    assert_eq!(first, second);
}

#[test]
fn end_to_end_expresslrs() {
    let table = Table::from_words(b"ExpressLRS");
    let digest = Md5::digest(b"-DMY_BINDING_PHRASE=\"ExpressLRS\"");
    let uid = widen(&digest[0..6]);
    assert_eq!(table.find(uid), Some(&b"ExpressLRS"[..]));
}

#[test]
fn duplicate_words_collapse_to_one_entry() {
    let table = Table::from_words(b"word\nword\nword");
    assert_eq!(table.len(), 1);
    assert_eq!(table.find(hash_uid(b"word")), Some(&b"word"[..]));
}

#[test]
fn trailing_carriage_returns_are_stripped() {
    let table = Table::from_words(b"word\r\nother\r");
    assert_eq!(table.len(), 2);
    assert_eq!(table.find(hash_uid(b"word")), Some(&b"word"[..]));
    assert_eq!(table.find(hash_uid(b"other")), Some(&b"other"[..]));
}

#[test]
fn absent_uid_misses() {
    let corpus = b"alpha\nbravo\ncharlie";
    let table = Table::from_words(corpus);
    let mut candidate: u64 = 0x0000_1234_5678_9abc;
    while [&b"alpha"[..], b"bravo", b"charlie"]
        .iter()
        .any(|w| hash_uid(w) == candidate)
    {
        candidate += 1;
    }
    assert_eq!(table.find(candidate), None);
}

#[test]
fn empty_phrase_survives_round_trip() {
    // An empty corpus is one empty word; its entry round-trips.
    let built = Table::from_words(b"");
    assert_eq!(built.len(), 1);
    let bytes = built.serialize().unwrap();
    assert_eq!(bytes.len(), 4 + 6 + 1);
    let parsed = Table::parse(&bytes);
    assert_eq!(parsed.len(), 1);
    assert_eq!(parsed.find(hash_uid(b"")), Some(&b""[..]));
}

#[test]
fn unsorted_input_is_detected() {
    let mut file: Vec<u8> = vec![2, 0, 0, 0];
    file.extend_from_slice(&[2, 2, 2, 2, 2, 2]);
    file.extend_from_slice(b"c\0");
    file.extend_from_slice(&[1, 1, 1, 1, 1, 1]);
    file.extend_from_slice(b"ab\0");
    let table = Table::parse(&file);
    assert_eq!(table.len(), 2);
    assert!(!table.is_sorted());
}

#[test]
fn every_corpus_word_is_found() {
    let words: [&[u8]; 8] = [
        b"alpha", b"bravo", b"charlie", b"delta", b"echo", b"foxtrot", b"golf", b"hotel",
    ];
    let corpus = words.join(&b"\n"[..]);
    let table = Table::from_words(&corpus);
    assert_eq!(table.len(), 8);
    for word in words {
        assert_eq!(table.find(hash_uid(word)), Some(word));
    }
}

#[test]
fn serialized_layout_is_exact() {
    let table = Table::from_words(b"pair");
    let bytes = table.serialize().unwrap();
    let digest = Md5::digest(b"-DMY_BINDING_PHRASE=\"pair\"");
    let mut expected: Vec<u8> = vec![1, 0, 0, 0];
    expected.extend_from_slice(&digest[0..6]);
    expected.extend_from_slice(b"pair\0");
    assert_eq!(bytes, expected);
}
