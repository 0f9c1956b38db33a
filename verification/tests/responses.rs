//! Tests for the textual UID query front-end mapping.

use elrs_uid_lookup::{respond_uid, Table, UidResponse};
use md5::{Digest, Md5};

fn widen(b: &[u8]) -> u64 {
    ((b[0] as u64) << 40)
        | ((b[1] as u64) << 32)
        | ((b[2] as u64) << 24)
        | ((b[3] as u64) << 16)
        | ((b[4] as u64) << 8)
        | (b[5] as u64)
}

fn uid_text(b: &[u8]) -> String {
    format!("{},{},{},{},{},{}", b[0], b[1], b[2], b[3], b[4], b[5])
}

#[test]
fn malformed_uid_is_reported() {
    let table = Table::parse(&[0, 0, 0, 0]);
    assert!(matches!(
        respond_uid(&table, "not,a,uid"),
        UidResponse::MalformedUid
    ));
    assert!(matches!(respond_uid(&table, "1,2,3"), UidResponse::MalformedUid));
}

#[test]
fn missing_uid_is_reported() {
    let table = Table::parse(&[0, 0, 0, 0]);
    assert!(matches!(
        respond_uid(&table, "65,245,33,230,58,226"),
        UidResponse::NotFound
    ));
}

#[test]
fn found_phrase_is_returned_as_text() {
    let table = Table::from_words(b"ExpressLRS");
    let digest = Md5::digest(b"-DMY_BINDING_PHRASE=\"ExpressLRS\"");
    let text = uid_text(&digest[0..6]);
    match respond_uid(&table, &text) {
        UidResponse::Found(phrase) => assert_eq!(phrase, "ExpressLRS"),
        _ => panic!("expected the phrase"),
    }
}

#[test]
fn invalid_text_is_a_server_error() {
    // A stored phrase that is not valid UTF-8 signals corruption, not absence.
    let mut file: Vec<u8> = vec![1, 0, 0, 0];
    file.extend_from_slice(&[9, 9, 9, 9, 9, 9]);
    file.extend_from_slice(&[0xff, 0xfe, 0x00]);
    let table = Table::parse(&file);
    assert!(table.is_sorted());
    let text = uid_text(&[9, 9, 9, 9, 9, 9]);
    assert_eq!(table.find(widen(&[9, 9, 9, 9, 9, 9])), Some(&[0xff, 0xfe][..]));
    assert!(matches!(respond_uid(&table, &text), UidResponse::ServerError));
}
