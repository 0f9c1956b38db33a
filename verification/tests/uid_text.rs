//! Tests for the comma-separated decimal UID text form.

use elrs_uid_lookup::parse_uid;

fn widen(b: [u8; 6]) -> u64 {
    ((b[0] as u64) << 40)
        | ((b[1] as u64) << 32)
        | ((b[2] as u64) << 24)
        | ((b[3] as u64) << 16)
        | ((b[4] as u64) << 8)
        | (b[5] as u64)
}

#[test]
fn parses_six_decimal_octets() {
    assert_eq!(
        parse_uid("65,245,33,230,58,226"),
        Some(widen([65, 245, 33, 230, 58, 226]))
    );
}

#[test]
fn parses_zeros_and_max() {
    assert_eq!(parse_uid("0,0,0,0,0,0"), Some(0));
    assert_eq!(
        parse_uid("255,255,255,255,255,255"),
        Some(0x0000_ffff_ffff_ffff)
    );
}

#[test]
fn rejects_wrong_count() {
    assert_eq!(parse_uid("1,2,3"), None);
    assert_eq!(parse_uid("1,2,3,4,5,6,7"), None);
    assert_eq!(parse_uid(""), None);
}

#[test]
fn rejects_out_of_range() {
    assert_eq!(parse_uid("1,2,3,4,5,300"), None);
    assert_eq!(parse_uid("256,0,0,0,0,0"), None);
}

#[test]
fn rejects_non_numeric() {
    assert_eq!(parse_uid("a,b,c,d,e,f"), None);
    assert_eq!(parse_uid("1,2,3,4,5,x"), None);
    assert_eq!(parse_uid("1, 2,3,4,5,6"), None);
    assert_eq!(parse_uid("-1,2,3,4,5,6"), None);
}

#[test]
fn rejects_empty_token() {
    assert_eq!(parse_uid("1,,3,4,5,6"), None);
    assert_eq!(parse_uid("1,2,3,4,5,"), None);
}

#[test]
fn accepts_leading_plus_and_zeros() {
    assert_eq!(parse_uid("+65,245,33,230,58,226"), Some(widen([65, 245, 33, 230, 58, 226])));
    assert_eq!(parse_uid("007,0,0,0,0,0255"), Some(widen([7, 0, 0, 0, 0, 255])));
    assert_eq!(parse_uid("+,2,3,4,5,6"), None);
    assert_eq!(parse_uid("++1,2,3,4,5,6"), None);
}
