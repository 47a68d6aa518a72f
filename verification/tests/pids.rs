//! Which registry entry names count as process identifiers.

use procenv::parse::parse_pid;

#[test]
fn plain_numbers_parse() {
    assert_eq!(parse_pid(b"1"), Some(1));
    assert_eq!(parse_pid(b"123"), Some(123));
    assert_eq!(parse_pid(b"0"), Some(0));
    assert_eq!(parse_pid(b"007"), Some(7));
}

#[test]
fn non_numeric_names_are_skipped() {
    assert_eq!(parse_pid(b"self"), None);
    assert_eq!(parse_pid(b"cpuinfo"), None);
    assert_eq!(parse_pid(b"12a"), None);
    assert_eq!(parse_pid(b"a12"), None);
    assert_eq!(parse_pid(b"1 2"), None);
    assert_eq!(parse_pid(b"-1"), None);
    assert_eq!(parse_pid(b"+1"), None);
    assert_eq!(parse_pid(b""), None);
}

#[test]
fn largest_identifier_fits() {
    assert_eq!(parse_pid(b"4294967295"), Some(u32::MAX));
}

#[test]
fn too_large_identifiers_are_skipped() {
    assert_eq!(parse_pid(b"4294967296"), None);
    assert_eq!(parse_pid(b"99999999999999999999"), None);
}
