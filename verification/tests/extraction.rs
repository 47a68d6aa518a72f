//! Extraction behaviour on synthetic environment blocks.

use procenv::extract::classify;
use procenv::extract::get_envval;
use procenv::extract::make_prefix;
use procenv::outcome::EnvVal;

fn block(entries: &[&[u8]]) -> Vec<u8> {
    let mut b: Vec<u8> = Vec::new();
    for (i, e) in entries.iter().enumerate() {
        if i > 0 {
            b.push(0);
        }
        b.extend_from_slice(e);
    }
    b
}

#[test]
fn make_prefix_appends_equals() {
    assert_eq!(make_prefix(b"FOO"), b"FOO=".to_vec());
    assert_eq!(make_prefix(b""), b"=".to_vec());
}

#[test]
fn value_found() {
    let b = block(&[b"FOO=bar", b"BAZ=qux"]);
    let prefix = make_prefix(b"FOO");
    assert_eq!(get_envval(&b, &prefix), Some("bar".to_string()));
    assert_eq!(classify(Some(b), &prefix), EnvVal::Value("bar".to_string()));
}

#[test]
fn value_absent() {
    let b = block(&[b"FOO=bar", b"BAZ=qux"]);
    let prefix = make_prefix(b"MISSING");
    assert_eq!(get_envval(&b, &prefix), None);
    assert_eq!(classify(Some(b), &prefix), EnvVal::Nothing);
}

#[test]
fn read_failure_is_fail() {
    let prefix = make_prefix(b"FOO");
    assert_eq!(classify(None, &prefix), EnvVal::Fail);
}

#[test]
fn prefix_must_match_whole_name() {
    let b = block(&[b"FOOBAR=1", b"FOO=2"]);
    let prefix = make_prefix(b"FOO");
    assert_eq!(get_envval(&b, &prefix), Some("2".to_string()));
}

#[test]
fn first_matching_entry_wins() {
    let b = block(&[b"FOO=1", b"FOO=2"]);
    let prefix = make_prefix(b"FOO");
    assert_eq!(get_envval(&b, &prefix), Some("1".to_string()));
}

#[test]
fn value_may_contain_equals() {
    let b = block(&[b"FOO=a=b"]);
    let prefix = make_prefix(b"FOO");
    assert_eq!(get_envval(&b, &prefix), Some("a=b".to_string()));
}

#[test]
fn value_may_be_empty() {
    let b = block(&[b"FOO=", b"BAR=1"]);
    let prefix = make_prefix(b"FOO");
    assert_eq!(get_envval(&b, &prefix), Some(String::new()));
}

#[test]
fn empty_block_has_nothing() {
    let prefix = make_prefix(b"FOO");
    assert_eq!(get_envval(&[], &prefix), None);
    assert_eq!(classify(Some(Vec::new()), &prefix), EnvVal::Nothing);
}

#[test]
fn invalid_bytes_are_replaced_not_fatal() {
    let mut entry = b"FOO=".to_vec();
    entry.push(0xFF);
    entry.extend_from_slice(b"bar");
    let b = block(&[&entry, b"BAZ=qux"]);
    let prefix = make_prefix(b"FOO");
    let got = classify(Some(b), &prefix);
    assert_eq!(got, EnvVal::Value("\u{FFFD}bar".to_string()));
    assert!(matches!(got, EnvVal::Value(_)));
}

#[test]
fn extraction_is_deterministic() {
    let b = block(&[b"A=1", b"FOO=bar", b"B=2"]);
    let prefix = make_prefix(b"FOO");
    let first = classify(Some(b.clone()), &prefix);
    let second = classify(Some(b), &prefix);
    assert_eq!(first, second);
}
