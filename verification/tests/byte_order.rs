//! Tests for the byte-string comparisons that fix the drop-in yield order.

use uapi_config::bytes::{bytes_eq, ends_with_bytes, lex_lt_bytes};

#[test]
fn lexicographic_order_on_bytes() {
    assert!(lex_lt_bytes(&b"a".to_vec(), &b"b".to_vec()));
    assert!(!lex_lt_bytes(&b"b".to_vec(), &b"a".to_vec()));
    assert!(lex_lt_bytes(&b"a".to_vec(), &b"ab".to_vec()));
    assert!(!lex_lt_bytes(&b"ab".to_vec(), &b"a".to_vec()));
    assert!(!lex_lt_bytes(&b"abc".to_vec(), &b"abc".to_vec()));
    assert!(lex_lt_bytes(&b"".to_vec(), &b"a".to_vec()));
    assert!(!lex_lt_bytes(&b"".to_vec(), &b"".to_vec()));
    assert!(lex_lt_bytes(&b"10-x".to_vec(), &b"9-x".to_vec()));
}

#[test]
fn suffix_match_is_exact() {
    assert!(ends_with_bytes(&b"a.conf".to_vec(), &b".conf".to_vec()));
    assert!(ends_with_bytes(&b".conf".to_vec(), &b".conf".to_vec()));
    assert!(ends_with_bytes(&b"a.conf".to_vec(), &b"".to_vec()));
    assert!(!ends_with_bytes(&b"a.CONF".to_vec(), &b".conf".to_vec()));
    assert!(!ends_with_bytes(&b"conf".to_vec(), &b".conf".to_vec()));
    assert!(!ends_with_bytes(&b"a.conf.bak".to_vec(), &b".conf".to_vec()));
}

#[test]
fn byte_equality() {
    assert!(bytes_eq(&b"abc".to_vec(), &b"abc".to_vec()));
    assert!(!bytes_eq(&b"abc".to_vec(), &b"abd".to_vec()));
    assert!(!bytes_eq(&b"abc".to_vec(), &b"ab".to_vec()));
    assert!(bytes_eq(&b"".to_vec(), &b"".to_vec()));
}
