use std::cmp::Ordering;
use kondo::order::{compare_bytes, SizedPath};
use kondo::report::push_decimal;

fn sp(size: u64, path: &str) -> SizedPath {
    SizedPath { size, path: path.to_string() }
}

#[test]
fn larger_size_comes_first() {
    assert_eq!(sp(2, "a").cmp(&sp(1, "b")), Ordering::Less);
    assert_eq!(sp(1, "a").cmp(&sp(2, "a")), Ordering::Greater);
}

#[test]
fn equal_sizes_by_path() {
    assert_eq!(sp(5, "a").cmp(&sp(5, "b")), Ordering::Less);
    assert_eq!(sp(5, "b").cmp(&sp(5, "a")), Ordering::Greater);
    assert_eq!(sp(5, "Z").cmp(&sp(5, "a")), Ordering::Less);
    assert_eq!(sp(5, "a").cmp(&sp(5, "a")), Ordering::Equal);
}

#[test]
fn byte_comparison() {
    assert_eq!(compare_bytes(b"", b""), Ordering::Equal);
    assert_eq!(compare_bytes(b"", b"a"), Ordering::Less);
    assert_eq!(compare_bytes(b"ab", b"a"), Ordering::Greater);
    assert_eq!(compare_bytes(b"abc", b"abd"), Ordering::Less);
    assert_eq!(compare_bytes(b"b", b"abc"), Ordering::Greater);
}

#[test]
fn decimal_digits() {
    let mut out = b"x".to_vec();
    push_decimal(&mut out, 0);
    assert_eq!(out, b"x0".to_vec());
    let mut out = Vec::new();
    push_decimal(&mut out, 1_234_567_890);
    assert_eq!(out, b"1234567890".to_vec());
}
