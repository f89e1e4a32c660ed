//! Tests of the sorter on entry lists built directly.

use sort::ast::Entry;
use sort::order::{entry_before, key_le};
use sort::sorter::sort_entries;

fn entry(key: &str, expr: usize) -> Entry {
    Entry { key: key.as_bytes().to_vec(), expr }
}

fn snapshot(entries: &[Entry]) -> Vec<(Vec<u8>, usize)> {
    entries.iter().map(|e| (e.key.clone(), e.expr)).collect()
}

#[test]
fn test_sort_orders_and_keeps_ties() {
    let entries = vec![entry("b", 0), entry("a", 1), entry("b", 2), entry("", 3)];
    let sorted = sort_entries(entries);
    let expected: Vec<(Vec<u8>, usize)> = vec![
        ("".as_bytes().to_vec(), 3),
        ("a".as_bytes().to_vec(), 1),
        ("b".as_bytes().to_vec(), 0),
        ("b".as_bytes().to_vec(), 2),
    ];
    assert_eq!(expected, snapshot(&sorted));
}

#[test]
fn test_sorting_twice_changes_nothing() {
    let entries = vec![entry("c", 0), entry("a", 1), entry("a", 2), entry("b", 3)];
    let once = sort_entries(entries);
    let first = snapshot(&once);
    let twice = sort_entries(once);
    assert_eq!(first, snapshot(&twice));
}

#[test]
fn test_key_le_is_byte_wise() {
    assert!(key_le(&"".as_bytes().to_vec(), &"a".as_bytes().to_vec()));
    assert!(key_le(&"ab".as_bytes().to_vec(), &"b".as_bytes().to_vec()));
    assert!(key_le(&"ab".as_bytes().to_vec(), &"abc".as_bytes().to_vec()));
    assert!(!key_le(&"b".as_bytes().to_vec(), &"ab".as_bytes().to_vec()));
    assert!(!key_le(&"abc".as_bytes().to_vec(), &"ab".as_bytes().to_vec()));
    assert!(key_le(&"same".as_bytes().to_vec(), &"same".as_bytes().to_vec()));
}

#[test]
fn test_entry_before_breaks_ties_by_position() {
    let early = entry("k", 1);
    let late = entry("k", 5);
    assert!(entry_before(&early, &late));
    assert!(!entry_before(&late, &early));
    assert!(entry_before(&entry("a", 9), &entry("b", 0)));
}
