use note::text::{contains, decimal, starts_with};
use note::text_map::TextMap;

#[test]
fn decimal_numerals() {
    assert_eq!(decimal(0), "0");
    assert_eq!(decimal(7), "7");
    assert_eq!(decimal(10), "10");
    assert_eq!(decimal(10000), "10000");
    assert_eq!(decimal(1234567890), "1234567890");
    assert_eq!(decimal(usize::MAX), usize::MAX.to_string());
}

#[test]
fn substring_and_prefix_search() {
    assert!(contains("hello world", "lo wo"));
    assert!(contains("hello", "hello"));
    assert!(contains("hello", ""));
    assert!(contains("", ""));
    assert!(!contains("", "a"));
    assert!(!contains("hello", "hello!"));
    assert!(!contains("hello", "Hello"));
    assert!(contains("aab", "ab"));
    assert!(contains("héllo wörld", "o wö"));
    assert!(starts_with("hello", "he"));
    assert!(starts_with("hello", ""));
    assert!(starts_with("hello", "hello"));
    assert!(!starts_with("hello", "hello!"));
    assert!(!starts_with("hello", "el"));
}

#[test]
fn text_map_behaves_like_a_map() {
    let mut map: TextMap<u64> = TextMap::new();
    assert!(map.is_empty());
    assert_eq!(map.insert("a".to_string(), 1), None);
    assert_eq!(map.insert("b".to_string(), 2), None);
    assert_eq!(map.insert("a".to_string(), 3), Some(1));
    assert_eq!(map.len(), 2);
    assert!(!map.is_empty());
    assert_eq!(map.get("a"), Some(&3));
    assert_eq!(map.get("b"), Some(&2));
    assert_eq!(map.get("c"), None);
    assert!(map.contains_key("b"));
    assert_eq!(map.key_at(0), "a");
    assert_eq!(map.value_at(0), &3);
    assert_eq!(map.key_at(1), "b");
    assert_eq!(map.remove("a"), Some(3));
    assert_eq!(map.remove("a"), None);
    assert_eq!(map.len(), 1);
    assert_eq!(map.key_at(0), "b");
    assert!(!map.contains_key("a"));
}

#[test]
fn a_clock_reading_that_does_not_fit_is_the_latest_time() {
    assert_eq!(note::utils::clock::instant_of(Some(5)), 5);
    assert_eq!(note::utils::clock::instant_of(Some(-1)), -1);
    assert_eq!(note::utils::clock::instant_of(None), i64::MAX);
    // the time of this run fits, and lies after the year 2020
    assert!(note::utils::clock::now() > 1_577_836_800_000_000_000);
    assert!(note::utils::clock::now() < i64::MAX);
}
