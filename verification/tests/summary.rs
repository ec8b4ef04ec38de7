use llika::gtfs::{decimal_string, dedup_strings};

#[test]
fn numbers_print_in_decimal() {
    assert_eq!(decimal_string(0), "0");
    assert_eq!(decimal_string(7), "7");
    assert_eq!(decimal_string(10), "10");
    assert_eq!(decimal_string(1234567890), "1234567890");
}

#[test]
fn only_consecutive_duplicates_fold() {
    let v: Vec<String> = ["a", "a", "b", "a", "b", "b"].iter().map(|s| s.to_string()).collect();
    assert_eq!(dedup_strings(v), ["a", "b", "a", "b"]);
    assert!(dedup_strings(Vec::new()).is_empty());
}
