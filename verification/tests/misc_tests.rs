use raftcache::error::CoreError;
use raftcache::keys::{compare_keys, KeyOrder};
use raftcache::text::decimal_string;

#[test]
fn decimal_string_writes_digits() {
    assert_eq!(decimal_string(0), "0");
    assert_eq!(decimal_string(7), "7");
    assert_eq!(decimal_string(10), "10");
    assert_eq!(decimal_string(1234567890), "1234567890");
    assert_eq!(decimal_string(u64::MAX), "18446744073709551615");
}

#[test]
fn compare_keys_orders_bytes() {
    assert_eq!(compare_keys("a", "b"), KeyOrder::Before);
    assert_eq!(compare_keys("b", "a"), KeyOrder::After);
    assert_eq!(compare_keys("ab", "ab"), KeyOrder::Same);
    assert_eq!(compare_keys("ab", "abc"), KeyOrder::Before);
    assert_eq!(compare_keys("", "a"), KeyOrder::Before);
    assert_eq!(compare_keys("Z", "a"), KeyOrder::Before);
}

#[test]
fn core_error_message() {
    let e = CoreError::Log("gap at 3".to_string());
    assert_eq!(e.message(), "log inconsistency: gap at 3");
}
