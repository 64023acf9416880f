use svinge::chain_id::{decode_chain_id, u64_to_decimal};
use svinge::errors::is_success_status;

#[test]
fn decodes_small_hex_chain_ids() {
    assert_eq!(decode_chain_id("0x5"), Some(5));
    assert_eq!(decode_chain_id("0x1"), Some(1));
    assert_eq!(decode_chain_id("0xff"), Some(255));
    assert_eq!(decode_chain_id("0x539"), Some(1337));
}

#[test]
fn decodes_uppercase_hex() {
    assert_eq!(decode_chain_id("0xFF"), Some(255));
    assert_eq!(decode_chain_id("0xA"), Some(10));
}

#[test]
fn rejects_malformed_chain_ids() {
    assert_eq!(decode_chain_id(""), None);
    assert_eq!(decode_chain_id("0x"), None);
    assert_eq!(decode_chain_id("5"), None);
    assert_eq!(decode_chain_id("x5"), None);
    assert_eq!(decode_chain_id("0xzz"), None);
    assert_eq!(decode_chain_id("0x5g"), None);
}

#[test]
fn decodes_the_largest_value_and_rejects_overflow() {
    assert_eq!(decode_chain_id("0xffffffffffffffff"), Some(u64::MAX));
    assert_eq!(decode_chain_id("0x10000000000000000"), None);
    assert_eq!(decode_chain_id("0xffffffffffffffffff"), None);
}

#[test]
fn leading_zeros_are_part_of_the_value_not_the_text() {
    assert_eq!(decode_chain_id("0x05"), Some(5));
    assert_eq!(decode_chain_id("0x0000000000000000000005"), Some(5));
}

#[test]
fn renders_decimal_strings() {
    assert_eq!(u64_to_decimal(0), "0");
    assert_eq!(u64_to_decimal(5), "5");
    assert_eq!(u64_to_decimal(10), "10");
    assert_eq!(u64_to_decimal(12345), "12345");
    assert_eq!(u64_to_decimal(u64::MAX), "18446744073709551615");
}

#[test]
fn only_success_class_statuses_count() {
    assert!(is_success_status(200));
    assert!(is_success_status(201));
    assert!(is_success_status(202));
    assert!(!is_success_status(199));
    assert!(!is_success_status(204));
    assert!(!is_success_status(404));
    assert!(!is_success_status(500));
}
