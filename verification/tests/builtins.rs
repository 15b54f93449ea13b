use bson_dissector::bridge::identifier_from_script;
use bson_dissector::builtins::{hash_text, new_object_id, sea_hash};
use bson_dissector::text::{decimal_string, hex_of, hex_string, parse_signed};

#[test]
fn sea_hash_is_hex_of_seahash() {
    for input in ["", "a", "hello world", "ünïcödé", "0123456789abcdef0123456789abcdef0123"] {
        assert_eq!(sea_hash(input), format!("{:x}", seahash::hash(input.as_bytes())));
    }
    assert_ne!(sea_hash("a"), "a");
}

#[test]
fn sea_hash_is_deterministic() {
    assert_eq!(sea_hash("bucket-17"), sea_hash("bucket-17"));
    assert_ne!(sea_hash("bucket-17"), sea_hash("bucket-18"));
}

#[test]
fn hash_text_has_no_leading_zeros() {
    assert_eq!(hash_text(0), "0");
    assert_eq!(hash_text(0xabc), "abc");
    assert_eq!(hash_text(u64::MAX), "ffffffffffffffff");
    assert_eq!(hash_text(0x0123_4567_89ab_cdef), "123456789abcdef");
}

#[test]
fn fresh_identifiers_differ() {
    let mut seen = Vec::new();
    for _ in 0..200 {
        let id = identifier_from_script(&new_object_id()).unwrap();
        assert!(!seen.contains(&id));
        seen.push(id);
    }
}

#[test]
fn decimal_text_of_integers() {
    assert_eq!(decimal_string(0), "0");
    assert_eq!(decimal_string(7), "7");
    assert_eq!(decimal_string(-7), "-7");
    assert_eq!(decimal_string(1234567890), "1234567890");
    assert_eq!(decimal_string(i64::MAX), "9223372036854775807");
    assert_eq!(decimal_string(i64::MIN), "-9223372036854775808");
}

#[test]
fn hex_text_of_numbers_and_bytes() {
    assert_eq!(hex_string(255), "ff");
    assert_eq!(hex_string(4096), "1000");
    assert_eq!(hex_of(&[]), "");
    assert_eq!(hex_of(&[0x00, 0x0f, 0xa0, 0xff]), "000fa0ff");
}

#[test]
fn signed_decimal_text_is_read_back() {
    for i in [0i64, 7, -7, 1234567890, i64::MAX, i64::MIN, (1 << 53) + 1] {
        assert_eq!(parse_signed(&decimal_string(i)), Some(i));
    }
    assert_eq!(parse_signed("9223372036854775808"), None);
    assert_eq!(parse_signed("-9223372036854775809"), None);
    assert_eq!(parse_signed("-9223372036854775808"), Some(i64::MIN));
    assert_eq!(parse_signed(""), None);
    assert_eq!(parse_signed("-"), None);
    assert_eq!(parse_signed("+5"), None);
    assert_eq!(parse_signed("1.0"), None);
    assert_eq!(parse_signed("-007"), Some(-7));
    assert_eq!(parse_signed("99999999999999999999999999"), None);
}
