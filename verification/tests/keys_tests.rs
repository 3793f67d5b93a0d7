use defradb::{clone_bytes, compare_keys, BadgerError, KeyOrder};

#[test]
fn compares_bytewise_lexicographically() {
    assert_eq!(compare_keys(&b"a".to_vec(), &b"b".to_vec()), KeyOrder::Less);
    assert_eq!(compare_keys(&b"b".to_vec(), &b"a".to_vec()), KeyOrder::Greater);
    assert_eq!(compare_keys(&b"ab".to_vec(), &b"ab".to_vec()), KeyOrder::Equal);
}

#[test]
fn prefix_sorts_before_extension() {
    assert_eq!(compare_keys(&b"a".to_vec(), &b"ab".to_vec()), KeyOrder::Less);
    assert_eq!(compare_keys(&b"ab".to_vec(), &b"a".to_vec()), KeyOrder::Greater);
}

#[test]
fn empty_key_sorts_first() {
    assert_eq!(compare_keys(&b"".to_vec(), &b"a".to_vec()), KeyOrder::Less);
    assert_eq!(compare_keys(&b"".to_vec(), &b"".to_vec()), KeyOrder::Equal);
}

#[test]
fn byte_values_compare_unsigned() {
    assert_eq!(compare_keys(&vec![0x7f], &vec![0x80]), KeyOrder::Less);
    assert_eq!(compare_keys(&vec![0xff], &vec![0x00]), KeyOrder::Greater);
}

#[test]
fn clone_bytes_copies_exactly() {
    let v = vec![1u8, 2, 3, 255];
    assert_eq!(clone_bytes(&v), v);
    assert_eq!(clone_bytes(&Vec::new()), Vec::<u8>::new());
}

#[test]
fn badger_error_carries_order_type() {
    let e = BadgerError::InvalidOrderType("sideways".to_string());
    assert_eq!(e, BadgerError::InvalidOrderType("sideways".to_string()));
}
