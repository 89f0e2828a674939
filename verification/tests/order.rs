use lsm::order::{compare_keys, KeyOrder};

#[test]
fn equal_keys_compare_equal() {
    assert_eq!(compare_keys(b"foo", b"foo"), KeyOrder::Equal);
    assert_eq!(compare_keys(b"", b""), KeyOrder::Equal);
}

#[test]
fn first_differing_byte_decides() {
    assert_eq!(compare_keys(b"abc", b"abd"), KeyOrder::Less);
    assert_eq!(compare_keys(b"abd", b"abc"), KeyOrder::Greater);
    assert_eq!(compare_keys(b"b", b"abc"), KeyOrder::Greater);
}

#[test]
fn a_proper_prefix_comes_first() {
    assert_eq!(compare_keys(b"foo", b"foo1"), KeyOrder::Less);
    assert_eq!(compare_keys(b"foo1", b"foo"), KeyOrder::Greater);
    assert_eq!(compare_keys(b"", b"a"), KeyOrder::Less);
}

#[test]
fn bytes_compare_unsigned() {
    assert_eq!(compare_keys(&[0x7f], &[0x80]), KeyOrder::Less);
    assert_eq!(compare_keys(&[0xff], &[0x00, 0xff]), KeyOrder::Greater);
}

#[test]
fn order_agrees_with_the_order_of_byte_vectors() {
    let keys: Vec<&[u8]> = vec![b"", b"a", b"ab", b"b", b"foo1", b"foo10", b"foo2", &[0xff]];
    for a in keys.iter() {
        for b in keys.iter() {
            let expected = if a < b {
                KeyOrder::Less
            } else if a == b {
                KeyOrder::Equal
            } else {
                KeyOrder::Greater
            };
            assert_eq!(compare_keys(a, b), expected);
        }
    }
}
