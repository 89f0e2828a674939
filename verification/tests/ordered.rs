use lsm::ordered::OrderedMap;

#[test]
fn empty_map_has_nothing() {
    let m: OrderedMap<u64> = OrderedMap::new();
    assert_eq!(m.len(), 0);
    assert_eq!(m.get(b"a"), None);
    assert_eq!(m.floor(b"a"), None);
    assert_eq!(m.position(b"a"), (0, false));
}

#[test]
fn insert_keeps_keys_in_ascending_order() {
    let mut m: OrderedMap<u64> = OrderedMap::new();
    m.insert(b"m".to_vec(), 1);
    m.insert(b"a".to_vec(), 2);
    m.insert(b"z".to_vec(), 3);
    m.insert(b"c".to_vec(), 4);
    assert_eq!(m.len(), 4);
    assert_eq!(m.key_at(0), &b"a".to_vec());
    assert_eq!(m.key_at(1), &b"c".to_vec());
    assert_eq!(m.key_at(2), &b"m".to_vec());
    assert_eq!(m.key_at(3), &b"z".to_vec());
    assert_eq!(*m.value_at(0), 2);
    assert_eq!(*m.value_at(1), 4);
    assert_eq!(*m.value_at(2), 1);
    assert_eq!(*m.value_at(3), 3);
}

#[test]
fn insert_replaces_the_value_of_a_key_that_is_there() {
    let mut m: OrderedMap<u64> = OrderedMap::new();
    m.insert(b"k".to_vec(), 1);
    m.insert(b"k".to_vec(), 2);
    assert_eq!(m.len(), 1);
    assert_eq!(m.get(b"k"), Some(&2));
}

#[test]
fn get_finds_exact_keys_only() {
    let mut m: OrderedMap<u64> = OrderedMap::new();
    m.insert(b"foo".to_vec(), 7);
    m.insert(b"foo2".to_vec(), 9);
    assert_eq!(m.get(b"foo"), Some(&7));
    assert_eq!(m.get(b"foo2"), Some(&9));
    assert_eq!(m.get(b"foo1"), None);
    assert_eq!(m.get(b"fo"), None);
    assert_eq!(m.get(b""), None);
}

#[test]
fn position_says_where_a_key_stands_or_belongs() {
    let mut m: OrderedMap<u64> = OrderedMap::new();
    m.insert(b"b".to_vec(), 0);
    m.insert(b"d".to_vec(), 0);
    m.insert(b"f".to_vec(), 0);
    assert_eq!(m.position(b"a"), (0, false));
    assert_eq!(m.position(b"b"), (0, true));
    assert_eq!(m.position(b"c"), (1, false));
    assert_eq!(m.position(b"d"), (1, true));
    assert_eq!(m.position(b"e"), (2, false));
    assert_eq!(m.position(b"f"), (2, true));
    assert_eq!(m.position(b"g"), (3, false));
}

#[test]
fn floor_is_the_greatest_key_not_after_the_target() {
    let mut m: OrderedMap<u64> = OrderedMap::new();
    m.insert(b"b".to_vec(), 10);
    m.insert(b"d".to_vec(), 20);
    m.insert(b"f".to_vec(), 30);
    assert_eq!(m.floor(b"a"), None);
    assert_eq!(m.floor(b"b"), Some((&b"b".to_vec(), &10)));
    assert_eq!(m.floor(b"c"), Some((&b"b".to_vec(), &10)));
    assert_eq!(m.floor(b"d"), Some((&b"d".to_vec(), &20)));
    assert_eq!(m.floor(b"e"), Some((&b"d".to_vec(), &20)));
    assert_eq!(m.floor(b"f"), Some((&b"f".to_vec(), &30)));
    assert_eq!(m.floor(b"zzz"), Some((&b"f".to_vec(), &30)));
}

#[test]
fn many_inserts_in_mixed_order_stay_sorted() {
    let mut m: OrderedMap<u64> = OrderedMap::new();
    let mut n: u64 = 0;
    while n < 200 {
        let k = (n * 73) % 200;
        m.insert(format!("{:03}", k).into_bytes(), k);
        n += 1;
    }
    assert_eq!(m.len(), 200);
    let mut i: usize = 0;
    while i < 200 {
        assert_eq!(m.key_at(i), &format!("{:03}", i).into_bytes());
        assert_eq!(*m.value_at(i), i as u64);
        i += 1;
    }
}
