use kvstore::store::Store;

#[test]
fn empty_store_has_nothing() {
    let s = Store::new();
    assert_eq!(s.get(&"a".to_string()), None);
}

#[test]
fn set_then_get() {
    let mut s = Store::new();
    s.set("a".to_string(), vec![1, 2]);
    s.set("b".to_string(), vec![]);
    assert_eq!(s.get(&"a".to_string()), Some(vec![1, 2]));
    assert_eq!(s.get(&"b".to_string()), Some(vec![]));
    assert_eq!(s.get(&"c".to_string()), None);
}

#[test]
fn two_sets_of_one_key_keep_the_last_whole() {
    let mut s = Store::new();
    s.set("k".to_string(), b"first value".to_vec());
    s.set("k".to_string(), b"v2".to_vec());
    assert_eq!(s.get(&"k".to_string()), Some(b"v2".to_vec()));
    let mut t = Store::new();
    t.set("k".to_string(), b"v2".to_vec());
    t.set("k".to_string(), b"first value".to_vec());
    assert_eq!(t.get(&"k".to_string()), Some(b"first value".to_vec()));
}
