use redis_lite::store::Keyspace;

#[test]
fn set_then_get_returns_the_value() {
    let mut ks = Keyspace::new();
    ks.set(b"k".to_vec(), b"v".to_vec(), None, 0);
    assert_eq!(ks.get(b"k", 1_000_000), Some(b"v".to_vec()));
    assert_eq!(ks.get(b"other", 0), None);
}

#[test]
fn value_expires_after_ttl() {
    let mut ks = Keyspace::new();
    ks.set(b"k".to_vec(), b"v".to_vec(), Some(50), 100);
    assert_eq!(ks.get(b"k", 149), Some(b"v".to_vec()));
    assert_eq!(ks.get(b"k", 150), None);
    // a second read stays absent, even at an earlier clock reading
    assert_eq!(ks.get(b"k", 120), None);
}

#[test]
fn overwrite_without_px_clears_ttl() {
    let mut ks = Keyspace::new();
    ks.set(b"k".to_vec(), b"v1".to_vec(), Some(10), 0);
    ks.set(b"k".to_vec(), b"v2".to_vec(), None, 5);
    assert_eq!(ks.get(b"k", 15), Some(b"v2".to_vec()));
    assert_eq!(ks.get(b"k", 10_000), Some(b"v2".to_vec()));
}

#[test]
fn overwrite_restarts_ttl_from_new_write() {
    let mut ks = Keyspace::new();
    ks.set(b"k".to_vec(), b"v1".to_vec(), Some(10), 0);
    ks.set(b"k".to_vec(), b"v2".to_vec(), Some(10), 8);
    assert_eq!(ks.get(b"k", 12), Some(b"v2".to_vec()));
    assert_eq!(ks.get(b"k", 18), None);
}

#[test]
fn last_of_competing_writes_wins() {
    let mut ks = Keyspace::new();
    let values: Vec<Vec<u8>> = (0..8u8).map(|i| vec![i; 100]).collect();
    for v in &values {
        ks.set(b"k".to_vec(), v.clone(), None, 0);
    }
    let got = ks.get(b"k", 0).unwrap();
    assert!(values.contains(&got));
    assert_eq!(got, values[7]);
}

#[test]
fn expiry_removes_only_its_key() {
    let mut ks = Keyspace::new();
    ks.set(b"a".to_vec(), b"1".to_vec(), Some(1), 0);
    ks.set(b"b".to_vec(), b"2".to_vec(), None, 0);
    ks.set(b"c".to_vec(), b"3".to_vec(), None, 0);
    assert_eq!(ks.get(b"a", 5), None);
    assert_eq!(ks.get(b"b", 5), Some(b"2".to_vec()));
    assert_eq!(ks.get(b"c", 5), Some(b"3".to_vec()));
}
