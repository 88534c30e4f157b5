use redis::store::Store;

#[test]
fn set_then_get_returns_the_value() {
    let mut store = Store::new();
    store.set("k".to_string(), b"v".to_vec(), None, 1000);
    assert_eq!(store.get(&"k".to_string(), 1000), Some(b"v".to_vec()));
}

#[test]
fn set_replaces_the_whole_entry() {
    let mut store = Store::new();
    store.set("k".to_string(), b"first".to_vec(), Some(10), 1000);
    store.set("k".to_string(), b"second".to_vec(), None, 1000);
    // the replacement dropped the expiry along with the old value
    assert_eq!(store.get(&"k".to_string(), 999_999), Some(b"second".to_vec()));
}

#[test]
fn expired_entry_is_absent_and_removed() {
    let mut store = Store::new();
    store.set("k".to_string(), b"v".to_vec(), Some(0), 1000);
    // still visible at the very instant it was written
    assert!(store.contains_key(&"k".to_string()));
    // one tick later the expiry is in the past
    assert_eq!(store.get(&"k".to_string(), 1001), None);
    // and the read evicted the key
    assert!(!store.contains_key(&"k".to_string()));
}

#[test]
fn past_expiry_behaves_like_px_zero() {
    let mut store = Store::new();
    store.set("k".to_string(), b"v".to_vec(), Some(5), 1000);
    assert_eq!(store.get(&"k".to_string(), 2000), None);
    assert!(!store.contains_key(&"k".to_string()));
}

#[test]
fn entry_lives_until_its_expiry_passes() {
    let mut store = Store::new();
    store.set("k".to_string(), b"v".to_vec(), Some(100), 1000);
    assert_eq!(store.get(&"k".to_string(), 1100), Some(b"v".to_vec()));
    assert_eq!(store.get(&"k".to_string(), 1101), None);
}

#[test]
fn get_nonexistent_is_absent_not_an_error() {
    let mut store = Store::new();
    assert_eq!(store.get(&"nonexistent".to_string(), 0), None);
}

#[test]
fn distinct_keys_do_not_disturb_each_other() {
    let mut store = Store::new();
    store.set("a".to_string(), b"1".to_vec(), None, 0);
    store.set("b".to_string(), b"2".to_vec(), None, 0);
    store.set("a".to_string(), b"3".to_vec(), None, 0);
    assert_eq!(store.get(&"a".to_string(), 0), Some(b"3".to_vec()));
    assert_eq!(store.get(&"b".to_string(), 0), Some(b"2".to_vec()));
}

#[test]
fn huge_time_to_live_saturates_instead_of_overflowing() {
    let mut store = Store::new();
    store.set("k".to_string(), b"v".to_vec(), Some(u64::MAX), 1000);
    assert_eq!(store.get(&"k".to_string(), u64::MAX), Some(b"v".to_vec()));
}
