use mini_redis::store::Store;

#[test]
fn set_then_get_returns_value() {
    let mut store = Store::new();
    assert!(!store.set("k".to_string(), b"v1".to_vec(), None, 0));
    assert_eq!(store.get("k"), Some(b"v1".to_vec()));
    store.set("k".to_string(), b"v2".to_vec(), None, 0);
    assert_eq!(store.get("k"), Some(b"v2".to_vec()));
    assert_eq!(store.get("other"), None);
}

#[test]
fn ttl_expiry_and_earliest_deadline() {
    let mut store = Store::new();
    assert!(store.set("a".to_string(), b"1".to_vec(), Some(100), 10));
    assert_eq!(store.next_expiration(), Some(110));
    assert!(!store.set("b".to_string(), b"2".to_vec(), Some(200), 10));
    assert!(store.set("c".to_string(), b"3".to_vec(), Some(5), 10));
    assert_eq!(store.next_expiration(), Some(15));
    assert_eq!(store.purge_expired_keys(14), Some(15));
    assert_eq!(store.get("c"), Some(b"3".to_vec()));
    assert_eq!(store.purge_expired_keys(110), Some(210));
    assert_eq!(store.get("c"), None);
    assert_eq!(store.get("a"), None);
    assert_eq!(store.get("b"), Some(b"2".to_vec()));
    assert_eq!(store.purge_expired_keys(u64::MAX), None);
    assert_eq!(store.get("b"), None);
}

#[test]
fn zero_ttl_expires_on_next_purge() {
    let mut store = Store::new();
    store.set("z".to_string(), b"v".to_vec(), Some(0), 50);
    assert_eq!(store.get("z"), Some(b"v".to_vec()));
    assert_eq!(store.purge_expired_keys(50), None);
    assert_eq!(store.get("z"), None);
}

#[test]
fn overwrite_drops_old_deadline() {
    let mut store = Store::new();
    store.set("k".to_string(), b"old".to_vec(), Some(10), 0);
    store.set("k".to_string(), b"new".to_vec(), None, 0);
    assert_eq!(store.next_expiration(), None);
    assert_eq!(store.purge_expired_keys(1000), None);
    assert_eq!(store.get("k"), Some(b"new".to_vec()));
}

#[test]
fn deadline_saturates() {
    let mut store = Store::new();
    store.set("k".to_string(), b"v".to_vec(), Some(u64::MAX), 5);
    assert_eq!(store.next_expiration(), Some(u64::MAX));
}

#[test]
fn del_counts_removed_keys() {
    let mut store = Store::new();
    store.set("k".to_string(), b"v".to_vec(), Some(10), 0);
    assert_eq!(store.del("k"), 1);
    assert_eq!(store.get("k"), None);
    assert_eq!(store.next_expiration(), None);
    assert_eq!(store.del("k"), 0);
}

#[test]
fn shutdown_stops_purging() {
    let mut store = Store::new();
    store.set("k".to_string(), b"v".to_vec(), Some(1), 0);
    assert!(!store.is_shutdown());
    store.set_shutdown(true);
    assert!(store.is_shutdown());
    assert_eq!(store.purge_expired_keys(100), None);
    assert_eq!(store.get("k"), Some(b"v".to_vec()));
    assert!(store.can_write());
}

#[test]
fn publish_reaches_subscribers() {
    let mut store = Store::new();
    assert_eq!(store.publish("hello", b"x".to_vec()), 0);
    let mut rx1 = store.subscribe("hello".to_string());
    assert_eq!(store.publish("hello", b"world".to_vec()), 1);
    let mut rx2 = store.subscribe("hello".to_string());
    assert_eq!(store.publish("hello", b"jazzy".to_vec()), 2);
    assert_eq!(rx1.try_recv().unwrap(), b"world".to_vec());
    assert_eq!(rx1.try_recv().unwrap(), b"jazzy".to_vec());
    assert_eq!(rx2.try_recv().unwrap(), b"jazzy".to_vec());
    assert_eq!(store.publish("foo", b"bar".to_vec()), 0);
    drop(rx1);
    drop(rx2);
    assert_eq!(store.publish("hello", b"gone".to_vec()), 0);
}

#[test]
fn publish_count_from_send_outcome() {
    assert_eq!(mini_redis::store::receivers_reported(Some(3)), 3);
    assert_eq!(mini_redis::store::receivers_reported(None), 0);
}
