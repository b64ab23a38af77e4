use rhizome::errors::StorageError;
use rhizome::store::Storage;

#[test]
fn put_get_round_trip_until_expiry() {
    let mut store = Storage::new(1024);
    let key = b"hello".to_vec();
    assert!(store.put(key.clone(), b"world".to_vec(), 60, 100).is_ok());
    // Visible through the whole lifetime, including the expiry second.
    assert_eq!(store.get(&key, 100), Some(b"world".to_vec()));
    assert_eq!(store.get(&key, 159), Some(b"world".to_vec()));
    assert_eq!(store.get(&key, 160), Some(b"world".to_vec()));
    // One second past the expiry the record reads as absent and is gone.
    assert_eq!(store.get(&key, 161), None);
    assert_eq!(store.get(&key, 100), None);
}

#[test]
fn put_overwrites_value_and_expiry() {
    let mut store = Storage::new(1024);
    let key = b"k".to_vec();
    store.put(key.clone(), b"one".to_vec(), 10, 0).unwrap();
    store.put(key.clone(), b"two".to_vec(), 100, 5).unwrap();
    assert_eq!(store.get(&key, 50), Some(b"two".to_vec()));
}

#[test]
fn storage_full_leaves_store_unchanged() {
    let mut store = Storage::new(8);
    let key = b"a".to_vec();
    assert!(store.put(key.clone(), b"12345678".to_vec(), 10, 0).is_ok());
    let err = store.put(b"b".to_vec(), b"9".to_vec(), 10, 0);
    assert_eq!(err, Err(StorageError::StorageFull));
    assert_eq!(store.get(&key, 1), Some(b"12345678".to_vec()));
    assert_eq!(store.get(&b"b".to_vec(), 1), None);
    // Replacing the big value with a smaller one frees budget.
    assert!(store.put(key.clone(), b"1".to_vec(), 10, 0).is_ok());
    assert!(store.put(b"b".to_vec(), b"9".to_vec(), 10, 0).is_ok());
}

#[test]
fn delete_is_idempotent() {
    let mut store = Storage::new(64);
    let key = b"gone".to_vec();
    store.put(key.clone(), b"v".to_vec(), 10, 0).unwrap();
    store.delete(&key);
    assert_eq!(store.get(&key, 1), None);
    store.delete(&key);
    assert_eq!(store.get(&key, 1), None);
}

#[test]
fn extend_ttl_follows_the_formula() {
    let mut store = Storage::new(64);
    let key = b"k".to_vec();
    // Expires at 100.
    store.put(key.clone(), b"v".to_vec(), 100, 0).unwrap();
    // At time 40 the remaining life is 60; a factor of one (1000
    // thousandths) doubles it: the new expiry is 40 + 120 = 160.
    assert!(store.extend_ttl(&key, 1000, 40));
    assert_eq!(store.get(&key, 160), Some(b"v".to_vec()));
    assert_eq!(store.get(&key, 161), None);
}

#[test]
fn extend_ttl_reports_whether_the_key_existed() {
    let mut store = Storage::new(64);
    assert!(!store.extend_ttl(&b"missing".to_vec(), 1000, 5));
    store.put(b"here".to_vec(), b"v".to_vec(), 10, 0).unwrap();
    assert!(store.extend_ttl(&b"here".to_vec(), 500, 2));
}

#[test]
fn extension_never_revives_an_expired_record() {
    let mut store = Storage::new(64);
    let key = b"k".to_vec();
    store.put(key.clone(), b"v".to_vec(), 10, 0).unwrap();
    // Already past expiry at time 50: the extension changes nothing.
    assert!(store.extend_ttl(&key, 1000, 50));
    assert_eq!(store.get(&key, 50), None);
}

#[test]
fn cleanup_removes_expired_and_is_idempotent() {
    let mut store = Storage::new(256);
    store.put(b"a".to_vec(), b"1".to_vec(), 10, 0).unwrap();
    store.put(b"b".to_vec(), b"2".to_vec(), 50, 0).unwrap();
    store.put(b"c".to_vec(), b"3".to_vec(), 90, 0).unwrap();
    let removed = store.cleanup_expired(60);
    assert_eq!(removed, 2);
    let removed_again = store.cleanup_expired(60);
    assert_eq!(removed_again, 0);
    assert_eq!(store.get(&b"c".to_vec(), 60), Some(b"3".to_vec()));
}

#[test]
fn lookup_reads_without_sweeping() {
    let mut store = Storage::new(64);
    store.put(b"k".to_vec(), b"v".to_vec(), 10, 0).unwrap();
    assert_eq!(store.lookup(&b"k".to_vec(), 5), Some(b"v".to_vec()));
    // Past the expiry a lookup reads absent but leaves the record for the
    // sweep, unlike a get.
    assert_eq!(store.lookup(&b"k".to_vec(), 11), None);
    assert_eq!(store.cleanup_expired(11), 1);
}

#[test]
fn has_space_tracks_the_budget() {
    let mut store = Storage::new(10);
    assert!(store.has_space(10));
    store.put(b"k".to_vec(), b"123456".to_vec(), 10, 0).unwrap();
    assert!(store.has_space(4));
    assert!(!store.has_space(5));
}
