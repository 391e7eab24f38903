use highres::buckets::BucketIndex;
use highres::clock::get_sys_ms;

#[test]
fn keys_grouped_and_expired_in_order() {
    let mut b = BucketIndex::new();
    b.add(10, "k1");
    b.add(0, "k0");
    b.add(10, "k2");
    b.add(10, "k1");
    assert_eq!(b.len(), 3);
    assert!(b.contains("k2"));
    let expired = b.expire(10);
    // Bucket 10 was opened first, so nothing before it expires.
    assert!(expired.is_empty());
    let expired = b.expire(11);
    assert_eq!(expired, vec!["k1".to_string(), "k2".to_string(), "k0".to_string()]);
    assert_eq!(b.len(), 0);
}

#[test]
fn taking_a_bucket_keeps_keys() {
    let mut b = BucketIndex::new();
    b.add(5, "a");
    b.add(5, "b");
    assert_eq!(b.take_bucket(5), Some(vec!["a".to_string(), "b".to_string()]));
    assert_eq!(b.take_bucket(5), None);
    assert!(b.contains("a"));
    b.remove_key("a");
    assert!(!b.contains("a"));
    assert_eq!(b.len(), 1);
}

#[test]
fn clock_reads_after_epoch() {
    let ms = get_sys_ms().expect("the clock reads a time after the epoch");
    assert!(ms > 1_600_000_000_000);
}
