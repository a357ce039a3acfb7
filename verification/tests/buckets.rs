use storethehash::buckets::Buckets;
use storethehash::error::Error;

#[test]
fn new_buckets() {
    const BUCKETS_BITS: u8 = 24;
    let buckets = Buckets::new(BUCKETS_BITS);
    assert_eq!(buckets.len(), 1 << BUCKETS_BITS);
}

#[test]
fn buckets_put() {
    const BUCKETS_BITS: u8 = 3;
    let mut buckets = Buckets::new(BUCKETS_BITS);
    buckets.put(3, 54321).unwrap();
    assert!(matches!(buckets.get(3), Ok(54321)));
}

#[test]
fn put_error() {
    const BUCKETS_BITS: u8 = 3;
    let mut buckets = Buckets::new(BUCKETS_BITS);
    let error = buckets.put(333, 54321);
    assert!(matches!(error, Err(Error::BucketsOutOfBounds)))
}

#[test]
fn buckets_get() {
    const BUCKETS_BITS: u8 = 3;
    let mut buckets = Buckets::new(BUCKETS_BITS);
    let result_empty = buckets.get(3);
    assert!(matches!(result_empty, Ok(0)));

    buckets.put(3, 54321).unwrap();
    let result = buckets.get(3);
    assert!(matches!(result, Ok(54321)));
}

#[test]
fn get_error() {
    const BUCKETS_BITS: u8 = 3;
    let buckets = Buckets::new(BUCKETS_BITS);
    let error = buckets.get(333);
    assert!(matches!(error, Err(Error::BucketsOutOfBounds)))
}
