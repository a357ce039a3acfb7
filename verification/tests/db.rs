use storethehash::db::Db;
use storethehash::inmemory::InMemory;

#[test]
fn db_put_and_get() {
    const BUCKETS_BITS: u8 = 24;
    let mut db = Db::open(InMemory::new(&[]), None, BUCKETS_BITS).unwrap();

    let key1 = vec![1, 2, 3, 4, 5, 6, 7, 8, 9, 10];
    let key2 = vec![1, 2, 3, 4, 5, 6, 9, 9, 9, 9];
    db.put(&key1, b"first").unwrap();
    db.put(&key2, b"second").unwrap();

    assert_eq!(db.get(&key1).unwrap(), Some(b"first".to_vec()));
    assert_eq!(db.get(&key2).unwrap(), Some(b"second".to_vec()));

    // a key that shares a stored prefix is still told apart by the primary
    assert_eq!(db.get(&[1, 2, 3, 4, 5, 6, 7, 0, 0, 0]).unwrap(), None);
    // a key in an empty bucket
    assert_eq!(db.get(&[9, 9, 9, 9, 1, 1, 1, 1]).unwrap(), None);
}
