use storethehash::inmemory::InMemory;
use storethehash::primary::PrimaryError;
use storethehash::primary::PrimaryStorage;

#[test]
fn lib_get() {
    let aa = (b"aa".to_vec(), vec![0x10]);
    let yy = (b"yy".to_vec(), vec![0x11]);
    let efg = (b"efg".to_vec(), vec![0x12]);
    let mut storage = InMemory::new(&[aa.clone(), yy.clone(), efg.clone()]);

    let result_aa = storage.get(0).unwrap();
    assert_eq!(result_aa, aa);
    let result_efg = storage.get(2).unwrap();
    assert_eq!(result_efg, efg);
    let result_yy = storage.get(1).unwrap();
    assert_eq!(result_yy, yy);
}

#[test]
fn lib_put() {
    let aa = (b"aa".to_vec(), vec![0x10]);
    let yy = (b"yy".to_vec(), vec![0x11]);
    let efg = (b"efg".to_vec(), vec![0x12]);
    let mut storage = InMemory::new(&[]);

    let put_aa = storage.put(&aa.0, &aa.1).unwrap();
    assert_eq!(put_aa, 0);
    let put_yy = storage.put(&yy.0, &yy.1).unwrap();
    assert_eq!(put_yy, 1);
    let put_efg = storage.put(&efg.0, &efg.1).unwrap();
    assert_eq!(put_efg, 2);

    let result_aa = storage.get(0).unwrap();
    assert_eq!(result_aa, aa);
    let result_efg = storage.get(2).unwrap();
    assert_eq!(result_efg, efg);
    let result_yy = storage.get(1).unwrap();
    assert_eq!(result_yy, yy);
}

#[test]
fn get_out_of_bounds() {
    let mut storage = InMemory::new(&[(b"aa".to_vec(), vec![0x10])]);
    assert!(matches!(storage.get(1), Err(PrimaryError::OutOfBounds)));
    assert!(matches!(
        storage.get_index_key(7),
        Err(PrimaryError::OutOfBounds)
    ));
}
