use storethehash::error::Error;
use storethehash::index::first_non_common_byte;
use storethehash::index::read_header;
use storethehash::index::Index;
use storethehash::index::IndexIter;
use storethehash::index::INDEX_VERSION;
use storethehash::index::SIZE_PREFIX_SIZE;
use storethehash::inmemory::InMemory;
use storethehash::recordlist::RecordList;

#[test]
fn test_first_non_common_byte() {
    assert_eq!(first_non_common_byte(&[0], &[1]), 0);
    assert_eq!(first_non_common_byte(&[0], &[0]), 1);
    assert_eq!(first_non_common_byte(&[0, 1, 2, 3], &[0]), 1);
    assert_eq!(first_non_common_byte(&[0], &[0, 1, 2, 3]), 1);
    assert_eq!(first_non_common_byte(&[0, 1, 2], &[0, 1, 2, 3]), 3);
    assert_eq!(first_non_common_byte(&[0, 1, 2, 3], &[0, 1, 2]), 3);
    assert_eq!(first_non_common_byte(&[3, 2, 1, 0], &[0, 1, 2]), 0);
    assert_eq!(first_non_common_byte(&[0, 1, 1, 0], &[0, 1, 2]), 2);
    assert_eq!(
        first_non_common_byte(&[180, 9, 113, 0], &[180, 0, 113, 0]),
        1
    );
}

/// A primary whose stored pairs are the given keys with empty values, so
/// that position `i` answers with key `i`.
fn keys_only(keys: &[Vec<u8>]) -> InMemory {
    let pairs: Vec<(Vec<u8>, Vec<u8>)> = keys.iter().map(|k| (k.clone(), Vec::new())).collect();
    InMemory::new(&pairs)
}

fn assert_header(index_data: &[u8], buckets_bits: u8) {
    let header_size_bytes: [u8; 4] = index_data[0..4].try_into().unwrap();
    let header_size = u32::from_le_bytes(header_size_bytes);

    assert_eq!(header_size, 2);
    let header_data = &index_data[index_data.len() - header_size as usize..];
    let header = storethehash::index::Header::from_bytes(header_data);
    assert_eq!(header.version, INDEX_VERSION);
    assert_eq!(header.buckets_bits, buckets_bits);
}

// Asserts that given two keys, on the first insert the key is trimmed to a
// single byte and on the second insert both are trimmed to the minimal
// distinguishable prefix
fn assert_common_prefix_trimmed(key1: Vec<u8>, key2: Vec<u8>, expected_key_length: usize) {
    const BUCKETS_BITS: u8 = 24;
    let primary_storage = keys_only(&[key1.clone(), key2.clone()]);
    let mut index = Index::open(None, primary_storage, BUCKETS_BITS).unwrap();
    index.put(&key1, 0).unwrap();
    index.put(&key2, 1).unwrap();

    // Skip header
    let log = index.log_bytes().clone();
    let (_header, bytes_read) = read_header(&log).unwrap();

    // The record list is append only, hence the first record list only
    // contains the first insert
    let mut iter = IndexIter::new(log.clone(), SIZE_PREFIX_SIZE + bytes_read);
    {
        let (data, _pos) = iter.next().unwrap().unwrap();
        let recordlist = RecordList::new(&data);
        let mut keys: Vec<usize> = Vec::new();
        let mut records_iter = recordlist.into_iter();
        while let Some(record) = records_iter.next() {
            keys.push(record.key.len());
        }
        assert_eq!(keys, [1], "Single key has the expected length of 1");
    }

    // The second block contains both keys
    {
        let (data, _pos) = iter.next().unwrap().unwrap();
        let recordlist = RecordList::new(&data);
        let mut keys: Vec<usize> = Vec::new();
        let mut records_iter = recordlist.into_iter();
        while let Some(record) = records_iter.next() {
            keys.push(record.key.len());
        }
        assert_eq!(
            keys,
            [expected_key_length, expected_key_length],
            "All keys are trimmed to their minimal distinguishable prefix"
        );
    }
}

// This test is about making sure that inserts into an empty bucket result in
// a key that is trimmed to a single byte.
#[test]
fn index_put_single_key() {
    const BUCKETS_BITS: u8 = 8;
    let primary_storage = keys_only(&[]);
    let mut index = Index::open(None, primary_storage, BUCKETS_BITS).unwrap();
    index.put(&[1, 2, 3, 4, 5, 6, 7, 8, 9, 10], 222).unwrap();

    // Skip header
    let log = index.log_bytes().clone();
    let (_header, bytes_read) = read_header(&log).unwrap();

    let (data, _pos) = IndexIter::new(log, SIZE_PREFIX_SIZE + bytes_read)
        .next()
        .unwrap()
        .unwrap();
    let recordlist = RecordList::new(&data);
    let record = recordlist.into_iter().next().unwrap();
    assert_eq!(
        record.key.len(),
        1,
        "Key is trimmed to one byteas it's the only key in the record list"
    );
}

// This test is about making sure that a new key that doesn't share any prefix
// with other keys within the same bucket is trimmed to a single byte.
#[test]
fn index_put_distinct_key() {
    const BUCKETS_BITS: u8 = 24;
    let primary_storage = keys_only(&[]);
    let mut index = Index::open(None, primary_storage, BUCKETS_BITS).unwrap();
    index.put(&[1, 2, 3, 4, 5, 6, 7, 8, 9, 10], 222).unwrap();
    index.put(&[1, 2, 3, 55, 5, 6, 7, 8, 9, 10], 333).unwrap();

    // Skip header
    let log = index.log_bytes().clone();
    let (_header, bytes_read) = read_header(&log).unwrap();

    let mut iter = IndexIter::new(log, SIZE_PREFIX_SIZE + bytes_read);
    let mut last = None;
    while let Some(entry) = iter.next() {
        last = Some(entry.unwrap());
    }
    let (data, _pos) = last.unwrap();
    let recordlist = RecordList::new(&data);
    let mut keys: Vec<Vec<u8>> = Vec::new();
    let mut records_iter = recordlist.into_iter();
    while let Some(record) = records_iter.next() {
        keys.push(record.key.clone());
    }
    assert_eq!(keys, [[4], [55]], "All keys are trimmed to a single byte");
}

// This test is about making sure that a key is trimmed correctly if it shares
// a prefix with the previous key
#[test]
fn index_put_prev_key_common_prefix() {
    let key1 = vec![1, 2, 3, 4, 5, 6, 7, 8, 9, 10];
    let key2 = vec![1, 2, 3, 4, 5, 6, 9, 9, 9, 9];
    assert_common_prefix_trimmed(key1, key2, 4);
}

// This test is about making sure that a key is trimmed correctly if it shares
// a prefix with the next key
#[test]
fn index_put_next_key_common_prefix() {
    let key1 = vec![1, 2, 3, 4, 5, 6, 9, 9, 9, 9];
    let key2 = vec![1, 2, 3, 4, 5, 6, 7, 8, 9, 10];
    assert_common_prefix_trimmed(key1, key2, 4);
}

// This test is about making sure that a key is trimmed correctly if it shares
// a prefix with the previous and the next key, where the common prefix with
// the next key is longer.
#[test]
fn index_put_prev_and_next_key_common_prefix() {
    let key1 = vec![1, 2, 3, 4, 5, 6, 9, 9, 9, 9];
    let key2 = vec![1, 2, 3, 4, 5, 6, 7, 8, 9, 10];
    let key3 = vec![1, 2, 3, 4, 5, 6, 9, 8, 8, 8];

    const BUCKETS_BITS: u8 = 24;
    let primary_storage = keys_only(&[key1.clone(), key2.clone(), key3.clone()]);
    let mut index = Index::open(None, primary_storage, BUCKETS_BITS).unwrap();
    index.put(&key1, 0).unwrap();
    index.put(&key2, 1).unwrap();
    index.put(&key3, 1).unwrap();

    // Skip header
    let log = index.log_bytes().clone();
    let (_header, bytes_read) = read_header(&log).unwrap();

    let mut iter = IndexIter::new(log, SIZE_PREFIX_SIZE + bytes_read);
    let mut last = None;
    while let Some(entry) = iter.next() {
        last = Some(entry.unwrap());
    }
    let (data, _pos) = last.unwrap();
    let recordlist = RecordList::new(&data);
    let mut keys: Vec<Vec<u8>> = Vec::new();
    let mut records_iter = recordlist.into_iter();
    while let Some(record) = records_iter.next() {
        keys.push(record.key.clone());
    }
    assert_eq!(
        keys,
        [vec![4, 5, 6, 7], vec![4, 5, 6, 9, 8], vec![4, 5, 6, 9, 9]],
        "Keys are correctly sorted and trimmed"
    );
}

#[test]
fn index_get_empty_index() {
    let key = vec![1, 2, 3, 4, 5, 6, 9, 9, 9, 9];
    const BUCKETS_BITS: u8 = 24;
    let primary_storage = keys_only(&[]);
    let index = Index::open(None, primary_storage, BUCKETS_BITS).unwrap();
    let file_offset = index.get(&key).unwrap();
    assert_eq!(file_offset, None, "Key was not found");
}

#[test]
fn index_get() {
    let key1 = vec![1, 2, 3, 4, 5, 6, 9, 9, 9, 9];
    let key2 = vec![1, 2, 3, 4, 5, 6, 7, 8, 9, 10];
    let key3 = vec![1, 2, 3, 4, 5, 6, 9, 8, 8, 8];

    const BUCKETS_BITS: u8 = 24;
    let primary_storage = keys_only(&[key1.clone(), key2.clone(), key3.clone()]);
    let mut index = Index::open(None, primary_storage, BUCKETS_BITS).unwrap();
    index.put(&key1, 0).unwrap();
    index.put(&key2, 1).unwrap();
    index.put(&key3, 2).unwrap();

    let first_key_file_offset = index.get(&key1).unwrap();
    assert_eq!(first_key_file_offset, Some(0));

    let second_key_file_offset = index.get(&key2).unwrap();
    assert_eq!(second_key_file_offset, Some(1));

    let third_key_file_offset = index.get(&key3).unwrap();
    assert_eq!(third_key_file_offset, Some(2));

    // It still hits a bucket where there are keys, but that key doesn't exist.
    let not_found_in_bucket = index.get(&[1, 2, 3, 4, 5, 9]).unwrap();
    assert_eq!(not_found_in_bucket, None);

    // A key that matches some prefixes but is shorter than the prefixes.
    let shorter_than_prefixes = index.get(&[1, 2, 3, 4, 5]).unwrap();
    assert_eq!(shorter_than_prefixes, None);
}

#[test]
fn index_header() {
    const BUCKETS_BITS: u8 = 24;
    let log;

    {
        let primary_storage = keys_only(&[]);
        let index = Index::open(None, primary_storage, BUCKETS_BITS).unwrap();
        assert_header(index.log_bytes(), BUCKETS_BITS);
        log = index.log_bytes().clone();
    }

    // Check that the header doesn't change if the index is opened again.
    {
        let index = Index::open(Some(log), keys_only(&[]), BUCKETS_BITS).unwrap();
        assert_header(index.log_bytes(), BUCKETS_BITS);
        assert_eq!(index.log_bytes().len(), 6, "Opening writes no further bytes");
    }
}

// A lookup may answer with the offset of a key that merely shares the stored
// prefix; the caller disambiguates against the primary.
#[test]
fn index_get_false_positive_prefix() {
    let key1 = vec![1, 2, 3, 4, 5, 6, 9, 9, 9, 9];
    let key2 = vec![1, 2, 3, 4, 5, 6, 7, 8, 9, 10];
    let key3 = vec![1, 2, 3, 4, 5, 6, 9, 8, 8, 8];

    const BUCKETS_BITS: u8 = 24;
    let primary_storage = keys_only(&[key1.clone(), key2.clone(), key3.clone()]);
    let mut index = Index::open(None, primary_storage, BUCKETS_BITS).unwrap();
    index.put(&key1, 0).unwrap();
    index.put(&key2, 1).unwrap();
    index.put(&key3, 2).unwrap();

    // No stored prefix is compatible with this key.
    assert_eq!(index.get(&[1, 2, 3, 4, 5, 9]).unwrap(), None);
    // This key only shares the stored prefix of key2, so key2's offset comes
    // back although the key was never inserted.
    assert_eq!(index.get(&[1, 2, 3, 4, 5, 6, 7, 0, 0, 0]).unwrap(), Some(1));
}

// Reopening a cleanly written log yields the same answers for all keys that
// were inserted before.
#[test]
fn index_reopen_same_answers() {
    let key1 = vec![1, 2, 3, 4, 5, 6, 9, 9, 9, 9];
    let key2 = vec![1, 2, 3, 4, 5, 6, 7, 8, 9, 10];
    let key3 = vec![9, 9, 9, 9, 5, 6, 7, 8, 9, 10];

    const BUCKETS_BITS: u8 = 24;
    let mut index = Index::open(
        None,
        keys_only(&[key1.clone(), key2.clone(), key3.clone()]),
        BUCKETS_BITS,
    )
    .unwrap();
    index.put(&key1, 0).unwrap();
    index.put(&key2, 1).unwrap();
    index.put(&key3, 2).unwrap();

    let log = index.log_bytes().clone();
    let reopened = Index::open(
        Some(log),
        keys_only(&[key1.clone(), key2.clone(), key3.clone()]),
        BUCKETS_BITS,
    )
    .unwrap();

    assert_eq!(reopened.get(&key1).unwrap(), index.get(&key1).unwrap());
    assert_eq!(reopened.get(&key2).unwrap(), index.get(&key2).unwrap());
    assert_eq!(reopened.get(&key3).unwrap(), index.get(&key3).unwrap());
    assert_eq!(index.get(&key1).unwrap(), Some(0));
    assert_eq!(index.get(&key2).unwrap(), Some(1));
    assert_eq!(index.get(&key3).unwrap(), Some(2));
}

// Truncating the log to any byte length at or past the header still opens;
// a partial trailing block is abandoned.
#[test]
fn index_truncated_log_reopens() {
    let key1 = vec![1, 2, 3, 4, 5, 6, 9, 9, 9, 9];
    let key2 = vec![1, 2, 3, 4, 5, 6, 7, 8, 9, 10];

    const BUCKETS_BITS: u8 = 24;
    let mut index = Index::open(
        None,
        keys_only(&[key1.clone(), key2.clone()]),
        BUCKETS_BITS,
    )
    .unwrap();
    index.put(&key1, 0).unwrap();
    index.put(&key2, 1).unwrap();

    let log = index.log_bytes().clone();
    for n in 6..=log.len() {
        let cut = log[..n].to_vec();
        let reopened = Index::open(Some(cut), keys_only(&[]), BUCKETS_BITS).unwrap();
        // whatever survived is a prefix of the full log
        assert!(reopened.log_bytes().len() <= n);
    }
}

#[test]
fn index_open_wrong_bit_size() {
    const BUCKETS_BITS: u8 = 24;
    let index = Index::open(None, keys_only(&[]), BUCKETS_BITS).unwrap();
    let log = index.log_bytes().clone();
    let reopened = Index::open(Some(log), keys_only(&[]), 16);
    assert!(matches!(
        reopened,
        Err(Error::IndexWrongBitSize(24, 16))
    ));
}

#[test]
fn index_open_short_header() {
    let reopened = Index::open(Some(vec![1, 2, 3]), keys_only(&[]), 24);
    assert!(matches!(reopened, Err(Error::Io)));
}

#[test]
fn index_open_corrupt_block() {
    // a valid header followed by a complete block whose size field is too
    // small to hold even the bucket number
    let log = vec![2, 0, 0, 0, 2, 24, 3, 0, 0, 0, 1, 2, 3];
    let reopened = Index::open(Some(log), keys_only(&[]), 24);
    assert!(matches!(reopened, Err(Error::IndexCorrupt)));
}

#[test]
fn read_size_prefix_reads_first_four_bytes() {
    let data = [0x2a, 0x00, 0x00, 0x00, 9, 9];
    assert_eq!(storethehash::index::read_size_prefix(&data).unwrap(), 42);
    assert!(matches!(
        storethehash::index::read_size_prefix(&[1, 2]),
        Err(Error::Io)
    ));
}

// Putting a key that is already stored under trimming is a no-op: the call
// succeeds and appends nothing.
#[test]
fn index_put_duplicate_key_is_noop() {
    let key = vec![1, 2, 3, 4, 5, 6, 7, 8, 9, 10];
    const BUCKETS_BITS: u8 = 24;
    let mut index = Index::open(None, keys_only(&[key.clone()]), BUCKETS_BITS).unwrap();
    index.put(&key, 0).unwrap();
    let len_before = index.log_bytes().len();
    index.put(&key, 5).unwrap();
    assert_eq!(index.log_bytes().len(), len_before, "Nothing was appended");
    assert_eq!(index.get(&key).unwrap(), Some(0), "The old record still answers");
}
