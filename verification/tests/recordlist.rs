use storethehash::recordlist::encode_offset_and_key;
use storethehash::recordlist::Record;
use storethehash::recordlist::RecordList;
use storethehash::recordlist::FILE_OFFSET_BYTES;
use storethehash::recordlist::KEY_SIZE_BYTE;

#[test]
fn test_encode_offset_and_key() {
    let key = b"abcdefg";
    let offset = 4326;
    let encoded = encode_offset_and_key(&key[..], offset);
    assert_eq!(
        encoded,
        [0xe6, 0x10, 0x00, 0x00, 0x00, 0x00, 0x00, 0x00, 0x07, 0x61, 0x62, 0x63, 0x64, 0x65, 0x66,
            0x67]
    );
}

#[test]
fn record_list_iterator() {
    // Create records
    let keys: Vec<String> = (0..20).map(|ii| format!("key-{:02}", ii)).collect();
    let expected: Vec<Record> = keys
        .iter()
        .enumerate()
        .map(|(ii, key)| Record {
            pos: ii * 15,
            key: key.as_bytes().to_vec(),
            file_offset: ii as u64,
        })
        .collect();

    // Encode them into a record list
    let mut data = Vec::new();
    for record in &expected {
        let encoded = encode_offset_and_key(&record.key, record.file_offset);
        data.extend_from_slice(&encoded);
    }

    // The record list has the bits that were used to determine the bucket as prefix
    let prefixed_data = &[&[0, 0, 0, 0], &data[..]].concat();
    // Verify that it can be correctly iterated over those encoded records
    let records = RecordList::new(prefixed_data);
    let mut records_iter = records.into_iter();
    for record in &expected {
        assert_eq!(&records_iter.next().unwrap(), record);
    }
}

fn test_records() -> RecordList {
    let keys: Vec<&str> = vec!["a", "ac", "b", "d", "de", "dn", "nky", "xrlfg"];
    let mut data = Vec::new();
    for (ii, key) in keys.iter().enumerate() {
        let encoded = encode_offset_and_key(key.as_bytes(), ii as u64);
        data.extend_from_slice(&encoded);
    }
    // The record list has the bits that were used to determine the bucket as prefix
    let prefixed_data = &[&[0, 0, 0, 0], &data[..]].concat();
    RecordList::new(prefixed_data)
}

#[test]
fn record_list_find_key_position() {
    let records = test_records();

    // First key
    let (pos, prev_record) = records.find_key_position(b"ABCD");
    assert_eq!(pos, 0);
    assert_eq!(prev_record, None);

    // Between two keys with same prefix, but first one being shorter
    let (pos, prev_record) = records.find_key_position(b"ab");
    assert_eq!(pos, 10);
    assert_eq!(prev_record.unwrap().key, b"a");

    // Between two keys with both having a different prefix
    let (pos, prev_record) = records.find_key_position(b"c");
    assert_eq!(pos, 31);
    assert_eq!(prev_record.unwrap().key, b"b");

    // Between two keys with both having a different prefix and the input key
    // having a different length
    let (pos, prev_record) = records.find_key_position(b"cabefg");
    assert_eq!(pos, 31);
    assert_eq!(prev_record.unwrap().key, b"b");

    // Between two keys with both having a different prefix (with one
    // character in common), all keys having the same length
    let (pos, prev_record) = records.find_key_position(b"dg");
    assert_eq!(pos, 52);
    assert_eq!(prev_record.unwrap().key, b"de");

    // Between two keys with both having a different prefix, no character in
    // common and different length (shorter than the input key)
    let (pos, prev_record) = records.find_key_position(b"hello");
    assert_eq!(pos, 63);
    assert_eq!(prev_record.unwrap().key, b"dn");

    // Between two keys with both having a different prefix, no character in
    // common and different length (longer than the input key)
    let (pos, prev_record) = records.find_key_position(b"pz");
    assert_eq!(pos, 75);
    assert_eq!(prev_record.unwrap().key, b"nky");

    // Last key
    let (pos, prev_record) = records.find_key_position(b"z");
    assert_eq!(pos, 89);
    assert_eq!(prev_record.unwrap().key, b"xrlfg");
}

// Validate that the new key was properly added
fn assert_add_key(records: &RecordList, key: &[u8]) {
    let (pos, _prev_record) = records.find_key_position(key);
    let new_data = records.put_keys(&vec![(key.to_vec(), 773)], pos, pos);
    // The record list has the bits that were used to determine the bucket as prefix
    let prefixed_new_data = &[&[0, 0, 0, 0], &new_data[..]].concat();
    let new_records = RecordList::new(prefixed_new_data);
    let (inserted_pos, inserted_record) = new_records.find_key_position(key);
    assert_eq!(
        inserted_pos,
        pos + FILE_OFFSET_BYTES + KEY_SIZE_BYTE + key.len()
    );
    assert_eq!(inserted_record.unwrap().key, key);
}

#[test]
fn record_list_add_key_without_replacing() {
    let records = test_records();

    // First key
    assert_add_key(&records, b"ABCD");

    // Between two keys with same prefix, but first one being shorter
    assert_add_key(&records, b"ab");

    // Between two keys with both having a different prefix
    assert_add_key(&records, b"c");

    // Between two keys with both having a different prefix and the input key
    // having a different length
    assert_add_key(&records, b"cabefg");

    // Between two keys with both having a different prefix (with one
    // character in common), all keys having the same length
    assert_add_key(&records, b"dg");

    // Between two keys with both having a different prefix, no character in
    // common and different length (shorter than the input key)
    assert_add_key(&records, b"hello");

    // Between two keys with both having a different prefix, no character in
    // common and different length (longer than the input key)
    assert_add_key(&records, b"pz");

    // Last key
    assert_add_key(&records, b"z");
}

// Validate that the previous key was properly replaced and the new key added.
fn assert_add_key_and_replace_prev(records: &RecordList, key: &[u8], new_prev_key: &[u8]) {
    let (pos, prev_record) = records.find_key_position(key);
    let prev_record = prev_record.unwrap();

    let keys = vec![
        (new_prev_key.to_vec(), prev_record.file_offset),
        (key.to_vec(), 770),
    ];
    let new_data = records.put_keys(&keys, prev_record.pos, pos);
    // The record list has the bits that were used to determine the bucket as prefix
    let prefixed_new_data = &[&[0, 0, 0, 0], &new_data[..]].concat();
    let new_records = RecordList::new(prefixed_new_data);

    // Find the newly added prev_key
    let (inserted_prev_key_pos, inserted_prev_record) =
        new_records.find_key_position(new_prev_key);
    let inserted_prev_record = inserted_prev_record.unwrap();
    assert_eq!(inserted_prev_record.pos, prev_record.pos);
    assert_eq!(inserted_prev_record.key, new_prev_key);

    // Find the newly added key
    let (inserted_pos, inserted_record) = new_records.find_key_position(key);
    assert_eq!(
        inserted_pos,
        // The prev key is longer, hence use its position instead of the original one
        inserted_prev_key_pos + FILE_OFFSET_BYTES + KEY_SIZE_BYTE + key.len()
    );
    assert_eq!(inserted_record.unwrap().key, key);
}

// If a new key is added and it fully contains the previous key, then the
// previous key needs to be updated as well. This is what these tests are about.
#[test]
fn record_list_add_key_and_replace_prev() {
    let records = test_records();

    // Between two keys with same prefix, but first one being shorter
    assert_add_key_and_replace_prev(&records, b"ab", b"aa");

    // Between two keys with same prefix, but first one being shorter. Replacing
    // the previous key which is more than one character longer than the
    // existing one.
    assert_add_key_and_replace_prev(&records, b"ab", b"aaaa");

    // Between two keys with both having a different prefix
    assert_add_key_and_replace_prev(&records, b"c", b"bx");

    // Between two keys with both having a different prefix and the input key
    // having a different length
    assert_add_key_and_replace_prev(&records, b"cabefg", b"bbccdd");

    // Between two keys with both having a different prefix (with one character
    // in common), extending the prev key with an additional character to be
    // distinguishable from the new key
    assert_add_key_and_replace_prev(&records, b"deq", b"dej");

    // Last key
    assert_add_key_and_replace_prev(&records, b"xrlfgu", b"xrlfgs");
}

#[test]
fn record_list_get_key() {
    let keys: Vec<&str> = vec!["a", "ac", "b", "de", "dn", "nky", "xrlfg"];
    let mut data = Vec::new();
    for (ii, key) in keys.iter().enumerate() {
        let encoded = encode_offset_and_key(key.as_bytes(), ii as u64);
        data.extend_from_slice(&encoded);
    }
    // The record list has the bits that were used to determine the bucket as prefix
    let prefixed_data = &[&[0, 0, 0, 0], &data[..]].concat();
    let records = RecordList::new(prefixed_data);

    // First key
    let file_offset = records.get(b"a").unwrap();
    assert_eq!(file_offset, 0);

    // Key with same prefix, but it's the second one
    let file_offset = records.get(b"ac").unwrap();
    assert_eq!(file_offset, 1);

    // Key with same length as two other keys, sharing a prefix
    let file_offset = records.get(b"de").unwrap();
    assert_eq!(file_offset, 3);

    // Key that is sharing a prefix, but is longer
    let file_offset = records.get(b"dngho").unwrap();
    assert_eq!(file_offset, 4);

    // Key that is the last one
    let file_offset = records.get(b"xrlfg").unwrap();
    assert_eq!(file_offset, 6);

    // Key that is shorter than the inserted ones cannot match
    let file_offset = records.get(b"d");
    assert_eq!(file_offset, None);

    // Key that is before all keys
    let file_offset = records.get(b"ABCD");
    assert_eq!(file_offset, None);

    // Key that is after all keys
    let file_offset = records.get(b"zzzzz");
    assert_eq!(file_offset, None);

    // Key that matches a prefix of some keys, but doesn't match fully
    let file_offset = records.get(b"dg");
    assert_eq!(file_offset, None);
}

#[test]
fn read_bucket_prefix_reads_first_four_bytes() {
    let data = [0x39, 0x30, 0x00, 0x00, 1, 2, 3];
    assert_eq!(
        storethehash::recordlist::read_bucket_prefix(&data).unwrap(),
        12345
    );
    let short = [1, 2, 3];
    assert!(storethehash::recordlist::read_bucket_prefix(&short).is_err());
}
