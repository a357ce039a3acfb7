use storethehash::carblock::read_block;
use storethehash::carblock::read_data;
use storethehash::primary::PrimaryError;

#[test]
fn read_data_single_byte_length() {
    let bytes = [0x03, 9, 8, 7, 42, 42];
    let (data, total) = read_data(&bytes).unwrap();
    assert_eq!(data, vec![9, 8, 7]);
    assert_eq!(total, 4);
}

#[test]
fn read_data_two_byte_length() {
    // 0x80 0x01 is the two-byte varint for 128; the buffer holds fewer
    // bytes, so the data ends at the buffer's end while the total still
    // counts the announced length
    let bytes = [0x80, 0x01, 1, 2, 3];
    let (data, total) = read_data(&bytes).unwrap();
    assert_eq!(data, vec![1, 2, 3]);
    assert_eq!(total, 130);
}

#[test]
fn read_data_unterminated_varint() {
    let bytes = [0x80];
    let r = read_data(&bytes);
    assert!(matches!(r, Err(PrimaryError::Io)));
}

#[test]
fn read_data_oversized_varint() {
    // eleven continuation bytes overflow a u64 varint
    let bytes = [0xff, 0xff, 0xff, 0xff, 0xff, 0xff, 0xff, 0xff, 0xff, 0x80, 0x80, 0x00];
    let r = read_data(&bytes);
    assert!(matches!(r, Err(PrimaryError::Other)));
}

#[test]
fn read_block_splits_cid_and_data() {
    // version 1, codec 0x55, multihash code 0x12, multihash size 3, a
    // 3-byte digest, then the stored data
    let block = [1, 0x55, 0x12, 3, 9, 9, 9, 7, 7];
    let (cid, data) = read_block(&block).unwrap();
    assert_eq!(cid, vec![1, 0x55, 0x12, 3, 9, 9, 9]);
    assert_eq!(data, vec![7, 7]);
}

#[test]
fn read_block_digest_past_end() {
    // the multihash size points past the end of the block
    let block = [1, 0x55, 0x12, 9, 1, 2];
    let r = read_block(&block);
    assert!(r.is_err());
}
