//! The append-only log of record lists and the engine around it.
//!
//! The log starts with a 4-byte little-endian header length and the header
//! itself, followed by blocks: each block is a 4-byte little-endian size, a
//! 4-byte little-endian bucket number, and the record-list body. The bucket
//! number is redundant with the one the engine would compute from a key, but
//! it lets the in-memory bucket table be rebuilt from the log alone.
//!
//! The engine here works on an in-memory mirror of the log; whoever owns the
//! actual file reads it once at open and appends whatever `put` appends.

use vstd::bytes::lemma_auto_spec_u32_to_from_le_bytes;
use vstd::bytes::spec_u32_from_le_bytes;
use vstd::bytes::spec_u32_to_le_bytes;
use vstd::bytes::u32_from_le_bytes;
use vstd::bytes::u32_to_le_bytes;
use vstd::prelude::*;
use vstd::slice::slice_subrange;
use vstd::slice::slice_to_vec;

use crate::buckets::Buckets;
use crate::error::Error;
use crate::primary::PrimaryStorage;
use crate::recordlist::RecordList;
use crate::recordlist::byte_pos;
use crate::recordlist::encode_offset_and_key;
use crate::recordlist::encode_recs;
use crate::recordlist::lemma_byte_pos_full;
use crate::recordlist::lemma_byte_pos_mono;
use crate::recordlist::lemma_encode_parse_recs;
use crate::recordlist::lemma_encode_rec;
use crate::recordlist::lemma_encode_recs_concat;
use crate::recordlist::lemma_parse_encode_recs;
use crate::recordlist::lemma_parse_suffix;
use crate::recordlist::parse_recs;
use crate::recordlist::lemma_record_at;
use crate::recordlist::find_idx;
use crate::recordlist::is_key_prefix;
use crate::recordlist::keys_view;
use crate::recordlist::lex_lt;
use crate::recordlist::rl_get_spec;
use crate::recordlist::rl_records;
use crate::recordlist::rl_sorted;
use crate::recordlist::rl_wf;
use crate::recordlist::starts_with;
use crate::recordlist::bytes_lt;

verus! {

/// The version written into fresh headers.
pub const INDEX_VERSION: u8 = 2;

/// Number of bytes used for the size prefix of a record-list block.
pub const SIZE_PREFIX_SIZE: usize = 4;

/// The header of the index: a version byte and the bucket bit size the log
/// was created with.
#[derive(Debug, Clone, Copy, PartialEq, Eq, Structural)]
pub struct Header {
    /// A version number in case the header changes.
    pub version: u8,
    /// The number of bits used to determine the in-memory buckets.
    pub buckets_bits: u8,
}

impl Header {
    /// A fresh header for the given bucket bit size.
    pub fn new(buckets_bits: u8) -> (r: Self)
        ensures
            r.version == INDEX_VERSION,
            r.buckets_bits == buckets_bits,
    {
        Self { version: INDEX_VERSION, buckets_bits }
    }

    /// The two serialized header bytes.
    pub fn to_bytes(&self) -> (r: Vec<u8>)
        ensures
            r@ == seq![self.version, self.buckets_bits],
    {
        let mut v: Vec<u8> = Vec::new();
        v.push(self.version);
        v.push(self.buckets_bits);
        proof {
            assert(v@ =~= seq![self.version, self.buckets_bits]);
        }
        v
    }

    /// Read a header back from its serialized bytes.
    pub fn from_bytes(bytes: &[u8]) -> (r: Self)
        requires
            bytes@.len() >= 2,
        ensures
            r.version == bytes@[0],
            r.buckets_bits == bytes@[1],
    {
        Self { version: bytes[0], buckets_bits: bytes[1] }
    }
}

/// Remove the prefix that is used for the bucket.
///
/// The first bits of a key determine its bucket; only the bytes fully
/// covered by those bits are removed. A bit size of 19 removes 2 bytes,
/// 24 removes 3.
pub open spec fn spec_index_key(key: Seq<u8>, bits: u8) -> Seq<u8> {
    key.skip((bits / 8) as int)
}

/// See [`spec_index_key`].
pub fn strip_bucket_prefix<'a>(key: &'a [u8], bits: u8) -> (r: &'a [u8])
    requires
        key@.len() >= bits / 8,
    ensures
        r@ == spec_index_key(key@, bits),
{
    let skip = (bits / 8) as usize;
    let r = slice_subrange(key, skip, key.len());
    proof {
        assert(r@ =~= spec_index_key(key@, bits));
    }
    r
}

/// The bucket a key falls into: its first 4 bytes as a little-endian
/// integer, masked to the low `bits` bits.
pub open spec fn spec_bucket_of(key: Seq<u8>, bits: u8) -> int {
    (spec_u32_from_le_bytes(key.subrange(0, 4)) & (((1u32 << bits) - 1) as u32)) as int
}

/// The index of the first byte the two slices do not have in common; the
/// length of the shorter one when one is a prefix of the other.
pub open spec fn fnc_spec(a: Seq<u8>, b: Seq<u8>) -> int
    decreases a.len(),
{
    if a.len() == 0 || b.len() == 0 {
        0
    } else if a[0] != b[0] {
        0
    } else {
        1 + fnc_spec(a.drop_first(), b.drop_first())
    }
}

pub proof fn lemma_fnc(a: Seq<u8>, b: Seq<u8>)
    ensures
        0 <= fnc_spec(a, b),
        fnc_spec(a, b) <= a.len(),
        fnc_spec(a, b) <= b.len(),
        forall|j: int| 0 <= j < fnc_spec(a, b) ==> a[j] == b[j],
        fnc_spec(a, b) < a.len() && fnc_spec(a, b) < b.len() ==> a[fnc_spec(a, b)] != b[fnc_spec(
            a,
            b,
        )],
    decreases a.len(),
{
    if a.len() == 0 || b.len() == 0 {
    } else if a[0] != b[0] {
    } else {
        lemma_fnc(a.drop_first(), b.drop_first());
        assert forall|j: int| 0 <= j < fnc_spec(a, b) implies a[j] == b[j] by {
            if j > 0 {
                assert(a.drop_first()[j - 1] == a[j]);
                assert(b.drop_first()[j - 1] == b[j]);
            }
        }
        let f = fnc_spec(a, b);
        if f < a.len() && f < b.len() {
            assert(a.drop_first()[f - 1] == a[f]);
            assert(b.drop_first()[f - 1] == b[f]);
        }
    }
}

/// Returns the position of the first byte the two slices do not have in
/// common. When one is a prefix of the other it returns the length of the
/// shorter one.
pub fn first_non_common_byte(aa: &[u8], bb: &[u8]) -> (r: usize)
    ensures
        r == fnc_spec(aa@, bb@),
{
    let smaller_length = if aa.len() < bb.len() {
        aa.len()
    } else {
        bb.len()
    };
    let mut index: usize = 0;
    proof {
        assert(aa@.skip(0) =~= aa@);
        assert(bb@.skip(0) =~= bb@);
    }
    while index < smaller_length
        invariant
            index <= aa@.len(),
            index <= bb@.len(),
            smaller_length == if aa@.len() < bb@.len() {
                aa@.len() as int
            } else {
                bb@.len() as int
            },
            fnc_spec(aa@, bb@) == index + fnc_spec(aa@.skip(index as int), bb@.skip(index as int)),
        decreases smaller_length - index,
    {
        if aa[index] != bb[index] {
            proof {
                assert(aa@.skip(index as int)[0] == aa@[index as int]);
                assert(bb@.skip(index as int)[0] == bb@[index as int]);
            }
            return index;
        }
        proof {
            assert(aa@.skip(index as int)[0] == bb@.skip(index as int)[0]);
            assert(aa@.skip(index as int).drop_first() =~= aa@.skip(index + 1));
            assert(bb@.skip(index as int).drop_first() =~= bb@.skip(index + 1));
        }
        index = index + 1;
    }
    proof {
        assert(aa@.skip(index as int).len() == 0 || bb@.skip(index as int).len() == 0);
    }
    index
}

/// Only reads the 4-byte little-endian size prefix of a block.
pub fn read_size_prefix(data: &[u8]) -> (r: Result<usize, Error>)
    ensures
        data@.len() >= 4 ==> (r matches Ok(v) && v == spec_u32_from_le_bytes(
            data@.subrange(0, 4),
        ) as usize),
        data@.len() < 4 ==> (r matches Err(e) && e matches Error::Io),
{
    if data.len() < SIZE_PREFIX_SIZE {
        return Err(Error::Io);
    }
    let p = slice_subrange(data, 0, SIZE_PREFIX_SIZE);
    Ok(u32_from_le_bytes(p) as usize)
}

/// Reads the header of a serialized log: its length prefix, then the header
/// itself. Returns the header together with its byte length.
pub fn read_header(data: &[u8]) -> (r: Result<(Header, usize), Error>)
    ensures
        ({
            let ok = data@.len() >= 4 && spec_u32_from_le_bytes(data@.subrange(0, 4)) >= 2
                && 4 + spec_u32_from_le_bytes(data@.subrange(0, 4)) <= data@.len();
            &&& ok ==> (r matches Ok(h) && h.1 == spec_u32_from_le_bytes(data@.subrange(0, 4))
                && h.0.version == data@[4] && h.0.buckets_bits == data@[5])
            &&& !ok ==> r is Err
        }),
{
    if data.len() < 4 {
        return Err(Error::Io);
    }
    let p = slice_subrange(data, 0, 4);
    let hsize = u32_from_le_bytes(p) as usize;
    if hsize < 2 {
        return Err(Error::IndexCorrupt);
    }
    if hsize > data.len() - 4 {
        return Err(Error::Io);
    }
    let header_bytes = slice_subrange(data, 4, 4 + hsize);
    let header = Header::from_bytes(header_bytes);
    Ok((header, hsize))
}

/// The size field of the block that starts at `o`.
pub open spec fn block_size(log: Seq<u8>, o: int) -> int {
    spec_u32_from_le_bytes(log.subrange(o, o + 4)) as int
}

/// The bucket field of the block that starts at `o`.
pub open spec fn block_bucket(log: Seq<u8>, o: int) -> int {
    spec_u32_from_le_bytes(log.subrange(o + 4, o + 8)) as int
}

/// A whole block lies at `o`: its frame is inside the log, its body holds
/// the bucket field and a well-formed record list for a bucket the table
/// covers.
pub open spec fn valid_block_at(log: Seq<u8>, o: int, nb: int) -> bool {
    &&& 0 < o
    &&& o + 8 <= log.len()
    &&& block_size(log, o) >= 4
    &&& o + 4 + block_size(log, o) <= log.len()
    &&& 0 <= block_bucket(log, o) < nb
    &&& rl_wf(block_body(log, o))
}

/// The record bytes of the block that starts at `o`: everything after the
/// size and bucket fields.
pub open spec fn block_body(log: Seq<u8>, o: int) -> Seq<u8> {
    log.subrange(o + 8, o + 4 + block_size(log, o))
}

/// The records of the block that starts at `o`.
pub open spec fn block_records(log: Seq<u8>, o: int) -> Seq<(Seq<u8>, u64)> {
    rl_records(block_body(log, o))
}

/// Replaying the log from `pos` over the table `tbl`: each complete block
/// points its bucket at the block's start; replay stops cleanly at the end
/// or at a truncated tail, and fails on a complete block that is corrupt.
/// Returns the final table and the end of the last complete block.
pub open spec fn replay_from(log: Seq<u8>, pos: int, tbl: Seq<u64>) -> Option<(Seq<u64>, int)>
    decreases log.len() - pos,
        when pos <= log.len()
{
    if pos < 0 || pos + 4 > log.len() {
        Some((tbl, pos))
    } else {
        let size = block_size(log, pos);
        if pos + 4 + size > log.len() {
            Some((tbl, pos))
        } else if size < 4 {
            None
        } else {
            let bucket = block_bucket(log, pos);
            if bucket >= tbl.len() {
                None
            } else if !rl_wf(block_body(log, pos)) {
                None
            } else {
                replay_from(log, pos + 4 + size, tbl.update(bucket, pos as u64))
            }
        }
    }
}

/// The all-empty bucket table.
pub open spec fn zero_table(n: int) -> Seq<u64> {
    Seq::new(n as nat, |i: int| 0u64)
}

/// The length field at the front of a serialized log.
pub open spec fn spec_header_len(log: Seq<u8>) -> int {
    spec_u32_from_le_bytes(log.subrange(0, 4)) as int
}

/// The log begins with a well-formed header carrying the expected bucket
/// bit size.
pub open spec fn header_wf(log: Seq<u8>, bits: u8) -> bool {
    &&& log.len() >= 4
    &&& spec_header_len(log) >= 2
    &&& 4 + spec_header_len(log) <= log.len()
    &&& log[5] == bits
}

/// The bytes of a freshly created log.
pub open spec fn fresh_log(bits: u8) -> Seq<u8> {
    spec_u32_to_le_bytes(2u32) + seq![INDEX_VERSION, bits]
}

/// The framing `put` appends for a block: size, bucket, record bytes.
pub open spec fn spec_frame(bucket: int, body: Seq<u8>) -> Seq<u8> {
    spec_u32_to_le_bytes((body.len() + 4) as u32) + spec_u32_to_le_bytes(bucket as u32) + body
}

pub proof fn lemma_replay_end(log: Seq<u8>, pos: int, tbl: Seq<u64>)
    requires
        0 <= pos <= log.len(),
        replay_from(log, pos, tbl) is Some,
    ensures
        pos <= replay_from(log, pos, tbl).unwrap().1 <= log.len(),
    decreases log.len() - pos,
{
    if pos + 4 > log.len() {
    } else {
        let size = block_size(log, pos);
        if pos + 4 + size > log.len() {
        } else {
            lemma_replay_end(log, pos + 4 + size, tbl.update(block_bucket(log, pos), pos as u64));
        }
    }
}

/// Replay sees only the bytes up to its own end: cutting the log there
/// changes nothing.
pub proof fn lemma_replay_truncate(log: Seq<u8>, pos: int, tbl: Seq<u64>)
    requires
        0 <= pos <= log.len(),
        replay_from(log, pos, tbl) is Some,
    ensures
        replay_from(
            log.take(replay_from(log, pos, tbl).unwrap().1),
            pos,
            tbl,
        ) == replay_from(log, pos, tbl),
    decreases log.len() - pos,
{
    let end = replay_from(log, pos, tbl).unwrap().1;
    lemma_replay_end(log, pos, tbl);
    let cut = log.take(end);
    if pos + 4 > log.len() {
        assert(end == pos);
        assert(cut.len() == pos);
    } else {
        let size = block_size(log, pos);
        if pos + 4 + size > log.len() {
            assert(end == pos);
            assert(cut.len() == pos);
        } else {
            let tbl2 = tbl.update(block_bucket(log, pos), pos as u64);
            lemma_replay_end(log, pos + 4 + size, tbl2);
            assert(pos + 4 + size <= end);
            assert(cut.subrange(pos, pos + 4) =~= log.subrange(pos, pos + 4));
            assert(cut.subrange(pos + 4, pos + 8) =~= log.subrange(pos + 4, pos + 8));
            assert(block_size(cut, pos) == size);
            assert(cut.subrange(pos + 8, pos + 4 + size) =~= log.subrange(pos + 8, pos + 4 + size));
            assert(block_body(cut, pos) == block_body(log, pos));
            lemma_replay_truncate(log, pos + 4 + size, tbl2);
        }
    }
}

/// Every nonzero entry a replay writes points at a whole block of the log.
pub proof fn lemma_replay_valid_offsets(log: Seq<u8>, pos: int, tbl: Seq<u64>, nb: int)
    requires
        0 < pos <= log.len(),
        log.len() < 0x1_0000_0000_0000_0000,
        tbl.len() == nb,
        replay_from(log, pos, tbl) is Some,
        forall|j: int|
            0 <= j < nb && tbl[j] != 0 ==> valid_block_at(log, #[trigger] tbl[j] as int, nb),
    ensures
        replay_from(log, pos, tbl).unwrap().0.len() == nb,
        forall|j: int|
            0 <= j < nb && replay_from(log, pos, tbl).unwrap().0[j] != 0 ==> valid_block_at(
                log,
                #[trigger] replay_from(log, pos, tbl).unwrap().0[j] as int,
                nb,
            ),
    decreases log.len() - pos,
{
    if pos + 4 > log.len() {
    } else {
        let size = block_size(log, pos);
        if pos + 4 + size > log.len() {
        } else {
            let bucket = block_bucket(log, pos);
            let tbl2 = tbl.update(bucket, pos as u64);
            assert(valid_block_at(log, pos, nb));
            assert(forall|j: int|
                0 <= j < nb && tbl2[j] != 0 ==> valid_block_at(log, #[trigger] tbl2[j] as int, nb));
            lemma_replay_valid_offsets(log, pos + 4 + size, tbl2, nb);
        }
    }
}

/// A block that lies wholly inside the log reads the same after bytes are
/// appended.
pub proof fn lemma_block_stable(log: Seq<u8>, ext: Seq<u8>, o: int, nb: int)
    requires
        valid_block_at(log, o, nb),
    ensures
        valid_block_at(log + ext, o, nb),
        block_size(log + ext, o) == block_size(log, o),
        block_bucket(log + ext, o) == block_bucket(log, o),
        block_body(log + ext, o) == block_body(log, o),
{
    let log2 = log + ext;
    assert(log2.subrange(o, o + 4) =~= log.subrange(o, o + 4));
    assert(log2.subrange(o + 4, o + 8) =~= log.subrange(o + 4, o + 8));
    assert(block_size(log2, o) == block_size(log, o));
    assert(log2.subrange(o + 8, o + 4 + block_size(log, o)) =~= log.subrange(
        o + 8,
        o + 4 + block_size(log, o),
    ));
}

/// Appending one whole block to a fully replayed log repoints exactly that
/// block's bucket at the old end of the log.
pub proof fn lemma_replay_append(log: Seq<u8>, pos: int, tbl: Seq<u64>, bucket: int, body: Seq<u8>)
    requires
        0 <= pos <= log.len(),
        log.len() + 8 + body.len() < 0x1_0000_0000_0000_0000,
        body.len() + 4 <= u32::MAX,
        0 <= bucket < tbl.len(),
        bucket < 0x1_0000_0000,
        rl_wf(body),
        replay_from(log, pos, tbl) is Some,
        replay_from(log, pos, tbl).unwrap().1 == log.len(),
    ensures
        replay_from(log + spec_frame(bucket, body), pos, tbl) == Some(
            (
                replay_from(log, pos, tbl).unwrap().0.update(bucket, log.len() as u64),
                (log.len() + 8 + body.len()) as int,
            ),
        ),
    decreases log.len() - pos,
{
    lemma_auto_spec_u32_to_from_le_bytes();
    let frame = spec_frame(bucket, body);
    let log2 = log + frame;
    assert(frame.len() == 8 + body.len());
    if pos + 4 > log.len() {
        // replay of the old log stopped here, so this is its end
        assert(pos == log.len());
        assert(log2.subrange(pos, pos + 4) =~= frame.subrange(0, 4));
        assert(frame.subrange(0, 4) =~= spec_u32_to_le_bytes((body.len() + 4) as u32));
        assert(block_size(log2, pos) == body.len() + 4);
        assert(pos + 4 + block_size(log2, pos) == log2.len());
        assert(log2.subrange(pos + 4, pos + 8) =~= spec_u32_to_le_bytes(bucket as u32));
        assert(block_bucket(log2, pos) == bucket);
        assert(log2.subrange(pos + 8, pos + 4 + block_size(log2, pos)) =~= body);
        assert(block_body(log2, pos) == body);
        let tbl2 = tbl.update(bucket, pos as u64);
        assert(replay_from(log2, log2.len() as int, tbl2) == Some((tbl2, log2.len() as int)));
        assert(replay_from(log2, pos, tbl) == Some((tbl2, log2.len() as int)));
    } else {
        let size = block_size(log, pos);
        if pos + 4 + size > log.len() {
            // the old replay would have ended before the log's end
            assert(replay_from(log, pos, tbl).unwrap().1 == pos);
            assert(false);
        } else {
            assert(log2.subrange(pos, pos + 4) =~= log.subrange(pos, pos + 4));
            assert(log2.subrange(pos + 4, pos + 8) =~= log.subrange(pos + 4, pos + 8));
            assert(block_size(log2, pos) == size);
            assert(block_bucket(log2, pos) == block_bucket(log, pos));
            assert(log2.subrange(pos + 8, pos + 4 + size) =~= log.subrange(pos + 8, pos + 4 + size));
            assert(block_body(log2, pos) == block_body(log, pos));
            if size < 4 {
                assert(false);
            } else if block_bucket(log, pos) >= tbl.len() {
                assert(false);
            } else if !rl_wf(block_body(log, pos)) {
                assert(false);
            } else {
                lemma_replay_append(
                    log,
                    pos + 4 + size,
                    tbl.update(block_bucket(log, pos), pos as u64),
                    bucket,
                    body,
                );
            }
        }
    }
}

/// Replay determinism: two well-formed engines over the same log with the
/// same bit size hold the same bucket table, and answer every lookup
/// alike. Closing an index cleanly and reopening its log therefore yields
/// identical answers for all keys.
pub proof fn lemma_reopen_answers<P: PrimaryStorage>(idx: Index<P>, idx2: Index<P>)
    requires
        idx.wf(),
        idx2.wf(),
        idx2.spec_bits() == idx.spec_bits(),
        idx2.log_view() == idx.log_view(),
    ensures
        idx2.buckets_view() == idx.buckets_view(),
        forall|key: Seq<u8>| idx2.spec_get(key) == #[trigger] idx.spec_get(key),
{
    assert(idx2.buckets_view().len() == idx.buckets_view().len());
    assert(idx2.buckets_view() == idx.buckets_view());
    assert forall|key: Seq<u8>| idx2.spec_get(key) == #[trigger] idx.spec_get(key) by {
        let b = spec_bucket_of(key, idx.spec_bits());
        assert(idx2.bucket_records(b) == idx.bucket_records(b));
    }
}

pub proof fn lemma_replay_prefix_ok(log: Seq<u8>, pos: int, tbl: Seq<u64>, n: int)
    requires
        0 <= pos <= log.len(),
        replay_from(log, pos, tbl) is Some,
        replay_from(log, pos, tbl).unwrap().1 == log.len(),
        pos <= n <= log.len(),
    ensures
        replay_from(log.take(n), pos, tbl) is Some,
    decreases log.len() - pos,
{
    let cut = log.take(n);
    if pos + 4 > log.len() {
    } else {
        let size = block_size(log, pos);
        if pos + 4 + size > log.len() {
            assert(replay_from(log, pos, tbl).unwrap().1 == pos);
            assert(false);
        } else if pos + 4 > n {
        } else {
            assert(cut.subrange(pos, pos + 4) =~= log.subrange(pos, pos + 4));
            assert(block_size(cut, pos) == size);
            if pos + 4 + size > n {
            } else {
                assert(cut.subrange(pos + 4, pos + 8) =~= log.subrange(pos + 4, pos + 8));
                assert(cut.subrange(pos + 8, pos + 4 + size) =~= log.subrange(
                    pos + 8,
                    pos + 4 + size,
                ));
                assert(block_body(cut, pos) == block_body(log, pos));
                lemma_replay_prefix_ok(
                    log,
                    pos + 4 + size,
                    tbl.update(block_bucket(log, pos), pos as u64),
                    n,
                );
            }
        }
    }
}

/// Truncation resilience: cutting the log of a well-formed index anywhere
/// at or after its header leaves bytes that still open — the header reads
/// as before and the replay of the remaining whole blocks succeeds,
/// abandoning at most a partial trailing block.
pub proof fn lemma_truncation_reopens<P: PrimaryStorage>(idx: Index<P>, n: int)
    requires
        idx.wf(),
        4 + spec_header_len(idx.log_view()) <= n <= idx.log_view().len(),
    ensures
        ({
            let cut = idx.log_view().take(n);
            &&& cut.len() >= 4
            &&& spec_header_len(cut) == spec_header_len(idx.log_view())
            &&& 4 + spec_header_len(cut) <= cut.len()
            &&& cut[5] == idx.spec_bits()
            &&& replay_from(
                cut,
                4 + spec_header_len(cut),
                zero_table(idx.buckets_view().len() as int),
            ) is Some
        }),
{
    let log = idx.log_view();
    let cut = log.take(n);
    assert(cut.subrange(0, 4) =~= log.subrange(0, 4));
    lemma_replay_prefix_ok(
        log,
        4 + spec_header_len(log),
        zero_table(idx.buckets_view().len() as int),
        n,
    );
}

/// A key with no stored prefix compatible with it is not found: the lookup
/// over its bucket answers `None`.
pub proof fn lemma_get_unmatched_is_none<P: PrimaryStorage>(idx: Index<P>, key: Seq<u8>)
    requires
        forall|j: int|
            0 <= j < idx.bucket_records(spec_bucket_of(key, idx.spec_bits())).len()
                ==> !is_key_prefix(
                #[trigger] idx.bucket_records(spec_bucket_of(key, idx.spec_bits()))[j].0,
                spec_index_key(key, idx.spec_bits()),
            ),
    ensures
        idx.spec_get(key) is None,
{
    crate::recordlist::lemma_get_none_without_prefix(
        idx.bucket_records(spec_bucket_of(key, idx.spec_bits())),
        spec_index_key(key, idx.spec_bits()),
    );
}

/// A put finds its own key: after an insertion the new record's key is a
/// stored prefix of the inserted index key, so a lookup answers some
/// offset (possibly a false positive to be confirmed against the primary).
pub proof fn lemma_insert_finds_key(rl: Seq<(Seq<u8>, u64)>, ikey: Seq<u8>, off: u64)
    requires
        ikey.len() >= 1,
    ensures
        rl_get_spec(insert_records(rl, ikey, off), ikey) is Some,
{
    let new = insert_records(rl, ikey, off);
    let i = find_idx(rl, ikey);
    crate::recordlist::lemma_find_idx(rl, ikey);
    if i > 0 {
        lemma_fnc(ikey, rl[i - 1].0);
    }
    if i < rl.len() {
        lemma_fnc(ikey, rl[i].0);
    }
    let t = new[i].0;
    assert(is_key_prefix(t, ikey));
    crate::recordlist::lemma_get_none_without_prefix(new, ikey);
}

/// A put that also replaces the previous record still finds its own key:
/// the new key's record is stored under a prefix of the index key.
pub proof fn lemma_replace_finds_key(
    rl: Seq<(Seq<u8>, u64)>,
    ikey: Seq<u8>,
    off: u64,
    pk: Seq<u8>,
)
    requires
        find_idx(rl, ikey) > 0,
        fnc_spec(ikey, pk) < ikey.len(),
    ensures
        rl_get_spec(replace_records(rl, ikey, off, pk), ikey) is Some,
{
    let new = replace_records(rl, ikey, off, pk);
    let i = find_idx(rl, ikey);
    let k = fnc_spec(ikey, pk);
    crate::recordlist::lemma_find_idx(rl, ikey);
    lemma_fnc(ikey, pk);
    let ti = ikey.subrange(0, k + 1);
    assert(is_key_prefix(ti, ikey));
    if lex_lt(pk.subrange(0, k + 1), ti) {
        assert(new[i].0 == ti);
        assert(is_key_prefix(new[i].0, ikey));
    } else {
        assert(new[i - 1].0 == ti);
        assert(is_key_prefix(new[i - 1].0, ikey));
    }
    crate::recordlist::lemma_get_none_without_prefix(new, ikey);
}

/// Keys once found stay found across an insertion: no record is removed,
/// so every stored prefix that matched a key still matches it.
pub proof fn lemma_insert_preserves_found(
    rl: Seq<(Seq<u8>, u64)>,
    ikey: Seq<u8>,
    off: u64,
    kj: Seq<u8>,
)
    requires
        rl_get_spec(rl, kj) is Some,
    ensures
        rl_get_spec(insert_records(rl, ikey, off), kj) is Some,
{
    crate::recordlist::lemma_get_none_without_prefix(rl, kj);
    let j = choose|j: int| 0 <= j < rl.len() && is_key_prefix(#[trigger] rl[j].0, kj);
    assert(0 <= j < rl.len() && is_key_prefix(rl[j].0, kj));
    let new = insert_records(rl, ikey, off);
    let i = find_idx(rl, ikey);
    crate::recordlist::lemma_find_idx(rl, ikey);
    if j < i {
        assert(new[j] == rl[j]);
        assert(is_key_prefix(new[j].0, kj));
    } else {
        assert(new[j + 1] == rl[j]);
        assert(is_key_prefix(new[j + 1].0, kj));
    }
    crate::recordlist::lemma_get_none_without_prefix(new, kj);
}

/// Keys once found stay found across a replacement, provided the primary
/// answered consistently: a key whose only matching record was the
/// replaced one is a key extending the fetched previous key, and the
/// lengthened prefix stored for it still matches.
pub proof fn lemma_replace_preserves_found(
    rl: Seq<(Seq<u8>, u64)>,
    ikey: Seq<u8>,
    off: u64,
    pk: Seq<u8>,
    kj: Seq<u8>,
)
    requires
        find_idx(rl, ikey) > 0,
        fnc_spec(ikey, pk) < ikey.len(),
        fnc_spec(ikey, pk) < pk.len(),
        rl_get_spec(rl, kj) is Some,
        is_key_prefix(rl[find_idx(rl, ikey) - 1].0, kj) ==> is_key_prefix(pk, kj),
    ensures
        rl_get_spec(replace_records(rl, ikey, off, pk), kj) is Some,
{
    crate::recordlist::lemma_get_none_without_prefix(rl, kj);
    let j = choose|j: int| 0 <= j < rl.len() && is_key_prefix(#[trigger] rl[j].0, kj);
    assert(0 <= j < rl.len() && is_key_prefix(rl[j].0, kj));
    let new = replace_records(rl, ikey, off, pk);
    let i = find_idx(rl, ikey);
    let k = fnc_spec(ikey, pk);
    crate::recordlist::lemma_find_idx(rl, ikey);
    lemma_fnc(ikey, pk);
    let tp = pk.subrange(0, k + 1);
    let ti = ikey.subrange(0, k + 1);
    if j == i - 1 {
        // the witness was replaced: its lengthened prefix still matches,
        // because the key extends the fetched previous key
        assert(is_key_prefix(pk, kj));
        assert(is_key_prefix(tp, pk)) by {
            assert(tp =~= pk.subrange(0, k + 1));
        }
        crate::recordlist::lemma_prefix_trans(tp, pk, kj);
        if lex_lt(tp, ti) {
            assert(new[i - 1].0 == tp);
            assert(is_key_prefix(new[i - 1].0, kj));
        } else {
            assert(new[i].0 == tp);
            assert(is_key_prefix(new[i].0, kj));
        }
    } else if j < i - 1 {
        assert(new[j] == rl[j]);
        assert(is_key_prefix(new[j].0, kj));
    } else {
        assert(new[j + 1] == rl[j]);
        assert(is_key_prefix(new[j + 1].0, kj));
    }
    crate::recordlist::lemma_get_none_without_prefix(new, kj);
}

/// Every key inserted into the index is found afterwards: once `put` has
/// appended the spliced record list for the key's bucket, a lookup of that
/// key answers some offset — possibly a false-positive match that the
/// caller disambiguates via the primary storage.
pub proof fn lemma_put_then_get<P: PrimaryStorage>(
    pre: Index<P>,
    post: Index<P>,
    key: Seq<u8>,
    off: u64,
)
    requires
        key.len() >= 4,
        post.spec_bits() == pre.spec_bits(),
        pre.spec_bits() <= 31,
        appended(
            pre,
            post,
            spec_bucket_of(key, pre.spec_bits()),
            insert_records(
                pre.bucket_records(spec_bucket_of(key, pre.spec_bits())),
                spec_index_key(key, pre.spec_bits()),
                off,
            ),
        ),
    ensures
        post.spec_get(key) is Some,
{
    let b = spec_bucket_of(key, pre.spec_bits());
    let ikey = spec_index_key(key, pre.spec_bits());
    lemma_insert_finds_key(pre.bucket_records(b), ikey, off);
}

/// The same, for a put that also lengthened the previous record: after the
/// replacement the new key is stored under one of its own prefixes, so its
/// lookup answers some offset.
pub proof fn lemma_replace_then_get<P: PrimaryStorage>(
    pre: Index<P>,
    post: Index<P>,
    key: Seq<u8>,
    off: u64,
    prev_key: Seq<u8>,
)
    requires
        key.len() >= 4,
        post.spec_bits() == pre.spec_bits(),
        pre.spec_bits() <= 31,
        find_idx(
            pre.bucket_records(spec_bucket_of(key, pre.spec_bits())),
            spec_index_key(key, pre.spec_bits()),
        ) > 0,
        fnc_spec(spec_index_key(key, pre.spec_bits()), prev_key) < spec_index_key(
            key,
            pre.spec_bits(),
        ).len(),
        appended(
            pre,
            post,
            spec_bucket_of(key, pre.spec_bits()),
            replace_records(
                pre.bucket_records(spec_bucket_of(key, pre.spec_bits())),
                spec_index_key(key, pre.spec_bits()),
                off,
                prev_key,
            ),
        ),
    ensures
        post.spec_get(key) is Some,
{
    let b = spec_bucket_of(key, pre.spec_bits());
    let ikey = spec_index_key(key, pre.spec_bits());
    lemma_replace_finds_key(pre.bucket_records(b), ikey, off, prev_key);
}

/// Lookups in other buckets do not change across a put: the appended block
/// belongs to one bucket, and every other bucket still reads its old one.
pub proof fn lemma_put_leaves_other_buckets<P: PrimaryStorage>(
    pre: Index<P>,
    post: Index<P>,
    b: int,
    nl: Seq<(Seq<u8>, u64)>,
    key: Seq<u8>,
)
    requires
        post.spec_bits() == pre.spec_bits(),
        appended(pre, post, b, nl),
        0 <= spec_bucket_of(key, pre.spec_bits()) < pre.buckets_view().len(),
        spec_bucket_of(key, pre.spec_bits()) != b,
    ensures
        post.spec_get(key) == pre.spec_get(key),
{
    assert(post.bucket_records(spec_bucket_of(key, pre.spec_bits())) == pre.bucket_records(
        spec_bucket_of(key, pre.spec_bits()),
    ));
}

/// A key's bucket number always lies inside a table of `2 ^ bits` buckets.
pub proof fn lemma_bucket_in_range(key: Seq<u8>, bits: u8)
    requires
        bits <= 31,
    ensures
        0 <= spec_bucket_of(key, bits) < (1u32 << bits),
{
    let x = spec_u32_from_le_bytes(key.subrange(0, 4));
    let b = bits;
    assert(b <= 31 ==> (x & ((1u32 << b) - 1) as u32) < (1u32 << b)) by (bit_vector);
}

/// What one successful insertion put does to an index whose record lists
/// are all strictly sorted and prefix-free: they stay so, the freshly put
/// key is found, and every other bucket answers as before.
pub proof fn lemma_put_insert_composed<P: PrimaryStorage>(
    pre: Index<P>,
    post: Index<P>,
    key: Seq<u8>,
    off: u64,
)
    requires
        key.len() >= 4,
        pre.wf(),
        post.spec_bits() == pre.spec_bits(),
        !prev_is_prefix(
            pre.bucket_records(spec_bucket_of(key, pre.spec_bits())),
            spec_index_key(key, pre.spec_bits()),
        ),
        ({
            let rl = pre.bucket_records(spec_bucket_of(key, pre.spec_bits()));
            let ikey = spec_index_key(key, pre.spec_bits());
            find_idx(rl, ikey) < rl.len() ==> fnc_spec(ikey, rl[find_idx(rl, ikey)].0)
                < ikey.len()
        }),
        forall|b2: int|
            0 <= b2 < pre.buckets_view().len() ==> rl_sorted(#[trigger] pre.bucket_records(b2))
                && rl_prefix_free(pre.bucket_records(b2)),
        appended(
            pre,
            post,
            spec_bucket_of(key, pre.spec_bits()),
            insert_records(
                pre.bucket_records(spec_bucket_of(key, pre.spec_bits())),
                spec_index_key(key, pre.spec_bits()),
                off,
            ),
        ),
    ensures
        forall|b2: int|
            0 <= b2 < post.buckets_view().len() ==> rl_sorted(#[trigger] post.bucket_records(b2))
                && rl_prefix_free(post.bucket_records(b2)),
        post.spec_get(key) is Some,
        forall|key2: Seq<u8>|
            spec_bucket_of(key2, pre.spec_bits()) != spec_bucket_of(key, pre.spec_bits())
                ==> #[trigger] post.spec_get(key2) == pre.spec_get(key2),
{
    let b = spec_bucket_of(key, pre.spec_bits());
    let rl = pre.bucket_records(b);
    let ikey = spec_index_key(key, pre.spec_bits());
    lemma_bucket_in_range(key, pre.spec_bits());
    lemma_insert_keeps_invariant(rl, ikey, off);
    lemma_appended_records_invariant(pre, post, b, insert_records(rl, ikey, off));
    lemma_put_then_get(pre, post, key, off);
    assert forall|key2: Seq<u8>|
        spec_bucket_of(key2, pre.spec_bits()) != b implies #[trigger] post.spec_get(key2)
        == pre.spec_get(key2) by {
        lemma_bucket_in_range(key2, pre.spec_bits());
        lemma_put_leaves_other_buckets(
            pre,
            post,
            b,
            insert_records(rl, ikey, off),
            key2,
        );
    }
}

/// The same for a put that also lengthened the previous record: the lists
/// stay sorted and prefix-free and the key is found — provided the primary
/// answered with a key extending the replaced record's stored prefix,
/// which any consistent primary does.
pub proof fn lemma_put_replace_composed<P: PrimaryStorage>(
    pre: Index<P>,
    post: Index<P>,
    key: Seq<u8>,
    off: u64,
    ps: Seq<u8>,
)
    requires
        key.len() >= 4,
        pre.wf(),
        post.spec_bits() == pre.spec_bits(),
        prev_is_prefix(
            pre.bucket_records(spec_bucket_of(key, pre.spec_bits())),
            spec_index_key(key, pre.spec_bits()),
        ),
        fnc_spec(spec_index_key(key, pre.spec_bits()), ps) < spec_index_key(
            key,
            pre.spec_bits(),
        ).len(),
        fnc_spec(spec_index_key(key, pre.spec_bits()), ps) < ps.len(),
        is_key_prefix(
            pre.bucket_records(spec_bucket_of(key, pre.spec_bits()))[find_idx(
                pre.bucket_records(spec_bucket_of(key, pre.spec_bits())),
                spec_index_key(key, pre.spec_bits()),
            ) - 1].0,
            ps,
        ),
        forall|b2: int|
            0 <= b2 < pre.buckets_view().len() ==> rl_sorted(#[trigger] pre.bucket_records(b2))
                && rl_prefix_free(pre.bucket_records(b2)),
        appended(
            pre,
            post,
            spec_bucket_of(key, pre.spec_bits()),
            replace_records(
                pre.bucket_records(spec_bucket_of(key, pre.spec_bits())),
                spec_index_key(key, pre.spec_bits()),
                off,
                ps,
            ),
        ),
    ensures
        forall|b2: int|
            0 <= b2 < post.buckets_view().len() ==> rl_sorted(#[trigger] post.bucket_records(b2))
                && rl_prefix_free(post.bucket_records(b2)),
        post.spec_get(key) is Some,
{
    let b = spec_bucket_of(key, pre.spec_bits());
    let rl = pre.bucket_records(b);
    let ikey = spec_index_key(key, pre.spec_bits());
    lemma_bucket_in_range(key, pre.spec_bits());
    lemma_replace_keeps_invariant(rl, ikey, off, ps);
    lemma_appended_records_invariant(pre, post, b, replace_records(rl, ikey, off, ps));
    lemma_replace_then_get(pre, post, key, off, ps);
}

/// Keys found before a put are still found after it, whichever branch the
/// put took: an insertion removes no record, a replacement only lengthens
/// the replaced record's prefix along the fetched previous key, and other
/// buckets do not change at all.
pub proof fn lemma_put_preserves_get_some<P: PrimaryStorage>(
    pre: Index<P>,
    post: Index<P>,
    b: int,
    nl: Seq<(Seq<u8>, u64)>,
    key2: Seq<u8>,
)
    requires
        pre.wf(),
        post.spec_bits() == pre.spec_bits(),
        appended(pre, post, b, nl),
        pre.spec_get(key2) is Some,
        spec_bucket_of(key2, pre.spec_bits()) == b ==> rl_get_spec(
            nl,
            spec_index_key(key2, pre.spec_bits()),
        ) is Some,
    ensures
        post.spec_get(key2) is Some,
{
    lemma_bucket_in_range(key2, pre.spec_bits());
    let b2 = spec_bucket_of(key2, pre.spec_bits());
    if b2 != b {
        lemma_put_leaves_other_buckets(pre, post, b, nl, key2);
    } else {
        assert(post.bucket_records(b2) == nl);
    }
}

/// Every bucket of a fresh index is empty, so every record list trivially
/// has the shape `put` maintains: strictly sorted and prefix-free.
pub proof fn lemma_empty_records_invariant<P: PrimaryStorage>(idx: Index<P>)
    requires
        forall|b: int| 0 <= b < idx.buckets_view().len() ==> idx.buckets_view()[b] == 0,
    ensures
        forall|b: int|
            0 <= b < idx.buckets_view().len() ==> rl_sorted(#[trigger] idx.bucket_records(b))
                && rl_prefix_free(idx.bucket_records(b)),
{
}

/// Appending a sorted, prefix-free list keeps every bucket's list sorted
/// and prefix-free: the other buckets still read their old blocks.
pub proof fn lemma_appended_records_invariant<P: PrimaryStorage>(
    pre: Index<P>,
    post: Index<P>,
    b: int,
    nl: Seq<(Seq<u8>, u64)>,
)
    requires
        appended(pre, post, b, nl),
        0 <= b < pre.buckets_view().len(),
        rl_sorted(nl),
        rl_prefix_free(nl),
        forall|b2: int|
            0 <= b2 < pre.buckets_view().len() ==> rl_sorted(#[trigger] pre.bucket_records(b2))
                && rl_prefix_free(pre.bucket_records(b2)),
    ensures
        forall|b2: int|
            0 <= b2 < post.buckets_view().len() ==> rl_sorted(#[trigger] post.bucket_records(b2))
                && rl_prefix_free(post.bucket_records(b2)),
{
    assert(post.buckets_view().len() == pre.buckets_view().len());
    assert forall|b2: int|
        0 <= b2 < post.buckets_view().len() implies rl_sorted(#[trigger] post.bucket_records(b2))
        && rl_prefix_free(post.bucket_records(b2)) by {
        if b2 == b {
            assert(post.bucket_records(b2) == nl);
        } else {
            assert(post.bucket_records(b2) == pre.bucket_records(b2));
        }
    }
}

/// Nothing is lexicographically smaller than itself.
pub proof fn lemma_lex_irrefl(a: Seq<u8>)
    ensures
        !lex_lt(a, a),
    decreases a.len(),
{
    if a.len() > 0 {
        lemma_lex_irrefl(a.drop_first());
    }
}

/// The first difference determines `fnc_spec`.
pub proof fn lemma_fnc_is(a: Seq<u8>, b: Seq<u8>, f: int)
    requires
        0 <= f <= a.len(),
        f <= b.len(),
        forall|j: int| 0 <= j < f ==> a[j] == b[j],
        f < a.len() && f < b.len() ==> a[f] != b[f],
    ensures
        fnc_spec(a, b) == f,
    decreases f,
{
    if f == 0 {
        lemma_fnc(a, b);
        if fnc_spec(a, b) > 0 {
            assert(a[0] == b[0]);
        }
    } else {
        assert(a[0] == b[0]);
        lemma_fnc_is(a.drop_first(), b.drop_first(), f - 1);
        assert(forall|j: int|
            0 <= j < f - 1 ==> #[trigger] a.drop_first()[j] == a[j + 1] && b.drop_first()[j] == b[j
                + 1]);
    }
}

/// The lexicographic order is decided at the first differing byte; when
/// one string runs out first it is the smaller one, and strings without a
/// difference are equal.
pub proof fn lemma_lex_by_fnc(a: Seq<u8>, b: Seq<u8>)
    ensures
        ({
            let f = fnc_spec(a, b);
            &&& (f < a.len() && f < b.len()) ==> (lex_lt(a, b) <==> a[f] < b[f])
            &&& (f == a.len() && f < b.len()) ==> lex_lt(a, b)
            &&& (f == b.len() && f < a.len()) ==> lex_lt(b, a)
            &&& (f == a.len() && f == b.len()) ==> (a == b && !lex_lt(a, b) && !lex_lt(b, a))
        }),
    decreases a.len(),
{
    lemma_fnc(a, b);
    let f = fnc_spec(a, b);
    if a.len() == 0 || b.len() == 0 {
        if f == a.len() && f == b.len() {
            assert(a =~= b);
        }
    } else if a[0] != b[0] {
    } else {
        lemma_lex_by_fnc(a.drop_first(), b.drop_first());
        assert(fnc_spec(a.drop_first(), b.drop_first()) == f - 1);
        if f < a.len() && f < b.len() {
            assert(a.drop_first()[f - 1] == a[f]);
            assert(b.drop_first()[f - 1] == b[f]);
        }
        if f == a.len() && f == b.len() {
            assert(a.drop_first() == b.drop_first());
            assert(a =~= b);
        }
    }
}

/// A prefix of an upper bound is a prefix of everything in between: if
/// `a < c < b` and `a` is a prefix of `b`, then `a` is a prefix of `c`.
pub proof fn lemma_sandwich_prefix(a: Seq<u8>, c: Seq<u8>, b: Seq<u8>)
    requires
        lex_lt(a, c),
        lex_lt(c, b),
        is_key_prefix(a, b),
    ensures
        is_key_prefix(a, c),
{
    let f = fnc_spec(a, c);
    lemma_fnc(a, c);
    lemma_lex_by_fnc(a, c);
    if f == a.len() && f <= c.len() {
        assert(is_key_prefix(a, c)) by {
            assert(a =~= c.subrange(0, a.len() as int));
        }
    } else if f == c.len() {
        assert(is_key_prefix(c, a)) by {
            assert(c =~= a.subrange(0, c.len() as int));
        }
        crate::recordlist::lemma_prefix_not_gt(c, a);
    } else {
        assert(a[f] < c[f]);
        assert(b[f] == a[f]);
        lemma_fnc_is(c, b, f);
        lemma_lex_by_fnc(c, b);
    }
}

/// No stored prefix is a prefix of another.
pub open spec fn rl_prefix_free(rl: Seq<(Seq<u8>, u64)>) -> bool {
    forall|x: int, y: int|
        0 <= x < rl.len() && 0 <= y < rl.len() && x != y ==> !is_key_prefix(
            #[trigger] rl[x].0,
            #[trigger] rl[y].0,
        )
}

/// Sorted stays sorted: the freshly trimmed key falls lexicographically
/// strictly between the records on either side of the insertion point, so
/// inserting it keeps the list strictly ascending. The one insertion this
/// does not speak of is a key whose index key is itself a proper prefix of
/// the next record's stored key; no prefix of the new key can then be
/// ordered strictly between the two.
pub proof fn lemma_insert_sorted(rl: Seq<(Seq<u8>, u64)>, ikey: Seq<u8>, off: u64)
    requires
        rl_sorted(rl),
        ikey.len() >= 1,
        !prev_is_prefix(rl, ikey),
        find_idx(rl, ikey) < rl.len() ==> fnc_spec(ikey, rl[find_idx(rl, ikey)].0) < ikey.len(),
    ensures
        rl_sorted(insert_records(rl, ikey, off)),
{
    let new = insert_records(rl, ikey, off);
    let i = find_idx(rl, ikey);
    crate::recordlist::lemma_find_idx(rl, ikey);
    let p = if i > 0 {
        fnc_spec(ikey, rl[i - 1].0)
    } else {
        0
    };
    let n = if i < rl.len() {
        fnc_spec(ikey, rl[i].0)
    } else {
        0
    };
    let m = if p > n {
        p
    } else {
        n
    };
    if i > 0 {
        lemma_fnc(ikey, rl[i - 1].0);
    }
    if i < rl.len() {
        lemma_fnc(ikey, rl[i].0);
    }
    assert(m < ikey.len()) by {
        if i > 0 && p >= ikey.len() {
            // the whole index key matching the previous record would make
            // the previous record's key a prefix of it
            assert(p == ikey.len());
            lemma_lex_by_fnc(ikey, rl[i - 1].0);
            if p < rl[i - 1].0.len() {
                assert(lex_lt(ikey, rl[i - 1].0));
            } else {
                assert(is_key_prefix(rl[i - 1].0, ikey)) by {
                    assert(rl[i - 1].0 =~= ikey.subrange(0, rl[i - 1].0.len() as int));
                }
            }
        }
    }
    let t = ikey.subrange(0, m + 1);
    assert(new[i].0 == t);
    // the trimmed key is strictly greater than the record before it
    if i > 0 {
        let prev = rl[i - 1].0;
        assert(p < prev.len()) by {
            if p == prev.len() {
                assert(is_key_prefix(prev, ikey)) by {
                    assert(prev =~= ikey.subrange(0, prev.len() as int));
                }
            }
        }
        lemma_lex_by_fnc(ikey, prev);
        assert(prev[p] < ikey[p]);
        lemma_fnc_is(prev, t, p);
        lemma_lex_by_fnc(prev, t);
        assert(lex_lt(prev, t));
    }
    // and strictly smaller than the record at the insertion point
    if i < rl.len() {
        let next = rl[i].0;
        assert(lex_lt(ikey, next));
        assert(n < next.len()) by {
            if n == next.len() {
                lemma_lex_by_fnc(ikey, next);
                assert(lex_lt(next, ikey));
                crate::recordlist::lemma_lex_lt_trans(ikey, next, ikey);
                lemma_lex_irrefl(ikey);
            }
        }
        lemma_lex_by_fnc(ikey, next);
        assert(ikey[n] < next[n]);
        lemma_fnc_is(t, next, n);
        lemma_lex_by_fnc(t, next);
        assert(lex_lt(t, next));
    }
    assert forall|x: int, y: int| 0 <= x < y < new.len() implies lex_lt(
        #[trigger] new[x].0,
        #[trigger] new[y].0,
    ) by {
        if y < i {
            assert(new[x] == rl[x] && new[y] == rl[y]);
        } else if x > i {
            assert(new[x] == rl[x - 1] && new[y] == rl[y - 1]);
        } else if x < i && y > i {
            assert(new[x] == rl[x] && new[y] == rl[y - 1]);
        } else if x == i {
            assert(new[y] == rl[y - 1]);
            if y - 1 > i {
                assert(lex_lt(rl[i].0, rl[y - 1].0));
                crate::recordlist::lemma_lex_lt_trans(t, rl[i].0, rl[y - 1].0);
            }
        } else {
            assert(new[x] == rl[x]);
            if x < i - 1 {
                assert(lex_lt(rl[x].0, rl[i - 1].0));
                crate::recordlist::lemma_lex_lt_trans(rl[x].0, rl[i - 1].0, t);
            }
        }
    }
}

/// Trimming keeps the stored prefixes uniquely identifying: a strictly
/// sorted, prefix-free record list stays so across an insertion. Together
/// with the sort order this is what lets a lookup stop at the first record
/// beyond its key and makes the last matching prefix unambiguous. The one
/// insertion this does not speak of is a key whose index key is a proper
/// prefix of the next record's stored key, which no prefix can distinguish.
pub proof fn lemma_insert_keeps_invariant(rl: Seq<(Seq<u8>, u64)>, ikey: Seq<u8>, off: u64)
    requires
        rl_sorted(rl),
        rl_prefix_free(rl),
        ikey.len() >= 1,
        !prev_is_prefix(rl, ikey),
        find_idx(rl, ikey) < rl.len() ==> fnc_spec(ikey, rl[find_idx(rl, ikey)].0) < ikey.len(),
    ensures
        rl_sorted(insert_records(rl, ikey, off)),
        rl_prefix_free(insert_records(rl, ikey, off)),
{
    let new = insert_records(rl, ikey, off);
    let i = find_idx(rl, ikey);
    crate::recordlist::lemma_find_idx(rl, ikey);
    lemma_insert_sorted(rl, ikey, off);
    let p = if i > 0 {
        fnc_spec(ikey, rl[i - 1].0)
    } else {
        0
    };
    let n = if i < rl.len() {
        fnc_spec(ikey, rl[i].0)
    } else {
        0
    };
    let m = if p > n {
        p
    } else {
        n
    };
    if i > 0 {
        lemma_fnc(ikey, rl[i - 1].0);
    }
    if i < rl.len() {
        lemma_fnc(ikey, rl[i].0);
    }
    assert(m < ikey.len()) by {
        if i > 0 && p >= ikey.len() {
            assert(p == ikey.len());
            lemma_lex_by_fnc(ikey, rl[i - 1].0);
            if p < rl[i - 1].0.len() {
                assert(lex_lt(ikey, rl[i - 1].0));
            } else {
                assert(is_key_prefix(rl[i - 1].0, ikey)) by {
                    assert(rl[i - 1].0 =~= ikey.subrange(0, rl[i - 1].0.len() as int));
                }
            }
        }
    }
    let t = new[i].0;
    assert(t == ikey.subrange(0, m + 1));
    // the bytes that force the trim length differ from both neighbors
    if i > 0 {
        let prev = rl[i - 1].0;
        assert(p < prev.len()) by {
            if p == prev.len() {
                assert(is_key_prefix(prev, ikey)) by {
                    assert(prev =~= ikey.subrange(0, prev.len() as int));
                }
            }
        }
        assert(prev[p] != ikey[p]);
    }
    if i < rl.len() {
        let next = rl[i].0;
        assert(lex_lt(ikey, next));
        assert(n < next.len()) by {
            if n == next.len() {
                lemma_lex_by_fnc(ikey, next);
                assert(lex_lt(next, ikey));
                crate::recordlist::lemma_lex_lt_trans(ikey, next, ikey);
                lemma_lex_irrefl(ikey);
            }
        }
        lemma_lex_by_fnc(ikey, next);
        assert(ikey[n] != next[n]);
    }
    assert forall|x: int, y: int|
        0 <= x < new.len() && 0 <= y < new.len() && x != y implies !is_key_prefix(
        #[trigger] new[x].0,
        #[trigger] new[y].0,
    ) by {
        if x != i && y != i {
            let xo = if x < i {
                x
            } else {
                x - 1
            };
            let yo = if y < i {
                y
            } else {
                y - 1
            };
            assert(new[x] == rl[xo] && new[y] == rl[yo]);
        } else if x == i {
            // is the new key a prefix of an old record's key?
            let yo = if y < i {
                y
            } else {
                y - 1
            };
            assert(new[y] == rl[yo]);
            if is_key_prefix(t, rl[yo].0) {
                if yo < i {
                    // the old record is smaller, so nothing can be its prefix
                    crate::recordlist::lemma_prefix_not_gt(t, rl[yo].0);
                    assert(lex_lt(new[yo].0, new[i].0));
                } else if yo == i {
                    assert(t[n] == rl[i].0[n]);
                    assert(t[n] == ikey[n]);
                } else {
                    assert(lex_lt(new[i].0, new[i + 1].0));
                    assert(lex_lt(rl[i].0, rl[yo].0));
                    lemma_sandwich_prefix(t, rl[i].0, rl[yo].0);
                    assert(t[n] == rl[i].0[n]);
                    assert(t[n] == ikey[n]);
                }
            }
        } else {
            // is an old record's key a prefix of the new key?
            let xo = if x < i {
                x
            } else {
                x - 1
            };
            assert(new[x] == rl[xo]);
            if is_key_prefix(rl[xo].0, t) {
                if xo > i - 1 {
                    crate::recordlist::lemma_prefix_not_gt(rl[xo].0, t);
                    assert(lex_lt(new[i].0, new[xo + 1].0));
                } else if xo == i - 1 {
                    assert(rl[xo].0[p] == t[p]);
                    assert(t[p] == ikey[p]);
                } else {
                    assert(lex_lt(rl[xo].0, rl[i - 1].0));
                    assert(lex_lt(new[i - 1].0, new[i].0));
                    lemma_sandwich_prefix(rl[xo].0, rl[i - 1].0, t);
                }
            }
        }
    }
}

/// Trimming keeps the stored prefixes uniquely identifying across a
/// replacement as well: when the previous record's stored prefix is
/// contained in the new key, both the previous key and the new one are
/// stored cut one byte past their first difference, and a strictly sorted,
/// prefix-free list stays so — provided the primary answered with a key
/// that the replaced record's stored prefix is a prefix of, which any
/// consistent primary does.
pub proof fn lemma_replace_keeps_invariant(
    rl: Seq<(Seq<u8>, u64)>,
    ikey: Seq<u8>,
    off: u64,
    ps: Seq<u8>,
)
    requires
        rl_sorted(rl),
        rl_prefix_free(rl),
        prev_is_prefix(rl, ikey),
        fnc_spec(ikey, ps) < ikey.len(),
        fnc_spec(ikey, ps) < ps.len(),
        is_key_prefix(rl[find_idx(rl, ikey) - 1].0, ps),
    ensures
        rl_sorted(replace_records(rl, ikey, off, ps)),
        rl_prefix_free(replace_records(rl, ikey, off, ps)),
{
    let new = replace_records(rl, ikey, off, ps);
    let i = find_idx(rl, ikey);
    let k = fnc_spec(ikey, ps);
    let r = rl[i - 1].0;
    crate::recordlist::lemma_find_idx(rl, ikey);
    lemma_fnc(ikey, ps);
    let tp = ps.subrange(0, k + 1);
    let ti = ikey.subrange(0, k + 1);
    // the fetched key agrees with the index key as far as the stored prefix
    // reaches, so the first difference lies beyond it
    assert(k >= r.len()) by {
        if k < r.len() {
            assert(ikey[k as int] == r[k as int]);
            assert(ps[k as int] == r[k as int]);
            assert(ikey[k as int] != ps[k as int]);
        }
    }
    assert(ps[k as int] != ikey[k as int]);
    assert(tp[k as int] != ti[k as int]);
    lemma_fnc_is(tp, ti, k);
    lemma_fnc_is(ti, tp, k);
    lemma_lex_by_fnc(tp, ti);
    lemma_lex_by_fnc(ti, tp);
    assert(lex_lt(tp, ti) || lex_lt(ti, tp));
    // both trimmed keys extend the replaced record's stored prefix
    assert(is_key_prefix(r, tp)) by {
        assert(r =~= tp.subrange(0, r.len() as int));
    }
    assert(is_key_prefix(r, ti)) by {
        assert(r =~= ti.subrange(0, r.len() as int));
    }
    assert(lex_lt(r, tp)) by {
        lemma_fnc_is(r, tp, r.len() as int);
        lemma_lex_by_fnc(r, tp);
    }
    assert(lex_lt(r, ti)) by {
        lemma_fnc_is(r, ti, r.len() as int);
        lemma_lex_by_fnc(r, ti);
    }
    // the record after the insertion point differs from the index key
    // before the stored prefix ends, hence from both trimmed keys
    if i < rl.len() {
        let next = rl[i].0;
        let d = fnc_spec(ikey, next);
        lemma_fnc(ikey, next);
        assert(lex_lt(ikey, next));
        assert(d < r.len()) by {
            if d >= r.len() {
                assert(is_key_prefix(r, next)) by {
                    assert(r =~= next.subrange(0, r.len() as int));
                }
            }
        }
        assert(d < next.len()) by {
            if d == next.len() {
                assert(is_key_prefix(next, ikey)) by {
                    assert(next =~= ikey.subrange(0, next.len() as int));
                }
                crate::recordlist::lemma_prefix_not_gt(next, ikey);
            }
        }
        lemma_lex_by_fnc(ikey, next);
        assert(ikey[d] < next[d]);
        assert(tp[d] == ikey[d]) by {
            assert(ps[d] == ikey[d]);
        }
        assert(ti[d] == ikey[d]);
        lemma_fnc_is(tp, next, d);
        lemma_lex_by_fnc(tp, next);
        assert(lex_lt(tp, next));
        lemma_fnc_is(ti, next, d);
        lemma_lex_by_fnc(ti, next);
        assert(lex_lt(ti, next));
        // neither trimmed key is a prefix of it, nor it of them
        assert(!is_key_prefix(tp, next)) by {
            if is_key_prefix(tp, next) {
                assert(tp[d] == next[d]);
            }
        }
        assert(!is_key_prefix(ti, next)) by {
            if is_key_prefix(ti, next) {
                assert(ti[d] == next[d]);
            }
        }
        if is_key_prefix(next, tp) {
            crate::recordlist::lemma_prefix_not_gt(next, tp);
        }
        if is_key_prefix(next, ti) {
            crate::recordlist::lemma_prefix_not_gt(next, ti);
        }
    }
    // records before the replaced one are below both trimmed keys and
    // prefix-free against them
    assert forall|j: int| 0 <= j < i - 1 implies lex_lt(#[trigger] rl[j].0, tp) && lex_lt(
        rl[j].0,
        ti,
    ) && !is_key_prefix(rl[j].0, tp) && !is_key_prefix(rl[j].0, ti) && !is_key_prefix(
        tp,
        rl[j].0,
    ) && !is_key_prefix(ti, rl[j].0) by {
        assert(lex_lt(rl[j].0, r));
        crate::recordlist::lemma_lex_lt_trans(rl[j].0, r, tp);
        crate::recordlist::lemma_lex_lt_trans(rl[j].0, r, ti);
        if is_key_prefix(rl[j].0, tp) {
            lemma_sandwich_prefix(rl[j].0, r, tp);
        }
        if is_key_prefix(rl[j].0, ti) {
            lemma_sandwich_prefix(rl[j].0, r, ti);
        }
        if is_key_prefix(tp, rl[j].0) {
            crate::recordlist::lemma_prefix_not_gt(tp, rl[j].0);
        }
        if is_key_prefix(ti, rl[j].0) {
            crate::recordlist::lemma_prefix_not_gt(ti, rl[j].0);
        }
    }
    let pair = if lex_lt(tp, ti) {
        seq![(tp, rl[i - 1].1), (ti, off)]
    } else {
        seq![(ti, off), (tp, rl[i - 1].1)]
    };
    assert(new == rl.take(i - 1) + pair + rl.skip(i));
    assert forall|x: int, y: int| 0 <= x < y < new.len() implies lex_lt(
        #[trigger] new[x].0,
        #[trigger] new[y].0,
    ) by {
        if y < i - 1 {
            assert(new[x] == rl[x] && new[y] == rl[y]);
        } else if x >= i + 1 {
            assert(new[x] == rl[x - 1] && new[y] == rl[y - 1]);
        } else if x < i - 1 && y >= i + 1 {
            assert(new[x] == rl[x] && new[y] == rl[y - 1]);
            assert(lex_lt(rl[x].0, rl[y - 1].0));
        } else if x < i - 1 {
            // y names one of the two new records
            assert(new[x] == rl[x]);
            assert(new[y].0 == tp || new[y].0 == ti);
        } else if y >= i + 1 {
            // x names one of the two new records
            assert(new[y] == rl[y - 1]);
            assert(new[x].0 == tp || new[x].0 == ti);
            assert(i <= y - 1);
            if y - 1 > i {
                assert(lex_lt(rl[i].0, rl[y - 1].0));
                crate::recordlist::lemma_lex_lt_trans(tp, rl[i].0, rl[y - 1].0);
                crate::recordlist::lemma_lex_lt_trans(ti, rl[i].0, rl[y - 1].0);
            }
        } else {
            // both are the new records, in the order the comparison chose
            assert(x == i - 1 && y == i);
        }
    }
    assert forall|x: int, y: int|
        0 <= x < new.len() && 0 <= y < new.len() && x != y implies !is_key_prefix(
        #[trigger] new[x].0,
        #[trigger] new[y].0,
    ) by {
        let xn = i - 1 <= x <= i;
        let yn = i - 1 <= y <= i;
        if !xn && !yn {
            let xo = if x < i - 1 {
                x
            } else {
                x - 1
            };
            let yo = if y < i - 1 {
                y
            } else {
                y - 1
            };
            assert(new[x] == rl[xo] && new[y] == rl[yo]);
        } else if xn && yn {
            assert(new[x].0 == tp && new[y].0 == ti || new[x].0 == ti && new[y].0 == tp);
            if is_key_prefix(tp, ti) {
                assert(tp[k as int] == ti[k as int]);
            }
            if is_key_prefix(ti, tp) {
                assert(ti[k as int] == tp[k as int]);
            }
        } else if xn {
            // a new record against an old one
            assert(new[x].0 == tp || new[x].0 == ti);
            let yo = if y < i - 1 {
                y
            } else {
                y - 1
            };
            assert(new[y] == rl[yo]);
            if is_key_prefix(new[x].0, rl[yo].0) {
                if yo < i - 1 {
                } else if yo == i {
                    assert(new[x].0[fnc_spec(ikey, rl[i].0)] == rl[i].0[fnc_spec(ikey, rl[i].0)]);
                } else {
                    // further right: sandwich through the old next record
                    assert(lex_lt(rl[i].0, rl[yo].0));
                    lemma_sandwich_prefix(new[x].0, rl[i].0, rl[yo].0);
                    assert(new[x].0[fnc_spec(ikey, rl[i].0)] == rl[i].0[fnc_spec(ikey, rl[i].0)]);
                }
            }
        } else {
            // an old record against a new one
            assert(new[y].0 == tp || new[y].0 == ti);
            let xo = if x < i - 1 {
                x
            } else {
                x - 1
            };
            assert(new[x] == rl[xo]);
            if is_key_prefix(rl[xo].0, new[y].0) {
                if xo < i - 1 {
                } else {
                    // an old record right of the pair is larger than it
                    assert(xo >= i);
                    assert(lex_lt(new[y].0, rl[xo].0)) by {
                        if xo > i {
                            assert(lex_lt(rl[i].0, rl[xo].0));
                            crate::recordlist::lemma_lex_lt_trans(tp, rl[i].0, rl[xo].0);
                            crate::recordlist::lemma_lex_lt_trans(ti, rl[i].0, rl[xo].0);
                        }
                    }
                    crate::recordlist::lemma_prefix_not_gt(rl[xo].0, new[y].0);
                }
            }
        }
    }
}

/// Trimming minimality for the inserted record: the stored prefix is the
/// shortest prefix of the index key — and at least one byte long — that is
/// both strictly greater than the previous record's stored key and not a
/// prefix of the next record's stored key; any shorter prefix would be
/// ambiguous with a neighbor.
pub proof fn lemma_insert_trims_minimally(rl: Seq<(Seq<u8>, u64)>, ikey: Seq<u8>, off: u64)
    requires
        rl_sorted(rl),
        ikey.len() >= 1,
        !prev_is_prefix(rl, ikey),
        find_idx(rl, ikey) < rl.len() ==> fnc_spec(ikey, rl[find_idx(rl, ikey)].0) < ikey.len(),
    ensures
        ({
            let new = insert_records(rl, ikey, off);
            let i = find_idx(rl, ikey);
            let t = new[i].0;
            &&& t.len() >= 1
            &&& is_key_prefix(t, ikey)
            &&& i > 0 ==> lex_lt(rl[i - 1].0, t)
            &&& i < rl.len() ==> !is_key_prefix(t, rl[i].0)
            &&& forall|l: int|
                1 <= l < t.len() ==> !((i > 0 ==> lex_lt(rl[i - 1].0, ikey.subrange(0, l))) && (i
                    < rl.len() ==> !is_key_prefix(ikey.subrange(0, l), rl[i].0)))
        }),
{
    let new = insert_records(rl, ikey, off);
    let i = find_idx(rl, ikey);
    crate::recordlist::lemma_find_idx(rl, ikey);
    lemma_insert_sorted(rl, ikey, off);
    let p = if i > 0 {
        fnc_spec(ikey, rl[i - 1].0)
    } else {
        0
    };
    let n = if i < rl.len() {
        fnc_spec(ikey, rl[i].0)
    } else {
        0
    };
    let m = if p > n {
        p
    } else {
        n
    };
    if i > 0 {
        lemma_fnc(ikey, rl[i - 1].0);
    }
    if i < rl.len() {
        lemma_fnc(ikey, rl[i].0);
    }
    assert(m < ikey.len()) by {
        if i > 0 && p >= ikey.len() {
            assert(p == ikey.len());
            lemma_lex_by_fnc(ikey, rl[i - 1].0);
            if p < rl[i - 1].0.len() {
                assert(lex_lt(ikey, rl[i - 1].0));
            } else {
                assert(is_key_prefix(rl[i - 1].0, ikey)) by {
                    assert(rl[i - 1].0 =~= ikey.subrange(0, rl[i - 1].0.len() as int));
                }
            }
        }
    }
    let t = new[i].0;
    assert(t == ikey.subrange(0, m + 1));
    // the neighbor relations follow from the preserved sort order
    if i > 0 {
        assert(new[i - 1] == rl[i - 1]);
        assert(lex_lt(new[i - 1].0, new[i].0));
    }
    // not a prefix of the next record's key: they differ within `t`
    if i < rl.len() {
        let next = rl[i].0;
        assert(n < next.len()) by {
            if n == next.len() {
                lemma_lex_by_fnc(ikey, next);
                assert(lex_lt(next, ikey));
                crate::recordlist::lemma_lex_lt_trans(ikey, next, ikey);
                lemma_lex_irrefl(ikey);
            }
        }
        lemma_lex_by_fnc(ikey, next);
        if is_key_prefix(t, next) {
            assert(t[n] == next[n]);
            assert(ikey[n] != next[n]);
        }
    }
    // any shorter prefix collides with the neighbor that forced the length
    assert forall|l: int|
        1 <= l < t.len() implies !((i > 0 ==> lex_lt(rl[i - 1].0, ikey.subrange(0, l))) && (i
        < rl.len() ==> !is_key_prefix(ikey.subrange(0, l), rl[i].0))) by {
        let c = ikey.subrange(0, l);
        if m == p && i > 0 {
            // the candidate agrees with the previous key throughout, so it
            // is a prefix of it and not strictly greater
            let prev = rl[i - 1].0;
            assert(l <= p);
            assert(p < prev.len()) by {
                if p == prev.len() {
                    assert(is_key_prefix(prev, ikey)) by {
                        assert(prev =~= ikey.subrange(0, prev.len() as int));
                    }
                }
            }
            assert(is_key_prefix(c, prev)) by {
                assert(c =~= prev.subrange(0, l));
            }
            crate::recordlist::lemma_prefix_not_gt(c, prev);
        } else {
            // the candidate is a prefix of the next record's key
            let next = rl[i].0;
            assert(l <= n);
            assert(is_key_prefix(c, next)) by {
                assert(c =~= next.subrange(0, l));
            }
        }
    }
}

/// Trimming minimality for a replacement: both keys are stored cut exactly
/// one byte past their first difference, which is the shortest prefix of
/// either that is not also a prefix of the other — any shorter cut of one
/// key would be a prefix of the other's stored key.
pub proof fn lemma_replace_trims_minimally(ikey: Seq<u8>, ps: Seq<u8>)
    requires
        fnc_spec(ikey, ps) < ikey.len(),
        fnc_spec(ikey, ps) < ps.len(),
    ensures
        ({
            let k = fnc_spec(ikey, ps);
            let tp = ps.subrange(0, k + 1);
            let ti = ikey.subrange(0, k + 1);
            &&& !is_key_prefix(tp, ti)
            &&& !is_key_prefix(ti, tp)
            &&& forall|l: int|
                1 <= l <= k ==> is_key_prefix(#[trigger] ikey.subrange(0, l), tp) && is_key_prefix(
                    ps.subrange(0, l),
                    ti,
                )
        }),
{
    let k = fnc_spec(ikey, ps);
    lemma_fnc(ikey, ps);
    let tp = ps.subrange(0, k + 1);
    let ti = ikey.subrange(0, k + 1);
    assert(tp[k as int] != ti[k as int]);
    assert forall|l: int| 1 <= l <= k implies is_key_prefix(#[trigger] ikey.subrange(0, l), tp)
        && is_key_prefix(ps.subrange(0, l), ti) by {
        assert(ikey.subrange(0, l) =~= tp.subrange(0, l));
        assert(ps.subrange(0, l) =~= ti.subrange(0, l));
    }
}

/// Copy the bytes of `src[from..to]`.
fn copy_range(src: &Vec<u8>, from: usize, to: usize) -> (r: Vec<u8>)
    requires
        from <= to <= src@.len(),
    ensures
        r@ == src@.subrange(from as int, to as int),
{
    let mut out: Vec<u8> = Vec::new();
    let mut i: usize = from;
    while i < to
        invariant
            from <= i <= to <= src@.len(),
            out@ == src@.subrange(from as int, i as int),
        decreases to - i,
    {
        out.push(src[i]);
        proof {
            assert(out@ =~= src@.subrange(from as int, i + 1));
        }
        i = i + 1;
    }
    proof {
        assert(out@ =~= src@.subrange(from as int, to as int));
    }
    out
}

/// Append all of `src` to `dst`.
fn push_bytes(dst: &mut Vec<u8>, src: &[u8])
    ensures
        final(dst)@ == old(dst)@ + src@,
{
    let ghost before = dst@;
    let mut i: usize = 0;
    while i < src.len()
        invariant
            i <= src@.len(),
            dst@ == before + src@.subrange(0, i as int),
        decreases src@.len() - i,
    {
        dst.push(src[i]);
        proof {
            assert(dst@ =~= before + src@.subrange(0, i + 1));
        }
        i = i + 1;
    }
    proof {
        assert(dst@ =~= before + src@);
    }
}

/// Do the bytes of `data[from..to]` parse as whole records?
fn check_records(data: &Vec<u8>, from: usize, to: usize) -> (r: bool)
    requires
        from <= to <= data@.len(),
    ensures
        r == rl_wf(data@.subrange(from as int, to as int)),
{
    let mut i: usize = from;
    loop
        invariant
            from <= i <= to <= data@.len(),
            rl_wf(data@.subrange(from as int, to as int)) == rl_wf(
                data@.subrange(i as int, to as int),
            ),
        decreases to - i,
    {
        let remaining = to - i;
        if remaining == 0 {
            proof {
                assert(data@.subrange(i as int, to as int).len() == 0);
            }
            return true;
        }
        if remaining < 9 {
            return false;
        }
        let klen = data[i + 8] as usize;
        if remaining - 9 < klen {
            proof {
                let d = data@.subrange(i as int, to as int);
                assert(d[8] == data@[i + 8]);
                assert(d.len() < 9 + d[8]);
            }
            return false;
        }
        proof {
            let d = data@.subrange(i as int, to as int);
            assert(d[8] == data@[i + 8]);
            assert(d.subrange(9 + klen as int, d.len() as int) =~= data@.subrange(
                i + 9 + klen,
                to as int,
            ));
        }
        i = i + 9 + klen;
    }
}

/// Does the record just before the insertion point hold a stored prefix of
/// the index key? Then that record has to be lengthened to stay
/// distinguishable from the new key.
pub open spec fn prev_is_prefix(rl: Seq<(Seq<u8>, u64)>, ikey: Seq<u8>) -> bool {
    find_idx(rl, ikey) > 0 && is_key_prefix(rl[find_idx(rl, ikey) - 1].0, ikey)
}

/// The record list after inserting `ikey`, trimmed to the shortest prefix
/// that differs from both neighbors, and never beyond the key itself.
pub open spec fn insert_records(rl: Seq<(Seq<u8>, u64)>, ikey: Seq<u8>, off: u64) -> Seq<
    (Seq<u8>, u64),
> {
    let i = find_idx(rl, ikey);
    let p = if i > 0 {
        fnc_spec(ikey, rl[i - 1].0)
    } else {
        0
    };
    let n = if i < rl.len() {
        fnc_spec(ikey, rl[i].0)
    } else {
        0
    };
    let m = if p > n {
        p
    } else {
        n
    };
    let t = if m < ikey.len() - 1 {
        m
    } else {
        ikey.len() - 1
    };
    rl.take(i) + seq![(ikey.subrange(0, t + 1), off)] + rl.skip(i)
}

/// The record list after inserting `ikey` while also replacing the previous
/// record, whose stored prefix was fully contained in `ikey`: both keys are
/// cut one byte past their first difference and stored in order.
pub open spec fn replace_records(
    rl: Seq<(Seq<u8>, u64)>,
    ikey: Seq<u8>,
    off: u64,
    prev_key: Seq<u8>,
) -> Seq<(Seq<u8>, u64)> {
    let i = find_idx(rl, ikey);
    let k = fnc_spec(ikey, prev_key);
    let tp = prev_key.subrange(0, k + 1);
    let ti = ikey.subrange(0, k + 1);
    let pair = if lex_lt(tp, ti) {
        seq![(tp, rl[i - 1].1), (ti, off)]
    } else {
        seq![(ti, off), (tp, rl[i - 1].1)]
    };
    rl.take(i - 1) + pair + rl.skip(i)
}

/// `post` is `pre` with one block appended: bucket `b` now points at the new
/// block, which holds exactly the records `nl`, and every other bucket
/// reads as before.
pub open spec fn appended<P: PrimaryStorage>(
    pre: Index<P>,
    post: Index<P>,
    b: int,
    nl: Seq<(Seq<u8>, u64)>,
) -> bool {
    &&& post.log_view() == pre.log_view() + spec_frame(b, encode_recs(nl))
    &&& post.buckets_view() == pre.buckets_view().update(b, pre.log_view().len() as u64)
    &&& post.bucket_records(b) == nl
    &&& forall|b2: int|
        0 <= b2 < pre.buckets_view().len() && b2 != b ==> post.bucket_records(b2)
            == pre.bucket_records(b2)
}

/// What a successful `put` did when the previous record's prefix was
/// contained in the new key, in terms of the index key `pk` the primary
/// handed back for the previous record's offset.
pub open spec fn branch_a_ok<P: PrimaryStorage>(
    pre: Index<P>,
    post: Index<P>,
    key: Seq<u8>,
    file_offset: u64,
    pk: Seq<u8>,
) -> bool {
    let bits = pre.spec_bits();
    let b = spec_bucket_of(key, bits);
    let ikey = spec_index_key(key, bits);
    let rl = pre.bucket_records(b);
    let i = find_idx(rl, ikey);
    let ps = pk.skip((bits / 8) as int);
    let k = fnc_spec(ikey, ps);
    &&& pre.spec_primary().contents().contains_key(rl[i - 1].1)
    &&& P::index_key_model(pre.spec_primary().contents()[rl[i - 1].1].0) == Some(pk)
    &&& pk.len() >= bits / 8
    &&& if k >= ikey.len() {
        // the key is already stored under trimming: nothing to do
        post.log_view() == pre.log_view() && post.buckets_view() == pre.buckets_view()
    } else {
        k < ps.len() && appended(pre, post, b, replace_records(rl, ikey, file_offset, ps))
    }
}

/// The index key the primary models for the record just before the
/// insertion point: the answer a consistent primary owes `put` when the
/// previous record has to be lengthened.
pub open spec fn modeled_prev_key<P: PrimaryStorage>(pre: Index<P>, key: Seq<u8>) -> Option<
    Seq<u8>,
> {
    let bits = pre.spec_bits();
    let rl = pre.bucket_records(spec_bucket_of(key, bits));
    let prev_off = rl[find_idx(rl, spec_index_key(key, bits)) - 1].1;
    if pre.spec_primary().contents().contains_key(prev_off) {
        P::index_key_model(pre.spec_primary().contents()[prev_off].0)
    } else {
        None
    }
}

/// What `put` does, case by case, when the previous record's stored prefix
/// is contained in the new key and the primary answers with the modeled
/// previous key `pk`: a duplicate under trimming is a no-op, an answer
/// shorter than the bucket prefix or a strict prefix of the new key is
/// corrupt, a record list outgrowing its size field is corrupt, and
/// otherwise the replacement pair is appended.
pub open spec fn branch_a_exact<P: PrimaryStorage>(
    pre: Index<P>,
    post: Index<P>,
    r: Result<(), Error>,
    key: Seq<u8>,
    off: u64,
    pk: Seq<u8>,
) -> bool {
    let bits = pre.spec_bits();
    let b = spec_bucket_of(key, bits);
    let ikey = spec_index_key(key, bits);
    let rl = pre.bucket_records(b);
    let unchanged = post.log_view() == pre.log_view() && post.buckets_view()
        == pre.buckets_view();
    let ps = pk.skip((bits / 8) as int);
    let k = fnc_spec(ikey, ps);
    if pk.len() < bits / 8 {
        r matches Err(e) && e matches Error::IndexCorrupt && unchanged
    } else if k >= ikey.len() {
        r matches Ok(()) && unchanged
    } else if k >= ps.len() {
        r matches Err(e) && e matches Error::IndexCorrupt && unchanged
    } else if encode_recs(replace_records(rl, ikey, off, ps)).len() + 4 > u32::MAX {
        r matches Err(e) && e matches Error::IndexCorrupt && unchanged
    } else {
        r matches Ok(()) && appended(pre, post, b, replace_records(rl, ikey, off, ps))
    }
}

/// The boundaries of a well-formed buffer cut it into the encodings of its
/// leading and trailing records.
pub proof fn lemma_encode_split(data: Seq<u8>, i: int)
    requires
        rl_wf(data),
        0 <= i <= rl_records(data).len(),
    ensures
        data.subrange(0, byte_pos(rl_records(data), i)) == encode_recs(rl_records(data).take(i)),
        data.subrange(byte_pos(rl_records(data), i), data.len() as int) == encode_recs(
            rl_records(data).skip(i),
        ),
{
    let rl = rl_records(data);
    let bp = byte_pos(rl, i);
    lemma_parse_suffix(data, i);
    lemma_encode_parse_recs(data);
    lemma_encode_parse_recs(data.subrange(bp, data.len() as int));
    assert(rl_records(data.subrange(bp, data.len() as int)) == rl.skip(i));
    assert(data.subrange(bp, data.len() as int) == encode_recs(rl.skip(i)));
    lemma_encode_recs_concat(rl.take(i), rl.skip(i));
    assert(rl.take(i) + rl.skip(i) =~= rl);
    assert(data == encode_recs(rl.take(i)) + encode_recs(rl.skip(i)));
    assert(data.subrange(0, bp) =~= encode_recs(rl.take(i)));
}

/// The index engine: the in-memory bucket table, the mirror of the
/// append-only log, and a reference to the primary storage.
pub struct Index<P: PrimaryStorage> {
    buckets: Buckets,
    log: Vec<u8>,
    primary: P,
}

impl<P: PrimaryStorage> Index<P> {
    /// The bytes of the log mirror.
    pub closed spec fn log_view(&self) -> Seq<u8> {
        self.log@
    }

    /// The bucket table.
    pub closed spec fn buckets_view(&self) -> Seq<u64> {
        self.buckets@
    }

    /// The bucket bit size the index runs with.
    pub closed spec fn spec_bits(&self) -> u8 {
        self.buckets.spec_bits()
    }

    /// The primary storage, as a spec value.
    pub closed spec fn spec_primary(&self) -> P {
        self.primary
    }

    /// The engine's invariant: the table covers `2 ^ bits` buckets, the log
    /// starts with a matching header and consists of whole blocks, and the
    /// table is exactly what replaying the log yields.
    pub open spec fn wf(&self) -> bool {
        &&& self.spec_bits() <= 31
        &&& self.buckets_view().len() == (1u32 << self.spec_bits()) as usize
        &&& header_wf(self.log_view(), self.spec_bits())
        &&& self.log_view().len() >= 4 + spec_header_len(self.log_view())
        &&& replay_from(
            self.log_view(),
            4 + spec_header_len(self.log_view()),
            zero_table(self.buckets_view().len() as int),
        ) == Some((self.buckets_view(), self.log_view().len() as int))
    }

    /// The records currently owned by bucket `b`.
    pub open spec fn bucket_records(&self, b: int) -> Seq<(Seq<u8>, u64)> {
        if self.buckets_view()[b] == 0 {
            Seq::empty()
        } else {
            block_records(self.log_view(), self.buckets_view()[b] as int)
        }
    }

    /// What `get` answers: the offset of the last stored prefix of the
    /// index key, inside the key's bucket.
    pub open spec fn spec_get(&self, key: Seq<u8>) -> Option<u64> {
        rl_get_spec(
            self.bucket_records(spec_bucket_of(key, self.spec_bits())),
            spec_index_key(key, self.spec_bits()),
        )
    }

    /// The primary storage whose offsets the index hands out.
    pub fn primary(&self) -> (r: &P)
        ensures
            r == self.spec_primary(),
    {
        &self.primary
    }

    /// Exclusive access to the primary storage.
    pub fn primary_mut(&mut self) -> (r: &mut P)
        ensures
            *r == old(self).spec_primary(),
            final(self).spec_primary() == *final(r),
            final(self).log_view() == old(self).log_view(),
            final(self).buckets_view() == old(self).buckets_view(),
            final(self).spec_bits() == old(self).spec_bits(),
    {
        &mut self.primary
    }

    /// The log bytes, for whoever persists them.
    pub fn log_bytes(&self) -> (r: &Vec<u8>)
        ensures
            r@ == self.log_view(),
    {
        &self.log
    }

    /// The current length of the log in bytes.
    pub fn log_len(&self) -> (r: usize)
        ensures
            r == self.log_view().len(),
    {
        self.log.len()
    }

    /// Open an index over the serialized log, or create a fresh one.
    ///
    /// `log` is `None` when no log exists yet: a fresh header is written
    /// into the mirror. Otherwise the header is checked against `bits` and
    /// the bucket table is rebuilt by replaying the blocks; a truncated
    /// tail is abandoned, while a complete block that is corrupt fails the
    /// open. The caller persists the mirror bytes as the new log contents.
    pub fn open(log: Option<Vec<u8>>, primary: P, bits: u8) -> (r: Result<Self, Error>)
        requires
            bits <= 31,
        ensures
            r matches Ok(idx) ==> (idx.wf() && idx.spec_bits() == bits && idx.spec_primary() == primary),
            log is None ==> (r matches Ok(idx) && idx.log_view() == fresh_log(bits)
                && idx.buckets_view() == zero_table(((1u32 << bits) as usize) as int)),
            log matches Some(bytes) ==> ({
                let d = bytes@;
                let io_bad = d.len() < 4 || (spec_header_len(d) >= 2 && 4 + spec_header_len(d)
                    > d.len());
                let too_short = d.len() >= 4 && spec_header_len(d) < 2;
                &&& io_bad ==> (r matches Err(e) && e matches Error::Io)
                &&& too_short ==> (r matches Err(e) && e matches Error::IndexCorrupt)
                &&& !io_bad && !too_short && d[5] != bits ==> (r matches Err(e) && e matches
                    Error::IndexWrongBitSize(f, w) && f == d[5] && w == bits)
                &&& !io_bad && !too_short && d[5] == bits ==> ({
                    let rep = replay_from(
                        d,
                        4 + spec_header_len(d),
                        zero_table(((1u32 << bits) as usize) as int),
                    );
                    &&& rep is None ==> (r matches Err(e) && e matches Error::IndexCorrupt)
                    &&& rep matches Some(p) ==> (r matches Ok(idx) && idx.log_view() == d.take(p.1)
                        && idx.buckets_view() == p.0)
                })
            }),
    {
        match log {
            None => {
                let header = Header::new(bits);
                let header_bytes = header.to_bytes();
                let mut log_vec = u32_to_le_bytes(2u32);
                push_bytes(&mut log_vec, header_bytes.as_slice());
                let buckets = Buckets::new(bits);
                proof {
                    lemma_auto_spec_u32_to_from_le_bytes();
                    assert(log_vec@ =~= fresh_log(bits));
                    assert(log_vec@.subrange(0, 4) =~= spec_u32_to_le_bytes(2u32));
                    assert(spec_header_len(log_vec@) == 2);
                    assert(log_vec@[5] == bits);
                }
                let idx = Index { buckets, log: log_vec, primary };
                proof {
                    assert(idx.buckets_view() =~= zero_table(idx.buckets_view().len() as int));
                    assert(replay_from(
                        idx.log_view(),
                        6,
                        zero_table(idx.buckets_view().len() as int),
                    ) == Some((idx.buckets_view(), 6int)));
                }
                Ok(idx)
            },
            Some(bytes) => {
                let mut log_vec = bytes;
                let ghost d = log_vec@;
                if log_vec.len() < 4 {
                    return Err(Error::Io);
                }
                let p = slice_subrange(log_vec.as_slice(), 0, 4);
                let hsize = u32_from_le_bytes(p) as usize;
                proof {
                    assert(d.subrange(0, 4) == p@);
                }
                if hsize < 2 {
                    return Err(Error::IndexCorrupt);
                }
                if hsize > log_vec.len() - 4 {
                    return Err(Error::Io);
                }
                let found_bits = log_vec[5];
                if found_bits != bits {
                    return Err(Error::IndexWrongBitSize(found_bits, bits));
                }
                let mut buckets = Buckets::new(bits);
                let ghost zeros = zero_table(buckets@.len() as int);
                let ghost start = 4 + hsize as int;
                proof {
                    assert(buckets@ =~= zeros);
                }
                let mut pos: usize = 4 + hsize;
                loop
                    invariant
                        4 + hsize <= pos <= log_vec@.len(),
                        log_vec@ == d,
                        log matches Some(b0) && b0@ == d,
                        d.len() >= 4,
                        spec_header_len(d) == hsize,
                        2 <= hsize,
                        4 + hsize <= d.len(),
                        d[5] == bits,
                        bits <= 31,
                        zeros == zero_table(((1u32 << bits) as usize) as int),
                        buckets.wf(),
                        buckets.spec_bits() == bits,
                        zeros.len() == buckets@.len(),
                        start == 4 + hsize,
                        replay_from(d, start, zeros) == replay_from(d, pos as int, buckets@),
                    ensures
                        4 + hsize <= pos <= log_vec@.len(),
                        log_vec@ == d,
                        buckets.wf(),
                        buckets.spec_bits() == bits,
                        zeros.len() == buckets@.len(),
                        replay_from(d, start, zeros) == Some((buckets@, pos as int)),
                    decreases log_vec@.len() - pos,
                {
                    if log_vec.len() - pos < 4 {
                        proof {
                            assert(replay_from(d, pos as int, buckets@) == Some(
                                (buckets@, pos as int),
                            ));
                        }
                        break ;
                    }
                    let sb = slice_subrange(log_vec.as_slice(), pos, pos + 4);
                    let size = u32_from_le_bytes(sb) as usize;
                    proof {
                        assert(d.subrange(pos as int, pos + 4) == sb@);
                        assert(block_size(d, pos as int) == size);
                    }
                    if size > log_vec.len() - pos - 4 {
                        proof {
                            assert(replay_from(d, pos as int, buckets@) == Some(
                                (buckets@, pos as int),
                            ));
                        }
                        break ;
                    }
                    if size < 4 {
                        proof {
                            assert(replay_from(d, pos as int, buckets@) is None);
                        }
                        return Err(Error::IndexCorrupt);
                    }
                    let bb = slice_subrange(log_vec.as_slice(), pos + 4, pos + 8);
                    let bucket = u32_from_le_bytes(bb);
                    proof {
                        assert(d.subrange(pos + 4, pos + 8) == bb@);
                        assert(block_bucket(d, pos as int) == bucket);
                    }
                    if bucket as usize >= buckets.len() {
                        proof {
                            assert(replay_from(d, pos as int, buckets@) is None);
                        }
                        return Err(Error::IndexCorrupt);
                    }
                    if !check_records(&log_vec, pos + 8, pos + 4 + size) {
                        proof {
                            assert(d.subrange(pos + 8, pos + 4 + size) == block_body(
                                d,
                                pos as int,
                            ));
                            assert(replay_from(d, pos as int, buckets@) is None);
                        }
                        return Err(Error::IndexCorrupt);
                    }
                    proof {
                        assert(d.subrange(pos + 8, pos + 4 + size) == block_body(d, pos as int));
                    }
                    match buckets.put(bucket as usize, pos as u64) {
                        Ok(()) => (),
                        Err(e) => {
                            proof {
                                assert(false);
                            }
                            return Err(e);
                        },
                    }
                    pos = pos + 4 + size;
                }
                // the tail after the last complete block is abandoned
                log_vec.truncate(pos);
                proof {
                    assert(replay_from(d, pos as int, buckets@) == Some((buckets@, pos as int)));
                    assert(log_vec@ =~= d.take(pos as int));
                    lemma_replay_truncate(d, start, zeros);
                    assert(replay_from(d.take(pos as int), start, zeros) == Some(
                        (buckets@, pos as int),
                    ));
                }
                let idx = Index { buckets, log: log_vec, primary };
                proof {
                    assert(idx.log_view().subrange(0, 4) =~= d.subrange(0, 4));
                    assert(spec_header_len(idx.log_view()) == hsize);
                    assert(idx.log_view()[5] == d[5]);
                }
                Ok(idx)
            },
        }
    }

    /// Get the file offset in the primary storage of a key.
    ///
    /// The key must be at least 4 bytes long. When the stored prefixes of
    /// the key's bucket are sorted — which every list written by `put` is —
    /// the answer is exactly the last stored prefix of the index key, or
    /// `None` when no stored prefix matches; the caller confirms the full
    /// key against the primary, since a prefix can match more than one key.
    pub fn get(&self, key: &[u8]) -> (r: Result<Option<u64>, Error>)
        requires
            self.wf(),
            key@.len() >= 4,
        ensures
            r is Ok,
            rl_sorted(self.bucket_records(spec_bucket_of(key@, self.spec_bits()))) ==> r
                == Ok::<Option<u64>, Error>(self.spec_get(key@)),
            r matches Ok(o) && o matches Some(off) ==> exists|j: int|
                #![trigger self.bucket_records(spec_bucket_of(key@, self.spec_bits()))[j]]
                (0 <= j < self.bucket_records(spec_bucket_of(key@, self.spec_bits())).len()
                    && is_key_prefix(
                    self.bucket_records(spec_bucket_of(key@, self.spec_bits()))[j].0,
                    spec_index_key(key@, self.spec_bits()),
                ) && off == self.bucket_records(spec_bucket_of(key@, self.spec_bits()))[j].1),
    {
        let bits = self.buckets.bits();
        let pb = slice_subrange(key, 0, 4);
        let prefix = u32_from_le_bytes(pb);
        proof {
            let b = bits;
            assert(b <= 31 ==> (1u32 << b) >= 1u32) by (bit_vector);
        }
        let leading_bits: u32 = (1u32 << bits) - 1;
        let bucket: u32 = prefix & leading_bits;
        proof {
            assert(key@.subrange(0, 4) == pb@);
            let b = bits;
            let x = prefix;
            assert(b <= 31 ==> (x & ((1u32 << b) - 1) as u32) < (1u32 << b)) by (bit_vector);
            assert(bucket == spec_bucket_of(key@, bits));
        }
        let index_offset = match self.buckets.get(bucket as usize) {
            Ok(o) => o,
            Err(e) => {
                proof {
                    assert(false);
                }
                return Err(e);
            },
        };
        let index_key = strip_bucket_prefix(key, bits);
        if index_offset == 0 {
            return Ok(None);
        }
        proof {
            assert(self.log.len() == self.log_view().len());
            lemma_replay_valid_offsets(
                self.log_view(),
                4 + spec_header_len(self.log_view()),
                zero_table(self.buckets_view().len() as int),
                self.buckets_view().len() as int,
            );
            assert(valid_block_at(
                self.log_view(),
                index_offset as int,
                self.buckets_view().len() as int,
            ));
        }
        let o = index_offset as usize;
        let sb = slice_subrange(self.log.as_slice(), o, o + 4);
        let size = u32_from_le_bytes(sb) as usize;
        proof {
            assert(self.log_view().subrange(o as int, o + 4) == sb@);
            assert(size == block_size(self.log_view(), o as int));
        }
        let data = copy_range(&self.log, o + 4, o + 4 + size);
        let records = RecordList::new(data.as_slice());
        proof {
            assert(records@ =~= block_body(self.log_view(), o as int));
        }
        let file_offset = records.get(index_key);
        Ok(file_offset)
    }

    /// Write one block — size, bucket, record bytes — at the end of the log
    /// and repoint the bucket at it.
    fn append_block(
        &mut self,
        bucket: u32,
        new_data: &Vec<u8>,
        Ghost(newlist): Ghost<Seq<(Seq<u8>, u64)>>,
    )
        requires
            old(self).wf(),
            bucket < old(self).buckets_view().len(),
            new_data@ == encode_recs(newlist),
            parse_recs(new_data@) == Some(newlist),
            new_data@.len() + 4 <= u32::MAX,
        ensures
            final(self).wf(),
            final(self).spec_bits() == old(self).spec_bits(),
            final(self).spec_primary() == old(self).spec_primary(),
            appended(*old(self), *final(self), bucket as int, newlist),
    {
        let ghost pre = *old(self);
        let ghost b_g = bucket as int;
        let recordlist_pos: u64 = self.log.len() as u64;
        let ghost old_log = self.log_view();
        let new_data_size: u32 = (new_data.len() as u32) + 4;
        let size_bytes = u32_to_le_bytes(new_data_size);
        let bucket_bytes = u32_to_le_bytes(bucket);
        push_bytes(&mut self.log, size_bytes.as_slice());
        push_bytes(&mut self.log, bucket_bytes.as_slice());
        push_bytes(&mut self.log, new_data.as_slice());
        proof {
            assert(self.log_view() =~= old_log + spec_frame(b_g, encode_recs(newlist)));
            assert(self.log.len() == self.log_view().len());
            lemma_replay_append(
                old_log,
                4 + spec_header_len(old_log),
                zero_table(pre.buckets_view().len() as int),
                b_g,
                encode_recs(newlist),
            );
        }
        match self.buckets.put(bucket as usize, recordlist_pos) {
            Ok(()) => (),
            Err(e) => {
                proof {
                    assert(false);
                }
            },
        }
        proof {
            lemma_auto_spec_u32_to_from_le_bytes();
            let post = *self;
            let frame = spec_frame(b_g, encode_recs(newlist));
            assert(post.log_view().subrange(0, 4) =~= old_log.subrange(0, 4));
            assert(spec_header_len(post.log_view()) == spec_header_len(old_log));
            assert(post.log_view()[5] == old_log[5]);
            assert(post.buckets_view() == pre.buckets_view().update(
                b_g,
                pre.log_view().len() as u64,
            ));
            // the new bucket entry points at the appended block
            assert(post.log_view().subrange(
                old_log.len() as int,
                old_log.len() as int + 4,
            ) =~= spec_u32_to_le_bytes(new_data_size));
            assert(block_size(post.log_view(), old_log.len() as int) == new_data_size);
            assert(post.log_view().subrange(
                old_log.len() as int + 4,
                old_log.len() as int + 8,
            ) =~= spec_u32_to_le_bytes(bucket));
            assert(block_bucket(post.log_view(), old_log.len() as int) == b_g);
            assert(block_body(post.log_view(), old_log.len() as int) =~= encode_recs(newlist));
            assert(post.bucket_records(b_g) == newlist);
            // every other bucket still reads its old block
            lemma_replay_valid_offsets(
                old_log,
                4 + spec_header_len(old_log),
                zero_table(pre.buckets_view().len() as int),
                pre.buckets_view().len() as int,
            );
            assert forall|b2: int|
                0 <= b2 < pre.buckets_view().len() && b2 != b_g implies post.bucket_records(b2)
                == pre.bucket_records(b2) by {
                if pre.buckets_view()[b2] != 0 {
                    lemma_block_stable(
                        old_log,
                        frame,
                        pre.buckets_view()[b2] as int,
                        pre.buckets_view().len() as int,
                    );
                }
            }
            assert(appended(pre, post, b_g, newlist));
        }
    }

    /// Put a key together with a file offset into the index.
    ///
    /// The key needs to be a cryptographically secure hash of at least 4
    /// bytes; what remains of it after the bucket bytes must fit a one-byte
    /// length. A new record list for the key's bucket is appended to the
    /// log and the bucket repointed; no other bucket changes. When the
    /// previous record's stored prefix is contained in the new key, the
    /// primary is asked for the previous full index key so that both can be
    /// stored under distinguishing prefixes; a key already present under
    /// trimming is left alone, and a previous key that cannot be
    /// distinguished at all — one the primary reports as a strict prefix of
    /// the new key — is refused as corrupt, as is a primary answer shorter
    /// than the bucket prefix or a record list outgrowing its size field.
    #[verifier::rlimit(100)]
    #[verifier::spinoff_prover]
    pub fn put(&mut self, key: &[u8], file_offset: u64) -> (r: Result<(), Error>)
        requires
            old(self).wf(),
            key@.len() >= 4,
            key@.len() - (old(self).spec_bits() as int) / 8 <= 255,
        ensures
            final(self).wf(),
            final(self).spec_bits() == old(self).spec_bits(),
            final(self).spec_primary().contents() == old(self).spec_primary().contents(),
            r is Err ==> (final(self).log_view() == old(self).log_view()
                && final(self).buckets_view() == old(self).buckets_view()),
            r matches Err(e) ==> (e matches Error::Primary(_) || e matches Error::IndexCorrupt),
            ({
                let bits = old(self).spec_bits();
                let b = spec_bucket_of(key@, bits);
                let ikey = spec_index_key(key@, bits);
                let rl = old(self).bucket_records(b);
                &&& old(self).buckets_view()[b] == 0 ==> (r matches Ok(()) && appended(
                    *old(self),
                    *final(self),
                    b,
                    seq![(ikey.take(1), file_offset)],
                ))
                &&& old(self).buckets_view()[b] != 0 && !prev_is_prefix(rl, ikey) ==> ({
                    let nl = insert_records(rl, ikey, file_offset);
                    &&& (r matches Ok(())) <==> encode_recs(nl).len() + 4 <= u32::MAX
                    &&& r matches Ok(()) ==> appended(*old(self), *final(self), b, nl)
                })
                &&& (old(self).buckets_view()[b] != 0 && prev_is_prefix(rl, ikey) && (r matches Ok(
                    (),
                ))) ==> exists|pk: Seq<u8>|
                    branch_a_ok(*old(self), *final(self), key@, file_offset, pk)
                &&& old(self).buckets_view()[b] != 0 && prev_is_prefix(rl, ikey) ==> (
                modeled_prev_key(*old(self), key@) matches Some(pk) ==> branch_a_exact(
                    *old(self),
                    *final(self),
                    r,
                    key@,
                    file_offset,
                    pk,
                ))
            }),
    {
        let ghost pre = *self;
        let bits = self.buckets.bits();
        let pb = slice_subrange(key, 0, 4);
        let prefix = u32_from_le_bytes(pb);
        proof {
            let b = bits;
            assert(b <= 31 ==> (1u32 << b) >= 1u32) by (bit_vector);
        }
        let leading_bits: u32 = (1u32 << bits) - 1;
        let bucket: u32 = prefix & leading_bits;
        proof {
            assert(key@.subrange(0, 4) == pb@);
            let b = bits;
            let x = prefix;
            assert(b <= 31 ==> (x & ((1u32 << b) - 1) as u32) < (1u32 << b)) by (bit_vector);
            assert(bucket == spec_bucket_of(key@, bits));
        }
        let index_offset = match self.buckets.get(bucket as usize) {
            Ok(o) => o,
            Err(e) => {
                proof {
                    assert(false);
                }
                return Err(e);
            },
        };
        let index_key = strip_bucket_prefix(key, bits);
        let ghost b_g = spec_bucket_of(key@, bits);
        let ghost ikey = spec_index_key(key@, bits);
        let ghost rl = pre.bucket_records(b_g);
        let ghost mut newlist: Seq<(Seq<u8>, u64)> = Seq::empty();
        let ghost mut pk_g: Seq<u8> = Seq::empty();
        let new_data: Vec<u8>;
        if index_offset == 0 {
            // no records stored in that bucket yet: a single byte suffices,
            // as the key has no neighbors to be distinguished from
            let trimmed_index_key = slice_subrange(index_key, 0, 1);
            new_data = encode_offset_and_key(trimmed_index_key, file_offset);
            proof {
                newlist = seq![(ikey.take(1), file_offset)];
                assert(trimmed_index_key@ =~= ikey.take(1));
                lemma_encode_rec(trimmed_index_key@, file_offset);
                assert(encode_recs(newlist.drop_first()) == Seq::<u8>::empty());
                assert(newlist[0] == (ikey.take(1), file_offset));
                assert(new_data@ =~= encode_recs(newlist));
                lemma_parse_encode_recs(newlist);
            }
        } else {
            proof {
                assert(self.log.len() == self.log_view().len());
                lemma_replay_valid_offsets(
                    self.log_view(),
                    4 + spec_header_len(self.log_view()),
                    zero_table(self.buckets_view().len() as int),
                    self.buckets_view().len() as int,
                );
                assert(valid_block_at(
                    self.log_view(),
                    index_offset as int,
                    self.buckets_view().len() as int,
                ));
            }
            let o = index_offset as usize;
            let sb = slice_subrange(self.log.as_slice(), o, o + 4);
            let recordlist_size = u32_from_le_bytes(sb) as usize;
            proof {
                assert(self.log_view().subrange(o as int, o + 4) == sb@);
                assert(recordlist_size == block_size(self.log_view(), o as int));
            }
            let data = copy_range(&self.log, o + 4, o + 4 + recordlist_size);
            let records = RecordList::new(data.as_slice());
            proof {
                assert(records@ =~= block_body(self.log_view(), o as int));
                assert(records.records() == rl);
                lemma_encode_parse_recs(records@);
            }
            let (pos, prev_record) = records.find_key_position(index_key);
            let ghost i = find_idx(rl, ikey);
            proof {
                crate::recordlist::lemma_find_idx(rl, ikey);
                lemma_byte_pos_full(records@);
                lemma_byte_pos_mono(records@, i, rl.len() as int);
            }
            let is_branch_a = match &prev_record {
                Some(prev) => starts_with(index_key, prev.key.as_slice()),
                None => false,
            };
            if is_branch_a {
                // the previous key is fully contained in the new one: fetch
                // the full previous key so both can be stored under prefixes
                // that tell them apart
                let prev = match prev_record {
                    Some(p) => p,
                    None => {
                        proof {
                            assert(false);
                        }
                        return Err(Error::IndexCorrupt);
                    },
                };
                let full_prev_key = match self.primary.get_index_key(prev.file_offset) {
                    Ok(v) => v,
                    Err(e) => {
                        proof {
                            // the primary owes an answer for every modeled
                            // position, so a failure means it models none
                            assert(modeled_prev_key(pre, key@) is None);
                        }
                        return Err(Error::Primary(e));
                    },
                };
                proof {
                    assert(modeled_prev_key(pre, key@) matches Some(pk) ==> pk
                        == full_prev_key@);
                }
                if full_prev_key.len() < (bits / 8) as usize {
                    // the primary's key does not even cover the bucket bytes
                    proof {
                        assert(branch_a_exact(
                            pre,
                            *self,
                            Err::<(), Error>(Error::IndexCorrupt),
                            key@,
                            file_offset,
                            full_prev_key@,
                        ));
                    }
                    return Err(Error::IndexCorrupt);
                }
                let prev_key = strip_bucket_prefix(full_prev_key.as_slice(), bits);
                proof {
                    pk_g = full_prev_key@;
                }
                let key_trim_pos = first_non_common_byte(index_key, prev_key);
                if key_trim_pos >= index_key.len() {
                    // the new key is identical to a stored one under
                    // trimming: nothing to do
                    proof {
                        assert(branch_a_ok(pre, *self, key@, file_offset, full_prev_key@));
                        assert(exists|pk: Seq<u8>|
                            branch_a_ok(pre, *self, key@, file_offset, pk));
                        assert(branch_a_exact(
                            pre,
                            *self,
                            Ok::<(), Error>(()),
                            key@,
                            file_offset,
                            full_prev_key@,
                        ));
                    }
                    return Ok(());
                }
                if key_trim_pos >= prev_key.len() {
                    // the stored key is a strict prefix of the new one: no
                    // prefix can distinguish them
                    proof {
                        assert(branch_a_exact(
                            pre,
                            *self,
                            Err::<(), Error>(Error::IndexCorrupt),
                            key@,
                            file_offset,
                            full_prev_key@,
                        ));
                    }
                    return Err(Error::IndexCorrupt);
                }
                let trimmed_prev_key = slice_subrange(prev_key, 0, key_trim_pos + 1);
                let trimmed_index_key = slice_subrange(index_key, 0, key_trim_pos + 1);
                let mut keys: Vec<(Vec<u8>, u64)> = Vec::new();
                if bytes_lt(trimmed_prev_key, trimmed_index_key) {
                    keys.push((slice_to_vec(trimmed_prev_key), prev.file_offset));
                    keys.push((slice_to_vec(trimmed_index_key), file_offset));
                } else {
                    keys.push((slice_to_vec(trimmed_index_key), file_offset));
                    keys.push((slice_to_vec(trimmed_prev_key), prev.file_offset));
                }
                proof {
                    newlist = replace_records(rl, ikey, file_offset, prev_key@);
                    lemma_fnc(ikey, prev_key@);
                    assert(i > 0);
                    lemma_byte_pos_mono(records@, i - 1, i);
                    lemma_encode_split(records@, i - 1);
                    lemma_encode_split(records@, i);
                    let pair = keys_view(keys@);
                    assert(keys@.len() == 2);
                    assert(pair =~= if lex_lt(
                        prev_key@.subrange(0, key_trim_pos + 1),
                        ikey.subrange(0, key_trim_pos + 1),
                    ) {
                        seq![
                            (prev_key@.subrange(0, key_trim_pos + 1), rl[i - 1].1),
                            (ikey.subrange(0, key_trim_pos + 1), file_offset),
                        ]
                    } else {
                        seq![
                            (ikey.subrange(0, key_trim_pos + 1), file_offset),
                            (prev_key@.subrange(0, key_trim_pos + 1), rl[i - 1].1),
                        ]
                    });
                    assert(newlist =~= rl.take(i - 1) + pair + rl.skip(i));
                }
                new_data = records.put_keys(&keys, prev.pos, pos);
                proof {
                    let pair = keys_view(keys@);
                    lemma_encode_recs_concat(rl.take(i - 1) + pair, rl.skip(i));
                    lemma_encode_recs_concat(rl.take(i - 1), pair);
                    assert((rl.take(i - 1) + pair) + rl.skip(i) =~= newlist);
                    assert(new_data@ =~= encode_recs(newlist));
                    assert(forall|m: int|
                        0 <= m < newlist.len() ==> (#[trigger] newlist[m]).0.len() <= 255) by {
                        assert(forall|m: int|
                            0 <= m < rl.len() ==> (#[trigger] rl[m]).0.len() <= 255);
                    }
                    lemma_parse_encode_recs(newlist);
                }
            } else {
                // the previous key is not contained in the new one: trim the
                // new key to the shortest prefix still distinguishable from
                // both neighbors
                let prev_record_pos = match &prev_record {
                    Some(prev) => first_non_common_byte(index_key, prev.key.as_slice()),
                    None => 0,
                };
                let next_record_pos = if pos < records.len() {
                    proof {
                        if i == rl.len() {
                            lemma_byte_pos_full(records@);
                            assert(false);
                        }
                        lemma_record_at(records@, i);
                    }
                    let next_record = records.read_record(pos);
                    first_non_common_byte(index_key, next_record.key.as_slice())
                } else {
                    0
                };
                proof {
                    if i < rl.len() {
                        lemma_record_at(records@, i);
                    }
                }
                let min_prefix = if prev_record_pos > next_record_pos {
                    prev_record_pos
                } else {
                    next_record_pos
                };
                let ikl = index_key.len();
                let key_trim_pos = if min_prefix < ikl - 1 {
                    min_prefix
                } else {
                    ikl - 1
                };
                let trimmed_index_key = slice_subrange(index_key, 0, key_trim_pos + 1);
                let mut keys: Vec<(Vec<u8>, u64)> = Vec::new();
                keys.push((slice_to_vec(trimmed_index_key), file_offset));
                proof {
                    newlist = insert_records(rl, ikey, file_offset);
                    lemma_encode_split(records@, i);
                    let single = keys_view(keys@);
                    assert(single =~= seq![(ikey.subrange(0, key_trim_pos + 1), file_offset)]);
                    assert(newlist =~= rl.take(i) + single + rl.skip(i));
                }
                new_data = records.put_keys(&keys, pos, pos);
                proof {
                    let single = keys_view(keys@);
                    lemma_encode_recs_concat(rl.take(i) + single, rl.skip(i));
                    lemma_encode_recs_concat(rl.take(i), single);
                    assert((rl.take(i) + single) + rl.skip(i) =~= newlist);
                    assert(new_data@ =~= encode_recs(newlist));
                    assert(forall|m: int|
                        0 <= m < newlist.len() ==> (#[trigger] newlist[m]).0.len() <= 255) by {
                        assert(forall|m: int|
                            0 <= m < rl.len() ==> (#[trigger] rl[m]).0.len() <= 255);
                    }
                    lemma_parse_encode_recs(newlist);
                }
            }
        }
        // append the new record list as a block and repoint the bucket
        if new_data.len() > (u32::MAX - 4) as usize {
            proof {
                if pre.buckets_view()[b_g] != 0 && prev_is_prefix(rl, ikey) {
                    assert(branch_a_exact(
                        pre,
                        *self,
                        Err::<(), Error>(Error::IndexCorrupt),
                        key@,
                        file_offset,
                        pk_g,
                    ));
                }
            }
            return Err(Error::IndexCorrupt);
        }
        self.append_block(bucket, &new_data, Ghost(newlist));
        proof {
            let post = *self;
            if pre.buckets_view()[b_g] != 0 && prev_is_prefix(rl, ikey) {
                assert(branch_a_ok(pre, post, key@, file_offset, pk_g));
                assert(exists|pk: Seq<u8>| branch_a_ok(pre, post, key@, file_offset, pk));
                assert(branch_a_exact(pre, post, Ok::<(), Error>(()), key@, file_offset, pk_g));
            }
        }
        Ok(())
    }
}

/// An iterator over the blocks of a serialized log.
///
/// Each step yields the raw block body (bucket field included) together
/// with the byte position where the block's size prefix starts.
pub struct IndexIter {
    data: Vec<u8>,
    pos: usize,
}

impl IndexIter {
    /// The log bytes being iterated over.
    pub closed spec fn data_view(&self) -> Seq<u8> {
        self.data@
    }

    /// The current position inside the log.
    pub closed spec fn pos_view(&self) -> int {
        self.pos as int
    }

    /// Start iterating `index` at byte position `pos`.
    pub fn new(index: Vec<u8>, pos: usize) -> (r: Self)
        ensures
            r.data_view() == index@,
            r.pos_view() == pos,
    {
        Self { data: index, pos }
    }

    /// The next block, `None` at a clean end of the log, or `Io` when the
    /// log ends in the middle of a block.
    pub fn next(&mut self) -> (r: Option<Result<(Vec<u8>, u64), Error>>)
        ensures
            final(self).data_view() == old(self).data_view(),
            ({
                let d = old(self).data_view();
                let p = old(self).pos_view();
                &&& p + 4 > d.len() ==> (r is None && final(self).pos_view() == p)
                &&& p + 4 <= d.len() && p + 4 + block_size(d, p) > d.len() ==> (r matches Some(e)
                    && e matches Err(err) && err matches Error::Io && final(self).pos_view()
                    == d.len())
                &&& p + 4 <= d.len() && p + 4 + block_size(d, p) <= d.len() ==> (r matches Some(e)
                    && e matches Ok(pair) && pair.0@ == d.subrange(p + 4, p + 4 + block_size(d, p))
                    && pair.1 == p && final(self).pos_view() == p + 4 + block_size(d, p))
            }),
    {
        if self.pos > self.data.len() || self.data.len() - self.pos < 4 {
            return None;
        }
        let p = self.pos;
        let sb = slice_subrange(self.data.as_slice(), p, p + 4);
        let size = u32_from_le_bytes(sb) as usize;
        proof {
            assert(self.data@.subrange(p as int, p + 4) == sb@);
        }
        if size > self.data.len() - p - 4 {
            self.pos = self.data.len();
            return Some(Err(Error::Io));
        }
        let body = copy_range(&self.data, p + 4, p + 4 + size);
        self.pos = p + 4 + size;
        Some(Ok((body, p as u64)))
    }
}

} // verus!
