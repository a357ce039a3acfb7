//! Reading entries of a CAR-style primary file.
//!
//! Such a file is a sequence of `varint | CID | data` entries, where the
//! varint is an unsigned LEB128 holding the byte length of `CID | data`.
//! Splitting an entry into the CID and the data means reading the CID's own
//! four leading varints (version, codec, multihash code, multihash size)
//! and skipping the digest.

use vstd::prelude::*;
use vstd::slice::slice_subrange;
use vstd::slice::slice_to_vec;

use wasabi_leb128::ReadLeb128;

use crate::primary::PrimaryError;

verus! {

/// The varint's terminating byte — the first one without the continuation
/// bit — sits at position `n - 1`.
pub open spec fn leb_terminated_at(s: Seq<u8>, n: int) -> bool {
    1 <= n <= s.len() && s[n - 1] < 128 && (forall|i: int| 0 <= i < n - 1 ==> s[i] >= 128)
}

/// The value of the first `n` varint bytes: little-endian, 7 bits a byte.
pub open spec fn leb_value(s: Seq<u8>, n: int) -> nat
    decreases n,
{
    if n <= 0 {
        0
    } else {
        (s[0] % 0x80) as nat + 0x80 * leb_value(s.drop_first(), n - 1)
    }
}

/// Parsing a `u64` varint from these bytes succeeds: a terminator within 10
/// bytes, and a tenth byte without bits beyond the 64th.
pub open spec fn leb_ok_u64(s: Seq<u8>) -> bool {
    exists|n: int| leb_terminated_at(s, n) && n <= 10 && (n == 10 ==> s[9] & 0x7e == 0)
}

/// Parsing a `u64` varint from these bytes runs off their end.
pub open spec fn leb_eof_u64(s: Seq<u8>) -> bool {
    ||| (s.len() < 10 && forall|i: int| 0 <= i < s.len() ==> s[i] >= 128)
    ||| (s.len() == 10 && s[9] & 0x7e == 0 && forall|i: int| 0 <= i < 10 ==> s[i] >= 128)
}

/// Where the terminator of a varint sits, counted from 1.
pub open spec fn leb_len_of(s: Seq<u8>) -> int {
    choose|n: int| leb_terminated_at(s, n)
}

/// A varint has only one terminator position.
pub proof fn lemma_leb_len_unique(s: Seq<u8>, n: int)
    requires
        leb_terminated_at(s, n),
    ensures
        leb_len_of(s) == n,
{
    assert(leb_terminated_at(s, leb_len_of(s))) by {
        assert(exists|k: int| leb_terminated_at(s, k));
    }
    let m = leb_len_of(s);
    if m < n {
        assert(s[m - 1] >= 128);
        assert(false);
    }
    if n < m {
        assert(s[n - 1] >= 128);
        assert(false);
    }
}

/// Relies on wasabi_leb128's `ReadLeb128` for `u64` over a byte slice: it
/// consumes base-128 digits until the first without the continuation bit,
/// at most 10, and rejects a tenth digit carrying bits beyond the 64th.
/// Running off the end of the input maps to `Io`, a too-large value to
/// `Other`, as the index's primary error model asks.
#[verifier::external_body]
fn read_leb128_u64(s: &[u8]) -> (r: Result<(u64, usize), PrimaryError>)
    ensures
        leb_ok_u64(s@) <==> r is Ok,
        r matches Ok(p) ==> (leb_terminated_at(s@, p.1 as int) && p.1 <= 10 && p.0 as nat
            == leb_value(s@, p.1 as int)),
        r matches Err(e) ==> ((e matches PrimaryError::Io) <==> leb_eof_u64(s@)),
{
    let mut reader: &[u8] = s;
    match ReadLeb128::<u64>::read_leb128(&mut reader) {
        Ok((value, bytes_read)) => Ok((value, bytes_read)),
        Err(wasabi_leb128::ParseLeb128Error::UnexpectedEndOfData(_)) => Err(PrimaryError::Io),
        Err(wasabi_leb128::ParseLeb128Error::Other(_)) => Err(PrimaryError::Io),
        Err(_) => Err(PrimaryError::Other),
    }
}

/// Read some data prefixed with a varint byte length.
///
/// Returns the data together with the total bytes the entry occupies —
/// varint plus announced length — which is how far a reader advances. The
/// data itself ends at the buffer's end when the announced length runs past
/// it.
pub fn read_data(bytes: &[u8]) -> (r: Result<(Vec<u8>, u64), PrimaryError>)
    ensures
        leb_ok_u64(bytes@) ==> ({
            let n = leb_len_of(bytes@);
            let size = leb_value(bytes@, n) as int;
            &&& size + n <= u64::MAX ==> (r matches Ok(p) && p.0@ == bytes@.subrange(
                n,
                if n + size > bytes@.len() {
                    bytes@.len() as int
                } else {
                    n + size
                },
            ) && p.1 == size + n)
            &&& size + n > u64::MAX ==> (r matches Err(e) && e matches PrimaryError::Other)
        }),
        !leb_ok_u64(bytes@) ==> (r matches Err(e) && ((e matches PrimaryError::Io) <==> leb_eof_u64(
            bytes@,
        ))),
{
    let (size, n) = match read_leb128_u64(bytes) {
        Ok(p) => p,
        Err(e) => {
            return Err(e);
        },
    };
    proof {
        lemma_leb_len_unique(bytes@, n as int);
    }
    if size > u64::MAX - (n as u64) {
        return Err(PrimaryError::Other);
    }
    let rem = bytes.len() - n;
    let end = if size >= rem as u64 {
        bytes.len()
    } else {
        n + (size as usize)
    };
    let data = slice_to_vec(slice_subrange(bytes, n, end));
    Ok((data, (n as u64) + size))
}

/// Where the CID of a block ends: after the four leading varints and the
/// multihash digest the fourth one measures, if all of that fits.
pub open spec fn cid_end(block: Seq<u8>) -> Option<int> {
    if !leb_ok_u64(block) {
        None
    } else {
        let n1 = leb_len_of(block);
        let r1 = block.skip(n1);
        if !leb_ok_u64(r1) {
            None
        } else {
            let n2 = leb_len_of(r1);
            let r2 = r1.skip(n2);
            if !leb_ok_u64(r2) {
                None
            } else {
                let n3 = leb_len_of(r2);
                let r3 = r2.skip(n3);
                if !leb_ok_u64(r3) {
                    None
                } else {
                    let n4 = leb_len_of(r3);
                    let ms = leb_value(r3, n4) as int;
                    if n1 + n2 + n3 + n4 + ms > block.len() {
                        None
                    } else {
                        Some(n1 + n2 + n3 + n4 + ms)
                    }
                }
            }
        }
    }
}

/// Split a block into its CID and the data behind it.
pub fn read_block(block: &[u8]) -> (r: Result<(Vec<u8>, Vec<u8>), PrimaryError>)
    ensures
        cid_end(block@) matches Some(c) ==> (r matches Ok(p) && p.0@ == block@.subrange(0, c)
            && p.1@ == block@.subrange(c, block@.len() as int)),
        cid_end(block@) is None ==> r is Err,
{
    let (_version, version_offset) = match read_leb128_u64(block) {
        Ok(p) => p,
        Err(e) => {
            return Err(e);
        },
    };
    proof {
        lemma_leb_len_unique(block@, version_offset as int);
    }
    let rest1 = slice_subrange(block, version_offset, block.len());
    let (_codec, codec_offset) = match read_leb128_u64(rest1) {
        Ok(p) => p,
        Err(e) => {
            return Err(e);
        },
    };
    proof {
        assert(rest1@ =~= block@.skip(version_offset as int));
        lemma_leb_len_unique(rest1@, codec_offset as int);
    }
    let rest2 = slice_subrange(rest1, codec_offset, rest1.len());
    let (_multihash_code, multihash_code_offset) = match read_leb128_u64(rest2) {
        Ok(p) => p,
        Err(e) => {
            return Err(e);
        },
    };
    proof {
        assert(rest2@ =~= rest1@.skip(codec_offset as int));
        lemma_leb_len_unique(rest2@, multihash_code_offset as int);
    }
    let rest3 = slice_subrange(rest2, multihash_code_offset, rest2.len());
    let (multihash_size, multihash_size_offset) = match read_leb128_u64(rest3) {
        Ok(p) => p,
        Err(e) => {
            return Err(e);
        },
    };
    proof {
        assert(rest3@ =~= rest2@.skip(multihash_code_offset as int));
        lemma_leb_len_unique(rest3@, multihash_size_offset as int);
    }
    let offsets = version_offset + codec_offset + multihash_code_offset + multihash_size_offset;
    if multihash_size > block.len() as u64 {
        return Err(PrimaryError::Other);
    }
    let ms = multihash_size as usize;
    if offsets > block.len() - ms {
        return Err(PrimaryError::Other);
    }
    let cid_size = offsets + ms;
    let cid = slice_to_vec(slice_subrange(block, 0, cid_size));
    let data = slice_to_vec(slice_subrange(block, cid_size, block.len()));
    Ok((cid, data))
}

} // verus!
