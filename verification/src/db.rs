//! A database-like facade over a primary storage and the index.
//!
//! Keys and values are stored in the primary; the index is updated
//! automatically and answers lookups with the position to read.

use vstd::prelude::*;

use crate::error::Error;
use crate::index::Index;
use crate::index::branch_a_ok;
use crate::index::fnc_spec;
use crate::index::insert_records;
use crate::index::lemma_bucket_in_range;
use crate::index::lemma_put_then_get;
use crate::index::lemma_replace_then_get;
use crate::index::prev_is_prefix;
use crate::index::replay_from;
use crate::index::spec_bucket_of;
use crate::index::spec_header_len;
use crate::index::spec_index_key;
use crate::index::zero_table;
use crate::primary::PrimaryStorage;
use crate::recordlist::encode_recs;
use crate::recordlist::is_key_prefix;
use crate::recordlist::find_idx;
use crate::recordlist::lemma_get_none_without_prefix;
use crate::recordlist::rl_get_spec;
use crate::recordlist::rl_sorted;

verus! {

/// A database to store and retrieve key-value pairs.
pub struct Db<P: PrimaryStorage> {
    index: Index<P>,
}

impl<P: PrimaryStorage> Db<P> {
    /// The index the facade wraps.
    pub closed spec fn index_view(&self) -> Index<P> {
        self.index
    }

    /// The facade is as sound as its index.
    pub open spec fn wf(&self) -> bool {
        self.index_view().wf()
    }

    /// The key-value pairs currently held by the primary storage.
    pub open spec fn contents(&self) -> Map<u64, (Seq<u8>, Seq<u8>)> {
        self.index_view().spec_primary().contents()
    }

    /// Open a database over the primary storage and the serialized index
    /// log; `None` creates a fresh index. The outcome is the index's:
    /// every error case of the log is surfaced unchanged.
    pub fn open(primary: P, log: Option<Vec<u8>>, bits: u8) -> (r: Result<Self, Error>)
        requires
            bits <= 31,
        ensures
            r matches Ok(db) ==> (db.wf() && db.index_view().spec_bits() == bits
                && db.index_view().spec_primary() == primary),
            log is None ==> r is Ok,
            log matches Some(bytes) ==> ({
                let d = bytes@;
                let io_bad = d.len() < 4 || (spec_header_len(d) >= 2 && 4 + spec_header_len(d)
                    > d.len());
                let too_short = d.len() >= 4 && spec_header_len(d) < 2;
                &&& io_bad ==> (r matches Err(e) && e matches Error::Io)
                &&& too_short ==> (r matches Err(e) && e matches Error::IndexCorrupt)
                &&& !io_bad && !too_short && d[5] != bits ==> (r matches Err(e) && e matches
                    Error::IndexWrongBitSize(f, w) && f == d[5] && w == bits)
                &&& !io_bad && !too_short && d[5] == bits ==> ({
                    let rep = replay_from(
                        d,
                        4 + spec_header_len(d),
                        zero_table(((1u32 << bits) as usize) as int),
                    );
                    &&& rep is None ==> (r matches Err(e) && e matches Error::IndexCorrupt)
                    &&& rep matches Some(p) ==> (r matches Ok(db) && db.index_view().log_view()
                        == d.take(p.1) && db.index_view().buckets_view() == p.0)
                })
            }),
    {
        let index = match Index::open(log, primary, bits) {
            Ok(index) => index,
            Err(e) => {
                return Err(e);
            },
        };
        Ok(Db { index })
    }

    /// The index engine, for whoever persists its log.
    pub fn index(&self) -> (r: &Index<P>)
        ensures
            r == self.index_view(),
    {
        &self.index
    }

    /// Returns the value of the given key, confirming the full key against
    /// the primary storage: the index alone may answer with the position of
    /// a key that merely shares a stored prefix.
    ///
    /// For a primary with a real model and a put-written (hence sorted)
    /// bucket, the answer is exact: the value iff the index finds a
    /// position holding exactly this key, `None` on a miss or a
    /// prefix-only false positive.
    pub fn get(&mut self, key: &[u8]) -> (r: Result<Option<Vec<u8>>, Error>)
        requires
            old(self).wf(),
            P::index_key_model(key@) matches Some(ik) ==> ik.len() >= 4,
        ensures
            final(self).wf(),
            final(self).contents() == old(self).contents(),
            final(self).index_view().log_view() == old(self).index_view().log_view(),
            final(self).index_view().buckets_view() == old(self).index_view().buckets_view(),
            r matches Ok(o) ==> (o matches Some(v) ==> exists|off: u64|
                (#[trigger] old(self).contents().contains_key(off)) && old(self).contents()[off]
                    == (key@, v@)),
            P::index_key_model(key@) matches Some(ik) ==> (rl_sorted(
                old(self).index_view().bucket_records(
                    spec_bucket_of(ik, old(self).index_view().spec_bits()),
                ),
            ) ==> ({
                let answer = old(self).index_view().spec_get(ik);
                &&& answer is None ==> r == Ok::<Option<Vec<u8>>, Error>(None)
                &&& answer matches Some(off) ==> ({
                    &&& old(self).contents().contains_key(off) && old(self).contents()[off].0
                        == key@ ==> (r matches Ok(o) && o matches Some(v) && v@ == old(
                        self,
                    ).contents()[off].1)
                    &&& old(self).contents().contains_key(off) && old(self).contents()[off].0
                        != key@ ==> r == Ok::<Option<Vec<u8>>, Error>(None)
                    &&& !old(self).contents().contains_key(off) ==> (r matches Err(e) && e matches
                        Error::Primary(_))
                })
            })),
    {
        let index_key = match P::index_key(key) {
            Ok(k) => k,
            Err(e) => {
                return Err(Error::Primary(e));
            },
        };
        let file_offset = match self.index.get(index_key.as_slice()) {
            Ok(o) => o,
            Err(e) => {
                return Err(e);
            },
        };
        match file_offset {
            Some(file_offset) => {
                let kv = match self.index.primary_mut().get(file_offset) {
                    Ok(kv) => kv,
                    Err(e) => {
                        return Err(Error::Primary(e));
                    },
                };
                // the index stores only prefixes: the hit counts only when
                // the stored key matches the requested one in full
                if bytes_eq(key, kv.0.as_slice()) {
                    proof {
                        assert(old(self).contents().contains_key(file_offset));
                        assert(old(self).contents()[file_offset] == (key@, kv.1@));
                    }
                    Ok(Some(kv.1))
                } else {
                    Ok(None)
                }
            },
            None => Ok(None),
        }
    }

    /// Store a key-value pair in the primary and record its position in
    /// the index.
    ///
    /// On success the pair sits at a fresh position and the index finds
    /// the derived key. On an error the index is untouched and the primary
    /// holds either its old contents or additionally the new pair — the
    /// pair may have been stored before the index failed. For a primary
    /// that owes the store (`put_ok`) and models the derived key, success
    /// is owed whenever the key's bucket is empty or takes a plain
    /// insertion that fits the block size field.
    pub fn put(&mut self, key: &[u8], value: &[u8]) -> (r: Result<(), Error>)
        requires
            old(self).wf(),
            P::index_key_model(key@) matches Some(ik) ==> (ik.len() >= 4 && ik.len() - (old(
                self,
            ).index_view().spec_bits() as int) / 8 <= 255),
        ensures
            final(self).wf(),
            r matches Ok(()) ==> exists|off: u64|
                (!(#[trigger] old(self).contents().contains_key(off))
                    && final(self).contents().contains_key(off) && final(self).contents()[off] == (
                key@,
                value@,
                )),
            r matches Ok(()) ==> (P::index_key_model(key@) matches Some(ik)
                ==> final(self).index_view().spec_get(ik) is Some),
            r is Err ==> (final(self).index_view().log_view()
                == old(self).index_view().log_view() && final(self).index_view().buckets_view()
                == old(self).index_view().buckets_view() && (final(self).contents() == old(
                self,
            ).contents() || exists|off: u64|
                (!(#[trigger] old(self).contents().contains_key(off)) && final(self).contents()
                    == old(self).contents().insert(off, (key@, value@))))),
            ({
                let bits = old(self).index_view().spec_bits();
                let pos = old(self).index_view().spec_primary().next_pos();
                old(self).index_view().spec_primary().put_ok(key@, value@) ==> (
                P::index_key_model(key@) matches Some(ik) ==> ({
                    let b = spec_bucket_of(ik, bits);
                    let rl = old(self).index_view().bucket_records(b);
                    let ikey = spec_index_key(ik, bits);
                    &&& old(self).index_view().buckets_view()[b] == 0 ==> (r matches Ok(()))
                    &&& (old(self).index_view().buckets_view()[b] != 0 && !prev_is_prefix(
                        rl,
                        ikey,
                    ) && encode_recs(insert_records(rl, ikey, pos)).len() + 4 <= u32::MAX)
                        ==> (r matches Ok(()))
                }))
            }),
    {
        let file_offset = match self.index.primary_mut().put(key, value) {
            Ok(o) => o,
            Err(e) => {
                return Err(Error::Primary(e));
            },
        };
        let index_key = match P::index_key(key) {
            Ok(k) => k,
            Err(e) => {
                return Err(Error::Primary(e));
            },
        };
        let ghost mid = self.index;
        let r = self.index.put(index_key.as_slice(), file_offset);
        proof {
            if r is Ok {
                assert(!old(self).contents().contains_key(file_offset));
                assert(self.contents().contains_key(file_offset));
                assert(self.contents()[file_offset] == (key@, value@));
                // the derived key is found afterwards, whichever branch the
                // index's put took
                let post_i = self.index;
                let bits = mid.spec_bits();
                let ikv = index_key@;
                let b = spec_bucket_of(ikv, bits);
                let rl = mid.bucket_records(b);
                let ikey = spec_index_key(ikv, bits);
                lemma_bucket_in_range(ikv, bits);
                if mid.buckets_view()[b] == 0 {
                    assert(seq![(ikey.take(1), file_offset)] =~= insert_records(
                        rl,
                        ikey,
                        file_offset,
                    ));
                    lemma_put_then_get(mid, post_i, ikv, file_offset);
                } else if !prev_is_prefix(rl, ikey) {
                    lemma_put_then_get(mid, post_i, ikv, file_offset);
                } else {
                    let pk = choose|pk: Seq<u8>| branch_a_ok(mid, post_i, ikv, file_offset, pk);
                    assert(branch_a_ok(mid, post_i, ikv, file_offset, pk));
                    let ps = pk.skip((bits / 8) as int);
                    let k = fnc_spec(ikey, ps);
                    if k >= ikey.len() {
                        // nothing changed: the previous record's stored
                        // prefix already matches the key
                        let i = find_idx(rl, ikey);
                        crate::recordlist::lemma_find_idx(rl, ikey);
                        assert(post_i.bucket_records(b) == rl);
                        assert(0 <= i - 1 < rl.len() && is_key_prefix(rl[i - 1].0, ikey));
                        lemma_get_none_without_prefix(rl, ikey);
                        assert(rl_get_spec(rl, ikey) is Some);
                    } else {
                        lemma_replace_then_get(mid, post_i, ikv, file_offset, ps);
                    }
                }
                assert(post_i.spec_get(ikv) is Some);
            }
        }
        match r {
            Ok(()) => Ok(()),
            Err(e) => Err(e),
        }
    }
}

/// Are two byte strings equal?
pub fn bytes_eq(a: &[u8], b: &[u8]) -> (r: bool)
    ensures
        r == (a@ == b@),
{
    if a.len() != b.len() {
        return false;
    }
    let mut i: usize = 0;
    while i < a.len()
        invariant
            a@.len() == b@.len(),
            i <= a@.len(),
            forall|j: int| 0 <= j < i ==> a@[j] == b@[j],
        decreases a@.len() - i,
    {
        if a[i] != b[i] {
            return false;
        }
        i = i + 1;
    }
    proof {
        assert(a@ =~= b@);
    }
    true
}

} // verus!
