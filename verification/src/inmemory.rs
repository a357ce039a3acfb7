//! In-memory primary storage: a vector of key-value pairs, addressed by
//! their position in it.

use vstd::prelude::*;
use vstd::map::*;
use vstd::slice::slice_index_get;
use vstd::slice::slice_to_vec;

use crate::primary::PrimaryError;
use crate::primary::PrimaryStorage;

verus! {

/// The positions of a pair vector, as a map from position to pair.
pub open spec fn pairs_map(items: Seq<(Vec<u8>, Vec<u8>)>) -> Map<u64, (Seq<u8>, Seq<u8>)> {
    Map::new(
        |p: u64| (p as int) < items.len(),
        |p: u64| ((items[p as int].0)@, (items[p as int].1)@),
    )
}

/// A primary storage that keeps everything in memory.
pub struct InMemory {
    items: Vec<(Vec<u8>, Vec<u8>)>,
}

impl InMemory {
    /// It can be initialized with some key-value pairs.
    pub fn new(data: &[(Vec<u8>, Vec<u8>)]) -> (r: Self)
        ensures
            r.contents() == pairs_map(data@),
            r.next_pos() == data@.len(),
    {
        let mut items: Vec<(Vec<u8>, Vec<u8>)> = Vec::new();
        let mut i: usize = 0;
        while i < data.len()
            invariant
                i <= data@.len(),
                items@.len() == i,
                forall|j: int|
                    0 <= j < i ==> ((#[trigger] items@[j]).0@ == data@[j].0@ && items@[j].1@
                        == data@[j].1@),
            decreases data@.len() - i,
        {
            let pair = slice_index_get(data, i);
            let k = slice_to_vec(pair.0.as_slice());
            let v = slice_to_vec(pair.1.as_slice());
            items.push((k, v));
            i = i + 1;
        }
        let r = InMemory { items };
        proof {
            assert(r.contents() =~= pairs_map(data@));
        }
        r
    }
}

impl PrimaryStorage for InMemory {
    closed spec fn contents(&self) -> Map<u64, (Seq<u8>, Seq<u8>)> {
        pairs_map(self.items@)
    }

    open spec fn index_key_model(key: Seq<u8>) -> Option<Seq<u8>> {
        Some(key)
    }

    open spec fn put_ok(&self, key: Seq<u8>, value: Seq<u8>) -> bool {
        true
    }

    closed spec fn next_pos(&self) -> u64 {
        self.items@.len() as u64
    }

    fn get(&mut self, pos: u64) -> (r: Result<(Vec<u8>, Vec<u8>), PrimaryError>) {
        if pos >= self.items.len() as u64 {
            return Err(PrimaryError::OutOfBounds);
        }
        let pair = &self.items[pos as usize];
        let k = slice_to_vec(pair.0.as_slice());
        let v = slice_to_vec(pair.1.as_slice());
        Ok((k, v))
    }

    fn put(&mut self, key: &[u8], value: &[u8]) -> (r: Result<u64, PrimaryError>) {
        let pos = self.items.len() as u64;
        let k = slice_to_vec(key);
        let v = slice_to_vec(value);
        self.items.push((k, v));
        proof {
            assert(self.contents() =~= old(self).contents().insert(pos, (key@, value@)));
            // the grown vector still fits a machine length, so the next
            // position is one past the old one
            assert(self.items.len() == self.items@.len());
            assert(self.items@.len() == old(self).items@.len() + 1);
        }
        Ok(pos)
    }

    fn index_key(key: &[u8]) -> (r: Result<Vec<u8>, PrimaryError>) {
        Ok(slice_to_vec(key))
    }

    fn get_index_key(&mut self, pos: u64) -> (r: Result<Vec<u8>, PrimaryError>) {
        let kv = match self.get(pos) {
            Ok(kv) => kv,
            Err(e) => {
                return Err(e);
            },
        };
        Self::index_key(kv.0.as_slice())
    }
}

} // verus!
