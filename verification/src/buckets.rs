//! The in-memory bucket table: a fixed-size array mapping a bucket number to
//! the log offset of the record-list block that bucket currently owns.

use vstd::prelude::*;

use crate::error::Error;

verus! {

/// Contains pointers to file offsets.
///
/// `bits` says how many bits of a key select the bucket; the table holds
/// `2 ^ bits` offsets. Offset 0 means the bucket is empty. The table is not
/// persisted: it is rebuilt by replaying the index log.
pub struct Buckets {
    bits: u8,
    offsets: Vec<u64>,
}

impl View for Buckets {
    type V = Seq<u64>;

    closed spec fn view(&self) -> Seq<u64> {
        self.offsets@
    }
}

impl Buckets {
    /// The number of bits used to select a bucket.
    pub closed spec fn spec_bits(&self) -> u8 {
        self.bits
    }

    /// The table holds exactly one offset per bucket.
    pub open spec fn wf(&self) -> bool {
        &&& self.spec_bits() <= 31
        &&& self@.len() == (1u32 << self.spec_bits()) as usize
    }

    /// Create a table of `2 ^ bits` empty buckets.
    pub fn new(bits: u8) -> (r: Self)
        requires
            bits <= 31,
        ensures
            r.wf(),
            r.spec_bits() == bits,
            r@ == Seq::new(((1u32 << bits) as usize) as nat, |i: int| 0u64),
    {
        let n: usize = (1u32 << bits) as usize;
        let mut offsets: Vec<u64> = Vec::new();
        let mut i: usize = 0;
        while i < n
            invariant
                i <= n,
                offsets@.len() == i,
                forall|j: int| 0 <= j < i ==> offsets@[j] == 0u64,
            decreases n - i,
        {
            offsets.push(0u64);
            i = i + 1;
        }
        let r = Buckets { bits, offsets };
        proof {
            assert(r@ =~= Seq::new(((1u32 << bits) as usize) as nat, |i: int| 0u64));
        }
        r
    }

    /// Point `bucket` at `offset`.
    pub fn put(&mut self, bucket: usize, offset: u64) -> (r: Result<(), Error>)
        ensures
            final(self).spec_bits() == old(self).spec_bits(),
            bucket < old(self)@.len() ==> (r matches Ok(()) && final(self)@ == old(self)@.update(
                bucket as int,
                offset,
            )),
            bucket >= old(self)@.len() ==> (r matches Err(e) && e matches Error::BucketsOutOfBounds
                && final(self)@ == old(self)@),
    {
        if bucket >= self.offsets.len() {
            return Err(Error::BucketsOutOfBounds);
        }
        self.offsets.set(bucket, offset);
        Ok(())
    }

    /// The offset `bucket` points at, or 0 if the bucket is empty.
    pub fn get(&self, bucket: usize) -> (r: Result<u64, Error>)
        ensures
            bucket < self@.len() ==> (r matches Ok(o) && o == self@[bucket as int]),
            bucket >= self@.len() ==> (r matches Err(e) && e matches Error::BucketsOutOfBounds),
    {
        if bucket >= self.offsets.len() {
            return Err(Error::BucketsOutOfBounds);
        }
        Ok(self.offsets[bucket])
    }

    /// The number of bits used to select a bucket.
    pub fn bits(&self) -> (r: u8)
        ensures
            r == self.spec_bits(),
    {
        self.bits
    }

    /// The number of buckets in the table.
    pub fn len(&self) -> (r: usize)
        ensures
            r == self@.len(),
    {
        self.offsets.len()
    }
}

} // verus!
