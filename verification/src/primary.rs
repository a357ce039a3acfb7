//! The capability that the index expects from the primary storage of the
//! actual data.
//!
//! The index works independently of how the primary data is stored: in a
//! file alongside the index, in memory, or somewhere else entirely. Each
//! implementation brings its own model of its contents, and the contracts
//! below both tie a successful answer to that model and owe success
//! wherever the model reaches: an implementation that models nothing — the
//! defaults below — promises nothing, while one with a real model, such as
//! the in-memory storage of this library, must answer for every modeled
//! position.

use vstd::prelude::*;

verus! {

/// Errors a primary storage can hand back.
#[derive(Debug, Clone, Copy, PartialEq, Eq)]
pub enum PrimaryError {
    /// The position lies outside the stored data.
    OutOfBounds,
    /// The underlying medium failed.
    Io,
    /// Anything else that can happen inside a primary storage.
    Other,
}

/// Abstraction over the primary storage of key-value pairs.
///
/// `contents` is the implementation's own model: a map from stored position
/// to the key-value pair there. `index_key_model` is the (pure) key
/// transformation the implementation indexes by. `put_ok` says on which
/// pairs `put` must succeed, and `next_pos` which position it then hands
/// out.
pub trait PrimaryStorage: Sized {
    /// The key-value pairs this storage holds, by position. An
    /// implementation outside the library that does not say otherwise
    /// models no contents at all and promises nothing of its answers.
    open spec fn contents(&self) -> Map<u64, (Seq<u8>, Seq<u8>)> {
        Map::empty()
    }

    /// What `index_key` computes, if it succeeds.
    open spec fn index_key_model(key: Seq<u8>) -> Option<Seq<u8>> {
        None
    }

    /// On which pairs `put` is owed to succeed. An implementation outside
    /// the library that does not say otherwise owes nothing.
    open spec fn put_ok(&self, key: Seq<u8>, value: Seq<u8>) -> bool {
        false
    }

    /// The position a successful owed `put` stores at.
    open spec fn next_pos(&self) -> u64 {
        0
    }

    /// Returns the key-value pair from the given position: exactly the
    /// modeled pair, and success is owed for every modeled position.
    fn get(&mut self, pos: u64) -> (r: Result<(Vec<u8>, Vec<u8>), PrimaryError>)
        ensures
            final(self).contents() == old(self).contents(),
            r matches Ok(kv) ==> (old(self).contents().contains_key(pos) && (kv.0@, kv.1@)
                == old(self).contents()[pos]),
            old(self).contents().contains_key(pos) ==> r is Ok,
    ;

    /// Saves a key-value pair and returns the position it was stored at:
    /// a fresh position, under which the pair is then modeled. Where
    /// `put_ok` holds, success is owed and the position is `next_pos`,
    /// which then advances by one.
    fn put(&mut self, key: &[u8], value: &[u8]) -> (r: Result<u64, PrimaryError>)
        ensures
            r matches Ok(pos) ==> (!old(self).contents().contains_key(pos)
                && final(self).contents() == old(self).contents().insert(pos, (key@, value@))),
            r is Err ==> final(self).contents() == old(self).contents(),
            old(self).put_ok(key@, value@) ==> (r matches Ok(pos) && pos == old(self).next_pos()
                && final(self).next_pos() == old(self).next_pos() + 1),
    ;

    /// Derives the key the index stores prefixes of from a stored key.
    ///
    /// The index needs a key that is at least 4 bytes long and made of
    /// random-looking bytes; implementations whose keys lack this property
    /// transform them here. The answer is owed, and is the modeled one,
    /// whenever the model gives one.
    fn index_key(key: &[u8]) -> (r: Result<Vec<u8>, PrimaryError>)
        ensures
            r matches Ok(k) ==> Self::index_key_model(key@) == Some(k@),
            Self::index_key_model(key@) is Some ==> r is Ok,
    ;

    /// Returns the index key of the pair stored at the given position:
    /// owed, and pinned by the model, whenever the position is modeled and
    /// the stored key has a modeled index key.
    fn get_index_key(&mut self, pos: u64) -> (r: Result<Vec<u8>, PrimaryError>)
        ensures
            final(self).contents() == old(self).contents(),
            r matches Ok(k) ==> old(self).contents().contains_key(pos)
                && Self::index_key_model(old(self).contents()[pos].0) == Some(k@),
            old(self).contents().contains_key(pos) && Self::index_key_model(
                old(self).contents()[pos].0,
            ) is Some ==> r is Ok,
    ;
}

} // verus!
