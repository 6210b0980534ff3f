//! The storage protocol: content-addressed blocks and named temporal values.
use vstd::prelude::*;
use vstd::string::*;

verus! {

/// Storage errors.
#[derive(Debug)]
pub enum StorageError {
    /// The backend failed.
    Backend(String),
    /// No value is stored under the key.
    NotFound(String),
    /// The stored bytes could not be read.
    Serialization(String),
    /// A compare-and-swap found another value than the expected one.
    CasMismatch { expected: Vec<u8>, actual: Vec<u8> },
}

/// Convenience result type.
pub type StorageResult<T> = Result<T, StorageError>;

/// What a PUT makes of the stored blocks: the first block under a key stays.
pub open spec fn put_block(
    blocks: Map<Seq<char>, Seq<u8>>,
    key: Seq<char>,
    data: Seq<u8>,
) -> Map<Seq<char>, Seq<u8>> {
    if blocks.contains_key(key) {
        blocks
    } else {
        blocks.insert(key, data)
    }
}

/// What a GET reads: the block under the key, if there is one.
pub open spec fn read_block(blocks: Map<Seq<char>, Seq<u8>>, key: Seq<char>) -> Option<Seq<u8>> {
    if blocks.contains_key(key) {
        Some(blocks[key])
    } else {
        None
    }
}

/// The bytes of an optional vector.
pub open spec fn opt_bytes(v: Option<Vec<u8>>) -> Option<Seq<u8>> {
    match v {
        Some(b) => Some(b@),
        None => None,
    }
}

/// Content-addressed and temporal storage.
///
/// Content-addressed blocks are written once: a PUT under a key that already
/// holds a block has no effect. Temporal values are mutable and named by the
/// user.
pub trait Storage: Sized {
    /// The stored blocks.
    spec fn blocks(&self) -> Map<Seq<char>, Seq<u8>>;

    /// Whether the backend cannot fail.
    spec fn reliable(&self) -> bool;

    /// PUT: stores a block under a content-addressed key. A PUT under a key
    /// that holds a block has no effect.
    fn put(&mut self, key: &str, data: &[u8]) -> (r: StorageResult<()>)
        ensures
            r is Ok ==> final(self).blocks() == put_block(old(self).blocks(), key@, data@),
            final(self).reliable() == old(self).reliable(),
            old(self).reliable() ==> r is Ok,
    ;

    /// GET: loads the block of a key; `None` where there is none.
    fn get(&self, key: &str) -> (r: StorageResult<Option<Vec<u8>>>)
        ensures
            r matches Ok(v) ==> opt_bytes(v) == read_block(self.blocks(), key@),
            self.reliable() ==> r is Ok,
    ;

    /// HAS: whether a key holds a block.
    fn has(&self, key: &str) -> (r: StorageResult<bool>)
        ensures
            r matches Ok(b) ==> b == self.blocks().contains_key(key@),
            self.reliable() ==> r is Ok,
    ;

    /// Deletes a key and its block; tells whether there was one.
    fn delete(&mut self, key: &str) -> (r: StorageResult<bool>)
        ensures
            r matches Ok(b) ==> b == old(self).blocks().contains_key(key@) && final(self).blocks()
                == old(self).blocks().remove(key@),
            final(self).reliable() == old(self).reliable(),
            old(self).reliable() ==> r is Ok,
    ;

    /// LIST: the keys that start with a prefix.
    fn list(&self, prefix: &str) -> (r: StorageResult<Vec<String>>)
        ensures
            r matches Ok(v) ==> crate::text::texts(v@).to_set() == self.blocks().dom().filter(
                |k: Seq<char>| prefix@.is_prefix_of(k),
            ),
            self.reliable() ==> r is Ok,
    ;

    /// PIN: keeps a key through garbage collection. Without effect where the
    /// backend collects no garbage.
    fn pin(&mut self, _key: &str) -> (r: StorageResult<()>)
        ensures
            final(self).blocks() == old(self).blocks(),
            final(self).reliable() == old(self).reliable(),
            old(self).reliable() ==> r is Ok,
    {
        Ok(())
    }

    /// UNPIN: lets garbage collection take a key.
    fn unpin(&mut self, _key: &str) -> (r: StorageResult<()>)
        ensures
            final(self).blocks() == old(self).blocks(),
            final(self).reliable() == old(self).reliable(),
            old(self).reliable() ==> r is Ok,
    {
        Ok(())
    }

    /// GC: removes the keys that are not pinned; hands back the removed keys.
    fn gc(&mut self) -> (r: StorageResult<Vec<String>>)
        ensures
            r matches Ok(v) ==> final(self).blocks() == old(self).blocks().remove_keys(
                crate::text::texts(v@).to_set(),
            ),
            final(self).reliable() == old(self).reliable(),
            old(self).reliable() ==> r is Ok,
    {
        let none: Vec<String> = Vec::new();
        proof {
            assert(crate::text::texts(none@).to_set() =~= Set::empty());
            assert(self.blocks().remove_keys(Set::empty()) =~= self.blocks());
        }
        Ok(none)
    }

    /// PUT_TMP: stores bytes under a user-assigned name. Without effect where
    /// the backend holds no temporal values.
    fn put_tmp(&mut self, _key: &str, _data: &[u8]) -> (r: StorageResult<()>)
        ensures
            final(self).blocks() == old(self).blocks(),
            final(self).reliable() == old(self).reliable(),
            old(self).reliable() ==> r is Ok,
    {
        Ok(())
    }

    /// GET_TMP: the bytes under a user-assigned name.
    fn get_tmp(&self, _key: &str) -> (r: StorageResult<Option<Vec<u8>>>)
        ensures
            self.reliable() ==> r is Ok,
        default_ensures
            r matches Ok(v) && v is None,
    {
        Ok(None)
    }

    /// CAS_TMP: replaces the value under a name if it equals `old_value`.
    /// Fails where the backend holds no temporal values.
    fn cas_tmp(&mut self, _key: &str, _old_value: &[u8], _new_value: &[u8]) -> (r: StorageResult<
        bool,
    >)
        ensures
            final(self).blocks() == old(self).blocks(),
            final(self).reliable() == old(self).reliable(),
        default_ensures
            r matches Err(e) && e is Backend,
    {
        Err(StorageError::Backend("CAS_TMP not supported by this backend".to_owned()))
    }

    /// The same as `put`.
    fn store(&mut self, key: &str, data: &[u8]) -> (r: StorageResult<()>)
        ensures
            r is Ok ==> final(self).blocks() == put_block(old(self).blocks(), key@, data@),
            final(self).reliable() == old(self).reliable(),
            old(self).reliable() ==> r is Ok,
    {
        self.put(key, data)
    }

    /// The same as `get`.
    fn load(&self, key: &str) -> (r: StorageResult<Option<Vec<u8>>>)
        ensures
            r matches Ok(v) ==> opt_bytes(v) == read_block(self.blocks(), key@),
            self.reliable() ==> r is Ok,
    {
        self.get(key)
    }

    /// The same as `has`.
    fn is_stored(&self, key: &str) -> (r: StorageResult<bool>)
        ensures
            r matches Ok(b) ==> b == self.blocks().contains_key(key@),
            self.reliable() ==> r is Ok,
    {
        self.has(key)
    }
}

/// A GET after a PUT reads what the first PUT under the key wrote, and other
/// keys are untouched; repeating a PUT changes nothing.
pub proof fn get_after_put(
    blocks: Map<Seq<char>, Seq<u8>>,
    key: Seq<char>,
    data: Seq<u8>,
    again: Seq<u8>,
    other: Seq<char>,
)
    ensures
        !blocks.contains_key(key) ==> read_block(put_block(blocks, key, data), key) == Some(data),
        blocks.contains_key(key) ==> read_block(put_block(blocks, key, data), key) == Some(
            blocks[key],
        ),
        put_block(put_block(blocks, key, data), key, again) == put_block(blocks, key, data),
        other != key ==> read_block(put_block(blocks, key, data), other) == read_block(
            blocks,
            other,
        ),
{
}

} // verus!
