//! The in-memory storage backend.
use vstd::prelude::*;
use vstd::string::*;

use crate::collections::{lists, OrdSet};
use crate::maps::OrdMap;
use crate::order::{chars_of, copy_bytes, same_bytes};
use crate::storage::{opt_bytes, put_block, read_block, Storage, StorageError, StorageResult};
use crate::text::texts;

verus! {

/// Blocks, pins and temporal values held in memory.
pub struct MemoryStorage {
    data: OrdMap<String, Vec<u8>>,
    pinned: OrdSet<String>,
    temporal: OrdMap<String, Vec<u8>>,
}

/// The byte strings that a map of vectors holds.
pub open spec fn byte_map(m: Map<Seq<char>, Vec<u8>>) -> Map<Seq<char>, Seq<u8>> {
    m.map_values(|v: Vec<u8>| v@)
}

impl MemoryStorage {
    /// The pinned keys.
    pub closed spec fn pins(&self) -> Set<Seq<char>> {
        self.pinned@
    }

    /// The temporal values.
    pub closed spec fn temporals(&self) -> Map<Seq<char>, Seq<u8>> {
        byte_map(self.temporal@)
    }

    /// An empty storage.
    pub fn new() -> (r: Self)
        ensures
            r.blocks() == Map::<Seq<char>, Seq<u8>>::empty(),
            r.temporals() == Map::<Seq<char>, Seq<u8>>::empty(),
            r.pins() == Set::<Seq<char>>::empty(),
    {
        let r = MemoryStorage {
            data: OrdMap::new(),
            pinned: OrdSet::new(),
            temporal: OrdMap::new(),
        };
        assert(r.blocks() =~= Map::empty());
        assert(r.temporals() =~= Map::empty());
        r
    }
}

fn has_prefix(s: &str, prefix: &str) -> (r: bool)
    ensures
        r == prefix@.is_prefix_of(s@),
{
    let a = chars_of(s);
    let p = chars_of(prefix);
    if p.len() > a.len() {
        return false;
    }
    let mut i: usize = 0;
    while i < p.len()
        invariant
            i <= p@.len() <= a@.len(),
            p@ == prefix@,
            a@ == s@,
            forall|j: int| 0 <= j < i ==> #[trigger] p@[j] == a@[j],
        decreases p@.len() - i,
    {
        if p[i] != a[i] {
            proof {
                assert(p@[i as int] != a@.subrange(0, p@.len() as int)[i as int]);
            }
            return false;
        }
        i = i + 1;
    }
    proof {
        assert(p@ =~= a@.subrange(0, p@.len() as int));
    }
    true
}

impl Storage for MemoryStorage {
    closed spec fn blocks(&self) -> Map<Seq<char>, Seq<u8>> {
        byte_map(self.data@)
    }

    open spec fn reliable(&self) -> bool {
        true
    }

    fn put(&mut self, key: &str, data: &[u8]) -> (r: StorageResult<()>)
        ensures
            r is Ok,
            final(self).temporals() == old(self).temporals(),
            final(self).pins() == old(self).pins(),
    {
        let k = key.to_owned();
        if !self.data.contains_key(&k) {
            self.data.insert(k, copy_bytes(data));
        }
        assert(self.blocks() =~= put_block(old(self).blocks(), key@, data@));
        Ok(())
    }

    fn get(&self, key: &str) -> (r: StorageResult<Option<Vec<u8>>>)
        ensures
            r is Ok,
    {
        match self.data.get(&key.to_owned()) {
            Some(v) => Ok(Some(copy_bytes(v.as_slice()))),
            None => Ok(None),
        }
    }

    fn has(&self, key: &str) -> (r: StorageResult<bool>)
        ensures
            r is Ok,
    {
        Ok(self.data.contains_key(&key.to_owned()))
    }

    fn delete(&mut self, key: &str) -> (r: StorageResult<bool>)
        ensures
            r is Ok,
            final(self).temporals() == old(self).temporals(),
            final(self).pins() == old(self).pins(),
    {
        let gone = self.data.remove(&key.to_owned());
        assert(self.blocks() =~= old(self).blocks().remove(key@));
        Ok(gone.is_some())
    }

    fn list(&self, prefix: &str) -> (r: StorageResult<Vec<String>>)
        ensures
            r is Ok,
            r matches Ok(v) ==> lists::<String>(
                texts(v@),
                self.blocks().dom().filter(|k: Seq<char>| prefix@.is_prefix_of(k)),
            ),
    {
        let n: usize = self.data.len();
        let mut kept: OrdSet<String> = OrdSet::new();
        let mut i: usize = 0;
        let ghost f = |k: Seq<char>| prefix@.is_prefix_of(k);
        let ghost keys = self.data.keys();
        proof {
            assert(kept@ =~= keys.take(0).to_set().filter(f));
        }
        while i < n
            invariant
                i <= n,
                n == keys.len(),
                keys == self.data.keys(),
                f == (|k: Seq<char>| prefix@.is_prefix_of(k)),
                kept@ == keys.take(i as int).to_set().filter(f),
            decreases n - i,
        {
            proof {
                crate::collections::lemma_take_step(keys, i as int);
            }
            if has_prefix(self.data.key_at(i).as_str(), prefix) {
                kept.insert(self.data.key_at(i).clone());
            }
            proof {
                assert(kept@ =~= keys.take(i + 1).to_set().filter(f));
            }
            i = i + 1;
        }
        proof {
            assert(keys.take(n as int) =~= keys);
            assert(self.blocks().dom() =~= keys.to_set());
        }
        let v = kept.to_vec();
        proof {
            assert(texts(v@) =~= crate::collections::vals(v@));
        }
        Ok(v)
    }

    fn pin(&mut self, key: &str) -> (r: StorageResult<()>)
        ensures
            r is Ok,
            final(self).pins() == old(self).pins().insert(key@),
            final(self).temporals() == old(self).temporals(),
    {
        self.pinned.insert(key.to_owned());
        Ok(())
    }

    fn unpin(&mut self, key: &str) -> (r: StorageResult<()>)
        ensures
            r is Ok,
            final(self).pins() == old(self).pins().remove(key@),
            final(self).temporals() == old(self).temporals(),
    {
        self.pinned.remove(&key.to_owned());
        Ok(())
    }

    fn gc(&mut self) -> (r: StorageResult<Vec<String>>)
        ensures
            r is Ok,
            r matches Ok(v) ==> lists::<String>(
                texts(v@),
                old(self).blocks().dom().difference(old(self).pins()),
            ),
            final(self).blocks() == old(self).blocks().restrict(old(self).pins()),
            final(self).pins() == old(self).pins(),
            final(self).temporals() == old(self).temporals(),
    {
        let n: usize = self.data.len();
        let ghost keys = self.data.keys();
        let mut loose: OrdSet<String> = OrdSet::new();
        let mut i: usize = 0;
        proof {
            assert(loose@ =~= keys.take(0).to_set().difference(self.pinned@));
        }
        while i < n
            invariant
                i <= n,
                n == keys.len(),
                keys == self.data.keys(),
                loose@ == keys.take(i as int).to_set().difference(self.pinned@),
            decreases n - i,
        {
            proof {
                crate::collections::lemma_take_step(keys, i as int);
            }
            if !self.pinned.contains(self.data.key_at(i)) {
                loose.insert(self.data.key_at(i).clone());
            }
            proof {
                assert(loose@ =~= keys.take(i + 1).to_set().difference(self.pinned@));
            }
            i = i + 1;
        }
        proof {
            assert(keys.take(n as int) =~= keys);
            assert(self.blocks().dom() =~= keys.to_set());
        }
        let ghost whole = self.data@;
        let removed = loose.to_vec();
        proof {
            assert(texts(removed@) =~= crate::collections::vals(removed@));
        }
        let m: usize = removed.len();
        let mut j: usize = 0;
        proof {
            assert(whole.remove_keys(texts(removed@).take(0).to_set()) =~= whole);
        }
        while j < m
            invariant
                j <= m,
                m == removed@.len(),
                self.pinned == old(self).pinned,
                self.temporal == old(self).temporal,
                self.data@ == whole.remove_keys(texts(removed@).take(j as int).to_set()),
            decreases m - j,
        {
            self.data.remove(&removed[j]);
            proof {
                crate::collections::lemma_take_step(texts(removed@), j as int);
                assert(self.data@ =~= whole.remove_keys(
                    texts(removed@).take(j + 1).to_set(),
                ));
            }
            j = j + 1;
        }
        proof {
            assert(texts(removed@).take(m as int) =~= texts(removed@));
            assert(self.blocks() =~= old(self).blocks().restrict(old(self).pins()));
            assert(self.blocks() =~= old(self).blocks().remove_keys(texts(removed@).to_set()));
        }
        Ok(removed)
    }

    fn put_tmp(&mut self, key: &str, data: &[u8]) -> (r: StorageResult<()>)
        ensures
            r is Ok,
            final(self).temporals() == old(self).temporals().insert(key@, data@),
            final(self).pins() == old(self).pins(),
    {
        self.temporal.insert(key.to_owned(), copy_bytes(data));
        assert(self.temporals() =~= old(self).temporals().insert(key@, data@));
        Ok(())
    }

    fn get_tmp(&self, key: &str) -> (r: StorageResult<Option<Vec<u8>>>)
        ensures
            r matches Ok(v) && opt_bytes(v) == read_block(self.temporals(), key@),
    {
        match self.temporal.get(&key.to_owned()) {
            Some(v) => Ok(Some(copy_bytes(v.as_slice()))),
            None => Ok(None),
        }
    }

    fn cas_tmp(&mut self, key: &str, old_value: &[u8], new_value: &[u8]) -> (r: StorageResult<bool>)
        ensures
            r is Ok <==> old(self).temporals().contains_key(key@) && old(self).temporals()[key@]
                == old_value@,
            r matches Ok(b) ==> b && final(self).temporals() == old(self).temporals().insert(
                key@,
                new_value@,
            ),
            r is Err ==> final(self).temporals() == old(self).temporals(),
            r matches Err(e) ==> if old(self).temporals().contains_key(key@) {
                e matches StorageError::CasMismatch { expected, actual } && expected@
                    == old_value@ && actual@ == old(self).temporals()[key@]
            } else {
                e matches StorageError::NotFound(k) && k@ == key@
            },
            final(self).pins() == old(self).pins(),
    {
        let k = key.to_owned();
        let current: Option<Vec<u8>> = match self.temporal.get(&k) {
            Some(v) => Some(copy_bytes(v.as_slice())),
            None => None,
        };
        match current {
            None => Err(StorageError::NotFound(k)),
            Some(actual) => {
                let expected = copy_bytes(old_value);
                if same_bytes(actual.as_slice(), expected.as_slice()) {
                    self.temporal.insert(k, copy_bytes(new_value));
                    assert(self.temporals() =~= old(self).temporals().insert(key@, new_value@));
                    Ok(true)
                } else {
                    Err(StorageError::CasMismatch { expected, actual })
                }
            },
        }
    }
}

/// Pinned blocks survive a collection as they are, other blocks go, and a
/// second collection finds nothing.
pub proof fn collections_keep_pinned_blocks(
    blocks: Map<Seq<char>, Seq<u8>>,
    pins: Set<Seq<char>>,
    key: Seq<char>,
)
    ensures
        pins.contains(key) ==> read_block(blocks.restrict(pins), key) == read_block(blocks, key),
        !pins.contains(key) ==> read_block(blocks.restrict(pins), key) is None,
        blocks.restrict(pins).dom().difference(pins) == Set::<Seq<char>>::empty(),
{
    assert(blocks.restrict(pins).dom().difference(pins) =~= Set::empty());
}

} // verus!
