//! The stateless worker: loads planes from storage, computes, forgets.
use vstd::prelude::*;
use vstd::string::*;

use crate::distributed::Share;
use crate::hllset::{dense_bytes, plane_key, plane_of_bytes, token_bits, HLLSet};
use crate::lattice::{text_tokens, LatticeElement};
use crate::storage::{put_block, Storage};
use crate::strategies::{inlut_result, materialize_inlut, MaterializedResult};
use crate::text::texts;
use crate::tokenlut::TokenLUT;

verus! {

/// A worker over a storage backend.
pub struct Worker<S: Storage> {
    storage: S,
}

impl<S: Storage> Worker<S> {
    /// The backend.
    pub closed spec fn backend(&self) -> S {
        self.storage
    }

    /// A worker over the given backend.
    pub fn new(storage: S) -> (r: Self)
        ensures
            r.backend() == storage,
    {
        Worker { storage }
    }

    /// Loads the plane stored under a key; `None` where the backend fails,
    /// holds no block under the key, or holds one that is no plane.
    pub fn load_hllset(&self, key: &str) -> (r: Option<HLLSet>)
        ensures
            r matches Some(h) ==> self.backend().blocks().contains_key(key@)
                && self.backend().blocks()[key@].len() == 4096 && h@ == plane_of_bytes(
                self.backend().blocks()[key@],
            ),
            self.backend().reliable() ==> (r is Some <==> self.backend().blocks().contains_key(key@)
                && self.backend().blocks()[key@].len() == 4096),
    {
        match self.storage.load(key) {
            Ok(Some(bytes)) => HLLSet::from_bytes(bytes.as_slice()),
            _ => None,
        }
    }

    /// Stores the plane of some text tokens under its content key; hands back
    /// the key whether or not the backend stored it.
    pub fn inscribe(&mut self, tokens: &[String]) -> (r: String)
        ensures
            r@ == plane_key(token_bits(text_tokens(texts(tokens@)), 0)),
            final(self).backend().reliable() == old(self).backend().reliable(),
            old(self).backend().reliable() ==> final(self).backend().blocks() == put_block(
                old(self).backend().blocks(),
                r@,
                dense_bytes(token_bits(text_tokens(texts(tokens@)), 0)),
            ),
    {
        let elem = LatticeElement::from_texts(tokens);
        let key = elem.key().to_owned();
        let bytes = elem.hllset().to_bytes();
        let _stored = self.storage.store(key.as_str(), bytes.as_slice());
        key
    }

    /// Whether a key holds a block; `false` where the backend fails.
    pub fn has_resource(&self, key: &str) -> (r: bool)
        ensures
            r ==> self.backend().blocks().contains_key(key@),
            self.backend().reliable() ==> r == self.backend().blocks().contains_key(key@),
    {
        match self.storage.is_stored(key) {
            Ok(found) => found,
            Err(_) => false,
        }
    }

    /// Materializes the plane stored under a key by plain lookup; `None` where
    /// no plane loads.
    pub fn materialize(&self, hllset_key: &str, lut: &TokenLUT) -> (r: Option<MaterializedResult>)
        ensures
            r matches Some(m) ==> holds_plane(self.backend(), hllset_key@) && inlut_result(
                m,
                plane_at(self.backend(), hllset_key@),
                lut@,
            ),
            self.backend().reliable() ==> (r is Some <==> holds_plane(
                self.backend(),
                hllset_key@,
            )),
    {
        match self.load_hllset(hllset_key) {
            Some(hllset) => Some(materialize_inlut(&hllset, lut)),
            None => None,
        }
    }

    /// How much of the second plane the first covers; `None` where one of them
    /// does not load.
    pub fn bss_inclusion(&self, ka: &str, kb: &str) -> (r: Option<Share>)
        ensures
            r matches Some(s) ==> holds_plane(self.backend(), ka@) && holds_plane(
                self.backend(),
                kb@,
            ) && s.part == plane_at(self.backend(), ka@).intersect(
                plane_at(self.backend(), kb@),
            ).len() && s.whole == plane_at(self.backend(), kb@).len(),
            self.backend().reliable() ==> (r is Some <==> holds_plane(self.backend(), ka@)
                && holds_plane(self.backend(), kb@)),
    {
        match (self.load_hllset(ka), self.load_hllset(kb)) {
            (Some(a), Some(b)) => Some(
                Share { part: a.intersection(&b).popcount(), whole: b.popcount() },
            ),
            _ => None,
        }
    }
}

/// A backend holds a plane under a key.
pub open spec fn holds_plane<S: Storage>(backend: S, key: Seq<char>) -> bool {
    backend.blocks().contains_key(key) && backend.blocks()[key].len() == 4096
}

/// The plane under a key.
pub open spec fn plane_at<S: Storage>(backend: S, key: Seq<char>) -> Set<u32> {
    plane_of_bytes(backend.blocks()[key])
}

/// Loading an inscribed key gives back the plane of the tokens, unless
/// another block already held the key.
pub proof fn inscribed_planes_load_back(
    blocks: Map<Seq<char>, Seq<u8>>,
    tokens: Seq<Seq<u8>>,
)
    requires
        !blocks.contains_key(plane_key(token_bits(tokens, 0))) || blocks[plane_key(
            token_bits(tokens, 0),
        )] == dense_bytes(token_bits(tokens, 0)),
    ensures
        ({
            let plane = token_bits(tokens, 0);
            let after = put_block(blocks, plane_key(plane), dense_bytes(plane));
            &&& after.contains_key(plane_key(plane))
            &&& after[plane_key(plane)].len() == 4096
            &&& plane_of_bytes(after[plane_key(plane)]) == plane
        }),
{
    let plane = token_bits(tokens, 0);
    assert(crate::hllset::in_plane(plane)) by {
        assert forall|b: u32| plane.contains(b) implies b < crate::hashing::TOTAL_BITS by {
            let i = choose|i: int|
                0 <= i < tokens.len() && b == crate::hashing::bit_of(#[trigger] tokens[i], 0);
            crate::hashing::lemma_bit_of(tokens[i], 0);
        }
    }
    crate::hllset::plane_reads_back(plane);
}

} // verus!
