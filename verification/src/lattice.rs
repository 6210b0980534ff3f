//! Lattice elements: a plane together with its content key.
use vstd::prelude::*;

use crate::distributed::Share;
use crate::hashing::{sha1_hex, sha1_text};
use crate::hllset::{dense_bytes, plane_key, token_bits, HLLSet};
use crate::order::views;
use crate::text::{bytes_of, same_text, texts, utf8};

verus! {

/// A plane with its content key.
pub struct LatticeElement {
    key: String,
    plane: HLLSet,
}

/// The UTF-8 bytes of several texts.
pub open spec fn text_tokens(s: Seq<Seq<char>>) -> Seq<Seq<u8>> {
    s.map_values(|t: Seq<char>| utf8(t))
}

/// The UTF-8 bytes of several strings.
pub fn tokens_of(strings: &[String]) -> (r: Vec<Vec<u8>>)
    ensures
        views(r@) == text_tokens(texts(strings@)),
{
    let mut r: Vec<Vec<u8>> = Vec::new();
    let mut i: usize = 0;
    while i < strings.len()
        invariant
            i <= strings@.len(),
            r@.len() == i,
            forall|j: int| 0 <= j < i ==> (#[trigger] r@[j])@ == utf8(strings@[j]@),
        decreases strings@.len() - i,
    {
        r.push(bytes_of(strings[i].as_str()));
        i = i + 1;
    }
    assert(views(r@) =~= text_tokens(texts(strings@)));
    r
}

impl View for LatticeElement {
    type V = Set<u32>;

    /// The bits of the plane.
    closed spec fn view(&self) -> Set<u32> {
        self.plane@
    }
}

impl LatticeElement {
    #[verifier::type_invariant]
    spec fn inv(self) -> bool {
        self.key@ == plane_key(self.plane@)
    }

    /// The element of a plane.
    pub fn new(plane: HLLSet) -> (r: Self)
        ensures
            r@ == plane@,
    {
        let key = plane.content_key();
        LatticeElement { key, plane }
    }

    /// The bottom element.
    pub fn empty() -> (r: Self)
        ensures
            r@ == Set::<u32>::empty(),
    {
        LatticeElement::new(HLLSet::new())
    }

    /// The element of some byte tokens.
    pub fn from_tokens(tokens: &[Vec<u8>]) -> (r: Self)
        ensures
            r@ == token_bits(views(tokens@), 0),
    {
        LatticeElement::new(HLLSet::from_tokens(tokens))
    }

    /// The element of some text tokens.
    pub fn from_texts(tokens: &[String]) -> (r: Self)
        ensures
            r@ == token_bits(text_tokens(texts(tokens@)), 0),
    {
        let bytes = tokens_of(tokens);
        LatticeElement::from_tokens(bytes.as_slice())
    }

    /// The content key.
    pub fn key(&self) -> (r: &str)
        ensures
            r@ == plane_key(self@),
    {
        proof {
            use_type_invariant(self);
        }
        self.key.as_str()
    }

    /// The plane.
    pub fn hllset(&self) -> (r: &HLLSet)
        ensures
            r@ == self@,
    {
        &self.plane
    }

    /// The plane, by value.
    pub fn into_hllset(self) -> (r: HLLSet)
        ensures
            r@ == self@,
    {
        self.plane
    }

    /// The key without its prefix: the digest in hexadecimal.
    pub fn content_hash(&self) -> (r: String)
        ensures
            r@ == sha1_text(dense_bytes(self@)),
    {
        sha1_hex(self.plane.to_bytes().as_slice())
    }

    /// The number of set bits.
    pub fn popcount(&self) -> (r: u64)
        ensures
            r == self@.len(),
    {
        self.plane.popcount()
    }

    /// Whether no bit is set.
    pub fn is_empty(&self) -> (r: bool)
        ensures
            r == (self@ == Set::<u32>::empty()),
    {
        self.plane.is_empty()
    }

    /// Whether the other element holds every bit of this one.
    pub fn is_subset_of(&self, other: &LatticeElement) -> (r: bool)
        ensures
            r == self@.subset_of(other@),
    {
        self.plane.is_subset(&other.plane)
    }

    /// Whether this element holds every bit of the other one.
    pub fn is_superset_of(&self, other: &LatticeElement) -> (r: bool)
        ensures
            r == other@.subset_of(self@),
    {
        other.plane.is_subset(&self.plane)
    }

    /// How much of the other element this one covers: shared bits and the
    /// bits of the other.
    pub fn bss_inclusion(&self, other: &LatticeElement) -> (r: Share)
        ensures
            r.part == self@.intersect(other@).len(),
            r.whole == other@.len(),
    {
        Share {
            part: self.plane.intersection(&other.plane).popcount(),
            whole: other.plane.popcount(),
        }
    }

    /// How much of this element lies outside the other: the bits outside and
    /// the bits of the other.
    pub fn bss_exclusion(&self, other: &LatticeElement) -> (r: Share)
        ensures
            r.part == self@.difference(other@).len(),
            r.whole == other@.len(),
    {
        Share {
            part: self.plane.difference(&other.plane).popcount(),
            whole: other.plane.popcount(),
        }
    }

    /// How alike two elements are: shared bits and all their bits.
    pub fn jaccard_similarity(&self, other: &LatticeElement) -> (r: Share)
        ensures
            r.part == self@.intersect(other@).len(),
            r.whole == self@.union(other@).len(),
    {
        Share {
            part: self.plane.intersection(&other.plane).popcount(),
            whole: self.plane.union(&other.plane).popcount(),
        }
    }

    /// Whether two elements have the same key.
    pub fn same_key(&self, other: &LatticeElement) -> (r: bool)
        ensures
            r == (plane_key(self@) == plane_key(other@)),
    {
        same_text(self.key(), other.key())
    }

    /// The join of two elements.
    pub fn union(&self, other: &LatticeElement) -> (r: LatticeElement)
        ensures
            r@ == self@.union(other@),
    {
        LatticeElement::new(self.plane.union(&other.plane))
    }

    /// The meet of two elements.
    pub fn intersection(&self, other: &LatticeElement) -> (r: LatticeElement)
        ensures
            r@ == self@.intersect(other@),
    {
        LatticeElement::new(self.plane.intersection(&other.plane))
    }

    /// The difference of two elements.
    pub fn difference(&self, other: &LatticeElement) -> (r: LatticeElement)
        ensures
            r@ == self@.difference(other@),
    {
        LatticeElement::new(self.plane.difference(&other.plane))
    }
}

/// Elements with the same bits have the same key.
pub proof fn equal_planes_share_their_key(a: Set<u32>, b: Set<u32>)
    requires
        a == b,
    ensures
        plane_key(a) == plane_key(b),
{
}

} // verus!
