//! The lookup-table lattice.
//!
//! A table is a labelled subset of the token universe. The fiber of a bit is
//! the set of tokens that hash to it; the fibers partition every table, and
//! materializing a plane against a table joins the fibers of the plane's
//! bits. The atom tree is the sparse Merkle tree over the bits of a table.
use vstd::prelude::*;
use vstd::string::*;

use crate::collections::{lists, OrdSet};
use crate::content_addr::distinct;
use crate::hashing::{bit_of, sha1_hex, sha1_text, BitAddress};
use crate::hllset::{token_bits, two, HLLSet};
use crate::maps::OrdMap;
use crate::order::{copy_bytes, views};
use crate::text::{le_bytes, le_value, push_le, texts, utf8};

verus! {

/// A token: opaque bytes.
pub type Token = Vec<u8>;

/// A set of tokens.
pub type TokenSet = OrdSet<Vec<u8>>;

/// A labelled subset of the token universe.
pub struct LutNode {
    pub label: String,
    pub tokens: TokenSet,
}

/// The members of a token set that hash to a bit under a seed.
pub open spec fn fiber_of(tokens: Set<Seq<u8>>, bit: u32, seed: u64) -> Set<Seq<u8>> {
    tokens.filter(|t: Seq<u8>| bit_of(t, seed) == bit)
}

/// The bits that a token set sets.
pub open spec fn set_bits(tokens: Set<Seq<u8>>, seed: u64) -> Set<u32> {
    Set::new(|b: u32| exists|t: Seq<u8>| tokens.contains(t) && b == #[trigger] bit_of(t, seed))
}

/// The tokens of a table that hash to a bit of a plane.
pub open spec fn materialized(plane: Set<u32>, tokens: Set<Seq<u8>>) -> Set<Seq<u8>> {
    tokens.filter(|t: Seq<u8>| plane.contains(bit_of(t, 0)))
}

impl LutNode {
    /// A table of the given tokens.
    pub fn new(label: String, tokens: &[Vec<u8>]) -> (r: Self)
        ensures
            r.label == label,
            r.tokens@ == views(tokens@).to_set(),
    {
        LutNode { label, tokens: distinct(tokens) }
    }

    /// The table of the tokens that hash to bit `i`.
    pub fn fiber(label: String, i: u32, tokens: &[Vec<u8>]) -> (r: Self)
        ensures
            r.label == label,
            r.tokens@ == fiber_of(views(tokens@).to_set(), i, 0),
    {
        let mut set: TokenSet = OrdSet::new();
        let ghost all = views(tokens@);
        let mut j: usize = 0;
        proof {
            assert(set@ =~= fiber_of(all.take(0).to_set(), i, 0));
        }
        while j < tokens.len()
            invariant
                j <= tokens@.len(),
                all == views(tokens@),
                set@ == fiber_of(all.take(j as int).to_set(), i, 0),
            decreases tokens@.len() - j,
        {
            proof {
                crate::collections::lemma_take_step(all, j as int);
                assert(all[j as int] == tokens@[j as int]@);
            }
            if BitAddress::of_token(tokens[j].as_slice()).bit() == i {
                set.insert(copy_bytes(tokens[j].as_slice()));
            }
            proof {
                assert(set@ =~= fiber_of(all.take(j + 1).to_set(), i, 0));
            }
            j = j + 1;
        }
        proof {
            assert(all.take(j as int) =~= all);
        }
        LutNode { label, tokens: set }
    }

    /// The join of two tables.
    pub fn union(&self, other: &Self) -> (r: Self)
        ensures
            r.label@ == self.label@ + " \u{222a} "@ + other.label@,
            r.tokens@ == self.tokens@.union(other.tokens@),
    {
        let mut label = self.label.clone();
        label.append(" \u{222a} ");
        label.append(other.label.as_str());
        LutNode { label, tokens: self.tokens.union(&other.tokens) }
    }

    /// The plane of the table's tokens.
    pub fn to_hllset(&self) -> (r: HLLSet)
        ensures
            r@ == set_bits(self.tokens@, 0),
    {
        let tokens = self.tokens.to_vec();
        let r = HLLSet::from_tokens(tokens.as_slice());
        proof {
            let s = views(tokens@);
            assert(s =~= crate::collections::vals(tokens@));
            lemma_listed_bits(s, self.tokens@, 0);
        }
        r
    }
}

/// The bits of a listed set are the bits of its members.
pub proof fn lemma_listed_bits(s: Seq<Seq<u8>>, set: Set<Seq<u8>>, seed: u64)
    requires
        s.to_set() == set,
    ensures
        token_bits(s, seed) == set_bits(set, seed),
{
    assert forall|b: u32| token_bits(s, seed).contains(b) == set_bits(set, seed).contains(b) by {
        if token_bits(s, seed).contains(b) {
            let i = choose|i: int| 0 <= i < s.len() && b == bit_of(#[trigger] s[i], seed);
            assert(set.contains(s[i]));
        }
        if set_bits(set, seed).contains(b) {
            let t = choose|t: Seq<u8>| set.contains(t) && b == #[trigger] bit_of(t, seed);
            assert(s.contains(t));
            let i = choose|i: int| 0 <= i < s.len() && s[i] == t;
            assert(b == bit_of(s[i], seed));
        }
    }
    assert(token_bits(s, seed) =~= set_bits(set, seed));
}

/// A reverse index: bit address to candidate tokens.
pub struct LutIndex {
    by_bit: OrdMap<u32, TokenSet>,
}

/// The token sets that a map holds, by bit.
pub open spec fn fiber_map(m: Map<u32, TokenSet>) -> Map<u32, Set<Seq<u8>>> {
    m.map_values(|s: TokenSet| s@)
}

/// The fiber at a bit, empty where there is none.
pub open spec fn fiber_at(m: Map<u32, Set<Seq<u8>>>, bit: u32) -> Set<Seq<u8>> {
    if m.contains_key(bit) {
        m[bit]
    } else {
        Set::empty()
    }
}

/// The fibers after a token joined the one at a bit.
pub open spec fn with_token(m: Map<u32, Set<Seq<u8>>>, token: Seq<u8>, bit: u32) -> Map<
    u32,
    Set<Seq<u8>>,
> {
    m.insert(bit, fiber_at(m, bit).insert(token))
}

/// The union of the fibers at the bits of a plane.
pub open spec fn joined_fibers(plane: Set<u32>, m: Map<u32, Set<Seq<u8>>>) -> Set<Seq<u8>> {
    Set::new(
        |t: Seq<u8>|
            exists|b: u32| plane.contains(b) && #[trigger] fiber_at(m, b).contains(t),
    )
}

impl View for LutIndex {
    type V = Map<u32, Set<Seq<u8>>>;

    closed spec fn view(&self) -> Map<u32, Set<Seq<u8>>> {
        fiber_map(self.by_bit@)
    }
}

impl LutIndex {
    /// The index without candidates.
    pub fn new() -> (r: Self)
        ensures
            r@ == Map::<u32, Set<Seq<u8>>>::empty(),
    {
        let r = LutIndex { by_bit: OrdMap::new() };
        assert(r@ =~= Map::empty());
        r
    }

    /// The reverse index of a table: every fiber of the table at its bit.
    pub fn build(lut: &LutNode) -> (r: Self)
        ensures
            forall|b: u32|
                #![trigger fiber_at(r@, b)]
                fiber_at(r@, b) == fiber_of(lut.tokens@, b, 0),
            r@.dom() == set_bits(lut.tokens@, 0),
    {
        let mut index = LutIndex::new();
        let n: usize = lut.tokens.len();
        let ghost all = lut.tokens.seq();
        let mut i: usize = 0;
        proof {
            assert forall|b: u32| fiber_at(index@, b) == fiber_of(all.take(0).to_set(), b, 0) by {
                assert(fiber_of(all.take(0).to_set(), b, 0) =~= Set::empty());
            }
            assert(index@.dom() =~= token_bits(all.take(0), 0));
        }
        while i < n
            invariant
                i <= n,
                n == all.len(),
                all == lut.tokens.seq(),
                index@.dom() == token_bits(all.take(i as int), 0),
                forall|b: u32|
                    #![trigger fiber_at(index@, b)]
                    fiber_at(index@, b) == fiber_of(all.take(i as int).to_set(), b, 0),
            decreases n - i,
        {
            let ghost before = index@;
            index.insert_token(copy_bytes(lut.tokens.at(i).as_slice()));
            proof {
                crate::collections::lemma_take_step(all, i as int);
                crate::hllset::lemma_token_bits_step(all, i as int, 0);
                assert(index@.dom() =~= token_bits(all.take(i + 1), 0));
                assert forall|b: u32| #![trigger fiber_at(index@, b)]
                    fiber_at(index@, b) == fiber_of(all.take(i + 1).to_set(), b, 0) by {
                    assert(fiber_at(before, b) == fiber_of(all.take(i as int).to_set(), b, 0));
                    assert(fiber_of(all.take(i + 1).to_set(), b, 0) =~= if bit_of(
                        all[i as int],
                        0,
                    ) == b {
                        fiber_of(all.take(i as int).to_set(), b, 0).insert(all[i as int])
                    } else {
                        fiber_of(all.take(i as int).to_set(), b, 0)
                    });
                }
            }
            i = i + 1;
        }
        proof {
            assert(all.take(n as int) =~= all);
            lemma_listed_bits(all, lut.tokens@, 0);
        }
        index
    }

    /// Materializes a plane: the union of the fibers at its bits.
    pub fn materialize(&self, hllset: &HLLSet) -> (r: TokenSet)
        ensures
            r@ == joined_fibers(hllset@, self@),
    {
        let bits = hllset.bitmap();
        let mut out: TokenSet = OrdSet::new();
        let mut i: usize = 0;
        proof {
            assert(out@ =~= joined_fibers(bits@.take(0).to_set(), self@));
        }
        while i < bits.len()
            invariant
                i <= bits@.len(),
                out@ == joined_fibers(bits@.take(i as int).to_set(), self@),
            decreases bits@.len() - i,
        {
            proof {
                crate::collections::lemma_take_step(bits@, i as int);
                lemma_joined_insert(bits@.take(i as int).to_set(), bits@[i as int], self@);
            }
            match self.by_bit.get(&bits[i]) {
                Some(candidates) => {
                    out.absorb(candidates);
                },
                None => {
                    proof {
                        assert(out@.union(Set::empty()) =~= out@);
                    }
                },
            }
            i = i + 1;
        }
        proof {
            assert(bits@.take(i as int) =~= bits@);
        }
        out
    }

    /// Registers a token in the fiber of its bit, seed 0.
    pub fn insert_token(&mut self, token: Token)
        ensures
            final(self)@ == with_token(old(self)@, token@, bit_of(token@, 0)),
    {
        self.insert_token_seeded(token, 0);
    }

    /// Registers a token in the fiber of its bit under a seed.
    pub fn insert_token_seeded(&mut self, token: Token, seed: u64)
        ensures
            final(self)@ == with_token(old(self)@, token@, bit_of(token@, seed)),
    {
        let ghost before = self@;
        let ghost t = token@;
        let bit: u32 = BitAddress::of_token_seeded(token.as_slice(), seed).bit();
        let mut set: TokenSet = match self.by_bit.remove(&bit) {
            Some(s) => s,
            None => OrdSet::new(),
        };
        set.insert(token);
        self.by_bit.insert(bit, set);
        proof {
            assert(self@ =~= with_token(before, t, bit));
        }
    }

    /// The fiber of a bit, empty where no candidate hashes to it.
    pub fn fiber(&self, i: u32) -> (r: TokenSet)
        ensures
            r@ == fiber_at(self@, i),
    {
        match self.by_bit.get(&i) {
            Some(s) => s.duplicate(),
            None => OrdSet::new(),
        }
    }
}

/// One more bit joins one more fiber.
pub proof fn lemma_joined_insert(plane: Set<u32>, bit: u32, m: Map<u32, Set<Seq<u8>>>)
    ensures
        joined_fibers(plane.insert(bit), m) == joined_fibers(plane, m).union(fiber_at(m, bit)),
{
    let a = joined_fibers(plane.insert(bit), m);
    let b = joined_fibers(plane, m).union(fiber_at(m, bit));
    assert forall|t: Seq<u8>| a.contains(t) == b.contains(t) by {
        if a.contains(t) {
            let x = choose|x: u32|
                plane.insert(bit).contains(x) && #[trigger] fiber_at(m, x).contains(t);
            if x != bit {
                assert(plane.contains(x) && fiber_at(m, x).contains(t));
            }
        }
        if joined_fibers(plane, m).contains(t) {
            let x = choose|x: u32| plane.contains(x) && #[trigger] fiber_at(m, x).contains(t);
            assert(plane.insert(bit).contains(x) && fiber_at(m, x).contains(t));
        }
        if fiber_at(m, bit).contains(t) {
            assert(plane.insert(bit).contains(bit) && fiber_at(m, bit).contains(t));
        }
    }
    assert(a =~= b);
}

/// Joining the fibers of a table at the bits of a plane gives the table's
/// tokens that hash into the plane.
pub proof fn joining_fibers_materializes(
    plane: Set<u32>,
    tokens: Set<Seq<u8>>,
    m: Map<u32, Set<Seq<u8>>>,
)
    requires
        forall|b: u32| #![trigger fiber_at(m, b)] fiber_at(m, b) == fiber_of(tokens, b, 0),
    ensures
        joined_fibers(plane, m) == materialized(plane, tokens),
{
    let a = joined_fibers(plane, m);
    let b = materialized(plane, tokens);
    assert forall|t: Seq<u8>| a.contains(t) == b.contains(t) by {
        if a.contains(t) {
            let x = choose|x: u32| plane.contains(x) && #[trigger] fiber_at(m, x).contains(t);
            assert(fiber_of(tokens, x, 0).contains(t));
        }
        if b.contains(t) {
            let x = bit_of(t, 0);
            assert(fiber_of(tokens, x, 0).contains(t));
            assert(plane.contains(x) && fiber_at(m, x).contains(t));
        }
    }
    assert(a =~= b);
}

/// Materialization is a join-homomorphism in the table and in the plane.
pub proof fn materialization_is_a_join_homomorphism(
    plane: Set<u32>,
    other: Set<u32>,
    a: Set<Seq<u8>>,
    b: Set<Seq<u8>>,
)
    ensures
        materialized(plane, a.union(b)) == materialized(plane, a).union(materialized(plane, b)),
        materialized(plane.union(other), a) == materialized(plane, a).union(
            materialized(other, a),
        ),
        materialized(plane, a).subset_of(a),
{
    assert(materialized(plane, a.union(b)) =~= materialized(plane, a).union(
        materialized(plane, b),
    ));
    assert(materialized(plane.union(other), a) =~= materialized(plane, a).union(
        materialized(other, a),
    ));
}

/// The fibers of a table partition it: every token lies in exactly the fiber
/// of its bit.
pub proof fn fibers_partition_the_table(tokens: Set<Seq<u8>>, t: Seq<u8>, i: u32, j: u32)
    ensures
        tokens.contains(t) == fiber_of(tokens, bit_of(t, 0), 0).contains(t),
        fiber_of(tokens, i, 0).contains(t) ==> i == bit_of(t, 0),
        i != j ==> fiber_of(tokens, i, 0).intersect(fiber_of(tokens, j, 0)) == Set::<
            Seq<u8>,
        >::empty(),
{
    if i != j {
        assert(fiber_of(tokens, i, 0).intersect(fiber_of(tokens, j, 0)) =~= Set::empty());
    }
}

/// The plane of a non-empty fiber is the single bit of the fiber.
pub proof fn a_fiber_sketches_to_its_atom(tokens: Set<Seq<u8>>, i: u32, t: Seq<u8>)
    requires
        fiber_of(tokens, i, 0).contains(t),
    ensures
        set_bits(fiber_of(tokens, i, 0), 0) == set![i],
{
    let f = fiber_of(tokens, i, 0);
    assert forall|b: u32| set_bits(f, 0).contains(b) == set![i].contains(b) by {
        if set_bits(f, 0).contains(b) {
            let u = choose|u: Seq<u8>| f.contains(u) && b == #[trigger] bit_of(u, 0);
        }
        if b == i {
            assert(f.contains(t) && b == bit_of(t, 0));
        }
    }
    assert(set_bits(f, 0) =~= set![i]);
}

/// Materializing the plane of a table against the table restores the whole
/// table.
pub proof fn a_table_restores_itself(tokens: Set<Seq<u8>>)
    ensures
        materialized(set_bits(tokens, 0), tokens) == tokens,
{
    assert forall|t: Seq<u8>| tokens.contains(t) implies set_bits(tokens, 0).contains(
        bit_of(t, 0),
    ) by {
        assert(tokens.contains(t) && bit_of(t, 0) == bit_of(t, 0));
    }
    assert(materialized(set_bits(tokens, 0), tokens) =~= tokens);
}

/// The sparse Merkle tree over the bits of a table or plane.
pub struct AtomTree {
    /// The set bits, ascending.
    pub atoms: Vec<u32>,
    /// The Merkle root over the bits.
    pub root: String,
}

/// The digest of a leaf: SHA-1 of a zero byte and the bit in four
/// little-endian bytes.
pub open spec fn leaf_digest(bit: u32) -> Seq<char> {
    sha1_text(seq![0u8] + le_bytes(bit as nat, 4))
}

/// The digest of an inner node: SHA-1 of a one byte and the two digests.
pub open spec fn node_digest(left: Seq<char>, right: Seq<char>) -> Seq<char> {
    sha1_text(seq![1u8] + utf8(left) + utf8(right))
}

/// The next level up: neighbours are paired, and an odd last node with itself.
pub open spec fn level_above(level: Seq<Seq<char>>) -> Seq<Seq<char>> {
    Seq::new(
        ((level.len() + 1) / 2) as nat,
        |i: int|
            node_digest(
                level[2 * i],
                if 2 * i + 1 < level.len() {
                    level[2 * i + 1]
                } else {
                    level[2 * i]
                },
            ),
    )
}

/// The root above a level.
pub open spec fn root_of_level(level: Seq<Seq<char>>) -> Seq<char>
    decreases level.len(),
{
    if level.len() <= 1 {
        level[0]
    } else {
        root_of_level(level_above(level))
    }
}

/// The Merkle root over ascending bits.
pub open spec fn merkle(atoms: Seq<u32>) -> Seq<char> {
    if atoms.len() == 0 {
        sha1_text(utf8("empty-atom-tree"@))
    } else {
        root_of_level(atoms.map_values(|b: u32| leaf_digest(b)))
    }
}

/// The Merkle root over ascending bits.
pub fn merkle_root(atoms: &[u32]) -> (r: String)
    ensures
        r@ == merkle(atoms@),
{
    if atoms.len() == 0 {
        return sha1_hex("empty-atom-tree".as_bytes());
    }
    let mut level: Vec<String> = Vec::new();
    let mut i: usize = 0;
    while i < atoms.len()
        invariant
            i <= atoms@.len(),
            level@.len() == i,
            forall|j: int| 0 <= j < i ==> (#[trigger] level@[j])@ == leaf_digest(atoms@[j]),
        decreases atoms@.len() - i,
    {
        let mut data: Vec<u8> = Vec::new();
        data.push(0);
        push_le(&mut data, atoms[i] as u64, 4);
        proof {
            assert(data@ =~= seq![0u8] + le_bytes(atoms@[i as int] as nat, 4));
        }
        level.push(sha1_hex(data.as_slice()));
        i = i + 1;
    }
    proof {
        assert(texts(level@) =~= atoms@.map_values(|b: u32| leaf_digest(b)));
    }
    while level.len() > 1
        invariant
            level@.len() > 0,
            root_of_level(texts(level@)) == merkle(atoms@),
        decreases level@.len(),
    {
        let mut next: Vec<String> = Vec::new();
        let ghost lv = texts(level@);
        let n: usize = level.len();
        let pairs: usize = n / 2 + n % 2;
        let mut k: usize = 0;
        while k < pairs
            invariant
                k <= pairs,
                n == lv.len(),
                pairs == (lv.len() + 1) / 2,
                lv == texts(level@),
                next@.len() == k,
                forall|j: int|
                    0 <= j < next@.len() ==> (#[trigger] next@[j])@ == level_above(lv)[j],
            decreases pairs - k,
        {
            let left: usize = 2 * k;
            let right: usize = if left < n - 1 {
                left + 1
            } else {
                left
            };
            let mut data: Vec<u8> = Vec::new();
            data.push(1);
            data.extend_from_slice(level[left].as_str().as_bytes());
            data.extend_from_slice(level[right].as_str().as_bytes());
            proof {
                assert(data@ =~= seq![1u8] + utf8(lv[left as int]) + utf8(lv[right as int]));
            }
            next.push(sha1_hex(data.as_slice()));
            k = k + 1;
        }
        proof {
            assert(texts(next@) =~= level_above(lv));
        }
        level = next;
    }
    level[0].clone()
}

impl AtomTree {
    /// The root is the Merkle root of the atoms.
    pub open spec fn wf(&self) -> bool {
        self.root@ == merkle(self.atoms@)
    }

    /// The atom tree of a plane: its bits are the leaves.
    pub fn from_hllset(hllset: &HLLSet) -> (r: Self)
        ensures
            r.wf(),
            lists::<u32>(r.atoms@, hllset@),
    {
        let atoms = hllset.bitmap();
        let root = merkle_root(atoms.as_slice());
        AtomTree { atoms, root }
    }

    /// The atom tree of a table: the bits with a non-empty fiber are the
    /// leaves.
    pub fn from_lut(lut: &LutNode) -> (r: Self)
        ensures
            r.wf(),
            lists::<u32>(r.atoms@, set_bits(lut.tokens@, 0)),
    {
        let n: usize = lut.tokens.len();
        let ghost all = lut.tokens.seq();
        let mut set: OrdSet<u32> = OrdSet::new();
        let mut i: usize = 0;
        proof {
            assert(set@ =~= token_bits(all.take(0), 0));
        }
        while i < n
            invariant
                i <= n,
                n == all.len(),
                all == lut.tokens.seq(),
                set@ == token_bits(all.take(i as int), 0),
            decreases n - i,
        {
            set.insert(BitAddress::of_token(lut.tokens.at(i).as_slice()).bit());
            proof {
                crate::hllset::lemma_token_bits_step(all, i as int, 0);
            }
            i = i + 1;
        }
        let atoms = set.to_vec();
        proof {
            assert(all.take(n as int) =~= all);
            lemma_listed_bits(all, lut.tokens@, 0);
            assert(crate::collections::vals(atoms@) =~= atoms@);
        }
        let root = merkle_root(atoms.as_slice());
        AtomTree { atoms, root }
    }

    /// The Merkle root.
    pub fn root(&self) -> (r: &str)
        ensures
            r@ == self.root@,
    {
        self.root.as_str()
    }
}

/// The finest symmetry: the atom tree of a table and the atom tree of the
/// table's plane have the same leaves and the same root.
pub proof fn the_finest_symmetry(tokens: Set<Seq<u8>>, from_table: Seq<u32>, from_plane: Seq<u32>)
    requires
        lists::<u32>(from_table, set_bits(tokens, 0)),
        lists::<u32>(from_plane, set_bits(tokens, 0)),
    ensures
        from_table == from_plane,
        merkle(from_table) == merkle(from_plane),
{
    crate::collections::lemma_listing_unique::<u32>(from_table, from_plane);
}

/// An odd level above one node has the root of the level with its last node
/// repeated.
pub proof fn odd_levels_repeat_their_last_node(level: Seq<Seq<char>>)
    requires
        level.len() % 2 == 1,
        level.len() > 1,
    ensures
        root_of_level(level) == root_of_level(level.push(level.last())),
{
    let even = level.push(level.last());
    assert(level_above(level) =~= level_above(even));
}

/// Two levels of equal length, a power of two, side by side have the node of
/// their two roots as root: the left one first.
pub proof fn roots_combine_left_and_right(a: Seq<Seq<char>>, b: Seq<Seq<char>>, k: nat)
    requires
        a.len() == two(k),
        b.len() == two(k),
    ensures
        root_of_level(a + b) == node_digest(root_of_level(a), root_of_level(b)),
    decreases k,
{
    let all = a + b;
    if k == 0 {
        let up = level_above(all);
        assert(up.len() == 1);
        assert(up[0] == node_digest(a[0], b[0]));
        assert(root_of_level(up) == up[0]);
    } else {
        let j = (k - 1) as nat;
        lemma_two(j);
        assert(level_above(a).len() == two(j));
        assert(level_above(b).len() == two(j));
        assert(level_above(all) =~= level_above(a) + level_above(b)) by {
            assert forall|i: int| 0 <= i < level_above(all).len() implies level_above(all)[i] == (
            level_above(a) + level_above(b))[i] by {
                if i < two(j) {
                    assert(all[2 * i] == a[2 * i] && all[2 * i + 1] == a[2 * i + 1]);
                } else {
                    let m = i - two(j);
                    assert(all[2 * i] == b[2 * m] && all[2 * i + 1] == b[2 * m + 1]);
                }
            }
        }
        roots_combine_left_and_right(level_above(a), level_above(b), j);
    }
}

proof fn lemma_two(k: nat)
    ensures
        two(k) >= 1,
    decreases k,
{
    if k > 0 {
        lemma_two((k - 1) as nat);
    }
}

/// Registering a token adds it to the fiber of its bit and to no other.
pub proof fn tokens_join_their_fiber(
    m: Map<u32, Set<Seq<u8>>>,
    token: Seq<u8>,
    bit: u32,
    other: u32,
    t: Seq<u8>,
)
    ensures
        fiber_at(with_token(m, token, bit), bit).contains(t) <==> fiber_at(m, bit).contains(t) || t
            == token,
        other != bit ==> fiber_at(with_token(m, token, bit), other) == fiber_at(m, other),
{
}

/// What is hashed: for a leaf a zero byte and the bit, least significant byte
/// first; for an inner node a one byte and the two digests, the left one
/// first. A single bit has its leaf's digest as root.
pub proof fn leaves_and_nodes_are_hashed_apart(bit: u32, left: Seq<char>, right: Seq<char>)
    ensures
        merkle(seq![bit]) == leaf_digest(bit),
        exists|d: Seq<u8>|
            leaf_digest(bit) == #[trigger] sha1_text(d) && d.len() == 5 && d[0] == 0 && le_value(
                d.skip(1),
            ) == bit,
        exists|d: Seq<u8>|
            node_digest(left, right) == #[trigger] sha1_text(d) && d.len() > 0 && d[0] == 1
                && d.skip(1) == utf8(left) + utf8(right),
        merkle(Seq::empty()) == sha1_text(utf8("empty-atom-tree"@)),
{
    let d = seq![0u8] + le_bytes(bit as nat, 4);
    reveal_with_fuel(crate::text::pow256, 5);
    crate::text::lemma_le_roundtrip(bit as nat, 4);
    assert(d.skip(1) =~= le_bytes(bit as nat, 4));
    assert(leaf_digest(bit) == sha1_text(d));
    let n = seq![1u8] + utf8(left) + utf8(right);
    assert(n.skip(1) =~= utf8(left) + utf8(right));
    assert(node_digest(left, right) == sha1_text(n));
    let one = seq![bit].map_values(|b: u32| leaf_digest(b));
    assert(one.len() == 1 && one[0] == leaf_digest(bit));
}

} // verus!
