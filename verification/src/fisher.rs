//! Co-occurrence of bits across layers, and projections through it.
//!
//! An entry counts the layers that set both of two bits. Projecting a
//! divergence multiplies the matrix with it, which tells systemic changes
//! from noise.
use vstd::prelude::*;

use crate::collections::{lemma_listing, listing, lists, OrdSet};
use crate::hllset::HLLSet;
use crate::lattice::LatticeElement;
use crate::maps::{
    rank_entries, ranked_entries, ranking, ranking_pairs, rankings_come_best_first, OrdMap, Ranked,
};
use crate::matrix::first_k;
use crate::strategies::has_place;

verus! {

/// A bit position: register and height.
pub type BitPos = (u32, u32);

/// An entry of the matrix.
#[derive(Debug, Clone, Copy, PartialEq, Eq, Structural)]
pub struct FisherEntry {
    /// How many layers set both bits.
    pub count: u32,
}

/// The nonzero entries by pair of positions, the lower position first.
pub type Entries = Map<(BitPos, BitPos), u32>;

/// One position comes no later than another.
pub open spec fn no_later(a: BitPos, b: BitPos) -> bool {
    a.0 < b.0 || (a.0 == b.0 && a.1 <= b.1)
}

/// The pair of two positions, the lower one first.
pub open spec fn pair(a: BitPos, b: BitPos) -> (BitPos, BitPos) {
    if no_later(a, b) {
        (a, b)
    } else {
        (b, a)
    }
}

/// The count of a pair, zero where there is no entry.
pub open spec fn count_of(m: Entries, k: (BitPos, BitPos)) -> nat {
    if m.contains_key(k) {
        m[k] as nat
    } else {
        0
    }
}

/// How often two bits were set together.
pub open spec fn entry(m: Entries, a: BitPos, b: BitPos) -> nat {
    count_of(m, pair(a, b))
}

/// The ordered pairs of set positions of a plane.
pub open spec fn pairs_in(plane: Set<u32>) -> Set<(BitPos, BitPos)> {
    Set::new(
        |k: (BitPos, BitPos)|
            no_later(k.0, k.1) && has_place(plane, k.0) && has_place(plane, k.1),
    )
}

/// The entries with each of some pairs counted once more.
pub open spec fn counted(m: Entries, more: Set<(BitPos, BitPos)>) -> Entries {
    Map::new(
        |k: (BitPos, BitPos)| m.contains_key(k) || more.contains(k),
        |k: (BitPos, BitPos)|
            (count_of(m, k) + if more.contains(k) {
                1nat
            } else {
                0nat
            }) as u32,
    )
}

/// The matrix of some layers.
pub open spec fn matrix_of(layers: Seq<Set<u32>>) -> Entries
    decreases layers.len(),
{
    if layers.len() == 0 {
        Map::empty()
    } else {
        counted(matrix_of(layers.drop_last()), pairs_in(layers.last()))
    }
}

struct FisherBody {
    entries: OrdMap<((u32, u32), (u32, u32)), FisherEntry>,
    layer_count: usize,
}

/// The co-occurrence matrix.
pub struct FisherMatrix {
    body: FisherBody,
}

spec fn counts(m: Map<(BitPos, BitPos), FisherEntry>) -> Entries {
    m.map_values(|e: FisherEntry| e.count)
}

/// A position on the plane.
pub open spec fn on_plane(p: BitPos) -> bool {
    p.0 < 1024 && p.1 < 32
}

/// Entries that some number of layers can give.
pub open spec fn plausible(m: Entries, layers: nat) -> bool {
    forall|k: (BitPos, BitPos)| #[trigger]
        m.contains_key(k) ==> no_later(k.0, k.1) && on_plane(k.0) && on_plane(k.1) && 0 < m[k]
            <= layers
}

/// No entry has the largest count.
pub open spec fn has_room(m: Entries) -> bool {
    forall|k: (BitPos, BitPos)| #[trigger] m.contains_key(k) ==> m[k] < u32::MAX
}

impl View for FisherMatrix {
    type V = Entries;

    closed spec fn view(&self) -> Entries {
        counts(self.body.entries@)
    }
}

fn bump(entries: &mut OrdMap<((u32, u32), (u32, u32)), FisherEntry>, key: ((u32, u32), (u32, u32)))
    requires
        count_of(counts(old(entries)@), key) < u32::MAX,
    ensures
        counts(final(entries)@) == counts(old(entries)@).insert(
            key,
            (count_of(counts(old(entries)@), key) + 1) as u32,
        ),
{
    let ghost before = counts(entries@);
    let n: u32 = match entries.get(&key) {
        Some(e) => e.count,
        None => 0,
    };
    entries.insert(key, FisherEntry { count: n + 1 });
    proof {
        assert(counts(entries@) =~= before.insert(key, (count_of(before, key) + 1) as u32));
    }
}

/// The pairs that the first rows of a walk over ascending positions cover.
spec fn covered(p: Seq<BitPos>, i: int, j: int) -> Set<(BitPos, BitPos)> {
    Set::new(
        |k: (BitPos, BitPos)|
            exists|a: int, b: int|
                0 <= a <= b < p.len() && (a < i || (a == i && b < j)) && k == (
                    #[trigger] p[a],
                    #[trigger] p[b],
                ),
    )
}

/// Positions that ascend without repeats.
spec fn climbing(p: Seq<BitPos>) -> bool {
    forall|a: int, b: int|
        0 <= a < b < p.len() ==> no_later(#[trigger] p[a], #[trigger] p[b]) && p[a] != p[b]
}

proof fn lemma_covered_step(p: Seq<BitPos>, i: int, j: int)
    requires
        climbing(p),
        0 <= i <= j < p.len(),
    ensures
        covered(p, i, j + 1) == covered(p, i, j).insert((p[i], p[j])),
        !covered(p, i, j).contains((p[i], p[j])),
{
    let a1 = covered(p, i, j + 1);
    let b1 = covered(p, i, j).insert((p[i], p[j]));
    assert forall|k: (BitPos, BitPos)| a1.contains(k) == b1.contains(k) by {
        if a1.contains(k) {
            let (a, b) = choose|a: int, b: int|
                0 <= a <= b < p.len() && (a < i || (a == i && b < j + 1)) && k == (
                    #[trigger] p[a],
                    #[trigger] p[b],
                );
            if !(a == i && b == j) {
                assert(covered(p, i, j).contains(k));
            }
        }
        if covered(p, i, j).contains(k) {
            let (a, b) = choose|a: int, b: int|
                0 <= a <= b < p.len() && (a < i || (a == i && b < j)) && k == (
                    #[trigger] p[a],
                    #[trigger] p[b],
                );
            assert(a1.contains(k));
        }
        if k == (p[i], p[j]) {
            assert(a1.contains(k));
        }
    }
    assert(a1 =~= b1);
    if covered(p, i, j).contains((p[i], p[j])) {
        let (a, b) = choose|a: int, b: int|
            0 <= a <= b < p.len() && (a < i || (a == i && b < j)) && (p[i], p[j]) == (
                #[trigger] p[a],
                #[trigger] p[b],
            );
        if a < i {
            assert(p[a] != p[i]);
        } else {
            assert(p[b] != p[j]);
        }
    }
}

proof fn lemma_covered_row(p: Seq<BitPos>, i: int)
    requires
        0 <= i < p.len(),
    ensures
        covered(p, i, p.len() as int) == covered(p, i + 1, i + 1),
{
    let x = covered(p, i, p.len() as int);
    let y = covered(p, i + 1, i + 1);
    assert forall|k: (BitPos, BitPos)| x.contains(k) == y.contains(k) by {
        if x.contains(k) {
            let (a, b) = choose|a: int, b: int|
                0 <= a <= b < p.len() && (a < i || (a == i && b < p.len())) && k == (
                    #[trigger] p[a],
                    #[trigger] p[b],
                );
            assert(a < i + 1);
            assert(y.contains(k));
        }
        if y.contains(k) {
            let (a, b) = choose|a: int, b: int|
                0 <= a <= b < p.len() && (a < i + 1 || (a == i + 1 && b < i + 1)) && k == (
                    #[trigger] p[a],
                    #[trigger] p[b],
                );
            assert(a < i || (a == i && b < p.len()));
            assert(x.contains(k));
        }
    }
    assert(x =~= y);
}

proof fn lemma_counted_insert(m: Entries, d: Set<(BitPos, BitPos)>, k: (BitPos, BitPos))
    requires
        has_room(m),
        !d.contains(k),
    ensures
        counted(m, d.insert(k)) == counted(m, d).insert(k, (count_of(counted(m, d), k) + 1) as u32),
        count_of(counted(m, d), k) < u32::MAX,
{
    assert(count_of(counted(m, d), k) == count_of(m, k));
    assert(counted(m, d.insert(k)) =~= counted(m, d).insert(
        k,
        (count_of(counted(m, d), k) + 1) as u32,
    ));
}

/// The positions of a plane, ascending, with what holds of them.
fn climbing_places(plane: &HLLSet) -> (r: Vec<(u32, u32)>)
    ensures
        climbing(r@),
        forall|p: BitPos| #[trigger] r@.contains(p) <==> has_place(plane@, p),
{
    let r = plane.active_positions();
    let ghost bits = plane.seq();
    proof {
        assert forall|a: int, b: int| 0 <= a < b < r@.len() implies no_later(
            #[trigger] r@[a],
            #[trigger] r@[b],
        ) && r@[a] != r@[b] by {
            assert(bits[a] < bits[b]);
        }
        assert forall|p: BitPos| #[trigger] r@.contains(p) <==> has_place(plane@, p) by {
            if r@.contains(p) {
                let i = choose|i: int| 0 <= i < r@.len() && r@[i] == p;
                assert(bits.to_set().contains(bits[i]));
                assert(bits[i] < 32768);
                assert(p.0 * 32 + p.1 == bits[i]);
            }
            if has_place(plane@, p) {
                let b = (p.0 * 32 + p.1) as u32;
                assert(bits.to_set().contains(b));
                let i = choose|i: int| 0 <= i < bits.len() && bits[i] == b;
                assert(r@[i] == (bits[i] / 32, bits[i] % 32));
                assert(r@[i] == p);
            }
        }
    }
    r
}

impl FisherMatrix {
    /// The number of layers.
    pub closed spec fn layers(&self) -> nat {
        self.body.layer_count as nat
    }

    #[verifier::type_invariant]
    spec fn inv(self) -> bool {
        plausible(counts(self.body.entries@), self.body.layer_count as nat)
    }

    /// A matrix of no layers.
    pub fn new() -> (r: Self)
        ensures
            r@ == Map::<(BitPos, BitPos), u32>::empty(),
            r.layers() == 0,
    {
        let body = FisherBody { entries: OrdMap::new(), layer_count: 0 };
        proof {
            assert(counts(body.entries@) =~= Map::empty());
        }
        FisherMatrix { body }
    }

    /// Adds a layer: every pair of bits that it sets counts once more.
    pub fn add_layer(&mut self, layer: &LatticeElement)
        requires
            has_room(old(self)@),
            old(self).layers() < usize::MAX,
        ensures
            final(self)@ == counted(old(self)@, pairs_in(layer@)),
            final(self).layers() == old(self).layers() + 1,
    {
        proof {
            use_type_invariant(&*self);
        }
        let ghost m = self@;
        let ghost layers = self.layers();
        let mut body = FisherBody { entries: OrdMap::new(), layer_count: 0 };
        proof {
            assert(counts(body.entries@) =~= Map::empty());
        }
        core::mem::swap(&mut body, &mut self.body);
        let FisherBody { mut entries, layer_count } = body;
        let places = climbing_places(layer.hllset());
        let ghost p = places@;
        let n: usize = places.len();
        let mut i: usize = 0;
        proof {
            assert(covered(p, 0, 0) =~= Set::empty());
            assert(counted(m, Set::empty()) =~= m);
        }
        while i < n
            invariant
                i <= n,
                n == p.len(),
                p == places@,
                climbing(p),
                plausible(m, layers),
                has_room(m),
                counts(entries@) == counted(m, covered(p, i as int, i as int)),
            decreases n - i,
        {
            let mut j: usize = i;
            while j < n
                invariant
                    i <= j <= n,
                    i < n,
                    n == p.len(),
                    p == places@,
                    climbing(p),
                    plausible(m, layers),
                    has_room(m),
                    counts(entries@) == counted(m, covered(p, i as int, j as int)),
                decreases n - j,
            {
                proof {
                    lemma_covered_step(p, i as int, j as int);
                    lemma_counted_insert(
                        m,
                        covered(p, i as int, j as int),
                        (p[i as int], p[j as int]),
                    );
                }
                bump(&mut entries, (places[i], places[j]));
                j = j + 1;
            }
            proof {
                lemma_covered_row(p, i as int);
            }
            i = i + 1;
        }
        proof {
            let d = covered(p, n as int, n as int);
            let want = pairs_in(layer@);
            assert forall|k: (BitPos, BitPos)| d.contains(k) == want.contains(k) by {
                if d.contains(k) {
                    let (a, b) = choose|a: int, b: int|
                        0 <= a <= b < p.len() && (a < n || (a == n && b < n)) && k == (
                            #[trigger] p[a],
                            #[trigger] p[b],
                        );
                    assert(p.contains(p[a]) && p.contains(p[b]));
                    if a < b {
                        assert(no_later(p[a], p[b]));
                    }
                }
                if want.contains(k) {
                    assert(p.contains(k.0) && p.contains(k.1));
                    let a = choose|a: int| 0 <= a < p.len() && p[a] == k.0;
                    let b = choose|b: int| 0 <= b < p.len() && p[b] == k.1;
                    if b < a {
                        assert(no_later(p[b], p[a]) && p[b] != p[a]);
                    }
                    assert(d.contains(k));
                }
            }
            assert(d =~= want);
            let after = counted(m, want);
            assert forall|k: (BitPos, BitPos)| #[trigger] after.contains_key(k) implies no_later(
                k.0,
                k.1,
            ) && on_plane(k.0) && on_plane(k.1) && 0 < after[k] <= layers + 1 by {}
        }
        self.body = FisherBody { entries, layer_count: layer_count + 1 };
    }

    /// How many layers set both bits.
    pub fn get(&self, b1: BitPos, b2: BitPos) -> (r: u32)
        ensures
            r == entry(self@, b1, b2),
    {
        let first = b1.0 < b2.0 || (b1.0 == b2.0 && b1.1 <= b2.1);
        let key = if first {
            (b1, b2)
        } else {
            (b2, b1)
        };
        match self.body.entries.get(&key) {
            Some(e) => e.count,
            None => 0,
        }
    }

    /// How many layers set a bit.
    pub fn diagonal(&self, b: BitPos) -> (r: u32)
        ensures
            r == entry(self@, b, b),
    {
        self.get(b, b)
    }

    /// The number of layers.
    pub fn layer_count(&self) -> (r: usize)
        ensures
            r == self.layers(),
    {
        self.body.layer_count
    }

    /// The number of nonzero entries.
    pub fn entry_count(&self) -> (r: usize)
        ensures
            r == self@.dom().len(),
    {
        proof {
            assert(self@.dom() =~= self.body.entries@.dom());
        }
        self.body.entries.len()
    }

    /// The nonzero entries, by ascending pair.
    pub fn iter(&self) -> (r: Vec<((BitPos, BitPos), FisherEntry)>)
        ensures
            lists::<((u32, u32), (u32, u32))>(
                r@.map_values(|x: ((BitPos, BitPos), FisherEntry)| x.0),
                self@.dom(),
            ),
            forall|i: int| 0 <= i < r@.len() ==> (#[trigger] r@[i]).1.count == self@[r@[i].0],
    {
        let n: usize = self.body.entries.len();
        let ghost keys = self.body.entries.keys();
        let mut out: Vec<((BitPos, BitPos), FisherEntry)> = Vec::new();
        let mut i: usize = 0;
        while i < n
            invariant
                i <= n,
                n == keys.len(),
                keys == self.body.entries.keys(),
                out@.len() == i,
                forall|k: int|
                    0 <= k < i ==> (#[trigger] out@[k]).0 == keys[k] && out@[k].1.count
                        == self@[keys[k]],
            decreases n - i,
        {
            let key = self.body.entries.key_at(i);
            let e = self.body.entries.val_at(i);
            out.push(((key.0, key.1), *e));
            i = i + 1;
        }
        proof {
            assert(self@.dom() =~= self.body.entries@.dom());
            assert(out@.map_values(|x: ((BitPos, BitPos), FisherEntry)| x.0) =~= keys);
        }
        out
    }

    /// The bits that most layers set, by descending count and then ascending
    /// position.
    pub fn most_persistent(&self, top_n: usize) -> (r: Vec<(BitPos, u32)>)
        ensures
            scored(r@) == first_k(ranking::<(u32, u32)>(diagonals(self@)), top_n as nat),
    {
        let all = self.iter();
        let ghost keys = all@.map_values(|x: ((BitPos, BitPos), FisherEntry)| x.0);
        let ghost want = diagonals(self@);
        let mut map: OrdMap<(u32, u32), u64> = OrdMap::new();
        let mut i: usize = 0;
        proof {
            assert(map@ =~= Map::empty());
            assert(want.restrict(diagonal_bits(keys.take(0))) =~= Map::empty());
        }
        while i < all.len()
            invariant
                i <= all@.len(),
                keys == all@.map_values(|x: ((BitPos, BitPos), FisherEntry)| x.0),
                keys.to_set() == self@.dom(),
                forall|k: int|
                    0 <= k < all@.len() ==> (#[trigger] all@[k]).1.count == self@[all@[k].0],
                want == diagonals(self@),
                map@ == want.restrict(diagonal_bits(keys.take(i as int))),
            decreases all@.len() - i,
        {
            let (b1, b2) = all[i].0;
            proof {
                assert(keys[i as int] == (b1, b2));
                assert(keys.to_set().contains(keys[i as int]));
                lemma_diagonal_step(keys, i as int);
            }
            if b1.0 == b2.0 && b1.1 == b2.1 {
                map.insert(b1, all[i].1.count as u64);
            }
            proof {
                assert(map@ =~= want.restrict(diagonal_bits(keys.take(i + 1))));
            }
            i = i + 1;
        }
        proof {
            assert(keys.take(i as int) =~= keys);
            assert forall|b: BitPos| want.contains_key(b) implies diagonal_bits(keys).contains(
                b,
            ) by {
                assert(keys.to_set().contains((b, b)));
            }
            assert(map@ =~= want);
        }
        best_of(&map, top_n)
    }

    /// The bits most often set together with a bit, by descending count and
    /// then ascending position.
    pub fn most_coupled(&self, b: BitPos, top_n: usize) -> (r: Vec<(BitPos, u32)>)
        ensures
            scored(r@) == first_k(ranking::<(u32, u32)>(partners(self@, b)), top_n as nat),
    {
        proof {
            use_type_invariant(self);
        }
        let all = self.iter();
        let ghost keys = all@.map_values(|x: ((BitPos, BitPos), FisherEntry)| x.0);
        let ghost want = partners(self@, b);
        let mut map: OrdMap<(u32, u32), u64> = OrdMap::new();
        let mut i: usize = 0;
        proof {
            assert(map@ =~= Map::empty());
            assert(want.restrict(partner_bits(keys.take(0), b)) =~= Map::empty());
        }
        while i < all.len()
            invariant
                i <= all@.len(),
                keys == all@.map_values(|x: ((BitPos, BitPos), FisherEntry)| x.0),
                keys.to_set() == self@.dom(),
                plausible(self@, self.layers()),
                forall|k: int|
                    0 <= k < all@.len() ==> (#[trigger] all@[k]).1.count == self@[all@[k].0],
                want == partners(self@, b),
                map@ == want.restrict(partner_bits(keys.take(i as int), b)),
            decreases all@.len() - i,
        {
            let (b1, b2) = all[i].0;
            let is1 = b1.0 == b.0 && b1.1 == b.1;
            let is2 = b2.0 == b.0 && b2.1 == b.1;
            proof {
                assert(keys[i as int] == (b1, b2));
                assert(keys.to_set().contains(keys[i as int]));
                assert(no_later(b1, b2));
                lemma_partner_step(keys, i as int, b);
            }
            if is1 && !is2 {
                map.insert(b2, all[i].1.count as u64);
            } else if is2 && !is1 {
                map.insert(b1, all[i].1.count as u64);
            }
            proof {
                assert(map@ =~= want.restrict(partner_bits(keys.take(i + 1), b)));
            }
            i = i + 1;
        }
        proof {
            assert(keys.take(i as int) =~= keys);
            assert forall|o: BitPos| want.contains_key(o) implies partner_bits(keys, b).contains(
                o,
            ) by {
                assert(keys.to_set().contains(pair(b, o)));
            }
            assert(map@ =~= want);
        }
        best_of(&map, top_n)
    }
}

/// Counts with their positions.
pub open spec fn scored(v: Seq<(BitPos, u32)>) -> Seq<(u64, BitPos)> {
    v.map_values(|x: (BitPos, u32)| (x.1 as u64, x.0))
}

/// The layer counts of single bits.
pub open spec fn diagonals(m: Entries) -> Map<BitPos, u64> {
    Map::new(|b: BitPos| m.contains_key((b, b)), |b: BitPos| m[(b, b)] as u64)
}

/// The counts of the other bits set together with a bit.
pub open spec fn partners(m: Entries, b: BitPos) -> Map<BitPos, u64> {
    Map::new(
        |o: BitPos| o != b && m.contains_key(pair(b, o)),
        |o: BitPos| m[pair(b, o)] as u64,
    )
}

/// The bits paired with themselves among some pairs.
spec fn diagonal_bits(keys: Seq<(BitPos, BitPos)>) -> Set<BitPos> {
    Set::new(|b: BitPos| keys.contains((b, b)))
}

/// The bits paired with a bit among some pairs.
spec fn partner_bits(keys: Seq<(BitPos, BitPos)>, b: BitPos) -> Set<BitPos> {
    Set::new(|o: BitPos| keys.contains(pair(b, o)))
}

proof fn lemma_key_step(keys: Seq<(BitPos, BitPos)>, i: int, k: (BitPos, BitPos))
    requires
        0 <= i < keys.len(),
    ensures
        keys.take(i + 1).contains(k) <==> keys.take(i).contains(k) || k == keys[i],
{
    let long = keys.take(i + 1);
    let short = keys.take(i);
    if long.contains(k) {
        let j = choose|j: int| 0 <= j < long.len() && long[j] == k;
        if j < i {
            assert(short[j] == k);
        }
    }
    if short.contains(k) {
        let j = choose|j: int| 0 <= j < short.len() && short[j] == k;
        assert(long[j] == k);
    }
    assert(long[i] == keys[i]);
}

proof fn lemma_diagonal_step(keys: Seq<(BitPos, BitPos)>, i: int)
    requires
        0 <= i < keys.len(),
    ensures
        forall|b: BitPos|
            diagonal_bits(keys.take(i + 1)).contains(b) <==> #[trigger] diagonal_bits(
                keys.take(i),
            ).contains(b) || (b, b) == keys[i],
{
    assert forall|b: BitPos|
        diagonal_bits(keys.take(i + 1)).contains(b) <==> #[trigger] diagonal_bits(
            keys.take(i),
        ).contains(b) || (b, b) == keys[i] by {
        lemma_key_step(keys, i, (b, b));
    }
}

proof fn lemma_partner_step(keys: Seq<(BitPos, BitPos)>, i: int, b: BitPos)
    requires
        0 <= i < keys.len(),
    ensures
        forall|o: BitPos|
            partner_bits(keys.take(i + 1), b).contains(o) <==> #[trigger] partner_bits(
                keys.take(i),
                b,
            ).contains(o) || pair(b, o) == keys[i],
{
    assert forall|o: BitPos|
        partner_bits(keys.take(i + 1), b).contains(o) <==> #[trigger] partner_bits(
            keys.take(i),
            b,
        ).contains(o) || pair(b, o) == keys[i] by {
        lemma_key_step(keys, i, pair(b, o));
    }
}

/// The highest counts of a map whose counts are those of entries.
fn best_of(map: &OrdMap<(u32, u32), u64>, top_n: usize) -> (r: Vec<(BitPos, u32)>)
    requires
        forall|b: BitPos| #[trigger] map@.contains_key(b) ==> map@[b] <= u32::MAX,
    ensures
        scored(r@) == first_k(ranking::<(u32, u32)>(map@), top_n as nat),
{
    let mut order = rank_entries(map);
    let ghost full = ranking_pairs(order@);
    order.truncate(top_n);
    let ghost kept = ranking_pairs(order@);
    proof {
        assert(kept =~= first_k(full, top_n as nat));
    }
    let mut out: Vec<(BitPos, u32)> = Vec::new();
    let mut i: usize = 0;
    while i < order.len()
        invariant
            i <= order@.len(),
            kept == ranking_pairs(order@),
            kept == first_k(full, top_n as nat),
            lists::<Ranked<(u32, u32)>>(full, ranked_entries(map@)),
            forall|b: BitPos| #[trigger] map@.contains_key(b) ==> map@[b] <= u32::MAX,
            out@.len() == i,
            forall|k: int|
                0 <= k < i ==> ((#[trigger] out@[k]).1 as u64, out@[k].0) == kept[k],
        decreases order@.len() - i,
    {
        proof {
            assert(kept.len() == order@.len());
            assert(kept[i as int] == full[i as int]);
            assert(full.to_set().contains(full[i as int]));
            assert(kept[i as int] == (order@[i as int].1, order@[i as int].0));
            assert(map@.contains_key(order@[i as int].0));
        }
        out.push((order[i].0, order[i].1 as u32));
        i = i + 1;
    }
    proof {
        assert(scored(out@) =~= kept);
    }
    out
}

/// A divergence: a weight for some positions, from minus one to one.
pub type Divergence = Map<BitPos, i8>;

/// The weighted sum of a row of the matrix over some positions.
pub open spec fn row_sum(m: Entries, d: Divergence, b: BitPos, others: Seq<BitPos>) -> int
    decreases others.len(),
{
    if others.len() == 0 {
        0
    } else {
        row_sum(m, d, b, others.drop_last()) + entry(m, b, others.last()) * d[others.last()]
    }
}

/// The score of a bit: its row of the matrix times the divergence.
pub open spec fn score(m: Entries, d: Divergence, b: BitPos) -> int {
    row_sum(m, d, b, listing::<(u32, u32)>(d.dom()))
}

/// A bit of the matrix or of the divergence.
pub open spec fn touched(m: Entries, d: Divergence, b: BitPos) -> bool {
    d.contains_key(b) || exists|k: (BitPos, BitPos)| #[trigger]
        m.contains_key(k) && (k.0 == b || k.1 == b)
}

/// The size of a number.
pub open spec fn size(x: int) -> nat {
    if x < 0 {
        (-x) as nat
    } else {
        x as nat
    }
}

/// The sizes of the scores of all bits.
pub open spec fn sizes(m: Entries, d: Divergence) -> Map<BitPos, u64> {
    Map::new(|b: BitPos| touched(m, d, b), |b: BitPos| size(score(m, d, b)) as u64)
}

/// A divergence projected through the matrix.
pub struct FisherProjection {
    /// The scores, by descending size and then ascending position.
    pub scores: Vec<(BitPos, i64)>,
    /// The scores larger than a threshold.
    pub significant: Vec<(BitPos, i64)>,
}

/// The sizes of scores with their positions.
pub open spec fn sized(v: Seq<(BitPos, i64)>) -> Seq<(u64, BitPos)> {
    v.map_values(|x: (BitPos, i64)| (size(x.1 as int) as u64, x.0))
}

spec fn grid() -> Set<BitPos> {
    Set::new(|p: BitPos| on_plane(p))
}

proof fn lemma_grid()
    ensures
        grid().finite(),
        grid().len() == 32768,
{
    let r = vstd::set_lib::set_int_range(0, 32768);
    vstd::set_lib::lemma_int_range(0, 32768);
    let f = |i: int| ((i / 32) as u32, (i % 32) as u32);
    assert(r.map(f) =~= grid()) by {
        assert forall|p: BitPos| grid().contains(p) implies r.map(f).contains(p) by {
            let i = p.0 * 32 + p.1;
            assert(r.contains(i) && f(i) == p);
        }
        assert forall|p: BitPos| r.map(f).contains(p) implies grid().contains(p) by {
            let i = choose|i: int| r.contains(i) && f(i) == p;
        }
    }
    r.lemma_map_finite(f);
    vstd::set_lib::lemma_map_size(r, grid(), f);
}

fn score_of(fisher: &FisherMatrix, divergence: &OrdMap<(u32, u32), i8>, b: BitPos) -> (r: i64)
    ensures
        r == score(fisher@, divergence@, b),
        -18014398509481984 <= r <= 18014398509481984,
{
    let n: usize = divergence.len();
    let ghost m = fisher@;
    let ghost d = divergence@;
    let ghost keys = divergence.keys();
    let mut acc: i64 = 0;
    let mut i: usize = 0;
    let ghost mut seen: Set<BitPos> = Set::empty();
    proof {
        use_type_invariant(fisher);
        lemma_grid();
        assert(d.dom() =~= keys.to_set());
        lemma_listing::<(u32, u32)>(keys, d.dom());
        assert(keys.take(0) =~= Seq::empty());
    }
    while i < n
        invariant
            i <= n,
            n == keys.len(),
            keys == divergence.keys(),
            m == fisher@,
            d == divergence@,
            plausible(m, fisher.layers()),
            crate::collections::ascending::<(u32, u32)>(keys),
            grid().finite(),
            grid().len() == 32768,
            seen.finite(),
            seen.subset_of(grid()),
            forall|p: BitPos| #[trigger] seen.contains(p) ==> keys.take(i as int).contains(p),
            acc == row_sum(m, d, b, keys.take(i as int)),
            -549755813888 * seen.len() <= acc <= 549755813888 * seen.len(),
        decreases n - i,
    {
        let o = *divergence.key_at(i);
        let w: i8 = *divergence.val_at(i);
        let c: u32 = fisher.get(b, o);
        proof {
            assert(keys.take(i + 1).drop_last() =~= keys.take(i as int));
            assert(keys.take(i + 1).last() == o);
            assert(-549755813888 <= c * w <= 549755813888) by (nonlinear_arith)
                requires
                    0 <= c <= 4294967295,
                    -128 <= w <= 127,
            ;
            if c == 0 {
                assert(c * w == 0) by (nonlinear_arith)
                    requires
                        c == 0,
                ;
            }
            vstd::set_lib::lemma_len_subset(seen, grid());
            if c != 0 {
                assert(m.contains_key(pair(b, o)));
                assert(on_plane(o));
                assert(!seen.contains(o)) by {
                    if seen.contains(o) {
                        assert(keys.take(i as int).contains(o));
                        let k = choose|k: int|
                            0 <= k < keys.take(i as int).len() && keys.take(i as int)[k] == o;
                        crate::collections::lemma_ascending_distinct::<(u32, u32)>(keys);
                        assert(keys[k] != keys[i as int]);
                    }
                }
                let more = seen.insert(o);
                assert(more.subset_of(grid()));
                vstd::set_lib::lemma_len_subset(more, grid());
            }
        }
        acc = acc + c as i64 * w as i64;
        proof {
            if c != 0 {
                seen = seen.insert(o);
            }
            assert forall|p: BitPos| #[trigger] seen.contains(p) implies keys.take(
                i + 1,
            ).contains(p) by {
                if p == o {
                    assert(keys.take(i + 1)[i as int] == o);
                } else {
                    assert(keys.take(i as int).contains(p));
                    let k = choose|k: int|
                        0 <= k < keys.take(i as int).len() && keys.take(i as int)[k] == p;
                    assert(keys.take(i + 1)[k] == p);
                }
            }
        }
        i = i + 1;
    }
    proof {
        assert(keys.take(i as int) =~= keys);
        vstd::set_lib::lemma_len_subset(seen, grid());
    }
    acc
}

/// The bits of some pairs.
spec fn ends(keys: Seq<(BitPos, BitPos)>) -> Set<BitPos> {
    Set::new(
        |b: BitPos|
            exists|k: (BitPos, BitPos)| #[trigger] keys.contains(k) && (k.0 == b || k.1 == b),
    )
}

proof fn lemma_ends_step(keys: Seq<(BitPos, BitPos)>, i: int)
    requires
        0 <= i < keys.len(),
    ensures
        ends(keys.take(i + 1)) == ends(keys.take(i)).insert(keys[i].0).insert(keys[i].1),
{
    let a = ends(keys.take(i + 1));
    let c = ends(keys.take(i)).insert(keys[i].0).insert(keys[i].1);
    assert forall|b: BitPos| a.contains(b) == c.contains(b) by {
        if a.contains(b) {
            let k = choose|k: (BitPos, BitPos)| #[trigger]
                keys.take(i + 1).contains(k) && (k.0 == b || k.1 == b);
            lemma_key_step(keys, i, k);
        }
        if ends(keys.take(i)).contains(b) {
            let k = choose|k: (BitPos, BitPos)| #[trigger]
                keys.take(i).contains(k) && (k.0 == b || k.1 == b);
            lemma_key_step(keys, i, k);
        }
        if b == keys[i].0 || b == keys[i].1 {
            lemma_key_step(keys, i, keys[i]);
        }
    }
    assert(a =~= c);
}

/// All bits of the matrix and of the divergence.
fn touched_bits(fisher: &FisherMatrix, divergence: &OrdMap<(u32, u32), i8>) -> (r: OrdSet<
    (u32, u32),
>)
    ensures
        forall|b: BitPos| #[trigger]
            r@.contains(b) <==> touched(fisher@, divergence@, b),
{
    let all = fisher.iter();
    let ghost keys = all@.map_values(|x: ((BitPos, BitPos), FisherEntry)| x.0);
    let mut set: OrdSet<(u32, u32)> = OrdSet::new();
    let mut i: usize = 0;
    proof {
        assert(set@ =~= ends(keys.take(0)));
    }
    while i < all.len()
        invariant
            i <= all@.len(),
            keys == all@.map_values(|x: ((BitPos, BitPos), FisherEntry)| x.0),
            set@ == ends(keys.take(i as int)),
        decreases all@.len() - i,
    {
        proof {
            lemma_ends_step(keys, i as int);
            assert(keys[i as int] == all@[i as int].0);
        }
        let (b1, b2) = all[i].0;
        set.insert(b1);
        set.insert(b2);
        i = i + 1;
    }
    let ghost base = set@;
    let n: usize = divergence.len();
    let ghost dk = divergence.keys();
    let mut j: usize = 0;
    proof {
        assert(keys.take(i as int) =~= keys);
        assert(set@ =~= base.union(dk.take(0).to_set()));
    }
    while j < n
        invariant
            j <= n,
            n == dk.len(),
            dk == divergence.keys(),
            set@ == base.union(dk.take(j as int).to_set()),
        decreases n - j,
    {
        proof {
            crate::collections::lemma_take_step(dk, j as int);
        }
        set.insert(*divergence.key_at(j));
        proof {
            assert(set@ =~= base.union(dk.take(j + 1).to_set()));
        }
        j = j + 1;
    }
    proof {
        assert(dk.take(j as int) =~= dk);
        assert forall|b: BitPos| #[trigger] set@.contains(b) <==> touched(
            fisher@,
            divergence@,
            b,
        ) by {
            assert(dk.to_set().contains(b) == divergence@.contains_key(b));
            if base.contains(b) {
                let k = choose|k: (BitPos, BitPos)| #[trigger]
                    keys.contains(k) && (k.0 == b || k.1 == b);
                assert(keys.to_set().contains(k));
                assert(fisher@.contains_key(k));
            }
            if exists|k: (BitPos, BitPos)| #[trigger]
                fisher@.contains_key(k) && (k.0 == b || k.1 == b) {
                let k = choose|k: (BitPos, BitPos)| #[trigger]
                    fisher@.contains_key(k) && (k.0 == b || k.1 == b);
                assert(keys.to_set().contains(k));
                assert(keys.contains(k));
            }
        }
    }
    set
}

impl FisherProjection {
    /// Projects a divergence through a matrix.
    pub fn project(
        fisher: &FisherMatrix,
        divergence: &OrdMap<(u32, u32), i8>,
        significance_threshold: i64,
    ) -> (r: Self)
        ensures
            sized(r.scores@) == ranking::<(u32, u32)>(sizes(fisher@, divergence@)),
            forall|i: int|
                0 <= i < r.scores@.len() ==> (#[trigger] r.scores@[i]).1 == score(
                    fisher@,
                    divergence@,
                    r.scores@[i].0,
                ),
            r.significant@ == r.scores@.filter(
                |x: (BitPos, i64)| size(x.1 as int) > significance_threshold,
            ),
    {
        let bits = touched_bits(fisher, divergence);
        let ghost want = sizes(fisher@, divergence@);
        let ghost list = bits.seq();
        let n: usize = bits.len();
        let mut map: OrdMap<(u32, u32), u64> = OrdMap::new();
        let mut i: usize = 0;
        proof {
            assert(map@ =~= want.restrict(list.take(0).to_set()));
        }
        while i < n
            invariant
                i <= n,
                n == list.len(),
                list == bits.seq(),
                lists::<(u32, u32)>(list, bits@),
                want == sizes(fisher@, divergence@),
                forall|b: BitPos| #[trigger]
                    bits@.contains(b) <==> touched(fisher@, divergence@, b),
                map@ == want.restrict(list.take(i as int).to_set()),
            decreases n - i,
        {
            let b = *bits.at(i);
            proof {
                crate::collections::lemma_take_step(list, i as int);
                assert(list.to_set().contains(list[i as int]));
                assert(bits@.contains(b));
            }
            let s: i64 = score_of(fisher, divergence, b);
            let magnitude: u64 = if s < 0 {
                (-s) as u64
            } else {
                s as u64
            };
            map.insert(b, magnitude);
            proof {
                assert(map@ =~= want.restrict(list.take(i + 1).to_set()));
            }
            i = i + 1;
        }
        proof {
            assert(list.take(i as int) =~= list);
            assert forall|b: BitPos| want.contains_key(b) implies list.to_set().contains(b) by {
                assert(bits@.contains(b));
            }
            assert(map@ =~= want);
        }
        let order = rank_entries(&map);
        let ghost kept = ranking_pairs(order@);
        let mut scores: Vec<(BitPos, i64)> = Vec::new();
        let mut significant: Vec<(BitPos, i64)> = Vec::new();
        let ghost keep = |x: (BitPos, i64)| size(x.1 as int) > significance_threshold;
        let mut j: usize = 0;
        proof {
            reveal(Seq::filter);
            assert(significant@ =~= scores@.filter(keep));
        }
        while j < order.len()
            invariant
                j <= order@.len(),
                kept == ranking_pairs(order@),
                lists::<Ranked<(u32, u32)>>(kept, ranked_entries(want)),
                want == sizes(fisher@, divergence@),
                keep == (|x: (BitPos, i64)| size(x.1 as int) > significance_threshold),
                scores@.len() == j,
                forall|k: int|
                    0 <= k < j ==> (#[trigger] scores@[k]).1 == score(
                        fisher@,
                        divergence@,
                        scores@[k].0,
                    ) && (size(scores@[k].1 as int) as u64, scores@[k].0) == kept[k],
                significant@ == scores@.filter(keep),
            decreases order@.len() - j,
        {
            let b = order[j].0;
            let s: i64 = score_of(fisher, divergence, b);
            let magnitude: i64 = if s < 0 {
                -s
            } else {
                s
            };
            proof {
                assert(kept.to_set().contains(kept[j as int]));
                assert(kept[j as int] == (order@[j as int].1, order@[j as int].0));
                assert(want.contains_key(b));
                reveal(Seq::filter);
                assert(scores@.push((b, s)).drop_last() =~= scores@);
            }
            scores.push((b, s));
            if magnitude > significance_threshold {
                significant.push((b, s));
            }
            j = j + 1;
        }
        proof {
            assert(sized(scores@) =~= kept);
        }
        FisherProjection { scores, significant }
    }
}

/// Entries do not depend on the order of the two bits.
pub proof fn the_matrix_is_symmetric(m: Entries, a: BitPos, b: BitPos)
    ensures
        entry(m, a, b) == entry(m, b, a),
{
}

/// How many of some layers set both bits.
pub open spec fn shared_layers(layers: Seq<Set<u32>>, a: BitPos, b: BitPos) -> nat
    decreases layers.len(),
{
    if layers.len() == 0 {
        0
    } else {
        shared_layers(layers.drop_last(), a, b) + if has_place(layers.last(), a) && has_place(
            layers.last(),
            b,
        ) {
            1nat
        } else {
            0nat
        }
    }
}

/// An entry is the number of layers that set both bits.
pub proof fn entries_count_shared_layers(layers: Seq<Set<u32>>, a: BitPos, b: BitPos)
    requires
        layers.len() <= u32::MAX,
    ensures
        entry(matrix_of(layers), a, b) == shared_layers(layers, a, b),
        shared_layers(layers, a, b) <= layers.len(),
    decreases layers.len(),
{
    if layers.len() > 0 {
        entries_count_shared_layers(layers.drop_last(), a, b);
    }
}

/// Without divergence every score is zero.
pub proof fn no_divergence_scores_zero(m: Entries, d: Divergence, b: BitPos)
    requires
        d.dom().finite(),
        forall|o: BitPos| #[trigger] d.contains_key(o) ==> d[o] == 0,
    ensures
        score(m, d, b) == 0,
{
    crate::collections::lemma_listing_exists::<(u32, u32)>(d.dom());
    let others = listing::<(u32, u32)>(d.dom());
    assert forall|o: BitPos| others.contains(o) implies #[trigger] d[o] == 0 by {
        assert(others.to_set().contains(o));
        assert(d.contains_key(o));
    }
    lemma_zero_row(m, d, b, others);
}

proof fn lemma_zero_row(m: Entries, d: Divergence, b: BitPos, others: Seq<BitPos>)
    requires
        forall|o: BitPos| others.contains(o) ==> #[trigger] d[o] == 0,
    ensures
        row_sum(m, d, b, others) == 0,
    decreases others.len(),
{
    if others.len() > 0 {
        let front = others.drop_last();
        assert forall|o: BitPos| front.contains(o) implies #[trigger] d[o] == 0 by {
            let i = choose|i: int| 0 <= i < front.len() && front[i] == o;
            assert(others[i] == o);
        }
        lemma_zero_row(m, d, b, front);
        assert(others[others.len() - 1] == others.last());
        assert(others.contains(others.last()));
        assert(entry(m, b, others.last()) * 0 == 0);
    }
}

proof fn lemma_row_elsewhere(
    m: Entries,
    d: Divergence,
    b: BitPos,
    o: BitPos,
    v: i8,
    others: Seq<BitPos>,
)
    requires
        !others.contains(o),
    ensures
        row_sum(m, d.insert(o, v), b, others) == row_sum(m, d, b, others),
    decreases others.len(),
{
    if others.len() > 0 {
        let front = others.drop_last();
        assert(others[others.len() - 1] == others.last());
        assert(!front.contains(o)) by {
            if front.contains(o) {
                let i = choose|i: int| 0 <= i < front.len() && front[i] == o;
                assert(others[i] == o);
            }
        }
        lemma_row_elsewhere(m, d, b, o, v, front);
    }
}

/// Scores add up over the divergence: one more diverging bit adds its
/// divergence times the number of layers that it shares with the scored bit.
pub proof fn scores_add_up(m: Entries, d: Divergence, b: BitPos, o: BitPos, v: i8)
    requires
        d.dom().finite(),
        forall|x: BitPos| #[trigger] d.contains_key(x) ==> x.0 < o.0 || (x.0 == o.0 && x.1 < o.1),
    ensures
        score(m, d.insert(o, v), b) == score(m, d, b) + entry(m, b, o) * v,
{
    let all = listing::<(u32, u32)>(d.dom());
    crate::collections::lemma_listing_push::<(u32, u32)>(d.dom(), o);
    crate::collections::lemma_listing_exists::<(u32, u32)>(d.dom());
    let more = d.insert(o, v);
    assert(more.dom() =~= d.dom().insert(o));
    assert(!all.contains(o)) by {
        if all.contains(o) {
            assert(all.to_set().contains(o));
            assert(d.contains_key(o));
        }
    }
    lemma_row_elsewhere(m, d, b, o, v, all);
    assert(all.push(o).drop_last() =~= all);
}

/// The bits that most layers set come first, and every bit that some layer
/// sets is ranked.
pub proof fn persistent_bits_come_first(m: Entries)
    requires
        m.dom().finite(),
    ensures
        forall|p: (u64, BitPos)| #[trigger]
            ranking::<(u32, u32)>(diagonals(m)).contains(p) <==> m.contains_key((p.1, p.1)) && p.0
                == m[(p.1, p.1)],
        forall|i: int, j: int|
            0 <= i < j < ranking::<(u32, u32)>(diagonals(m)).len() ==> {
                let a = #[trigger] ranking::<(u32, u32)>(diagonals(m))[i];
                let b = #[trigger] ranking::<(u32, u32)>(diagonals(m))[j];
                a.0 > b.0 || (a.0 == b.0 && no_later(a.1, b.1))
            },
{
    let f = |k: (BitPos, BitPos)| k.0;
    m.dom().lemma_map_finite(f);
    assert forall|b: BitPos| diagonals(m).dom().contains(b) implies m.dom().map(f).contains(b) by {
        assert(m.dom().contains((b, b)) && f((b, b)) == b);
    }
    vstd::set_lib::lemma_set_subset_finite(m.dom().map(f), diagonals(m).dom());
    rankings_come_best_first::<(u32, u32)>(diagonals(m));
}

/// The partners of a bit are the other bits that some layer sets with it, with
/// the number of layers that set both; two bits are each other's partners.
pub proof fn partners_share_layers(layers: Seq<Set<u32>>, b: BitPos, o: BitPos)
    requires
        layers.len() <= u32::MAX,
    ensures
        partners(matrix_of(layers), b).contains_key(o) ==> o != b && partners(
            matrix_of(layers),
            b,
        )[o] == shared_layers(layers, b, o),
        o != b && shared_layers(layers, b, o) > 0 ==> partners(matrix_of(layers), b).contains_key(
            o,
        ),
        partners(matrix_of(layers), b).contains_key(o) == partners(
            matrix_of(layers),
            o,
        ).contains_key(b),
{
    entries_count_shared_layers(layers, b, o);
}

proof fn lemma_matrix_keys(layers: Seq<Set<u32>>, k: (BitPos, BitPos))
    ensures
        matrix_of(layers).contains_key(k) <==> exists|i: int|
            0 <= i < layers.len() && #[trigger] pairs_in(layers[i]).contains(k),
    decreases layers.len(),
{
    if layers.len() > 0 {
        let front = layers.drop_last();
        lemma_matrix_keys(front, k);
        assert(layers[layers.len() - 1] == layers.last());
        if matrix_of(front).contains_key(k) {
            let i = choose|i: int|
                0 <= i < front.len() && #[trigger] pairs_in(front[i]).contains(k);
            assert(pairs_in(layers[i]).contains(k));
        }
        if exists|i: int| 0 <= i < layers.len() && #[trigger] pairs_in(layers[i]).contains(k) {
            let i = choose|i: int|
                0 <= i < layers.len() && #[trigger] pairs_in(layers[i]).contains(k);
            if i < front.len() {
                assert(pairs_in(front[i]).contains(k));
            }
        }
    }
}

/// A projection scores every bit that diverges or that some layer sets, and no
/// other.
pub proof fn every_bit_in_play_is_scored(layers: Seq<Set<u32>>, d: Divergence, b: BitPos)
    ensures
        sizes(matrix_of(layers), d).contains_key(b) <==> d.contains_key(b) || exists|i: int|
            0 <= i < layers.len() && has_place(#[trigger] layers[i], b),
{
    let m = matrix_of(layers);
    if exists|k: (BitPos, BitPos)| #[trigger] m.contains_key(k) && (k.0 == b || k.1 == b) {
        let k = choose|k: (BitPos, BitPos)| #[trigger]
            m.contains_key(k) && (k.0 == b || k.1 == b);
        lemma_matrix_keys(layers, k);
        let i = choose|i: int| 0 <= i < layers.len() && #[trigger] pairs_in(layers[i]).contains(k);
        assert(has_place(layers[i], b));
    }
    if exists|i: int| 0 <= i < layers.len() && has_place(#[trigger] layers[i], b) {
        let i = choose|i: int| 0 <= i < layers.len() && has_place(#[trigger] layers[i], b);
        lemma_matrix_keys(layers, (b, b));
        assert(pairs_in(layers[i]).contains((b, b)));
        assert(m.contains_key((b, b)));
    }
}

} // verus!
