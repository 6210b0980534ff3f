//! Reverse tables: from positions of a plane to candidate tokens.
//!
//! Several tokens may share a position. [`TokenLUT`] hashes a token once,
//! [`DenseLUT`] does the same over a fixed grid of cells, [`CatalogLUT`]
//! hashes a value once for each of its seeds.
use vstd::prelude::*;

use crate::collections::{lemma_listing, listing, vals, OrdSet};
use crate::hashing::{hash64, position, token_to_position, token_to_position_seeded};
use crate::maps::OrdMap;
use crate::matrix::holds_token;
use crate::order::{copy_bytes, copy_tokens, views};

verus! {

/// A position: register and height.
pub type Place = (u32, u32);

/// Candidate tokens by position, in order of insertion.
pub type Candidates = Map<Place, Seq<Seq<u8>>>;

/// The position of a token under a seed.
pub open spec fn place_of(token: Seq<u8>, seed: u64) -> Place {
    position(hash64(token, seed))
}

/// The candidates at a position, none where there are none.
pub open spec fn candidates_at(table: Candidates, p: Place) -> Seq<Seq<u8>> {
    if table.contains_key(p) {
        table[p]
    } else {
        Seq::empty()
    }
}

/// The candidates at several positions, position after position.
pub open spec fn gathered(table: Candidates, places: Seq<Place>) -> Seq<Seq<u8>>
    decreases places.len(),
{
    if places.len() == 0 {
        Seq::empty()
    } else {
        gathered(table, places.drop_last()) + candidates_at(table, places.last())
    }
}

/// The table with one more token at a position.
pub open spec fn placed(table: Candidates, p: Place, t: Seq<u8>) -> Candidates {
    table.insert(p, candidates_at(table, p).push(t))
}

/// The table with more tokens, each at its position.
pub open spec fn registered_all(table: Candidates, tokens: Seq<Seq<u8>>) -> Candidates
    decreases tokens.len(),
{
    if tokens.len() == 0 {
        table
    } else {
        placed(
            registered_all(table, tokens.drop_last()),
            place_of(tokens.last(), 0),
            tokens.last(),
        )
    }
}

/// A token is in the table, at its own position.
pub open spec fn is_registered(table: Candidates, t: Seq<u8>) -> bool {
    candidates_at(table, place_of(t, 0)).contains(t)
}

/// The table that groups of tokens by position stand for.
pub open spec fn table_of(m: Map<Place, Vec<Vec<u8>>>) -> Candidates {
    m.map_values(|v: Vec<Vec<u8>>| views(v@))
}

/// Adds a token at a position.
fn place(index: &mut OrdMap<(u32, u32), Vec<Vec<u8>>>, p: (u32, u32), token: Vec<u8>)
    ensures
        table_of(final(index)@) == placed(table_of(old(index)@), p, token@),
{
    let ghost before = table_of(index@);
    let mut group: Vec<Vec<u8>> = match index.remove(&p) {
        Some(g) => g,
        None => Vec::new(),
    };
    let ghost g0 = views(group@);
    let ghost t = token@;
    proof {
        assert(g0 =~= candidates_at(before, p));
    }
    group.push(token);
    proof {
        assert(views(group@) =~= g0.push(t));
    }
    index.insert(p, group);
    proof {
        assert(table_of(index@) =~= placed(before, p, t));
    }
}

/// The candidates at several positions, position after position.
fn gather(index: &OrdMap<(u32, u32), Vec<Vec<u8>>>, places: &[(u32, u32)]) -> (r: Vec<Vec<u8>>)
    ensures
        views(r@) == gathered(table_of(index@), places@),
{
    let ghost table = table_of(index@);
    let mut out: Vec<Vec<u8>> = Vec::new();
    let mut i: usize = 0;
    proof {
        assert(places@.take(0) =~= Seq::empty());
        assert(views(out@) =~= Seq::empty());
    }
    while i < places.len()
        invariant
            i <= places@.len(),
            table == table_of(index@),
            views(out@) == gathered(table, places@.take(i as int)),
        decreases places@.len() - i,
    {
        let ghost before = out@;
        proof {
            assert(places@.take(i + 1).drop_last() =~= places@.take(i as int));
            assert(places@.take(i + 1).last() == places@[i as int]);
        }
        match index.get(&places[i]) {
            Some(group) => {
                let mut more = copy_tokens(group.as_slice());
                let ghost m = more@;
                out.append(&mut more);
                proof {
                    assert(views(out@) =~= views(before) + views(m));
                }
            },
            None => {
                proof {
                    assert(views(before) + Seq::<Seq<u8>>::empty() =~= views(before));
                }
            },
        }
        i = i + 1;
    }
    proof {
        assert(places@.take(i as int) =~= places@);
    }
    out
}

/// The members of a set of positions, ascending.
fn place_list(places: &OrdSet<(u32, u32)>) -> (r: Vec<(u32, u32)>)
    ensures
        r@ == listing::<(u32, u32)>(places@),
        forall|j: int| 0 <= j < r@.len() ==> places@.contains(#[trigger] r@[j]),
{
    let r = places.to_vec();
    proof {
        assert(vals(r@) =~= r@);
        lemma_listing::<(u32, u32)>(r@, places@);
        assert forall|j: int| 0 <= j < r@.len() implies places@.contains(#[trigger] r@[j]) by {
            assert(r@.to_set().contains(r@[j]));
        }
    }
    r
}

/// A reverse table over single hashes.
pub struct TokenLUT {
    index: OrdMap<(u32, u32), Vec<Vec<u8>>>,
}

impl View for TokenLUT {
    type V = Candidates;

    closed spec fn view(&self) -> Candidates {
        table_of(self.index@)
    }
}

impl TokenLUT {
    /// A table without tokens.
    pub fn new() -> (r: Self)
        ensures
            r@ == Map::<Place, Seq<Seq<u8>>>::empty(),
    {
        let r = TokenLUT { index: OrdMap::new() };
        proof {
            assert(r@ =~= Map::empty());
        }
        r
    }

    /// Registers a token at its position.
    pub fn insert(&mut self, token: Vec<u8>)
        ensures
            final(self)@ == placed(old(self)@, place_of(token@, 0), token@),
    {
        let p = token_to_position(token.as_slice());
        place(&mut self.index, p, token);
    }

    /// Registers several tokens.
    pub fn insert_all(&mut self, tokens: &[Vec<u8>])
        ensures
            final(self)@ == registered_all(old(self)@, views(tokens@)),
    {
        let ghost all = views(tokens@);
        let mut i: usize = 0;
        proof {
            assert(all.take(0) =~= Seq::empty());
        }
        while i < tokens.len()
            invariant
                i <= tokens@.len(),
                all == views(tokens@),
                self@ == registered_all(old(self)@, all.take(i as int)),
            decreases tokens@.len() - i,
        {
            self.insert(copy_bytes(tokens[i].as_slice()));
            proof {
                assert(all.take(i + 1).drop_last() =~= all.take(i as int));
                assert(all.take(i + 1).last() == tokens@[i as int]@);
            }
            i = i + 1;
        }
        proof {
            assert(all.take(i as int) =~= all);
        }
    }

    /// The candidates at a position; `None` where no token was registered.
    pub fn get(&self, reg: u32, zeros: u32) -> (r: Option<&Vec<Vec<u8>>>)
        ensures
            r is Some <==> self@.contains_key((reg, zeros)),
            r matches Some(v) ==> views(v@) == self@[(reg, zeros)],
    {
        self.index.get(&(reg, zeros))
    }

    /// The position of a token; `None` where it was not registered.
    pub fn position_of(&self, token: &[u8]) -> (r: Option<(u32, u32)>)
        ensures
            r == if is_registered(self@, token@) {
                Some(place_of(token@, 0))
            } else {
                None::<(u32, u32)>
            },
    {
        let p = token_to_position(token);
        match self.index.get(&p) {
            Some(group) => {
                if holds_token(group.as_slice(), token) {
                    Some(p)
                } else {
                    None
                }
            },
            None => None,
        }
    }

    /// The number of positions with tokens.
    pub fn len(&self) -> (r: usize)
        ensures
            r == self@.dom().len(),
    {
        proof {
            assert(self@.dom() =~= self.index@.dom());
        }
        self.index.len()
    }

    /// Whether no token is registered.
    pub fn is_empty(&self) -> (r: bool)
        ensures
            r == (self@ == Map::<Place, Seq<Seq<u8>>>::empty()),
    {
        let r = self.index.is_empty();
        proof {
            assert(self@.dom() =~= self.index@.dom());
            if r {
                assert(self@ =~= Map::empty());
            } else if self@ == Map::<Place, Seq<Seq<u8>>>::empty() {
                assert(self.index@ =~= Map::empty());
            }
        }
        r
    }

    /// The candidates at any of some positions, by ascending position.
    pub fn collect_candidates(&self, positions: &OrdSet<(u32, u32)>) -> (r: Vec<Vec<u8>>)
        ensures
            views(r@) == gathered(self@, listing::<(u32, u32)>(positions@)),
    {
        self.at_positions(place_list(positions).as_slice())
    }

    /// The candidates at several positions, position after position.
    pub fn at_positions(&self, places: &[(u32, u32)]) -> (r: Vec<Vec<u8>>)
        ensures
            views(r@) == gathered(self@, places@),
    {
        gather(&self.index, places)
    }

    /// A table of some tokens.
    pub fn from_tokens(tokens: &[Vec<u8>]) -> (r: Self)
        ensures
            r@ == registered_all(Map::empty(), views(tokens@)),
    {
        let mut lut = TokenLUT::new();
        lut.insert_all(tokens);
        lut
    }

    /// Whether a registered token holds a zero byte.
    pub fn has_ngrams(&self) -> (r: bool)
        ensures
            r == exists|p: Place, k: int|
                self@.contains_key(p) && 0 <= k < self@[p].len() && (#[trigger] self@[p][k]).contains(
                    0u8,
                ),
    {
        let n: usize = self.index.len();
        let ghost keys = self.index.keys();
        let mut i: usize = 0;
        while i < n
            invariant
                i <= n,
                n == keys.len(),
                keys == self.index.keys(),
                forall|j: int, k: int|
                    0 <= j < i && 0 <= k < self@[keys[j]].len() ==> !(
                    #[trigger] self@[keys[j]][k]).contains(0u8),
            decreases n - i,
        {
            let group = self.index.val_at(i);
            let ghost p = keys[i as int];
            proof {
                assert(keys.to_set().contains(p));
                assert(self@.contains_key(p));
                assert(self@[p] == views(group@));
            }
            let mut k: usize = 0;
            while k < group.len()
                invariant
                    k <= group@.len(),
                    self@.contains_key(p),
                    self@[p] == views(group@),
                    forall|j: int| 0 <= j < k ==> !(#[trigger] self@[p][j]).contains(0u8),
                decreases group@.len() - k,
            {
                if holds_zero(group[k].as_slice()) {
                    proof {
                        assert(self@[p][k as int].contains(0u8));
                    }
                    return true;
                }
                k = k + 1;
            }
            i = i + 1;
        }
        proof {
            assert forall|p: Place, k: int|
                self@.contains_key(p) && 0 <= k < self@[p].len() implies !(
            #[trigger] self@[p][k]).contains(0u8) by {
                assert(self.index@.contains_key(p));
                assert(keys.to_set().contains(p));
                let j = choose|j: int| 0 <= j < keys.len() && keys[j] == p;
                assert(!self@[keys[j]][k].contains(0u8));
            }
        }
        false
    }
}

/// Whether a byte string holds a zero byte.
pub(crate) fn holds_zero(bytes: &[u8]) -> (r: bool)
    ensures
        r == bytes@.contains(0u8),
{
    let mut i: usize = 0;
    while i < bytes.len()
        invariant
            i <= bytes@.len(),
            forall|j: int| 0 <= j < i ==> bytes@[j] != 0u8,
        decreases bytes@.len() - i,
    {
        if bytes[i] == 0 {
            assert(bytes@[i as int] == 0u8);
            return true;
        }
        i = i + 1;
    }
    false
}

/// A reverse table over a fixed grid of registers and heights.
pub struct DenseLUT {
    cells: Vec<Option<Vec<Vec<u8>>>>,
}

/// A position on the grid.
pub open spec fn on_grid(p: Place) -> bool {
    p.0 < 1024 && p.1 < 32
}

/// The cell of a position.
pub open spec fn cell_of(p: Place) -> int {
    p.0 * 32 + p.1
}

/// The table that the cells stand for.
spec fn grid_table(cells: Seq<Option<Vec<Vec<u8>>>>) -> Candidates {
    Map::new(
        |p: Place| on_grid(p) && cell_of(p) < cells.len() && cells[cell_of(p)] is Some,
        |p: Place| views(cells[cell_of(p)]->0@),
    )
}

impl View for DenseLUT {
    type V = Candidates;

    closed spec fn view(&self) -> Candidates {
        grid_table(self.cells@)
    }
}

/// The occupied cells among the first `n`.
spec fn occupied_below(cells: Seq<Option<Vec<Vec<u8>>>>, n: int) -> Set<int> {
    Set::new(|i: int| 0 <= i < n && i < cells.len() && cells[i] is Some)
}

proof fn lemma_grid_size(cells: Seq<Option<Vec<Vec<u8>>>>)
    requires
        occupied_below(cells, 32768).finite(),
    ensures
        grid_table(cells).dom().len() == occupied_below(cells, 32768).len(),
        grid_table(cells).dom().finite(),
{
    let d = grid_table(cells).dom();
    let o = occupied_below(cells, 32768);
    let f = |i: int| ((i / 32) as u32, (i % 32) as u32);
    assert(o.map(f) =~= d) by {
        assert forall|p: Place| d.contains(p) implies o.map(f).contains(p) by {
            let i = cell_of(p);
            assert(o.contains(i) && f(i) == p);
        }
        assert forall|p: Place| o.map(f).contains(p) implies d.contains(p) by {
            let i = choose|i: int| o.contains(i) && f(i) == p;
            assert(cell_of(p) == i);
        }
    }
    o.lemma_map_finite(f);
    vstd::set_lib::lemma_map_size(o, d, f);
}

impl DenseLUT {
    /// The number of cells, with tokens or without.
    pub closed spec fn size(&self) -> nat {
        self.cells@.len()
    }

    /// The grid is complete: a cell for every register and height.
    #[verifier::type_invariant]
    spec fn complete(self) -> bool {
        self.cells@.len() == 1024 * 32
    }

    /// A grid of a cell for every register and height, none with a token.
    pub fn new() -> (r: Self)
        ensures
            r.size() == 1024 * 32,
            r@ == Map::<Place, Seq<Seq<u8>>>::empty(),
    {
        let mut cells: Vec<Option<Vec<Vec<u8>>>> = Vec::new();
        while cells.len() < 32768
            invariant
                cells@.len() <= 32768,
                forall|i: int| 0 <= i < cells@.len() ==> #[trigger] cells@[i] is None,
            decreases 32768 - cells@.len(),
        {
            cells.push(None);
        }
        let r = DenseLUT { cells };
        proof {
            assert(r@ =~= Map::empty());
        }
        r
    }

    /// Registers a token in the cell of its position.
    pub fn insert(&mut self, token: Vec<u8>)
        ensures
            final(self)@ == placed(old(self)@, place_of(token@, 0), token@),
            final(self).size() == old(self).size(),
    {
        proof {
            use_type_invariant(&*self);
        }
        let (reg, zeros) = token_to_position(token.as_slice());
        let c: usize = reg as usize * 32 + zeros as usize;
        let ghost p = (reg, zeros);
        let ghost before = self@;
        let ghost old_cells = self.cells@;
        let ghost t = token@;
        let mut group: Vec<Vec<u8>> = match &self.cells[c] {
            Some(g) => copy_tokens(g.as_slice()),
            None => Vec::new(),
        };
        let ghost g0 = views(group@);
        proof {
            assert(g0 =~= candidates_at(before, p));
        }
        group.push(token);
        proof {
            assert(views(group@) =~= g0.push(t));
        }
        let ghost g1 = group;
        self.cells[c] = Some(group);
        proof {
            let after = self@;
            assert(self.cells@ == old_cells.update(c as int, Some(g1)));
            assert forall|q: Place| on_grid(q) && q != p implies cell_of(q) != c by {}
            assert(after =~= placed(before, p, t));
        }
    }

    /// Registers several tokens.
    pub fn insert_all(&mut self, tokens: &[Vec<u8>])
        ensures
            final(self)@ == registered_all(old(self)@, views(tokens@)),
            final(self).size() == old(self).size(),
    {
        let ghost all = views(tokens@);
        let mut i: usize = 0;
        proof {
            assert(all.take(0) =~= Seq::empty());
        }
        while i < tokens.len()
            invariant
                i <= tokens@.len(),
                all == views(tokens@),
                self@ == registered_all(old(self)@, all.take(i as int)),
                self.size() == old(self).size(),
            decreases tokens@.len() - i,
        {
            self.insert(copy_bytes(tokens[i].as_slice()));
            proof {
                assert(all.take(i + 1).drop_last() =~= all.take(i as int));
                assert(all.take(i + 1).last() == tokens@[i as int]@);
            }
            i = i + 1;
        }
        proof {
            assert(all.take(i as int) =~= all);
        }
    }

    /// The candidates in a cell; `None` where it is empty.
    pub fn get(&self, reg: u32, zeros: u32) -> (r: Option<&Vec<Vec<u8>>>)
        requires
            reg < 1024,
            zeros < 32,
        ensures
            r is Some <==> self@.contains_key((reg, zeros)),
            r matches Some(v) ==> views(v@) == self@[(reg, zeros)],
    {
        proof {
            use_type_invariant(self);
        }
        let c: usize = reg as usize * 32 + zeros as usize;
        match &self.cells[c] {
            Some(g) => Some(g),
            None => None,
        }
    }

    /// The candidates at any of some positions, by ascending position.
    pub fn collect_candidates(&self, positions: &OrdSet<(u32, u32)>) -> (r: Vec<Vec<u8>>)
        requires
            forall|p: Place| #[trigger] positions@.contains(p) ==> on_grid(p),
        ensures
            views(r@) == gathered(self@, listing::<(u32, u32)>(positions@)),
    {
        let places = place_list(positions);
        let ghost all = places@;
        let mut out: Vec<Vec<u8>> = Vec::new();
        let mut i: usize = 0;
        proof {
            assert(all.take(0) =~= Seq::empty());
            assert(views(out@) =~= Seq::empty());
        }
        while i < places.len()
            invariant
                i <= places@.len(),
                all == places@,
                all == listing::<(u32, u32)>(positions@),
                forall|j: int| 0 <= j < all.len() ==> on_grid(#[trigger] all[j]),
                views(out@) == gathered(self@, all.take(i as int)),
            decreases places@.len() - i,
        {
            let ghost before = out@;
            proof {
                assert(all.take(i + 1).drop_last() =~= all.take(i as int));
                assert(all.take(i + 1).last() == all[i as int]);
                assert(on_grid(all[i as int]));
            }
            match self.get(places[i].0, places[i].1) {
                Some(group) => {
                    let mut more = copy_tokens(group.as_slice());
                    let ghost m = more@;
                    out.append(&mut more);
                    proof {
                        assert(views(out@) =~= views(before) + views(m));
                    }
                },
                None => {
                    proof {
                        assert(views(before) + Seq::<Seq<u8>>::empty() =~= views(before));
                    }
                },
            }
            i = i + 1;
        }
        proof {
            assert(all.take(i as int) =~= all);
        }
        out
    }

    /// The number of cells with tokens.
    pub fn occupied_cells(&self) -> (r: usize)
        ensures
            r == self@.dom().len(),
    {
        let mut count: usize = 0;
        let mut i: usize = 0;
        proof {
            assert(occupied_below(self.cells@, 0) =~= Set::empty());
        }
        while i < self.cells.len() && i < 32768
            invariant
                i <= self.cells@.len(),
                i <= 32768,
                count <= i,
                occupied_below(self.cells@, i as int).finite(),
                count == occupied_below(self.cells@, i as int).len(),
            decreases self.cells@.len() - i,
        {
            let ghost o = occupied_below(self.cells@, i as int);
            proof {
                if self.cells@[i as int] is Some {
                    assert(occupied_below(self.cells@, i + 1) =~= o.insert(i as int));
                } else {
                    assert(occupied_below(self.cells@, i + 1) =~= o);
                }
            }
            if self.cells[i].is_some() {
                count = count + 1;
            }
            i = i + 1;
        }
        proof {
            assert(occupied_below(self.cells@, i as int) =~= occupied_below(self.cells@, 32768));
            lemma_grid_size(self.cells@);
        }
        count
    }

    /// Whether no cell has tokens.
    pub fn is_empty(&self) -> (r: bool)
        ensures
            r == (self@ == Map::<Place, Seq<Seq<u8>>>::empty()),
    {
        let n: usize = self.occupied_cells();
        proof {
            let d = self@.dom();
            let o = occupied_below(self.cells@, 32768);
            vstd::set_lib::lemma_int_range(0, 32768);
            assert(o.subset_of(vstd::set_lib::set_int_range(0, 32768)));
            vstd::set_lib::lemma_set_subset_finite(vstd::set_lib::set_int_range(0, 32768), o);
            lemma_grid_size(self.cells@);
            if n == 0 {
                assert(d =~= Set::empty());
                assert(self@ =~= Map::empty());
            } else if self@ == Map::<Place, Seq<Seq<u8>>>::empty() {
                assert(d =~= Set::empty());
            }
        }
        n == 0
    }

    /// A grid of some tokens.
    pub fn from_tokens(tokens: &[Vec<u8>]) -> (r: Self)
        ensures
            r.size() == 1024 * 32,
            r@ == registered_all(Map::empty(), views(tokens@)),
    {
        let mut lut = DenseLUT::new();
        lut.insert_all(tokens);
        lut
    }
}

impl Default for DenseLUT {
    fn default() -> (r: Self)
        ensures
            r.size() == 1024 * 32,
            r@ == Map::<Place, Seq<Seq<u8>>>::empty(),
    {
        DenseLUT::new()
    }
}

/// The fixed grid holds what the hashed table holds.
pub proof fn the_grid_matches_the_table(dense: DenseLUT, sparse: TokenLUT, tokens: Seq<Seq<u8>>)
    requires
        dense@ == registered_all(Map::empty(), tokens),
        sparse@ == registered_all(Map::empty(), tokens),
    ensures
        forall|places: Seq<Place>|
            gathered(dense@, places) == #[trigger] gathered(sparse@, places),
{
}

proof fn lemma_append_contains(a: Seq<Seq<u8>>, b: Seq<Seq<u8>>, t: Seq<u8>)
    ensures
        (a + b).contains(t) <==> a.contains(t) || b.contains(t),
{
    let ab = a + b;
    if ab.contains(t) {
        let i = choose|i: int| 0 <= i < ab.len() && ab[i] == t;
        if i < a.len() {
            assert(a[i] == t);
        } else {
            assert(b[i - a.len()] == t);
        }
    }
    if a.contains(t) {
        let i = choose|i: int| 0 <= i < a.len() && a[i] == t;
        assert(ab[i] == t);
    }
    if b.contains(t) {
        let i = choose|i: int| 0 <= i < b.len() && b[i] == t;
        assert(ab[a.len() + i] == t);
    }
}

/// What is gathered is what stands at one of the positions.
pub proof fn lemma_gathered(table: Candidates, places: Seq<Place>, t: Seq<u8>)
    ensures
        gathered(table, places).contains(t) <==> exists|i: int|
            0 <= i < places.len() && candidates_at(table, #[trigger] places[i]).contains(t),
    decreases places.len(),
{
    if places.len() > 0 {
        let front = places.drop_last();
        let at = candidates_at(table, places.last());
        lemma_gathered(table, front, t);
        lemma_append_contains(gathered(table, front), at, t);
        if gathered(table, front).contains(t) {
            let i = choose|i: int|
                0 <= i < front.len() && candidates_at(table, #[trigger] front[i]).contains(t);
            assert(places[i] == front[i]);
        }
        if at.contains(t) {
            assert(candidates_at(table, places[places.len() - 1]).contains(t));
        }
        if exists|i: int|
            0 <= i < places.len() && candidates_at(table, #[trigger] places[i]).contains(t) {
            let i = choose|i: int|
                0 <= i < places.len() && candidates_at(table, #[trigger] places[i]).contains(t);
            if i < front.len() {
                assert(front[i] == places[i]);
            }
        }
    }
}

/// A table of some tokens holds each of them at its own position, and
/// nothing else.
pub proof fn tables_hold_what_was_registered(tokens: Seq<Seq<u8>>, p: Place, t: Seq<u8>)
    ensures
        candidates_at(registered_all(Map::empty(), tokens), p).contains(t) <==> tokens.contains(t)
            && place_of(t, 0) == p,
    decreases tokens.len(),
{
    let table = registered_all(Map::empty(), tokens);
    if tokens.len() > 0 {
        let front = tokens.drop_last();
        let last = tokens.last();
        let before = registered_all(Map::empty(), front);
        tables_hold_what_was_registered(front, p, t);
        assert(tokens =~= front + seq![last]);
        lemma_append_contains(front, seq![last], t);
        assert(seq![last].contains(t) <==> t == last) by {
            assert(seq![last][0] == last);
        }
        let at = candidates_at(before, p);
        if p == place_of(last, 0) {
            assert(candidates_at(table, p) =~= at + seq![last]);
            lemma_append_contains(at, seq![last], t);
        } else {
            assert(candidates_at(table, p) == at);
        }
    }
}

/// Seeds that a catalog value is hashed with.
pub const CATALOG_SEEDS: [u64; 3] = [0, 1, 2];

/// How many seeds must agree for a value, with the usual seeds.
pub const MIN_CONSENSUS_SEEDS: usize = 2;

/// A reverse table over several hashes of each value.
pub struct CatalogLUT {
    body: CatalogBody,
}

struct CatalogBody {
    forward: OrdMap<Vec<u8>, Vec<(u32, u32)>>,
    reverse: OrdMap<(u32, u32), Vec<Vec<u8>>>,
    seeds: Vec<u64>,
}

/// The positions of a value, one for each seed.
pub open spec fn places_of(value: Seq<u8>, seeds: Seq<u64>) -> Seq<Place> {
    seeds.map_values(|s: u64| place_of(value, s))
}

/// The table with a value at each of some positions.
pub open spec fn placed_all(table: Candidates, places: Seq<Place>, t: Seq<u8>) -> Candidates
    decreases places.len(),
{
    if places.len() == 0 {
        table
    } else {
        placed(placed_all(table, places.drop_last(), t), places.last(), t)
    }
}

/// The contents of a catalog.
pub struct Catalog {
    /// The positions of each value.
    pub forward: Map<Seq<u8>, Seq<Place>>,
    /// The values at each position.
    pub reverse: Candidates,
    /// The seeds.
    pub seeds: Seq<u64>,
}

/// The catalog with one more value.
pub open spec fn catalog_with(c: Catalog, value: Seq<u8>) -> Catalog {
    let places = places_of(value, c.seeds);
    Catalog {
        forward: c.forward.insert(value, places),
        reverse: placed_all(c.reverse, places, value),
        seeds: c.seeds,
    }
}

/// The catalog with more values.
pub open spec fn catalog_after(c: Catalog, values: Seq<Seq<u8>>) -> Catalog
    decreases values.len(),
{
    if values.len() == 0 {
        c
    } else {
        catalog_with(catalog_after(c, values.drop_last()), values.last())
    }
}

/// The catalog without values, over some seeds.
pub open spec fn empty_catalog(seeds: Seq<u64>) -> Catalog {
    Catalog { forward: Map::empty(), reverse: Map::empty(), seeds }
}

spec fn forward_of(m: Map<Seq<u8>, Vec<(u32, u32)>>) -> Map<Seq<u8>, Seq<Place>> {
    m.map_values(|v: Vec<(u32, u32)>| v@)
}

impl View for CatalogLUT {
    type V = Catalog;

    closed spec fn view(&self) -> Catalog {
        Catalog {
            forward: forward_of(self.body.forward@),
            reverse: table_of(self.body.reverse@),
            seeds: self.body.seeds@,
        }
    }
}

impl CatalogLUT {
    #[verifier::type_invariant]
    spec fn inv(self) -> bool {
        self.body.seeds@.len() >= 2
    }

    /// A catalog without values, over the usual seeds.
    pub fn new() -> (r: Self)
        ensures
            r@ == empty_catalog(seq![0u64, 1, 2]),
    {
        let mut seeds: Vec<u64> = Vec::new();
        seeds.push(0);
        seeds.push(1);
        seeds.push(2);
        let r = CatalogLUT {
            body: CatalogBody { forward: OrdMap::new(), reverse: OrdMap::new(), seeds },
        };
        proof {
            assert(r@.forward =~= Map::empty());
            assert(r@.reverse =~= Map::empty());
            assert(r@.seeds =~= seq![0u64, 1, 2]);
        }
        r
    }

    /// The same catalog over other seeds, for values to come.
    pub fn with_seeds(self, seeds: &[u64]) -> (r: Self)
        requires
            seeds@.len() >= 2,
        ensures
            r@ == (Catalog { seeds: seeds@, ..self@ }),
    {
        let mut copy: Vec<u64> = Vec::new();
        let mut i: usize = 0;
        while i < seeds.len()
            invariant
                i <= seeds@.len(),
                copy@ == seeds@.take(i as int),
            decreases seeds@.len() - i,
        {
            copy.push(seeds[i]);
            proof {
                assert(seeds@.take(i + 1) =~= seeds@.take(i as int).push(seeds@[i as int]));
            }
            i = i + 1;
        }
        proof {
            assert(seeds@.take(i as int) =~= seeds@);
        }
        let CatalogLUT { body } = self;
        let CatalogBody { forward, reverse, seeds: _before } = body;
        CatalogLUT { body: CatalogBody { forward, reverse, seeds: copy } }
    }

    /// Registers a value at its position under every seed.
    pub fn insert(&mut self, value: Vec<u8>)
        ensures
            final(self)@ == catalog_with(old(self)@, value@),
    {
        proof {
            use_type_invariant(&*self);
        }
        let ghost before = self@;
        let ghost v = value@;
        let mut spare: Vec<u64> = Vec::new();
        spare.push(0);
        spare.push(1);
        let mut body = CatalogBody { forward: OrdMap::new(), reverse: OrdMap::new(), seeds: spare };
        core::mem::swap(&mut body, &mut self.body);
        let CatalogBody { mut forward, mut reverse, seeds } = body;
        let mut places: Vec<(u32, u32)> = Vec::new();
        let mut i: usize = 0;
        let ghost all = places_of(v, seeds@);
        proof {
            assert(all.take(0) =~= Seq::empty());
        }
        while i < seeds.len()
            invariant
                i <= seeds@.len(),
                v == value@,
                all == places_of(v, seeds@),
                places@ == all.take(i as int),
                table_of(reverse@) == placed_all(before.reverse, all.take(i as int), v),
            decreases seeds@.len() - i,
        {
            let p = token_to_position_seeded(value.as_slice(), seeds[i]);
            proof {
                assert(all.take(i + 1).drop_last() =~= all.take(i as int));
                assert(all.take(i + 1).last() == p);
                assert(all.take(i + 1) =~= all.take(i as int).push(p));
            }
            place(&mut reverse, p, copy_bytes(value.as_slice()));
            places.push(p);
            i = i + 1;
        }
        proof {
            assert(all.take(i as int) =~= all);
        }
        let ghost f0 = forward@;
        forward.insert(value, places);
        proof {
            assert(forward_of(forward@) =~= forward_of(f0).insert(v, all));
        }
        self.body = CatalogBody { forward, reverse, seeds };
    }

    /// Registers several values.
    pub fn insert_all(&mut self, values: &[Vec<u8>])
        ensures
            final(self)@ == catalog_after(old(self)@, views(values@)),
    {
        let ghost all = views(values@);
        let mut i: usize = 0;
        proof {
            assert(all.take(0) =~= Seq::empty());
        }
        while i < values.len()
            invariant
                i <= values@.len(),
                all == views(values@),
                self@ == catalog_after(old(self)@, all.take(i as int)),
            decreases values@.len() - i,
        {
            self.insert(copy_bytes(values[i].as_slice()));
            proof {
                assert(all.take(i + 1).drop_last() =~= all.take(i as int));
                assert(all.take(i + 1).last() == values@[i as int]@);
            }
            i = i + 1;
        }
        proof {
            assert(all.take(i as int) =~= all);
        }
    }

    /// The values at a position; `None` where there are none.
    pub fn get(&self, reg: u32, zeros: u32) -> (r: Option<&Vec<Vec<u8>>>)
        ensures
            r is Some <==> self@.reverse.contains_key((reg, zeros)),
            r matches Some(v) ==> views(v@) == self@.reverse[(reg, zeros)],
    {
        self.body.reverse.get(&(reg, zeros))
    }

    /// The positions of a value; `None` where it was not registered.
    pub fn positions_of(&self, value: &[u8]) -> (r: Option<&Vec<(u32, u32)>>)
        ensures
            r is Some <==> self@.forward.contains_key(value@),
            r matches Some(v) ==> v@ == self@.forward[value@],
    {
        self.body.forward.get(&copy_bytes(value))
    }

    /// The number of values.
    pub fn len(&self) -> (r: usize)
        ensures
            r == self@.forward.dom().len(),
    {
        proof {
            assert(self@.forward.dom() =~= self.body.forward@.dom());
        }
        self.body.forward.len()
    }

    /// Whether there are no values.
    pub fn is_empty(&self) -> (r: bool)
        ensures
            r == (self@.forward == Map::<Seq<u8>, Seq<Place>>::empty()),
    {
        let r = self.body.forward.is_empty();
        proof {
            assert(self@.forward.dom() =~= self.body.forward@.dom());
            if r {
                assert(self@.forward =~= Map::empty());
            } else if self@.forward == Map::<Seq<u8>, Seq<Place>>::empty() {
                assert(self.body.forward@ =~= Map::empty());
            }
        }
        r
    }

    /// The number of seeds, two at least.
    pub fn seed_count(&self) -> (r: usize)
        ensures
            r == self@.seeds.len(),
            r >= 2,
    {
        proof {
            use_type_invariant(self);
        }
        self.body.seeds.len()
    }

    /// The values at any of some positions, by ascending position.
    pub fn collect_candidates(&self, positions: &OrdSet<(u32, u32)>) -> (r: Vec<Vec<u8>>)
        ensures
            views(r@) == gathered(self@.reverse, listing::<(u32, u32)>(positions@)),
    {
        self.at_positions(place_list(positions).as_slice())
    }

    /// The values at several positions, position after position.
    pub fn at_positions(&self, places: &[(u32, u32)]) -> (r: Vec<Vec<u8>>)
        ensures
            views(r@) == gathered(self@.reverse, places@),
    {
        gather(&self.body.reverse, places)
    }

    /// A catalog of some values, over the usual seeds.
    pub fn from_values(values: &[Vec<u8>]) -> (r: Self)
        ensures
            r@ == catalog_after(empty_catalog(seq![0u64, 1, 2]), views(values@)),
    {
        let mut lut = CatalogLUT::new();
        lut.insert_all(values);
        lut
    }
}

/// A token is registered precisely where it was inserted.
pub proof fn inserted_tokens_are_registered(tokens: Seq<Seq<u8>>, t: Seq<u8>)
    ensures
        is_registered(registered_all(Map::empty(), tokens), t) <==> tokens.contains(t),
{
    tables_hold_what_was_registered(tokens, place_of(t, 0), t);
}

/// Positions are answered one after the other.
pub proof fn candidates_come_position_by_position(
    table: Candidates,
    a: Seq<Place>,
    b: Seq<Place>,
    p: Place,
)
    ensures
        gathered(table, a + b) == gathered(table, a) + gathered(table, b),
        gathered(table, seq![p]) == candidates_at(table, p),
    decreases b.len(),
{
    assert(seq![p].drop_last() =~= Seq::empty());
    assert(gathered(table, seq![p].drop_last()) =~= Seq::empty());
    assert(Seq::<Seq<u8>>::empty() + candidates_at(table, p) =~= candidates_at(table, p));
    if b.len() == 0 {
        assert(a + b =~= a);
        assert(gathered(table, a) + gathered(table, b) =~= gathered(table, a));
    } else {
        assert((a + b).drop_last() =~= a + b.drop_last());
        candidates_come_position_by_position(table, a, b.drop_last(), p);
        assert(gathered(table, a + b) =~= gathered(table, a) + gathered(table, b));
    }
}

} // verus!
