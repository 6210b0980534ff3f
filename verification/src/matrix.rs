//! The sparse follow matrix over bit positions.
//!
//! A cell counts how often a token with the column's bit followed a token
//! with the row's bit. A parallel index counts the same follows by token. Only
//! the bits that tokens hash to occur, so the working size is bounded by the
//! distinct tokens observed.
use vstd::prelude::*;

use crate::collections::{listing, lemma_listing, OrdSet};
use crate::hashing::bit_of;
use crate::maps::{
    count_in, lemma_sum_insert, map_sum, rank_entries, ranking, ranking_pairs,
    rankings_come_best_first, OrdMap,
};
use crate::ngrams::{split, split_ngram, token_bit_position};
use crate::order::{copy_bytes, copy_tokens, same_bytes, views};
use crate::text::{decimal, digits};

verus! {

/// Counts by bit cell.
pub type Cells = Map<(u32, u32), u64>;

/// Counts by token pair.
pub type Links = Map<(Seq<u8>, Seq<u8>), u64>;

/// Counts of follows, by bit cell and by token pair.
pub struct SparseAdjacencyMatrix {
    body: MatrixBody,
}

struct MatrixBody {
    counts: OrdMap<(u32, u32), u64>,
    token_counts: OrdMap<(Vec<u8>, Vec<u8>), u64>,
    total: u64,
}

/// One more follow in a count map.
pub open spec fn bumped<A>(m: Map<A, u64>, k: A) -> Map<A, u64> {
    m.insert(k, (count_in(m, k) + 1) as u64)
}

/// The bit cell of a follow.
pub open spec fn cell_of(prefix: Seq<u8>, suffix: Seq<u8>) -> (u32, u32) {
    (bit_of(prefix, 0), bit_of(suffix, 0))
}

/// The bit cells after recording some pairs; what does not split into two
/// tokens is ignored.
pub open spec fn cells_after(cells: Cells, pairs: Seq<Seq<u8>>) -> Cells
    decreases pairs.len(),
{
    if pairs.len() == 0 {
        cells
    } else {
        let before = cells_after(cells, pairs.drop_last());
        let p = split(pairs.last());
        if p.len() == 2 {
            bumped(before, cell_of(p[0], p[1]))
        } else {
            before
        }
    }
}

/// How many of some n-grams split into two tokens.
pub open spec fn pairs_among(grams: Seq<Seq<u8>>) -> nat
    decreases grams.len(),
{
    if grams.len() == 0 {
        0
    } else {
        pairs_among(grams.drop_last()) + if split(grams.last()).len() == 2 {
            1nat
        } else {
            0nat
        }
    }
}

/// No more n-grams are pairs than there are.
pub proof fn lemma_pairs_among(grams: Seq<Seq<u8>>)
    ensures
        pairs_among(grams) <= grams.len(),
    decreases grams.len(),
{
    if grams.len() > 0 {
        lemma_pairs_among(grams.drop_last());
    }
}

/// The token pairs after recording some pairs.
pub open spec fn links_after(links: Links, pairs: Seq<Seq<u8>>) -> Links
    decreases pairs.len(),
{
    if pairs.len() == 0 {
        links
    } else {
        let before = links_after(links, pairs.drop_last());
        let p = split(pairs.last());
        if p.len() == 2 {
            bumped(before, (p[0], p[1]))
        } else {
            before
        }
    }
}

/// The row of a bit: counts by column bit.
pub open spec fn row_of(cells: Cells, row: u32) -> Map<u32, u64> {
    Map::new(|c: u32| cells.contains_key((row, c)), |c: u32| cells[(row, c)])
}

/// The first column of a ranking whose edge is unused.
pub open spec fn first_unused(
    ranked: Seq<(u64, u32)>,
    current: u32,
    used: Set<(u32, u32)>,
) -> Option<u32>
    decreases ranked.len(),
{
    if ranked.len() == 0 {
        None
    } else if !used.contains((current, ranked[0].1)) {
        Some(ranked[0].1)
    } else {
        first_unused(ranked.drop_first(), current, used)
    }
}

/// The bits visited after `current`, at most `steps` of them: each step takes
/// the best-ranked unused edge.
pub open spec fn walk_from(cells: Cells, current: u32, used: Set<(u32, u32)>, steps: nat) -> Seq<
    u32,
>
    decreases steps,
{
    if steps == 0 {
        Seq::empty()
    } else {
        match first_unused(ranking::<u32>(row_of(cells, current)), current, used) {
            None => Seq::empty(),
            Some(next) => seq![next] + walk_from(
                cells,
                next,
                used.insert((current, next)),
                (steps - 1) as nat,
            ),
        }
    }
}

/// The greedy walk from a bit.
pub open spec fn walk(cells: Cells, start: u32, max_len: nat) -> Seq<u32> {
    if max_len == 0 {
        Seq::empty()
    } else {
        seq![start] + walk_from(cells, start, Set::empty(), (max_len - 1) as nat)
    }
}

/// The rows in use.
pub open spec fn rows(cells: Cells) -> Set<u32> {
    cells.dom().map(|k: (u32, u32)| k.0)
}

/// The columns in use.
pub open spec fn columns(cells: Cells) -> Set<u32> {
    cells.dom().map(|k: (u32, u32)| k.1)
}

/// The candidate tokens of bits.
pub type Groups = Map<u32, Seq<Seq<u8>>>;

/// The candidates of a bit, none where it has no group.
pub open spec fn group_at(groups: Groups, bit: u32) -> Seq<Seq<u8>> {
    if groups.contains_key(bit) {
        groups[bit]
    } else {
        Seq::empty()
    }
}

/// The placeholder of a bit without candidates: `bit:<n>`.
pub open spec fn placeholder(bit: u32) -> Seq<u8> {
    seq![98u8, 105, 116, 58] + digits(bit as nat)
}

/// The candidates of a bit, or its placeholder.
pub open spec fn resolved(groups: Groups, bit: u32) -> Seq<Seq<u8>> {
    if group_at(groups, bit).len() == 0 {
        seq![placeholder(bit)]
    } else {
        group_at(groups, bit)
    }
}

/// One token-resolved cell.
pub struct UnfoldedCell {
    /// Row bit.
    pub row_bit: u32,
    /// Column bit.
    pub col_bit: u32,
    /// Candidate token for the row bit.
    pub row_tokens: Vec<Vec<u8>>,
    /// Candidate token for the column bit.
    pub col_tokens: Vec<Vec<u8>>,
    /// The count of the bit cell.
    pub count: u64,
}

/// What a token-resolved cell holds.
pub struct CellView {
    pub row_bit: u32,
    pub col_bit: u32,
    pub row_tokens: Seq<Seq<u8>>,
    pub col_tokens: Seq<Seq<u8>>,
    pub count: u64,
}

/// What a token-resolved cell holds.
pub open spec fn cell_view(c: UnfoldedCell) -> CellView {
    CellView {
        row_bit: c.row_bit,
        col_bit: c.col_bit,
        row_tokens: views(c.row_tokens@),
        col_tokens: views(c.col_tokens@),
        count: c.count,
    }
}

/// What token-resolved cells hold.
pub open spec fn cell_views(s: Seq<UnfoldedCell>) -> Seq<CellView> {
    s.map_values(|c: UnfoldedCell| cell_view(c))
}

/// The cells of one row token against the column tokens.
pub open spec fn unfolded_row(
    key: (u32, u32),
    count: u64,
    row_token: Seq<u8>,
    col_tokens: Seq<Seq<u8>>,
) -> Seq<CellView> {
    col_tokens.map_values(
        |ct: Seq<u8>|
            CellView {
                row_bit: key.0,
                col_bit: key.1,
                row_tokens: seq![row_token],
                col_tokens: seq![ct],
                count,
            },
    )
}

/// The cells of row tokens against column tokens, row by row.
pub open spec fn unfolded_cell(
    key: (u32, u32),
    count: u64,
    row_tokens: Seq<Seq<u8>>,
    col_tokens: Seq<Seq<u8>>,
) -> Seq<CellView>
    decreases row_tokens.len(),
{
    if row_tokens.len() == 0 {
        Seq::empty()
    } else {
        unfolded_cell(key, count, row_tokens.drop_last(), col_tokens) + unfolded_row(
            key,
            count,
            row_tokens.last(),
            col_tokens,
        )
    }
}

/// The token-resolved cells of some bit cells, in order.
pub open spec fn unfolded(cells: Cells, groups: Groups, keys: Seq<(u32, u32)>) -> Seq<CellView>
    decreases keys.len(),
{
    if keys.len() == 0 {
        Seq::empty()
    } else {
        let k = keys.last();
        unfolded(cells, groups, keys.drop_last()) + unfolded_cell(
            k,
            cells[k],
            resolved(groups, k.0),
            resolved(groups, k.1),
        )
    }
}

/// The links that a list of triples holds, as (count, pair).
pub open spec fn link_pairs(v: Seq<(Vec<u8>, Vec<u8>, u64)>) -> Seq<(u64, (Seq<u8>, Seq<u8>))> {
    v.map_values(|t: (Vec<u8>, Vec<u8>, u64)| (t.2, (t.0@, t.1@)))
}

/// A prefix of at most `k` members.
pub open spec fn first_k<T>(s: Seq<T>, k: nat) -> Seq<T> {
    if k < s.len() {
        s.take(k as int)
    } else {
        s
    }
}

impl SparseAdjacencyMatrix {
    #[verifier::type_invariant]
    spec fn inv(self) -> bool {
        &&& self.body.counts@.dom().finite()
        &&& self.body.token_counts@.dom().finite()
        &&& map_sum(self.body.counts@) == self.body.total
        &&& map_sum(self.body.token_counts@) == self.body.total
    }

    /// Counts by bit cell.
    pub closed spec fn cells(&self) -> Cells {
        self.body.counts@
    }

    /// Counts by token pair.
    pub closed spec fn links(&self) -> Links {
        self.body.token_counts@
    }

    /// The number of follows recorded.
    pub closed spec fn follows(&self) -> nat {
        self.body.total as nat
    }

    /// The empty matrix.
    pub fn new() -> (r: Self)
        ensures
            r.cells() == Map::<(u32, u32), u64>::empty(),
            r.links() == Map::<(Seq<u8>, Seq<u8>), u64>::empty(),
            r.follows() == 0,
    {
        SparseAdjacencyMatrix {
            body: MatrixBody { counts: OrdMap::new(), token_counts: OrdMap::new(), total: 0 },
        }
    }

    /// Records one follow.
    pub fn increment_edge(&mut self, prefix: &[u8], suffix: &[u8])
        requires
            old(self).follows() < u64::MAX,
        ensures
            final(self).cells() == bumped(old(self).cells(), cell_of(prefix@, suffix@)),
            final(self).links() == bumped(old(self).links(), (prefix@, suffix@)),
            final(self).follows() == old(self).follows() + 1,
    {
        proof {
            use_type_invariant(&*self);
        }
        let mut body = MatrixBody { counts: OrdMap::new(), token_counts: OrdMap::new(), total: 0 };
        core::mem::swap(&mut body, &mut self.body);
        let MatrixBody { mut counts, mut token_counts, total } = body;
        let cell = (token_bit_position(prefix), token_bit_position(suffix));
        let n: u64 = counts.count(&cell);
        let pair = (copy_bytes(prefix), copy_bytes(suffix));
        let m: u64 = token_counts.count(&pair);
        proof {
            lemma_sum_insert(counts@, cell_of(prefix@, suffix@), 0);
            lemma_sum_insert(token_counts@, (prefix@, suffix@), 0);
            lemma_sum_insert(counts@, cell_of(prefix@, suffix@), (n + 1) as u64);
            lemma_sum_insert(token_counts@, (prefix@, suffix@), (m + 1) as u64);
        }
        counts.insert(cell, n + 1);
        token_counts.insert(pair, m + 1);
        self.body = MatrixBody { counts, token_counts, total: total + 1 };
    }

    /// Records every pair of a list; what does not split into two tokens is
    /// ignored.
    pub fn increment_2grams(&mut self, two_grams: &[Vec<u8>])
        requires
            old(self).follows() + two_grams@.len() <= u64::MAX,
        ensures
            final(self).cells() == cells_after(old(self).cells(), views(two_grams@)),
            final(self).links() == links_after(old(self).links(), views(two_grams@)),
            final(self).follows() == old(self).follows() + pairs_among(views(two_grams@)),
    {
        let ghost all = views(two_grams@);
        let mut i: usize = 0;
        while i < two_grams.len()
            invariant
                i <= two_grams@.len(),
                all == views(two_grams@),
                old(self).follows() + two_grams@.len() <= u64::MAX,
                self.cells() == cells_after(old(self).cells(), all.take(i as int)),
                self.links() == links_after(old(self).links(), all.take(i as int)),
                self.follows() == old(self).follows() + pairs_among(all.take(i as int)),
            decreases two_grams@.len() - i,
        {
            let parts = split_ngram(two_grams[i].as_slice());
            proof {
                assert(all.take(i + 1).drop_last() =~= all.take(i as int));
                assert(all.take(i + 1).last() == two_grams@[i as int]@);
                assert(views(parts@).len() == parts@.len());
                lemma_pairs_among(all.take(i as int));
                if parts@.len() == 2 {
                    assert(views(parts@)[0] == parts@[0]@);
                    assert(views(parts@)[1] == parts@[1]@);
                }
            }
            if parts.len() == 2 {
                self.increment_edge(parts[0].as_slice(), parts[1].as_slice());
            }
            i = i + 1;
        }
        proof {
            assert(all.take(i as int) =~= all);
        }
    }

    /// The count of a bit cell, zero where it is empty.
    pub fn get(&self, row: u32, col: u32) -> (r: u64)
        ensures
            r == count_in(self.cells(), (row, col)),
    {
        self.body.counts.count(&(row, col))
    }

    /// The count of a token pair, zero where it was not observed.
    pub fn get_token(&self, prefix: &[u8], suffix: &[u8]) -> (r: u64)
        ensures
            r == count_in(self.links(), (prefix@, suffix@)),
    {
        self.body.token_counts.count(&(copy_bytes(prefix), copy_bytes(suffix)))
    }

    /// The successors of a row bit, by descending count and then ascending
    /// column bit.
    pub fn successors(&self, row: u32) -> (r: Vec<(u32, u64)>)
        ensures
            ranking_pairs(r@) == ranking::<u32>(row_of(self.cells(), row)),
    {
        let n: usize = self.body.counts.len();
        let ghost keys = self.body.counts.keys();
        let ghost cells = self.cells();
        let mut line: OrdMap<u32, u64> = OrdMap::new();
        let mut i: usize = 0;
        proof {
            assert(line@ =~= row_of(cells.restrict(keys.take(0).to_set()), row));
        }
        while i < n
            invariant
                i <= n,
                n == keys.len(),
                keys == self.body.counts.keys(),
                cells == self.body.counts@,
                self.body.counts.listed(),
                line@ == row_of(cells.restrict(keys.take(i as int).to_set()), row),
            decreases n - i,
        {
            let cell = self.body.counts.key_at(i);
            proof {
                crate::collections::lemma_take_step(keys, i as int);
            }
            if cell.0 == row {
                line.insert(cell.1, *self.body.counts.val_at(i));
            }
            proof {
                assert(line@ =~= row_of(cells.restrict(keys.take(i + 1).to_set()), row));
            }
            i = i + 1;
        }
        proof {
            assert(keys.take(n as int) =~= keys);
            assert(cells.restrict(keys.to_set()) =~= cells);
        }
        rank_entries(&line)
    }

    /// The best `k` successors of a row bit.
    pub fn continuations(&self, row: u32, k: usize) -> (r: Vec<(u32, u64)>)
        ensures
            ranking_pairs(r@) == first_k(ranking::<u32>(row_of(self.cells(), row)), k as nat),
    {
        let mut v = self.successors(row);
        let ghost full = v@;
        v.truncate(k);
        proof {
            assert(ranking_pairs(v@) =~= first_k(ranking_pairs(full), k as nat));
        }
        v
    }

    /// The greedy walk from a bit: each step takes the best-ranked edge not
    /// used before, and the walk ends where none is left.
    pub fn greedy_walk(&self, start_bit: u32, max_len: usize) -> (r: Vec<u32>)
        ensures
            r@ == walk(self.cells(), start_bit, max_len as nat),
            r@.len() <= max_len,
    {
        let mut path: Vec<u32> = Vec::new();
        if max_len == 0 {
            assert(path@ =~= walk(self.cells(), start_bit, 0));
            return path;
        }
        path.push(start_bit);
        let mut used: OrdSet<(u32, u32)> = OrdSet::new();
        let mut current: u32 = start_bit;
        let mut going = true;
        proof {
            assert(path@ + walk_from(
                self.cells(),
                current,
                used@,
                (max_len - path@.len()) as nat,
            ) =~= walk(self.cells(), start_bit, max_len as nat));
        }
        while going && path.len() < max_len
            invariant
                path@.len() <= max_len,
                path@ + (if going {
                    walk_from(self.cells(), current, used@, (max_len - path@.len()) as nat)
                } else {
                    Seq::empty()
                }) == walk(self.cells(), start_bit, max_len as nat),
            decreases max_len - path@.len() + (if going {
                1int
            } else {
                0int
            }),
        {
            let succ = self.successors(current);
            let ghost ranked = ranking_pairs(succ@);
            let mut j: usize = 0;
            let mut next: Option<u32> = None;
            proof {
                assert(ranked.skip(0) =~= ranked);
            }
            while j < succ.len() && next.is_none()
                invariant
                    j <= succ@.len(),
                    ranked == ranking_pairs(succ@),
                    next is None ==> first_unused(ranked, current, used@) == first_unused(
                        ranked.skip(j as int),
                        current,
                        used@,
                    ),
                    next is Some ==> first_unused(ranked, current, used@) == next,
                decreases succ@.len() - j + (if next is None {
                    1int
                } else {
                    0int
                }),
            {
                let col: u32 = succ[j].0;
                proof {
                    assert(ranked.skip(j as int)[0] == ranked[j as int]);
                    assert(ranked.skip(j as int).drop_first() =~= ranked.skip(j + 1));
                }
                if used.contains(&(current, col)) {
                    j = j + 1;
                } else {
                    next = Some(col);
                }
            }
            let ghost before = path@;
            let ghost steps = (max_len - before.len()) as nat;
            match next {
                Some(col) => {
                    proof {
                        assert(walk_from(self.cells(), current, used@, steps) == seq![col]
                            + walk_from(
                            self.cells(),
                            col,
                            used@.insert((current, col)),
                            (steps - 1) as nat,
                        ));
                        assert(before.push(col) + walk_from(
                            self.cells(),
                            col,
                            used@.insert((current, col)),
                            (steps - 1) as nat,
                        ) =~= before + walk_from(self.cells(), current, used@, steps));
                    }
                    used.insert((current, col));
                    path.push(col);
                    current = col;
                },
                None => {
                    proof {
                        assert(ranked.skip(succ@.len() as int) =~= Seq::empty());
                    }
                    going = false;
                },
            }
        }
        proof {
            if going {
                assert(walk_from(self.cells(), current, used@, 0) =~= Seq::empty());
            }
            assert(path@ + Seq::<u32>::empty() =~= path@);
        }
        path
    }

    /// The number of bit cells in use.
    pub fn nonzero_cells(&self) -> (r: usize)
        ensures
            r == self.cells().dom().len(),
            self.cells().dom().finite(),
    {
        self.body.counts.len()
    }

    /// Every row and column bit in use.
    pub fn index_bits(&self) -> (r: OrdSet<u32>)
        ensures
            r@ == rows(self.cells()).union(columns(self.cells())),
    {
        let a = self.row_bits();
        let b = self.col_bits();
        a.union(&b)
    }

    fn row_bits(&self) -> (r: OrdSet<u32>)
        ensures
            r@ == rows(self.cells()),
    {
        let n: usize = self.body.counts.len();
        let ghost keys = self.body.counts.keys();
        let ghost f = |k: (u32, u32)| k.0;
        let mut set: OrdSet<u32> = OrdSet::new();
        let mut i: usize = 0;
        proof {
            assert(set@ =~= keys.take(0).to_set().map(f));
        }
        while i < n
            invariant
                i <= n,
                n == keys.len(),
                keys == self.body.counts.keys(),
                f == (|k: (u32, u32)| k.0),
                set@ == keys.take(i as int).to_set().map(f),
            decreases n - i,
        {
            set.insert(self.body.counts.key_at(i).0);
            proof {
                crate::collections::lemma_take_step(keys, i as int);
                lemma_map_insert(keys.take(i as int).to_set(), keys[i as int], f);
            }
            i = i + 1;
        }
        proof {
            assert(keys.take(n as int) =~= keys);
        }
        set
    }

    fn col_bits(&self) -> (r: OrdSet<u32>)
        ensures
            r@ == columns(self.cells()),
    {
        let n: usize = self.body.counts.len();
        let ghost keys = self.body.counts.keys();
        let ghost f = |k: (u32, u32)| k.1;
        let mut set: OrdSet<u32> = OrdSet::new();
        let mut i: usize = 0;
        proof {
            assert(set@ =~= keys.take(0).to_set().map(f));
        }
        while i < n
            invariant
                i <= n,
                n == keys.len(),
                keys == self.body.counts.keys(),
                f == (|k: (u32, u32)| k.1),
                set@ == keys.take(i as int).to_set().map(f),
            decreases n - i,
        {
            set.insert(self.body.counts.key_at(i).1);
            proof {
                crate::collections::lemma_take_step(keys, i as int);
                lemma_map_insert(keys.take(i as int).to_set(), keys[i as int], f);
            }
            i = i + 1;
        }
        proof {
            assert(keys.take(n as int) =~= keys);
        }
        set
    }

    /// Whether every row and column bit in use belongs to a set.
    pub fn index_is_subset_of(&self, vocab_bits: &OrdSet<u32>) -> (r: bool)
        ensures
            r == rows(self.cells()).union(columns(self.cells())).subset_of(vocab_bits@),
    {
        self.index_bits().is_subset(vocab_bits)
    }

    /// The number of distinct row bits.
    pub fn distinct_row_bits(&self) -> (r: usize)
        ensures
            r == rows(self.cells()).len(),
    {
        self.row_bits().len()
    }

    /// The number of distinct column bits.
    pub fn distinct_col_bits(&self) -> (r: usize)
        ensures
            r == columns(self.cells()).len(),
    {
        self.col_bits().len()
    }

    /// The working size: distinct rows, distinct columns, cells.
    pub fn shape(&self) -> (r: (usize, usize, usize))
        ensures
            r.0 == rows(self.cells()).len(),
            r.1 == columns(self.cells()).len(),
            r.2 == self.cells().dom().len(),
    {
        (self.distinct_row_bits(), self.distinct_col_bits(), self.nonzero_cells())
    }

    /// The sum of all counts: the number of follows recorded.
    pub fn total_follows(&self) -> (r: u64)
        ensures
            r == map_sum(self.cells()),
            r == map_sum(self.links()),
            r == self.follows(),
    {
        proof {
            use_type_invariant(self);
        }
        self.body.total
    }

    /// The best `k` token pairs, by descending count and then ascending pair.
    pub fn top_links(&self, k: usize) -> (r: Vec<(Vec<u8>, Vec<u8>, u64)>)
        ensures
            link_pairs(r@) == first_k(ranking::<(Vec<u8>, Vec<u8>)>(self.links()), k as nat),
    {
        let ranked = rank_entries(&self.body.token_counts);
        let mut out: Vec<(Vec<u8>, Vec<u8>, u64)> = Vec::new();
        let mut i: usize = 0;
        while i < ranked.len() && i < k
            invariant
                i <= ranked@.len(),
                i <= k,
                out@.len() == i,
                forall|j: int|
                    0 <= j < i ==> (out@[j].2, (out@[j].0@, (#[trigger] out@[j]).1@))
                        == ranking_pairs(ranked@)[j],
            decreases ranked@.len() - i,
        {
            let pair = &ranked[i].0;
            let count: u64 = ranked[i].1;
            out.push((copy_bytes(pair.0.as_slice()), copy_bytes(pair.1.as_slice()), count));
            i = i + 1;
        }
        proof {
            assert(link_pairs(out@) =~= first_k(ranking_pairs(ranked@), k as nat));
        }
        out
    }

    /// Resolves every bit cell into token cells, in ascending cell order: one
    /// cell for each pair of candidates of its row and column, all with the
    /// same count. A bit without candidates stands as its placeholder.
    pub fn unfolded_cells(&self, index: &TokenIndex) -> (r: Vec<UnfoldedCell>)
        ensures
            cell_views(r@) == unfolded(
                self.cells(),
                index@,
                listing::<(u32, u32)>(self.cells().dom()),
            ),
    {
        let n: usize = self.body.counts.len();
        let ghost keys = self.body.counts.keys();
        let mut out: Vec<UnfoldedCell> = Vec::new();
        let mut i: usize = 0;
        proof {
            lemma_listing::<(u32, u32)>(keys, self.cells().dom());
            assert(cell_views(out@) =~= unfolded(self.cells(), index@, keys.take(0)));
        }
        while i < n
            invariant
                i <= n,
                n == keys.len(),
                keys == self.body.counts.keys(),
                self.body.counts.listed(),
                cell_views(out@) == unfolded(self.cells(), index@, keys.take(i as int)),
            decreases n - i,
        {
            let key = self.body.counts.key_at(i);
            let row: u32 = key.0;
            let col: u32 = key.1;
            let count: u64 = *self.body.counts.val_at(i);
            let row_tokens = resolve_group(index, row);
            let col_tokens = resolve_group(index, col);
            let ghost rts = views(row_tokens@);
            let ghost cts = views(col_tokens@);
            let ghost base = cell_views(out@);
            let ghost k = keys[i as int];
            proof {
                assert(keys.take(i + 1).drop_last() =~= keys.take(i as int));
                assert(keys.take(i + 1).last() == k);
                assert(base + unfolded_cell(k, count, rts.take(0), cts) =~= base);
            }
            let mut a: usize = 0;
            while a < row_tokens.len()
                invariant
                    a <= row_tokens@.len(),
                    rts == views(row_tokens@),
                    cts == views(col_tokens@),
                    k == (row, col),
                    cell_views(out@) == base + unfolded_cell(k, count, rts.take(a as int), cts),
                decreases row_tokens@.len() - a,
            {
                let ghost line = cell_views(out@);
                let mut b: usize = 0;
                proof {
                    assert(line + unfolded_row(k, count, rts[a as int], cts).take(0) =~= line);
                }
                while b < col_tokens.len()
                    invariant
                        b <= col_tokens@.len(),
                        a < row_tokens@.len(),
                        rts == views(row_tokens@),
                        cts == views(col_tokens@),
                        k == (row, col),
                        cell_views(out@) == line + unfolded_row(
                            k,
                            count,
                            rts[a as int],
                            cts,
                        ).take(b as int),
                    decreases col_tokens@.len() - b,
                {
                    let mut rt: Vec<Vec<u8>> = Vec::new();
                    rt.push(copy_bytes(row_tokens[a].as_slice()));
                    let mut ct: Vec<Vec<u8>> = Vec::new();
                    ct.push(copy_bytes(col_tokens[b].as_slice()));
                    let cell = UnfoldedCell {
                        row_bit: row,
                        col_bit: col,
                        row_tokens: rt,
                        col_tokens: ct,
                        count,
                    };
                    let ghost before = out@;
                    proof {
                        let r = unfolded_row(k, count, rts[a as int], cts);
                        assert(views(cell.row_tokens@) =~= seq![rts[a as int]]);
                        assert(views(cell.col_tokens@) =~= seq![cts[b as int]]);
                        assert(cell_view(cell) == r[b as int]);
                        assert(r.take(b + 1) =~= r.take(b as int).push(r[b as int]));
                        assert(cell_views(before.push(cell)) =~= cell_views(before).push(
                            cell_view(cell),
                        ));
                    }
                    out.push(cell);
                    b = b + 1;
                }
                proof {
                    let r = unfolded_row(k, count, rts[a as int], cts);
                    assert(r.take(b as int) =~= r);
                    assert(rts.take(a + 1).drop_last() =~= rts.take(a as int));
                    assert(rts.take(a + 1).last() == rts[a as int]);
                    assert(base + unfolded_cell(k, count, rts.take(a as int), cts) + r =~= base
                        + unfolded_cell(k, count, rts.take(a + 1), cts));
                }
                a = a + 1;
            }
            proof {
                assert(rts.take(a as int) =~= rts);
            }
            i = i + 1;
        }
        proof {
            assert(keys.take(n as int) =~= keys);
        }
        out
    }

    /// Whether no follow was recorded.
    pub fn is_empty(&self) -> (r: bool)
        ensures
            r == (self.cells() == Map::<(u32, u32), u64>::empty()),
    {
        self.body.counts.is_empty()
    }
}

/// The image of one more member.
pub proof fn lemma_map_insert<A, B>(s: Set<A>, a: A, f: spec_fn(A) -> B)
    ensures
        s.insert(a).map(f) == s.map(f).insert(f(a)),
{
    let x = s.insert(a).map(f);
    let y = s.map(f).insert(f(a));
    assert forall|b: B| x.contains(b) == y.contains(b) by {
        if x.contains(b) {
            let c = choose|c: A| s.insert(a).contains(c) && b == f(c);
            if c != a {
                assert(s.contains(c) && b == f(c));
            }
        }
        if s.map(f).contains(b) {
            let c = choose|c: A| s.contains(c) && b == f(c);
            assert(s.insert(a).contains(c) && b == f(c));
        }
        if b == f(a) {
            assert(s.insert(a).contains(a) && b == f(a));
        }
    }
    assert(x =~= y);
}

/// A reverse index: bit to candidate tokens, in order of insertion.
pub struct TokenIndex {
    groups: OrdMap<u32, Vec<Vec<u8>>>,
}

/// The groups after registering a token at a bit, unless it is there already.
pub open spec fn registered(groups: Groups, bit: u32, token: Seq<u8>) -> Groups {
    if group_at(groups, bit).contains(token) {
        groups
    } else {
        groups.insert(bit, group_at(groups, bit).push(token))
    }
}

/// The groups after registering tokens at their bits.
pub open spec fn indexed(groups: Groups, tokens: Seq<Seq<u8>>) -> Groups
    decreases tokens.len(),
{
    if tokens.len() == 0 {
        groups
    } else {
        registered(
            indexed(groups, tokens.drop_last()),
            bit_of(tokens.last(), 0),
            tokens.last(),
        )
    }
}

impl View for TokenIndex {
    type V = Groups;

    closed spec fn view(&self) -> Groups {
        self.groups@.map_values(|g: Vec<Vec<u8>>| views(g@))
    }
}

impl TokenIndex {
    /// The empty index.
    pub fn new() -> (r: Self)
        ensures
            r@ == Map::<u32, Seq<Seq<u8>>>::empty(),
    {
        let r = TokenIndex { groups: OrdMap::new() };
        assert(r@ =~= Map::empty());
        r
    }

    /// The index of a vocabulary.
    pub fn from_vocabulary(tokens: &[Vec<u8>]) -> (r: Self)
        ensures
            r@ == indexed(Map::empty(), views(tokens@)),
    {
        let mut idx = TokenIndex::new();
        let ghost all = views(tokens@);
        let mut i: usize = 0;
        proof {
            assert(all.take(0) =~= Seq::empty());
        }
        while i < tokens.len()
            invariant
                i <= tokens@.len(),
                all == views(tokens@),
                idx@ == indexed(Map::empty(), all.take(i as int)),
            decreases tokens@.len() - i,
        {
            idx.insert(tokens[i].as_slice());
            proof {
                assert(all.take(i + 1).drop_last() =~= all.take(i as int));
                assert(all.take(i + 1).last() == tokens@[i as int]@);
            }
            i = i + 1;
        }
        proof {
            assert(all.take(i as int) =~= all);
        }
        idx
    }

    /// Registers a token at its own bit, once.
    pub fn insert(&mut self, token: &[u8])
        ensures
            final(self)@ == registered(old(self)@, bit_of(token@, 0), token@),
    {
        self.insert_at(token_bit_position(token), token);
    }

    /// Registers a token at a bit, once.
    pub fn insert_at(&mut self, bit: u32, token: &[u8])
        ensures
            final(self)@ == registered(old(self)@, bit, token@),
    {
        let mut group: Vec<Vec<u8>> = match self.groups.remove(&bit) {
            Some(g) => g,
            None => Vec::new(),
        };
        let ghost g0 = views(group@);
        proof {
            assert(g0 =~= group_at(old(self)@, bit));
        }
        let found = holds_token(group.as_slice(), token);
        let ghost before = group@;
        if !found {
            group.push(copy_bytes(token));
            proof {
                assert(views(group@) =~= g0.push(token@));
            }
        }
        if group.len() > 0 {
            self.groups.insert(bit, group);
        }
        proof {
            if found {
                assert(self@ =~= old(self)@);
            } else {
                assert(self@ =~= old(self)@.insert(bit, g0.push(token@)));
            }
        }
    }

    /// The candidates of a bit, none where it is unknown.
    pub fn get(&self, bit: u32) -> (r: Vec<Vec<u8>>)
        ensures
            views(r@) == group_at(self@, bit),
    {
        match self.groups.get(&bit) {
            Some(g) => copy_tokens(g.as_slice()),
            None => {
                let r: Vec<Vec<u8>> = Vec::new();
                assert(views(r@) =~= Seq::empty());
                r
            },
        }
    }

    /// The number of occupied bits.
    pub fn len(&self) -> (r: usize)
        ensures
            r == self@.dom().len(),
            self@.dom().finite(),
    {
        let n: usize = self.groups.len();
        assert(self@.dom() =~= self.groups@.dom());
        n
    }

    /// Whether no bit is occupied.
    pub fn is_empty(&self) -> (r: bool)
        ensures
            r == (self@ == Map::<u32, Seq<Seq<u8>>>::empty()),
    {
        let r = self.groups.is_empty();
        proof {
            if r {
                assert(self@ =~= Map::empty());
            } else {
                assert(self.groups@.dom() =~= self@.dom());
                if self@ == Map::<u32, Seq<Seq<u8>>>::empty() {
                    assert(self.groups@ =~= Map::empty());
                }
            }
        }
        r
    }

    /// The occupied bits in ascending order, each with its group's size.
    pub fn group_sizes(&self) -> (r: Vec<(u32, usize)>)
        ensures
            r@.len() == listing::<u32>(self@.dom()).len(),
            forall|i: int|
                0 <= i < r@.len() ==> (#[trigger] r@[i]).0 == listing::<u32>(self@.dom())[i]
                    && r@[i].1 == self@[r@[i].0].len(),
    {
        let n: usize = self.groups.len();
        let mut r: Vec<(u32, usize)> = Vec::new();
        let mut i: usize = 0;
        proof {
            assert(self@.dom() =~= self.groups@.dom());
            lemma_listing::<u32>(self.groups.keys(), self@.dom());
        }
        while i < n
            invariant
                i <= n,
                n == self.groups.keys().len(),
                self.groups.listed(),
                self.groups.keys() == listing::<u32>(self@.dom()),
                r@.len() == i,
                forall|j: int|
                    0 <= j < i ==> (#[trigger] r@[j]).0 == listing::<u32>(self@.dom())[j]
                        && r@[j].1 == self@[r@[j].0].len(),
            decreases n - i,
        {
            r.push((*self.groups.key_at(i), self.groups.val_at(i).len()));
            i = i + 1;
        }
        r
    }

    /// The size of the largest group, zero where there is none.
    pub fn max_group_size(&self) -> (r: usize)
        ensures
            forall|b: u32| self@.contains_key(b) ==> (#[trigger] self@[b]).len() <= r,
            r == 0 || exists|b: u32| self@.contains_key(b) && (#[trigger] self@[b]).len() == r,
    {
        let n: usize = self.groups.len();
        let mut best: usize = 0;
        let mut i: usize = 0;
        while i < n
            invariant
                i <= n,
                n == self.groups.keys().len(),
                self.groups.listed(),
                forall|j: int|
                    0 <= j < i ==> self@[#[trigger] self.groups.keys()[j]].len() <= best,
                best == 0 || exists|b: u32|
                    self@.contains_key(b) && (#[trigger] self@[b]).len() == best,
            decreases n - i,
        {
            let size: usize = self.groups.val_at(i).len();
            proof {
                let b = self.groups.keys()[i as int];
                assert(self@.contains_key(b) && self@[b].len() == size);
            }
            if size > best {
                best = size;
            }
            i = i + 1;
        }
        proof {
            assert forall|b: u32| self@.contains_key(b) implies (#[trigger] self@[b]).len()
                <= best by {
                assert(self.groups@.contains_key(b));
                assert(self.groups.keys().to_set().contains(b));
                let j = choose|j: int|
                    0 <= j < self.groups.keys().len() && self.groups.keys()[j] == b;
                assert(self@[self.groups.keys()[j]].len() <= best);
            }
        }
        best
    }
}

/// Whether a token is among some tokens.
pub fn holds_token(tokens: &[Vec<u8>], token: &[u8]) -> (r: bool)
    ensures
        r == views(tokens@).contains(token@),
{
    let mut i: usize = 0;
    while i < tokens.len()
        invariant
            i <= tokens@.len(),
            forall|j: int| 0 <= j < i ==> (#[trigger] tokens@[j])@ != token@,
        decreases tokens@.len() - i,
    {
        if same_bytes(tokens[i].as_slice(), token) {
            proof {
                assert(views(tokens@)[i as int] == token@);
            }
            return true;
        }
        i = i + 1;
    }
    proof {
        if views(tokens@).contains(token@) {
            let j = choose|j: int| 0 <= j < views(tokens@).len() && views(tokens@)[j] == token@;
            assert(tokens@[j]@ == token@);
        }
    }
    false
}

/// The candidates of a bit, or its placeholder.
pub fn resolve_group(index: &TokenIndex, bit: u32) -> (r: Vec<Vec<u8>>)
    ensures
        views(r@) == resolved(index@, bit),
{
    let group = index.get(bit);
    if group.len() == 0 {
        let mut name: Vec<u8> = Vec::new();
        name.push(98);
        name.push(105);
        name.push(116);
        name.push(58);
        let mut d = decimal(bit as u64);
        name.append(&mut d);
        let ghost nv = name@;
        let mut r: Vec<Vec<u8>> = Vec::new();
        r.push(name);
        proof {
            assert(views(group@).len() == 0);
            assert(nv =~= placeholder(bit));
            assert(views(r@) =~= seq![placeholder(bit)]);
        }
        r
    } else {
        proof {
            assert(views(group@).len() > 0);
        }
        group
    }
}

/// How many of some pairs are follows at a bit cell.
pub open spec fn follows_at(pairs: Seq<Seq<u8>>, cell: (u32, u32)) -> nat
    decreases pairs.len(),
{
    if pairs.len() == 0 {
        0
    } else {
        let p = split(pairs.last());
        follows_at(pairs.drop_last(), cell) + if p.len() == 2 && cell_of(p[0], p[1]) == cell {
            1nat
        } else {
            0nat
        }
    }
}

/// How many of some pairs are follows of one token by another.
pub open spec fn follows_of(pairs: Seq<Seq<u8>>, link: (Seq<u8>, Seq<u8>)) -> nat
    decreases pairs.len(),
{
    if pairs.len() == 0 {
        0
    } else {
        let p = split(pairs.last());
        follows_of(pairs.drop_last(), link) + if p.len() == 2 && (p[0], p[1]) == link {
            1nat
        } else {
            0nat
        }
    }
}

/// Recording pairs adds to each cell how often the pairs fall on it, and
/// nothing else: counts never shrink.
pub proof fn recording_adds_follows(cells: Cells, pairs: Seq<Seq<u8>>, cell: (u32, u32))
    requires
        count_in(cells, cell) + pairs.len() <= u64::MAX,
    ensures
        count_in(cells_after(cells, pairs), cell) == count_in(cells, cell) + follows_at(
            pairs,
            cell,
        ),
        follows_at(pairs, cell) <= pairs.len(),
    decreases pairs.len(),
{
    if pairs.len() > 0 {
        recording_adds_follows(cells, pairs.drop_last(), cell);
    }
}

/// Recording pairs adds to each token pair how often it occurs, and nothing
/// else.
pub proof fn recording_adds_links(links: Links, pairs: Seq<Seq<u8>>, link: (Seq<u8>, Seq<u8>))
    requires
        count_in(links, link) + pairs.len() <= u64::MAX,
    ensures
        count_in(links_after(links, pairs), link) == count_in(links, link) + follows_of(
            pairs,
            link,
        ),
        follows_of(pairs, link) <= pairs.len(),
    decreases pairs.len(),
{
    if pairs.len() > 0 {
        recording_adds_links(links, pairs.drop_last(), link);
    }
}

/// A step of a walk.
pub open spec fn step_at(path: Seq<u32>, i: int) -> (u32, u32) {
    (path[i], path[i + 1])
}

proof fn lemma_first_unused(ranked: Seq<(u64, u32)>, current: u32, used: Set<(u32, u32)>)
    ensures
        first_unused(ranked, current, used) matches Some(next) ==> !used.contains((current, next)),
    decreases ranked.len(),
{
    if ranked.len() > 0 && used.contains((current, ranked[0].1)) {
        lemma_first_unused(ranked.drop_first(), current, used);
    }
}

proof fn lemma_walk_steps(cells: Cells, current: u32, used: Set<(u32, u32)>, steps: nat)
    ensures
        ({
            let path = seq![current] + walk_from(cells, current, used, steps);
            &&& forall|i: int|
                0 <= i < path.len() - 1 ==> !used.contains(#[trigger] step_at(path, i))
            &&& forall|i: int, j: int|
                0 <= i < j < path.len() - 1 ==> #[trigger] step_at(path, i) != #[trigger] step_at(
                    path,
                    j,
                )
        }),
    decreases steps,
{
    let path = seq![current] + walk_from(cells, current, used, steps);
    let ranked = ranking::<u32>(row_of(cells, current));
    if steps > 0 {
        lemma_first_unused(ranked, current, used);
        if let Some(next) = first_unused(ranked, current, used) {
            let more = used.insert((current, next));
            lemma_walk_steps(cells, next, more, (steps - 1) as nat);
            let rest = seq![next] + walk_from(cells, next, more, (steps - 1) as nat);
            assert(path =~= seq![current] + rest);
            assert(step_at(path, 0) == (current, next));
            assert forall|i: int| 0 <= i < path.len() - 1 implies !used.contains(
                #[trigger] step_at(path, i),
            ) by {
                if i > 0 {
                    assert(step_at(path, i) == step_at(rest, i - 1));
                }
            }
            assert forall|i: int, j: int| 0 <= i < j < path.len() - 1 implies #[trigger] step_at(
                path,
                i,
            ) != #[trigger] step_at(path, j) by {
                assert(step_at(path, j) == step_at(rest, j - 1));
                if i > 0 {
                    assert(step_at(path, i) == step_at(rest, i - 1));
                }
            }
        }
    }
}

/// A greedy walk never takes the same edge twice.
pub proof fn walks_never_reuse_an_edge(cells: Cells, start: u32, max_len: nat, i: int, j: int)
    requires
        0 <= i < j < walk(cells, start, max_len).len() - 1,
    ensures
        step_at(walk(cells, start, max_len), i) != step_at(walk(cells, start, max_len), j),
{
    lemma_walk_steps(cells, start, Set::empty(), (max_len - 1) as nat);
}

/// An edge that a walk has taken before a step.
pub open spec fn taken_before(path: Seq<u32>, i: int, edge: (u32, u32)) -> bool {
    exists|j: int| 0 <= j < i && #[trigger] step_at(path, j) == edge
}

proof fn lemma_first_unused_is_best(
    ranked: Seq<(u64, u32)>,
    current: u32,
    used: Set<(u32, u32)>,
    i: int,
)
    requires
        0 <= i < ranked.len(),
        !used.contains((current, ranked[i].1)),
    ensures
        first_unused(ranked, current, used) matches Some(next) && exists|j: int|
            0 <= j <= i && (#[trigger] ranked[j]).1 == next,
    decreases ranked.len(),
{
    if used.contains((current, ranked[0].1)) {
        let rest = ranked.drop_first();
        assert(rest[i - 1] == ranked[i]);
        lemma_first_unused_is_best(rest, current, used, i - 1);
        let next = first_unused(rest, current, used)->0;
        let j = choose|j: int| 0 <= j <= i - 1 && (#[trigger] rest[j]).1 == next;
        assert(ranked[j + 1] == rest[j]);
    } else {
        assert(ranked[0].1 == ranked[0].1);
    }
}

proof fn lemma_first_unused_listed(ranked: Seq<(u64, u32)>, current: u32, used: Set<(u32, u32)>)
    ensures
        first_unused(ranked, current, used) matches Some(next) ==> exists|j: int|
            0 <= j < ranked.len() && (#[trigger] ranked[j]).1 == next,
    decreases ranked.len(),
{
    if ranked.len() > 0 {
        if used.contains((current, ranked[0].1)) {
            let rest = ranked.drop_first();
            lemma_first_unused_listed(rest, current, used);
            if let Some(next) = first_unused(rest, current, used) {
                let j = choose|j: int| 0 <= j < rest.len() && (#[trigger] rest[j]).1 == next;
                assert(ranked[j + 1] == rest[j]);
            }
        } else {
            assert(ranked[0].1 == ranked[0].1);
        }
    }
}

/// One step: the best edge that is left, or none where none is left.
proof fn lemma_best_step(cells: Cells, current: u32, used: Set<(u32, u32)>)
    requires
        cells.dom().finite(),
    ensures
        match first_unused(ranking::<u32>(row_of(cells, current)), current, used) {
            None => forall|c: u32| #[trigger]
                cells.contains_key((current, c)) ==> used.contains((current, c)),
            Some(next) => {
                &&& cells.contains_key((current, next))
                &&& forall|c: u32| #[trigger]
                    cells.contains_key((current, c)) && !used.contains((current, c)) ==> cells[(
                        current,
                        c,
                    )] < cells[(current, next)] || (cells[(current, c)] == cells[(current, next)]
                        && next <= c)
            },
        },
{
    let row = row_of(cells, current);
    let ranked = ranking::<u32>(row);
    let f = |k: (u32, u32)| k.1;
    cells.dom().lemma_map_finite(f);
    assert(row.dom().subset_of(cells.dom().map(f))) by {
        assert forall|c: u32| row.dom().contains(c) implies cells.dom().map(f).contains(c) by {
            assert(cells.dom().contains((current, c)) && f((current, c)) == c);
        }
    }
    vstd::set_lib::lemma_set_subset_finite(cells.dom().map(f), row.dom());
    rankings_come_best_first::<u32>(row);
    lemma_first_unused_listed(ranked, current, used);
    let found = first_unused(ranked, current, used);
    if let Some(next) = found {
        let j = choose|j: int| 0 <= j < ranked.len() && (#[trigger] ranked[j]).1 == next;
        assert(ranked.contains(ranked[j]));
    }
    assert forall|c: u32| #[trigger]
        cells.contains_key((current, c)) && !used.contains((current, c)) implies {
        found matches Some(next) && (cells[(current, c)] < cells[(current, next)] || (cells[(
            current,
            c,
        )] == cells[(current, next)] && next <= c))
    } by {
        let p = (cells[(current, c)], c);
        assert(row.contains_key(c) && row[c] == p.0);
        assert(ranked.contains(p));
        let i = choose|i: int| 0 <= i < ranked.len() && ranked[i] == p;
        lemma_first_unused_is_best(ranked, current, used, i);
        let next = found->0;
        let j = choose|j: int| 0 <= j <= i && (#[trigger] ranked[j]).1 == next;
        assert(ranked.contains(ranked[j]));
    }
}

/// What a walk does at a step: it takes an edge that the matrix counts, and
/// none that is left counts more, or as much towards a smaller bit.
pub open spec fn takes_the_best(cells: Cells, path: Seq<u32>, i: int) -> bool {
    &&& cells.contains_key(step_at(path, i))
    &&& forall|c: u32| #[trigger]
        cells.contains_key((path[i], c)) && !taken_before(path, i, (path[i], c)) ==> cells[(
            path[i],
            c,
        )] < cells[step_at(path, i)] || (cells[(path[i], c)] == cells[step_at(path, i)] && path[i
            + 1] <= c)
}

/// A walk is stuck: every edge that leaves its last bit is taken.
pub open spec fn is_stuck(cells: Cells, path: Seq<u32>) -> bool {
    forall|c: u32| #[trigger]
        cells.contains_key((path.last(), c)) ==> taken_before(
            path,
            path.len() - 1,
            (path.last(), c),
        )
}

/// The edges taken so far are those of a path.
spec fn taken_are(path: Seq<u32>, used: Set<(u32, u32)>) -> bool {
    forall|e: (u32, u32)| #[trigger]
        used.contains(e) <==> taken_before(path, path.len() - 1, e)
}

proof fn lemma_taken_step(path: Seq<u32>, used: Set<(u32, u32)>, next: u32)
    requires
        path.len() > 0,
        taken_are(path, used),
    ensures
        taken_are(path.push(next), used.insert((path.last(), next))),
        forall|i: int, e: (u32, u32)|
            0 <= i < path.len() ==> #[trigger] taken_before(path.push(next), i, e) == taken_before(
                path,
                i,
                e,
            ),
{
    let more = path.push(next);
    let n = path.len() as int;
    assert forall|j: int| 0 <= j < n - 1 implies #[trigger] step_at(more, j) == step_at(
        path,
        j,
    ) by {}
    assert(step_at(more, n - 1) == (path.last(), next));
    assert forall|i: int, e: (u32, u32)| 0 <= i < n implies #[trigger] taken_before(more, i, e)
        == taken_before(path, i, e) by {
        if taken_before(more, i, e) {
            let j = choose|j: int| 0 <= j < i && #[trigger] step_at(more, j) == e;
            assert(step_at(path, j) == e);
        }
        if taken_before(path, i, e) {
            let j = choose|j: int| 0 <= j < i && #[trigger] step_at(path, j) == e;
            assert(step_at(more, j) == e);
        }
    }
    let now = used.insert((path.last(), next));
    assert forall|e: (u32, u32)| #[trigger] now.contains(e) <==> taken_before(more, n, e) by {
        if now.contains(e) {
            if e == (path.last(), next) {
                assert(step_at(more, n - 1) == e);
            } else {
                assert(taken_before(path, n - 1, e));
                let j = choose|j: int| 0 <= j < n - 1 && #[trigger] step_at(path, j) == e;
                assert(step_at(more, j) == e);
            }
        }
        if taken_before(more, n, e) {
            let j = choose|j: int| 0 <= j < n && #[trigger] step_at(more, j) == e;
            if j < n - 1 {
                assert(step_at(path, j) == e);
                assert(taken_before(path, n - 1, e));
                assert(used.contains(e));
            }
        }
    }
}

proof fn lemma_walk_is_greedy(
    cells: Cells,
    path: Seq<u32>,
    used: Set<(u32, u32)>,
    steps: nat,
)
    requires
        cells.dom().finite(),
        path.len() > 0,
        taken_are(path, used),
        forall|i: int| 0 <= i < path.len() - 1 ==> #[trigger] takes_the_best(cells, path, i),
    ensures
        ({
            let whole = path + walk_from(cells, path.last(), used, steps);
            &&& forall|i: int|
                0 <= i < whole.len() - 1 ==> #[trigger] takes_the_best(cells, whole, i)
            &&& path.len() <= whole.len() <= path.len() + steps
            &&& whole.len() < path.len() + steps ==> is_stuck(cells, whole)
        }),
    decreases steps,
{
    let current = path.last();
    let tail = walk_from(cells, current, used, steps);
    lemma_best_step(cells, current, used);
    let found = first_unused(ranking::<u32>(row_of(cells, current)), current, used);
    if steps == 0 || found is None {
        assert(path + tail =~= path);
        if steps > 0 {
            assert forall|c: u32| #[trigger] cells.contains_key((current, c)) implies taken_before(
                path,
                path.len() - 1,
                (current, c),
            ) by {
                assert(used.contains((current, c)));
            }
        }
    } else {
        let next = found->0;
        let more = path.push(next);
        let now = used.insert((current, next));
        let n = path.len() as int;
        lemma_taken_step(path, used, next);
        assert forall|i: int| 0 <= i < more.len() - 1 implies #[trigger] takes_the_best(
            cells,
            more,
            i,
        ) by {
            assert(more[i] == path[i]);
            if i < n - 1 {
                assert(takes_the_best(cells, path, i));
                assert(step_at(more, i) == step_at(path, i));
                assert forall|c: u32| #[trigger]
                    cells.contains_key((more[i], c)) && !taken_before(more, i, (more[i], c)) implies
                    cells[(more[i], c)] < cells[step_at(more, i)] || (cells[(more[i], c)]
                    == cells[step_at(more, i)] && more[i + 1] <= c) by {
                    assert(cells.contains_key((path[i], c)));
                    assert(taken_before(more, i, (more[i], c)) == taken_before(
                        path,
                        i,
                        (path[i], c),
                    ));
                }
            } else {
                assert(step_at(more, i) == (current, next));
                assert forall|c: u32| #[trigger]
                    cells.contains_key((more[i], c)) && !taken_before(more, i, (more[i], c)) implies
                    cells[(more[i], c)] < cells[step_at(more, i)] || (cells[(more[i], c)]
                    == cells[step_at(more, i)] && more[i + 1] <= c) by {
                    let e = (current, c);
                    assert(taken_before(more, i, e) == taken_before(path, i, e));
                    assert(!used.contains(e));
                    assert(cells.contains_key((current, c)));
                }
            }
        }
        lemma_walk_is_greedy(cells, more, now, (steps - 1) as nat);
        assert(more.last() == next);
        assert(path + tail =~= more + walk_from(cells, next, now, (steps - 1) as nat));
    }
}

/// A greedy walk starts at its start and takes at every step the best edge
/// that is left: one that the matrix counts, with the highest count of those
/// not taken yet and, of equal counts, towards the smallest bit. It ends short
/// of its longest length only where every edge that leaves its last bit is
/// taken.
pub proof fn walks_take_the_best_edge(cells: Cells, start: u32, max_len: nat)
    requires
        cells.dom().finite(),
        max_len > 0,
    ensures
        ({
            let path = walk(cells, start, max_len);
            &&& 0 < path.len() <= max_len
            &&& path[0] == start
            &&& forall|i: int|
                0 <= i < path.len() - 1 ==> #[trigger] takes_the_best(cells, path, i)
            &&& path.len() < max_len ==> is_stuck(cells, path)
        }),
{
    let path = seq![start];
    assert(taken_are(path, Set::empty()));
    lemma_walk_is_greedy(cells, path, Set::empty(), (max_len - 1) as nat);
}

/// Registering tokens appends to the group of each bit the new tokens that set
/// it, once each, and changes nothing else.
pub proof fn groups_grow_by_new_tokens(
    groups: Groups,
    tokens: Seq<Seq<u8>>,
    bit: u32,
    t: Seq<u8>,
)
    ensures
        group_at(groups, bit).is_prefix_of(group_at(indexed(groups, tokens), bit)),
        group_at(indexed(groups, tokens), bit).contains(t) <==> group_at(groups, bit).contains(t)
            || (tokens.contains(t) && bit_of(t, 0) == bit),
        group_at(groups, bit).no_duplicates() ==> group_at(
            indexed(groups, tokens),
            bit,
        ).no_duplicates(),
    decreases tokens.len(),
{
    if tokens.len() > 0 {
        let front = tokens.drop_last();
        let last = tokens.last();
        groups_grow_by_new_tokens(groups, front, bit, t);
        let start = group_at(groups, bit);
        let before = group_at(indexed(groups, front), bit);
        let now = group_at(indexed(groups, tokens), bit);
        assert(tokens.contains(t) <==> front.contains(t) || t == last) by {
            if tokens.contains(t) {
                let i = choose|i: int| 0 <= i < tokens.len() && tokens[i] == t;
                if i < front.len() {
                    assert(front[i] == t);
                }
            }
            if front.contains(t) {
                let i = choose|i: int| 0 <= i < front.len() && front[i] == t;
                assert(tokens[i] == t);
            }
            assert(tokens[tokens.len() - 1] == last);
        }
        if bit_of(last, 0) == bit && !before.contains(last) {
            assert(now == before.push(last));
            assert(now[before.len() as int] == last);
            if now.contains(t) {
                let i = choose|i: int| 0 <= i < now.len() && now[i] == t;
                if i < before.len() {
                    assert(before[i] == t);
                }
            }
            if before.contains(t) {
                let i = choose|i: int| 0 <= i < before.len() && before[i] == t;
                assert(now[i] == t);
            }
            assert(start =~= now.take(start.len() as int)) by {
                assert(start =~= before.take(start.len() as int));
            }
        } else {
            assert(now == before);
        }
    }
}

/// A bit without candidates stands under its own name: `bit:` and its number.
pub proof fn unknown_bits_stand_under_their_number(groups: Groups, bit: u32)
    ensures
        resolved(groups, bit).len() > 0,
        group_at(groups, bit).len() > 0 ==> resolved(groups, bit) == group_at(groups, bit),
        group_at(groups, bit).len() == 0 ==> resolved(groups, bit).len() == 1 && crate::text::ascii(
            resolved(groups, bit)[0],
        ) == "bit:"@ + crate::text::decimal_text(bit as nat),
{
    reveal_strlit("bit:");
    assert(crate::text::ascii(placeholder(bit)) =~= "bit:"@ + crate::text::decimal_text(
        bit as nat,
    ));
}

/// The cells unfold one after the other, each into every pair of a candidate
/// of its row and one of its column, row by row, with its own bits and count.
pub proof fn cells_unfold_into_every_pair(
    cells: Cells,
    groups: Groups,
    a: Seq<(u32, u32)>,
    b: Seq<(u32, u32)>,
    k: (u32, u32),
)
    ensures
        unfolded(cells, groups, a + b) == unfolded(cells, groups, a) + unfolded(cells, groups, b),
        unfolded(cells, groups, seq![k]).len() == resolved(groups, k.0).len() * resolved(
            groups,
            k.1,
        ).len(),
        forall|i: int, j: int|
            0 <= i < resolved(groups, k.0).len() && 0 <= j < resolved(groups, k.1).len()
                ==> #[trigger] unfolded(cells, groups, seq![k])[i * resolved(groups, k.1).len()
                + j] == (CellView {
                row_bit: k.0,
                col_bit: k.1,
                row_tokens: seq![resolved(groups, k.0)[i]],
                col_tokens: seq![resolved(groups, k.1)[j]],
                count: cells[k],
            }),
    decreases b.len(),
{
    let rows = resolved(groups, k.0);
    let cols = resolved(groups, k.1);
    assert(seq![k].drop_last() =~= Seq::empty());
    assert(unfolded(cells, groups, seq![k].drop_last()) =~= Seq::empty());
    assert(seq![k].last() == k);
    assert(unfolded(cells, groups, seq![k]) =~= unfolded_cell(k, cells[k], rows, cols));
    lemma_unfolded_cell(k, cells[k], rows, cols);
    if b.len() == 0 {
        assert(a + b =~= a);
        assert(unfolded(cells, groups, a) + unfolded(cells, groups, b) =~= unfolded(
            cells,
            groups,
            a,
        ));
    } else {
        assert((a + b).drop_last() =~= a + b.drop_last());
        assert((a + b).last() == b.last());
        cells_unfold_into_every_pair(cells, groups, a, b.drop_last(), k);
        assert(unfolded(cells, groups, a + b) =~= unfolded(cells, groups, a) + unfolded(
            cells,
            groups,
            b,
        ));
    }
}

proof fn lemma_unfolded_cell(
    key: (u32, u32),
    count: u64,
    rows: Seq<Seq<u8>>,
    cols: Seq<Seq<u8>>,
)
    ensures
        unfolded_cell(key, count, rows, cols).len() == rows.len() * cols.len(),
        forall|i: int, j: int|
            0 <= i < rows.len() && 0 <= j < cols.len() ==> #[trigger] unfolded_cell(
                key,
                count,
                rows,
                cols,
            )[i * cols.len() + j] == (CellView {
                row_bit: key.0,
                col_bit: key.1,
                row_tokens: seq![rows[i]],
                col_tokens: seq![cols[j]],
                count,
            }),
    decreases rows.len(),
{
    if rows.len() > 0 {
        let front = rows.drop_last();
        let m = front.len() as int;
        let n = cols.len() as int;
        lemma_unfolded_cell(key, count, front, cols);
        let before = unfolded_cell(key, count, front, cols);
        let row = unfolded_row(key, count, rows.last(), cols);
        let all = unfolded_cell(key, count, rows, cols);
        assert(all == before + row);
        assert((m + 1) * n == m * n + n) by (nonlinear_arith);
        assert forall|i: int, j: int| 0 <= i < rows.len() && 0 <= j < n implies #[trigger] all[i * n
            + j] == (CellView {
            row_bit: key.0,
            col_bit: key.1,
            row_tokens: seq![rows[i]],
            col_tokens: seq![cols[j]],
            count,
        }) by {
            if i < m {
                assert(0 <= i * n && i * n + j < m * n) by (nonlinear_arith)
                    requires
                        0 <= i < m,
                        0 <= j < n,
                ;
                assert(all[i * n + j] == before[i * n + j]);
                assert(front[i] == rows[i]);
            } else {
                assert(i * n + j == before.len() + j);
                assert(all[i * n + j] == row[j]);
            }
        }
    } else {
        assert(rows.len() * cols.len() == 0) by (nonlinear_arith)
            requires
                rows.len() == 0,
        ;
    }
}

/// A cut keeps the first members, as many as are wanted or there are.
pub proof fn cuts_keep_the_first<T>(s: Seq<T>, k: nat)
    ensures
        first_k(s, k).is_prefix_of(s),
        first_k(s, k).len() == if k <= s.len() {
            k
        } else {
            s.len()
        },
{
    assert(first_k(s, k) =~= s.take(first_k(s, k).len() as int));
}

} // verus!
