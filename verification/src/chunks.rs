//! Chunked tables: register ranges, their storage keys and their queries.
//!
//! A large table is split by register into four chunks. A query touches only
//! the chunks that its positions fall into.
use vstd::prelude::*;
use vstd::string::*;

use crate::collections::{lemma_listing, listing, OrdSet};
use crate::hashing::{bit_of, hash64, position, token_to_position};
use crate::hllset::HLLSet;
use crate::text::{decimal_string, decimal_text};

verus! {

/// Number of chunks.
pub const NUM_CHUNKS: usize = 4;

/// Registers in each chunk.
pub const REGS_PER_CHUNK: usize = 256;

/// One chunk of a named table: a range of registers.
pub struct ChunkId {
    pub name: String,
    pub reg_start: u16,
    pub reg_end: u16,
}

/// The storage key of a register range of a named table.
pub open spec fn range_key(name: Seq<char>, start: u16, end: u16) -> Seq<char> {
    "lut:"@ + name + ":"@ + decimal_text(start as nat) + "-"@ + decimal_text(end as nat)
}

impl ChunkId {
    /// The chunk that a register belongs to.
    pub fn chunk_for_reg(reg: u16) -> (r: usize)
        ensures
            r == reg as int / 256,
    {
        reg as usize / REGS_PER_CHUNK
    }

    /// The key under which the chunk is stored.
    pub fn storage_key(&self) -> (r: String)
        ensures
            r@ == range_key(self.name@, self.reg_start, self.reg_end),
    {
        let mut out = "lut:".to_owned();
        out.append(self.name.as_str());
        out.append(":");
        out.append(decimal_string(self.reg_start as u64).as_str());
        out.append("-");
        out.append(decimal_string(self.reg_end as u64).as_str());
        out
    }

    /// The chunks of a named table: consecutive ranges over all registers.
    pub fn all_for(name: &str) -> (r: Vec<Self>)
        ensures
            r@.len() == 4,
            forall|i: int|
                0 <= i < 4 ==> (#[trigger] r@[i]).name@ == name@ && r@[i].reg_start == 256 * i
                    && r@[i].reg_end == 256 * (i + 1),
    {
        let mut r: Vec<ChunkId> = Vec::new();
        let mut i: u16 = 0;
        while i < 4
            invariant
                i <= 4,
                r@.len() == i,
                forall|j: int|
                    0 <= j < i ==> (#[trigger] r@[j]).name@ == name@ && r@[j].reg_start == 256 * j
                        && r@[j].reg_end == 256 * (j + 1),
            decreases 4 - i,
        {
            r.push(
                ChunkId { name: name.to_owned(), reg_start: 256 * i, reg_end: 256 * (i + 1) },
            );
            i = i + 1;
        }
        r
    }
}

/// Every register of the plane lies in exactly the range of its chunk.
pub proof fn chunks_partition_the_registers(reg: u16, i: int)
    requires
        reg < 1024,
        0 <= i < 4,
    ensures
        0 <= reg as int / 256 < 4,
        256 * i <= reg < 256 * (i + 1) <==> i == reg as int / 256,
{
}

/// Where a token's row goes.
pub struct ChunkRow {
    /// The chunk.
    pub chunk: usize,
    /// The token's register.
    pub reg: u32,
    /// The token's height.
    pub tz: u32,
}

/// What a chunked table knows of its chunks: the plane and the number of rows
/// of each.
pub struct ChunkLedger {
    pub fps: Vec<HLLSet>,
    pub cnt: Vec<u64>,
}

impl ChunkLedger {
    /// One plane and one count for each chunk.
    pub open spec fn wf(&self) -> bool {
        self.fps@.len() == 4 && self.cnt@.len() == 4
    }

    /// Empty chunks.
    pub fn new() -> (r: Self)
        ensures
            r.wf(),
            forall|i: int|
                0 <= i < 4 ==> (#[trigger] r.fps@[i])@ == Set::<u32>::empty() && r.cnt@[i] == 0,
    {
        let mut fps: Vec<HLLSet> = Vec::new();
        let mut cnt: Vec<u64> = Vec::new();
        let mut i: usize = 0;
        while i < 4
            invariant
                i <= 4,
                fps@.len() == i,
                cnt@.len() == i,
                forall|j: int|
                    0 <= j < i ==> (#[trigger] fps@[j])@ == Set::<u32>::empty() && cnt@[j] == 0,
            decreases 4 - i,
        {
            fps.push(HLLSet::new());
            cnt.push(0);
            i = i + 1;
        }
        ChunkLedger { fps, cnt }
    }

    /// Adds a token to the plane of its chunk; tells where its row goes.
    pub fn route(&mut self, token: &[u8]) -> (r: ChunkRow)
        requires
            old(self).wf(),
        ensures
            final(self).wf(),
            (r.reg, r.tz) == position(hash64(token@, 0)),
            r.chunk == r.reg / 256,
            r.chunk < 4,
            final(self).cnt@ == old(self).cnt@,
            forall|i: int|
                0 <= i < 4 ==> (#[trigger] final(self).fps@[i])@ == if i == r.chunk {
                    old(self).fps@[i]@.insert(bit_of(token@, 0))
                } else {
                    old(self).fps@[i]@
                },
    {
        let (reg, tz) = token_to_position(token);
        proof {
            crate::hashing::lemma_bit_of(token@, 0);
        }
        let chunk: usize = ChunkId::chunk_for_reg(reg as u16);
        let mut plane = self.fps[chunk].clone();
        plane.add_token(token);
        self.fps.set(chunk, plane);
        ChunkRow { chunk, reg, tz }
    }

    /// Counts one stored row.
    pub fn record(&mut self, chunk: usize)
        requires
            old(self).wf(),
            chunk < 4,
            old(self).cnt@[chunk as int] < u64::MAX,
        ensures
            final(self).wf(),
            final(self).fps@ == old(self).fps@,
            final(self).cnt@ == old(self).cnt@.update(
                chunk as int,
                (old(self).cnt@[chunk as int] + 1) as u64,
            ),
    {
        let n: u64 = self.cnt[chunk];
        self.cnt.set(chunk, n + 1);
    }

    /// The number of rows of a chunk, zero where there is no such chunk.
    pub fn chunk_count(&self, chunk_idx: usize) -> (r: u64)
        requires
            self.wf(),
        ensures
            r == if chunk_idx < 4 {
                self.cnt@[chunk_idx as int]
            } else {
                0
            },
    {
        if chunk_idx < NUM_CHUNKS {
            self.cnt[chunk_idx]
        } else {
            0
        }
    }

    /// The chunks that hold rows, ascending, and the union of their planes:
    /// what persisting the table stores and hands back.
    pub fn to_persist(&self) -> (r: (Vec<usize>, HLLSet))
        requires
            self.wf(),
        ensures
            r.0@ == occupied(self.cnt@, 4),
            r.1@ == occupied_plane(*self, 4),
    {
        let mut ids: Vec<usize> = Vec::new();
        let mut merged = HLLSet::new();
        let mut i: usize = 0;
        while i < 4
            invariant
                i <= 4,
                self.wf(),
                ids@ == occupied(self.cnt@, i as nat),
                merged@ == occupied_plane(*self, i as nat),
            decreases 4 - i,
        {
            if self.cnt[i] > 0 {
                ids.push(i);
                merged.merge(&self.fps[i]);
            }
            i = i + 1;
        }
        (ids, merged)
    }
}

/// The chunks below `n` that hold rows.
pub open spec fn occupied(cnt: Seq<u64>, n: nat) -> Seq<usize>
    decreases n,
{
    if n == 0 {
        Seq::empty()
    } else {
        let before = occupied(cnt, (n - 1) as nat);
        if cnt[n - 1] > 0 {
            before.push((n - 1) as usize)
        } else {
            before
        }
    }
}

/// The union of the planes of the chunks below `n` that hold rows.
pub open spec fn occupied_plane(ledger: ChunkLedger, n: nat) -> Set<u32>
    decreases n,
{
    if n == 0 {
        Set::empty()
    } else {
        let before = occupied_plane(ledger, (n - 1) as nat);
        if ledger.cnt@[n - 1] > 0 {
            before.union(ledger.fps@[n - 1]@)
        } else {
            before
        }
    }
}

/// One chunk's part of a query.
pub struct ChunkQuery {
    /// The chunk to open.
    pub chunk: usize,
    /// The statement to run on it.
    pub sql: String,
}

/// The chunks that some positions fall into, of those that exist.
pub open spec fn chunks_of(pos: Seq<(u16, u8)>) -> Set<u32> {
    Set::new(
        |c: u32|
            c < 4 && exists|i: int| 0 <= i < pos.len() && c == (#[trigger] pos[i]).0 as int / 256,
    )
}

/// The positions in a chunk as SQL row values, with commas between.
pub open spec fn row_values(pos: Seq<(u16, u8)>, chunk: int) -> Seq<char>
    decreases pos.len(),
{
    if pos.len() == 0 {
        Seq::empty()
    } else {
        let before = row_values(pos.drop_last(), chunk);
        let p = pos.last();
        if p.0 as int / 256 == chunk {
            before + (if before.len() == 0 {
                Seq::empty()
            } else {
                seq![',']
            }) + "("@ + decimal_text(p.0 as nat) + ","@ + decimal_text(p.1 as nat) + ")"@
        } else {
            before
        }
    }
}

/// The statement that selects the distinct tokens at the positions in a chunk.
pub open spec fn chunk_sql(pos: Seq<(u16, u8)>, chunk: int) -> Seq<char> {
    "SELECT DISTINCT t FROM lut WHERE (r,z) IN ("@ + row_values(pos, chunk) + ")"@
}

fn row_values_text(pos: &[(u16, u8)], chunk: usize) -> (r: String)
    ensures
        r@ == row_values(pos@, chunk as int),
{
    let mut out = String::new();
    let mut first = true;
    let mut i: usize = 0;
    proof {
        assert(pos@.take(0) =~= Seq::empty());
        reveal_strlit("(");
    }
    while i < pos.len()
        invariant
            i <= pos@.len(),
            out@ == row_values(pos@.take(i as int), chunk as int),
            first == (out@.len() == 0),
            "("@.len() == 1,
        decreases pos@.len() - i,
    {
        let p = pos[i];
        proof {
            assert(pos@.take(i + 1).drop_last() =~= pos@.take(i as int));
            assert(pos@.take(i + 1).last() == p);
        }
        if ChunkId::chunk_for_reg(p.0) == chunk {
            let ghost before = out@;
            if !first {
                out.push(',');
                proof {
                    assert(out@ =~= before + seq![',']);
                }
            } else {
                proof {
                    assert(out@ =~= before + Seq::empty());
                }
            }
            out.append("(");
            out.append(decimal_string(p.0 as u64).as_str());
            out.append(",");
            out.append(decimal_string(p.1 as u64).as_str());
            out.append(")");
            first = false;
        }
        i = i + 1;
    }
    proof {
        assert(pos@.take(i as int) =~= pos@);
    }
    out
}

/// Plans a query: one statement for each chunk that the positions fall into,
/// in ascending chunk order.
pub fn plan_query(pos: &[(u16, u8)]) -> (r: Vec<ChunkQuery>)
    ensures
        r@.len() == listing::<u32>(chunks_of(pos@)).len(),
        forall|i: int|
            0 <= i < r@.len() ==> (#[trigger] r@[i]).chunk == listing::<u32>(chunks_of(pos@))[i]
                && r@[i].sql@ == chunk_sql(pos@, r@[i].chunk as int),
{
    let mut need: OrdSet<u32> = OrdSet::new();
    let mut i: usize = 0;
    proof {
        assert(need@ =~= chunks_of(pos@.take(0)));
    }
    while i < pos.len()
        invariant
            i <= pos@.len(),
            need@ == chunks_of(pos@.take(i as int)),
        decreases pos@.len() - i,
    {
        let c: usize = ChunkId::chunk_for_reg(pos[i].0);
        if c < NUM_CHUNKS {
            need.insert(c as u32);
        }
        proof {
            lemma_chunks_step(pos@, i as int);
            assert(need@ =~= chunks_of(pos@.take(i + 1)));
        }
        i = i + 1;
    }
    proof {
        assert(pos@.take(i as int) =~= pos@);
    }
    let n: usize = need.len();
    let ghost ids = need.seq();
    proof {
        lemma_listing::<u32>(ids, need@);
    }
    let mut r: Vec<ChunkQuery> = Vec::new();
    let mut k: usize = 0;
    while k < n
        invariant
            k <= n,
            n == ids.len(),
            ids == need.seq(),
            r@.len() == k,
            forall|j: int|
                0 <= j < k ==> (#[trigger] r@[j]).chunk == ids[j] && r@[j].sql@ == chunk_sql(
                    pos@,
                    r@[j].chunk as int,
                ),
        decreases n - k,
    {
        let chunk: usize = *need.at(k) as usize;
        let mut sql = "SELECT DISTINCT t FROM lut WHERE (r,z) IN (".to_owned();
        sql.append(row_values_text(pos, chunk).as_str());
        sql.append(")");
        r.push(ChunkQuery { chunk, sql });
        k = k + 1;
    }
    r
}

proof fn lemma_chunks_step(pos: Seq<(u16, u8)>, i: int)
    requires
        0 <= i < pos.len(),
    ensures
        forall|c: u32| #[trigger]
            chunks_of(pos.take(i + 1)).contains(c) == (chunks_of(pos.take(i)).contains(c) || (c < 4
                && c == pos[i].0 as int / 256)),
{
    let a = pos.take(i);
    let b = pos.take(i + 1);
    assert forall|c: u32| #[trigger]
        chunks_of(b).contains(c) == (chunks_of(a).contains(c) || (c < 4 && c == pos[i].0 as int
            / 256)) by {
        if chunks_of(b).contains(c) {
            let j = choose|j: int| 0 <= j < b.len() && c == (#[trigger] b[j]).0 as int / 256;
            if j < i {
                assert(c == a[j].0 as int / 256);
            }
        }
        if chunks_of(a).contains(c) {
            let j = choose|j: int| 0 <= j < a.len() && c == (#[trigger] a[j]).0 as int / 256;
            assert(c == b[j].0 as int / 256);
        }
        if c < 4 && c == pos[i].0 as int / 256 {
            assert(c == b[i].0 as int / 256);
        }
    }
}

/// What is persisted: the chunks that hold rows, ascending, and the union of
/// their planes; chunks without rows give nothing.
pub proof fn chunks_with_rows_are_persisted(ledger: ChunkLedger, n: nat, i: usize, bit: u32)
    requires
        n <= 4,
        ledger.wf(),
    ensures
        occupied(ledger.cnt@, n).contains(i) <==> i < n && ledger.cnt@[i as int] > 0,
        forall|a: int, b: int|
            0 <= a < b < occupied(ledger.cnt@, n).len() ==> #[trigger] occupied(ledger.cnt@, n)[a]
                < #[trigger] occupied(ledger.cnt@, n)[b],
        occupied_plane(ledger, n).contains(bit) <==> exists|c: int|
            0 <= c < n && ledger.cnt@[c] > 0 && (#[trigger] ledger.fps@[c])@.contains(bit),
    decreases n,
{
    if n > 0 {
        let m = (n - 1) as nat;
        chunks_with_rows_are_persisted(ledger, m, i, bit);
        let before = occupied(ledger.cnt@, m);
        let now = occupied(ledger.cnt@, n);
        lemma_occupied_below(ledger.cnt@, m);
        if before.contains(i) {
            let k = choose|k: int| 0 <= k < before.len() && before[k] == i;
            assert(now[k] == i);
        }
        if now.contains(i) {
            let k = choose|k: int| 0 <= k < now.len() && now[k] == i;
            if k < before.len() {
                assert(before[k] == i);
            }
        }
        if ledger.cnt@[m as int] > 0 {
            assert(now[before.len() as int] == m);
        }
    }
}

proof fn lemma_occupied_below(cnt: Seq<u64>, n: nat)
    requires
        n <= 4,
    ensures
        forall|k: int| 0 <= k < occupied(cnt, n).len() ==> #[trigger] occupied(cnt, n)[k] < n,
    decreases n,
{
    if n > 0 {
        let before = occupied(cnt, (n - 1) as nat);
        let now = occupied(cnt, n);
        lemma_occupied_below(cnt, (n - 1) as nat);
        assert forall|k: int| 0 <= k < now.len() implies #[trigger] now[k] < n by {
            if k < before.len() {
                assert(now[k] == before[k]);
            }
        }
    }
}

/// The row values of a chunk leave out the positions of other chunks, write a
/// position as its register and height in brackets, and put a comma between
/// two.
pub proof fn row_values_list_the_positions_of_the_chunk(
    a: Seq<(u16, u8)>,
    b: Seq<(u16, u8)>,
    p: (u16, u8),
    chunk: int,
)
    ensures
        row_values(a + b, chunk) == if row_values(a, chunk).len() == 0 {
            row_values(b, chunk)
        } else if row_values(b, chunk).len() == 0 {
            row_values(a, chunk)
        } else {
            row_values(a, chunk) + seq![','] + row_values(b, chunk)
        },
        row_values(seq![p], chunk) == if 256 * chunk <= p.0 < 256 * (chunk + 1) {
            "("@ + decimal_text(p.0 as nat) + ","@ + decimal_text(p.1 as nat) + ")"@
        } else {
            Seq::empty()
        },
    decreases b.len(),
{
    reveal_strlit("(");
    let none = Seq::<char>::empty();
    let one = "("@ + decimal_text(p.0 as nat) + ","@ + decimal_text(p.1 as nat) + ")"@;
    assert(seq![p].drop_last() =~= Seq::empty());
    assert(row_values(seq![p].drop_last(), chunk) =~= none);
    assert(none + none + "("@ + decimal_text(p.0 as nat) + ","@ + decimal_text(p.1 as nat) + ")"@
        =~= one);
    if b.len() == 0 {
        assert(a + b =~= a);
    } else {
        let q = b.last();
        let front = b.drop_last();
        assert((a + b).drop_last() =~= a + front);
        row_values_list_the_positions_of_the_chunk(a, front, p, chunk);
        if q.0 as int / 256 == chunk {
            let text = "("@ + decimal_text(q.0 as nat) + ","@ + decimal_text(q.1 as nat) + ")"@;
            let va = row_values(a, chunk);
            let vf = row_values(front, chunk);
            lemma_one_more_row(row_values(a + front, chunk), q);
            lemma_one_more_row(vf, q);
            assert(text.len() > 0);
            if va.len() == 0 {
            } else if vf.len() == 0 {
                assert(row_values(b, chunk) =~= text);
                assert(row_values(a + b, chunk) =~= va + seq![','] + text);
            } else {
                assert((va + seq![','] + vf) + seq![','] + text =~= va + seq![','] + (vf
                    + seq![','] + text));
            }
        }
    }
}

proof fn lemma_one_more_row(before: Seq<char>, q: (u16, u8))
    ensures
        ({
            let text = "("@ + decimal_text(q.0 as nat) + ","@ + decimal_text(q.1 as nat) + ")"@;
            before + (if before.len() == 0 {
                Seq::empty()
            } else {
                seq![',']
            }) + "("@ + decimal_text(q.0 as nat) + ","@ + decimal_text(q.1 as nat) + ")"@
                == if before.len() == 0 {
                text
            } else {
                before + seq![','] + text
            }
        }),
{
    let text = "("@ + decimal_text(q.0 as nat) + ","@ + decimal_text(q.1 as nat) + ")"@;
    if before.len() == 0 {
        assert(before + Seq::<char>::empty() + "("@ + decimal_text(q.0 as nat) + ","@
            + decimal_text(q.1 as nat) + ")"@ =~= text);
    } else {
        assert(before + seq![','] + "("@ + decimal_text(q.0 as nat) + ","@ + decimal_text(
            q.1 as nat,
        ) + ")"@ =~= before + seq![','] + text);
    }
}

/// A query goes to the chunks that hold a position, and to no other; a chunk's
/// key names its table and its range, and its statement selects the rows of
/// the positions in it.
pub proof fn queries_go_to_the_chunks_of_their_positions(
    pos: Seq<(u16, u8)>,
    c: u32,
    name: Seq<char>,
    start: u16,
    end: u16,
)
    ensures
        chunks_of(pos).contains(c) <==> exists|i: int|
            0 <= i < pos.len() && (#[trigger] pos[i]).0 < 1024 && 256 * c <= pos[i].0 < 256 * (c
                + 1),
        chunks_of(pos).contains(c) ==> c < 4,
        range_key(name, start, end) == "lut:"@ + name + ":"@ + decimal_text(start as nat) + "-"@
            + decimal_text(end as nat),
        chunk_sql(pos, c as int) == "SELECT DISTINCT t FROM lut WHERE (r,z) IN ("@ + row_values(
            pos,
            c as int,
        ) + ")"@,
{
    if chunks_of(pos).contains(c) {
        let i = choose|i: int| 0 <= i < pos.len() && c == (#[trigger] pos[i]).0 as int / 256;
        assert(pos[i].0 < 1024);
    }
    if exists|i: int|
        0 <= i < pos.len() && (#[trigger] pos[i]).0 < 1024 && 256 * c <= pos[i].0 < 256 * (c + 1) {
        let i = choose|i: int|
            0 <= i < pos.len() && (#[trigger] pos[i]).0 < 1024 && 256 * c <= pos[i].0 < 256 * (c
                + 1);
        assert(c == pos[i].0 as int / 256);
    }
}

} // verus!
