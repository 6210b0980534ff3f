//! Materialization strategies: token sequences from planes and tables.
//!
//! Planes are lossy, so what comes back are candidates. Confidence is given
//! by two counts, the resolved and all bits.
use vstd::prelude::*;
use vstd::string::*;

use crate::collections::{lemma_listing, listing, vals, OrdSet};
use crate::debruijn::{all_tokens, first_occurrences, take_fresh};
use crate::distributed::Share;
use crate::engines::{MaterializeEngine, MaterializeError};
use crate::euler::{
    distinct_walks_are_unique, euler_walk, find_euler_walk, follow_views, walkable, Follow,
};
use crate::hashing::bit_of;
use crate::hllset::{in_plane, HLLSet};
use crate::ngrams::{nul_joined, plain, split, split_ngram, split_undoes_join, SEP};
use crate::order::{copy_bytes, same_bytes, views};
use crate::roundtrip::sequence_views;
use crate::text::{bytes_of, encoded, lemma_read_back, lossy_text, texts, utf8, utf8_lossy};
use crate::tokenlut::{
    candidates_at, catalog_after, empty_catalog, gathered, holds_zero, is_registered,
    lemma_gathered, place_of, placed_all, places_of, registered_all,
    tables_hold_what_was_registered, Candidates, Catalog, CatalogLUT, Place, TokenLUT,
};

verus! {

/// What a materialization gives back.
pub struct MaterializedResult {
    /// The token sequences.
    pub candidates: Vec<Vec<Vec<u8>>>,
    /// The strategy that gave them.
    pub strategy: String,
    /// The resolved and all bits; nothing to resolve counts in full.
    pub confidence: Share,
}

impl MaterializedResult {
    /// The distinct tokens of all sequences, in order of first occurrence.
    pub fn flat_tokens(&self) -> (r: Vec<Vec<u8>>)
        ensures
            views(r@) == first_occurrences(all_tokens(sequence_views(self.candidates@))),
    {
        let ghost sv = sequence_views(self.candidates@);
        let mut seen: OrdSet<Vec<u8>> = OrdSet::new();
        let mut out: Vec<Vec<u8>> = Vec::new();
        let mut i: usize = 0;
        proof {
            assert(sv.take(0) =~= Seq::empty());
            assert(views(out@) =~= Seq::empty());
            assert(seen@ =~= all_tokens(sv.take(0)).to_set());
        }
        while i < self.candidates.len()
            invariant
                i <= self.candidates@.len(),
                sv == sequence_views(self.candidates@),
                seen@ == all_tokens(sv.take(i as int)).to_set(),
                views(out@) == first_occurrences(all_tokens(sv.take(i as int))),
            decreases self.candidates@.len() - i,
        {
            proof {
                assert(sv.take(i + 1).drop_last() =~= sv.take(i as int));
                assert(sv.take(i + 1).last() == views(self.candidates@[i as int]@));
            }
            take_fresh(
                &self.candidates[i],
                &mut seen,
                &mut out,
                Ghost(all_tokens(sv.take(i as int))),
            );
            i = i + 1;
        }
        proof {
            assert(sv.take(i as int) =~= sv);
        }
        out
    }

    /// The distinct tokens as texts, malformed bytes replaced; words come back
    /// as they are.
    pub fn flat_strings(&self) -> (r: Vec<String>)
        ensures
            texts(r@) == first_occurrences(
                all_tokens(sequence_views(self.candidates@)),
            ).map_values(|t: Seq<u8>| utf8_lossy(t)),
            forall|words: Seq<Seq<char>>|
                first_occurrences(all_tokens(sequence_views(self.candidates@)))
                    == #[trigger] encoded(words) ==> texts(r@) == words,
    {
        let flat = self.flat_tokens();
        let mut out: Vec<String> = Vec::new();
        let mut i: usize = 0;
        while i < flat.len()
            invariant
                i <= flat@.len(),
                out@.len() == i,
                forall|j: int| 0 <= j < i ==> (#[trigger] out@[j])@ == utf8_lossy(flat@[j]@),
                forall|j: int|
                    0 <= j < i && vstd::utf8::valid_utf8((#[trigger] flat@[j])@) ==> utf8_lossy(
                        flat@[j]@,
                    ) == vstd::utf8::decode_utf8(flat@[j]@),
            decreases flat@.len() - i,
        {
            out.push(lossy_text(flat[i].as_slice()));
            i = i + 1;
        }
        proof {
            let all = views(flat@);
            assert(texts(out@) =~= all.map_values(|t: Seq<u8>| utf8_lossy(t)));
            assert forall|words: Seq<Seq<char>>| all == #[trigger] encoded(words) implies texts(
                out@,
            ) == words by {
                assert forall|j: int|
                    0 <= j < all.len() && vstd::utf8::valid_utf8(#[trigger] all[j]) implies utf8_lossy(
                    all[j],
                ) == vstd::utf8::decode_utf8(all[j]) by {
                    assert(all[j] == flat@[j]@);
                }
                lemma_read_back(all, words);
                assert(texts(out@) =~= words) by {
                    assert forall|j: int| 0 <= j < words.len() implies texts(out@)[j]
                        == #[trigger] words[j] by {
                        assert(texts(out@)[j] == utf8_lossy(all[j]));
                    }
                }
            }
        }
        out
    }

    /// The number of sequences.
    pub fn sequence_count(&self) -> (r: usize)
        ensures
            r == self.candidates@.len(),
    {
        self.candidates.len()
    }
}

/// The positions of a plane, ascending.
pub open spec fn plane_places(plane: Set<u32>) -> Seq<Place> {
    listing::<u32>(plane).map_values(|b: u32| (b / 32, b % 32))
}

/// A position whose bit is set.
pub open spec fn has_place(plane: Set<u32>, p: Place) -> bool {
    p.0 < 1024 && p.1 < 32 && plane.contains((p.0 * 32 + p.1) as u32)
}

/// The result of a strategy.
pub open spec fn result_is(
    r: MaterializedResult,
    candidates: Seq<Seq<Seq<u8>>>,
    strategy: Seq<char>,
    resolved: nat,
    total: nat,
) -> bool {
    &&& sequence_views(r.candidates@) == candidates
    &&& r.strategy@ == strategy
    &&& r.confidence.part == resolved
    &&& r.confidence.whole == total
}

fn nothing(strategy: &str, resolved: u64, total: u64) -> (r: MaterializedResult)
    ensures
        result_is(r, Seq::empty(), strategy@, resolved as nat, total as nat),
{
    let r = MaterializedResult {
        candidates: Vec::new(),
        strategy: strategy.to_owned(),
        confidence: Share { part: resolved, whole: total },
    };
    proof {
        assert(sequence_views(r.candidates@) =~= Seq::empty());
    }
    r
}

fn one_sequence(tokens: Vec<Vec<u8>>, strategy: &str, resolved: u64, total: u64) -> (r:
    MaterializedResult)
    ensures
        result_is(r, seq![views(tokens@)], strategy@, resolved as nat, total as nat),
{
    let ghost t = views(tokens@);
    let mut candidates: Vec<Vec<Vec<u8>>> = Vec::new();
    candidates.push(tokens);
    let r = MaterializedResult {
        candidates,
        strategy: strategy.to_owned(),
        confidence: Share { part: resolved, whole: total },
    };
    proof {
        assert(sequence_views(r.candidates@) =~= seq![t]);
    }
    r
}

/// The set positions of a plane, ascending.
fn set_places(hllset: &HLLSet) -> (r: Vec<(u32, u32)>)
    ensures
        r@ == plane_places(hllset@),
        r@.len() == hllset@.len(),
        in_plane(hllset@),
{
    let r = hllset.active_positions();
    proof {
        lemma_listing::<u32>(hllset.seq(), hllset@);
        crate::collections::lemma_ascending_distinct::<u32>(hllset.seq());
        hllset.seq().unique_seq_to_set();
    }
    r
}

fn place_set(hllset: &HLLSet, p: (u32, u32)) -> (r: bool)
    ensures
        r == has_place(hllset@, p),
{
    p.0 < 1024 && p.1 < 32 && hllset.contains(p.0 * 32 + p.1)
}

/// What plain lookup gives: every candidate at every set position.
pub open spec fn inlut_result(r: MaterializedResult, plane: Set<u32>, table: Candidates) -> bool {
    let places = plane_places(plane);
    if plane.len() == 0 {
        result_is(r, Seq::empty(), "InLUT"@, 0, 0)
    } else {
        result_is(
            r,
            seq![gathered(table, places)],
            "InLUT"@,
            resolved_among(table, places),
            plane.len(),
        )
    }
}

/// Materializes by plain lookup.
pub fn materialize_inlut(hllset: &HLLSet, lut: &TokenLUT) -> (r: MaterializedResult)
    ensures
        inlut_result(r, hllset@, lut@),
        in_plane(hllset@),
{
    let places = set_places(hllset);
    if places.len() == 0 {
        return nothing("InLUT", 0, 0);
    }
    let total: u64 = places.len() as u64;
    let found = lut.at_positions(places.as_slice());
    let resolved: u64 = count_resolved(lut, places.as_slice());
    one_sequence(found, "InLUT", resolved, total)
}

/// A candidate passes: a single token always; an n-gram where each of its
/// tokens is not empty, registered, and its bit set.
pub open spec fn valid_gram(table: Candidates, plane: Set<u32>, t: Seq<u8>) -> bool {
    t.contains(0u8) ==> forall|i: int|
        0 <= i < split(t).len() ==> part_valid(table, plane, #[trigger] split(t)[i])
}

/// A token of an n-gram passes.
pub open spec fn part_valid(table: Candidates, plane: Set<u32>, part: Seq<u8>) -> bool {
    part.len() > 0 && is_registered(table, part) && has_place(plane, place_of(part, 0))
}

/// The candidates at several positions that pass.
pub open spec fn validated(table: Candidates, plane: Set<u32>, places: Seq<Place>) -> Seq<Seq<u8>> {
    gathered(table, places).filter(|t: Seq<u8>| valid_gram(table, plane, t))
}

/// How many positions have candidates.
pub open spec fn resolved_among(table: Candidates, places: Seq<Place>) -> nat
    decreases places.len(),
{
    if places.len() == 0 {
        0
    } else {
        resolved_among(table, places.drop_last()) + if table.contains_key(places.last()) {
            1nat
        } else {
            0nat
        }
    }
}

fn count_resolved(lut: &TokenLUT, places: &[(u32, u32)]) -> (r: u64)
    ensures
        r == resolved_among(lut@, places@),
{
    let n: usize = places.len();
    let mut count: u64 = 0;
    let mut i: usize = 0;
    proof {
        assert(places@.take(0) =~= Seq::empty());
    }
    while i < n
        invariant
            n == places@.len(),
            i <= n,
            count <= i,
            count == resolved_among(lut@, places@.take(i as int)),
        decreases n - i,
    {
        proof {
            assert(places@.take(i + 1).drop_last() =~= places@.take(i as int));
            assert(places@.take(i + 1).last() == places@[i as int]);
        }
        if lut.get(places[i].0, places[i].1).is_some() {
            count = count + 1;
        }
        i = i + 1;
    }
    proof {
        assert(places@.take(i as int) =~= places@);
    }
    count
}

fn gram_passes(hllset: &HLLSet, lut: &TokenLUT, token: &[u8]) -> (r: bool)
    ensures
        r == valid_gram(lut@, hllset@, token@),
{
    if !holds_zero(token) {
        return true;
    }
    let parts = split_ngram(token);
    let ghost pv = views(parts@);
    let mut i: usize = 0;
    while i < parts.len()
        invariant
            i <= parts@.len(),
            pv == views(parts@),
            pv == split(token@),
            token@.contains(0u8),
            forall|j: int| 0 <= j < i ==> part_valid(lut@, hllset@, #[trigger] pv[j]),
        decreases parts@.len() - i,
    {
        let part = parts[i].as_slice();
        let ok = part.len() > 0 && match lut.position_of(part) {
            Some(p) => place_set(hllset, p),
            None => false,
        };
        proof {
            assert(pv[i as int] == part@);
            assert(ok == part_valid(lut@, hllset@, pv[i as int]));
        }
        if !ok {
            return false;
        }
        i = i + 1;
    }
    true
}

/// What cross-validation gives.
pub open spec fn cross_validated_result(
    r: MaterializedResult,
    plane: Set<u32>,
    table: Candidates,
) -> bool {
    let places = plane_places(plane);
    if plane.len() == 0 {
        result_is(r, Seq::empty(), "NgramCrossValidate"@, 0, 0)
    } else {
        result_is(
            r,
            seq![validated(table, plane, places)],
            "NgramCrossValidate"@,
            resolved_among(table, places),
            plane.len(),
        )
    }
}

/// Materializes by lookup, keeping an n-gram only where its tokens are
/// registered and their bits set.
pub fn materialize_ngram_cross_validate(hllset: &HLLSet, lut: &TokenLUT) -> (r: MaterializedResult)
    ensures
        cross_validated_result(r, hllset@, lut@),
{
    let places = set_places(hllset);
    if places.len() == 0 {
        return nothing("NgramCrossValidate", 0, 0);
    }
    let total: u64 = places.len() as u64;
    let resolved: u64 = count_resolved(lut, places.as_slice());
    let found = lut.at_positions(places.as_slice());
    let ghost all = views(found@);
    let ghost keep = |t: Seq<u8>| valid_gram(lut@, hllset@, t);
    let mut passed: Vec<Vec<u8>> = Vec::new();
    let mut i: usize = 0;
    proof {
        reveal(Seq::filter);
        assert(all.take(0) =~= Seq::empty());
        assert(views(passed@) =~= all.take(0).filter(keep));
    }
    while i < found.len()
        invariant
            i <= found@.len(),
            all == views(found@),
            keep == (|t: Seq<u8>| valid_gram(lut@, hllset@, t)),
            views(passed@) == all.take(i as int).filter(keep),
        decreases found@.len() - i,
    {
        let ghost before = passed@;
        let ghost t = found@[i as int]@;
        proof {
            reveal(Seq::filter);
            assert(all.take(i + 1).drop_last() =~= all.take(i as int));
            assert(all.take(i + 1).last() == t);
        }
        if gram_passes(hllset, lut, found[i].as_slice()) {
            passed.push(copy_bytes(found[i].as_slice()));
            proof {
                assert(views(passed@) =~= views(before).push(t));
            }
        }
        i = i + 1;
    }
    proof {
        assert(all.take(i as int) =~= all);
    }
    one_sequence(passed, "NgramCrossValidate", resolved, total)
}

/// The number of bytes before the first zero byte.
pub open spec fn before_zero(s: Seq<u8>) -> nat
    decreases s.len(),
{
    if s.len() == 0 || s[0] == SEP {
        0
    } else {
        1 + before_zero(s.skip(1))
    }
}

/// A byte string cut at its first zero byte.
pub open spec fn cut(s: Seq<u8>) -> (Seq<u8>, Seq<u8>) {
    let k = before_zero(s) as int;
    (s.take(k), s.skip(k + 1))
}

proof fn lemma_before_zero(s: Seq<u8>, k: int)
    requires
        0 <= k < s.len(),
        s[k] == SEP,
        forall|i: int| 0 <= i < k ==> s[i] != SEP,
    ensures
        before_zero(s) == k,
    decreases s.len(),
{
    if k > 0 {
        assert(s[0] != SEP);
        let t = s.skip(1);
        assert forall|i: int| 0 <= i < k - 1 implies t[i] != SEP by {
            assert(t[i] == s[i + 1]);
        }
        lemma_before_zero(t, k - 1);
    }
}

/// Cuts a byte string at its first zero byte; `None` where there is none.
pub fn split_at_nul(data: &[u8]) -> (r: Option<(Vec<u8>, Vec<u8>)>)
    ensures
        r is Some <==> data@.contains(0u8),
        r matches Some(p) ==> (p.0@, p.1@) == cut(data@),
{
    let mut k: usize = 0;
    while k < data.len()
        invariant
            k <= data@.len(),
            forall|i: int| 0 <= i < k ==> data@[i] != SEP,
        decreases data@.len() - k,
    {
        if data[k] == 0 {
            proof {
                assert(data@[k as int] == 0u8);
                lemma_before_zero(data@, k as int);
            }
            let head = vstd::slice::slice_subrange(data, 0, k);
            let tail = vstd::slice::slice_subrange(data, k + 1, data.len());
            proof {
                assert(data@.subrange(0, k as int) =~= data@.take(k as int));
                assert(data@.subrange(k + 1, data@.len() as int) =~= data@.skip(k + 1));
            }
            return Some((copy_bytes(head), copy_bytes(tail)));
        }
        k = k + 1;
    }
    None
}

/// The follow pairs of the n-grams among some tokens, in order.
pub open spec fn follows_of(tokens: Seq<Seq<u8>>) -> Seq<Follow>
    decreases tokens.len(),
{
    if tokens.len() == 0 {
        Seq::empty()
    } else {
        let before = follows_of(tokens.drop_last());
        if tokens.last().contains(0u8) {
            before.push(cut(tokens.last()))
        } else {
            before
        }
    }
}

/// The first follower of a token by a pair not yet walked.
pub open spec fn next_follow(pairs: Seq<Follow>, current: Seq<u8>, walked: Set<Follow>) -> Option<
    Seq<u8>,
>
    decreases pairs.len(),
{
    if pairs.len() == 0 {
        None
    } else {
        match next_follow(pairs.drop_last(), current, walked) {
            Some(n) => Some(n),
            None => if pairs.last().0 == current && !walked.contains(pairs.last()) {
                Some(pairs.last().1)
            } else {
                None
            },
        }
    }
}

/// The greedy walk from a token: always the first follower by a pair not yet
/// walked, until the end token, a dead end, or the step limit.
pub open spec fn greedy(
    pairs: Seq<Follow>,
    current: Seq<u8>,
    end: Seq<u8>,
    walked: Set<Follow>,
    path: Seq<Seq<u8>>,
    steps: nat,
) -> Seq<Seq<u8>>
    decreases steps,
{
    if steps == 0 || current == end {
        path
    } else {
        match next_follow(pairs, current, walked) {
            Some(n) => greedy(
                pairs,
                n,
                end,
                walked.insert((current, n)),
                path.push(n),
                (steps - 1) as nat,
            ),
            None => path,
        }
    }
}

/// The greedy walk between two markers.
pub open spec fn greedy_path(pairs: Seq<Follow>, start: Seq<u8>, end: Seq<u8>) -> Seq<Seq<u8>> {
    greedy(pairs, start, end, Set::empty(), seq![start], 1000)
}

/// A walk is a reconstruction from one marker to the other: it takes every
/// distinct pair once where some walk does, and is the greedy walk otherwise.
pub open spec fn reconstructs(
    pairs: Seq<Follow>,
    start: Seq<u8>,
    end: Seq<u8>,
    walk: Seq<Seq<u8>>,
) -> bool {
    if walkable(pairs.to_set(), start, end) {
        euler_walk(pairs.to_set(), start, end, walk)
    } else {
        walk == greedy_path(pairs, start, end)
    }
}

fn next_in(
    pairs: &[(Vec<u8>, Vec<u8>)],
    current: &Vec<u8>,
    walked: &OrdSet<(Vec<u8>, Vec<u8>)>,
) -> (r: Option<Vec<u8>>)
    ensures
        (match r {
            Some(n) => Some(n@),
            None => None::<Seq<u8>>,
        }) == next_follow(follow_views(pairs@), current@, walked@),
{
    let ghost all = follow_views(pairs@);
    let mut i: usize = 0;
    proof {
        assert(all.take(0) =~= Seq::empty());
    }
    while i < pairs.len()
        invariant
            i <= pairs@.len(),
            all == follow_views(pairs@),
            next_follow(all.take(i as int), current@, walked@) is None,
        decreases pairs@.len() - i,
    {
        proof {
            assert(all.take(i + 1).drop_last() =~= all.take(i as int));
            assert(all.take(i + 1).last() == (pairs@[i as int].0@, pairs@[i as int].1@));
        }
        let key = (copy_bytes(pairs[i].0.as_slice()), copy_bytes(pairs[i].1.as_slice()));
        if same_bytes(pairs[i].0.as_slice(), current.as_slice()) && !walked.contains(&key) {
            proof {
                lemma_next_stays(all, i + 1, current@, walked@);
            }
            return Some(copy_bytes(pairs[i].1.as_slice()));
        }
        i = i + 1;
    }
    proof {
        assert(all.take(i as int) =~= all);
    }
    None
}

proof fn lemma_next_stays(pairs: Seq<Follow>, n: int, current: Seq<u8>, walked: Set<Follow>)
    requires
        0 <= n <= pairs.len(),
        next_follow(pairs.take(n), current, walked) is Some,
    ensures
        next_follow(pairs, current, walked) == next_follow(pairs.take(n), current, walked),
    decreases pairs.len(),
{
    if n < pairs.len() {
        assert(pairs.drop_last().take(n) =~= pairs.take(n));
        lemma_next_stays(pairs.drop_last(), n, current, walked);
    } else {
        assert(pairs.take(n) =~= pairs);
    }
}

/// Walks greedily from the start token towards the end token.
fn walk_greedily(pairs: &[(Vec<u8>, Vec<u8>)], start: &[u8], end: &[u8]) -> (r: Vec<Vec<u8>>)
    ensures
        views(r@) == greedy_path(follow_views(pairs@), start@, end@),
{
    let ghost all = follow_views(pairs@);
    let mut current: Vec<u8> = copy_bytes(start);
    let mut walked: OrdSet<(Vec<u8>, Vec<u8>)> = OrdSet::new();
    let mut path: Vec<Vec<u8>> = Vec::new();
    path.push(copy_bytes(start));
    let mut steps: usize = 1000;
    proof {
        assert(views(path@) =~= seq![start@]);
    }
    while steps > 0
        invariant
            all == follow_views(pairs@),
            greedy(all, current@, end@, walked@, views(path@), steps as nat) == greedy_path(
                all,
                start@,
                end@,
            ),
        decreases steps,
    {
        if same_bytes(current.as_slice(), end) {
            return path;
        }
        match next_in(pairs, &current, &walked) {
            Some(n) => {
                let ghost before = path@;
                let key = (copy_bytes(current.as_slice()), copy_bytes(n.as_slice()));
                walked.insert(key);
                path.push(copy_bytes(n.as_slice()));
                proof {
                    assert(views(path@) =~= views(before).push(n@));
                }
                current = n;
                steps = steps - 1;
            },
            None => {
                return path;
            },
        }
    }
    path
}

/// Walks from the start token to the end token along every pair, or, where
/// there is no such walk, greedily towards the end token.
pub fn find_path(pairs: &[(Vec<u8>, Vec<u8>)], start: &[u8], end: &[u8]) -> (r: Vec<Vec<u8>>)
    ensures
        reconstructs(follow_views(pairs@), start@, end@, views(r@)),
{
    match find_euler_walk(pairs, start, end) {
        Some(w) => w,
        None => walk_greedily(pairs, start, end),
    }
}

/// What reconstruction gives.
pub open spec fn reconstructed_result(
    r: MaterializedResult,
    plane: Set<u32>,
    table: Candidates,
    start: Seq<u8>,
    end: Seq<u8>,
) -> bool {
    let places = plane_places(plane);
    let pairs = follows_of(gathered(table, places));
    let resolved = resolved_among(table, places);
    if plane.len() == 0 {
        result_is(r, Seq::empty(), "DeBruijnReconstruct"@, 0, 0)
    } else if pairs.len() == 0 {
        result_is(r, Seq::empty(), "DeBruijnReconstruct"@, resolved, plane.len())
    } else {
        let found = sequence_views(r.candidates@);
        &&& result_is(r, found, "DeBruijnReconstruct"@, resolved, plane.len())
        &&& found.len() == 1
        &&& reconstructs(pairs, start, end, found[0])
    }
}

/// Materializes an ordered sequence: the n-grams found, cut at their first
/// zero byte, are edges, and the sequence is a walk from the start marker to
/// the end marker along every edge, where there is one.
pub fn materialize_debruijn(
    hllset: &HLLSet,
    lut: &TokenLUT,
    start_marker: &[u8],
    end_marker: &[u8],
) -> (r: MaterializedResult)
    ensures
        reconstructed_result(r, hllset@, lut@, start_marker@, end_marker@),
{
    let places = set_places(hllset);
    if places.len() == 0 {
        return nothing("DeBruijnReconstruct", 0, 0);
    }
    let total: u64 = places.len() as u64;
    let resolved: u64 = count_resolved(lut, places.as_slice());
    let found = lut.at_positions(places.as_slice());
    let ghost all = views(found@);
    let mut pairs: Vec<(Vec<u8>, Vec<u8>)> = Vec::new();
    let mut i: usize = 0;
    proof {
        assert(all.take(0) =~= Seq::empty());
        assert(follow_views(pairs@) =~= Seq::empty());
    }
    while i < found.len()
        invariant
            i <= found@.len(),
            all == views(found@),
            follow_views(pairs@) == follows_of(all.take(i as int)),
        decreases found@.len() - i,
    {
        let ghost before = pairs@;
        proof {
            assert(all.take(i + 1).drop_last() =~= all.take(i as int));
            assert(all.take(i + 1).last() == found@[i as int]@);
        }
        match split_at_nul(found[i].as_slice()) {
            Some(p) => {
                let ghost pv = (p.0@, p.1@);
                pairs.push(p);
                proof {
                    assert(follow_views(pairs@) =~= follow_views(before).push(pv));
                }
            },
            None => {},
        }
        i = i + 1;
    }
    proof {
        assert(all.take(i as int) =~= all);
        assert(follow_views(pairs@).len() == pairs@.len());
    }
    if pairs.len() == 0 {
        return nothing("DeBruijnReconstruct", resolved, total);
    }
    let path = find_path(pairs.as_slice(), start_marker, end_marker);
    one_sequence(path, "DeBruijnReconstruct", resolved, total)
}

/// How many of some positions are set.
pub open spec fn matched(places: Seq<Place>, plane: Set<u32>) -> nat
    decreases places.len(),
{
    if places.len() == 0 {
        0
    } else {
        matched(places.drop_last(), plane) + if has_place(plane, places.last()) {
            1nat
        } else {
            0nat
        }
    }
}

/// How many positions of a value must be set: all but one, one at least.
pub open spec fn needed(c: Catalog) -> int {
    if c.seeds.len() > 2 {
        c.seeds.len() - 1
    } else {
        1
    }
}

/// A value is accepted: it stands at a set position, and enough of its
/// positions are set.
pub open spec fn accepted(c: Catalog, plane: Set<u32>, v: Seq<u8>) -> bool {
    &&& gathered(c.reverse, plane_places(plane)).contains(v)
    &&& c.forward.contains_key(v)
    &&& matched(c.forward[v], plane) >= needed(c)
}

/// The accepted values, ascending.
pub open spec fn consensus(c: Catalog, plane: Set<u32>) -> Seq<Seq<u8>> {
    listing::<Vec<u8>>(Set::new(|v: Seq<u8>| accepted(c, plane, v)))
}

/// The set positions of some values.
pub open spec fn agreed(c: Catalog, plane: Set<u32>, values: Seq<Seq<u8>>) -> Set<Place> {
    Set::new(
        |p: Place|
            has_place(plane, p) && exists|k: int|
                0 <= k < values.len() && c.forward[#[trigger] values[k]].contains(p),
    )
}

proof fn lemma_agreed_step(c: Catalog, plane: Set<u32>, values: Seq<Seq<u8>>, k: int)
    requires
        0 <= k < values.len(),
    ensures
        agreed(c, plane, values.take(k + 1)) == agreed(c, plane, values.take(k)).union(
            set_among(c.forward[values[k]], plane),
        ),
{
    let some = values.take(k);
    let more = values.take(k + 1);
    let a = agreed(c, plane, more);
    let b = agreed(c, plane, some).union(set_among(c.forward[values[k]], plane));
    assert forall|p: Place| a.contains(p) == b.contains(p) by {
        if a.contains(p) {
            let i = choose|i: int|
                0 <= i < more.len() && c.forward[#[trigger] more[i]].contains(p);
            if i < k {
                assert(some[i] == more[i]);
            }
        }
        if agreed(c, plane, some).contains(p) {
            let i = choose|i: int|
                0 <= i < some.len() && c.forward[#[trigger] some[i]].contains(p);
            assert(more[i] == some[i]);
        }
        if set_among(c.forward[values[k]], plane).contains(p) {
            assert(more[k] == values[k]);
        }
    }
    assert(a =~= b);
}

/// The positions among some that are set.
pub open spec fn set_among(places: Seq<Place>, plane: Set<u32>) -> Set<Place> {
    places.to_set().filter(|p: Place| has_place(plane, p))
}

/// Adds the positions among some that are set.
fn add_matched(hllset: &HLLSet, places: &[(u32, u32)], into: &mut OrdSet<(u32, u32)>)
    ensures
        final(into)@ == old(into)@.union(set_among(places@, hllset@)),
{
    let ghost before = into@;
    let mut i: usize = 0;
    proof {
        assert(into@ =~= before.union(set_among(places@.take(0), hllset@)));
    }
    while i < places.len()
        invariant
            i <= places@.len(),
            into@ == before.union(set_among(places@.take(i as int), hllset@)),
        decreases places@.len() - i,
    {
        let ghost now = into@;
        if place_set(hllset, places[i]) {
            into.insert(places[i]);
        }
        proof {
            crate::collections::lemma_take_step(places@, i as int);
            assert(into@ =~= before.union(set_among(places@.take(i + 1), hllset@)));
        }
        i = i + 1;
    }
    proof {
        assert(places@.take(i as int) =~= places@);
    }
}

/// What consensus gives.
pub open spec fn consensus_result(r: MaterializedResult, plane: Set<u32>, c: Catalog) -> bool {
    let values = consensus(c, plane);
    let resolved = agreed(c, plane, values).len();
    if plane.len() == 0 {
        result_is(r, Seq::empty(), "HomogeneousConsensus"@, 0, 0)
    } else if c.forward == Map::<Seq<u8>, Seq<Place>>::empty() {
        result_is(r, Seq::empty(), "HomogeneousConsensus"@, 0, plane.len())
    } else {
        result_is(
            r,
            if values.len() == 0 {
                Seq::empty()
            } else {
                seq![values]
            },
            "HomogeneousConsensus"@,
            resolved,
            plane.len(),
        )
    }
}

fn count_matched(hllset: &HLLSet, places: &[(u32, u32)]) -> (r: usize)
    ensures
        r == matched(places@, hllset@),
{
    let n: usize = places.len();
    let mut count: usize = 0;
    let mut i: usize = 0;
    proof {
        assert(places@.take(0) =~= Seq::empty());
    }
    while i < n
        invariant
            n == places@.len(),
            i <= n,
            count <= i,
            count == matched(places@.take(i as int), hllset@),
        decreases n - i,
    {
        proof {
            assert(places@.take(i + 1).drop_last() =~= places@.take(i as int));
            assert(places@.take(i + 1).last() == places@[i as int]);
        }
        if place_set(hllset, places[i]) {
            count = count + 1;
        }
        i = i + 1;
    }
    proof {
        assert(places@.take(i as int) =~= places@);
    }
    count
}

fn value_accepted(hllset: &HLLSet, lut: &CatalogLUT, value: &[u8]) -> (r: bool)
    ensures
        r == (lut@.forward.contains_key(value@) && matched(lut@.forward[value@], hllset@)
            >= needed(lut@)),
{
    let seeds: usize = lut.seed_count();
    let least: usize = if seeds > 2 {
        seeds - 1
    } else {
        1
    };
    match lut.positions_of(value) {
        Some(places) => count_matched(hllset, places.as_slice()) >= least,
        None => false,
    }
}

/// Materializes by consensus: a value is taken where enough of its positions
/// are set.
pub fn materialize_homogeneous_consensus(hllset: &HLLSet, lut: &CatalogLUT) -> (r:
    MaterializedResult)
    ensures
        consensus_result(r, hllset@, lut@),
{
    let places = set_places(hllset);
    let total: u64 = places.len() as u64;
    if places.len() == 0 {
        return nothing("HomogeneousConsensus", 0, 0);
    }
    if lut.is_empty() {
        return nothing("HomogeneousConsensus", 0, total);
    }
    let found = lut.at_positions(places.as_slice());
    let ghost all = views(found@);
    let ghost c = lut@;
    let ghost plane = hllset@;
    let ghost keep = |v: Seq<u8>|
        c.forward.contains_key(v) && matched(c.forward[v], plane) >= needed(c);
    let mut ok: OrdSet<Vec<u8>> = OrdSet::new();
    let mut i: usize = 0;
    proof {
        assert(ok@ =~= all.take(0).to_set().filter(keep));
    }
    while i < found.len()
        invariant
            i <= found@.len(),
            all == views(found@),
            c == lut@,
            plane == hllset@,
            keep == (|v: Seq<u8>|
                c.forward.contains_key(v) && matched(c.forward[v], plane) >= needed(c)),
            ok@ == all.take(i as int).to_set().filter(keep),
        decreases found@.len() - i,
    {
        proof {
            crate::collections::lemma_take_step(all, i as int);
            assert(all[i as int] == found@[i as int]@);
        }
        if value_accepted(hllset, lut, found[i].as_slice()) {
            ok.insert(copy_bytes(found[i].as_slice()));
        }
        proof {
            assert(ok@ =~= all.take(i + 1).to_set().filter(keep));
        }
        i = i + 1;
    }
    let values = ok.to_vec();
    let ghost vv = views(values@);
    proof {
        assert(all.take(i as int) =~= all);
        assert(ok@ =~= Set::new(|v: Seq<u8>| accepted(c, plane, v)));
        assert(vals(values@) =~= vv);
        lemma_listing::<Vec<u8>>(vv, ok@);
        assert forall|j: int| 0 <= j < vv.len() implies c.forward.contains_key(
            #[trigger] vv[j],
        ) by {
            assert(vv.to_set().contains(vv[j]));
        }
    }
    let mut at_all: OrdSet<(u32, u32)> = OrdSet::new();
    let mut k: usize = 0;
    proof {
        assert(at_all@ =~= agreed(c, plane, vv.take(0)));
    }
    while k < values.len()
        invariant
            k <= values@.len(),
            vv == views(values@),
            c == lut@,
            plane == hllset@,
            forall|j: int| 0 <= j < vv.len() ==> c.forward.contains_key(#[trigger] vv[j]),
            at_all@ == agreed(c, plane, vv.take(k as int)),
        decreases values@.len() - k,
    {
        proof {
            assert(vv[k as int] == values@[k as int]@);
            lemma_agreed_step(c, plane, vv, k as int);
        }
        match lut.positions_of(values[k].as_slice()) {
            Some(at) => {
                add_matched(hllset, at.as_slice(), &mut at_all);
            },
            None => {},
        }
        k = k + 1;
    }
    proof {
        assert(vv.take(k as int) =~= vv);
        assert(vv.len() == values@.len());
    }
    let resolved: u64 = at_all.len() as u64;
    if values.len() == 0 {
        return nothing("HomogeneousConsensus", resolved, total);
    }
    one_sequence(values, "HomogeneousConsensus", resolved, total)
}

/// A table with boundary markers, and the strategies over it.
pub struct Materializer {
    lut: TokenLUT,
    start_marker: Vec<u8>,
    end_marker: Vec<u8>,
}

/// Some registered token holds a zero byte.
pub open spec fn holds_ngrams(table: Candidates) -> bool {
    exists|p: Place, k: int|
        table.contains_key(p) && 0 <= k < table[p].len() && (#[trigger] table[p][k]).contains(0u8)
}

impl Materializer {
    /// The table.
    pub closed spec fn table(&self) -> Candidates {
        self.lut@
    }

    /// The start marker.
    pub closed spec fn start(&self) -> Seq<u8> {
        self.start_marker@
    }

    /// The end marker.
    pub closed spec fn end(&self) -> Seq<u8> {
        self.end_marker@
    }

    /// A materializer without tokens, with the markers `<S>` and `</S>`.
    pub fn new() -> (r: Self)
        ensures
            r.table() == Map::<Place, Seq<Seq<u8>>>::empty(),
            r.start() == seq![60u8, 83, 62],
            r.end() == seq![60u8, 47, 83, 62],
    {
        let mut start_marker: Vec<u8> = Vec::new();
        start_marker.push(60);
        start_marker.push(83);
        start_marker.push(62);
        let mut end_marker: Vec<u8> = Vec::new();
        end_marker.push(60);
        end_marker.push(47);
        end_marker.push(83);
        end_marker.push(62);
        proof {
            assert(start_marker@ =~= seq![60u8, 83, 62]);
            assert(end_marker@ =~= seq![60u8, 47, 83, 62]);
        }
        Materializer { lut: TokenLUT::new(), start_marker, end_marker }
    }

    /// The same materializer with other markers.
    pub fn with_boundaries(self, start: &[u8], end: &[u8]) -> (r: Self)
        ensures
            r.table() == self.table(),
            r.start() == start@,
            r.end() == end@,
    {
        Materializer {
            lut: self.lut,
            start_marker: copy_bytes(start),
            end_marker: copy_bytes(end),
        }
    }

    /// Registers tokens.
    pub fn insert(&mut self, tokens: &[Vec<u8>])
        ensures
            final(self).table() == registered_all(old(self).table(), views(tokens@)),
            final(self).start() == old(self).start(),
            final(self).end() == old(self).end(),
    {
        self.lut.insert_all(tokens);
    }

    /// The table.
    pub fn lut(&self) -> (r: &TokenLUT)
        ensures
            r@ == self.table(),
    {
        &self.lut
    }

    /// The table, to change.
    pub fn lut_mut(&mut self) -> (r: &mut TokenLUT)
        ensures
            r@ == old(self).table(),
            final(self).table() == final(r)@,
            final(self).start() == old(self).start(),
            final(self).end() == old(self).end(),
    {
        &mut self.lut
    }

    /// Materializes by plain lookup.
    pub fn inlut(&self, hllset: &HLLSet) -> (r: MaterializedResult)
        ensures
            inlut_result(r, hllset@, self.table()),
            in_plane(hllset@),
    {
        materialize_inlut(hllset, &self.lut)
    }

    /// Materializes by cross-validation.
    pub fn ngram_cross_validate(&self, hllset: &HLLSet) -> (r: MaterializedResult)
        ensures
            cross_validated_result(r, hllset@, self.table()),
    {
        materialize_ngram_cross_validate(hllset, &self.lut)
    }

    /// Materializes an ordered sequence.
    pub fn debruijn(&self, hllset: &HLLSet) -> (r: MaterializedResult)
        ensures
            reconstructed_result(r, hllset@, self.table(), self.start(), self.end()),
    {
        materialize_debruijn(
            hllset,
            &self.lut,
            self.start_marker.as_slice(),
            self.end_marker.as_slice(),
        )
    }

    /// Reconstructs a sequence where the table holds n-grams and more than
    /// two bits are set; looks up otherwise.
    pub fn auto(&self, hllset: &HLLSet) -> (r: MaterializedResult)
        ensures
            if holds_ngrams(self.table()) && hllset@.len() > 2 {
                reconstructed_result(r, hllset@, self.table(), self.start(), self.end())
            } else {
                inlut_result(r, hllset@, self.table())
            },
    {
        if self.lut.has_ngrams() && hllset.popcount() > 2 {
            self.debruijn(hllset)
        } else {
            self.inlut(hllset)
        }
    }
}

impl Default for Materializer {
    fn default() -> (r: Self)
        ensures
            r.table() == Map::<Place, Seq<Seq<u8>>>::empty(),
            r.start() == seq![60u8, 83, 62],
            r.end() == seq![60u8, 47, 83, 62],
    {
        Materializer::new()
    }
}

impl MaterializeEngine for Materializer {
    open spec fn found(&self, plane: Set<u32>, positions: Seq<(u16, u8)>) -> Seq<Seq<u8>> {
        first_occurrences(gathered(self.table(), plane_places(plane))).map_values(
            |t: Seq<u8>| utf8(utf8_lossy(t)),
        )
    }

    open spec fn label(&self) -> Seq<char> {
        "inmemory"@
    }

    open spec fn size(&self) -> nat {
        self.table().dom().len()
    }

    open spec fn hardware(&self) -> bool {
        false
    }

    fn materialize(&self, hllset: &HLLSet, positions: &[(u16, u8)]) -> (r: Result<
        Vec<Vec<u8>>,
        MaterializeError,
    >)
        ensures
            r is Ok,
            forall|words: Seq<Seq<char>>|
                first_occurrences(gathered(self.table(), plane_places(hllset@)))
                    == #[trigger] encoded(words) ==> views(r->Ok_0@) == encoded(words),
    {
        let result = self.inlut(hllset);
        let strings = result.flat_strings();
        let ghost st = texts(strings@);
        let mut tokens: Vec<Vec<u8>> = Vec::new();
        let mut i: usize = 0;
        while i < strings.len()
            invariant
                i <= strings@.len(),
                st == texts(strings@),
                tokens@.len() == i,
                forall|j: int| 0 <= j < i ==> (#[trigger] tokens@[j])@ == utf8(st[j]),
            decreases strings@.len() - i,
        {
            tokens.push(bytes_of(strings[i].as_str()));
            i = i + 1;
        }
        proof {
            let g = gathered(self.table(), plane_places(hllset@));
            let c = sequence_views(result.candidates@);
            if hllset@.len() == 0 {
                crate::hllset::lemma_plane_len(hllset@);
                lemma_no_places(hllset@);
                assert(all_tokens(c) =~= g);
            } else {
                assert(c.drop_last() =~= Seq::empty());
                assert(all_tokens(c.drop_last()) =~= Seq::empty());
                assert(all_tokens(c) =~= g);
            }
            let f = first_occurrences(g);
            assert(st == f.map_values(|t: Seq<u8>| utf8_lossy(t)));
            assert(st.len() == strings@.len());
            assert(st.len() == f.len());
            assert forall|j: int| 0 <= j < f.len() implies (#[trigger] tokens@[j])@ == utf8(
                utf8_lossy(f[j]),
            ) by {
                assert(st[j] == utf8_lossy(f[j]));
            }
            assert(views(tokens@) =~= f.map_values(|t: Seq<u8>| utf8(utf8_lossy(t))));
            assert forall|words: Seq<Seq<char>>| f == #[trigger] encoded(words) implies views(
                tokens@,
            ) == encoded(words) by {
                assert(st == words);
                assert(views(tokens@) =~= encoded(words));
            }
        }
        Ok(tokens)
    }

    fn name(&self) -> (r: &str) {
        "inmemory"
    }

    fn lut_count(&self) -> (r: usize) {
        self.lut.len()
    }

    fn is_hardware(&self) -> (r: bool) {
        false
    }
}

proof fn lemma_no_places(plane: Set<u32>)
    requires
        plane.finite(),
        plane.len() == 0,
    ensures
        plane_places(plane).len() == 0,
{
    crate::collections::lemma_listing_exists::<u32>(plane);
    let s = listing::<u32>(plane);
    if s.len() > 0 {
        assert(s.to_set().contains(s[0]));
    }
}

proof fn lemma_places(plane: Set<u32>, t: Seq<u8>, seed: u64)
    requires
        in_plane(plane),
    ensures
        plane_places(plane).contains(place_of(t, seed)) <==> plane.contains(bit_of(t, seed)),
        has_place(plane, place_of(t, seed)) <==> plane.contains(bit_of(t, seed)),
{
    crate::hllset::lemma_plane_len(plane);
    crate::collections::lemma_listing_exists::<u32>(plane);
    crate::hashing::lemma_bit_of(t, seed);
    let bits = listing::<u32>(plane);
    let places = plane_places(plane);
    let b = bit_of(t, seed);
    let p = place_of(t, seed);
    assert(p == (b / 32, b % 32));
    if plane.contains(b) {
        assert(bits.to_set().contains(b));
        let i = choose|i: int| 0 <= i < bits.len() && bits[i] == b;
        assert(places[i] == p);
    }
    if places.contains(p) {
        let i = choose|i: int| 0 <= i < places.len() && places[i] == p;
        assert(bits.to_set().contains(bits[i]));
        assert(bits[i] / 32 == b / 32 && bits[i] % 32 == b % 32);
        assert(bits[i] == b);
    }
}

/// Lookup is exact: in a table of some tokens it finds precisely those whose
/// bits are set.
pub proof fn lookups_are_exact(tokens: Seq<Seq<u8>>, plane: Set<u32>, t: Seq<u8>)
    requires
        in_plane(plane),
    ensures
        gathered(registered_all(Map::empty(), tokens), plane_places(plane)).contains(t)
            <==> tokens.contains(t) && plane.contains(bit_of(t, 0)),
{
    let table = registered_all(Map::empty(), tokens);
    let places = plane_places(plane);
    lemma_gathered(table, places, t);
    lemma_places(plane, t, 0);
    if gathered(table, places).contains(t) {
        let i = choose|i: int|
            0 <= i < places.len() && candidates_at(table, #[trigger] places[i]).contains(t);
        tables_hold_what_was_registered(tokens, places[i], t);
        assert(places.contains(places[i]));
    }
    if tokens.contains(t) && plane.contains(bit_of(t, 0)) {
        let i = choose|i: int| 0 <= i < places.len() && places[i] == place_of(t, 0);
        tables_hold_what_was_registered(tokens, places[i], t);
        assert(candidates_at(table, places[i]).contains(t));
    }
}

proof fn lemma_follows(tokens: Seq<Seq<u8>>, x: Follow)
    ensures
        follows_of(tokens).contains(x) <==> exists|i: int|
            0 <= i < tokens.len() && (#[trigger] tokens[i]).contains(0u8) && cut(tokens[i]) == x,
    decreases tokens.len(),
{
    if tokens.len() > 0 {
        let front = tokens.drop_last();
        let last = tokens.last();
        let before = follows_of(front);
        let now = follows_of(tokens);
        lemma_follows(front, x);
        if now.contains(x) {
            let k = choose|k: int| 0 <= k < now.len() && now[k] == x;
            if k < before.len() {
                assert(before[k] == x);
                let i = choose|i: int|
                    0 <= i < front.len() && (#[trigger] front[i]).contains(0u8) && cut(front[i])
                        == x;
                assert(tokens[i] == front[i]);
            } else {
                assert(tokens[tokens.len() - 1] == last);
            }
        }
        if exists|i: int|
            0 <= i < tokens.len() && (#[trigger] tokens[i]).contains(0u8) && cut(tokens[i]) == x {
            let i = choose|i: int|
                0 <= i < tokens.len() && (#[trigger] tokens[i]).contains(0u8) && cut(tokens[i])
                    == x;
            if i < front.len() {
                assert(front[i] == tokens[i]);
                assert(before.contains(x));
                let k = choose|k: int| 0 <= k < before.len() && before[k] == x;
                assert(now[k] == x);
            } else {
                assert(now[before.len() as int] == x);
            }
        }
    }
}

/// The pairs of neighbours of a sequence, joined.
pub open spec fn neighbour_grams(s: Seq<Seq<u8>>) -> Seq<Seq<u8>> {
    Seq::new(
        if s.len() > 0 {
            (s.len() - 1) as nat
        } else {
            0
        },
        |i: int| nul_joined(seq![s[i], s[i + 1]]),
    )
}

proof fn lemma_cut_pair(a: Seq<u8>, b: Seq<u8>)
    requires
        plain(a),
    ensures
        nul_joined(seq![a, b]).contains(0u8),
        cut(nul_joined(seq![a, b])) == (a, b),
{
    let two = seq![a, b];
    assert(two.drop_last() =~= seq![a]);
    assert(nul_joined(seq![a]) == a);
    let g = nul_joined(two);
    assert(g == a.push(SEP) + b);
    assert(g[a.len() as int] == SEP);
    lemma_before_zero(g, a.len() as int);
    assert(g.take(a.len() as int) =~= a);
    assert(g.skip(a.len() as int + 1) =~= b);
}

/// The neighbours at a place of a sequence.
pub open spec fn neighbours(s: Seq<Seq<u8>>, i: int) -> Follow {
    (s[i], s[i + 1])
}

/// Reconstruction gives back a sequence of distinct tokens between its
/// markers, from the plane and the table of its neighbour pairs, whatever
/// order the pairs are found in.
pub proof fn distinct_sequences_are_reconstructed(s: Seq<Seq<u8>>, walk: Seq<Seq<u8>>)
    requires
        2 <= s.len(),
        s.no_duplicates(),
        forall|i: int| 0 <= i < s.len() ==> plain(#[trigger] s[i]),
    ensures
        ({
            let grams = neighbour_grams(s);
            let plane = crate::hllset::token_bits(grams, 0);
            let found = gathered(registered_all(Map::empty(), grams), plane_places(plane));
            reconstructs(follows_of(found), s[0], s.last(), walk) <==> walk == s
        }),
{
    let grams = neighbour_grams(s);
    let plane = crate::hllset::token_bits(grams, 0);
    let found = gathered(registered_all(Map::empty(), grams), plane_places(plane));
    let pairs = follows_of(found);
    assert(in_plane(plane)) by {
        assert forall|b: u32| plane.contains(b) implies b < 32768 by {
            let i = choose|i: int| 0 <= i < grams.len() && b == bit_of(#[trigger] grams[i], 0);
            crate::hashing::lemma_bit_of(grams[i], 0);
        }
    }
    assert forall|i: int| 0 <= i < s.len() - 1 implies pairs.contains(
        #[trigger] neighbours(s, i),
    ) by {
        let g = grams[i];
        assert(plane.contains(bit_of(g, 0)));
        assert(grams.contains(g));
        lookups_are_exact(grams, plane, g);
        let k = choose|k: int| 0 <= k < found.len() && found[k] == g;
        lemma_cut_pair(s[i], s[i + 1]);
        lemma_follows(found, (s[i], s[i + 1]));
        assert(found[k].contains(0u8) && cut(found[k]) == (s[i], s[i + 1]));
    }
    assert forall|x: Follow| #[trigger] pairs.contains(x) implies exists|i: int|
        0 <= i < s.len() - 1 && x == #[trigger] neighbours(s, i) by {
        lemma_follows(found, x);
        let k = choose|k: int|
            0 <= k < found.len() && (#[trigger] found[k]).contains(0u8) && cut(found[k]) == x;
        lookups_are_exact(grams, plane, found[k]);
        assert(found.contains(found[k]));
        let i = choose|i: int| 0 <= i < grams.len() && grams[i] == found[k];
        lemma_cut_pair(s[i], s[i + 1]);
        assert(x == neighbours(s, i));
    }
    let set = pairs.to_set();
    assert forall|x: Follow| #[trigger] set.contains(x) <==> exists|i: int|
        0 <= i < s.len() - 1 && #[trigger] s[i] == x.0 && s[i + 1] == x.1 by {
        if set.contains(x) {
            assert(pairs.contains(x));
            let i = choose|i: int| 0 <= i < s.len() - 1 && x == #[trigger] neighbours(s, i);
            assert(s[i] == x.0 && s[i + 1] == x.1);
        }
        if exists|i: int| 0 <= i < s.len() - 1 && #[trigger] s[i] == x.0 && s[i + 1] == x.1 {
            let i = choose|i: int|
                0 <= i < s.len() - 1 && #[trigger] s[i] == x.0 && s[i + 1] == x.1;
            assert(neighbours(s, i) == x);
        }
    }
    distinct_walks_are_unique(s, set, s);
    distinct_walks_are_unique(s, set, walk);
}

proof fn lemma_placed_all(table: Candidates, places: Seq<Place>, t: Seq<u8>, p: Place, x: Seq<u8>)
    ensures
        candidates_at(placed_all(table, places, t), p).contains(x) <==> candidates_at(
            table,
            p,
        ).contains(x) || (x == t && places.contains(p)),
    decreases places.len(),
{
    if places.len() > 0 {
        let front = places.drop_last();
        let last = places.last();
        let before = placed_all(table, front, t);
        lemma_placed_all(table, front, t, p, x);
        assert(places.contains(p) <==> front.contains(p) || p == last) by {
            if places.contains(p) {
                let i = choose|i: int| 0 <= i < places.len() && places[i] == p;
                if i < front.len() {
                    assert(front[i] == p);
                }
            }
            if front.contains(p) {
                let i = choose|i: int| 0 <= i < front.len() && front[i] == p;
                assert(places[i] == p);
            }
            assert(places[places.len() - 1] == last);
        }
        let at = candidates_at(before, p);
        if p == last {
            let now = at.push(t);
            assert(candidates_at(placed_all(table, places, t), p) == now);
            if now.contains(x) {
                let i = choose|i: int| 0 <= i < now.len() && now[i] == x;
                if i < at.len() {
                    assert(at[i] == x);
                }
            }
            if at.contains(x) {
                let i = choose|i: int| 0 <= i < at.len() && at[i] == x;
                assert(now[i] == x);
            }
            assert(now[at.len() as int] == t);
        } else {
            assert(candidates_at(placed_all(table, places, t), p) == at);
        }
    }
}

proof fn lemma_catalog(seeds: Seq<u64>, values: Seq<Seq<u8>>, v: Seq<u8>, p: Place)
    ensures
        ({
            let c = catalog_after(empty_catalog(seeds), values);
            &&& c.seeds == seeds
            &&& c.forward.contains_key(v) <==> values.contains(v)
            &&& values.contains(v) ==> c.forward[v] == places_of(v, seeds)
            &&& values.contains(v) && places_of(v, seeds).contains(p) ==> candidates_at(
                c.reverse,
                p,
            ).contains(v)
        }),
    decreases values.len(),
{
    if values.len() > 0 {
        let front = values.drop_last();
        let last = values.last();
        let before = catalog_after(empty_catalog(seeds), front);
        lemma_catalog(seeds, front, v, p);
        assert(values.contains(v) <==> front.contains(v) || v == last) by {
            if values.contains(v) {
                let i = choose|i: int| 0 <= i < values.len() && values[i] == v;
                if i < front.len() {
                    assert(front[i] == v);
                }
            }
            if front.contains(v) {
                let i = choose|i: int| 0 <= i < front.len() && front[i] == v;
                assert(values[i] == v);
            }
            assert(values[values.len() - 1] == last);
        }
        lemma_placed_all(before.reverse, places_of(last, seeds), last, p, v);
    }
}

/// Consensus with the usual seeds takes precisely the registered values of
/// which at least two of the three bits are set.
pub proof fn consensus_is_two_of_three(values: Seq<Seq<u8>>, plane: Set<u32>, v: Seq<u8>)
    requires
        in_plane(plane),
    ensures
        accepted(catalog_after(empty_catalog(seq![0u64, 1, 2]), values), plane, v)
            <==> values.contains(v) && ((plane.contains(bit_of(v, 0)) && plane.contains(
            bit_of(v, 1),
        )) || (plane.contains(bit_of(v, 0)) && plane.contains(bit_of(v, 2))) || (plane.contains(
            bit_of(v, 1),
        ) && plane.contains(bit_of(v, 2)))),
{
    let seeds = seq![0u64, 1, 2];
    let c = catalog_after(empty_catalog(seeds), values);
    let at = places_of(v, seeds);
    let places = plane_places(plane);
    lemma_places(plane, v, 0);
    lemma_places(plane, v, 1);
    lemma_places(plane, v, 2);
    assert(at.len() == 3);
    assert(at[0] == place_of(v, 0) && at[1] == place_of(v, 1) && at[2] == place_of(v, 2));
    lemma_catalog(seeds, values, v, at[0]);
    lemma_catalog(seeds, values, v, at[1]);
    lemma_catalog(seeds, values, v, at[2]);
    let two = at.drop_last();
    let one = two.drop_last();
    assert(two.len() == 2 && two.last() == at[1]);
    assert(one.len() == 1 && one.last() == at[0]);
    assert(one.drop_last().len() == 0);
    assert(matched(one.drop_last(), plane) == 0);
    assert(matched(one, plane) == if has_place(plane, at[0]) { 1nat } else { 0nat });
    assert(matched(two, plane) == matched(one, plane) + if has_place(plane, at[1]) {
        1nat
    } else {
        0nat
    });
    assert(matched(at, plane) == matched(two, plane) + if has_place(plane, at[2]) {
        1nat
    } else {
        0nat
    });
    assert(needed(c) == 2);
    if values.contains(v) && matched(at, plane) >= 2 {
        let k: int = if has_place(plane, at[0]) {
            0
        } else {
            1
        };
        assert(has_place(plane, at[k]));
        assert(at.contains(at[k]));
        assert(places.contains(at[k]));
        let i = choose|i: int| 0 <= i < places.len() && places[i] == at[k];
        assert(candidates_at(c.reverse, places[i]).contains(v));
        lemma_gathered(c.reverse, places, v);
    }
}

/// An n-gram that cross-validation keeps: its own bit is set, and each of its
/// words is a token, not empty, whose bit is set. A single token has no words
/// to ask for.
pub open spec fn backed(tokens: Seq<Seq<u8>>, plane: Set<u32>, t: Seq<u8>) -> bool {
    t.contains(0u8) ==> forall|i: int|
        0 <= i < split(t).len() ==> (#[trigger] split(t)[i]).len() > 0 && tokens.contains(
            split(t)[i],
        ) && plane.contains(bit_of(split(t)[i], 0))
}

proof fn lemma_backed(tokens: Seq<Seq<u8>>, plane: Set<u32>, t: Seq<u8>)
    requires
        in_plane(plane),
    ensures
        valid_gram(registered_all(Map::empty(), tokens), plane, t) <==> backed(tokens, plane, t),
{
    let table = registered_all(Map::empty(), tokens);
    let parts = split(t);
    assert forall|i: int| 0 <= i < parts.len() implies part_valid(table, plane, #[trigger] parts[i])
        == (parts[i].len() > 0 && tokens.contains(parts[i]) && plane.contains(
        bit_of(parts[i], 0),
    )) by {
        lemma_places(plane, parts[i], 0);
        tables_hold_what_was_registered(tokens, place_of(parts[i], 0), parts[i]);
    }
    if t.contains(0u8) && valid_gram(table, plane, t) {
        assert forall|i: int| 0 <= i < parts.len() implies (#[trigger] parts[i]).len() > 0
            && tokens.contains(parts[i]) && plane.contains(bit_of(parts[i], 0)) by {
            assert(part_valid(table, plane, parts[i]));
        }
    }
    if t.contains(0u8) && backed(tokens, plane, t) {
        assert forall|i: int| 0 <= i < parts.len() implies part_valid(
            table,
            plane,
            #[trigger] parts[i],
        ) by {
            assert(parts[i].len() > 0);
        }
    }
}

/// Cross-validation asks the plane for every word: with a table of some tokens
/// it gives one sequence, of precisely the tokens whose bits are set and whose
/// words, if they are n-grams, are tokens whose bits are set.
pub proof fn cross_validation_asks_for_every_word(
    r: MaterializedResult,
    tokens: Seq<Seq<u8>>,
    plane: Set<u32>,
    t: Seq<u8>,
)
    requires
        in_plane(plane),
        plane.len() > 0,
        cross_validated_result(r, plane, registered_all(Map::empty(), tokens)),
    ensures
        sequence_views(r.candidates@).len() == 1,
        sequence_views(r.candidates@)[0].contains(t) <==> tokens.contains(t) && plane.contains(
            bit_of(t, 0),
        ) && backed(tokens, plane, t),
{
    let table = registered_all(Map::empty(), tokens);
    let found = gathered(table, plane_places(plane));
    let keep = |t: Seq<u8>| valid_gram(table, plane, t);
    lookups_are_exact(tokens, plane, t);
    lemma_backed(tokens, plane, t);
    if found.filter(keep).contains(t) {
        let i = choose|i: int| 0 <= i < found.filter(keep).len() && found.filter(keep)[i] == t;
        found.lemma_filter_pred(keep, i);
        found.lemma_filter_contains_rev(keep, t);
    }
    if found.contains(t) && keep(t) {
        let i = choose|i: int| 0 <= i < found.len() && found[i] == t;
        found.lemma_filter_contains(keep, i);
    }
}

/// An n-gram of words passes cross-validation where it is a token whose bit is
/// set and each of its words is a token whose bit is set; one word that is no
/// token, or whose bit is not set, and it is rejected.
pub proof fn joined_words_pass_together(
    r: MaterializedResult,
    tokens: Seq<Seq<u8>>,
    plane: Set<u32>,
    words: Seq<Seq<u8>>,
)
    requires
        in_plane(plane),
        plane.len() > 0,
        cross_validated_result(r, plane, registered_all(Map::empty(), tokens)),
        words.len() >= 2,
        forall|i: int| 0 <= i < words.len() ==> plain(#[trigger] words[i]) && words[i].len() > 0,
    ensures
        sequence_views(r.candidates@)[0].contains(nul_joined(words)) <==> tokens.contains(
            nul_joined(words),
        ) && plane.contains(bit_of(nul_joined(words), 0)) && forall|i: int|
            0 <= i < words.len() ==> tokens.contains(#[trigger] words[i]) && plane.contains(
                bit_of(words[i], 0),
            ),
{
    let t = nul_joined(words);
    let head = nul_joined(words.drop_last());
    assert(t == head.push(SEP) + words.last());
    assert(t[head.len() as int] == SEP);
    split_undoes_join(words);
    assert(t.contains(0u8));
    assert(split(t) == words);
    cross_validation_asks_for_every_word(r, tokens, plane, t);
}

proof fn lemma_candidates_in_order(tokens: Seq<Seq<u8>>, p: Place)
    ensures
        candidates_at(registered_all(Map::empty(), tokens), p) == tokens.filter(
            |t: Seq<u8>| place_of(t, 0) == p,
        ),
    decreases tokens.len(),
{
    reveal(Seq::filter);
    if tokens.len() > 0 {
        lemma_candidates_in_order(tokens.drop_last(), p);
    }
}

proof fn lemma_gathered_in_order(tokens: Seq<Seq<u8>>, bits: Seq<u32>, b: u32)
    requires
        crate::collections::ascending::<u32>(bits),
        forall|i: int| 0 <= i < bits.len() ==> #[trigger] bits[i] < 32768,
    ensures
        ({
            let g = gathered(
                registered_all(Map::empty(), tokens),
                bits.map_values(|b: u32| (b / 32, b % 32)),
            );
            let f = |t: Seq<u8>| bit_of(t, 0) == b;
            &&& g.filter(f) == if bits.contains(b) {
                tokens.filter(f)
            } else {
                Seq::empty()
            }
            &&& forall|i: int, j: int|
                0 <= i <= j < g.len() ==> bit_of(#[trigger] g[i], 0) <= bit_of(#[trigger] g[j], 0)
            &&& forall|i: int| 0 <= i < g.len() ==> bits.contains(bit_of(#[trigger] g[i], 0))
        }),
    decreases bits.len(),
{
    let table = registered_all(Map::empty(), tokens);
    let places = bits.map_values(|b: u32| (b / 32, b % 32));
    let f = |t: Seq<u8>| bit_of(t, 0) == b;
    let g = gathered(table, places);
    reveal(Seq::filter);
    if bits.len() > 0 {
        let front = bits.drop_last();
        let last = bits.last();
        assert(last == bits[bits.len() - 1]);
        assert forall|i: int| 0 <= i < front.len() implies #[trigger] front[i] < 32768 by {
            assert(front[i] == bits[i]);
        }
        assert(crate::collections::ascending::<u32>(front)) by {
            assert forall|i: int, j: int| 0 <= i < j < front.len() implies <u32 as crate::order::Key>::lt(
                #[trigger] front[i],
                #[trigger] front[j],
            ) by {
                assert(<u32 as crate::order::Key>::lt(bits[i], bits[j]));
            }
        }
        lemma_gathered_in_order(tokens, front, b);
        assert(places.drop_last() =~= front.map_values(|b: u32| (b / 32, b % 32)));
        let before = gathered(table, places.drop_last());
        let p = (last / 32, last % 32);
        assert(places.last() == p);
        let at = candidates_at(table, p);
        lemma_candidates_in_order(tokens, p);
        let own = |t: Seq<u8>| place_of(t, 0) == p;
        assert forall|t: Seq<u8>| #[trigger] own(t) == (bit_of(t, 0) == last) by {
            lemma_place_bit(t, last);
        }
        assert(at == tokens.filter(own));
        assert forall|i: int| 0 <= i < at.len() implies bit_of(#[trigger] at[i], 0) == last by {
            tokens.lemma_filter_pred(own, i);
            assert(own(at[i]));
        }
        assert(g == before + at);
        Seq::filter_distributes_over_add(before, at, f);
        if last == b {
            assert(at.filter(f) =~= at) by {
                lemma_filter_all(at, f);
            }
            assert(f =~= own);
            assert(!front.contains(b)) by {
                if front.contains(b) {
                    let i = choose|i: int| 0 <= i < front.len() && front[i] == b;
                    assert(<u32 as crate::order::Key>::lt(bits[i], bits[bits.len() - 1]));
                }
            }
            assert(before.filter(f) =~= Seq::empty());
            assert(Seq::<Seq<u8>>::empty() + at =~= at);
            assert(g.filter(f) == tokens.filter(f));
        } else {
            lemma_filter_none(at, f);
            assert(before.filter(f) + Seq::<Seq<u8>>::empty() =~= before.filter(f));
            if bits.contains(b) {
                let i = choose|i: int| 0 <= i < bits.len() && bits[i] == b;
                assert(front[i] == b);
            }
            if front.contains(b) {
                let i = choose|i: int| 0 <= i < front.len() && front[i] == b;
                assert(bits[i] == b);
            }
        }
        assert forall|i: int| 0 <= i < g.len() implies bits.contains(
            bit_of(#[trigger] g[i], 0),
        ) by {
            if i < before.len() {
                assert(g[i] == before[i]);
                let k = choose|k: int| 0 <= k < front.len() && front[k] == bit_of(before[i], 0);
                assert(bits[k] == front[k]);
            } else {
                assert(g[i] == at[i - before.len()]);
                assert(bits[bits.len() - 1] == last);
            }
        }
        assert forall|i: int, j: int| 0 <= i <= j < g.len() implies bit_of(#[trigger] g[i], 0)
            <= bit_of(#[trigger] g[j], 0) by {
            if j < before.len() {
                assert(g[i] == before[i] && g[j] == before[j]);
            } else if i < before.len() {
                assert(g[i] == before[i] && g[j] == at[j - before.len()]);
                let k = choose|k: int| 0 <= k < front.len() && front[k] == bit_of(before[i], 0);
                assert(<u32 as crate::order::Key>::lt(bits[k], bits[bits.len() - 1]));
            } else {
                assert(g[i] == at[i - before.len()] && g[j] == at[j - before.len()]);
            }
        }
    }
}

proof fn lemma_place_bit(t: Seq<u8>, b: u32)
    requires
        b < 32768,
    ensures
        place_of(t, 0) == (b / 32, b % 32) <==> bit_of(t, 0) == b,
{
    crate::hashing::lemma_bit_of(t, 0);
    let own = bit_of(t, 0);
    assert(place_of(t, 0) == (own / 32, own % 32));
}

proof fn lemma_filter_all(s: Seq<Seq<u8>>, f: spec_fn(Seq<u8>) -> bool)
    requires
        forall|i: int| 0 <= i < s.len() ==> f(#[trigger] s[i]),
    ensures
        s.filter(f) == s,
    decreases s.len(),
{
    reveal(Seq::filter);
    if s.len() > 0 {
        let d = s.drop_last();
        assert forall|i: int| 0 <= i < d.len() implies f(#[trigger] d[i]) by {
            assert(d[i] == s[i]);
        }
        lemma_filter_all(d, f);
        assert(f(s[s.len() - 1]));
        assert(d.push(s.last()) =~= s);
    }
}

proof fn lemma_filter_none(s: Seq<Seq<u8>>, f: spec_fn(Seq<u8>) -> bool)
    requires
        forall|i: int| 0 <= i < s.len() ==> !f(#[trigger] s[i]),
    ensures
        s.filter(f) == Seq::<Seq<u8>>::empty(),
    decreases s.len(),
{
    reveal(Seq::filter);
    if s.len() > 0 {
        let d = s.drop_last();
        assert forall|i: int| 0 <= i < d.len() implies !f(#[trigger] d[i]) by {
            assert(d[i] == s[i]);
        }
        lemma_filter_none(d, f);
        assert(!f(s[s.len() - 1]));
    }
}

/// Plain lookup lists the tokens whose bits are set by ascending bit, and those
/// of one bit as often as they were registered and in that order.
pub proof fn lookups_keep_the_order_of_registration(
    r: MaterializedResult,
    tokens: Seq<Seq<u8>>,
    plane: Set<u32>,
    b: u32,
)
    requires
        in_plane(plane),
        plane.len() > 0,
        inlut_result(r, plane, registered_all(Map::empty(), tokens)),
    ensures
        ({
            let found = sequence_views(r.candidates@);
            let f = |t: Seq<u8>| bit_of(t, 0) == b;
            &&& found.len() == 1
            &&& found[0].filter(f) == if plane.contains(b) {
                tokens.filter(f)
            } else {
                Seq::empty()
            }
            &&& forall|i: int, j: int|
                0 <= i <= j < found[0].len() ==> bit_of(#[trigger] found[0][i], 0) <= bit_of(
                    #[trigger] found[0][j],
                    0,
                )
        }),
{
    crate::hllset::lemma_plane_len(plane);
    crate::collections::lemma_listing_exists::<u32>(plane);
    let bits = listing::<u32>(plane);
    assert forall|i: int| 0 <= i < bits.len() implies #[trigger] bits[i] < 32768 by {
        assert(bits.to_set().contains(bits[i]));
    }
    lemma_gathered_in_order(tokens, bits, b);
    assert(bits.contains(b) == bits.to_set().contains(b));
}

proof fn lemma_resolved_among(tokens: Seq<Seq<u8>>, bits: Seq<u32>)
    requires
        crate::collections::ascending::<u32>(bits),
        forall|i: int| 0 <= i < bits.len() ==> #[trigger] bits[i] < 32768,
    ensures
        bits.to_set().intersect(crate::hllset::token_bits(tokens, 0)).finite(),
        resolved_among(
            registered_all(Map::empty(), tokens),
            bits.map_values(|b: u32| (b / 32, b % 32)),
        ) == bits.to_set().intersect(crate::hllset::token_bits(tokens, 0)).len(),
    decreases bits.len(),
{
    let table = registered_all(Map::empty(), tokens);
    let places = bits.map_values(|b: u32| (b / 32, b % 32));
    let set = crate::hllset::token_bits(tokens, 0);
    vstd::seq_lib::seq_to_set_is_finite(bits);
    if bits.len() == 0 {
        assert(bits.to_set().intersect(set) =~= Set::empty());
    } else {
        let front = bits.drop_last();
        let last = bits.last();
        assert(last == bits[bits.len() - 1]);
        assert forall|i: int| 0 <= i < front.len() implies #[trigger] front[i] < 32768 by {
            assert(front[i] == bits[i]);
        }
        assert(crate::collections::ascending::<u32>(front)) by {
            assert forall|i: int, j: int| 0 <= i < j < front.len() implies <u32 as crate::order::Key>::lt(
                #[trigger] front[i],
                #[trigger] front[j],
            ) by {
                assert(<u32 as crate::order::Key>::lt(bits[i], bits[j]));
            }
        }
        lemma_resolved_among(tokens, front);
        vstd::seq_lib::seq_to_set_is_finite(front);
        assert(places.drop_last() =~= front.map_values(|b: u32| (b / 32, b % 32)));
        let p = (last / 32, last % 32);
        assert(places.last() == p);
        assert(table.contains_key(p) <==> set.contains(last)) by {
            lemma_table_place(tokens, last);
        }
        assert(!front.contains(last)) by {
            if front.contains(last) {
                let i = choose|i: int| 0 <= i < front.len() && front[i] == last;
                assert(<u32 as crate::order::Key>::lt(bits[i], bits[bits.len() - 1]));
            }
        }
        assert(bits =~= front.push(last));
        assert forall|b: u32| bits.to_set().contains(b) == (front.to_set().contains(b) || b
            == last) by {
            if front.contains(b) {
                let i = choose|i: int| 0 <= i < front.len() && front[i] == b;
                assert(bits[i] == b);
            }
            if bits.contains(b) && b != last {
                let i = choose|i: int| 0 <= i < bits.len() && bits[i] == b;
                assert(front[i] == b);
            }
        }
        assert(bits.to_set().intersect(set) =~= if set.contains(last) {
            front.to_set().intersect(set).insert(last)
        } else {
            front.to_set().intersect(set)
        });
    }
}

proof fn lemma_table_place(tokens: Seq<Seq<u8>>, b: u32)
    requires
        b < 32768,
    ensures
        registered_all(Map::empty(), tokens).contains_key((b / 32, b % 32))
            <==> crate::hllset::token_bits(tokens, 0).contains(b),
    decreases tokens.len(),
{
    let set = crate::hllset::token_bits(tokens, 0);
    if tokens.len() > 0 {
        let front = tokens.drop_last();
        lemma_table_place(front, b);
        lemma_place_bit(tokens.last(), b);
        let before = crate::hllset::token_bits(front, 0);
        if set.contains(b) {
            let i = choose|i: int| 0 <= i < tokens.len() && b == bit_of(#[trigger] tokens[i], 0);
            if i < front.len() {
                assert(front[i] == tokens[i]);
                assert(before.contains(b));
            }
        }
        if before.contains(b) {
            let i = choose|i: int| 0 <= i < front.len() && b == bit_of(#[trigger] front[i], 0);
            assert(tokens[i] == front[i]);
        }
        if bit_of(tokens.last(), 0) == b {
            assert(b == bit_of(tokens[tokens.len() - 1], 0));
        }
    }
}

/// The confidence of a lookup, cross-validated or not, is the share of the
/// plane's bits that some token of the table sets.
pub proof fn confidence_counts_the_known_bits(
    r: MaterializedResult,
    tokens: Seq<Seq<u8>>,
    plane: Set<u32>,
)
    requires
        in_plane(plane),
        inlut_result(r, plane, registered_all(Map::empty(), tokens)) || cross_validated_result(
            r,
            plane,
            registered_all(Map::empty(), tokens),
        ),
    ensures
        r.confidence.part == plane.intersect(crate::hllset::token_bits(tokens, 0)).len(),
        r.confidence.whole == plane.len(),
{
    crate::hllset::lemma_plane_len(plane);
    crate::collections::lemma_listing_exists::<u32>(plane);
    let bits = listing::<u32>(plane);
    assert forall|i: int| 0 <= i < bits.len() implies #[trigger] bits[i] < 32768 by {
        assert(bits.to_set().contains(bits[i]));
    }
    lemma_resolved_among(tokens, bits);
    if plane.len() == 0 {
        assert(plane =~= Set::empty());
        assert(plane.intersect(crate::hllset::token_bits(tokens, 0)) =~= Set::empty());
    }
}

/// A pair that a walk has taken before a step.
pub open spec fn walked_before(path: Seq<Seq<u8>>, i: int, x: Follow) -> bool {
    exists|j: int| 0 <= j < i && #[trigger] neighbours(path, j) == x
}

/// What a greedy walk does at a step: it takes a pair not taken before, and
/// every pair found earlier that leaves from the same token is taken.
pub open spec fn takes_the_first_left(pairs: Seq<Follow>, path: Seq<Seq<u8>>, i: int) -> bool {
    &&& !walked_before(path, i, neighbours(path, i))
    &&& exists|k: int|
        0 <= k < pairs.len() && pairs[k] == neighbours(path, i) && #[trigger] all_taken(
            pairs.take(k),
            path,
            i,
        )
}

/// Of some pairs, those that leave from the token at a step are taken.
pub open spec fn all_taken(pairs: Seq<Follow>, path: Seq<Seq<u8>>, i: int) -> bool {
    forall|k: int|
        0 <= k < pairs.len() && (#[trigger] pairs[k]).0 == path[i] ==> walked_before(
            path,
            i,
            pairs[k],
        )
}

proof fn lemma_next_is_first(pairs: Seq<Follow>, current: Seq<u8>, walked: Set<Follow>)
    ensures
        match next_follow(pairs, current, walked) {
            Some(n) => exists|k: int|
                #![trigger pairs[k]]
                0 <= k < pairs.len() && pairs[k] == (current, n) && !walked.contains(pairs[k])
                    && forall|j: int|
                    0 <= j < k && (#[trigger] pairs[j]).0 == current ==> walked.contains(pairs[j]),
            None => forall|k: int|
                0 <= k < pairs.len() && (#[trigger] pairs[k]).0 == current ==> walked.contains(
                    pairs[k],
                ),
        },
    decreases pairs.len(),
{
    if pairs.len() > 0 {
        let front = pairs.drop_last();
        lemma_next_is_first(front, current, walked);
        match next_follow(front, current, walked) {
            Some(n) => {
                let k = choose|k: int|
                    #![trigger front[k]]
                    0 <= k < front.len() && front[k] == (current, n) && !walked.contains(front[k])
                        && forall|j: int|
                        0 <= j < k && (#[trigger] front[j]).0 == current ==> walked.contains(
                            front[j],
                        );
                assert(pairs[k] == front[k]);
                assert forall|j: int| 0 <= j < k && (#[trigger] pairs[j]).0 == current implies
                    walked.contains(pairs[j]) by {
                    assert(front[j] == pairs[j]);
                }
            },
            None => {
                assert forall|j: int|
                    0 <= j < front.len() && (#[trigger] pairs[j]).0 == current implies
                    walked.contains(pairs[j]) by {
                    assert(front[j] == pairs[j]);
                }
                assert(pairs[pairs.len() - 1] == pairs.last());
            },
        }
    }
}

spec fn walked_are(path: Seq<Seq<u8>>, walked: Set<Follow>) -> bool {
    forall|x: Follow| #[trigger]
        walked.contains(x) <==> walked_before(path, path.len() - 1, x)
}

proof fn lemma_walked_step(path: Seq<Seq<u8>>, walked: Set<Follow>, next: Seq<u8>)
    requires
        path.len() > 0,
        walked_are(path, walked),
    ensures
        walked_are(path.push(next), walked.insert((path.last(), next))),
        forall|i: int, x: Follow|
            0 <= i < path.len() ==> #[trigger] walked_before(path.push(next), i, x)
                == walked_before(path, i, x),
{
    let more = path.push(next);
    let n = path.len() as int;
    assert forall|j: int| 0 <= j < n - 1 implies #[trigger] neighbours(more, j) == neighbours(
        path,
        j,
    ) by {}
    assert(neighbours(more, n - 1) == (path.last(), next));
    assert forall|i: int, x: Follow| 0 <= i < n implies #[trigger] walked_before(more, i, x)
        == walked_before(path, i, x) by {
        if walked_before(more, i, x) {
            let j = choose|j: int| 0 <= j < i && #[trigger] neighbours(more, j) == x;
            assert(neighbours(path, j) == x);
        }
        if walked_before(path, i, x) {
            let j = choose|j: int| 0 <= j < i && #[trigger] neighbours(path, j) == x;
            assert(neighbours(more, j) == x);
        }
    }
    let now = walked.insert((path.last(), next));
    assert forall|x: Follow| #[trigger] now.contains(x) <==> walked_before(more, n, x) by {
        if now.contains(x) {
            if x == (path.last(), next) {
                assert(neighbours(more, n - 1) == x);
            } else {
                assert(walked_before(path, n - 1, x));
                let j = choose|j: int| 0 <= j < n - 1 && #[trigger] neighbours(path, j) == x;
                assert(neighbours(more, j) == x);
            }
        }
        if walked_before(more, n, x) {
            let j = choose|j: int| 0 <= j < n && #[trigger] neighbours(more, j) == x;
            if j < n - 1 {
                assert(neighbours(path, j) == x);
                assert(walked_before(path, n - 1, x));
                assert(walked.contains(x));
            }
        }
    }
}

proof fn lemma_step_stays(pairs: Seq<Follow>, path: Seq<Seq<u8>>, next: Seq<u8>, i: int)
    requires
        0 <= i < path.len() - 1,
        takes_the_first_left(pairs, path, i),
        forall|j: int, x: Follow|
            0 <= j < path.len() ==> #[trigger] walked_before(path.push(next), j, x)
                == walked_before(path, j, x),
    ensures
        takes_the_first_left(pairs, path.push(next), i),
{
    let more = path.push(next);
    assert(neighbours(more, i) == neighbours(path, i));
    let k = choose|k: int|
        0 <= k < pairs.len() && pairs[k] == neighbours(path, i) && #[trigger] all_taken(
            pairs.take(k),
            path,
            i,
        );
    let some = pairs.take(k);
    assert forall|j: int| 0 <= j < some.len() && (#[trigger] some[j]).0 == more[i] implies
        walked_before(more, i, some[j]) by {
        assert(walked_before(path, i, some[j]));
    }
    assert(all_taken(pairs.take(k), more, i));
    assert(walked_before(more, i, neighbours(path, i)) == walked_before(
        path,
        i,
        neighbours(path, i),
    ));
}

proof fn lemma_greedy(
    pairs: Seq<Follow>,
    end: Seq<u8>,
    walked: Set<Follow>,
    path: Seq<Seq<u8>>,
    steps: nat,
)
    requires
        path.len() > 0,
        walked_are(path, walked),
        forall|i: int| 0 <= i < path.len() - 1 ==> #[trigger] takes_the_first_left(pairs, path, i),
        forall|i: int| 0 <= i < path.len() - 1 ==> #[trigger] path[i] != end,
    ensures
        ({
            let whole = greedy(pairs, path.last(), end, walked, path, steps);
            &&& path.is_prefix_of(whole)
            &&& whole.len() <= path.len() + steps
            &&& forall|i: int|
                0 <= i < whole.len() - 1 ==> #[trigger] takes_the_first_left(pairs, whole, i)
            &&& forall|i: int| 0 <= i < whole.len() - 1 ==> #[trigger] whole[i] != end
            &&& whole.len() == path.len() + steps || whole.last() == end || all_taken(
                pairs,
                whole,
                whole.len() - 1,
            )
        }),
    decreases steps,
{
    let current = path.last();
    let n = path.len() as int;
    lemma_next_is_first(pairs, current, walked);
    let found = next_follow(pairs, current, walked);
    if steps == 0 || current == end {
    } else if found is None {
        assert forall|k: int| 0 <= k < pairs.len() && (#[trigger] pairs[k]).0 == path[n - 1] implies
            walked_before(path, n - 1, pairs[k]) by {
            assert(walked.contains(pairs[k]));
        }
    } else {
        let next = found->0;
        let more = path.push(next);
        let now = walked.insert((current, next));
        lemma_walked_step(path, walked, next);
        let k = choose|k: int|
            #![trigger pairs[k]]
            0 <= k < pairs.len() && pairs[k] == (current, next) && !walked.contains(pairs[k])
                && forall|j: int|
                0 <= j < k && (#[trigger] pairs[j]).0 == current ==> walked.contains(pairs[j]);
        let some = pairs.take(k);
        assert(neighbours(more, n - 1) == (current, next));
        assert forall|j: int| 0 <= j < some.len() && (#[trigger] some[j]).0 == more[n - 1] implies
            walked_before(more, n - 1, some[j]) by {
            assert(some[j] == pairs[j]);
            assert(walked.contains(pairs[j]));
            assert(walked_before(path, n - 1, pairs[j]));
        }
        assert(all_taken(pairs.take(k), more, n - 1));
        assert(!walked_before(more, n - 1, (current, next))) by {
            assert(walked_before(more, n - 1, (current, next)) == walked_before(
                path,
                n - 1,
                (current, next),
            ));
            assert(!walked.contains((current, next)));
        }
        assert(takes_the_first_left(pairs, more, n - 1));
        assert forall|i: int| 0 <= i < more.len() - 1 implies #[trigger] takes_the_first_left(
            pairs,
            more,
            i,
        ) by {
            if i < n - 1 {
                assert(takes_the_first_left(pairs, path, i));
                lemma_step_stays(pairs, path, next, i);
            }
        }
        assert forall|i: int| 0 <= i < more.len() - 1 implies #[trigger] more[i] != end by {
            if i < n - 1 {
                assert(path[i] != end);
            } else {
                assert(more[i] == current);
            }
        }
        assert(more.last() == next);
        lemma_greedy(pairs, end, now, more, (steps - 1) as nat);
        let whole = greedy(pairs, next, end, now, more, (steps - 1) as nat);
        assert(path.is_prefix_of(whole)) by {
            assert(path =~= more.take(n));
            assert(path =~= whole.take(n));
        }
    }
}

/// A greedy walk starts at the start marker, takes at every step the pair
/// found first of those that leave from where it stands and are not taken
/// yet, never goes on from the end marker, and stops before its thousand steps
/// only there or where every pair that leaves is taken.
pub proof fn greedy_walks_take_the_first_pair_left(
    pairs: Seq<Follow>,
    start: Seq<u8>,
    end: Seq<u8>,
)
    ensures
        ({
            let path = greedy_path(pairs, start, end);
            &&& 0 < path.len() <= 1001
            &&& path[0] == start
            &&& forall|i: int|
                0 <= i < path.len() - 1 ==> #[trigger] takes_the_first_left(pairs, path, i)
            &&& forall|i: int| 0 <= i < path.len() - 1 ==> #[trigger] path[i] != end
            &&& path.len() == 1001 || path.last() == end || all_taken(
                pairs,
                path,
                path.len() - 1,
            )
        }),
{
    let path = seq![start];
    assert(walked_are(path, Set::empty()));
    lemma_greedy(pairs, end, Set::empty(), path, 1000);
    let whole = greedy_path(pairs, start, end);
    assert(path[0] == whole[0]);
}

/// An n-gram is cut at its first zero byte: what stands before holds none.
pub proof fn pairs_are_cut_at_the_first_zero(a: Seq<u8>, b: Seq<u8>)
    requires
        plain(a),
    ensures
        cut(a.push(0u8) + b) == (a, b),
{
    let g = a.push(0u8) + b;
    assert(g[a.len() as int] == SEP);
    lemma_before_zero(g, a.len() as int);
    assert(g.take(a.len() as int) =~= a);
    assert(g.skip(a.len() as int + 1) =~= b);
}

/// The pairs of some tokens come in the order of the tokens, one for each that
/// holds a zero byte.
pub proof fn pairs_come_in_order(a: Seq<Seq<u8>>, b: Seq<Seq<u8>>, t: Seq<u8>)
    ensures
        follows_of(a + b) == follows_of(a) + follows_of(b),
        follows_of(seq![t]) == if t.contains(0u8) {
            seq![cut(t)]
        } else {
            Seq::empty()
        },
    decreases b.len(),
{
    assert(seq![t].drop_last() =~= Seq::empty());
    assert(follows_of(seq![t].drop_last()) =~= Seq::empty());
    assert(Seq::<Follow>::empty().push(cut(t)) =~= seq![cut(t)]);
    if b.len() == 0 {
        assert(a + b =~= a);
        assert(follows_of(a) + follows_of(b) =~= follows_of(a));
    } else {
        assert((a + b).drop_last() =~= a + b.drop_last());
        assert((a + b).last() == b.last());
        pairs_come_in_order(a, b.drop_last(), t);
        assert(follows_of(a + b) =~= follows_of(a) + follows_of(b));
    }
}

/// Consensus counts, of the set bits, those that a value it takes sets under
/// one of the usual seeds.
pub proof fn consensus_counts_the_bits_of_its_values(
    values: Seq<Seq<u8>>,
    plane: Set<u32>,
    taken: Seq<Seq<u8>>,
    p: Place,
)
    requires
        forall|k: int| 0 <= k < taken.len() ==> values.contains(#[trigger] taken[k]),
    ensures
        agreed(catalog_after(empty_catalog(seq![0u64, 1, 2]), values), plane, taken).contains(p)
            <==> has_place(plane, p) && exists|k: int|
            0 <= k < taken.len() && (p == place_of(#[trigger] taken[k], 0) || p == place_of(
                taken[k],
                1,
            ) || p == place_of(taken[k], 2)),
{
    let seeds = seq![0u64, 1, 2];
    let c = catalog_after(empty_catalog(seeds), values);
    assert forall|k: int| 0 <= k < taken.len() implies (c.forward[#[trigger] taken[k]].contains(p)
        <==> (p == place_of(taken[k], 0) || p == place_of(taken[k], 1) || p == place_of(
        taken[k],
        2,
    ))) by {
        let v = taken[k];
        lemma_catalog(seeds, values, v, p);
        let at = places_of(v, seeds);
        assert(at.len() == 3);
        assert(at[0] == place_of(v, 0) && at[1] == place_of(v, 1) && at[2] == place_of(v, 2));
    }
    if exists|k: int|
        0 <= k < taken.len() && (p == place_of(#[trigger] taken[k], 0) || p == place_of(
            taken[k],
            1,
        ) || p == place_of(taken[k], 2)) {
        let k = choose|k: int|
            0 <= k < taken.len() && (p == place_of(#[trigger] taken[k], 0) || p == place_of(
                taken[k],
                1,
            ) || p == place_of(taken[k], 2));
        assert(c.forward[taken[k]].contains(p));
    }
}

/// A table holds n-grams precisely where a registered token holds a zero byte.
pub proof fn tables_with_ngrams_are_seen(tokens: Seq<Seq<u8>>)
    ensures
        holds_ngrams(registered_all(Map::empty(), tokens)) <==> exists|i: int|
            0 <= i < tokens.len() && (#[trigger] tokens[i]).contains(0u8),
{
    let table = registered_all(Map::empty(), tokens);
    if holds_ngrams(table) {
        let (p, k) = choose|p: Place, k: int|
            table.contains_key(p) && 0 <= k < table[p].len() && (
            #[trigger] table[p][k]).contains(0u8);
        let t = table[p][k];
        tables_hold_what_was_registered(tokens, p, t);
        assert(candidates_at(table, p).contains(t));
        let i = choose|i: int| 0 <= i < tokens.len() && tokens[i] == t;
        assert(tokens[i].contains(0u8));
    }
    if exists|i: int| 0 <= i < tokens.len() && (#[trigger] tokens[i]).contains(0u8) {
        let i = choose|i: int| 0 <= i < tokens.len() && (#[trigger] tokens[i]).contains(0u8);
        let t = tokens[i];
        let p = place_of(t, 0);
        tables_hold_what_was_registered(tokens, p, t);
        let at = candidates_at(table, p);
        assert(at.contains(t));
        let k = choose|k: int| 0 <= k < at.len() && at[k] == t;
        assert(table.contains_key(p) && table[p][k].contains(0u8));
    }
}

proof fn lemma_unset(places: Seq<Place>, plane: Set<u32>)
    ensures
        matched(places, plane) <= places.len(),
        matched(places, plane) == places.len() <==> forall|i: int|
            0 <= i < places.len() ==> has_place(plane, #[trigger] places[i]),
        matched(places, plane) >= places.len() - 1 <==> forall|i: int, j: int|
            0 <= i < j < places.len() ==> has_place(plane, #[trigger] places[i]) || has_place(
                plane,
                #[trigger] places[j],
            ),
        matched(places, plane) >= 1 <==> exists|i: int|
            0 <= i < places.len() && has_place(plane, #[trigger] places[i]),
    decreases places.len(),
{
    if places.len() > 0 {
        let front = places.drop_last();
        let last = places.last();
        let n = front.len() as int;
        lemma_unset(front, plane);
        assert(places[n] == last);
        assert forall|i: int| 0 <= i < n implies front[i] == #[trigger] places[i] by {}
        if has_place(plane, last) {
            if matched(front, plane) < n - 1 {
                let (i, j) = choose|i: int, j: int|
                    0 <= i < j < n && !has_place(plane, #[trigger] front[i]) && !has_place(
                        plane,
                        #[trigger] front[j],
                    );
                assert(!has_place(plane, places[i]) && !has_place(plane, places[j]));
            }
            if matched(front, plane) < n {
                let i = choose|i: int| 0 <= i < n && !has_place(plane, #[trigger] front[i]);
                assert(!has_place(plane, places[i]));
            }
        } else {
            if matched(front, plane) < n {
                let i = choose|i: int| 0 <= i < n && !has_place(plane, #[trigger] front[i]);
                assert(!has_place(plane, places[i]) && !has_place(plane, places[n]));
            }
        }
        if matched(front, plane) >= 1 {
            let i = choose|i: int| 0 <= i < n && has_place(plane, #[trigger] front[i]);
            assert(has_place(plane, places[i]));
        }
    }
}

/// Consensus over three seeds or more forgives one of them: it takes the
/// registered values of which no two bits are missing. Over two seeds one bit
/// is enough.
pub proof fn consensus_forgives_one_seed(
    seeds: Seq<u64>,
    values: Seq<Seq<u8>>,
    plane: Set<u32>,
    v: Seq<u8>,
)
    requires
        in_plane(plane),
        seeds.len() >= 2,
    ensures
        seeds.len() > 2 ==> (accepted(catalog_after(empty_catalog(seeds), values), plane, v)
            <==> values.contains(v) && forall|i: int, j: int|
            0 <= i < j < seeds.len() ==> plane.contains(bit_of(v, #[trigger] seeds[i]))
                || plane.contains(bit_of(v, #[trigger] seeds[j]))),
        seeds.len() == 2 ==> (accepted(catalog_after(empty_catalog(seeds), values), plane, v)
            <==> values.contains(v) && (plane.contains(bit_of(v, seeds[0])) || plane.contains(
            bit_of(v, seeds[1]),
        ))),
{
    let c = catalog_after(empty_catalog(seeds), values);
    let at = places_of(v, seeds);
    let places = plane_places(plane);
    let n = seeds.len() as int;
    assert(at.len() == n);
    assert forall|i: int| 0 <= i < n implies has_place(plane, #[trigger] at[i]) == plane.contains(
        bit_of(v, seeds[i]),
    ) by {
        lemma_places(plane, v, seeds[i]);
        assert(at[i] == place_of(v, seeds[i]));
    }
    lemma_unset(at, plane);
    lemma_catalog(seeds, values, v, at[0]);
    assert(needed(c) == if n > 2 { n - 1 } else { 1 });
    if values.contains(v) && matched(at, plane) >= needed(c) {
        assert(matched(at, plane) >= 1);
        let k = choose|k: int| 0 <= k < n && has_place(plane, #[trigger] at[k]);
        lemma_places(plane, v, seeds[k]);
        assert(at[k] == place_of(v, seeds[k]));
        lemma_catalog(seeds, values, v, at[k]);
        assert(at.contains(at[k]));
        assert(places.contains(at[k]));
        let i = choose|i: int| 0 <= i < places.len() && places[i] == at[k];
        assert(candidates_at(c.reverse, places[i]).contains(v));
        lemma_gathered(c.reverse, places, v);
    }
    if values.contains(v) && n > 2 && (forall|i: int, j: int|
        0 <= i < j < n ==> plane.contains(bit_of(v, #[trigger] seeds[i])) || plane.contains(
            bit_of(v, #[trigger] seeds[j]),
        )) {
        assert forall|i: int, j: int| 0 <= i < j < n implies has_place(plane, #[trigger] at[i])
            || has_place(plane, #[trigger] at[j]) by {
            assert(plane.contains(bit_of(v, seeds[i])) || plane.contains(bit_of(v, seeds[j])));
        }
    }
    if accepted(c, plane, v) && n > 2 {
        assert forall|i: int, j: int| 0 <= i < j < n implies plane.contains(
            bit_of(v, #[trigger] seeds[i]),
        ) || plane.contains(bit_of(v, #[trigger] seeds[j])) by {
            assert(has_place(plane, at[i]) || has_place(plane, at[j]));
        }
    }
    if n == 2 {
        assert(has_place(plane, at[0]) == plane.contains(bit_of(v, seeds[0])));
        assert(has_place(plane, at[1]) == plane.contains(bit_of(v, seeds[1])));
    }
}

} // verus!
