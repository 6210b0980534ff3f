//! Materialization across encodings: tables first, counts only for ties.
//!
//! For each bit of each plane the candidates come from the table paired with
//! the plane. A bit with one candidate restores it; a bit with several
//! restores the most frequent one, and among equally frequent ones the
//! lexicographically largest.
use vstd::prelude::*;

use crate::collections::{lists, OrdSet};
use crate::hllset::HLLSet;
use crate::lut::{fiber_at, LutIndex, TokenSet};
use crate::maps::{count_in, OrdMap};
use crate::order::{copy_bytes, Key};
use crate::tf::TfTable;

verus! {

/// A plane and the reverse index of its encoding.
pub struct Encoding<'a> {
    pub hllset: &'a HLLSet,
    pub lut: &'a LutIndex,
}

/// The candidates of a bit across encodings.
pub open spec fn candidates(pairs: Seq<Encoding>, bit: u32) -> Set<Seq<u8>> {
    Set::new(
        |t: Seq<u8>|
            exists|i: int|
                0 <= i < pairs.len() && (#[trigger] pairs[i]).hllset@.contains(bit) && fiber_at(
                    pairs[i].lut@,
                    bit,
                ).contains(t),
    )
}

/// `t` is the candidate that counts and, for equal counts, byte order select.
pub open spec fn is_winner(set: Set<Seq<u8>>, tf: Map<Seq<u8>, u64>, t: Seq<u8>) -> bool {
    &&& set.contains(t)
    &&& forall|u: Seq<u8>|
        #[trigger] set.contains(u) ==> count_in(tf, u) < count_in(tf, t) || (count_in(tf, u)
            == count_in(tf, t) && (u == t || <Vec<u8> as Key>::lt(u, t)))
}

/// The tokens that some encodings restore.
pub open spec fn restored(pairs: Seq<Encoding>, tf: Map<Seq<u8>, u64>) -> Set<Seq<u8>> {
    Set::new(|t: Seq<u8>| exists|b: u32| is_winner(#[trigger] candidates(pairs, b), tf, t))
}

/// The member of a non-empty set that counts and byte order select.
fn winner(set: &TokenSet, tf: &TfTable) -> (r: Option<Vec<u8>>)
    ensures
        r is Some <==> set@ != Set::<Seq<u8>>::empty(),
        r matches Some(t) ==> is_winner(set@, tf@, t@),
{
    let n: usize = set.len();
    if n == 0 {
        assert(set@ =~= Set::empty());
        return None;
    }
    let mut best: usize = 0;
    let mut best_count: u64 = tf.count(set.at(0).as_slice());
    let mut i: usize = 1;
    let ghost s = set.seq();
    while i < n
        invariant
            1 <= i <= n,
            n == s.len(),
            s == set.seq(),
            lists::<Vec<u8>>(s, set@),
            best < i,
            best_count == count_in(tf@, s[best as int]),
            forall|j: int|
                0 <= j < i ==> count_in(tf@, #[trigger] s[j]) < best_count || (count_in(tf@, s[j])
                    == best_count && j <= best),
        decreases n - i,
    {
        let c: u64 = tf.count(set.at(i).as_slice());
        if c >= best_count {
            best = i;
            best_count = c;
        }
        i = i + 1;
    }
    proof {
        assert(s.to_set().contains(s[best as int]));
        assert forall|u: Seq<u8>| #[trigger] set@.contains(u) implies count_in(tf@, u) < count_in(
            tf@,
            s[best as int],
        ) || (count_in(tf@, u) == count_in(tf@, s[best as int]) && (u == s[best as int] || <Vec<
            u8,
        > as Key>::lt(u, s[best as int]))) by {
            assert(s.contains(u));
            let j = choose|j: int| 0 <= j < s.len() && s[j] == u;
            if j < best {
                assert(<Vec<u8> as Key>::lt(s[j], s[best as int]));
            }
        }
        assert(set@ != Set::<Seq<u8>>::empty());
    }
    Some(copy_bytes(set.at(best).as_slice()))
}

/// The candidate sets that a map holds, by bit, empty where there is none.
pub open spec fn held(m: Map<u32, TokenSet>, b: u32) -> Set<Seq<u8>> {
    if m.contains_key(b) {
        m[b]@
    } else {
        Set::empty()
    }
}

/// The candidates of a bit from whole encodings and the first bits of one more.
pub open spec fn partial_candidates(
    pairs: Seq<Encoding>,
    p: int,
    bits: Set<u32>,
    b: u32,
) -> Set<Seq<u8>> {
    let before = candidates(pairs.take(p), b);
    if bits.contains(b) {
        before.union(fiber_at(pairs[p].lut@, b))
    } else {
        before
    }
}

proof fn lemma_candidates_step(pairs: Seq<Encoding>, p: int, b: u32)
    requires
        0 <= p < pairs.len(),
    ensures
        candidates(pairs.take(p + 1), b) == partial_candidates(pairs, p, pairs[p].hllset@, b),
{
    let a = candidates(pairs.take(p + 1), b);
    let c = partial_candidates(pairs, p, pairs[p].hllset@, b);
    let long = pairs.take(p + 1);
    let short = pairs.take(p);
    assert forall|t: Seq<u8>| a.contains(t) == c.contains(t) by {
        if a.contains(t) {
            let i = choose|i: int|
                0 <= i < long.len() && (#[trigger] long[i]).hllset@.contains(b) && fiber_at(
                    long[i].lut@,
                    b,
                ).contains(t);
            if i < p {
                assert(short[i].hllset@.contains(b));
            }
        }
        if candidates(short, b).contains(t) {
            let i = choose|i: int|
                0 <= i < short.len() && (#[trigger] short[i]).hllset@.contains(b) && fiber_at(
                    short[i].lut@,
                    b,
                ).contains(t);
            assert(long[i].hllset@.contains(b));
        }
        if pairs[p].hllset@.contains(b) && fiber_at(pairs[p].lut@, b).contains(t) {
            assert(long[p].hllset@.contains(b));
        }
    }
    assert(a =~= c);
}

/// Materializes several encodings at once.
pub fn materialize(pairs: &[Encoding], tf: &TfTable) -> (r: TokenSet)
    ensures
        r@ == restored(pairs@, tf@),
{
    let mut by_bit: OrdMap<u32, TokenSet> = OrdMap::new();
    let mut p: usize = 0;
    proof {
        assert forall|b: u32| held(by_bit@, b) == candidates(pairs@.take(0), b) by {
            assert(candidates(pairs@.take(0), b) =~= Set::empty());
        }
    }
    while p < pairs.len()
        invariant
            p <= pairs@.len(),
            forall|b: u32|
                #![trigger held(by_bit@, b)]
                held(by_bit@, b) == candidates(pairs@.take(p as int), b),
        decreases pairs@.len() - p,
    {
        let bits = pairs[p].hllset.bitmap();
        let lut = pairs[p].lut;
        let mut i: usize = 0;
        proof {
            assert forall|b: u32| #![trigger held(by_bit@, b)]
                held(by_bit@, b) == partial_candidates(
                pairs@,
                p as int,
                bits@.take(0).to_set(),
                b,
            ) by {
                assert(!bits@.take(0).to_set().contains(b));
            }
        }
        while i < bits.len()
            invariant
                i <= bits@.len(),
                p < pairs@.len(),
                lut == pairs@[p as int].lut,
                forall|b: u32|
                    #![trigger held(by_bit@, b)]
                    held(by_bit@, b) == partial_candidates(
                        pairs@,
                        p as int,
                        bits@.take(i as int).to_set(),
                        b,
                    ),
            decreases bits@.len() - i,
        {
            let bit: u32 = bits[i];
            let ghost before = by_bit@;
            let mut set: TokenSet = match by_bit.remove(&bit) {
                Some(s) => s,
                None => OrdSet::new(),
            };
            proof {
                assert(set@ == held(before, bit));
            }
            set.absorb(&lut.fiber(bit));
            by_bit.insert(bit, set);
            proof {
                crate::collections::lemma_take_step(bits@, i as int);
                assert forall|b: u32| #![trigger held(by_bit@, b)]
                    held(by_bit@, b) == partial_candidates(
                    pairs@,
                    p as int,
                    bits@.take(i + 1).to_set(),
                    b,
                ) by {
                    assert(held(before, b) == partial_candidates(
                        pairs@,
                        p as int,
                        bits@.take(i as int).to_set(),
                        b,
                    ));
                    if b == bit {
                        let f = fiber_at(lut@, bit);
                        assert(held(before, b).union(f) =~= candidates(
                            pairs@.take(p as int),
                            b,
                        ).union(f));
                    }
                }
            }
            i = i + 1;
        }
        proof {
            assert(bits@.take(i as int) =~= bits@);
            assert forall|b: u32| #![trigger held(by_bit@, b)]
                held(by_bit@, b) == candidates(pairs@.take(p + 1), b) by {
                lemma_candidates_step(pairs@, p as int, b);
            }
        }
        p = p + 1;
    }
    proof {
        assert(pairs@.take(p as int) =~= pairs@);
    }
    let n: usize = by_bit.len();
    let mut out: TokenSet = OrdSet::new();
    let mut k: usize = 0;
    let ghost keys = by_bit.keys();
    proof {
        assert(out@ =~= winners(by_bit@, tf@, keys.take(0).to_set()));
    }
    while k < n
        invariant
            k <= n,
            n == keys.len(),
            keys == by_bit.keys(),
            by_bit.listed(),
            out@ == winners(by_bit@, tf@, keys.take(k as int).to_set()),
        decreases n - k,
    {
        proof {
            crate::collections::lemma_take_step(keys, k as int);
            lemma_winners_step(by_bit@, tf@, keys.take(k as int).to_set(), keys[k as int]);
        }
        let ghost bit = keys[k as int];
        match winner(by_bit.val_at(k), tf) {
            Some(t) => {
                let ghost tv = t@;
                proof {
                    lemma_winner_unique(held(by_bit@, bit), tf@, tv);
                }
                out.insert(t);
                proof {
                    assert(out@ =~= winners(by_bit@, tf@, keys.take(k + 1).to_set()));
                }
            },
            None => {
                proof {
                    assert(out@ =~= winners(by_bit@, tf@, keys.take(k + 1).to_set()));
                }
            },
        }
        k = k + 1;
    }
    proof {
        assert(keys.take(n as int) =~= keys);
        assert forall|t: Seq<u8>| out@.contains(t) == restored(pairs@, tf@).contains(t) by {
            if out@.contains(t) {
                let b = choose|b: u32|
                    keys.to_set().contains(b) && is_winner(#[trigger] held(by_bit@, b), tf@, t);
                assert(held(by_bit@, b) == candidates(pairs@, b));
                assert(is_winner(candidates(pairs@, b), tf@, t));
            }
            if restored(pairs@, tf@).contains(t) {
                let b = choose|b: u32| is_winner(#[trigger] candidates(pairs@, b), tf@, t);
                assert(held(by_bit@, b) == candidates(pairs@, b));
                assert(by_bit@.contains_key(b));
                assert(keys.to_set().contains(b));
                assert(is_winner(held(by_bit@, b), tf@, t));
            }
        }
        assert(out@ =~= restored(pairs@, tf@));
    }
    out
}

/// The winners at some bits of a candidate map.
pub open spec fn winners(
    m: Map<u32, TokenSet>,
    tf: Map<Seq<u8>, u64>,
    bits: Set<u32>,
) -> Set<Seq<u8>> {
    Set::new(
        |t: Seq<u8>| exists|b: u32| bits.contains(b) && is_winner(#[trigger] held(m, b), tf, t),
    )
}

proof fn lemma_winners_step(
    m: Map<u32, TokenSet>,
    tf: Map<Seq<u8>, u64>,
    bits: Set<u32>,
    bit: u32,
)
    ensures
        forall|t: Seq<u8>| #[trigger]
            winners(m, tf, bits.insert(bit)).contains(t) == (winners(m, tf, bits).contains(t)
                || is_winner(held(m, bit), tf, t)),
{
    assert forall|t: Seq<u8>| #[trigger]
        winners(m, tf, bits.insert(bit)).contains(t) == (winners(m, tf, bits).contains(t)
            || is_winner(held(m, bit), tf, t)) by {
        if winners(m, tf, bits.insert(bit)).contains(t) {
            let b = choose|b: u32|
                bits.insert(bit).contains(b) && is_winner(#[trigger] held(m, b), tf, t);
            if b != bit {
                assert(bits.contains(b) && is_winner(held(m, b), tf, t));
            }
        }
        if winners(m, tf, bits).contains(t) {
            let b = choose|b: u32| bits.contains(b) && is_winner(#[trigger] held(m, b), tf, t);
            assert(bits.insert(bit).contains(b) && is_winner(held(m, b), tf, t));
        }
        if is_winner(held(m, bit), tf, t) {
            assert(bits.insert(bit).contains(bit) && is_winner(held(m, bit), tf, t));
        }
    }
}

/// A set has one winner.
pub proof fn lemma_winner_unique(set: Set<Seq<u8>>, tf: Map<Seq<u8>, u64>, t: Seq<u8>)
    requires
        is_winner(set, tf, t),
    ensures
        forall|u: Seq<u8>| is_winner(set, tf, u) ==> u == t,
{
    assert forall|u: Seq<u8>| is_winner(set, tf, u) implies u == t by {
        assert(set.contains(u));
        assert(set.contains(t));
        if u != t {
            <Vec<u8> as Key>::lt_transitive(u, t, u);
            <Vec<u8> as Key>::lt_irreflexive(u);
        }
    }
}

/// Counts are consulted only for ties: a bit with one candidate restores it
/// whatever the counts, and nothing outside the tables is ever restored.
pub proof fn tables_come_first(
    pairs: Seq<Encoding>,
    tf: Map<Seq<u8>, u64>,
    bit: u32,
    t: Seq<u8>,
)
    ensures
        candidates(pairs, bit) == set![t] ==> restored(pairs, tf).contains(t),
        restored(pairs, tf).contains(t) ==> exists|b: u32| #[trigger]
            candidates(pairs, b).contains(t),
{
    if candidates(pairs, bit) == set![t] {
        assert(is_winner(candidates(pairs, bit), tf, t));
    }
    if restored(pairs, tf).contains(t) {
        let b = choose|b: u32| is_winner(#[trigger] candidates(pairs, b), tf, t);
        assert(candidates(pairs, b).contains(t));
    }
}

/// Every bit with candidates restores one of them: the one that counts most
/// and, of those that count as much, the last in byte order.
pub proof fn the_most_frequent_candidate_wins(
    set: Set<Seq<u8>>,
    tf: Map<Seq<u8>, u64>,
    t: Seq<u8>,
    u: Seq<u8>,
)
    requires
        set.finite(),
        set.contains(t),
        set.contains(u),
    ensures
        exists|w: Seq<u8>| set.contains(w) && #[trigger] is_winner(set, tf, w),
        is_winner(set, tf, t) ==> count_in(tf, t) >= count_in(tf, u),
        is_winner(set, tf, t) && count_in(tf, t) == count_in(tf, u) && t != u ==> <Vec<
            u8,
        > as Key>::lt(u, t),
{
    lemma_winner_exists(set, tf);
}

proof fn lemma_winner_exists(set: Set<Seq<u8>>, tf: Map<Seq<u8>, u64>)
    requires
        set.finite(),
        set.len() > 0,
    ensures
        exists|w: Seq<u8>| #[trigger] is_winner(set, tf, w),
    decreases set.len(),
{
    let x = set.choose();
    let rest = set.remove(x);
    if rest.len() == 0 {
        assert forall|u: Seq<u8>| #[trigger] set.contains(u) implies u == x by {
            if u != x {
                assert(rest.contains(u));
            }
        }
        assert(is_winner(set, tf, x));
    } else {
        lemma_winner_exists(rest, tf);
        let w = choose|w: Seq<u8>| #[trigger] is_winner(rest, tf, w);
        <Vec<u8> as Key>::lt_total(x, w);
        let x_wins = count_in(tf, w) < count_in(tf, x) || (count_in(tf, w) == count_in(tf, x) && <
        Vec<u8> as Key>::lt(w, x));
        let best = if x_wins {
            x
        } else {
            w
        };
        assert forall|u: Seq<u8>| #[trigger] set.contains(u) implies count_in(tf, u) < count_in(
            tf,
            best,
        ) || (count_in(tf, u) == count_in(tf, best) && (u == best || <Vec<u8> as Key>::lt(
            u,
            best,
        ))) by {
            if u != x {
                assert(rest.contains(u));
                if x_wins && u != w && count_in(tf, u) == count_in(tf, x) {
                    <Vec<u8> as Key>::lt_transitive(u, w, x);
                }
            }
        }
        assert(is_winner(set, tf, best));
    }
}

} // verus!
