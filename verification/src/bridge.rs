//! The bridge: re-representing a plane in another bit space, and structural
//! fingerprints from token triples.
use vstd::prelude::*;
use vstd::string::*;

use crate::collections::{lemma_listing, listing, lists};
use crate::correlation::{
    is_correlation, is_stronger, lemma_small_moments, lemma_stronger_chains, small_moments,
    spearman_rank_correlation, stronger, Correlation,
};
use crate::exchange::layer_plane;
use crate::hashing::bit_of;
use crate::hllset::{token_bits, HLLSet};
use crate::maps::OrdMap;
use crate::ngrams::{generate_ngrams, windows};
use crate::order::{views, Key};
use crate::text::{ascii, decimal, decimal_text, digits};

verus! {

/// The token `reg:{r}:tz:{z}` of a bit, in bytes.
pub open spec fn position_token(bit: u32) -> Seq<u8> {
    seq![114u8, 101, 103, 58] + digits((bit / 32) as nat) + seq![58u8, 116, 122, 58] + digits(
        (bit % 32) as nat,
    )
}

/// The token `{r}:{z}` of a bit, in bytes.
pub open spec fn short_token(bit: u32) -> Seq<u8> {
    digits((bit / 32) as nat).push(58u8) + digits((bit % 32) as nat)
}

/// The plane of the position tokens of a plane's bits.
pub open spec fn re_represented(plane: Set<u32>) -> Set<u32> {
    token_bits(listing::<u32>(plane).map_values(|b: u32| position_token(b)), 0)
}

/// The fingerprint of a plane: of its re-represented bits in ascending order,
/// taken as a token sequence.
pub open spec fn plane_fingerprint(plane: Set<u32>) -> Set<u32> {
    triple_plane(listing::<u32>(re_represented(plane)).map_values(|b: u32| short_token(b)))
}

/// The plane of the padded triples of some tokens.
pub open spec fn triple_plane(tokens: Seq<Seq<u8>>) -> Set<u32> {
    token_bits(windows(tokens, 3, true), 0)
}

/// Re-represents a plane: each set bit becomes a token, and the tokens are
/// hashed into a new plane.
pub fn re_represent(src: &HLLSet) -> (r: HLLSet)
    ensures
        r@ == re_represented(src@),
{
    let bits = src.bitmap();
    let mut tokens: Vec<Vec<u8>> = Vec::new();
    let mut i: usize = 0;
    while i < bits.len()
        invariant
            i <= bits@.len(),
            tokens@.len() == i,
            forall|j: int| 0 <= j < i ==> (#[trigger] tokens@[j])@ == position_token(bits@[j]),
        decreases bits@.len() - i,
    {
        let b: u32 = bits[i];
        let mut t: Vec<u8> = Vec::new();
        t.push(114);
        t.push(101);
        t.push(103);
        t.push(58);
        let mut d = decimal((b / 32) as u64);
        t.append(&mut d);
        t.push(58);
        t.push(116);
        t.push(122);
        t.push(58);
        let mut e = decimal((b % 32) as u64);
        t.append(&mut e);
        proof {
            assert(t@ =~= position_token(b));
        }
        tokens.push(t);
        i = i + 1;
    }
    proof {
        lemma_listing::<u32>(bits@, src@);
        assert(views(tokens@) =~= bits@.map_values(|b: u32| position_token(b)));
    }
    HLLSet::from_tokens(tokens.as_slice())
}

/// The structural fingerprint of a token sequence: the plane of its padded
/// triples.
pub fn extract_3gram(tokens: &[Vec<u8>]) -> (r: HLLSet)
    ensures
        r@ == triple_plane(views(tokens@)),
{
    let grams = generate_ngrams(tokens, 3, true);
    HLLSet::from_tokens(grams.as_slice())
}

/// The structural fingerprint of a plane: of its re-represented bits, taken
/// as a token sequence.
pub fn extract_3gram_from_hllset(hllset: &HLLSet) -> (r: HLLSet)
    ensures
        r@ == plane_fingerprint(hllset@),
{
    let again = re_represent(hllset);
    let bits = again.bitmap();
    let mut tokens: Vec<Vec<u8>> = Vec::new();
    let mut i: usize = 0;
    while i < bits.len()
        invariant
            i <= bits@.len(),
            tokens@.len() == i,
            forall|j: int| 0 <= j < i ==> (#[trigger] tokens@[j])@ == short_token(bits@[j]),
        decreases bits@.len() - i,
    {
        let b: u32 = bits[i];
        let mut t = decimal((b / 32) as u64);
        t.push(58);
        let mut e = decimal((b % 32) as u64);
        t.append(&mut e);
        proof {
            assert(t@ =~= short_token(b));
        }
        tokens.push(t);
        i = i + 1;
    }
    proof {
        lemma_listing::<u32>(bits@, again@);
        assert(views(tokens@) =~= bits@.map_values(|b: u32| short_token(b)));
    }
    extract_3gram(tokens.as_slice())
}

/// The number of set bits of a plane in a register.
pub open spec fn register_count(plane: Set<u32>, reg: int) -> nat {
    plane.filter(|b: u32| b / 32 == reg).len()
}

/// The number of set bits of each register.
pub fn register_popcount_vector(hllset: &HLLSet) -> (r: Vec<u64>)
    ensures
        r@.len() == 1024,
        forall|i: int| 0 <= i < 1024 ==> #[trigger] r@[i] == register_count(hllset@, i),
{
    let bits = hllset.bitmap();
    let mut r: Vec<u64> = Vec::new();
    let mut i: usize = 0;
    let mut reg: u32 = 0;
    let ghost all = bits@;
    while reg < 1024
        invariant
            reg <= 1024,
            all == bits@,
            lists::<u32>(all, hllset@),
            i <= all.len(),
            all.len() <= 32768,
            forall|k: int| 0 <= k < i ==> #[trigger] all[k] < 32 * reg,
            forall|k: int| i <= k < all.len() ==> #[trigger] all[k] >= 32 * reg,
            r@.len() == reg,
            forall|k: int| 0 <= k < reg ==> #[trigger] r@[k] == register_count(hllset@, k),
        decreases 1024 - reg,
    {
        let start: usize = i;
        while i < bits.len() && bits[i] / 32 == reg
            invariant
                start <= i <= all.len(),
                all == bits@,
                forall|k: int| start <= k < i ==> (#[trigger] all[k]) / 32 == reg,
            decreases all.len() - i,
        {
            i = i + 1;
        }
        let count: u64 = (i - start) as u64;
        proof {
            let part = all.subrange(start as int, i as int);
            let f = |b: u32| b / 32 == reg;
            assert(part.to_set() =~= hllset@.filter(f)) by {
                assert forall|b: u32| part.to_set().contains(b) == hllset@.filter(f).contains(
                    b,
                ) by {
                    if part.contains(b) {
                        let k = choose|k: int| 0 <= k < part.len() && part[k] == b;
                        assert(all[start + k] == b);
                        assert(all.to_set().contains(b));
                    }
                    if hllset@.contains(b) && b / 32 == reg {
                        assert(all.to_set().contains(b));
                        let k = choose|k: int| 0 <= k < all.len() && all[k] == b;
                        assert(k >= start);
                        if k >= i {
                            if i < all.len() {
                                if k > i {
                                    assert(all[i as int] < all[k]);
                                }
                                assert(all[i as int] / 32 != reg);
                                assert(all[i as int] >= 32 * reg);
                            }
                        }
                        assert(part[k - start] == b);
                    }
                }
            }
            crate::collections::lemma_ascending_distinct::<u32>(all);
            assert(part.no_duplicates()) by {
                assert forall|x: int, y: int|
                    0 <= x < part.len() && 0 <= y < part.len() && x != y implies part[x]
                    != part[y] by {
                    assert(all[start + x] != all[start + y]);
                }
            }
            part.unique_seq_to_set();
            assert forall|k: int| i <= k < all.len() implies #[trigger] all[k] >= 32 * (reg
                + 1) by {
                if k > i {
                    assert(all[i as int] < all[k]);
                }
                assert(all[i as int] / 32 != reg);
                assert(all[i as int] >= 32 * reg);
            }
        }
        r.push(count);
        reg = reg + 1;
    }
    r
}

/// How many values exceed a value.
pub open spec fn greater(values: Seq<u64>, v: u64) -> nat
    decreases values.len(),
{
    if values.len() == 0 {
        0
    } else {
        greater(values.drop_last(), v) + if values.last() > v {
            1nat
        } else {
            0nat
        }
    }
}

/// How many values equal a value.
pub open spec fn equal(values: Seq<u64>, v: u64) -> nat
    decreases values.len(),
{
    if values.len() == 0 {
        0
    } else {
        equal(values.drop_last(), v) + if values.last() == v {
            1nat
        } else {
            0nat
        }
    }
}

/// Twice the rank of each value, the highest value having rank one and equal
/// values sharing the average of their ranks.
pub fn doubled_ranks(values: &[u64]) -> (r: Vec<u64>)
    requires
        2 * values@.len() + 1 <= u64::MAX,
    ensures
        r@.len() == values@.len(),
        forall|i: int|
            0 <= i < r@.len() ==> #[trigger] r@[i] == 2 * greater(values@, values@[i]) + equal(
                values@,
                values@[i],
            ) + 1,
{
    let mut r: Vec<u64> = Vec::new();
    let mut i: usize = 0;
    while i < values.len()
        invariant
            i <= values@.len(),
            2 * values@.len() + 1 <= u64::MAX,
            r@.len() == i,
            forall|k: int|
                0 <= k < i ==> #[trigger] r@[k] == 2 * greater(values@, values@[k]) + equal(
                    values@,
                    values@[k],
                ) + 1,
        decreases values@.len() - i,
    {
        let v: u64 = values[i];
        let mut above: u64 = 0;
        let mut same: u64 = 0;
        let mut j: usize = 0;
        while j < values.len()
            invariant
                j <= values@.len(),
                2 * values@.len() + 1 <= u64::MAX,
                above + same <= j,
                above == greater(values@.take(j as int), v),
                same == equal(values@.take(j as int), v),
            decreases values@.len() - j,
        {
            proof {
                assert(values@.take(j + 1).drop_last() =~= values@.take(j as int));
            }
            if values[j] > v {
                above = above + 1;
            } else if values[j] == v {
                same = same + 1;
            }
            j = j + 1;
        }
        proof {
            assert(values@.take(j as int) =~= values@);
        }
        r.push(2 * above + same + 1);
        i = i + 1;
    }
    r
}

/// The fingerprint of a token sequence is the third layer of an exchange of
/// the same tokens.
pub proof fn fingerprint_is_the_third_layer(tokens: Seq<Seq<u8>>)
    ensures
        triple_plane(tokens) == layer_plane(tokens, 3),
{
}

/// The number of set bits of each register of a plane.
pub open spec fn register_counts(plane: Set<u32>) -> Seq<u64> {
    Seq::new(1024, |i: int| register_count(plane, i) as u64)
}

/// A candidate's correlation with a bridged plane: of the register counts of
/// their fingerprints.
pub open spec fn matches_with(c: Correlation, bridge: Set<u32>, candidate: Set<u32>) -> bool {
    is_correlation(
        c,
        register_counts(plane_fingerprint(bridge)),
        register_counts(plane_fingerprint(candidate)),
    )
}

/// What bridging a plane gives.
pub struct BridgeResult {
    /// The plane in the target's bit space.
    pub bridge: HLLSet,
    /// The fingerprint of the source.
    pub src_3gram: HLLSet,
    /// The fingerprint of the bridge.
    pub bridge_3gram: HLLSet,
    /// The best candidates, with their correlations.
    pub matches: Vec<(String, Correlation)>,
}

/// One match comes before another: by a higher coefficient, then by a smaller
/// key.
pub open spec fn match_before(a: (Seq<char>, Correlation), b: (Seq<char>, Correlation)) -> bool {
    stronger(a.1, b.1) || (!stronger(b.1, a.1) && <String as Key>::lt(a.0, b.0))
}

/// A match as a pair of its key and its correlation.
pub open spec fn match_of(m: (String, Correlation)) -> (Seq<char>, Correlation) {
    (m.0@, m.1)
}

/// Matches in order.
pub open spec fn in_match_order(v: Seq<(String, Correlation)>) -> bool {
    forall|i: int, j: int|
        0 <= i < j < v.len() ==> match_before(#[trigger] match_of(v[i]), #[trigger] match_of(v[j]))
}

/// Matches that name a key.
pub open spec fn has_match(v: Seq<(String, Correlation)>, key: Seq<char>) -> bool {
    exists|j: int| 0 <= j < v.len() && (#[trigger] v[j]).0@ == key
}

/// Matches are the best of the candidates: as many as are wanted, in order,
/// each with its correlation, and before every candidate that is left out.
pub open spec fn are_best_matches(
    v: Seq<(String, Correlation)>,
    bridge: Set<u32>,
    candidates: Map<Seq<char>, HLLSet>,
    top_k: nat,
) -> bool {
    &&& v.len() == if top_k <= candidates.dom().len() {
        top_k
    } else {
        candidates.dom().len()
    }
    &&& forall|i: int|
        0 <= i < v.len() ==> candidates.contains_key((#[trigger] v[i]).0@) && matches_with(
            v[i].1,
            bridge,
            candidates[v[i].0@]@,
        )
    &&& in_match_order(v)
    &&& forall|key: Seq<char>, c: Correlation, i: int|
        candidates.contains_key(key) && #[trigger] matches_with(c, bridge, candidates[key]@) && 0
            <= i < v.len() && !has_match(v, key) ==> match_before(
            #[trigger] match_of(v[i]),
            (key, c),
        )
}

fn register_profile(hllset: &HLLSet) -> (r: Vec<u64>)
    ensures
        r@ == register_counts(plane_fingerprint(hllset@)),
{
    let print = extract_3gram_from_hllset(hllset);
    let r = register_popcount_vector(&print);
    proof {
        assert(r@ =~= register_counts(print@));
    }
    r
}

/// Where a match goes among ordered matches with smaller keys.
fn match_place(v: &Vec<(String, Correlation)>, c: &Correlation) -> (r: usize)
    requires
        in_match_order(v@),
        small_moments(*c),
        forall|i: int| 0 <= i < v@.len() ==> small_moments((#[trigger] v@[i]).1),
    ensures
        r <= v@.len(),
        forall|i: int| 0 <= i < r ==> !stronger(*c, (#[trigger] v@[i]).1),
        forall|i: int| r <= i < v@.len() ==> stronger(*c, (#[trigger] v@[i]).1),
{
    let mut i: usize = 0;
    while i < v.len() && !is_stronger(c, &v[i].1)
        invariant
            i <= v@.len(),
            small_moments(*c),
            forall|k: int| 0 <= k < v@.len() ==> small_moments((#[trigger] v@[k]).1),
            forall|k: int| 0 <= k < i ==> !stronger(*c, (#[trigger] v@[k]).1),
        decreases v@.len() - i,
    {
        i = i + 1;
    }
    proof {
        assert forall|k: int| i <= k < v@.len() implies stronger(*c, (#[trigger] v@[k]).1) by {
            if k > i {
                assert(match_before(match_of(v@[i as int]), match_of(v@[k])));
                lemma_not_both(*c, v@[i as int].1);
                lemma_not_both(v@[i as int].1, v@[k].1);
                lemma_stronger_chains(*c, v@[i as int].1, v@[k].1);
            }
        }
    }
    i
}

proof fn lemma_not_both(c: Correlation, d: Correlation)
    ensures
        stronger(c, d) ==> !stronger(d, c),
{
}

/// Inserting a match with the largest key so far keeps the order.
proof fn lemma_insert_match(v: Seq<(String, Correlation)>, at: int, m: (String, Correlation))
    requires
        in_match_order(v),
        0 <= at <= v.len(),
        forall|i: int| 0 <= i < at ==> !stronger(m.1, (#[trigger] v[i]).1),
        forall|i: int| at <= i < v.len() ==> stronger(m.1, (#[trigger] v[i]).1),
        forall|i: int| 0 <= i < v.len() ==> <String as Key>::lt((#[trigger] v[i]).0@, m.0@),
    ensures
        in_match_order(v.insert(at, m)),
{
    let w = v.insert(at, m);
    assert forall|i: int, j: int| 0 <= i < j < w.len() implies match_before(
        #[trigger] match_of(w[i]),
        #[trigger] match_of(w[j]),
    ) by {
        let x = if i < at {
            i
        } else {
            i - 1
        };
        let y = if j < at {
            j
        } else {
            j - 1
        };
        if i == at {
            assert(w[j] == v[y]);
            assert(stronger(m.1, v[y].1));
        } else if j == at {
            assert(w[i] == v[x]);
            assert(!stronger(m.1, v[x].1));
            assert(<String as Key>::lt(v[x].0@, m.0@));
        } else {
            assert(w[i] == v[x] && w[j] == v[y]);
            assert(match_before(match_of(v[x]), match_of(v[y])));
        }
    }
}

/// Bridges a plane into a target's candidates: re-represents it, and ranks
/// the candidates by how their fingerprints correlate with the bridge's.
pub fn bridge(src: &HLLSet, candidates: &OrdMap<String, HLLSet>, top_k: usize) -> (r: BridgeResult)
    ensures
        r.bridge@ == re_represented(src@),
        r.src_3gram@ == plane_fingerprint(src@),
        r.bridge_3gram@ == plane_fingerprint(re_represented(src@)),
        are_best_matches(r.matches@, r.bridge@, candidates@, top_k as nat),
{
    let bridged = re_represent(src);
    let src_3gram = extract_3gram_from_hllset(src);
    let bridge_3gram = extract_3gram_from_hllset(&bridged);
    let profile = register_profile(&bridged);
    let n: usize = candidates.len();
    let ghost keys = candidates.keys();
    let ghost target = candidates@;
    let mut all: Vec<(String, Correlation)> = Vec::new();
    let mut i: usize = 0;
    while i < n
        invariant
            i <= n,
            n == keys.len(),
            keys == candidates.keys(),
            candidates.listed(),
            target == candidates@,
            profile@ == register_counts(plane_fingerprint(bridged@)),
            all@.len() == i,
            in_match_order(all@),
            forall|k: int| 0 <= k < all@.len() ==> small_moments((#[trigger] all@[k]).1),
            forall|k: int|
                0 <= k < all@.len() ==> target.contains_key((#[trigger] all@[k]).0@)
                    && matches_with(all@[k].1, bridged@, target[all@[k].0@]@),
            forall|k: int|
                0 <= k < all@.len() ==> keys.take(i as int).contains((#[trigger] all@[k]).0@),
            forall|k: int| 0 <= k < i ==> has_match(all@, #[trigger] keys[k]),
        decreases n - i,
    {
        let key = candidates.key_at(i).clone();
        let other = register_profile(candidates.val_at(i));
        proof {
            assert(crate::correlation::shared_length(profile@, other@) == 1024);
            assert(crate::correlation::moments_fit(1024));
        }
        let c = spearman_rank_correlation(profile.as_slice(), other.as_slice());
        let ghost before = all@;
        proof {
            lemma_small_moments(c, profile@, other@);
        }
        let at: usize = match_place(&all, &c);
        let ghost m = (key, c);
        proof {
            assert forall|k: int| 0 <= k < before.len() implies <String as Key>::lt(
                (#[trigger] before[k]).0@,
                key@,
            ) by {
                assert(keys.take(i as int).contains(before[k].0@));
                let q = choose|q: int|
                    0 <= q < keys.take(i as int).len() && keys.take(i as int)[q] == before[k].0@;
                assert(keys[q] == before[k].0@);
                assert(<String as Key>::lt(keys[q], keys[i as int]));
            }
            lemma_insert_match(before, at as int, m);
        }
        all.insert(at, (key, c));
        proof {
            assert(all@ == before.insert(at as int, m));
            assert forall|k: int| 0 <= k < all@.len() implies keys.take(i + 1).contains(
                (#[trigger] all@[k]).0@,
            ) && target.contains_key(all@[k].0@) && matches_with(
                all@[k].1,
                bridged@,
                target[all@[k].0@]@,
            ) && small_moments(all@[k].1) by {
                if k == at {
                    assert(keys.take(i + 1)[i as int] == key@);
                } else {
                    let x = if k < at {
                        k
                    } else {
                        k - 1
                    };
                    assert(all@[k] == before[x]);
                    let q = choose|q: int|
                        0 <= q < keys.take(i as int).len() && keys.take(i as int)[q]
                            == before[x].0@;
                    assert(keys.take(i + 1)[q] == before[x].0@);
                }
            }
            assert forall|k: int| 0 <= k < i + 1 implies has_match(all@, #[trigger] keys[k]) by {
                if k == i {
                    assert(all@[at as int].0@ == keys[k]);
                } else {
                    assert(has_match(before, keys[k]));
                    let j = choose|j: int|
                        0 <= j < before.len() && (#[trigger] before[j]).0@ == keys[k];
                    let y = if j < at {
                        j
                    } else {
                        j + 1
                    };
                    assert(all@[y] == before[j]);
                }
            }
        }
        i = i + 1;
    }
    let ghost full = all@;
    proof {
        assert forall|key: Seq<char>| #[trigger] target.contains_key(key) implies keys.contains(
            key,
        ) by {
            assert(keys.to_set().contains(key));
        }
    }
    if top_k < all.len() {
        all.truncate(top_k);
    }
    proof {
        lemma_best_of(full, all@, bridged@, target, keys, top_k as nat);
    }
    BridgeResult { bridge: bridged, src_3gram, bridge_3gram, matches: all }
}

proof fn lemma_best_of(
    full: Seq<(String, Correlation)>,
    v: Seq<(String, Correlation)>,
    bridge: Set<u32>,
    target: Map<Seq<char>, HLLSet>,
    keys: Seq<Seq<char>>,
    top_k: nat,
)
    requires
        in_match_order(full),
        full.len() == target.dom().len(),
        v == if top_k < full.len() {
            full.take(top_k as int)
        } else {
            full
        },
        forall|k: int|
            0 <= k < full.len() ==> target.contains_key((#[trigger] full[k]).0@) && matches_with(
                full[k].1,
                bridge,
                target[full[k].0@]@,
            ),
        forall|key: Seq<char>| #[trigger] target.contains_key(key) ==> keys.contains(key),
        forall|k: int| 0 <= k < keys.len() ==> has_match(full, #[trigger] keys[k]),
    ensures
        are_best_matches(v, bridge, target, top_k),
{
    assert forall|i: int| 0 <= i < v.len() implies #[trigger] v[i] == full[i] by {}
    assert forall|i: int, j: int| 0 <= i < j < v.len() implies match_before(
        #[trigger] match_of(v[i]),
        #[trigger] match_of(v[j]),
    ) by {
        assert(match_before(match_of(full[i]), match_of(full[j])));
    }
    assert forall|key: Seq<char>, c: Correlation, i: int|
        target.contains_key(key) && #[trigger] matches_with(c, bridge, target[key]@) && 0 <= i
            < v.len() && !has_match(v, key) implies match_before(
        #[trigger] match_of(v[i]),
        (key, c),
    ) by {
        assert(keys.contains(key));
        let k = choose|k: int| 0 <= k < keys.len() && keys[k] == key;
        assert(has_match(full, keys[k]));
        let j = choose|j: int| 0 <= j < full.len() && (#[trigger] full[j]).0@ == keys[k];
        if j < v.len() {
            assert(v[j].0@ == key);
        }
        assert(match_before(match_of(full[i]), match_of(full[j])));
        assert(matches_with(full[j].1, bridge, target[key]@));
        lemma_one_correlation(
            c,
            full[j].1,
            register_counts(plane_fingerprint(bridge)),
            register_counts(plane_fingerprint(target[key]@)),
        );
    }
}

proof fn lemma_one_correlation(c: Correlation, d: Correlation, a: Seq<u64>, b: Seq<u64>)
    requires
        is_correlation(c, a, b),
        is_correlation(d, a, b),
    ensures
        c == d,
{
}

/// The position token of a bit names its register and its height, and so does
/// the short one.
pub proof fn position_tokens_name_register_and_height(reg: u32, tz: u32)
    requires
        reg < 1024,
        tz < 32,
    ensures
        ascii(position_token((reg * 32 + tz) as u32)) == "reg:"@ + decimal_text(reg as nat)
            + ":tz:"@ + decimal_text(tz as nat),
        ascii(short_token((reg * 32 + tz) as u32)) == decimal_text(reg as nat) + ":"@
            + decimal_text(tz as nat),
{
    reveal_strlit("reg:");
    reveal_strlit(":tz:");
    reveal_strlit(":");
    let b = (reg * 32 + tz) as u32;
    assert(b / 32 == reg && b % 32 == tz);
    assert(ascii(position_token(b)) =~= "reg:"@ + decimal_text(reg as nat) + ":tz:"@
        + decimal_text(tz as nat));
    assert(ascii(short_token(b)) =~= decimal_text(reg as nat) + ":"@ + decimal_text(tz as nat));
}

/// A bit counts once, in its own register.
pub proof fn a_bit_counts_in_its_register(plane: Set<u32>, b: u32, reg: int)
    requires
        plane.finite(),
        !plane.contains(b),
    ensures
        register_count(plane.insert(b), reg) == register_count(plane, reg) + if reg == b / 32 {
            1int
        } else {
            0
        },
        register_count(Set::empty(), reg) == 0,
{
    let f = |x: u32| x / 32 == reg;
    assert(Set::<u32>::empty().filter(f) =~= Set::empty());
    if reg == b / 32 {
        assert(plane.insert(b).filter(f) =~= plane.filter(f).insert(b));
    } else {
        assert(plane.insert(b).filter(f) =~= plane.filter(f));
    }
}

/// Re-representing a plane sets, for each of its bits, the bit that its
/// position token hashes to, and nothing else.
pub proof fn bits_become_the_bits_of_their_tokens(plane: Set<u32>, x: u32)
    requires
        plane.finite(),
    ensures
        re_represented(plane).contains(x) <==> exists|b: u32|
            plane.contains(b) && x == #[trigger] bit_of(position_token(b), 0),
{
    let all = listing::<u32>(plane);
    let tokens = all.map_values(|b: u32| position_token(b));
    crate::collections::lemma_listing_exists::<u32>(plane);
    if re_represented(plane).contains(x) {
        let j = choose|j: int| 0 <= j < tokens.len() && x == bit_of(#[trigger] tokens[j], 0);
        assert(all.to_set().contains(all[j]));
        assert(x == bit_of(position_token(all[j]), 0));
    }
    if exists|b: u32| plane.contains(b) && x == #[trigger] bit_of(position_token(b), 0) {
        let b = choose|b: u32| plane.contains(b) && x == #[trigger] bit_of(position_token(b), 0);
        assert(all.to_set().contains(b));
        let j = choose|j: int| 0 <= j < all.len() && all[j] == b;
        assert(tokens[j] == position_token(b));
    }
}

/// A fingerprint is taken of the re-represented plane: planes with the same
/// re-representation have the same fingerprint, whose bits are those of the
/// padded triples of its short tokens in ascending order.
pub proof fn fingerprints_are_of_triples(plane: Set<u32>, again: Set<u32>)
    ensures
        re_represented(plane) == re_represented(again) ==> plane_fingerprint(plane)
            == plane_fingerprint(again),
        plane_fingerprint(plane) == layer_plane(
            listing::<u32>(re_represented(plane)).map_values(|b: u32| short_token(b)),
            3,
        ),
{
    fingerprint_is_the_third_layer(
        listing::<u32>(re_represented(plane)).map_values(|b: u32| short_token(b)),
    );
}

/// Matches come with the highest coefficient first, and of equal ones the
/// smaller key; no candidate that is left out has a higher coefficient than
/// one that is kept.
pub proof fn stronger_matches_come_first(
    v: Seq<(String, Correlation)>,
    bridge: Set<u32>,
    candidates: Map<Seq<char>, HLLSet>,
    top_k: nat,
    i: int,
    j: int,
    key: Seq<char>,
    c: Correlation,
)
    requires
        are_best_matches(v, bridge, candidates, top_k),
        0 <= i < j < v.len(),
        candidates.contains_key(key),
        matches_with(c, bridge, candidates[key]@),
        forall|m: int| 0 <= m < v.len() ==> (#[trigger] v[m]).0@ != key,
    ensures
        !stronger(v[j].1, v[i].1),
        !stronger(v[i].1, v[j].1) ==> <String as Key>::lt(v[i].0@, v[j].0@),
        !stronger(c, v[j].1),
{
    assert(match_before(match_of(v[i]), match_of(v[j])));
    assert(match_before(match_of(v[j]), (key, c)));
    lemma_stronger_is_strict(v[i].1, v[j].1);
    lemma_stronger_is_strict(v[j].1, c);
}

proof fn lemma_stronger_is_strict(c: Correlation, d: Correlation)
    ensures
        !(stronger(c, d) && stronger(d, c)),
{
}

} // verus!
