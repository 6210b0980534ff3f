//! Complete ingestion: a token is touched once, and its bits, its table
//! entries and its count are recorded in the same pass.
use vstd::prelude::*;

use crate::collections::lemma_take_step;
use crate::hashing::{bit_of, lemma_bit_of, BitAddress};
use crate::hllset::{lemma_token_bits_step, token_bits, HLLSet};
use crate::lut::{fiber_at, fiber_of, with_token, LutIndex};
use crate::maps::count_in;
use crate::materialize::{candidates, is_winner, restored, Encoding};
use crate::order::{copy_bytes, views};
use crate::tf::TfTable;

verus! {

/// The seeds of the encodings.
pub const SEEDS: [u64; 3] = [0, 1, 2];

/// Number of encodings for each token.
pub const N_SEEDS: usize = 3;

/// The ingest module.
pub struct Ingest {
    /// One plane for each encoding.
    pub hllsets: [HLLSet; 3],
    /// One reverse index for each encoding.
    pub luts: [LutIndex; 3],
    /// Token counts.
    pub tf: TfTable,
    /// Number of tokens touched.
    pub touched: u64,
}

/// How often a token occurs in a list.
pub open spec fn occurrences(tokens: Seq<Seq<u8>>, t: Seq<u8>) -> nat
    decreases tokens.len(),
{
    if tokens.len() == 0 {
        0
    } else {
        occurrences(tokens.drop_last(), t) + if tokens.last() == t {
            1nat
        } else {
            0nat
        }
    }
}

/// A token occurs in a prefix no more often than in the whole list.
pub proof fn lemma_occurrences_prefix(tokens: Seq<Seq<u8>>, t: Seq<u8>, i: int)
    requires
        0 <= i <= tokens.len(),
    ensures
        occurrences(tokens.take(i), t) <= occurrences(tokens, t),
    decreases tokens.len(),
{
    if i < tokens.len() {
        lemma_occurrences_prefix(tokens.drop_last(), t, i);
        assert(tokens.drop_last().take(i) =~= tokens.take(i));
    } else {
        assert(tokens.take(i) =~= tokens);
    }
}

impl Ingest {
    /// The state after ingesting exactly the given tokens, in order.
    pub open spec fn holds(&self, tokens: Seq<Seq<u8>>) -> bool {
        &&& self.touched == tokens.len()
        &&& self.tf@.dom() == tokens.to_set()
        &&& forall|t: Seq<u8>| #[trigger] count_in(self.tf@, t) == occurrences(tokens, t)
        &&& forall|s: int|
            0 <= s < 3 ==> (#[trigger] self.hllsets@[s])@ == token_bits(tokens, SEEDS@[s])
        &&& forall|s: int|
            0 <= s < 3 ==> (#[trigger] self.luts@[s])@.dom() == token_bits(tokens, SEEDS@[s])
        &&& forall|s: int, b: u32|
            #![trigger fiber_at(self.luts@[s]@, b)]
            0 <= s < 3 ==> fiber_at(self.luts@[s]@, b) == fiber_of(tokens.to_set(), b, SEEDS@[s])
    }

    /// The module before any token.
    pub fn new() -> (r: Self)
        ensures
            r.holds(Seq::empty()),
            r.tf@ == Map::<Seq<u8>, u64>::empty(),
            forall|s: int|
                0 <= s < 3 ==> (#[trigger] r.luts@[s])@ == Map::<u32, Set<Seq<u8>>>::empty(),
    {
        let r = Ingest {
            hllsets: [HLLSet::new(), HLLSet::new(), HLLSet::new()],
            luts: [LutIndex::new(), LutIndex::new(), LutIndex::new()],
            tf: TfTable::new(),
            touched: 0,
        };
        proof {
            let none = Seq::<Seq<u8>>::empty();
            assert forall|s: int| 0 <= s < 3 implies (#[trigger] r.hllsets@[s])@ == token_bits(
                none,
                SEEDS@[s],
            ) by {
                assert(token_bits(none, SEEDS@[s]) =~= Set::empty());
            }
            assert forall|s: int| 0 <= s < 3 implies (#[trigger] r.luts@[s])@.dom() == token_bits(
                none,
                SEEDS@[s],
            ) by {
                assert(token_bits(none, SEEDS@[s]) =~= Set::empty());
                assert(r.luts@[s]@.dom() =~= Set::empty());
            }
            assert(r.tf@.dom() =~= none.to_set());
            assert forall|s: int, b: u32| #![trigger fiber_at(r.luts@[s]@, b)]
                0 <= s < 3 implies fiber_at(r.luts@[s]@, b) == fiber_of(
                none.to_set(),
                b,
                SEEDS@[s],
            ) by {
                assert(fiber_of(none.to_set(), b, SEEDS@[s]) =~= Set::empty());
            }
        }
        r
    }

    /// One token, one touch: three bits, three table entries, one count.
    pub fn ingest_token(&mut self, token: &[u8])
        requires
            old(self).touched < u64::MAX,
            count_in(old(self).tf@, token@) < u64::MAX,
        ensures
            final(self).touched == old(self).touched + 1,
            final(self).tf@ == old(self).tf@.insert(
                token@,
                (count_in(old(self).tf@, token@) + 1) as u64,
            ),
            forall|s: int|
                0 <= s < 3 ==> (#[trigger] final(self).hllsets@[s])@ == old(
                    self,
                ).hllsets@[s]@.insert(bit_of(token@, SEEDS@[s])),
            forall|s: int|
                0 <= s < 3 ==> (#[trigger] final(self).luts@[s])@ == with_token(
                    old(self).luts@[s]@,
                    token@,
                    bit_of(token@, SEEDS@[s]),
                ),
    {
        self.touched = self.touched + 1;
        self.tf.increment(token);
        let mut s: usize = 0;
        while s < N_SEEDS
            invariant
                s <= 3,
                self.touched == old(self).touched + 1,
                self.tf@ == old(self).tf@.insert(
                    token@,
                    (count_in(old(self).tf@, token@) + 1) as u64,
                ),
                forall|k: int|
                    0 <= k < s ==> (#[trigger] self.hllsets@[k])@ == old(self).hllsets@[k]@.insert(
                        bit_of(token@, SEEDS@[k]),
                    ),
                forall|k: int|
                    s <= k < 3 ==> (#[trigger] self.hllsets@[k])@ == old(self).hllsets@[k]@,
                forall|k: int|
                    0 <= k < s ==> (#[trigger] self.luts@[k])@ == with_token(
                        old(self).luts@[k]@,
                        token@,
                        bit_of(token@, SEEDS@[k]),
                    ),
                forall|k: int| s <= k < 3 ==> #[trigger] self.luts@[k] == old(self).luts@[k],
            decreases 3 - s,
        {
            let seed: u64 = SEEDS[s];
            let addr = BitAddress::of_token_seeded(token, seed);
            proof {
                lemma_bit_of(token@, seed);
            }
            self.hllsets[s].add_bit(addr.bit());
            self.luts[s].insert_token_seeded(copy_bytes(token), seed);
            s = s + 1;
        }
    }

    /// Ingests tokens in order.
    pub fn ingest_tokens(&mut self, tokens: &[Vec<u8>])
        requires
            old(self).touched + tokens@.len() <= u64::MAX,
            forall|t: Seq<u8>|
                #[trigger] count_in(old(self).tf@, t) + occurrences(views(tokens@), t) <= u64::MAX,
        ensures
            forall|before: Seq<Seq<u8>>|
                old(self).holds(before) ==> #[trigger] final(self).holds(before + views(tokens@)),
            final(self).touched == old(self).touched + tokens@.len(),
            forall|s: int|
                0 <= s < 3 ==> (#[trigger] final(self).hllsets@[s])@ == old(
                    self,
                ).hllsets@[s]@.union(token_bits(views(tokens@), SEEDS@[s])),
            forall|s: int, b: u32|
                #![trigger fiber_at(final(self).luts@[s]@, b)]
                0 <= s < 3 ==> fiber_at(final(self).luts@[s]@, b) == fiber_at(
                    old(self).luts@[s]@,
                    b,
                ).union(fiber_of(views(tokens@).to_set(), b, SEEDS@[s])),
            forall|s: int|
                0 <= s < 3 ==> (#[trigger] final(self).luts@[s])@.dom() == old(
                    self,
                ).luts@[s]@.dom().union(token_bits(views(tokens@), SEEDS@[s])),
            forall|t: Seq<u8>|
                #[trigger] count_in(final(self).tf@, t) == count_in(old(self).tf@, t)
                    + occurrences(views(tokens@), t),
            final(self).tf@.dom() == old(self).tf@.dom().union(views(tokens@).to_set()),
    {
        let ghost all = views(tokens@);
        let mut i: usize = 0;
        proof {
            assert forall|before: Seq<Seq<u8>>| old(self).holds(before) implies self.holds(
                before + all.take(0),
            ) by {
                assert(before + all.take(0) =~= before);
            }
            assert forall|s: int| 0 <= s < 3 implies (#[trigger] self.hllsets@[s])@ == old(
                self,
            ).hllsets@[s]@.union(token_bits(all.take(0), SEEDS@[s])) by {
                assert(token_bits(all.take(0), SEEDS@[s]) =~= Set::empty());
                assert(self.hllsets@[s]@.union(Set::empty()) =~= self.hllsets@[s]@);
            }
            assert forall|s: int| 0 <= s < 3 implies (#[trigger] self.luts@[s])@.dom() == old(
                self,
            ).luts@[s]@.dom().union(token_bits(all.take(0), SEEDS@[s])) by {
                assert(token_bits(all.take(0), SEEDS@[s]) =~= Set::empty());
                assert(self.luts@[s]@.dom().union(Set::empty()) =~= self.luts@[s]@.dom());
            }
            assert(self.tf@.dom() =~= old(self).tf@.dom().union(all.take(0).to_set()));
            assert forall|s: int, b: u32|
                #![trigger fiber_at(self.luts@[s]@, b)]
                0 <= s < 3 implies fiber_at(self.luts@[s]@, b) == fiber_at(
                old(self).luts@[s]@,
                b,
            ).union(fiber_of(all.take(0).to_set(), b, SEEDS@[s])) by {
                assert(fiber_of(all.take(0).to_set(), b, SEEDS@[s]) =~= Set::empty());
                assert(fiber_at(self.luts@[s]@, b).union(Set::empty()) =~= fiber_at(
                    self.luts@[s]@,
                    b,
                ));
            }
        }
        while i < tokens.len()
            invariant
                i <= tokens@.len(),
                all == views(tokens@),
                old(self).touched + tokens@.len() <= u64::MAX,
                self.touched == old(self).touched + i,
                forall|t: Seq<u8>|
                    #[trigger] count_in(old(self).tf@, t) + occurrences(all, t) <= u64::MAX,
                forall|s: int|
                    0 <= s < 3 ==> (#[trigger] self.hllsets@[s])@ == old(
                        self,
                    ).hllsets@[s]@.union(token_bits(all.take(i as int), SEEDS@[s])),
                forall|s: int, b: u32|
                    #![trigger fiber_at(self.luts@[s]@, b)]
                    0 <= s < 3 ==> fiber_at(self.luts@[s]@, b) == fiber_at(
                        old(self).luts@[s]@,
                        b,
                    ).union(fiber_of(all.take(i as int).to_set(), b, SEEDS@[s])),
                forall|t: Seq<u8>|
                    #[trigger] count_in(self.tf@, t) == count_in(old(self).tf@, t) + occurrences(
                        all.take(i as int),
                        t,
                    ),
                forall|s: int|
                    0 <= s < 3 ==> (#[trigger] self.luts@[s])@.dom() == old(
                        self,
                    ).luts@[s]@.dom().union(token_bits(all.take(i as int), SEEDS@[s])),
                self.tf@.dom() == old(self).tf@.dom().union(all.take(i as int).to_set()),
                forall|before: Seq<Seq<u8>>|
                    old(self).holds(before) ==> #[trigger] self.holds(before + all.take(i as int)),
            decreases tokens@.len() - i,
        {
            let ghost was = *self;
            proof {
                assert(all[i as int] == tokens@[i as int]@);
                lemma_occurrences_prefix(all, all[i as int], i + 1);
                assert(all.take(i + 1).drop_last() =~= all.take(i as int));
                assert(count_in(old(self).tf@, all[i as int]) + occurrences(all, all[i as int])
                    <= u64::MAX);
                assert(count_in(self.tf@, all[i as int]) == count_in(old(self).tf@, all[i as int])
                    + occurrences(all.take(i as int), all[i as int]));
            }
            self.ingest_token(tokens[i].as_slice());
            proof {
                let step = all.take(i + 1);
                assert(step.drop_last() =~= all.take(i as int));
                assert forall|t: Seq<u8>| #[trigger] count_in(self.tf@, t) == count_in(
                    old(self).tf@,
                    t,
                ) + occurrences(step, t) by {
                    assert(count_in(was.tf@, t) == count_in(old(self).tf@, t) + occurrences(
                        all.take(i as int),
                        t,
                    ));
                }
                assert forall|s: int| 0 <= s < 3 implies (#[trigger] self.hllsets@[s])@ == old(
                    self,
                ).hllsets@[s]@.union(token_bits(step, SEEDS@[s])) by {
                    assert(was.hllsets@[s]@ == old(self).hllsets@[s]@.union(
                        token_bits(all.take(i as int), SEEDS@[s]),
                    ));
                    lemma_token_bits_step(all, i as int, SEEDS@[s]);
                    assert(self.hllsets@[s]@ =~= old(self).hllsets@[s]@.union(
                        token_bits(step, SEEDS@[s]),
                    ));
                }
                assert forall|s: int| 0 <= s < 3 implies (#[trigger] self.luts@[s])@.dom() == old(
                    self,
                ).luts@[s]@.dom().union(token_bits(step, SEEDS@[s])) by {
                    assert(was.luts@[s]@.dom() == old(self).luts@[s]@.dom().union(
                        token_bits(all.take(i as int), SEEDS@[s]),
                    ));
                    lemma_token_bits_step(all, i as int, SEEDS@[s]);
                    assert(self.luts@[s]@.dom() =~= old(self).luts@[s]@.dom().union(
                        token_bits(step, SEEDS@[s]),
                    ));
                }
                lemma_take_step(all, i as int);
                assert(self.tf@.dom() =~= old(self).tf@.dom().union(step.to_set()));
                assert forall|s: int, b: u32|
                    #![trigger fiber_at(self.luts@[s]@, b)]
                    0 <= s < 3 implies fiber_at(self.luts@[s]@, b) == fiber_at(
                    old(self).luts@[s]@,
                    b,
                ).union(fiber_of(step.to_set(), b, SEEDS@[s])) by {
                    assert(fiber_at(was.luts@[s]@, b) == fiber_at(old(self).luts@[s]@, b).union(
                        fiber_of(all.take(i as int).to_set(), b, SEEDS@[s]),
                    ));
                    assert(fiber_at(self.luts@[s]@, b) =~= fiber_at(old(self).luts@[s]@, b).union(
                        fiber_of(step.to_set(), b, SEEDS@[s]),
                    ));
                }
                assert forall|before: Seq<Seq<u8>>| old(self).holds(
                    before,
                ) implies #[trigger] self.holds(before + step) by {
                    let seen = before + all.take(i as int);
                    assert(was.holds(seen));
                    assert(before + step =~= seen.push(all[i as int]));
                    lemma_ingest_step(was, *self, seen, all[i as int]);
                }
            }
            i = i + 1;
        }
        proof {
            assert(all.take(i as int) =~= all);
        }
    }

    /// The plane of an encoding.
    pub fn hllset(&self, seed_index: usize) -> (r: &HLLSet)
        requires
            seed_index < 3,
        ensures
            *r == self.hllsets@[seed_index as int],
    {
        &self.hllsets[seed_index]
    }

    /// The reverse index of an encoding.
    pub fn lut(&self, seed_index: usize) -> (r: &LutIndex)
        requires
            seed_index < 3,
        ensures
            *r == self.luts@[seed_index as int],
    {
        &self.luts[seed_index]
    }

    /// The token counts.
    pub fn tf(&self) -> (r: &TfTable)
        ensures
            *r == self.tf,
    {
        &self.tf
    }
}

/// One ingested token extends what the module holds by that token.
pub proof fn lemma_ingest_step(was: Ingest, now: Ingest, seen: Seq<Seq<u8>>, token: Seq<u8>)
    requires
        was.holds(seen),
        now.touched == was.touched + 1,
        count_in(was.tf@, token) < u64::MAX,
        now.tf@ == was.tf@.insert(token, (count_in(was.tf@, token) + 1) as u64),
        forall|s: int|
            0 <= s < 3 ==> (#[trigger] now.hllsets@[s])@ == was.hllsets@[s]@.insert(
                bit_of(token, SEEDS@[s]),
            ),
        forall|s: int|
            0 <= s < 3 ==> (#[trigger] now.luts@[s])@ == with_token(
                was.luts@[s]@,
                token,
                bit_of(token, SEEDS@[s]),
            ),
    ensures
        now.holds(seen.push(token)),
{
    let all = seen.push(token);
    assert(all.drop_last() =~= seen);
    assert(all.take(seen.len() as int) =~= seen);
    assert(all.take(seen.len() as int + 1) =~= all);
    crate::collections::lemma_take_step(all, seen.len() as int);
    assert forall|t: Seq<u8>| #[trigger] count_in(now.tf@, t) == occurrences(all, t) by {
        assert(count_in(was.tf@, t) == occurrences(seen, t));
    }
    assert forall|s: int| 0 <= s < 3 implies (#[trigger] now.hllsets@[s])@ == token_bits(
        all,
        SEEDS@[s],
    ) by {
        crate::hllset::lemma_token_bits_step(all, seen.len() as int, SEEDS@[s]);
        assert(was.hllsets@[s]@ == token_bits(seen, SEEDS@[s]));
    }
    assert forall|s: int| 0 <= s < 3 implies (#[trigger] now.luts@[s])@.dom() == token_bits(
        all,
        SEEDS@[s],
    ) by {
        crate::hllset::lemma_token_bits_step(all, seen.len() as int, SEEDS@[s]);
        assert(was.luts@[s]@.dom() == token_bits(seen, SEEDS@[s]));
        assert(now.luts@[s]@.dom() =~= token_bits(all, SEEDS@[s]));
    }
    assert(now.tf@.dom() =~= all.to_set());
    assert forall|s: int, b: u32| #![trigger fiber_at(now.luts@[s]@, b)] 0 <= s < 3 implies fiber_at(
        now.luts@[s]@,
        b,
    ) == fiber_of(all.to_set(), b, SEEDS@[s]) by {
        assert(fiber_at(was.luts@[s]@, b) == fiber_of(seen.to_set(), b, SEEDS@[s]));
        assert(fiber_of(all.to_set(), b, SEEDS@[s]) =~= if bit_of(token, SEEDS@[s]) == b {
            fiber_of(seen.to_set(), b, SEEDS@[s]).insert(token)
        } else {
            fiber_of(seen.to_set(), b, SEEDS@[s])
        });
    }
}

/// Where one encoding of an ingested list is restored, the candidates of a
/// bit are the tokens ingested there.
proof fn lemma_own_candidates(x: Ingest, tokens: Seq<Seq<u8>>, s: int, pair: Encoding, b: u32)
    requires
        x.holds(tokens),
        0 <= s < 3,
        pair.hllset@ == x.hllsets@[s]@,
        pair.lut@ == x.luts@[s]@,
    ensures
        candidates(seq![pair], b) == fiber_of(tokens.to_set(), b, SEEDS@[s]),
{
    let pairs = seq![pair];
    let fiber = fiber_of(tokens.to_set(), b, SEEDS@[s]);
    assert(fiber_at(x.luts@[s]@, b) == fiber);
    assert forall|u: Seq<u8>| candidates(pairs, b).contains(u) == fiber.contains(u) by {
        if fiber.contains(u) {
            let k = tokens.index_of(u);
            assert(tokens[k] == u);
            assert(x.hllsets@[s]@.contains(b));
            assert(pairs[0].hllset@.contains(b));
        }
    }
    assert(candidates(pairs, b) =~= fiber);
}

/// What was ingested is restored: from one encoding come back, for every bit,
/// the most frequent of the tokens ingested there and nothing else, so every
/// token that shares its bit with no other.
pub proof fn ingested_tokens_are_restored(
    x: Ingest,
    tokens: Seq<Seq<u8>>,
    s: int,
    pair: Encoding,
    t: Seq<u8>,
)
    requires
        x.holds(tokens),
        0 <= s < 3,
        pair.hllset@ == x.hllsets@[s]@,
        pair.lut@ == x.luts@[s]@,
    ensures
        restored(seq![pair], x.tf@).contains(t) <==> is_winner(
            fiber_of(tokens.to_set(), bit_of(t, SEEDS@[s]), SEEDS@[s]),
            x.tf@,
            t,
        ),
        restored(seq![pair], x.tf@).contains(t) ==> tokens.contains(t),
        tokens.contains(t) && (forall|u: Seq<u8>| #[trigger]
            tokens.contains(u) && bit_of(u, SEEDS@[s]) == bit_of(t, SEEDS@[s]) ==> u == t)
            ==> restored(seq![pair], x.tf@).contains(t),
{
    let pairs = seq![pair];
    let seed = SEEDS@[s];
    let own = bit_of(t, seed);
    lemma_own_candidates(x, tokens, s, pair, own);
    if restored(pairs, x.tf@).contains(t) {
        let b = choose|b: u32| is_winner(#[trigger] candidates(pairs, b), x.tf@, t);
        lemma_own_candidates(x, tokens, s, pair, b);
        assert(b == own);
    }
    let fiber = fiber_of(tokens.to_set(), own, seed);
    if is_winner(fiber, x.tf@, t) {
        assert(is_winner(candidates(pairs, own), x.tf@, t));
    }
    if tokens.contains(t) && (forall|u: Seq<u8>| #[trigger]
        tokens.contains(u) && bit_of(u, seed) == own ==> u == t) {
        assert(fiber.contains(t));
        assert forall|u: Seq<u8>| #[trigger] fiber.contains(u) implies u == t by {
            assert(tokens.contains(u));
        }
        assert(is_winner(fiber, x.tf@, t));
    }
}

/// Occurrences are counted one by one.
pub proof fn occurrences_are_counted(tokens: Seq<Seq<u8>>, t: Seq<u8>)
    ensures
        occurrences(tokens, t) == tokens.filter(|u: Seq<u8>| u == t).len(),
    decreases tokens.len(),
{
    reveal(Seq::filter);
    if tokens.len() > 0 {
        occurrences_are_counted(tokens.drop_last(), t);
    }
}

} // verus!
