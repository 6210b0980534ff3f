//! The HLLSet: a set of bits in a plane of 1024 registers by 32 heights.
//!
//! A token contributes one bit. Union, intersection and difference act on the
//! bits, so every operation is an exact set operation on the plane.
use vstd::prelude::*;

use crate::collections::{lemma_take_step, lists, OrdSet};
use crate::hashing::{
    bit_of, hash_to_position, lemma_bit_of, position, sha1_hex, sha1_text, BitAddress, TOTAL_BITS,
};
use crate::order::views;
use crate::text::{joined, le_bytes, le_value, lemma_le_bytes_of_value, push_le, read_le};

verus! {

/// A set of bits of the plane.
pub struct HLLSet {
    bits: OrdSet<u32>,
}

/// Every bit lies in the plane.
pub open spec fn in_plane(s: Set<u32>) -> bool {
    forall|b: u32| s.contains(b) ==> b < TOTAL_BITS
}

/// The bits that some tokens set under a seed.
pub open spec fn token_bits(tokens: Seq<Seq<u8>>, seed: u64) -> Set<u32> {
    Set::new(|b: u32| exists|i: int| 0 <= i < tokens.len() && b == bit_of(#[trigger] tokens[i], seed))
}

/// The planes of a sequence of sets.
pub open spec fn planes(v: Seq<HLLSet>) -> Seq<Set<u32>> {
    v.map_values(|h: HLLSet| h@)
}

/// The bits set in any of several planes.
pub open spec fn union_of(s: Seq<Set<u32>>) -> Set<u32> {
    Set::new(|b: u32| exists|i: int| 0 <= i < s.len() && (#[trigger] s[i]).contains(b))
}

/// Two to the power `k`.
pub open spec fn two(k: nat) -> nat
    decreases k,
{
    if k == 0 {
        1
    } else {
        2 * two((k - 1) as nat)
    }
}

/// The sum of two to the height, over the bits set below height `k` in a register.
pub open spec fn word_below(s: Set<u32>, reg: int, k: nat) -> nat
    decreases k,
{
    if k == 0 {
        0
    } else {
        word_below(s, reg, (k - 1) as nat) + if s.contains((reg * 32 + k - 1) as u32) {
            two((k - 1) as nat)
        } else {
            0
        }
    }
}

/// The 32-bit word of a register.
pub open spec fn register_word(s: Set<u32>, reg: int) -> nat {
    word_below(s, reg, 32)
}

/// The dense form below register `m`: each register's word in four
/// little-endian bytes.
pub open spec fn dense_below(s: Set<u32>, m: nat) -> Seq<u8>
    decreases m,
{
    if m == 0 {
        Seq::empty()
    } else {
        dense_below(s, (m - 1) as nat) + le_bytes(register_word(s, m - 1), 4)
    }
}

/// The dense form of a plane.
pub open spec fn dense_bytes(s: Set<u32>) -> Seq<u8> {
    dense_below(s, 1024)
}

/// The content key of a plane: `h:` and the SHA-1 of the dense form.
pub open spec fn plane_key(s: Set<u32>) -> Seq<char> {
    "h:"@ + sha1_text(dense_bytes(s))
}

/// A partial word is smaller than two to its height.
pub proof fn lemma_word_bound(s: Set<u32>, reg: int, k: nat)
    ensures
        word_below(s, reg, k) < two(k),
    decreases k,
{
    if k > 0 {
        lemma_word_bound(s, reg, (k - 1) as nat);
    }
}

proof fn lemma_two_32(k: nat)
    requires
        k <= 32,
    ensures
        two(k) <= 0x1_0000_0000,
{
    reveal_with_fuel(two, 34);
}

proof fn lemma_two_full()
    ensures
        two(32) == 0x1_0000_0000,
{
    reveal_with_fuel(two, 34);
}

/// The bits that a word sets in a register.
pub open spec fn word_bit(w: nat, tz: nat) -> bool {
    (w / two(tz)) % 2 == 1
}

proof fn lemma_two_pos(k: nat)
    ensures
        two(k) >= 1,
    decreases k,
{
    if k > 0 {
        lemma_two_pos((k - 1) as nat);
    }
}

/// A word sets exactly the bits that the register holds.
pub proof fn lemma_word_bits(s: Set<u32>, reg: int, k: nat, tz: nat)
    requires
        tz < k,
    ensures
        word_bit(word_below(s, reg, k), tz) == s.contains((reg * 32 + tz) as u32),
    decreases k,
{
    let j = (k - 1) as nat;
    let low = word_below(s, reg, j);
    lemma_word_bound(s, reg, j);
    lemma_two_pos(tz);
    lemma_two_pos(j);
    let w = word_below(s, reg, k);
    if tz == j {
        if s.contains((reg * 32 + j) as u32) {
            assert(w / two(j) == 1) by (nonlinear_arith)
                requires
                    w == low + two(j),
                    0 <= low < two(j),
            ;
        } else {
            assert(w / two(j) == 0) by (nonlinear_arith)
                requires
                    w == low,
                    0 <= low < two(j),
            ;
        }
    } else {
        lemma_word_bits(s, reg, j, tz);
        if s.contains((reg * 32 + j) as u32) {
            lemma_two_split(j, tz);
            let q = two((j - tz - 1) as nat);
            let t = two(tz);
            assert((low + 2 * q * t) / t == low / t + 2 * q) by (nonlinear_arith)
                requires
                    t >= 1,
            ;
            let x = low / t;
            assert((x + 2 * q) % 2 == x % 2);
            assert(w == low + 2 * q * t);
        }
    }
}

proof fn lemma_two_split(j: nat, tz: nat)
    requires
        tz < j,
    ensures
        two(j) == 2 * two((j - tz - 1) as nat) * two(tz),
    decreases tz,
{
    if tz > 0 {
        lemma_two_split((j - 1) as nat, (tz - 1) as nat);
        let a = two((j - tz - 1) as nat);
        let b = two((tz - 1) as nat);
        assert(((j - 1) - (tz - 1) - 1) as nat == (j - tz - 1) as nat);
        assert(two(tz) == 2 * b);
        assert(2 * (2 * a * b) == 2 * a * (2 * b)) by (nonlinear_arith);
    } else {
        assert(two(0) == 1);
    }
}

impl View for HLLSet {
    type V = Set<u32>;

    closed spec fn view(&self) -> Set<u32> {
        self.bits@
    }
}

impl Clone for HLLSet {
    fn clone(&self) -> (r: Self)
        ensures
            r@ == self@,
    {
        proof {
            use_type_invariant(self);
        }
        HLLSet { bits: self.bits.duplicate() }
    }
}

impl HLLSet {
    #[verifier::type_invariant]
    spec fn inv(self) -> bool {
        in_plane(self.bits@)
    }

    /// The set bits in ascending order.
    pub closed spec fn seq(&self) -> Seq<u32> {
        self.bits.seq()
    }

    /// The empty set.
    pub fn new() -> (r: Self)
        ensures
            r@ == Set::<u32>::empty(),
    {
        HLLSet { bits: OrdSet::new() }
    }

    /// The set of the bits of some tokens, seed 0.
    pub fn from_tokens(tokens: &[Vec<u8>]) -> (r: Self)
        ensures
            r@ == token_bits(views(tokens@), 0),
    {
        let mut r = HLLSet::new();
        r.merge_tokens(tokens);
        proof {
            assert(r@ =~= token_bits(views(tokens@), 0));
        }
        r
    }

    /// Sets a bit.
    pub fn add_bit(&mut self, bit: u32)
        requires
            bit < TOTAL_BITS,
        ensures
            final(self)@ == old(self)@.insert(bit),
    {
        proof {
            use_type_invariant(&*self);
        }
        let mut bits: OrdSet<u32> = OrdSet::new();
        core::mem::swap(&mut bits, &mut self.bits);
        bits.insert(bit);
        self.bits = bits;
    }

    /// Sets the bit that a 64-bit hash selects.
    pub fn add_hash(&mut self, hash: u64)
        ensures
            final(self)@ == old(self)@.insert(
                (position(hash).0 * 32 + position(hash).1) as u32,
            ),
    {
        let (reg, tz) = hash_to_position(hash);
        self.add_bit(reg * 32 + tz);
    }

    /// Sets the bit of a token, seed 0.
    pub fn add_token(&mut self, token: &[u8])
        ensures
            final(self)@ == old(self)@.insert(bit_of(token@, 0)),
    {
        proof {
            lemma_bit_of(token@, 0);
        }
        self.add_bit(BitAddress::of_token(token).bit());
    }

    /// Sets the bits of some tokens, seed 0.
    pub fn merge_tokens(&mut self, tokens: &[Vec<u8>])
        ensures
            final(self)@ == old(self)@.union(token_bits(views(tokens@), 0)),
    {
        let ghost all = views(tokens@);
        let mut i: usize = 0;
        proof {
            assert(self@ =~= old(self)@.union(token_bits(all.take(0), 0)));
        }
        while i < tokens.len()
            invariant
                i <= tokens@.len(),
                all == views(tokens@),
                self@ == old(self)@.union(token_bits(all.take(i as int), 0)),
            decreases tokens@.len() - i,
        {
            let ghost before = self@;
            self.add_token(tokens[i].as_slice());
            proof {
                lemma_token_bits_step(all, i as int, 0);
                assert(all[i as int] == tokens@[i as int]@);
                assert(self@ =~= old(self)@.union(token_bits(all.take(i + 1), 0)));
            }
            i = i + 1;
        }
        proof {
            assert(all.take(i as int) =~= all);
        }
    }

    /// Adds every bit of another set.
    pub fn merge(&mut self, other: &HLLSet)
        ensures
            final(self)@ == old(self)@.union(other@),
    {
        let u = self.union(other);
        *self = u;
    }

    /// The bits of either set.
    pub fn union(&self, other: &HLLSet) -> (r: HLLSet)
        ensures
            r@ == self@.union(other@),
    {
        proof {
            use_type_invariant(self);
            use_type_invariant(other);
        }
        HLLSet { bits: self.bits.union(&other.bits) }
    }

    /// The bits of both sets.
    pub fn intersection(&self, other: &HLLSet) -> (r: HLLSet)
        ensures
            r@ == self@.intersect(other@),
    {
        proof {
            use_type_invariant(self);
        }
        HLLSet { bits: self.bits.intersection(&other.bits) }
    }

    /// The bits of this set that the other lacks.
    pub fn difference(&self, other: &HLLSet) -> (r: HLLSet)
        ensures
            r@ == self@.difference(other@),
    {
        proof {
            use_type_invariant(self);
        }
        HLLSet { bits: self.bits.difference(&other.bits) }
    }

    /// The bits of exactly one of the sets.
    pub fn symmetric_difference(&self, other: &HLLSet) -> (r: HLLSet)
        ensures
            r@ == self@.difference(other@).union(other@.difference(self@)),
    {
        self.difference(other).union(&other.difference(self))
    }

    /// The bits of any of several sets.
    pub fn union_all(sets: &[HLLSet]) -> (r: HLLSet)
        ensures
            r@ == union_of(planes(sets@)),
    {
        let mut r = HLLSet::new();
        let mut i: usize = 0;
        let ghost all = planes(sets@);
        proof {
            assert(r@ =~= union_of(all.take(0)));
        }
        while i < sets.len()
            invariant
                i <= sets@.len(),
                all == planes(sets@),
                r@ == union_of(all.take(i as int)),
            decreases sets@.len() - i,
        {
            r.merge(&sets[i]);
            proof {
                assert(all[i as int] == sets@[i as int]@);
                lemma_union_of_step(all, i as int);
            }
            i = i + 1;
        }
        proof {
            assert(all.take(i as int) =~= all);
        }
        r
    }

    /// The number of set bits.
    pub fn popcount(&self) -> (r: u64)
        ensures
            r == self@.len(),
            r <= TOTAL_BITS,
            self@.finite(),
            in_plane(self@),
    {
        proof {
            use_type_invariant(self);
        }
        let n: usize = self.bits.len();
        proof {
            lemma_plane_len(self@);
        }
        n as u64
    }

    /// Whether no bit is set.
    pub fn is_empty(&self) -> (r: bool)
        ensures
            r == (self@ == Set::<u32>::empty()),
            r == (self@.len() == 0),
    {
        self.bits.is_empty()
    }

    /// Whether a bit is set.
    pub fn contains(&self, bit: u32) -> (r: bool)
        ensures
            r == self@.contains(bit),
    {
        self.bits.contains(&bit)
    }

    /// Whether every bit of this set belongs to the other.
    pub fn is_subset(&self, other: &HLLSet) -> (r: bool)
        ensures
            r == self@.subset_of(other@),
    {
        self.bits.is_subset(&other.bits)
    }

    /// Whether both sets have the same bits.
    pub fn same(&self, other: &HLLSet) -> (r: bool)
        ensures
            r == (self@ == other@),
    {
        self.bits.same(&other.bits)
    }

    /// The set bits, in ascending order.
    pub fn bitmap(&self) -> (r: Vec<u32>)
        ensures
            lists::<u32>(r@, self@),
            r@ == self.seq(),
            in_plane(self@),
            r@.len() == self@.len(),
            r@.len() <= TOTAL_BITS,
    {
        proof {
            use_type_invariant(self);
        }
        let n: u64 = self.popcount();
        let r = self.bits.to_vec();
        proof {
            assert(crate::collections::vals(r@) =~= r@);
            crate::collections::lemma_ascending_distinct::<u32>(r@);
            r@.unique_seq_to_set();
        }
        r
    }

    /// The addresses of the set bits, in ascending order.
    pub fn bit_addresses(&self) -> (r: Vec<BitAddress>)
        ensures
            lists::<u32>(addresses(r@), self@),
            r@.len() == self@.len(),
    {
        let bits = self.bitmap();
        let mut r: Vec<BitAddress> = Vec::new();
        let mut i: usize = 0;
        while i < bits.len()
            invariant
                i <= bits@.len(),
                r@.len() == i,
                forall|j: int| 0 <= j < i ==> (#[trigger] r@[j]).position() == bits@[j],
            decreases bits@.len() - i,
        {
            r.push(BitAddress::from_bit(bits[i]));
            i = i + 1;
        }
        proof {
            assert(addresses(r@) =~= bits@);
        }
        r
    }

    /// The positions (register, height) of the set bits, in ascending order.
    pub fn active_positions(&self) -> (r: Vec<(u32, u32)>)
        ensures
            r@ == self.seq().map_values(|b: u32| (b / 32, b % 32)),
            lists::<u32>(self.seq(), self@),
            in_plane(self@),
    {
        let bits = self.bitmap();
        let mut r: Vec<(u32, u32)> = Vec::new();
        let mut i: usize = 0;
        while i < bits.len()
            invariant
                i <= bits@.len(),
                r@.len() == i,
                forall|j: int| 0 <= j < i ==> #[trigger] r@[j] == (bits@[j] / 32, bits@[j] % 32),
            decreases bits@.len() - i,
        {
            r.push((bits[i] / 32, bits[i] % 32));
            i = i + 1;
        }
        proof {
            assert(r@ =~= self.seq().map_values(|b: u32| (b / 32, b % 32)));
        }
        r
    }

    /// The word of a register: bit `tz` of the word is bit (reg, tz) of the plane.
    pub fn get_register_bitmap(&self, reg: u32) -> (r: u32)
        requires
            reg < 1024,
        ensures
            r == register_word(self@, reg as int),
    {
        let mut acc: u64 = 0;
        let mut weight: u64 = 1;
        let mut tz: u32 = 0;
        while tz < 32
            invariant
                tz <= 32,
                reg < 1024,
                acc == word_below(self@, reg as int, tz as nat),
                acc < weight,
                weight == two(tz as nat),
                weight <= 0x1_0000_0000,
            decreases 32 - tz,
        {
            if self.contains(reg * 32 + tz) {
                acc = acc + weight;
            }
            proof {
                lemma_two_32((tz + 1) as nat);
            }
            weight = 2 * weight;
            tz = tz + 1;
        }
        proof {
            lemma_two_32(32);
        }
        acc as u32
    }

    /// The words of all registers.
    pub fn to_dense(&self) -> (r: Vec<u32>)
        ensures
            r@.len() == 1024,
            forall|i: int| 0 <= i < 1024 ==> #[trigger] r@[i] == register_word(self@, i),
    {
        let mut r: Vec<u32> = Vec::new();
        let mut reg: u32 = 0;
        while reg < 1024
            invariant
                reg <= 1024,
                r@.len() == reg,
                forall|i: int| 0 <= i < reg ==> #[trigger] r@[i] == register_word(self@, i),
            decreases 1024 - reg,
        {
            r.push(self.get_register_bitmap(reg));
            reg = reg + 1;
        }
        r
    }

    /// The dense form: each register's word in four little-endian bytes.
    pub fn to_bytes(&self) -> (r: Vec<u8>)
        ensures
            r@ == dense_bytes(self@),
            r@.len() == 4096,
    {
        let mut r: Vec<u8> = Vec::new();
        let mut reg: u32 = 0;
        while reg < 1024
            invariant
                reg <= 1024,
                r@ == dense_below(self@, reg as nat),
                r@.len() == 4 * reg,
            decreases 1024 - reg,
        {
            let w: u32 = self.get_register_bitmap(reg);
            push_le(&mut r, w as u64, 4);
            proof {
                reveal_with_fuel(le_bytes, 5);
            }
            reg = reg + 1;
        }
        r
    }

    /// Reads the dense form back; fails unless it has 4096 bytes.
    pub fn from_bytes(bytes: &[u8]) -> (r: Option<HLLSet>)
        ensures
            r is Some <==> bytes@.len() == 4096,
            r matches Some(h) ==> h@ == plane_of_bytes(bytes@),
            r matches Some(h) ==> dense_bytes(h@) == bytes@,
    {
        if bytes.len() != 4096 {
            return None;
        }
        let mut h = HLLSet::new();
        let mut reg: u32 = 0;
        proof {
            assert(h@ =~= plane_below(bytes@, 0));
        }
        while reg < 1024
            invariant
                reg <= 1024,
                bytes@.len() == 4096,
                h@ == plane_below(bytes@, reg as int),
            decreases 1024 - reg,
        {
            let at: usize = 4 * reg as usize;
            let word = [bytes[at], bytes[at + 1], bytes[at + 2], bytes[at + 3]];
            let w: u64 = read_le(word.as_slice());
            proof {
                assert(word@ =~= bytes@.subrange(4 * reg, 4 * reg + 4));
                lemma_le_bytes_of_value(word@);
                reveal_with_fuel(crate::text::pow256, 5);
            }
            let mut rest: u64 = w;
            let mut tz: u32 = 0;
            let ghost start = h@;
            proof {
                assert(h@ =~= start.union(word_plane(w as nat, reg as int, 0)));
                assert(w as nat / 1 == w);
            }
            while tz < 32
                invariant
                    tz <= 32,
                    reg < 1024,
                    rest == w as nat / two(tz as nat),
                    h@ == start.union(word_plane(w as nat, reg as int, tz as int)),
                decreases 32 - tz,
            {
                if rest % 2 == 1 {
                    h.add_bit(reg * 32 + tz);
                }
                proof {
                    let b = (reg * 32 + tz) as u32;
                    assert(h@ =~= start.union(word_plane(w as nat, reg as int, tz + 1))) by {
                        assert(word_plane(w as nat, reg as int, tz + 1) =~= if word_bit(
                            w as nat,
                            tz as nat,
                        ) {
                            word_plane(w as nat, reg as int, tz as int).insert(b)
                        } else {
                            word_plane(w as nat, reg as int, tz as int)
                        });
                    }
                    lemma_two_pos(tz as nat);
                    let t = two(tz as nat);
                    assert((w as nat / t) / 2 == w as nat / (2 * t)) by (nonlinear_arith)
                        requires
                            t >= 1,
                    ;
                }
                rest = rest / 2;
                tz = tz + 1;
            }
            proof {
                assert(h@ =~= plane_below(bytes@, reg + 1)) by {
                    let s = plane_below(bytes@, reg as int);
                    let p = word_plane(w as nat, reg as int, 32);
                    assert forall|b: u32|
                        plane_below(bytes@, reg + 1).contains(b) == s.union(p).contains(b) by {
                        if b < 32 * (reg + 1) && b >= 32 * reg {
                            assert(b / 32 == reg);
                        }
                    }
                }
            }
            reg = reg + 1;
        }
        proof {
            assert(h@ =~= plane_of_bytes(bytes@));
            dense_form_reads_back(bytes@);
        }
        Some(h)
    }

    /// How many set bits have each height.
    pub fn bit_counts(&self) -> (r: Vec<u32>)
        ensures
            r@.len() == 32,
            forall|t: int|
                0 <= t < 32 ==> #[trigger] r@[t] == height_count(self@, t as u32),
    {
        let bits = self.bitmap();
        let mut r: Vec<u32> = Vec::new();
        let mut t: u32 = 0;
        while t < 32
            invariant
                t <= 32,
                r@.len() == t,
                bits@.len() <= TOTAL_BITS,
                lists::<u32>(bits@, self@),
                forall|k: int|
                    0 <= k < t ==> #[trigger] r@[k] == height_count(self@, k as u32),
            decreases 32 - t,
        {
            let mut c: u32 = 0;
            let mut i: usize = 0;
            proof {
                assert(bits@.take(0).to_set().filter(|b: u32| b % 32 == t) =~= Set::empty());
            }
            while i < bits.len()
                invariant
                    i <= bits@.len(),
                    bits@.len() <= TOTAL_BITS,
                    c <= i,
                    lists::<u32>(bits@, self@),
                    c == bits@.take(i as int).to_set().filter(|b: u32| b % 32 == t).len(),
                decreases bits@.len() - i,
            {
                proof {
                    let b = bits@[i as int];
                    let before = bits@.take(i as int).to_set();
                    let f = |x: u32| x % 32 == t;
                    lemma_take_step(bits@, i as int);
                    crate::collections::lemma_ascending_distinct::<u32>(bits@);
                    assert(!before.contains(b)) by {
                        if before.contains(b) {
                            let j = choose|j: int|
                                0 <= j < bits@.take(i as int).len() && bits@.take(i as int)[j] == b;
                            assert(bits@[j] == bits@[i as int]);
                        }
                    }
                    vstd::seq_lib::seq_to_set_is_finite(bits@.take(i as int));
                    before.lemma_len_filter(f);
                    if b % 32 == t {
                        assert(before.insert(b).filter(f) =~= before.filter(f).insert(b));
                    } else {
                        assert(before.insert(b).filter(f) =~= before.filter(f));
                    }
                }
                if bits[i] % 32 == t {
                    c = c + 1;
                }
                i = i + 1;
            }
            proof {
                assert(bits@.take(i as int) =~= bits@);
            }
            r.push(c);
            t = t + 1;
        }
        r
    }

    /// The content key: `h:` and the SHA-1 of the dense form.
    pub fn content_key(&self) -> (r: String)
        ensures
            r@ == plane_key(self@),
    {
        let bytes = self.to_bytes();
        joined("h:", sha1_hex(bytes.as_slice()).as_str())
    }
}

/// The number of set bits with a height.
pub open spec fn height_count(s: Set<u32>, t: u32) -> nat {
    s.filter(|b: u32| b % 32 == t).len()
}

/// The flat positions of a sequence of addresses.
pub open spec fn addresses(s: Seq<BitAddress>) -> Seq<u32> {
    s.map_values(|a: BitAddress| a.position())
}

/// A longer prefix of tokens adds one bit.
pub proof fn lemma_token_bits_step(all: Seq<Seq<u8>>, i: int, seed: u64)
    requires
        0 <= i < all.len(),
    ensures
        token_bits(all.take(i + 1), seed) == token_bits(all.take(i), seed).insert(
            bit_of(all[i], seed),
        ),
{
    let a = all.take(i);
    let b = all.take(i + 1);
    assert forall|x: u32|
        token_bits(b, seed).contains(x) == token_bits(a, seed).insert(
            bit_of(all[i], seed),
        ).contains(x) by {
        if token_bits(b, seed).contains(x) {
            let j = choose|j: int| 0 <= j < b.len() && x == bit_of(#[trigger] b[j], seed);
            if j < i {
                assert(a[j] == b[j]);
            }
        }
        if token_bits(a, seed).contains(x) {
            let j = choose|j: int| 0 <= j < a.len() && x == bit_of(#[trigger] a[j], seed);
            assert(b[j] == a[j]);
        }
        if x == bit_of(all[i], seed) {
            assert(b[i] == all[i]);
        }
    }
    assert(token_bits(b, seed) =~= token_bits(a, seed).insert(bit_of(all[i], seed)));
}

/// A longer prefix of planes adds one plane.
pub proof fn lemma_union_of_step(all: Seq<Set<u32>>, i: int)
    requires
        0 <= i < all.len(),
    ensures
        union_of(all.take(i + 1)) == union_of(all.take(i)).union(all[i]),
{
    let a = all.take(i);
    let b = all.take(i + 1);
    assert forall|x: u32|
        union_of(b).contains(x) == union_of(a).union(all[i]).contains(x) by {
        if union_of(b).contains(x) {
            let j = choose|j: int| 0 <= j < b.len() && (#[trigger] b[j]).contains(x);
            if j < i {
                assert(a[j].contains(x));
            }
        }
        if union_of(a).contains(x) {
            let j = choose|j: int| 0 <= j < a.len() && (#[trigger] a[j]).contains(x);
            assert(b[j].contains(x));
        }
        if all[i].contains(x) {
            assert(b[i].contains(x));
        }
    }
    assert(union_of(b) =~= union_of(a).union(all[i]));
}

/// A plane holds at most one bit for each position.
pub proof fn lemma_plane_len(s: Set<u32>)
    requires
        in_plane(s),
    ensures
        s.finite(),
        s.len() <= TOTAL_BITS,
{
    let ints = vstd::set_lib::set_int_range(0, TOTAL_BITS as int);
    vstd::set_lib::lemma_int_range(0, TOTAL_BITS as int);
    let f = |b: u32| b as int;
    let img = s.map(f);
    assert(img.subset_of(ints)) by {
        assert forall|x: int| img.contains(x) implies ints.contains(x) by {
            let b = choose|b: u32| s.contains(b) && x == f(b);
            assert(b < TOTAL_BITS);
        }
    }
    vstd::set_lib::lemma_len_subset(img, ints);
    let g = |x: int| x as u32;
    assert(img.map(g) =~= s) by {
        assert forall|b: u32| s.contains(b) implies img.map(g).contains(b) by {
            assert(img.contains(f(b)));
            assert(g(f(b)) == b);
        }
        assert forall|b: u32| img.map(g).contains(b) implies s.contains(b) by {
            let x = choose|x: int| img.contains(x) && b == g(x);
            let c = choose|c: u32| s.contains(c) && x == f(c);
            assert(g(f(c)) == c);
        }
    }
    img.lemma_map_finite(g);
    vstd::set_lib::lemma_map_size_bound(img, s, g);
}

/// The bits that a word sets below a height of a register.
pub open spec fn word_plane(w: nat, reg: int, k: int) -> Set<u32> {
    Set::new(
        |b: u32| b / 32 == reg && b % 32 < k && word_bit(w, (b % 32) as nat),
    )
}

/// The word that four bytes of the dense form hold.
pub open spec fn stored_word(bytes: Seq<u8>, reg: int) -> nat {
    le_value(bytes.subrange(4 * reg, 4 * reg + 4))
}

/// The bits that the dense form sets below a register.
pub open spec fn plane_below(bytes: Seq<u8>, m: int) -> Set<u32> {
    Set::new(
        |b: u32| b / 32 < m && word_bit(stored_word(bytes, (b / 32) as int), (b % 32) as nat),
    )
}

/// The plane that a dense form denotes.
pub open spec fn plane_of_bytes(bytes: Seq<u8>) -> Set<u32> {
    plane_below(bytes, 1024)
}

/// A number below two to the `k` is the sum of its bits.
proof fn lemma_word_of_bits(s: Set<u32>, w: nat, reg: int, k: nat)
    requires
        0 <= reg < 1024,
        k <= 32,
        forall|tz: nat|
            tz < k ==> #[trigger] word_bit(w, tz) == s.contains((reg * 32 + tz) as u32),
    ensures
        word_below(s, reg, k) == w % two(k),
    decreases k,
{
    lemma_two_pos(k);
    if k == 0 {
        assert(w % 1 == 0);
    } else {
        let j = (k - 1) as nat;
        lemma_word_of_bits(s, w, reg, j);
        lemma_two_pos(j);
        let t = two(j);
        assert(word_bit(w, j) == s.contains((reg * 32 + j) as u32));
        assert(w % (2 * t) == w % t + (if (w / t) % 2 == 1 {
            t
        } else {
            0
        })) by (nonlinear_arith)
            requires
                t >= 1,
        {
            let q = w / t;
            let r = w % t;
            assert(w == q * t + r && 0 <= r < t);
            let h = q / 2;
            let p = q % 2;
            assert(q == 2 * h + p);
            assert(w == h * (2 * t) + (p * t + r));
            assert(0 <= p * t + r < 2 * t);
            assert(w % (2 * t) == p * t + r);
        }
    }
}

/// Reading a dense form and writing it again gives the same bytes.
pub proof fn dense_form_reads_back(bytes: Seq<u8>)
    requires
        bytes.len() == 4096,
    ensures
        dense_bytes(plane_of_bytes(bytes)) == bytes,
{
    lemma_dense_prefix(bytes, 1024);
    assert(bytes.take(4096) =~= bytes);
}

proof fn lemma_dense_prefix(bytes: Seq<u8>, m: nat)
    requires
        bytes.len() == 4096,
        m <= 1024,
    ensures
        dense_below(plane_of_bytes(bytes), m) == bytes.take(4 * m as int),
    decreases m,
{
    if m == 0 {
        assert(bytes.take(0) =~= Seq::empty());
    } else {
        let j = (m - 1) as nat;
        lemma_dense_prefix(bytes, j);
        let s = plane_of_bytes(bytes);
        let part = bytes.subrange(4 * j as int, 4 * j as int + 4);
        let w = le_value(part);
        lemma_le_bytes_of_value(part);
        reveal_with_fuel(crate::text::pow256, 5);
        assert forall|tz: nat| tz < 32 implies #[trigger] word_bit(w, tz) == s.contains(
            (j * 32 + tz) as u32,
        ) by {
            let b = (j * 32 + tz) as u32;
            assert(b / 32 == j && b % 32 == tz);
        }
        lemma_word_of_bits(s, w, j as int, 32);
        lemma_two_full();
        assert(w % 0x1_0000_0000 == w);
        assert(bytes.take(4 * m as int) =~= bytes.take(4 * j as int) + part);
    }
}

/// Writing a plane in dense form and reading it back gives the plane.
pub proof fn plane_reads_back(s: Set<u32>)
    requires
        in_plane(s),
    ensures
        dense_bytes(s).len() == 4096,
        plane_of_bytes(dense_bytes(s)) == s,
{
    lemma_dense_len(s, 1024);
    let bytes = dense_bytes(s);
    assert forall|b: u32| plane_of_bytes(bytes).contains(b) == s.contains(b) by {
        if b < TOTAL_BITS {
            let reg = (b / 32) as int;
            lemma_dense_word(s, 1024, reg);
            lemma_word_bits(s, reg, 32, (b % 32) as nat);
            assert((reg * 32 + (b % 32)) as u32 == b);
        }
    }
    assert(plane_of_bytes(bytes) =~= s);
}

proof fn lemma_dense_len(s: Set<u32>, m: nat)
    ensures
        dense_below(s, m).len() == 4 * m,
    decreases m,
{
    if m > 0 {
        lemma_dense_len(s, (m - 1) as nat);
        reveal_with_fuel(le_bytes, 5);
    }
}

proof fn lemma_dense_word(s: Set<u32>, m: nat, reg: int)
    requires
        0 <= reg < m,
    ensures
        dense_below(s, m).len() == 4 * m,
        le_value(dense_below(s, m).subrange(4 * reg, 4 * reg + 4)) == register_word(s, reg),
    decreases m,
{
    lemma_dense_len(s, m);
    lemma_dense_len(s, (m - 1) as nat);
    let d = dense_below(s, m);
    let w = register_word(s, m - 1);
    lemma_word_bound(s, m - 1, 32);
    reveal_with_fuel(two, 34);
    reveal_with_fuel(crate::text::pow256, 5);
    crate::text::lemma_le_roundtrip(w, 4);
    if reg == m - 1 {
        assert(d.subrange(4 * reg, 4 * reg + 4) =~= le_bytes(w, 4));
    } else {
        lemma_dense_word(s, (m - 1) as nat, reg);
        assert(d.subrange(4 * reg, 4 * reg + 4) =~= dense_below(s, (m - 1) as nat).subrange(
            4 * reg,
            4 * reg + 4,
        ));
    }
}

/// Distinct planes have distinct dense forms.
pub proof fn dense_form_is_injective(a: Set<u32>, b: Set<u32>)
    requires
        in_plane(a),
        in_plane(b),
        dense_bytes(a) == dense_bytes(b),
    ensures
        a == b,
{
    plane_reads_back(a);
    plane_reads_back(b);
}

/// Union and intersection are idempotent, commutative, associative and
/// absorb each other; each distributes over the other.
pub proof fn lattice_laws(a: Set<u32>, b: Set<u32>, c: Set<u32>)
    ensures
        a.union(a) == a,
        a.intersect(a) == a,
        a.union(b) == b.union(a),
        a.intersect(b) == b.intersect(a),
        a.union(b).union(c) == a.union(b.union(c)),
        a.intersect(b).intersect(c) == a.intersect(b.intersect(c)),
        a.union(a.intersect(b)) == a,
        a.intersect(a.union(b)) == a,
        a.intersect(b.union(c)) == a.intersect(b).union(a.intersect(c)),
        a.union(b.intersect(c)) == a.union(b).intersect(a.union(c)),
{
    assert(a.union(a) =~= a);
    assert(a.intersect(a) =~= a);
    assert(a.union(b) =~= b.union(a));
    assert(a.intersect(b) =~= b.intersect(a));
    assert(a.union(b).union(c) =~= a.union(b.union(c)));
    assert(a.intersect(b).intersect(c) =~= a.intersect(b.intersect(c)));
    assert(a.union(a.intersect(b)) =~= a);
    assert(a.intersect(a.union(b)) =~= a);
    assert(a.intersect(b.union(c)) =~= a.intersect(b).union(a.intersect(c)));
    assert(a.union(b.intersect(c)) =~= a.union(b).intersect(a.union(c)));
}

/// Sketching the concatenation of two token lists is the union of their
/// sketches: ingestion is a join-homomorphism.
pub proof fn sketch_of_concatenation(a: Seq<Seq<u8>>, b: Seq<Seq<u8>>, seed: u64)
    ensures
        token_bits(a + b, seed) == token_bits(a, seed).union(token_bits(b, seed)),
{
    let ab = a + b;
    assert forall|x: u32|
        token_bits(ab, seed).contains(x) == token_bits(a, seed).union(
            token_bits(b, seed),
        ).contains(x) by {
        if token_bits(ab, seed).contains(x) {
            let j = choose|j: int| 0 <= j < ab.len() && x == bit_of(#[trigger] ab[j], seed);
            if j < a.len() {
                assert(a[j] == ab[j]);
            } else {
                assert(b[j - a.len()] == ab[j]);
            }
        }
        if token_bits(a, seed).contains(x) {
            let j = choose|j: int| 0 <= j < a.len() && x == bit_of(#[trigger] a[j], seed);
            assert(ab[j] == a[j]);
        }
        if token_bits(b, seed).contains(x) {
            let j = choose|j: int| 0 <= j < b.len() && x == bit_of(#[trigger] b[j], seed);
            assert(ab[j + a.len()] == b[j]);
        }
    }
    assert(token_bits(ab, seed) =~= token_bits(a, seed).union(token_bits(b, seed)));
}

/// Every plane is the union of the atoms of its bits, and of no other set of
/// atoms.
pub proof fn planes_decompose_into_atoms(plane: Set<u32>, bits: Seq<u32>)
    ensures
        union_of(bits.map_values(|b: u32| set![b])) == plane <==> bits.to_set() == plane,
{
    let atoms = bits.map_values(|b: u32| set![b]);
    assert forall|b: u32| union_of(atoms).contains(b) == bits.to_set().contains(b) by {
        if union_of(atoms).contains(b) {
            let i = choose|i: int| 0 <= i < atoms.len() && (#[trigger] atoms[i]).contains(b);
            assert(bits[i] == b);
        }
        if bits.contains(b) {
            let i = choose|i: int| 0 <= i < bits.len() && bits[i] == b;
            assert(atoms[i].contains(b));
        }
    }
    assert(union_of(atoms) =~= bits.to_set());
}

proof fn lemma_byte_bits(x: nat, y: nat, k: nat)
    requires
        x < 256,
    ensures
        k < 8 ==> word_bit(x + 256 * y, k) == word_bit(x, k),
        k >= 8 ==> word_bit(x + 256 * y, k) == word_bit(y, (k - 8) as nat),
{
    let w = x + 256 * y;
    lemma_two_pos(k);
    assert(two(8) == 256) by {
        reveal_with_fuel(two, 9);
    }
    if k < 8 {
        lemma_two_split(8, k);
        let q = two((7 - k) as nat);
        let t = two(k);
        assert(256 * y == 2 * (q * y) * t) by (nonlinear_arith)
            requires
                256 == 2 * q * t,
        ;
        let z = q * y;
        assert((x + 2 * z * t) / t == x / t + 2 * z) by (nonlinear_arith)
            requires
                t >= 1,
        ;
        let h = x / t;
        assert((h + 2 * z) % 2 == h % 2);
    } else {
        let t = two((k - 8) as nat);
        lemma_two_pos((k - 8) as nat);
        assert(two(k) == 256 * t) by {
            reveal_with_fuel(two, 9);
        }
        vstd::arithmetic::div_mod::lemma_div_denominator(w as int, 256, t as int);
        assert(w / 256 == y);
    }
}

proof fn lemma_value_bits(s: Seq<u8>, k: nat)
    requires
        k < 8 * s.len(),
    ensures
        word_bit(le_value(s), k) == word_bit(s[k as int / 8] as nat, k % 8),
    decreases s.len(),
{
    let rest = s.drop_first();
    lemma_byte_bits(s[0] as nat, le_value(rest), k);
    if k >= 8 {
        let j = (k - 8) as nat;
        lemma_value_bits(rest, j);
        assert(rest[j as int / 8] == s[k as int / 8]);
        assert(j % 8 == k % 8);
    }
}

/// The dense form stores a plane bit by bit: bit `b` of the plane is bit
/// `b % 8` of byte `b / 8`, counted from the low end.
pub proof fn planes_are_stored_bit_by_bit(s: Set<u32>, b: u32)
    requires
        b < TOTAL_BITS,
    ensures
        dense_bytes(s).len() == 4096,
        s.contains(b) == word_bit(dense_bytes(s)[b as int / 8] as nat, (b % 8) as nat),
{
    let reg = b as int / 32;
    let tz = (b % 32) as nat;
    let d = dense_bytes(s);
    lemma_dense_word(s, 1024, reg);
    lemma_word_bits(s, reg, 32, tz);
    let w = d.subrange(4 * reg, 4 * reg + 4);
    lemma_value_bits(w, tz);
    assert(w[tz as int / 8] == d[4 * reg + tz as int / 8]);
    assert(4 * reg + tz as int / 8 == b as int / 8);
    assert(tz % 8 == b % 8);
    assert((reg * 32 + tz) as u32 == b);
}

/// A bit counts once, at its own height.
pub proof fn a_bit_counts_at_its_height(plane: Set<u32>, b: u32, t: u32)
    requires
        plane.finite(),
        !plane.contains(b),
    ensures
        height_count(plane.insert(b), t) == height_count(plane, t) + if t == b % 32 {
            1int
        } else {
            0
        },
        height_count(Set::empty(), t) == 0,
{
    let f = |x: u32| x % 32 == t;
    assert(Set::<u32>::empty().filter(f) =~= Set::empty());
    if t == b % 32 {
        assert(plane.insert(b).filter(f) =~= plane.filter(f).insert(b));
    } else {
        assert(plane.insert(b).filter(f) =~= plane.filter(f));
    }
}

} // verus!
