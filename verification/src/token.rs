//! Token identity: how an integer token id is written as bytes.
use vstd::prelude::*;

use crate::text::{
    decimal, digits, digits_value, is_digit, le_bytes, le_value, lemma_digits_roundtrip,
    lemma_le_bytes_of_value, lemma_le_roundtrip, pow256, push_le, read_le,
};

verus! {

/// A token id of the language model's encoding.
pub type TokenId = u32;

/// The bytes of the prefix `tid`.
pub open spec fn tid_prefix() -> Seq<u8> {
    seq![116u8, 105u8, 100u8]
}

/// The inscription `tid{n}`.
pub open spec fn inscription(id: TokenId) -> Seq<u8> {
    tid_prefix() + digits(id as nat)
}

/// Inscribes a token id as the bytes `tid{n}`.
pub fn token_in_bytes(id: TokenId) -> (r: Vec<u8>)
    ensures
        r@ == inscription(id),
{
    let mut r: Vec<u8> = Vec::new();
    r.push(116);
    r.push(105);
    r.push(100);
    let mut d = decimal(id as u64);
    r.append(&mut d);
    assert(r@ =~= inscription(id));
    r
}

/// Inscribes a token id as four little-endian bytes.
pub fn token_in_bytes_le(id: TokenId) -> (r: [u8; 4])
    ensures
        r@ == le_bytes(id as nat, 4),
{
    let mut v: Vec<u8> = Vec::new();
    push_le(&mut v, id as u64, 4);
    proof {
        reveal_with_fuel(pow256, 5);
        lemma_le_roundtrip(id as nat, 4);
    }
    let r = [v[0], v[1], v[2], v[3]];
    assert(r@ =~= le_bytes(id as nat, 4));
    r
}

/// The digits of an inscription: what follows `tid` and at most one plus sign.
pub open spec fn id_digits(bytes: Seq<u8>) -> Seq<u8> {
    if bytes.len() > 3 && bytes[3] == 43 {
        bytes.skip(4)
    } else {
        bytes.skip(3)
    }
}

/// The id that an inscription denotes, if it denotes one.
pub open spec fn parsed_id(bytes: Seq<u8>) -> Option<TokenId> {
    let d = id_digits(bytes);
    if bytes.len() > 3 && bytes.take(3) == tid_prefix() && d.len() > 0 && (forall|i: int|
        0 <= i < d.len() ==> is_digit(#[trigger] d[i])) && digits_value(d) <= u32::MAX {
        Some(digits_value(d) as u32)
    } else {
        None
    }
}

/// A longer run of digits never denotes a smaller number.
proof fn lemma_digits_value_monotone(s: Seq<u8>, i: int)
    requires
        0 <= i <= s.len(),
        forall|j: int| 0 <= j < s.len() ==> is_digit(#[trigger] s[j]),
    ensures
        digits_value(s.take(i)) <= digits_value(s),
    decreases s.len(),
{
    if i < s.len() {
        lemma_digits_value_monotone(s.drop_last(), i);
        assert(s.drop_last().take(i) =~= s.take(i));
    } else {
        assert(s.take(i) =~= s);
    }
}

/// Parses the inscription `tid{n}` back to the id.
pub fn parse_token_id(bytes: &[u8]) -> (r: Option<TokenId>)
    ensures
        r == parsed_id(bytes@),
{
    if bytes.len() < 4 || bytes[0] != 116 || bytes[1] != 105 || bytes[2] != 100 {
        proof {
            if bytes@.len() > 3 {
                assert(bytes@.take(3)[0] == bytes@[0]);
                assert(bytes@.take(3)[1] == bytes@[1]);
                assert(bytes@.take(3)[2] == bytes@[2]);
            }
        }
        return None;
    }
    proof {
        assert(bytes@.take(3) =~= tid_prefix());
    }
    let start: usize = if bytes[3] == 43 {
        4
    } else {
        3
    };
    let ghost d = id_digits(bytes@);
    if start == bytes.len() {
        return None;
    }
    let mut acc: u64 = 0;
    let mut i: usize = start;
    proof {
        assert(d.take(0) =~= Seq::empty());
    }
    while i < bytes.len()
        invariant
            3 <= start <= i <= bytes@.len(),
            d == bytes@.skip(start as int),
            d == id_digits(bytes@),
            forall|j: int| 0 <= j < i - start ==> is_digit(#[trigger] d[j]),
            acc == digits_value(d.take(i - start)),
            acc <= u32::MAX,
        decreases bytes@.len() - i,
    {
        let b: u8 = bytes[i];
        proof {
            assert(d[i - start] == b);
            assert(d.take(i - start + 1).drop_last() =~= d.take(i - start));
            assert(d.take(i - start + 1).last() == b);
        }
        if b < 48 || b > 57 {
            return None;
        }
        acc = 10 * acc + (b - 48) as u64;
        if acc > u32::MAX as u64 {
            proof {
                if forall|j: int| 0 <= j < d.len() ==> is_digit(#[trigger] d[j]) {
                    lemma_digits_value_monotone(d, i - start + 1);
                }
            }
            return None;
        }
        i = i + 1;
    }
    proof {
        assert(d.take(i - start) =~= d);
    }
    Some(acc as u32)
}

/// Parses the four-byte little-endian inscription back to the id.
pub fn parse_token_id_le(bytes: &[u8]) -> (r: Option<TokenId>)
    ensures
        r is Some <==> bytes@.len() == 4,
        r matches Some(id) ==> id == le_value(bytes@),
{
    if bytes.len() != 4 {
        return None;
    }
    let v: u64 = read_le(bytes);
    proof {
        lemma_le_bytes_of_value(bytes@);
        reveal_with_fuel(pow256, 5);
    }
    Some(v as u32)
}

/// Parsing an inscription gives back the id that was inscribed.
pub proof fn inscription_parses_back(id: TokenId)
    ensures
        parsed_id(inscription(id)) == Some(id),
{
    lemma_digits_roundtrip(id as nat);
    let b = inscription(id);
    assert(b.take(3) =~= tid_prefix());
    assert(b[3] == digits(id as nat)[0]);
    assert(b.skip(3) =~= digits(id as nat));
}

/// Distinct ids have distinct inscriptions, in either encoding.
pub proof fn inscriptions_are_distinct(a: TokenId, b: TokenId)
    requires
        a != b,
    ensures
        inscription(a) != inscription(b),
        le_bytes(a as nat, 4) != le_bytes(b as nat, 4),
{
    inscription_parses_back(a);
    inscription_parses_back(b);
    reveal_with_fuel(pow256, 5);
    lemma_le_roundtrip(a as nat, 4);
    lemma_le_roundtrip(b as nat, 4);
}

/// The little-endian inscription reads back as the id, and the bytes that an
/// id was read from are its inscription.
pub proof fn le_inscription_parses_back(id: TokenId, bytes: Seq<u8>)
    requires
        bytes.len() == 4,
    ensures
        le_value(le_bytes(id as nat, 4)) == id,
        le_bytes(le_value(bytes), 4) == bytes,
{
    reveal_with_fuel(pow256, 5);
    lemma_le_roundtrip(id as nat, 4);
    lemma_le_bytes_of_value(bytes);
}

/// An id is read from `tid`, at most one plus sign and decimal digits that
/// denote it, leading zeros or not, and from nothing else.
pub proof fn ids_are_read_from_their_digits(d: Seq<u8>)
    requires
        d.len() > 0,
    ensures
        (forall|i: int| 0 <= i < d.len() ==> is_digit(#[trigger] d[i])) && digits_value(d)
            <= u32::MAX ==> parsed_id(tid_prefix() + d) == Some(digits_value(d) as u32)
            && parsed_id(tid_prefix() + seq![43u8] + d) == Some(digits_value(d) as u32),
        (forall|i: int| 0 <= i < d.len() ==> is_digit(#[trigger] d[i])) && digits_value(d)
            > u32::MAX ==> parsed_id(tid_prefix() + d) is None,
        d[0] != 43 && (exists|i: int| 0 <= i < d.len() && !is_digit(#[trigger] d[i])) ==> parsed_id(
            tid_prefix() + d,
        ) is None,
        parsed_id(tid_prefix()) is None,
        parsed_id(tid_prefix() + seq![43u8]) is None,
{
    let one = tid_prefix() + d;
    let two = tid_prefix() + seq![43u8] + d;
    assert(one.take(3) =~= tid_prefix());
    assert(two.take(3) =~= tid_prefix());
    assert(one[3] == d[0]);
    assert(one.skip(3) =~= d);
    assert(two[3] == 43);
    assert(two.skip(4) =~= d);
    assert((tid_prefix() + seq![43u8]).skip(4) =~= Seq::empty());
}

/// What an id was read from opens with `tid`.
pub proof fn ids_are_read_after_their_prefix(bytes: Seq<u8>)
    ensures
        parsed_id(bytes) is Some ==> bytes.len() > 3 && bytes[0] == 116 && bytes[1] == 105
            && bytes[2] == 100,
{
    if parsed_id(bytes) is Some {
        assert(bytes.take(3)[0] == 116 && bytes.take(3)[1] == 105 && bytes.take(3)[2] == 100);
    }
}

} // verus!
