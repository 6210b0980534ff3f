//! The wire form of term-frequency vectors.
//!
//! A vector has one 64-bit value for each bit of the plane. The values are
//! floating-point numbers held by their bit patterns; the form on the wire is
//! the entry count in four little-endian bytes, then eight little-endian
//! bytes for each value.
use vstd::prelude::*;

use crate::text::{le_bytes, le_value, lemma_le_roundtrip, pow256, push_le, read_le};

verus! {

/// Number of entries: one for each bit of the plane.
pub const TF_ENTRIES: usize = 32768;

/// Size of the wire form in bytes.
pub const TFVEC_BYTES: usize = 262148;

/// A term-frequency vector: the bit pattern of one value for each bit.
pub struct TFVec {
    pub values: Vec<u64>,
}

/// The bit patterns of zero.
pub open spec fn is_zero(v: u64) -> bool {
    v == 0 || v == 0x8000_0000_0000_0000
}

/// The values in eight little-endian bytes each.
pub open spec fn tf_body(values: Seq<u64>) -> Seq<u8>
    decreases values.len(),
{
    if values.len() == 0 {
        Seq::empty()
    } else {
        tf_body(values.drop_last()) + le_bytes(values.last() as nat, 8)
    }
}

/// The wire form of a vector.
pub open spec fn tf_wire(values: Seq<u64>) -> Seq<u8> {
    le_bytes(32768, 4) + tf_body(values)
}

/// A byte string that holds a vector.
pub open spec fn holds_vector(bytes: Seq<u8>) -> bool {
    bytes.len() >= TFVEC_BYTES && le_value(bytes.take(4)) == 32768
}

/// The value at a place of a byte string that holds a vector.
pub open spec fn stored_value(bytes: Seq<u8>, i: int) -> nat {
    le_value(bytes.subrange(4 + 8 * i, 12 + 8 * i))
}

impl TFVec {
    /// A vector has one entry for each bit.
    pub open spec fn wf(&self) -> bool {
        self.values@.len() == TF_ENTRIES
    }

    /// The zero vector.
    pub fn new() -> (r: Self)
        ensures
            r.wf(),
            forall|i: int| 0 <= i < TF_ENTRIES ==> #[trigger] r.values@[i] == 0,
    {
        let mut values: Vec<u64> = Vec::new();
        while values.len() < TF_ENTRIES
            invariant
                values@.len() <= TF_ENTRIES,
                forall|i: int| 0 <= i < values@.len() ==> #[trigger] values@[i] == 0,
            decreases TF_ENTRIES - values@.len(),
        {
            values.push(0);
        }
        TFVec { values }
    }

    /// A vector of the given values; fails unless there is one for each bit.
    pub fn from_values(values: Vec<u64>) -> (r: Option<Self>)
        ensures
            r is Some <==> values@.len() == TF_ENTRIES,
            r matches Some(v) ==> v.values@ == values@ && v.wf(),
    {
        if values.len() == TF_ENTRIES {
            Some(TFVec { values })
        } else {
            None
        }
    }

    /// The value at a bit position.
    pub fn get(&self, position: usize) -> (r: u64)
        requires
            position < self.values@.len(),
        ensures
            r == self.values@[position as int],
    {
        self.values[position]
    }

    /// The number of entries.
    pub fn len(&self) -> (r: usize)
        ensures
            r == self.values@.len(),
    {
        self.values.len()
    }

    /// Whether every value is zero, of either sign.
    pub fn is_empty(&self) -> (r: bool)
        ensures
            r == (forall|i: int| 0 <= i < self.values@.len() ==> is_zero(#[trigger] self.values@[i])),
    {
        let mut i: usize = 0;
        while i < self.values.len()
            invariant
                i <= self.values@.len(),
                forall|j: int| 0 <= j < i ==> is_zero(#[trigger] self.values@[j]),
            decreases self.values@.len() - i,
        {
            if self.values[i] != 0 && self.values[i] != 0x8000_0000_0000_0000 {
                return false;
            }
            i = i + 1;
        }
        true
    }

    /// The wire form.
    pub fn to_bytes(&self) -> (r: Vec<u8>)
        ensures
            r@ == tf_wire(self.values@),
    {
        let mut bytes: Vec<u8> = Vec::new();
        push_le(&mut bytes, 32768, 4);
        let mut i: usize = 0;
        proof {
            assert(self.values@.take(0) =~= Seq::empty());
            assert(bytes@ =~= le_bytes(32768, 4) + tf_body(self.values@.take(0)));
        }
        while i < self.values.len()
            invariant
                i <= self.values@.len(),
                bytes@ == le_bytes(32768, 4) + tf_body(self.values@.take(i as int)),
            decreases self.values@.len() - i,
        {
            push_le(&mut bytes, self.values[i], 8);
            proof {
                let part = self.values@.take(i + 1);
                assert(part.drop_last() =~= self.values@.take(i as int));
                assert(bytes@ =~= le_bytes(32768, 4) + tf_body(part));
            }
            i = i + 1;
        }
        proof {
            assert(self.values@.take(i as int) =~= self.values@);
        }
        bytes
    }

    /// Reads the wire form; fails where the count is not the entry count or
    /// bytes are missing. Bytes past the last value are ignored.
    pub fn from_bytes(bytes: &[u8]) -> (r: Option<Self>)
        ensures
            r is Some <==> holds_vector(bytes@),
            r matches Some(v) ==> v.wf() && forall|i: int|
                0 <= i < TF_ENTRIES ==> #[trigger] v.values@[i] == stored_value(bytes@, i),
    {
        if bytes.len() < 4 {
            return None;
        }
        let head = [bytes[0], bytes[1], bytes[2], bytes[3]];
        proof {
            assert(head@ =~= bytes@.take(4));
        }
        let n: u64 = read_le(head.as_slice());
        if n != 32768 || bytes.len() < TFVEC_BYTES {
            return None;
        }
        let mut values: Vec<u64> = Vec::new();
        let mut i: usize = 0;
        while i < TF_ENTRIES
            invariant
                i <= TF_ENTRIES,
                bytes@.len() >= TFVEC_BYTES,
                values@.len() == i,
                forall|j: int| 0 <= j < i ==> #[trigger] values@[j] == stored_value(bytes@, j),
            decreases TF_ENTRIES - i,
        {
            let at: usize = 4 + i * 8;
            let part = [
                bytes[at],
                bytes[at + 1],
                bytes[at + 2],
                bytes[at + 3],
                bytes[at + 4],
                bytes[at + 5],
                bytes[at + 6],
                bytes[at + 7],
            ];
            proof {
                assert(part@ =~= bytes@.subrange(4 + 8 * i, 12 + 8 * i));
            }
            values.push(read_le(part.as_slice()));
            i = i + 1;
        }
        Some(TFVec { values })
    }
}

proof fn lemma_tf_body(values: Seq<u64>, i: int)
    requires
        0 <= i < values.len(),
    ensures
        tf_body(values).len() == 8 * values.len(),
        le_value(tf_body(values).subrange(8 * i, 8 * i + 8)) == values[i],
    decreases values.len(),
{
    let before = values.drop_last();
    let last = le_bytes(values.last() as nat, 8);
    reveal_with_fuel(pow256, 9);
    lemma_le_roundtrip(values.last() as nat, 8);
    lemma_tf_body_len(before);
    let body = tf_body(values);
    if i == values.len() - 1 {
        assert(body.subrange(8 * i, 8 * i + 8) =~= last);
    } else {
        lemma_tf_body(before, i);
        assert(body.subrange(8 * i, 8 * i + 8) =~= tf_body(before).subrange(8 * i, 8 * i + 8));
    }
}

proof fn lemma_tf_body_len(values: Seq<u64>)
    ensures
        tf_body(values).len() == 8 * values.len(),
    decreases values.len(),
{
    if values.len() > 0 {
        lemma_tf_body_len(values.drop_last());
        reveal_with_fuel(pow256, 9);
        lemma_le_roundtrip(values.last() as nat, 8);
    }
}

/// Reading the wire form of a vector gives back its values.
pub proof fn wire_form_reads_back(values: Seq<u64>)
    requires
        values.len() == TF_ENTRIES,
    ensures
        tf_wire(values).len() == TFVEC_BYTES,
        holds_vector(tf_wire(values)),
        forall|i: int| 0 <= i < TF_ENTRIES ==> stored_value(tf_wire(values), i) == #[trigger] values[i],
{
    let w = tf_wire(values);
    reveal_with_fuel(pow256, 5);
    lemma_le_roundtrip(32768, 4);
    lemma_tf_body_len(values);
    assert(w.take(4) =~= le_bytes(32768, 4));
    assert forall|i: int| 0 <= i < TF_ENTRIES implies stored_value(w, i) == #[trigger] values[i] by {
        lemma_tf_body(values, i);
        assert(w.subrange(4 + 8 * i, 12 + 8 * i) =~= tf_body(values).subrange(8 * i, 8 * i + 8));
    }
}

} // verus!
