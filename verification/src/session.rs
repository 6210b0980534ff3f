//! A session: what scripts hold on to between calls. Elements are inscribed
//! from script values, stored and loaded by content key, and kept by name.
use vstd::prelude::*;
use vstd::string::*;

use crate::hllset::{dense_bytes, plane_key, plane_of_bytes, token_bits, HLLSet};
use crate::lattice::{text_tokens, LatticeElement};
use crate::maps::OrdMap;
use crate::shell::{integer_string, integer_text};
use crate::storage::{put_block, Storage, StorageError, StorageResult};
use crate::text::texts;

verus! {

/// A value of a script, as far as inscription reads it.
#[derive(Debug, PartialEq, Eq)]
pub enum ScriptValue {
    /// A string.
    Text(String),
    /// An integer.
    Integer(i64),
    /// Another number, as it is written.
    Number(String),
    /// Anything else.
    Other,
}

/// The token texts of some values: strings and numbers, in order.
pub open spec fn value_texts(values: Seq<ScriptValue>) -> Seq<Seq<char>>
    decreases values.len(),
{
    if values.len() == 0 {
        Seq::empty()
    } else {
        let before = value_texts(values.drop_last());
        match values.last() {
            ScriptValue::Text(s) => before.push(s@),
            ScriptValue::Integer(i) => before.push(integer_text(i as int)),
            ScriptValue::Number(s) => before.push(s@),
            ScriptValue::Other => before,
        }
    }
}

/// The element of some script values; what is neither a string nor a number
/// is left out.
pub fn inscribe(values: &[ScriptValue]) -> (r: LatticeElement)
    ensures
        r@ == token_bits(text_tokens(value_texts(values@)), 0),
{
    let mut tokens: Vec<String> = Vec::new();
    let mut i: usize = 0;
    proof {
        assert(values@.take(0) =~= Seq::empty());
        assert(texts(tokens@) =~= Seq::empty());
    }
    while i < values.len()
        invariant
            i <= values@.len(),
            texts(tokens@) == value_texts(values@.take(i as int)),
        decreases values@.len() - i,
    {
        let ghost before = tokens@;
        proof {
            assert(values@.take(i + 1).drop_last() =~= values@.take(i as int));
            assert(values@.take(i + 1).last() == values@[i as int]);
        }
        match &values[i] {
            ScriptValue::Text(s) => {
                tokens.push(s.clone());
                assert(texts(tokens@) =~= texts(before).push(s@));
            },
            ScriptValue::Integer(n) => {
                tokens.push(integer_string(*n));
                assert(texts(tokens@) =~= texts(before).push(integer_text(*n as int)));
            },
            ScriptValue::Number(s) => {
                tokens.push(s.clone());
                assert(texts(tokens@) =~= texts(before).push(s@));
            },
            ScriptValue::Other => {},
        }
        i = i + 1;
    }
    proof {
        assert(values@.take(i as int) =~= values@);
    }
    LatticeElement::from_texts(tokens.as_slice())
}

/// Why an element does not load.
#[derive(Debug)]
pub enum LoadError {
    /// The backend failed.
    Backend(StorageError),
    /// The block under the key is no plane.
    InvalidData,
}

/// Elements by name over a storage backend.
pub struct Session<S: Storage> {
    pub storage: S,
    pub registry: OrdMap<String, LatticeElement>,
}

impl<S: Storage> Session<S> {
    /// The planes of the kept elements, by name.
    pub open spec fn kept(&self) -> Map<Seq<char>, Set<u32>> {
        self.registry@.map_values(|e: LatticeElement| e@)
    }

    /// A session that keeps nothing yet.
    pub fn new(storage: S) -> (r: Self)
        ensures
            r.storage == storage,
            r.kept() == Map::<Seq<char>, Set<u32>>::empty(),
    {
        let r = Session { storage, registry: OrdMap::new() };
        proof {
            assert(r.kept() =~= Map::empty());
        }
        r
    }

    /// Stores an element under its content key.
    pub fn store_element(&mut self, element: &LatticeElement) -> (r: StorageResult<()>)
        ensures
            r is Ok ==> final(self).storage.blocks() == put_block(
                old(self).storage.blocks(),
                plane_key(element@),
                dense_bytes(element@),
            ),
            old(self).storage.reliable() ==> r is Ok,
            final(self).storage.reliable() == old(self).storage.reliable(),
            final(self).kept() == old(self).kept(),
    {
        let bytes = element.hllset().to_bytes();
        self.storage.store(element.key(), bytes.as_slice())
    }

    /// Loads the element under a key: none where no block stands there, an
    /// error where the block is no plane or the backend fails.
    pub fn load_element(&self, key: &str) -> (r: Result<Option<LatticeElement>, LoadError>)
        ensures
            match r {
                Ok(None) => !self.storage.blocks().contains_key(key@),
                Ok(Some(e)) => {
                    let blocks = self.storage.blocks();
                    blocks.contains_key(key@) && blocks[key@].len() == 4096 && e@
                        == plane_of_bytes(blocks[key@])
                },
                Err(LoadError::InvalidData) => {
                    let blocks = self.storage.blocks();
                    blocks.contains_key(key@) && blocks[key@].len() != 4096
                },
                Err(LoadError::Backend(_)) => !self.storage.reliable(),
            },
    {
        match self.storage.load(key) {
            Ok(Some(bytes)) => match HLLSet::from_bytes(bytes.as_slice()) {
                Some(plane) => Ok(Some(LatticeElement::new(plane))),
                None => Err(LoadError::InvalidData),
            },
            Ok(None) => Ok(None),
            Err(e) => Err(LoadError::Backend(e)),
        }
    }

    /// Keeps an element under a name, in place of an earlier one.
    pub fn store(&mut self, name: &str, element: LatticeElement)
        ensures
            final(self).kept() == old(self).kept().insert(name@, element@),
            final(self).storage == old(self).storage,
    {
        self.registry.insert(name.to_owned(), element);
        proof {
            assert(self.kept() =~= old(self).kept().insert(name@, element@));
        }
    }

    /// The element kept under a name.
    pub fn get(&self, name: &str) -> (r: Option<&LatticeElement>)
        ensures
            r is Some <==> self.kept().contains_key(name@),
            r matches Some(e) ==> e@ == self.kept()[name@],
    {
        self.registry.get(&name.to_owned())
    }
}

/// A stored element loads back, unless another block already held its key.
pub proof fn stored_elements_load_back(blocks: Map<Seq<char>, Seq<u8>>, plane: Set<u32>)
    requires
        crate::hllset::in_plane(plane),
        blocks.contains_key(plane_key(plane)) ==> blocks[plane_key(plane)] == dense_bytes(plane),
    ensures
        ({
            let after = put_block(blocks, plane_key(plane), dense_bytes(plane));
            &&& after.contains_key(plane_key(plane))
            &&& after[plane_key(plane)].len() == 4096
            &&& plane_of_bytes(after[plane_key(plane)]) == plane
        }),
{
    crate::hllset::plane_reads_back(plane);
}

/// Values are inscribed one after the other: a string as it stands, an integer
/// as its decimal text, another number as its own text, and nothing for the
/// rest.
pub proof fn values_are_inscribed_in_order(
    a: Seq<ScriptValue>,
    b: Seq<ScriptValue>,
    v: ScriptValue,
)
    ensures
        value_texts(a + b) == value_texts(a) + value_texts(b),
        value_texts(seq![v]) == match v {
            ScriptValue::Text(s) => seq![s@],
            ScriptValue::Integer(i) => seq![integer_text(i as int)],
            ScriptValue::Number(s) => seq![s@],
            ScriptValue::Other => Seq::empty(),
        },
    decreases b.len(),
{
    assert(seq![v].drop_last() =~= Seq::empty());
    let none = value_texts(seq![v].drop_last());
    assert(none =~= Seq::empty());
    match v {
        ScriptValue::Text(s) => {
            assert(none.push(s@) =~= seq![s@]);
        },
        ScriptValue::Integer(i) => {
            assert(none.push(integer_text(i as int)) =~= seq![integer_text(i as int)]);
        },
        ScriptValue::Number(s) => {
            assert(none.push(s@) =~= seq![s@]);
        },
        ScriptValue::Other => {},
    }
    if b.len() == 0 {
        assert(a + b =~= a);
        assert(value_texts(a) + value_texts(b) =~= value_texts(a));
    } else {
        assert((a + b).drop_last() =~= a + b.drop_last());
        values_are_inscribed_in_order(a, b.drop_last(), v);
        assert(value_texts(a + b) =~= value_texts(a) + value_texts(b));
    }
}

} // verus!
