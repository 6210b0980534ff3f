//! HLLSet algebra: sets of tokens as bit planes, with exact lattice operations.
pub mod block;
pub mod bridge;
pub mod cid;
pub mod collections;
pub mod commit;
pub mod content_addr;
pub mod chunks;
pub mod context;
pub mod correlation;
pub mod cover;
pub mod debruijn;
pub mod derivatives;
pub mod distributed;
pub mod engines;
pub mod euler;
pub mod exchange;
pub mod fisher;
pub mod forth;
pub mod hashing;
pub mod hllset;
pub mod ingest;
pub mod lattice;
pub mod lut;
pub mod maps;
pub mod mask;
pub mod materialize;
pub mod matrix;
pub mod memory;
pub mod mesh;
pub mod module;
pub mod ngrams;
pub mod noether;
pub mod order;
pub mod prompt;
pub mod ranks;
pub mod registers;
pub mod restoration;
pub mod roundtrip;
pub mod session;
pub mod shell;
pub mod storage;
pub mod strategies;
pub mod stream;
pub mod temporal;
pub mod text;
pub mod tf;
pub mod tfvec;
pub mod token;
pub mod tokenizer;
pub mod tokenlut;
pub mod worker;

use vstd::prelude::*;

verus! {

/// The version of the wire protocol. It grows with any change of a wire form.
pub const PROTOCOL_VERSION: u32 = 1;

/// The version of the vocabulary. It grows with any change of an invariant.
pub const CONTRACT_VERSION: u32 = 2;

} // verus!
