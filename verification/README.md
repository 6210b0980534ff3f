# hllset

An algebra of token sketches, verified with Verus.

A sketch is a plane of 1024 registers by 32 heights. Every token sets one bit
of it, chosen by its MurmurHash3. Planes form a Boolean lattice; around it the
library builds tables from bits back to tokens, contexts of conversations that
can be restored from their unions, ranks, a temporal pyramid, and
content-addressed storage.

Every function states what it returns or changes over mathematical models
(`Set<u32>` for a plane, `Map` and `Seq` for tables and sequences), and the
laws of the algebra are proved as public proof functions next to the types
they speak of.

## Layout

- `src/` is the verified library.
  - Planes and hashing: `hashing`, `hllset`, `lattice`, `tfvec`, `cid`,
    `content_addr`, `commit`, `block`.
  - Contracts: `token`, `stream`, `module`.
  - Tables and restoration: `lut`, `tf`, `ingest`, `materialize`, `engines`,
    `tokenlut`, `euler`, `strategies`, `chunks`, `worker`.
  - Contexts: `ngrams`, `exchange`, `matrix`, `context`, `cover`, `debruijn`,
    `restoration`, `prompt`, `roundtrip`, `noether`.
  - Ranks: `ranks`, `registers`, `mask`, `fisher`, `derivatives`,
    `correlation`.
  - Networks and time: `distributed`, `bridge`, `mesh`, `temporal`.
  - Language and shell: `tokenizer`, `forth`, `session`, `shell`.
  - Storage: `storage`, `memory`.
  - Foundations: `order`, `collections`, `maps`, `text`.
- `tests/` runs the library on concrete values.
- `app/` is the command line around it: argument handling, the Lua runtime,
  SQLite and sled files, mesh nodes, and what needs floating point.

## Trust

MurmurHash3, SHA-1, hexadecimal and JSON string encoding, block identifiers,
lossy UTF-8 decoding and the clock come from other crates or the standard
library. Each stands behind one small function whose doc comment says what is
taken for granted.
