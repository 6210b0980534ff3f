//! Hashing: MurmurHash3 positions and SHA-1 addresses.
//!
//! A token's 64-bit hash fixes one bit of the plane: the register is the hash
//! modulo the register count, the height is the number of trailing zeros of
//! the remaining bits.
use vstd::prelude::*;
use vstd::std_specs::bits::*;

verus! {

/// Precision bits: the register count is two to this power.
pub const P: u32 = 10;

/// Number of registers.
pub const M: u32 = 1024;

/// Trailing-zero states tracked per register.
pub const BITS_PER_REG: u32 = 32;

/// Total bit positions in the dense plane.
pub const TOTAL_BITS: u32 = 32768;

/// What `murmur3::murmur3_x64_128` returns for some bytes and a seed.
pub uninterp spec fn murmur3_x64_128(data: Seq<u8>, seed: u32) -> u128;

/// Calls `murmur3::murmur3_x64_128` on an in-memory reader over the bytes,
/// which cannot fail.
#[verifier::external_body]
fn murmur3_128(data: &[u8], seed: u32) -> (r: u128)
    ensures
        r == murmur3_x64_128(data@, seed),
{
    murmur3::murmur3_x64_128(&mut std::io::Cursor::new(data), seed).expect("in-memory reader")
}

/// What SHA-1 makes of some bytes (`sha1::Sha1`).
pub uninterp spec fn sha1_digest(data: Seq<u8>) -> Seq<u8>;

/// Calls `sha1::Sha1::digest`: the twenty bytes of the digest.
#[verifier::external_body]
fn sha1_bytes(data: &[u8]) -> (r: Vec<u8>)
    ensures
        r@ == sha1_digest(data@),
        r@.len() == 20,
{
    <sha1::Sha1 as sha1::Digest>::digest(data).to_vec()
}

/// A hexadecimal digit in lower case.
pub open spec fn hex_digit(d: int) -> char {
    if d < 10 {
        (48 + d) as char
    } else {
        (87 + d) as char
    }
}

/// Bytes in lower-case hexadecimal, two digits each.
pub open spec fn hex_text(bytes: Seq<u8>) -> Seq<char> {
    Seq::new(
        2 * bytes.len(),
        |i: int|
            if i % 2 == 0 {
                hex_digit(bytes[i / 2] as int / 16)
            } else {
                hex_digit(bytes[i / 2] as int % 16)
            },
    )
}

/// Calls `hex::encode`: two lower-case hexadecimal digits for each byte.
#[verifier::external_body]
fn hex_encode(bytes: &[u8]) -> (r: String)
    ensures
        r@ == hex_text(bytes@),
{
    hex::encode(bytes)
}

/// The 64-bit hash of some bytes: the low half of MurmurHash3 x64-128, with
/// the seed cut to 32 bits.
pub open spec fn hash64(data: Seq<u8>, seed: u64) -> u64 {
    (murmur3_x64_128(data, (seed % 0x1_0000_0000) as u32) % 0x1_0000_0000_0000_0000) as u64
}

/// MurmurHash3 x64-128, lower 64 bits, seed 0.
pub fn murmur3_hash(data: &[u8]) -> (r: u64)
    ensures
        r == hash64(data@, 0),
{
    murmur3_hash_seeded(data, 0)
}

/// Seeded MurmurHash3 x64-128, lower 64 bits; the seed is cut to 32 bits.
pub fn murmur3_hash_seeded(data: &[u8], seed: u64) -> (r: u64)
    ensures
        r == hash64(data@, seed),
{
    let h: u128 = murmur3_128(data, (seed % 0x1_0000_0000) as u32);
    (h % 0x1_0000_0000_0000_0000) as u64
}

/// The SHA-1 address of some bytes: the digest in hexadecimal.
pub open spec fn sha1_text(data: Seq<u8>) -> Seq<char> {
    hex_text(sha1_digest(data))
}

/// SHA-1 of some bytes as forty lower-case hexadecimal characters.
pub fn sha1_hex(data: &[u8]) -> (r: String)
    ensures
        r@ == sha1_text(data@),
        r@.len() == 40,
        forall|i: int| 0 <= i < 40 ==> is_hex_char(#[trigger] r@[i]),
{
    let d = sha1_bytes(data);
    hex_encode(d.as_slice())
}

/// An ASCII hexadecimal digit, in either case.
pub open spec fn is_hex_char(c: char) -> bool {
    ||| '0' <= c && c <= '9'
    ||| 'a' <= c && c <= 'f'
    ||| 'A' <= c && c <= 'F'
}

/// The position (register, trailing zeros) that a hash selects.
pub open spec fn position(hash: u64) -> (u32, u32) {
    let zeros = u64_trailing_zeros(hash >> 10);
    ((hash % 1024) as u32, if zeros < 31 { zeros } else { 31 })
}

/// Decomposes a 64-bit hash into its register and height.
pub fn hash_to_position(hash: u64) -> (r: (u32, u32))
    ensures
        r == position(hash),
        r.0 < M,
        r.1 < BITS_PER_REG,
{
    let reg: u32 = (hash % 1024) as u32;
    let zeros: u32 = (hash >> 10).trailing_zeros();
    let tz: u32 = if zeros < 31 {
        zeros
    } else {
        31
    };
    (reg, tz)
}

/// Decomposes a token into its position, seed 0.
pub fn token_to_position(token: &[u8]) -> (r: (u32, u32))
    ensures
        r == position(hash64(token@, 0)),
{
    hash_to_position(murmur3_hash(token))
}

/// Decomposes a token into its position under a seed.
pub fn token_to_position_seeded(token: &[u8], seed: u64) -> (r: (u32, u32))
    ensures
        r == position(hash64(token@, seed)),
{
    hash_to_position(murmur3_hash_seeded(token, seed))
}

/// The bit of the plane that a token sets under a seed.
pub open spec fn bit_of(token: Seq<u8>, seed: u64) -> u32 {
    let p = position(hash64(token, seed));
    (p.0 * 32 + p.1) as u32
}

/// Every token's bit lies in the plane and names its register and height.
pub proof fn lemma_bit_of(token: Seq<u8>, seed: u64)
    ensures
        bit_of(token, seed) < TOTAL_BITS,
        bit_of(token, seed) / 32 == position(hash64(token, seed)).0,
        bit_of(token, seed) % 32 == position(hash64(token, seed)).1,
{
}

/// A bit address: a register and a height in it.
#[derive(Clone, Copy, Debug, PartialEq, Eq, Structural)]
pub struct BitAddress {
    bit: u32,
}

impl BitAddress {
    /// The flat position in the plane.
    pub closed spec fn position(&self) -> u32 {
        self.bit
    }

    /// The address of a flat position.
    pub fn from_bit(bit: u32) -> (r: Self)
        ensures
            r.position() == bit,
    {
        BitAddress { bit }
    }

    /// The address of a token, seed 0.
    pub fn of_token(token: &[u8]) -> (r: Self)
        ensures
            r.position() == bit_of(token@, 0),
    {
        BitAddress::of_token_seeded(token, 0)
    }

    /// The address of a token under a seed.
    pub fn of_token_seeded(token: &[u8], seed: u64) -> (r: Self)
        ensures
            r.position() == bit_of(token@, seed),
    {
        let (reg, tz) = token_to_position_seeded(token, seed);
        proof {
            lemma_bit_of(token@, seed);
        }
        BitAddress { bit: reg * 32 + tz }
    }

    /// The flat position: register times 32 plus height.
    pub fn bit(&self) -> (r: u32)
        ensures
            r == self.position(),
    {
        self.bit
    }

    /// The register.
    pub fn reg(&self) -> (r: u32)
        ensures
            r == self.position() / 32,
    {
        self.bit / 32
    }

    /// The height in the register.
    pub fn tz(&self) -> (r: u32)
        ensures
            r == self.position() % 32,
    {
        self.bit % 32
    }
}

/// A hash's register is its remainder modulo the register count; its height
/// counts the zeros at the low end of the bits above, 31 at most.
pub proof fn heights_count_trailing_zeros(hash: u64)
    ensures
        position(hash).0 == hash % 1024,
        position(hash).1 <= 31,
        forall|j: u64| 0 <= j < position(hash).1 ==> #[trigger] ((hash >> 10) >> j) & 1u64 == 0u64,
        position(hash).1 < 31 ==> ((hash >> 10) >> position(hash).1 as u64) & 1u64 == 1u64,
{
    axiom_u64_trailing_zeros(hash >> 10);
}

} // verus!
