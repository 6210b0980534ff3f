//! Content-addressed keys in their namespaces.
//!
//! A key is a one-letter namespace, a colon and a SHA-1 in hexadecimal. Keys
//! of token collections do not depend on the order or the repetition of the
//! tokens.
//!
//! | Namespace | Meaning |
//! |-----------|---------|
//! | `o` | original, from a tokenizer |
//! | `h` | any operation result |
//! | `r` | retained |
//! | `d` | departed |
//! | `n` | new |
//! | `t` | commit |
//! | `v` | view, not persisted |
//! | `l` | language-model context |
//! | `c` | catalog |
//! | `u` | user-assigned |
use vstd::prelude::*;
use vstd::string::*;

use crate::collections::{lemma_listing, listing, vals, OrdSet};
use crate::hashing::{is_hex_char, sha1_hex, sha1_text};
use crate::ngrams::{join_tokens, nul_joined, plain, split, split_undoes_join};
use crate::order::{chars_of, code_point, copy_bytes, views, Key};
use crate::text::{bytes_of, joined, le_bytes, push_le, string_of, utf8};

verus! {

/// The namespace prefixes.
pub const VALID_PREFIXES: [&'static str; 10] = ["o", "h", "r", "d", "n", "t", "v", "l", "c", "u"];

/// The prefix of named keys that hold no content address.
pub const SYSTEM_PREFIX: &'static str = "system:";

/// The letters that name a namespace.
pub open spec fn is_namespace(c: char) -> bool {
    c == 'o' || c == 'h' || c == 'r' || c == 'd' || c == 'n' || c == 't' || c == 'v' || c == 'l'
        || c == 'c' || c == 'u'
}

/// A text that is exactly one namespace letter.
pub open spec fn valid_prefix(p: Seq<char>) -> bool {
    p.len() == 1 && is_namespace(p[0])
}

/// The valid prefixes are the listed ones.
pub proof fn valid_prefixes_are_listed(p: Seq<char>)
    ensures
        valid_prefix(p) <==> exists|i: int|
            0 <= i < VALID_PREFIXES@.len() && #[trigger] VALID_PREFIXES@[i]@ == p,
{
    reveal_strlit("o");
    reveal_strlit("h");
    reveal_strlit("r");
    reveal_strlit("d");
    reveal_strlit("n");
    reveal_strlit("t");
    reveal_strlit("v");
    reveal_strlit("l");
    reveal_strlit("c");
    reveal_strlit("u");
    let all = VALID_PREFIXES@;
    assert(all[0]@ =~= seq!['o']);
    assert(all[1]@ =~= seq!['h']);
    assert(all[2]@ =~= seq!['r']);
    assert(all[3]@ =~= seq!['d']);
    assert(all[4]@ =~= seq!['n']);
    assert(all[5]@ =~= seq!['t']);
    assert(all[6]@ =~= seq!['v']);
    assert(all[7]@ =~= seq!['l']);
    assert(all[8]@ =~= seq!['c']);
    assert(all[9]@ =~= seq!['u']);
    if valid_prefix(p) {
        let i: int = if p[0] == 'o' {
            0
        } else if p[0] == 'h' {
            1
        } else if p[0] == 'r' {
            2
        } else if p[0] == 'd' {
            3
        } else if p[0] == 'n' {
            4
        } else if p[0] == 't' {
            5
        } else if p[0] == 'v' {
            6
        } else if p[0] == 'l' {
            7
        } else if p[0] == 'c' {
            8
        } else {
            9
        };
        assert(all[i]@ =~= p);
    }
}

/// Forty hexadecimal characters.
pub open spec fn valid_digest(s: Seq<char>) -> bool {
    s.len() == 40 && all_hex(s)
}

/// Only hexadecimal characters.
pub open spec fn all_hex(s: Seq<char>) -> bool {
    forall|i: int| 0 <= i < s.len() ==> is_hex_char(#[trigger] s[i])
}

/// A key: prefix, colon, digest.
pub open spec fn key_text(prefix: Seq<char>, digest: Seq<char>) -> Seq<char> {
    prefix.push(':') + digest
}

fn namespace(c: char) -> (r: bool)
    ensures
        r == is_namespace(c),
{
    c == 'o' || c == 'h' || c == 'r' || c == 'd' || c == 'n' || c == 't' || c == 'v' || c == 'l'
        || c == 'c' || c == 'u'
}

fn hex_char(c: char) -> (r: bool)
    ensures
        r == is_hex_char(c),
{
    let u: u32 = code_point(c);
    (48 <= u && u <= 57) || (97 <= u && u <= 102) || (65 <= u && u <= 70)
}

fn hex_only(s: &[char]) -> (r: bool)
    ensures
        r == all_hex(s@),
{
    let mut i: usize = 0;
    while i < s.len()
        invariant
            i <= s@.len(),
            forall|j: int| 0 <= j < i ==> is_hex_char(#[trigger] s@[j]),
        decreases s@.len() - i,
    {
        if !hex_char(s[i]) {
            return false;
        }
        i = i + 1;
    }
    true
}

/// Whether a text is a valid namespace prefix.
pub fn is_valid_prefix(prefix: &str) -> (r: bool)
    ensures
        r == valid_prefix(prefix@),
{
    let cs = chars_of(prefix);
    cs.len() == 1 && namespace(cs[0])
}

/// Builds `{prefix}:{digest}`; fails unless the prefix is a namespace and the
/// digest has forty hexadecimal characters.
pub fn make_cid(prefix: &str, digest: &str) -> (r: Option<String>)
    ensures
        r is Some <==> valid_prefix(prefix@) && valid_digest(digest@),
        r matches Some(key) ==> key@ == key_text(prefix@, digest@),
{
    let cs = chars_of(digest);
    if is_valid_prefix(prefix) && cs.len() == 40 && hex_only(cs.as_slice()) {
        let mut key = prefix.to_owned();
        key.push(':');
        key.append(digest);
        Some(key)
    } else {
        None
    }
}

/// A text of the form `{namespace}:{forty hexadecimal characters}`.
pub open spec fn is_key(cid: Seq<char>) -> bool {
    &&& cid.len() == 42
    &&& is_namespace(cid[0])
    &&& cid[1] == ':'
    &&& all_hex(cid.skip(2))
}

/// Splits a key into its prefix and digest.
pub fn parse_cid<'a>(cid: &'a str) -> (r: Option<(&'a str, &'a str)>)
    ensures
        r is Some <==> is_key(cid@),
        r matches Some(p) ==> p.0@ == cid@.take(1) && p.1@ == cid@.skip(2),
{
    let cs = chars_of(cid);
    if cs.len() != 42 || !namespace(cs[0]) || cs[1] != ':' {
        return None;
    }
    let mut rest: Vec<char> = Vec::new();
    let mut i: usize = 2;
    while i < 42
        invariant
            2 <= i <= 42,
            cs@.len() == 42,
            rest@ == cs@.subrange(2, i as int),
        decreases 42 - i,
    {
        rest.push(cs[i]);
        proof {
            assert(cs@.subrange(2, i + 1) =~= cs@.subrange(2, i as int).push(cs@[i as int]));
        }
        i = i + 1;
    }
    proof {
        assert(cs@.subrange(2, 42) =~= cid@.skip(2));
        assert(cid@.subrange(2, 42) =~= cid@.skip(2));
        assert(cid@.subrange(0, 1) =~= cid@.take(1));
    }
    if !hex_only(rest.as_slice()) {
        return None;
    }
    Some((cid.substring_char(0, 1), cid.substring_char(2, 42)))
}

/// Parsing a made key gives back its parts, and a parsed key is made of its
/// parts.
pub proof fn keys_parse_back(prefix: Seq<char>, digest: Seq<char>, cid: Seq<char>)
    ensures
        valid_prefix(prefix) && valid_digest(digest) ==> is_key(key_text(prefix, digest))
            && key_text(prefix, digest).take(1) == prefix && key_text(prefix, digest).skip(2)
            == digest,
        is_key(cid) ==> valid_prefix(cid.take(1)) && valid_digest(cid.skip(2)) && key_text(
            cid.take(1),
            cid.skip(2),
        ) == cid,
{
    if valid_prefix(prefix) && valid_digest(digest) {
        let k = key_text(prefix, digest);
        assert(k.skip(2) =~= digest);
        assert(k.take(1) =~= prefix);
    }
    if is_key(cid) {
        assert(key_text(cid.take(1), cid.skip(2)) =~= cid);
    }
}

/// The canonical bytes of a token collection: its distinct tokens in
/// ascending order, with a zero byte between neighbours.
pub open spec fn canonical(tokens: Seq<Seq<u8>>) -> Seq<u8> {
    nul_joined(listing::<Vec<u8>>(tokens.to_set()))
}

/// The key of a token collection in a namespace.
pub open spec fn tokens_key(prefix: Seq<char>, tokens: Seq<Seq<u8>>) -> Seq<char> {
    key_text(prefix, sha1_text(canonical(tokens)))
}

/// The distinct members of a list of byte strings.
pub fn distinct(tokens: &[Vec<u8>]) -> (r: OrdSet<Vec<u8>>)
    ensures
        r@ == views(tokens@).to_set(),
{
    let mut set: OrdSet<Vec<u8>> = OrdSet::new();
    let ghost all = views(tokens@);
    let mut i: usize = 0;
    proof {
        assert(set@ =~= all.take(0).to_set());
    }
    while i < tokens.len()
        invariant
            i <= tokens@.len(),
            all == views(tokens@),
            set@ == all.take(i as int).to_set(),
        decreases tokens@.len() - i,
    {
        set.insert(copy_bytes(tokens[i].as_slice()));
        proof {
            crate::collections::lemma_take_step(all, i as int);
            assert(all[i as int] == tokens@[i as int]@);
        }
        i = i + 1;
    }
    proof {
        assert(all.take(i as int) =~= all);
    }
    set
}

fn content_key_with_prefix(tokens: &[Vec<u8>], prefix: &str) -> (r: String)
    ensures
        r@ == tokens_key(prefix@, views(tokens@)),
        valid_prefix(prefix@) ==> is_key(r@),
{
    let set = distinct(tokens);
    let sorted = set.to_vec();
    let bytes = join_tokens(sorted.as_slice());
    proof {
        lemma_listing::<Vec<u8>>(set.seq(), set@);
        assert(views(sorted@) =~= vals(sorted@));
    }
    let digest = sha1_hex(bytes.as_slice());
    let mut key = prefix.to_owned();
    key.push(':');
    key.append(digest.as_str());
    proof {
        keys_parse_back(prefix@, digest@, key@);
    }
    key
}

/// The key `h:<sha1>` of a token collection.
pub fn content_key_from_tokens(tokens: &[Vec<u8>]) -> (r: String)
    ensures
        r@ == tokens_key("h"@, views(tokens@)),
        is_key(r@),
{
    proof {
        reveal_strlit("h");
    }
    content_key_with_prefix(tokens, "h")
}

/// The key `o:<sha1>` of tokens straight from a tokenizer.
pub fn original_key_from_tokens(tokens: &[Vec<u8>]) -> (r: String)
    ensures
        r@ == tokens_key("o"@, views(tokens@)),
        is_key(r@),
{
    proof {
        reveal_strlit("o");
    }
    content_key_with_prefix(tokens, "o")
}

/// The key `r:<sha1>` of retained tokens.
pub fn retained_key_from_tokens(tokens: &[Vec<u8>]) -> (r: String)
    ensures
        r@ == tokens_key("r"@, views(tokens@)),
        is_key(r@),
{
    proof {
        reveal_strlit("r");
    }
    content_key_with_prefix(tokens, "r")
}

/// The key `d:<sha1>` of departed tokens.
pub fn departed_key_from_tokens(tokens: &[Vec<u8>]) -> (r: String)
    ensures
        r@ == tokens_key("d"@, views(tokens@)),
        is_key(r@),
{
    proof {
        reveal_strlit("d");
    }
    content_key_with_prefix(tokens, "d")
}

/// The key `n:<sha1>` of new tokens.
pub fn new_key_from_tokens(tokens: &[Vec<u8>]) -> (r: String)
    ensures
        r@ == tokens_key("n"@, views(tokens@)),
        is_key(r@),
{
    proof {
        reveal_strlit("n");
    }
    content_key_with_prefix(tokens, "n")
}

/// The key `v:<sha1>` of a view, which is not persisted.
pub fn view_key_from_tokens(tokens: &[Vec<u8>]) -> (r: String)
    ensures
        r@ == tokens_key("v"@, views(tokens@)),
        is_key(r@),
{
    proof {
        reveal_strlit("v");
    }
    content_key_with_prefix(tokens, "v")
}

/// The key `l:<sha1>` of a language-model context.
pub fn llm_context_key_from_tokens(tokens: &[Vec<u8>]) -> (r: String)
    ensures
        r@ == tokens_key("l"@, views(tokens@)),
        is_key(r@),
{
    proof {
        reveal_strlit("l");
    }
    content_key_with_prefix(tokens, "l")
}

/// The key `t:<sha1>` of commit bytes.
pub fn commit_key_from_bytes(data: &[u8]) -> (r: String)
    ensures
        r@ == "t:"@ + sha1_text(data@),
        is_key(r@),
{
    let digest = sha1_hex(data);
    let key = joined("t:", digest.as_str());
    proof {
        reveal_strlit("t:");
        assert(key@.skip(2) =~= digest@);
    }
    key
}

/// The key `c:<sha1>` of catalog values.
pub fn content_key_from_catalog(catalog_values: &[Vec<u8>]) -> (r: String)
    ensures
        r@ == tokens_key("c"@, views(catalog_values@)),
        is_key(r@),
{
    proof {
        reveal_strlit("c");
    }
    content_key_with_prefix(catalog_values, "c")
}

/// The text without its dashes.
pub open spec fn undashed(s: Seq<char>) -> Seq<char>
    decreases s.len(),
{
    if s.len() == 0 {
        s
    } else if s.last() == '-' {
        undashed(s.drop_last())
    } else {
        undashed(s.drop_last()).push(s.last())
    }
}

/// The key `u:<uuid>`; fails unless the identifier, without its dashes, has
/// thirty-two hexadecimal characters.
pub fn user_key_from_uuid(uuid: &str) -> (r: Option<String>)
    ensures
        r is Some <==> undashed(uuid@).len() == 32 && all_hex(undashed(uuid@)),
        r matches Some(key) ==> key@ == "u:"@ + undashed(uuid@),
{
    let cs = chars_of(uuid);
    let mut out: Vec<char> = Vec::new();
    let mut i: usize = 0;
    proof {
        assert(cs@.take(0) =~= Seq::empty());
    }
    while i < cs.len()
        invariant
            i <= cs@.len(),
            out@ == undashed(cs@.take(i as int)),
        decreases cs@.len() - i,
    {
        proof {
            assert(cs@.take(i + 1).drop_last() =~= cs@.take(i as int));
        }
        if cs[i] != '-' {
            out.push(cs[i]);
        }
        i = i + 1;
    }
    proof {
        assert(cs@.take(i as int) =~= cs@);
    }
    if out.len() == 32 && hex_only(out.as_slice()) {
        Some(joined("u:", string_of(out.as_slice()).as_str()))
    } else {
        None
    }
}

/// The key `system:{name}` of a named global.
pub fn system_key(name: &str) -> (r: String)
    ensures
        r@ == "system:"@ + name@,
{
    joined("system:", name)
}

/// The digest of a structural position: SHA-1 of the parent's text followed
/// by the sequence number in eight little-endian bytes.
pub fn ontological_key(parent_sha1: &str, seq: u64) -> (r: String)
    ensures
        r@ == sha1_text(utf8(parent_sha1@) + le_bytes(seq as nat, 8)),
{
    let mut data = bytes_of(parent_sha1);
    push_le(&mut data, seq, 8);
    sha1_hex(data.as_slice())
}

/// Keys of token collections depend only on which tokens occur: order and
/// repetition do not matter.
pub proof fn keys_ignore_order_and_repeats(prefix: Seq<char>, a: Seq<Seq<u8>>, b: Seq<Seq<u8>>)
    requires
        a.to_set() == b.to_set(),
    ensures
        tokens_key(prefix, a) == tokens_key(prefix, b),
{
}

/// Only dashes go: every other character stays, in order.
pub proof fn identifiers_lose_only_their_dashes(s: Seq<char>)
    ensures
        undashed(s) == s.filter(|c: char| c != '-'),
    decreases s.len(),
{
    reveal(Seq::filter);
    if s.len() > 0 {
        identifiers_lose_only_their_dashes(s.drop_last());
    }
}

/// The canonical bytes of tokens without zero bytes split into the distinct
/// tokens, ascending.
pub proof fn canonical_bytes_list_the_tokens(tokens: Seq<Seq<u8>>)
    requires
        forall|i: int| 0 <= i < tokens.len() ==> plain(#[trigger] tokens[i]),
        canonical(tokens).len() > 0,
    ensures
        split(canonical(tokens)).to_set() == tokens.to_set(),
        forall|i: int, j: int|
            0 <= i < j < split(canonical(tokens)).len() ==> <Vec<u8> as Key>::lt(
                #[trigger] split(canonical(tokens))[i],
                #[trigger] split(canonical(tokens))[j],
            ),
{
    let set = tokens.to_set();
    vstd::seq_lib::seq_to_set_is_finite(tokens);
    crate::collections::lemma_listing_exists::<Vec<u8>>(set);
    let all = listing::<Vec<u8>>(set);
    assert forall|i: int| 0 <= i < all.len() implies plain(#[trigger] all[i]) by {
        assert(all.to_set().contains(all[i]));
        let k = choose|k: int| 0 <= k < tokens.len() && tokens[k] == all[i];
        assert(plain(tokens[k]));
    }
    split_undoes_join(all);
}

} // verus!
