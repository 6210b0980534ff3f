//! Exchanges: one conversation turn as three n-gram planes.
use vstd::prelude::*;
use vstd::string::*;

use crate::hashing::bit_of;
use crate::hllset::{token_bits, HLLSet};
use crate::ngrams::{
    boundary, end_bytes, grams_for, is_boundary, layer, lemma_first_layer,
    ngrams_are_runs_of_neighbours, nul_joined, plain, split, split_ngram, split_undoes_join,
    start_bytes, token_bit_position,
};
use crate::order::{copy_bytes, copy_tokens, views};
use crate::text::{
    ascii_words, bytes_of, encoded, is_space, lemma_read_back, lossy_text, lower_text, lowered,
    runs_part_at_separators, separates, split_ascii_words, texts, unbroken_texts_are_one_run, utf8,
    utf8_lossy, words, Separator,
};

verus! {

/// Speaker of an exchange.
#[derive(Clone, Copy, Debug, PartialEq, Eq, Hash, Structural)]
pub enum Role {
    /// Human user turn.
    User,
    /// Assistant turn.
    Assistant,
}

/// The label of a role.
pub open spec fn role_label(role: Role) -> Seq<char> {
    match role {
        Role::User => "user"@,
        Role::Assistant => "assistant"@,
    }
}

/// The other role.
pub open spec fn opposite(role: Role) -> Role {
    match role {
        Role::User => Role::Assistant,
        Role::Assistant => Role::User,
    }
}

impl Role {
    /// The label used in prompts.
    pub fn label(&self) -> (r: &'static str)
        ensures
            r@ == role_label(*self),
    {
        match self {
            Role::User => "user",
            Role::Assistant => "assistant",
        }
    }

    /// The opposite role.
    pub fn toggle(&self) -> (r: Role)
        ensures
            r == opposite(*self),
    {
        match self {
            Role::User => Role::Assistant,
            Role::Assistant => Role::User,
        }
    }
}

/// One turn, with the planes of its three n-gram layers.
pub struct Exchange {
    /// Who said it.
    pub role: Role,
    /// The original text.
    pub text: String,
    /// The tokens, unpadded.
    pub tokens: Vec<Vec<u8>>,
    /// Plane of the single tokens.
    pub hll_1: HLLSet,
    /// Plane of the padded pairs.
    pub hll_2: HLLSet,
    /// Plane of the padded triples.
    pub hll_3: HLLSet,
    /// Union of the three planes.
    pub hll: HLLSet,
}

/// The lossy texts of tokens with a space between neighbours.
pub open spec fn spaced(tokens: Seq<Seq<u8>>) -> Seq<char>
    decreases tokens.len(),
{
    if tokens.len() == 0 {
        Seq::empty()
    } else if tokens.len() == 1 {
        utf8_lossy(tokens[0])
    } else {
        spaced(tokens.drop_last()).push(' ') + utf8_lossy(tokens.last())
    }
}

/// Words with a space between neighbours.
pub open spec fn spaced_words(words: Seq<Seq<char>>) -> Seq<char>
    decreases words.len(),
{
    if words.len() == 0 {
        Seq::empty()
    } else if words.len() == 1 {
        words[0]
    } else {
        spaced_words(words.drop_last()).push(' ') + words.last()
    }
}

proof fn lemma_spaced_words(tokens: Seq<Seq<u8>>, words: Seq<Seq<char>>)
    requires
        tokens.len() == words.len(),
        forall|i: int| 0 <= i < words.len() ==> utf8_lossy(tokens[i]) == #[trigger] words[i],
    ensures
        spaced(tokens) == spaced_words(words),
    decreases words.len(),
{
    if words.len() > 1 {
        let front = words.drop_last();
        assert forall|i: int| 0 <= i < front.len() implies utf8_lossy(tokens.drop_last()[i])
            == #[trigger] front[i] by {
            assert(front[i] == words[i]);
        }
        lemma_spaced_words(tokens.drop_last(), front);
        assert(words[words.len() - 1] == words.last());
    } else if words.len() == 1 {
        assert(words[0] == utf8_lossy(tokens[0]));
    }
}

/// The lossy texts of tokens with a space between neighbours; words stand as
/// they are.
pub fn spaced_text(tokens: &[Vec<u8>]) -> (r: String)
    ensures
        r@ == spaced(views(tokens@)),
        forall|words: Seq<Seq<char>>|
            views(tokens@) == #[trigger] encoded(words) ==> r@ == spaced_words(words),
{
    let ghost all = views(tokens@);
    let mut out = String::new();
    let mut i: usize = 0;
    proof {
        assert(all.take(0) =~= Seq::empty());
    }
    while i < tokens.len()
        invariant
            i <= tokens@.len(),
            all == views(tokens@),
            out@ == spaced(all.take(i as int)),
            forall|j: int|
                0 <= j < i && vstd::utf8::valid_utf8(#[trigger] all[j]) ==> utf8_lossy(all[j])
                    == vstd::utf8::decode_utf8(all[j]),
        decreases tokens@.len() - i,
    {
        let ghost part = all.take(i + 1);
        proof {
            assert(part.drop_last() =~= all.take(i as int));
            assert(part.last() == tokens@[i as int]@);
        }
        if i > 0 {
            out.push(' ');
        }
        let word = lossy_text(tokens[i].as_slice());
        let ghost before = out@;
        out.append(word.as_str());
        proof {
            if i == 0 {
                assert(before =~= Seq::empty());
                assert(out@ =~= utf8_lossy(part[0]));
            }
        }
        i = i + 1;
    }
    proof {
        assert(all.take(i as int) =~= all);
        assert forall|words: Seq<Seq<char>>| all == #[trigger] encoded(words) implies out@
            == spaced_words(words) by {
            lemma_read_back(all, words);
            lemma_spaced_words(all, words);
        }
    }
    out
}

/// The plane of layer `n` of some tokens.
pub open spec fn layer_plane(tokens: Seq<Seq<u8>>, n: nat) -> Set<u32> {
    token_bits(layer(tokens, n), 0)
}

/// The union of the three layers of some tokens.
pub open spec fn full_plane(tokens: Seq<Seq<u8>>) -> Set<u32> {
    layer_plane(tokens, 1).union(layer_plane(tokens, 2)).union(layer_plane(tokens, 3))
}

/// The tokens of a text: its runs without ASCII white space, with ASCII
/// capitals made small.
pub open spec fn text_words(text: Seq<char>) -> Seq<Seq<u8>> {
    ascii_words(text).map_values(|w: Seq<char>| utf8(lower_text(w)))
}

/// The tokens that set a bit.
pub open spec fn tokens_at(tokens: Seq<Seq<u8>>, bit: u32) -> Seq<Seq<u8>> {
    tokens.filter(|t: Seq<u8>| bit_of(t, 0) == bit)
}

/// The left neighbours, among pairs, of what sets a bit; markers excepted.
pub open spec fn left_of(pairs: Seq<Seq<u8>>, bit: u32) -> Seq<Seq<u8>>
    decreases pairs.len(),
{
    if pairs.len() == 0 {
        Seq::empty()
    } else {
        let before = left_of(pairs.drop_last(), bit);
        let p = split(pairs.last());
        if p.len() == 2 && bit_of(p[1], 0) == bit && !boundary(p[0]) {
            before.push(p[0])
        } else {
            before
        }
    }
}

/// The right neighbours, among pairs, of what sets a bit; markers excepted.
pub open spec fn right_of(pairs: Seq<Seq<u8>>, bit: u32) -> Seq<Seq<u8>>
    decreases pairs.len(),
{
    if pairs.len() == 0 {
        Seq::empty()
    } else {
        let before = right_of(pairs.drop_last(), bit);
        let p = split(pairs.last());
        if p.len() == 2 && bit_of(p[0], 0) == bit && !boundary(p[1]) {
            before.push(p[1])
        } else {
            before
        }
    }
}

/// One more token adds it to the tokens at a bit, or does not.
pub proof fn lemma_tokens_at_step(tokens: Seq<Seq<u8>>, i: int, bit: u32)
    requires
        0 <= i < tokens.len(),
    ensures
        tokens_at(tokens.take(i + 1), bit) == if bit_of(tokens[i], 0) == bit {
            tokens_at(tokens.take(i), bit).push(tokens[i])
        } else {
            tokens_at(tokens.take(i), bit)
        },
{
    let part = tokens.take(i + 1);
    assert(part.drop_last() =~= tokens.take(i));
    assert(part.last() == tokens[i]);
    reveal(Seq::filter);
}

impl Exchange {
    /// The planes are those of the tokens.
    pub open spec fn wf(&self) -> bool {
        let t = views(self.tokens@);
        &&& self.hll_1@ == layer_plane(t, 1)
        &&& self.hll_2@ == layer_plane(t, 2)
        &&& self.hll_3@ == layer_plane(t, 3)
        &&& self.hll@ == full_plane(t)
    }

    /// An exchange of tokens; its text is the tokens with spaces between.
    pub fn from_tokens(role: Role, tokens: Vec<Vec<u8>>) -> (r: Self)
        ensures
            r.wf(),
            r.role == role,
            r.tokens == tokens,
            r.text@ == spaced(views(tokens@)),
            forall|words: Seq<Seq<char>>|
                views(tokens@) == #[trigger] encoded(words) ==> r.text@ == spaced_words(words),
    {
        let text = spaced_text(tokens.as_slice());
        Exchange::from_tokens_with_text(role, tokens, text)
    }

    /// An exchange of tokens with a given text.
    pub fn from_tokens_with_text(role: Role, tokens: Vec<Vec<u8>>, text: String) -> (r: Self)
        ensures
            r.wf(),
            r.role == role,
            r.tokens == tokens,
            r.text == text,
    {
        let hll_1 = HLLSet::from_tokens(grams_for(tokens.as_slice(), 1).as_slice());
        let hll_2 = HLLSet::from_tokens(grams_for(tokens.as_slice(), 2).as_slice());
        let hll_3 = HLLSet::from_tokens(grams_for(tokens.as_slice(), 3).as_slice());
        let hll = hll_1.union(&hll_2).union(&hll_3);
        Exchange { role, text, tokens, hll_1, hll_2, hll_3, hll }
    }

    /// An exchange of a raw text, tokenized into small words.
    pub fn from_text(role: Role, text: &str) -> (r: Self)
        ensures
            r.wf(),
            r.role == role,
            views(r.tokens@) == text_words(text@),
            r.text@ == text@,
    {
        let tokens = tokenize_text(text);
        Exchange::from_tokens_with_text(role, tokens, text.to_owned())
    }

    /// A second exchange with the same contents.
    pub fn duplicate(&self) -> (r: Self)
        ensures
            r.role == self.role,
            r.text == self.text,
            views(r.tokens@) == views(self.tokens@),
            r.hll_1@ == self.hll_1@,
            r.hll_2@ == self.hll_2@,
            r.hll_3@ == self.hll_3@,
            r.hll@ == self.hll@,
    {
        Exchange {
            role: self.role,
            text: self.text.clone(),
            tokens: copy_tokens(self.tokens.as_slice()),
            hll_1: self.hll_1.clone(),
            hll_2: self.hll_2.clone(),
            hll_3: self.hll_3.clone(),
            hll: self.hll.clone(),
        }
    }

    /// The n-grams of layer `n`; padded beyond single tokens.
    pub fn ngrams(&self, n: usize) -> (r: Vec<Vec<u8>>)
        ensures
            views(r@) == layer(views(self.tokens@), n as nat),
    {
        grams_for(self.tokens.as_slice(), n)
    }

    /// The number of tokens.
    pub fn len(&self) -> (r: usize)
        ensures
            r == self.tokens@.len(),
    {
        self.tokens.len()
    }

    /// Whether there are no tokens.
    pub fn is_empty(&self) -> (r: bool)
        ensures
            r == (self.tokens@.len() == 0),
    {
        self.tokens.len() == 0
    }

    /// The tokens that set a bit, with their neighbours in the padded pairs;
    /// `None` where no token of the exchange sets it.
    pub fn bit_anchors(&self, bit: u32) -> (r: Option<BitAnchors>)
        ensures
            r is Some <==> tokens_at(views(self.tokens@), bit).len() > 0,
            r matches Some(a) ==> a.bit == bit && views(a.tokens@) == tokens_at(
                views(self.tokens@),
                bit,
            ) && views(a.left@) == left_of(layer(views(self.tokens@), 2), bit) && views(a.right@)
                == right_of(layer(views(self.tokens@), 2), bit),
    {
        let singles = self.ngrams(1);
        let mut tokens: Vec<Vec<u8>> = Vec::new();
        let ghost all = views(singles@);
        proof {
            lemma_first_layer(views(self.tokens@));
            reveal(Seq::filter);
            assert(views(tokens@) =~= tokens_at(all.take(0), bit));
        }
        let mut i: usize = 0;
        while i < singles.len()
            invariant
                i <= singles@.len(),
                all == views(singles@),
                views(tokens@) == tokens_at(all.take(i as int), bit),
            decreases singles@.len() - i,
        {
            proof {
                lemma_tokens_at_step(all, i as int, bit);
                assert(all[i as int] == singles@[i as int]@);
            }
            if token_bit_position(singles[i].as_slice()) == bit {
                let ghost before = tokens@;
                tokens.push(copy_bytes(singles[i].as_slice()));
                proof {
                    assert(views(tokens@) =~= views(before).push(all[i as int]));
                }
            }
            i = i + 1;
        }
        proof {
            assert(all.take(i as int) =~= all);
            assert(views(tokens@).len() == tokens@.len());
        }
        if tokens.len() == 0 {
            return None;
        }
        let pairs = self.ngrams(2);
        let ghost grams = views(pairs@);
        let mut left: Vec<Vec<u8>> = Vec::new();
        let mut right: Vec<Vec<u8>> = Vec::new();
        let mut k: usize = 0;
        proof {
            assert(views(left@) =~= left_of(grams.take(0), bit));
            assert(views(right@) =~= right_of(grams.take(0), bit));
        }
        while k < pairs.len()
            invariant
                k <= pairs@.len(),
                grams == views(pairs@),
                views(left@) == left_of(grams.take(k as int), bit),
                views(right@) == right_of(grams.take(k as int), bit),
            decreases pairs@.len() - k,
        {
            let parts = split_ngram(pairs[k].as_slice());
            let ghost l0 = left@;
            let ghost r0 = right@;
            proof {
                assert(grams.take(k + 1).drop_last() =~= grams.take(k as int));
                assert(grams.take(k + 1).last() == pairs@[k as int]@);
                assert(views(parts@).len() == parts@.len());
                if parts@.len() == 2 {
                    assert(views(parts@)[0] == parts@[0]@);
                    assert(views(parts@)[1] == parts@[1]@);
                }
            }
            if parts.len() == 2 {
                if token_bit_position(parts[1].as_slice()) == bit && !is_boundary(
                    parts[0].as_slice(),
                ) {
                    left.push(copy_bytes(parts[0].as_slice()));
                    proof {
                        assert(views(left@) =~= views(l0).push(parts@[0]@));
                    }
                }
                if token_bit_position(parts[0].as_slice()) == bit && !is_boundary(
                    parts[1].as_slice(),
                ) {
                    right.push(copy_bytes(parts[1].as_slice()));
                    proof {
                        assert(views(right@) =~= views(r0).push(parts@[1]@));
                    }
                }
            }
            k = k + 1;
        }
        proof {
            assert(grams.take(k as int) =~= grams);
        }
        Some(BitAnchors { bit, tokens, left, right })
    }
}

/// The tokens that set one bit in one exchange, with their neighbours.
pub struct BitAnchors {
    /// The bit.
    pub bit: u32,
    /// The tokens that set it.
    pub tokens: Vec<Vec<u8>>,
    /// What stands before them in the padded pairs.
    pub left: Vec<Vec<u8>>,
    /// What stands after them in the padded pairs.
    pub right: Vec<Vec<u8>>,
}

/// Splits a text at ASCII white space, with ASCII capitals made small.
pub fn tokenize_text(text: &str) -> (r: Vec<Vec<u8>>)
    ensures
        views(r@) == text_words(text@),
{
    let ws = split_ascii_words(text);
    let mut out: Vec<Vec<u8>> = Vec::new();
    let mut i: usize = 0;
    while i < ws.len()
        invariant
            i <= ws@.len(),
            out@.len() == i,
            forall|j: int| 0 <= j < i ==> (#[trigger] out@[j])@ == utf8(lower_text(ws@[j]@)),
        decreases ws@.len() - i,
    {
        out.push(bytes_of(lowered(ws[i].as_str()).as_str()));
        i = i + 1;
    }
    proof {
        assert(views(out@) =~= text_words(text@)) by {
            assert(texts(ws@) == ascii_words(text@));
            assert forall|j: int| 0 <= j < out@.len() implies views(out@)[j] == text_words(
                text@,
            )[j] by {
                assert(texts(ws@)[j] == ws@[j]@);
            }
        }
    }
    out
}

/// Toggling a role twice gives it back.
pub proof fn toggling_twice_changes_nothing(role: Role)
    ensures
        opposite(opposite(role)) == role,
        opposite(role) != role,
{
}

/// Left and right neighbours are read off pair by pair, in order.
pub proof fn neighbours_are_read_in_order(a: Seq<Seq<u8>>, b: Seq<Seq<u8>>, bit: u32)
    ensures
        left_of(a + b, bit) == left_of(a, bit) + left_of(b, bit),
        right_of(a + b, bit) == right_of(a, bit) + right_of(b, bit),
    decreases b.len(),
{
    if b.len() == 0 {
        assert(a + b =~= a);
        assert(left_of(a, bit) + left_of(b, bit) =~= left_of(a, bit));
        assert(right_of(a, bit) + right_of(b, bit) =~= right_of(a, bit));
    } else {
        let all = a + b;
        assert(all.drop_last() =~= a + b.drop_last());
        assert(all.last() == b.last());
        neighbours_are_read_in_order(a, b.drop_last(), bit);
        assert(left_of(all, bit) =~= left_of(a, bit) + left_of(b, bit));
        assert(right_of(all, bit) =~= right_of(a, bit) + right_of(b, bit));
    }
}

/// A pair of tokens without zero bytes gives its first token as the left
/// neighbour of what sets the second's bit, and its second as the right
/// neighbour of what sets the first's; a marker is nobody's neighbour.
pub proof fn a_pair_gives_one_neighbour_each_way(a: Seq<u8>, b: Seq<u8>, bit: u32)
    requires
        plain(a),
        plain(b),
    ensures
        left_of(seq![nul_joined(seq![a, b])], bit) == if bit == bit_of(b, 0) && a != start_bytes()
            && a != end_bytes() {
            seq![a]
        } else {
            Seq::empty()
        },
        right_of(seq![nul_joined(seq![a, b])], bit) == if bit == bit_of(a, 0) && b
            != start_bytes() && b != end_bytes() {
            seq![b]
        } else {
            Seq::empty()
        },
{
    let two = seq![a, b];
    let g = seq![nul_joined(two)];
    assert(plain(two[0]) && plain(two[1]));
    assert(nul_joined(two).len() > 0);
    split_undoes_join(two);
    assert(g.drop_last() =~= Seq::empty());
    assert(left_of(g.drop_last(), bit) =~= Seq::empty());
    assert(right_of(g.drop_last(), bit) =~= Seq::empty());
    assert(Seq::<Seq<u8>>::empty().push(a) =~= seq![a]);
    assert(Seq::<Seq<u8>>::empty().push(b) =~= seq![b]);
}

/// The neighbours of a bit in an exchange of tokens without zero bytes: the
/// tokens beside one that sets it.
pub proof fn anchors_stand_beside_their_bit(tokens: Seq<Seq<u8>>, bit: u32, t: Seq<u8>)
    requires
        forall|k: int| 0 <= k < tokens.len() ==> plain(#[trigger] tokens[k]),
        t != start_bytes(),
        t != end_bytes(),
    ensures
        left_of(layer(tokens, 2), bit).contains(t) <==> exists|p: int|
            0 <= p < tokens.len() && #[trigger] tokens[p] == t && bit == bit_of(
                if p + 1 < tokens.len() {
                    tokens[p + 1]
                } else {
                    end_bytes()
                },
                0,
            ),
        right_of(layer(tokens, 2), bit).contains(t) <==> exists|p: int|
            0 <= p < tokens.len() && #[trigger] tokens[p] == t && bit == bit_of(
                if p > 0 {
                    tokens[p - 1]
                } else {
                    start_bytes()
                },
                0,
            ),
{
    let pairs = layer(tokens, 2);
    if tokens.len() == 0 {
        assert(pairs =~= Seq::empty());
        assert(left_of(pairs, bit) =~= Seq::empty());
        assert(right_of(pairs, bit) =~= Seq::empty());
    } else {
        lemma_beside(tokens, pairs.len(), bit, t);
        assert(pairs.take(pairs.len() as int) =~= pairs);
        assert(pairs.len() == tokens.len() + 1);
    }
}

/// What the first `n` pairs of an exchange give.
proof fn lemma_beside(tokens: Seq<Seq<u8>>, n: nat, bit: u32, t: Seq<u8>)
    requires
        forall|k: int| 0 <= k < tokens.len() ==> plain(#[trigger] tokens[k]),
        t != start_bytes(),
        t != end_bytes(),
        tokens.len() > 0,
        n <= layer(tokens, 2).len(),
    ensures
        left_of(layer(tokens, 2).take(n as int), bit).contains(t) <==> exists|p: int|
            0 <= p < tokens.len() && p < n - 1 && #[trigger] tokens[p] == t && bit == bit_of(
                if p + 1 < tokens.len() {
                    tokens[p + 1]
                } else {
                    end_bytes()
                },
                0,
            ),
        right_of(layer(tokens, 2).take(n as int), bit).contains(t) <==> exists|p: int|
            0 <= p < tokens.len() && p < n && #[trigger] tokens[p] == t && bit == bit_of(
                if p > 0 {
                    tokens[p - 1]
                } else {
                    start_bytes()
                },
                0,
            ),
    decreases n,
{
    let pairs = layer(tokens, 2);
    let part = pairs.take(n as int);
    if n == 0 {
        assert(part =~= Seq::empty());
        assert(left_of(part, bit) =~= Seq::empty());
        assert(right_of(part, bit) =~= Seq::empty());
    } else {
        let i = n - 1;
        let front = pairs.take(i);
        lemma_beside(tokens, i as nat, bit, t);
        assert(part.drop_last() =~= front);
        assert(part.last() == pairs[i]);
        ngrams_are_runs_of_neighbours(tokens, 2, true, i);
        let g = split(pairs[i]);
        let a = g[0];
        let b = g[1];
        let was = left_of(front, bit);
        let now = left_of(part, bit);
        if now.contains(t) && !was.contains(t) {
            let k = choose|k: int| 0 <= k < now.len() && now[k] == t;
            if k < was.len() {
                assert(was[k] == t);
            }
            assert(t == a);
            assert(tokens[i - 1] == t);
        }
        if was.contains(t) {
            let k = choose|k: int| 0 <= k < was.len() && was[k] == t;
            assert(now[k] == t);
        }
        if i > 0 && a == t && bit == bit_of(b, 0) {
            assert(now[was.len() as int] == t);
        }
        let rwas = right_of(front, bit);
        let rnow = right_of(part, bit);
        if rnow.contains(t) && !rwas.contains(t) {
            let k = choose|k: int| 0 <= k < rnow.len() && rnow[k] == t;
            if k < rwas.len() {
                assert(rwas[k] == t);
            }
            assert(t == b);
            assert(tokens[i] == t);
        }
        if rwas.contains(t) {
            let k = choose|k: int| 0 <= k < rwas.len() && rwas[k] == t;
            assert(rnow[k] == t);
        }
        if i < tokens.len() && b == t && bit == bit_of(a, 0) {
            assert(rnow[rwas.len() as int] == t);
        }
    }
}

/// The full plane of an exchange holds its three layers and nothing else.
pub proof fn full_planes_hold_every_layer(tokens: Seq<Seq<u8>>, bit: u32)
    ensures
        full_plane(tokens).contains(bit) <==> exists|n: nat|
            1 <= n <= 3 && #[trigger] layer_plane(tokens, n).contains(bit),
{
    if full_plane(tokens).contains(bit) {
        assert(layer_plane(tokens, 1).contains(bit) || layer_plane(tokens, 2).contains(bit)
            || layer_plane(tokens, 3).contains(bit));
    }
}

/// Words without white space, none of them empty, read back from their text
/// with spaces between.
pub proof fn spaced_words_read_back(ws: Seq<Seq<char>>)
    requires
        forall|i: int| 0 <= i < ws.len() ==> (#[trigger] ws[i]).len() > 0,
        forall|i: int, k: int|
            0 <= i < ws.len() && 0 <= k < ws[i].len() ==> !is_space(#[trigger] ws[i][k]),
    ensures
        words(spaced_words(ws)) == ws,
    decreases ws.len(),
{
    if ws.len() == 0 {
        assert(words(spaced_words(ws)) =~= ws);
    } else {
        let front = ws.drop_last();
        let last = ws.last();
        assert forall|k: int| 0 <= k < last.len() implies !separates(
            Separator::Unicode,
            #[trigger] last[k],
        ) by {
            assert(!is_space(ws[ws.len() - 1][k]));
        }
        unbroken_texts_are_one_run(Separator::Unicode, last);
        if ws.len() == 1 {
            assert(seq![ws[0]] =~= ws);
        } else {
            assert forall|i: int, k: int| 0 <= i < front.len() && 0 <= k < front[i].len() implies
                !is_space(#[trigger] front[i][k]) by {
                assert(!is_space(ws[i][k]));
            }
            spaced_words_read_back(front);
            runs_part_at_separators(Separator::Unicode, spaced_words(front), ' ', last);
            assert(front + seq![last] =~= ws);
        }
    }
}

/// A text is tokenized word by word: white space parts it, and a word becomes
/// its bytes with ASCII capitals made small.
pub proof fn texts_are_tokenized_word_by_word(a: Seq<char>, c: char, b: Seq<char>, w: Seq<char>)
    requires
        separates(Separator::Ascii, c),
        w.len() > 0,
        forall|i: int| 0 <= i < w.len() ==> !separates(Separator::Ascii, #[trigger] w[i]),
    ensures
        text_words(a.push(c) + b) == text_words(a) + text_words(b),
        text_words(w) == seq![utf8(lower_text(w))],
        text_words(Seq::empty()) == Seq::<Seq<u8>>::empty(),
{
    let f = |w: Seq<char>| utf8(lower_text(w));
    runs_part_at_separators(Separator::Ascii, a, c, b);
    unbroken_texts_are_one_run(Separator::Ascii, w);
    assert(text_words(a.push(c) + b) =~= text_words(a) + text_words(b));
    assert(text_words(w) =~= seq![utf8(lower_text(w))]);
    assert(text_words(Seq::empty()) =~= Seq::<Seq<u8>>::empty());
}

} // verus!
