//! N-grams: boundary padding, joining and splitting on a zero byte.
//!
//! Single tokens are taken as they are; pairs and triples come from the
//! sequence padded with start and end markers, so that the ends of a path
//! survive into the planes.
use vstd::prelude::*;

use crate::hashing::{bit_of, BitAddress, TOTAL_BITS};
use crate::order::{copy_bytes, copy_tokens, same_bytes, views};

verus! {

/// The separator between the tokens of an n-gram.
pub const SEP: u8 = 0;

/// The start marker `_START_`.
pub open spec fn start_bytes() -> Seq<u8> {
    seq![95u8, 83, 84, 65, 82, 84, 95]
}

/// The end marker `_END_`.
pub open spec fn end_bytes() -> Seq<u8> {
    seq![95u8, 69, 78, 68, 95]
}

/// The start marker.
pub fn start_marker() -> (r: Vec<u8>)
    ensures
        r@ == start_bytes(),
{
    let mut r: Vec<u8> = Vec::new();
    r.push(95);
    r.push(83);
    r.push(84);
    r.push(65);
    r.push(82);
    r.push(84);
    r.push(95);
    assert(r@ =~= start_bytes());
    r
}

/// The end marker.
pub fn end_marker() -> (r: Vec<u8>)
    ensures
        r@ == end_bytes(),
{
    let mut r: Vec<u8> = Vec::new();
    r.push(95);
    r.push(69);
    r.push(78);
    r.push(68);
    r.push(95);
    assert(r@ =~= end_bytes());
    r
}

/// A start or end marker.
pub open spec fn boundary(token: Seq<u8>) -> bool {
    token == start_bytes() || token == end_bytes()
}

/// Whether a token is a start or end marker.
pub fn is_boundary(token: &[u8]) -> (r: bool)
    ensures
        r == boundary(token@),
{
    same_bytes(token, start_marker().as_slice()) || same_bytes(token, end_marker().as_slice())
}

/// A token sequence between its start and end markers.
pub open spec fn padded(tokens: Seq<Seq<u8>>) -> Seq<Seq<u8>> {
    seq![start_bytes()] + tokens + seq![end_bytes()]
}

/// Pads a token sequence with start and end markers.
pub fn pad_tokens(tokens: &[Vec<u8>]) -> (r: Vec<Vec<u8>>)
    ensures
        views(r@) == padded(views(tokens@)),
{
    let mut r: Vec<Vec<u8>> = Vec::new();
    r.push(start_marker());
    let mut body = copy_tokens(tokens);
    let ghost b = views(body@);
    r.append(&mut body);
    r.push(end_marker());
    proof {
        assert(views(r@) =~= seq![start_bytes()] + b + seq![end_bytes()]);
    }
    r
}

/// Byte strings with a zero byte between neighbours.
pub open spec fn nul_joined(s: Seq<Seq<u8>>) -> Seq<u8>
    decreases s.len(),
{
    if s.len() == 0 {
        Seq::empty()
    } else if s.len() == 1 {
        s[0]
    } else {
        nul_joined(s.drop_last()).push(SEP) + s.last()
    }
}

/// Joins tokens into one n-gram.
pub fn join_tokens(tokens: &[Vec<u8>]) -> (r: Vec<u8>)
    ensures
        r@ == nul_joined(views(tokens@)),
{
    let ghost all = views(tokens@);
    let mut out: Vec<u8> = Vec::new();
    let mut i: usize = 0;
    proof {
        assert(all.take(0) =~= Seq::empty());
    }
    while i < tokens.len()
        invariant
            i <= tokens@.len(),
            all == views(tokens@),
            out@ == nul_joined(all.take(i as int)),
        decreases tokens@.len() - i,
    {
        let ghost part = all.take(i + 1);
        proof {
            assert(part.drop_last() =~= all.take(i as int));
            assert(part.last() == tokens@[i as int]@);
        }
        if i > 0 {
            out.push(SEP);
        }
        let ghost before = out@;
        out.extend_from_slice(tokens[i].as_slice());
        proof {
            assert(out@ =~= before + tokens@[i as int]@);
            if i == 0 {
                assert(before =~= Seq::empty());
                assert(out@ =~= part[0]);
            }
        }
        i = i + 1;
    }
    proof {
        assert(all.take(i as int) =~= all);
    }
    out
}

/// The runs between zero bytes.
pub open spec fn pieces(s: Seq<u8>) -> Seq<Seq<u8>>
    decreases s.len(),
{
    if s.len() == 0 {
        seq![Seq::empty()]
    } else if s.last() == SEP {
        pieces(s.drop_last()).push(Seq::empty())
    } else {
        let p = pieces(s.drop_last());
        p.drop_last().push(p.last().push(s.last()))
    }
}

/// The tokens of an n-gram: its runs between zero bytes, none where it is
/// empty.
pub open spec fn split(s: Seq<u8>) -> Seq<Seq<u8>> {
    if s.len() == 0 {
        Seq::empty()
    } else {
        pieces(s)
    }
}

/// Splits an n-gram into its tokens.
pub fn split_ngram(ngram: &[u8]) -> (r: Vec<Vec<u8>>)
    ensures
        views(r@) == split(ngram@),
{
    let mut out: Vec<Vec<u8>> = Vec::new();
    if ngram.len() == 0 {
        proof {
            assert(views(out@) =~= Seq::empty());
        }
        return out;
    }
    let mut current: Vec<u8> = Vec::new();
    let mut i: usize = 0;
    proof {
        assert(ngram@.take(0) =~= Seq::empty());
        assert(views(out@).push(current@) =~= seq![Seq::empty()]);
    }
    while i < ngram.len()
        invariant
            i <= ngram@.len(),
            pieces(ngram@.take(i as int)) == views(out@).push(current@),
        decreases ngram@.len() - i,
    {
        let b: u8 = ngram[i];
        let ghost before = out@;
        let ghost cur = current@;
        proof {
            assert(ngram@.take(i + 1).drop_last() =~= ngram@.take(i as int));
            assert(views(before).push(cur).drop_last() =~= views(before));
        }
        if b == SEP {
            out.push(current);
            current = Vec::new();
            proof {
                assert(views(out@) =~= views(before).push(cur));
                assert(current@ =~= Seq::empty());
            }
        } else {
            current.push(b);
        }
        i = i + 1;
    }
    proof {
        assert(ngram@.take(i as int) =~= ngram@);
    }
    let ghost before = out@;
    let ghost cur = current@;
    out.push(current);
    proof {
        assert(views(out@) =~= views(before).push(cur));
    }
    out
}

/// Splitting always finds at least one run.
pub proof fn lemma_pieces_nonempty(s: Seq<u8>)
    ensures
        pieces(s).len() > 0,
    decreases s.len(),
{
    if s.len() > 0 {
        lemma_pieces_nonempty(s.drop_last());
    }
}

/// Joining the tokens of an n-gram gives back the n-gram.
pub proof fn join_undoes_split(s: Seq<u8>)
    ensures
        nul_joined(split(s)) == s,
{
    if s.len() == 0 {
        assert(nul_joined(split(s)) =~= s);
    } else {
        lemma_join_pieces(s);
    }
}

proof fn lemma_join_pieces(s: Seq<u8>)
    ensures
        nul_joined(pieces(s)) == s,
    decreases s.len(),
{
    if s.len() == 0 {
        assert(pieces(s)[0] =~= s);
    } else {
        let d = s.drop_last();
        let p = pieces(d);
        lemma_join_pieces(d);
        lemma_pieces_nonempty(d);
        let q = pieces(s);
        assert(s =~= d.push(s.last()));
        if s.last() == SEP {
            assert(q.drop_last() =~= p);
            assert(nul_joined(q) =~= d.push(SEP));
        } else {
            assert(q.drop_last() =~= p.drop_last());
            if p.len() == 1 {
                assert(nul_joined(q) =~= p[0].push(s.last()));
            } else {
                assert(nul_joined(q) =~= nul_joined(p.drop_last()).push(SEP) + p.last().push(
                    s.last(),
                ));
                assert(nul_joined(q) =~= nul_joined(p).push(s.last()));
            }
        }
    }
}

/// A token without separator bytes.
pub open spec fn plain(t: Seq<u8>) -> bool {
    forall|i: int| 0 <= i < t.len() ==> #[trigger] t[i] != SEP
}

/// Splitting a joined n-gram gives back its tokens, where no token holds a
/// zero byte and the n-gram is not empty.
pub proof fn split_undoes_join(tokens: Seq<Seq<u8>>)
    requires
        tokens.len() > 0,
        nul_joined(tokens).len() > 0,
        forall|i: int| 0 <= i < tokens.len() ==> plain(#[trigger] tokens[i]),
    ensures
        split(nul_joined(tokens)) == tokens,
{
    lemma_pieces_join(tokens);
}

proof fn lemma_pieces_join(tokens: Seq<Seq<u8>>)
    requires
        tokens.len() > 0,
        forall|i: int| 0 <= i < tokens.len() ==> plain(#[trigger] tokens[i]),
    ensures
        pieces(nul_joined(tokens)) == tokens,
    decreases tokens.len(),
{
    if tokens.len() == 1 {
        assert(Seq::<u8>::empty() + tokens[0] =~= tokens[0]);
        lemma_pieces_append(Seq::empty(), tokens[0]);
        assert(pieces(Seq::<u8>::empty()).drop_last().push(Seq::empty() + tokens[0]) =~= tokens);
    } else {
        let head = tokens.drop_last();
        lemma_pieces_join(head);
        let j = nul_joined(head).push(SEP);
        assert(j.drop_last() =~= nul_joined(head));
        assert(pieces(j) == head.push(Seq::empty()));
        assert(plain(tokens.last()));
        lemma_pieces_append(j, tokens.last());
        assert(pieces(j).drop_last() =~= head);
        assert(Seq::<u8>::empty() + tokens.last() =~= tokens.last());
        assert(head.push(tokens.last()) =~= tokens);
    }
}

/// Appending bytes that are no separator extends the last run.
proof fn lemma_pieces_append(s: Seq<u8>, t: Seq<u8>)
    requires
        plain(t),
    ensures
        pieces(s + t) == pieces(s).drop_last().push(pieces(s).last() + t),
    decreases t.len(),
{
    lemma_pieces_nonempty(s);
    if t.len() == 0 {
        assert(s + t =~= s);
        assert(pieces(s).last() + t =~= pieces(s).last());
        assert(pieces(s).drop_last().push(pieces(s).last()) =~= pieces(s));
    } else {
        let u = t.drop_last();
        assert(plain(u)) by {
            assert forall|i: int| 0 <= i < u.len() implies #[trigger] u[i] != SEP by {
                assert(u[i] == t[i]);
            }
        }
        lemma_pieces_append(s, u);
        assert((s + t).drop_last() =~= s + u);
        assert(t[t.len() - 1] != SEP);
        let p = pieces(s + u);
        assert(p.drop_last() =~= pieces(s).drop_last());
        assert(p.last().push(t.last()) =~= pieces(s).last() + t);
    }
}

/// The n-grams of a token sequence: every window of `n` tokens, joined. There
/// are none where `n` is zero, the sequence is empty, or no window fits.
pub open spec fn windows(tokens: Seq<Seq<u8>>, n: nat, pad: bool) -> Seq<Seq<u8>> {
    let s = if pad {
        padded(tokens)
    } else {
        tokens
    };
    if n == 0 || tokens.len() == 0 || s.len() < n {
        Seq::empty()
    } else {
        Seq::new((s.len() - n + 1) as nat, |i: int| nul_joined(s.subrange(i, i + n)))
    }
}

/// Generates the n-grams of size `n`, padded or not.
pub fn generate_ngrams(tokens: &[Vec<u8>], n: usize, pad: bool) -> (r: Vec<Vec<u8>>)
    ensures
        views(r@) == windows(views(tokens@), n as nat, pad),
{
    let mut out: Vec<Vec<u8>> = Vec::new();
    if n == 0 || tokens.len() == 0 {
        proof {
            assert(views(out@) =~= Seq::empty());
        }
        return out;
    }
    let seq: Vec<Vec<u8>> = if pad {
        pad_tokens(tokens)
    } else {
        copy_tokens(tokens)
    };
    let ghost s = views(seq@);
    if seq.len() < n {
        proof {
            assert(views(out@) =~= Seq::empty());
        }
        return out;
    }
    let total: usize = seq.len();
    let last: usize = total - n;
    let mut i: usize = 0;
    let mut more = true;
    while more
        invariant
            n > 0,
            s == views(seq@),
            total == seq@.len(),
            total >= n,
            last == total - n,
            out@.len() == if more { i as int } else { last + 1 },
            i <= last,
            forall|j: int|
                0 <= j < out@.len() ==> (#[trigger] out@[j])@ == nul_joined(s.subrange(j, j + n)),
        decreases last + 1 - out@.len(),
    {
        let mut window: Vec<Vec<u8>> = Vec::new();
        let mut k: usize = 0;
        while k < n
            invariant
                k <= n,
                i + n <= total,
                total == seq@.len(),
                s == views(seq@),
                window@.len() == k,
                forall|j: int| 0 <= j < k ==> (#[trigger] window@[j])@ == s[i + j],
            decreases n - k,
        {
            window.push(copy_bytes(seq[i + k].as_slice()));
            k = k + 1;
        }
        proof {
            assert(views(window@) =~= s.subrange(i as int, i + n));
        }
        out.push(join_tokens(window.as_slice()));
        if i < last {
            i = i + 1;
        } else {
            more = false;
        }
    }
    proof {
        assert(views(out@) =~= windows(views(tokens@), n as nat, pad));
    }
    out
}

/// The n-grams of layer `n` of an exchange: padded beyond single tokens.
pub open spec fn layer(tokens: Seq<Seq<u8>>, n: nat) -> Seq<Seq<u8>> {
    windows(tokens, n, n > 1)
}

/// The n-grams of layer `n` of an exchange.
pub fn grams_for(tokens: &[Vec<u8>], n: usize) -> (r: Vec<Vec<u8>>)
    ensures
        views(r@) == layer(views(tokens@), n as nat),
{
    generate_ngrams(tokens, n, n > 1)
}

/// The first layer is the token sequence itself.
pub proof fn lemma_first_layer(tokens: Seq<Seq<u8>>)
    ensures
        layer(tokens, 1) == tokens,
{
    assert forall|i: int| 0 <= i < tokens.len() implies nul_joined(tokens.subrange(i, i + 1))
        == #[trigger] tokens[i] by {
        assert(tokens.subrange(i, i + 1)[0] == tokens[i]);
    }
    assert(layer(tokens, 1) =~= tokens);
}

/// The flat bit position of a token, seed 0.
pub fn token_bit_position(token: &[u8]) -> (r: u32)
    ensures
        r == bit_of(token@, 0),
        r < TOTAL_BITS,
{
    proof {
        crate::hashing::lemma_bit_of(token@, 0);
    }
    BitAddress::of_token(token).bit()
}

/// The n-grams of tokens without zero bytes are the runs of `n` neighbours, in
/// order; padding puts the start marker before the first token and the end
/// marker behind the last.
pub proof fn ngrams_are_runs_of_neighbours(tokens: Seq<Seq<u8>>, n: nat, pad: bool, i: int)
    requires
        n >= 2,
        forall|k: int| 0 <= k < tokens.len() ==> plain(#[trigger] tokens[k]),
        0 <= i < windows(tokens, n, pad).len(),
    ensures
        windows(tokens, n, pad).len() == tokens.len() + (if pad {
            2int
        } else {
            0
        }) + 1 - n,
        split(windows(tokens, n, pad)[i]).len() == n,
        forall|k: int|
            0 <= k < n ==> #[trigger] split(windows(tokens, n, pad)[i])[k] == if !pad {
                tokens[i + k]
            } else if i + k == 0 {
                start_bytes()
            } else if i + k == tokens.len() + 1 {
                end_bytes()
            } else {
                tokens[i + k - 1]
            },
{
    let s = if pad {
        padded(tokens)
    } else {
        tokens
    };
    let run = s.subrange(i, i + n);
    assert(windows(tokens, n, pad)[i] == nul_joined(run));
    assert forall|k: int| 0 <= k < run.len() implies plain(#[trigger] run[k]) by {
        if pad {
            if 0 < i + k <= tokens.len() {
                assert(run[k] == tokens[i + k - 1]);
            }
        } else {
            assert(run[k] == tokens[i + k]);
        }
    }
    assert(nul_joined(run).len() > 0);
    split_undoes_join(run);
}

} // verus!
