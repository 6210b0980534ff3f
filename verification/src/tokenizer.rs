//! The word tokenizer: text to n-grams of words.
use vstd::prelude::*;
use vstd::string::*;

use crate::hllset::token_bits;
use crate::lattice::LatticeElement;
use crate::ngrams::{generate_ngrams, windows};
use crate::order::{copy_bytes, views};
use crate::text::{bytes_of, encoded, lower_text, lowered, split_words, texts, utf8, words};

verus! {

/// How text is split into tokens.
#[derive(Clone)]
pub struct Tokenizer {
    /// Whether ASCII capitals are made small.
    pub small: bool,
    /// The shortest n-grams.
    pub shortest: usize,
    /// The longest n-grams.
    pub longest: usize,
    /// What stands before and after the words.
    pub bounds: Option<(Vec<u8>, Vec<u8>)>,
}

/// The words of a text as a tokenizer sees them, between its bounds.
pub open spec fn bounded_words(t: Tokenizer, text: Seq<char>) -> Seq<Seq<u8>> {
    let plain = words(
        if t.small {
            lower_text(text)
        } else {
            text
        },
    ).map_values(|w: Seq<char>| utf8(w));
    match t.bounds {
        Some(b) => seq![b.0@] + plain + seq![b.1@],
        None => plain,
    }
}

/// The n-grams of some words, from one size to another, size after size.
pub open spec fn gram_range(s: Seq<Seq<u8>>, lo: nat, hi: nat) -> Seq<Seq<u8>>
    decreases hi,
{
    if hi == 0 || hi < lo {
        Seq::empty()
    } else {
        gram_range(s, lo, (hi - 1) as nat) + windows(s, hi, false)
    }
}

/// The tokens that a tokenizer makes of a text.
pub open spec fn tokens_of(t: Tokenizer, text: Seq<char>) -> Seq<Seq<u8>> {
    gram_range(bounded_words(t, text), t.shortest as nat, t.longest as nat)
}

/// There are no n-grams longer than the words.
proof fn lemma_no_longer(s: Seq<Seq<u8>>, lo: nat, hi: nat, k: nat)
    requires
        s.len() <= k <= hi,
    ensures
        gram_range(s, lo, hi) == gram_range(s, lo, k),
    decreases hi,
{
    if k < hi {
        lemma_no_longer(s, lo, (hi - 1) as nat, k);
        assert(windows(s, hi, false) =~= Seq::empty());
        if hi < lo {
            assert(gram_range(s, lo, k) =~= Seq::empty());
        }
        assert(gram_range(s, lo, hi) =~= gram_range(s, lo, (hi - 1) as nat));
    }
}

impl Tokenizer {
    /// Single words as they stand.
    pub fn new() -> (r: Self)
        ensures
            !r.small,
            r.shortest == 1,
            r.longest == 1,
            r.bounds is None,
    {
        Tokenizer { small: false, shortest: 1, longest: 1, bounds: None }
    }

    /// The same with ASCII capitals made small.
    pub fn lowercase(self) -> (r: Self)
        ensures
            r == (Tokenizer { small: true, ..self }),
    {
        Tokenizer {
            small: true,
            shortest: self.shortest,
            longest: self.longest,
            bounds: self.bounds,
        }
    }

    /// The same with n-grams of the sizes from one to another.
    pub fn ngrams(self, min: usize, max: usize) -> (r: Self)
        ensures
            r == (Tokenizer { shortest: min, longest: max, ..self }),
    {
        Tokenizer { small: self.small, shortest: min, longest: max, bounds: self.bounds }
    }

    /// The same with words before and after the text.
    pub fn pad(self, start: &[u8], end: &[u8]) -> (r: Self)
        ensures
            r.small == self.small,
            r.shortest == self.shortest,
            r.longest == self.longest,
            r.bounds matches Some(b) && b.0@ == start@ && b.1@ == end@,
    {
        Tokenizer {
            small: self.small,
            shortest: self.shortest,
            longest: self.longest,
            bounds: Some((copy_bytes(start), copy_bytes(end))),
        }
    }

    /// The words of a text, between the bounds.
    fn words_in(&self, text: &str) -> (r: Vec<Vec<u8>>)
        ensures
            views(r@) == bounded_words(*self, text@),
    {
        let ws = if self.small {
            split_words(lowered(text).as_str())
        } else {
            split_words(text)
        };
        let ghost given = if self.small {
            lower_text(text@)
        } else {
            text@
        };
        let ghost plain = words(given).map_values(|w: Seq<char>| utf8(w));
        let mut out: Vec<Vec<u8>> = Vec::new();
        if let Some(b) = &self.bounds {
            out.push(copy_bytes(b.0.as_slice()));
        }
        let ghost before = views(out@);
        let mut i: usize = 0;
        proof {
            assert(texts(ws@) == words(given));
            assert(before + plain.take(0) =~= before);
        }
        while i < ws.len()
            invariant
                i <= ws@.len(),
                texts(ws@) == words(given),
                plain == words(given).map_values(|w: Seq<char>| utf8(w)),
                views(out@) == before + plain.take(i as int),
            decreases ws@.len() - i,
        {
            let ghost now = views(out@);
            out.push(bytes_of(ws[i].as_str()));
            proof {
                assert(texts(ws@)[i as int] == ws@[i as int]@);
                assert(views(out@) =~= now.push(plain[i as int]));
                assert(plain.take(i + 1) =~= plain.take(i as int).push(plain[i as int]));
                assert(views(out@) =~= before + plain.take(i + 1));
            }
            i = i + 1;
        }
        proof {
            assert(texts(ws@).len() == ws@.len());
            assert(plain.take(i as int) =~= plain);
        }
        if let Some(b) = &self.bounds {
            let ghost now = views(out@);
            out.push(copy_bytes(b.1.as_slice()));
            proof {
                assert(before =~= seq![b.0@]);
                assert(views(out@) =~= now.push(b.1@));
                assert(views(out@) =~= seq![b.0@] + plain + seq![b.1@]);
            }
        } else {
            proof {
                assert(before =~= Seq::empty());
                assert(views(out@) =~= plain);
            }
        }
        out
    }

    /// Splits a text into tokens.
    pub fn tokenize(&self, text: &str) -> (r: Vec<Vec<u8>>)
        ensures
            views(r@) == tokens_of(*self, text@),
    {
        let ws = self.words_in(text);
        let ghost s = views(ws@);
        let ghost lo = self.shortest as nat;
        let most: usize = if self.longest <= ws.len() {
            self.longest
        } else {
            ws.len()
        };
        let mut out: Vec<Vec<u8>> = Vec::new();
        let mut n: usize = 0;
        proof {
            assert(views(out@) =~= gram_range(s, lo, 0));
        }
        while n < most
            invariant
                n <= most,
                s == views(ws@),
                lo == self.shortest,
                views(out@) == gram_range(s, lo, n as nat),
            decreases most - n,
        {
            n = n + 1;
            if n >= self.shortest {
                let mut more = generate_ngrams(ws.as_slice(), n, false);
                let ghost before = out@;
                let ghost added = more@;
                out.append(&mut more);
                proof {
                    assert(views(out@) =~= views(before) + views(added));
                }
            } else {
                proof {
                    assert(gram_range(s, lo, (n - 1) as nat) =~= Seq::empty());
                }
            }
        }
        proof {
            if most < self.longest {
                lemma_no_longer(s, lo, self.longest as nat, most as nat);
            }
        }
        out
    }

    /// The plane of a text's tokens.
    pub fn apply(&self, text: &str) -> (r: LatticeElement)
        ensures
            r@ == token_bits(tokens_of(*self, text@), 0),
    {
        let tokens = self.tokenize(text);
        LatticeElement::from_tokens(tokens.as_slice())
    }
}

/// The sizes come one after the other, each with its own n-grams.
pub proof fn sizes_come_one_after_the_other(s: Seq<Seq<u8>>, lo: nat, mid: nat, hi: nat)
    requires
        0 < lo <= mid <= hi,
    ensures
        gram_range(s, lo, lo) == windows(s, lo, false),
        gram_range(s, lo, hi) == gram_range(s, lo, mid) + gram_range(s, mid + 1, hi),
    decreases hi,
{
    assert(gram_range(s, lo, (lo - 1) as nat) =~= Seq::empty());
    assert(gram_range(s, lo, lo) =~= windows(s, lo, false));
    if mid < hi {
        sizes_come_one_after_the_other(s, lo, mid, (hi - 1) as nat);
        let w = windows(s, hi, false);
        let a = gram_range(s, lo, mid);
        let b = gram_range(s, mid + 1, (hi - 1) as nat);
        assert((a + b) + w =~= a + (b + w));
    } else {
        assert(gram_range(s, mid + 1, hi) =~= Seq::empty());
        assert(gram_range(s, lo, mid) + gram_range(s, mid + 1, hi) =~= gram_range(s, lo, hi));
    }
}

/// Bounds stand before and behind the words of a text and change nothing
/// between; without bounds the words are those of the text.
pub proof fn bounds_enclose_the_words(t: Tokenizer, text: Seq<char>)
    ensures
        t.bounds is None && !t.small ==> bounded_words(t, text) == encoded(words(text)),
        t.bounds is None && t.small ==> bounded_words(t, text) == encoded(
            words(lower_text(text)),
        ),
        t.bounds matches Some(b) ==> ({
            let bare = Tokenizer { bounds: None, ..t };
            &&& bounded_words(t, text).len() == bounded_words(bare, text).len() + 2
            &&& bounded_words(t, text)[0] == b.0@
            &&& bounded_words(t, text).last() == b.1@
            &&& bounded_words(t, text).drop_first().drop_last() == bounded_words(bare, text)
        }),
{
    if let Some(b) = t.bounds {
        let bare = Tokenizer { bounds: None, ..t };
        assert(bounded_words(t, text).drop_first().drop_last() =~= bounded_words(bare, text));
    }
}

/// A tokenizer of one size gives the n-grams of that size; of several sizes
/// the shortest come first, then what a tokenizer of the longer ones gives.
pub proof fn tokens_come_size_by_size(t: Tokenizer, text: Seq<char>)
    requires
        0 < t.shortest <= t.longest,
    ensures
        t.shortest == t.longest ==> tokens_of(t, text) == windows(
            bounded_words(t, text),
            t.shortest as nat,
            false,
        ),
        t.shortest < t.longest ==> tokens_of(t, text) == windows(
            bounded_words(t, text),
            t.shortest as nat,
            false,
        ) + tokens_of((Tokenizer { shortest: (t.shortest + 1) as usize, ..t }), text),
{
    let s = bounded_words(t, text);
    let lo = t.shortest as nat;
    let hi = t.longest as nat;
    sizes_come_one_after_the_other(s, lo, lo, hi);
    if lo < hi {
        let rest = Tokenizer { shortest: (t.shortest + 1) as usize, ..t };
        assert(bounded_words(rest, text) == s);
    }
}

} // verus!
