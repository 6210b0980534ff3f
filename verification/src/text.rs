//! Text and byte encodings: decimal numbers, little-endian integers, strings
//! assembled from characters.
use vstd::prelude::*;
use vstd::string::*;

use crate::order::{chars_of, code_point};

verus! {

/// `String::push` appends one character at the end.
pub assume_specification[ String::push ](s: &mut String, c: char)
    ensures
        final(s)@ == old(s)@.push(c),
;

/// What `String::from_utf8_lossy` makes of a byte string.
pub uninterp spec fn utf8_lossy(bytes: Seq<u8>) -> Seq<char>;

/// Calls `String::from_utf8_lossy`: the text of a byte string, with malformed
/// parts replaced. Valid UTF-8 is decoded as it stands; what stands for the
/// malformed parts of other byte strings is left unsaid.
#[verifier::external_body]
pub(crate) fn lossy_text(bytes: &[u8]) -> (r: String)
    ensures
        r@ == utf8_lossy(bytes@),
        vstd::utf8::valid_utf8(bytes@) ==> r@ == vstd::utf8::decode_utf8(bytes@),
{
    String::from_utf8_lossy(bytes).into_owned()
}

/// A string made of the given characters.
pub fn string_of(chars: &[char]) -> (r: String)
    ensures
        r@ == chars@,
{
    let mut r = String::new();
    let mut i: usize = 0;
    while i < chars.len()
        invariant
            i <= chars@.len(),
            r@ == chars@.take(i as int),
        decreases chars@.len() - i,
    {
        r.push(chars[i]);
        proof {
            assert(chars@.take(i + 1) =~= chars@.take(i as int).push(chars@[i as int]));
        }
        i = i + 1;
    }
    proof {
        assert(chars@.take(i as int) =~= chars@);
    }
    r
}

/// Two texts, one after the other.
pub fn joined(a: &str, b: &str) -> (r: String)
    ensures
        r@ == a@ + b@,
{
    let mut r = a.to_owned();
    r.append(b);
    r
}

/// The UTF-8 bytes of a text.
pub open spec fn utf8(text: Seq<char>) -> Seq<u8> {
    vstd::utf8::encode_utf8(text)
}

/// The UTF-8 bytes of some texts.
pub open spec fn encoded(words: Seq<Seq<char>>) -> Seq<Seq<u8>> {
    words.map_values(|w: Seq<char>| utf8(w))
}

/// Where lossy decoding reads valid UTF-8 as it stands, the bytes of some
/// texts are read as these texts.
pub proof fn lemma_read_back(tokens: Seq<Seq<u8>>, words: Seq<Seq<char>>)
    requires
        tokens == encoded(words),
        forall|i: int|
            0 <= i < tokens.len() && vstd::utf8::valid_utf8(#[trigger] tokens[i]) ==> utf8_lossy(
                tokens[i],
            ) == vstd::utf8::decode_utf8(tokens[i]),
    ensures
        tokens.len() == words.len(),
        forall|i: int| 0 <= i < words.len() ==> utf8_lossy(tokens[i]) == #[trigger] words[i],
{
    assert forall|i: int| 0 <= i < words.len() implies utf8_lossy(tokens[i])
        == #[trigger] words[i] by {
        vstd::utf8::encode_utf8_valid_utf8(words[i]);
        vstd::utf8::encode_utf8_decode_utf8(words[i]);
        assert(tokens[i] == utf8(words[i]));
    }
}

/// The UTF-8 bytes of a string.
pub fn bytes_of(s: &str) -> (r: Vec<u8>)
    ensures
        r@ == utf8(s@),
{
    crate::order::copy_bytes(s.as_bytes())
}

/// A byte string read as ASCII text.
pub open spec fn ascii(bytes: Seq<u8>) -> Seq<char> {
    bytes.map_values(|b: u8| b as char)
}

/// A string holding ASCII bytes.
pub fn ascii_string(bytes: &[u8]) -> (r: String)
    ensures
        r@ == ascii(bytes@),
{
    let mut r = String::new();
    let mut i: usize = 0;
    while i < bytes.len()
        invariant
            i <= bytes@.len(),
            r@ == ascii(bytes@).take(i as int),
        decreases bytes@.len() - i,
    {
        r.push(bytes[i] as char);
        proof {
            assert(ascii(bytes@).take(i + 1) =~= ascii(bytes@).take(i as int).push(
                bytes@[i as int] as char,
            ));
        }
        i = i + 1;
    }
    proof {
        assert(ascii(bytes@).take(i as int) =~= ascii(bytes@));
    }
    r
}

/// The decimal digits of a number, most significant first.
pub open spec fn digits(n: nat) -> Seq<u8>
    decreases n,
{
    if n < 10 {
        seq![(48 + n) as u8]
    } else {
        digits(n / 10).push((48 + n % 10) as u8)
    }
}

/// A byte that is a decimal digit.
pub open spec fn is_digit(b: u8) -> bool {
    48 <= b <= 57
}

/// The number that a run of decimal digits denotes.
pub open spec fn digits_value(s: Seq<u8>) -> nat
    decreases s.len(),
{
    if s.len() == 0 {
        0
    } else {
        10 * digits_value(s.drop_last()) + (s.last() - 48) as nat
    }
}

/// Reading back the digits of a number gives the number.
pub proof fn lemma_digits_roundtrip(n: nat)
    ensures
        digits(n).len() > 0,
        forall|i: int| 0 <= i < digits(n).len() ==> is_digit(#[trigger] digits(n)[i]),
        digits_value(digits(n)) == n,
    decreases n,
{
    if n < 10 {
        let s = digits(n);
        assert(s.drop_last() =~= Seq::empty());
        assert(digits_value(s.drop_last()) == 0);
    } else {
        lemma_digits_roundtrip(n / 10);
        let s = digits(n);
        assert(s.drop_last() =~= digits(n / 10));
    }
}

/// The decimal digits of a number.
pub fn decimal(n: u64) -> (r: Vec<u8>)
    ensures
        r@ == digits(n as nat),
    decreases n,
{
    if n < 10 {
        let mut r: Vec<u8> = Vec::new();
        r.push((48 + n) as u8);
        assert(r@ =~= digits(n as nat));
        r
    } else {
        let mut r = decimal(n / 10);
        r.push((48 + n % 10) as u8);
        r
    }
}

/// A number as decimal text.
pub open spec fn decimal_text(n: nat) -> Seq<char> {
    ascii(digits(n))
}

/// A number as decimal text.
pub fn decimal_string(n: u64) -> (r: String)
    ensures
        r@ == decimal_text(n as nat),
{
    ascii_string(decimal(n).as_slice())
}

/// The `k` low bytes of a number, least significant first.
pub open spec fn le_bytes(n: nat, k: nat) -> Seq<u8>
    decreases k,
{
    if k == 0 {
        Seq::empty()
    } else {
        seq![(n % 256) as u8] + le_bytes(n / 256, (k - 1) as nat)
    }
}

/// The number that bytes denote, least significant first.
pub open spec fn le_value(s: Seq<u8>) -> nat
    decreases s.len(),
{
    if s.len() == 0 {
        0
    } else {
        s[0] as nat + 256 * le_value(s.drop_first())
    }
}

/// 256 to the power `k`.
pub open spec fn pow256(k: nat) -> nat
    decreases k,
{
    if k == 0 {
        1
    } else {
        256 * pow256((k - 1) as nat)
    }
}

/// Writing a number in enough bytes and reading it back gives the number.
pub proof fn lemma_le_roundtrip(n: nat, k: nat)
    requires
        n < pow256(k),
    ensures
        le_bytes(n, k).len() == k,
        le_value(le_bytes(n, k)) == n,
    decreases k,
{
    if k > 0 {
        lemma_le_roundtrip(n / 256, (k - 1) as nat);
        let s = le_bytes(n, k);
        assert(s.drop_first() =~= le_bytes(n / 256, (k - 1) as nat));
    }
}

/// Reading bytes and writing the number back gives the bytes.
pub proof fn lemma_le_bytes_of_value(s: Seq<u8>)
    ensures
        le_value(s) < pow256(s.len()),
        le_bytes(le_value(s), s.len()) == s,
    decreases s.len(),
{
    if s.len() > 0 {
        let t = s.drop_first();
        lemma_le_bytes_of_value(t);
        let v = le_value(s);
        assert(v % 256 == s[0] as nat);
        assert(v / 256 == le_value(t));
        assert(le_bytes(v, s.len()) =~= s);
    } else {
        assert(le_bytes(0, 0) =~= s);
    }
}

/// Appends the `k` low bytes of a number, least significant first.
pub fn push_le(out: &mut Vec<u8>, n: u64, k: usize)
    ensures
        final(out)@ == old(out)@ + le_bytes(n as nat, k as nat),
    decreases k,
{
    if k == 0 {
        assert(out@ =~= old(out)@ + le_bytes(n as nat, 0));
    } else {
        let ghost before = out@;
        out.push((n % 256) as u8);
        push_le(out, n / 256, k - 1);
        assert(out@ =~= before + le_bytes(n as nat, k as nat));
    }
}

/// Reads bytes as a number, least significant first.
pub fn read_le(s: &[u8]) -> (r: u64)
    requires
        s@.len() <= 8,
    ensures
        r == le_value(s@),
{
    let mut acc: u64 = 0;
    let mut i: usize = s.len();
    proof {
        assert(s@.skip(i as int) =~= Seq::empty());
    }
    while i > 0
        invariant
            i <= s@.len() <= 8,
            acc == le_value(s@.skip(i as int)),
            acc < pow256((s@.len() - i) as nat),
        decreases i,
    {
        i = i - 1;
        proof {
            let t = s@.skip(i as int);
            assert(t.drop_first() =~= s@.skip(i + 1));
            lemma_le_bytes_of_value(t);
            lemma_pow256_bound((s@.len() - i) as nat);
        }
        acc = s[i] as u64 + 256 * acc;
    }
    proof {
        assert(s@.skip(0) =~= s@);
    }
    acc
}

proof fn lemma_pow256_bound(k: nat)
    requires
        k <= 8,
    ensures
        pow256(k) <= 0x1_0000_0000_0000_0000,
{
    reveal_with_fuel(pow256, 10);
}

/// White space as Unicode defines it.
pub open spec fn is_space(c: char) -> bool {
    let u = c as int;
    ||| 9 <= u <= 13
    ||| u == 32
    ||| u == 0x85
    ||| u == 0xA0
    ||| u == 0x1680
    ||| 0x2000 <= u <= 0x200A
    ||| u == 0x2028
    ||| u == 0x2029
    ||| u == 0x202F
    ||| u == 0x205F
    ||| u == 0x3000
}

/// Tests for white space.
pub fn space(c: char) -> (r: bool)
    ensures
        r == is_space(c),
{
    let u: u32 = code_point(c);
    (9 <= u && u <= 13) || u == 32 || u == 0x85 || u == 0xA0 || u == 0x1680 || (0x2000 <= u && u
        <= 0x200A) || u == 0x2028 || u == 0x2029 || u == 0x202F || u == 0x205F || u == 0x3000
}

/// White space within ASCII: tab, line feed, form feed, carriage return and
/// space.
pub open spec fn is_ascii_space(c: char) -> bool {
    let u = c as int;
    u == 9 || u == 10 || u == 12 || u == 13 || u == 32
}

/// What separates words.
#[derive(Clone, Copy, Debug, PartialEq, Eq, Structural)]
pub enum Separator {
    /// White space as Unicode defines it.
    Unicode,
    /// White space within ASCII.
    Ascii,
}

/// A character separates words.
pub open spec fn separates(by: Separator, c: char) -> bool {
    match by {
        Separator::Unicode => is_space(c),
        Separator::Ascii => is_ascii_space(c),
    }
}

fn is_separator(by: Separator, c: char) -> (r: bool)
    ensures
        r == separates(by, c),
{
    match by {
        Separator::Unicode => space(c),
        Separator::Ascii => {
            let u: u32 = code_point(c);
            u == 9 || u == 10 || u == 12 || u == 13 || u == 32
        },
    }
}

/// The maximal runs of a text without separators.
pub open spec fn runs(by: Separator, s: Seq<char>) -> Seq<Seq<char>>
    decreases s.len(),
{
    if s.len() == 0 {
        Seq::empty()
    } else if separates(by, s.last()) {
        runs(by, s.drop_last())
    } else if s.len() == 1 || separates(by, s[s.len() - 2]) {
        runs(by, s.drop_last()).push(seq![s.last()])
    } else {
        let before = runs(by, s.drop_last());
        before.drop_last().push(before.last().push(s.last()))
    }
}

/// The words of a text: its maximal runs without white space.
pub open spec fn words(s: Seq<char>) -> Seq<Seq<char>> {
    runs(Separator::Unicode, s)
}

/// The maximal runs of a text without ASCII white space.
pub open spec fn ascii_words(s: Seq<char>) -> Seq<Seq<char>> {
    runs(Separator::Ascii, s)
}

/// The views of a sequence of strings.
pub open spec fn texts(v: Seq<String>) -> Seq<Seq<char>> {
    v.map_values(|s: String| s@)
}

/// Splits a text into its words.
pub fn split_words(s: &str) -> (r: Vec<String>)
    ensures
        texts(r@) == words(s@),
{
    split_runs(Separator::Unicode, s)
}

/// Splits a text at ASCII white space.
pub fn split_ascii_words(s: &str) -> (r: Vec<String>)
    ensures
        texts(r@) == ascii_words(s@),
{
    split_runs(Separator::Ascii, s)
}

/// Splits a text into its runs without separators.
fn split_runs(by: Separator, s: &str) -> (r: Vec<String>)
    ensures
        texts(r@) == runs(by, s@),
{
    let cs = chars_of(s);
    let mut out: Vec<String> = Vec::new();
    let mut current: Vec<char> = Vec::new();
    let mut i: usize = 0;
    let ghost all = cs@;
    proof {
        assert(all.take(0) =~= Seq::empty());
        assert(texts(out@) =~= Seq::empty());
    }
    while i < cs.len()
        invariant
            i <= cs@.len(),
            all == cs@,
            current@.len() > 0 <==> i > 0 && !separates(by, all[i - 1]),
            runs(by, all.take(i as int)) == if current@.len() > 0 {
                texts(out@).push(current@)
            } else {
                texts(out@)
            },
        decreases cs@.len() - i,
    {
        let ghost part = all.take(i + 1);
        proof {
            assert(part.drop_last() =~= all.take(i as int));
            assert(part.last() == all[i as int]);
            if i > 0 {
                assert(part[part.len() - 2] == all[i - 1]);
            }
        }
        if is_separator(by, cs[i]) {
            if current.len() > 0 {
                let ghost before = out@;
                let word = string_of(current.as_slice());
                out.push(word);
                proof {
                    assert(texts(out@) =~= texts(before).push(current@));
                }
                current = Vec::new();
            }
        } else {
            let ghost before = current@;
            current.push(cs[i]);
            proof {
                if before.len() == 0 {
                    assert(current@ =~= seq![all[i as int]]);
                } else {
                    let w = runs(by, all.take(i as int));
                    assert(w.drop_last() =~= texts(out@));
                    assert(w.last() == before);
                }
            }
        }
        i = i + 1;
    }
    proof {
        assert(all.take(i as int) =~= all);
    }
    if current.len() > 0 {
        let ghost before = out@;
        let word = string_of(current.as_slice());
        out.push(word);
        proof {
            assert(texts(out@) =~= texts(before).push(current@));
        }
    }
    out
}

/// The text without leading and trailing white space.
pub open spec fn trimmed(s: Seq<char>) -> Seq<char>
    decreases s.len(),
{
    if s.len() == 0 {
        s
    } else if is_space(s[0]) {
        trimmed(s.drop_first())
    } else if is_space(s.last()) {
        trimmed(s.drop_last())
    } else {
        s
    }
}

/// Drops leading and trailing white space.
pub fn trim(s: &str) -> (r: String)
    ensures
        r@ == trimmed(s@),
{
    let cs = chars_of(s);
    let mut lo: usize = 0;
    let mut hi: usize = cs.len();
    proof {
        assert(cs@.subrange(0, cs@.len() as int) =~= cs@);
    }
    while lo < hi && (space(cs[lo]) || space(cs[hi - 1]))
        invariant
            lo <= hi <= cs@.len(),
            trimmed(s@) == trimmed(cs@.subrange(lo as int, hi as int)),
        decreases hi - lo,
    {
        let ghost t = cs@.subrange(lo as int, hi as int);
        if space(cs[lo]) {
            proof {
                assert(t.drop_first() =~= cs@.subrange(lo + 1, hi as int));
            }
            lo = lo + 1;
        } else {
            proof {
                assert(t.drop_last() =~= cs@.subrange(lo as int, hi - 1));
            }
            hi = hi - 1;
        }
    }
    let mut out: Vec<char> = Vec::new();
    let mut i: usize = lo;
    while i < hi
        invariant
            lo <= i <= hi <= cs@.len(),
            out@ == cs@.subrange(lo as int, i as int),
        decreases hi - i,
    {
        out.push(cs[i]);
        proof {
            assert(cs@.subrange(lo as int, i + 1) =~= cs@.subrange(lo as int, i as int).push(
                cs@[i as int],
            ));
        }
        i = i + 1;
    }
    string_of(out.as_slice())
}

/// A character with ASCII capitals made small.
pub open spec fn lower_char(c: char) -> char {
    if 'A' <= c && c <= 'Z' {
        ((c as int) + 32) as char
    } else {
        c
    }
}

/// A text with ASCII capitals made small.
pub open spec fn lower_text(s: Seq<char>) -> Seq<char> {
    s.map_values(|c: char| lower_char(c))
}

/// Makes an ASCII capital small.
pub fn lower(c: char) -> (r: char)
    ensures
        r == lower_char(c),
{
    let u: u32 = code_point(c);
    if 65 <= u && u <= 90 {
        (u as u8 + 32) as char
    } else {
        c
    }
}

/// Whether two texts are the same.
pub fn same_text(a: &str, b: &str) -> (r: bool)
    ensures
        r == (a@ == b@),
{
    let x = a.to_owned();
    let y = b.to_owned();
    x == y
}

/// A text with its ASCII capitals made small.
pub fn lowered(s: &str) -> (r: String)
    ensures
        r@ == lower_text(s@),
{
    let cs = chars_of(s);
    let mut low: Vec<char> = Vec::new();
    let mut k: usize = 0;
    while k < cs.len()
        invariant
            k <= cs@.len(),
            low@ == lower_text(cs@).take(k as int),
        decreases cs@.len() - k,
    {
        low.push(lower(cs[k]));
        proof {
            assert(lower_text(cs@).take(k + 1) =~= lower_text(cs@).take(k as int).push(
                lower_text(cs@)[k as int],
            ));
        }
        k = k + 1;
    }
    proof {
        assert(lower_text(cs@).take(k as int) =~= lower_text(cs@));
    }
    string_of(low.as_slice())
}

/// A byte of a little-endian number is the digit of its place to the base 256.
pub proof fn bytes_are_digits(n: nat, k: nat, i: nat)
    requires
        i < k,
    ensures
        le_bytes(n, k).len() == k,
        le_bytes(n, k)[i as int] == (n / pow256(i)) % 256,
    decreases k,
{
    let rest = le_bytes(n / 256, (k - 1) as nat);
    if i == 0 {
        lemma_le_length(n / 256, (k - 1) as nat);
        assert(n / 1 == n);
    } else {
        let j = (i - 1) as nat;
        bytes_are_digits(n / 256, (k - 1) as nat, j);
        assert(pow256(j) >= 1) by {
            lemma_pow256_pos(j);
        }
        vstd::arithmetic::div_mod::lemma_div_denominator(n as int, 256, pow256(j) as int);
        assert(le_bytes(n, k)[i as int] == rest[j as int]);
    }
}

proof fn lemma_le_length(n: nat, k: nat)
    ensures
        le_bytes(n, k).len() == k,
    decreases k,
{
    if k > 0 {
        lemma_le_length(n / 256, (k - 1) as nat);
    }
}

proof fn lemma_pow256_pos(k: nat)
    ensures
        pow256(k) >= 1,
    decreases k,
{
    if k > 0 {
        lemma_pow256_pos((k - 1) as nat);
    }
}

proof fn lemma_open_run(by: Separator, s: Seq<char>)
    requires
        s.len() > 0,
        !separates(by, s.last()),
    ensures
        runs(by, s).len() > 0,
    decreases s.len(),
{
    if s.len() > 1 && !separates(by, s[s.len() - 2]) {
        lemma_open_run(by, s.drop_last());
    }
}

/// A separator divides a text: its runs are those before the separator and
/// then those after it.
pub proof fn runs_part_at_separators(by: Separator, a: Seq<char>, c: char, b: Seq<char>)
    requires
        separates(by, c),
    ensures
        runs(by, a.push(c) + b) == runs(by, a) + runs(by, b),
    decreases b.len(),
{
    let s = a.push(c) + b;
    if b.len() == 0 {
        assert(s =~= a.push(c));
        assert(a.push(c).drop_last() =~= a);
        assert(runs(by, a) + runs(by, b) =~= runs(by, a));
    } else {
        let front = b.drop_last();
        assert(s.drop_last() =~= a.push(c) + front);
        assert(s.last() == b.last());
        runs_part_at_separators(by, a, c, front);
        let left = runs(by, a);
        let mid = runs(by, front);
        if separates(by, b.last()) {
        } else if b.len() == 1 {
            assert(s[s.len() - 2] == c);
            assert(front =~= Seq::empty());
            assert((left + mid).push(seq![b.last()]) =~= left + mid.push(seq![b.last()]));
        } else {
            assert(s[s.len() - 2] == b[b.len() - 2]);
            if separates(by, b[b.len() - 2]) {
                assert((left + mid).push(seq![b.last()]) =~= left + mid.push(seq![b.last()]));
            } else {
                lemma_open_run(by, front);
                let all = left + mid;
                assert(all.last() == mid.last());
                assert(all.drop_last().push(all.last().push(b.last())) =~= left
                    + mid.drop_last().push(mid.last().push(b.last())));
            }
        }
    }
}

/// A text without separators is one run, unless it is empty.
pub proof fn unbroken_texts_are_one_run(by: Separator, s: Seq<char>)
    requires
        s.len() > 0,
        forall|i: int| 0 <= i < s.len() ==> !separates(by, #[trigger] s[i]),
    ensures
        runs(by, s) == seq![s],
    decreases s.len(),
{
    let front = s.drop_last();
    if s.len() == 1 {
        assert(runs(by, front) =~= Seq::empty());
        assert(s =~= seq![s.last()]);
        assert(runs(by, s) =~= seq![s]);
    } else {
        unbroken_texts_are_one_run(by, front);
        assert(front.push(s.last()) =~= s);
        assert(!separates(by, s[s.len() - 2]));
        assert(runs(by, s) =~= seq![s]);
    }
}

/// Trimming takes the white space at both ends and nothing else.
pub proof fn trimming_takes_only_the_ends(a: Seq<char>, t: Seq<char>, b: Seq<char>)
    requires
        forall|i: int| 0 <= i < a.len() ==> is_space(#[trigger] a[i]),
        forall|i: int| 0 <= i < b.len() ==> is_space(#[trigger] b[i]),
        t.len() == 0 || (!is_space(t[0]) && !is_space(t.last())),
    ensures
        trimmed(a + t + b) == t,
    decreases a.len() + b.len(),
{
    let s = a + t + b;
    if a.len() > 0 {
        assert(s[0] == a[0]);
        assert(s.drop_first() =~= a.drop_first() + t + b);
        trimming_takes_only_the_ends(a.drop_first(), t, b);
    } else if b.len() == 0 {
        assert(s =~= t);
    } else if t.len() == 0 {
        assert(s[0] == b[0]);
        assert(s.drop_first() =~= a + t + b.drop_first());
        trimming_takes_only_the_ends(a, t, b.drop_first());
    } else {
        assert(s[0] == t[0]);
        assert(s.last() == b.last());
        assert(is_space(b[b.len() - 1]));
        assert(s.drop_last() =~= a + t + b.drop_last());
        trimming_takes_only_the_ends(a, t, b.drop_last());
    }
}

/// Making a text small changes ASCII capitals only, each to its small letter,
/// and making it small again changes nothing.
pub proof fn only_ascii_capitals_change(c: char)
    ensures
        lower_char(c) != c <==> 'A' <= c && c <= 'Z',
        'A' <= c && c <= 'Z' ==> lower_char(c) as int - 'a' as int == c as int - 'A' as int,
        lower_char(lower_char(c)) == lower_char(c),
{
}

/// ASCII white space is white space, and of the other ASCII characters only
/// the vertical tab is; a line feed, a tab and a space part words either way.
pub proof fn ascii_space_is_space(c: char)
    ensures
        is_ascii_space(c) ==> is_space(c),
        is_space(c) && (c as int) < 128 && !is_ascii_space(c) ==> c as int == 11,
        is_ascii_space(' ') && is_ascii_space('\n') && is_ascii_space('\t') && is_ascii_space('\r'),
        'a' <= c && c <= 'z' || '0' <= c && c <= '9' ==> !is_space(c),
{
}

} // verus!
