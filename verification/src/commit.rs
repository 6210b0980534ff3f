//! Commits: the record of one lattice evolution step.
//!
//! A commit names the observation, the previous head, and the departed,
//! retained and new sets of the step. Its wire form is compact JSON with the
//! keys in sorted order:
//!
//! ```text
//! {"d":"<cid>","h":"<cid>","n":"<cid>","r":"<cid>","s":"<cid>","ts":<u64>}
//! ```
//!
//! The commit's own key is `t:` and the SHA-1 of the wire form.
use vstd::prelude::*;
use vstd::string::*;

use crate::hashing::{hex_digit, sha1_hex, sha1_text};
use crate::text::{
    decimal_string, decimal_text, digits, is_digit, joined, lemma_digits_roundtrip, same_text, utf8,
};

verus! {

/// One lattice evolution step.
#[derive(Clone, Debug, PartialEq, Eq)]
pub struct Commit {
    /// Microseconds since the Unix epoch.
    pub timestamp: u64,
    /// Key of the observation.
    pub source: String,
    /// Key of the previous head commit.
    pub head: String,
    /// Key of the departed set.
    pub departed: String,
    /// Key of the retained set.
    pub retained: String,
    /// Key of the new set.
    pub new: String,
}

/// How a character stands in a JSON string.
pub open spec fn json_char(c: char) -> Seq<char> {
    let u = c as int;
    if u == 34 {
        seq!['\\', '"']
    } else if u == 92 {
        seq!['\\', '\\']
    } else if u == 8 {
        seq!['\\', 'b']
    } else if u == 9 {
        seq!['\\', 't']
    } else if u == 10 {
        seq!['\\', 'n']
    } else if u == 12 {
        seq!['\\', 'f']
    } else if u == 13 {
        seq!['\\', 'r']
    } else if u < 32 {
        seq!['\\', 'u', '0', '0', hex_digit(u / 16), hex_digit(u % 16)]
    } else {
        seq![c]
    }
}

/// The body of a JSON string.
pub open spec fn json_body(s: Seq<char>) -> Seq<char>
    decreases s.len(),
{
    if s.len() == 0 {
        Seq::empty()
    } else {
        json_body(s.drop_last()) + json_char(s.last())
    }
}

/// A text as a JSON string.
pub open spec fn json_text(s: Seq<char>) -> Seq<char> {
    seq!['"'] + json_body(s) + seq!['"']
}

/// Calls `serde_json::to_string` on a string, which cannot fail: quotes and
/// backslashes are escaped, control characters take their short escape or
/// four hexadecimal digits, everything else stands as it is.
#[verifier::external_body]
fn json_string(s: &str) -> (r: String)
    ensures
        r@ == json_text(s@),
{
    serde_json::to_string(s).expect("a string serializes")
}

/// Microseconds since the Unix epoch by `std::time::SystemTime::now`; zero
/// before the epoch. Nothing is known of the value.
#[verifier::external_body]
fn now_micros() -> (r: u64) {
    std::time::SystemTime::now().duration_since(std::time::UNIX_EPOCH).unwrap_or_default()
        .as_micros() as u64
}

/// The wire form of a commit.
pub open spec fn commit_json(c: Commit) -> Seq<char> {
    "{\"d\":"@ + json_text(c.departed@) + ",\"h\":"@ + json_text(c.head@) + ",\"n\":"@ + json_text(
        c.new@,
    ) + ",\"r\":"@ + json_text(c.retained@) + ",\"s\":"@ + json_text(c.source@) + ",\"ts\":"@
        + decimal_text(c.timestamp as nat) + "}"@
}

impl Commit {
    /// A commit at the current time.
    pub fn new(source: &str, prev_head: &str, departed: &str, retained: &str, new: &str) -> (r: Self)
        ensures
            r.source@ == source@,
            r.head@ == prev_head@,
            r.departed@ == departed@,
            r.retained@ == retained@,
            r.new@ == new@,
    {
        Commit::at(now_micros(), source, prev_head, departed, retained, new)
    }

    /// A commit at a given time.
    pub fn at(
        timestamp: u64,
        source: &str,
        prev_head: &str,
        departed: &str,
        retained: &str,
        new: &str,
    ) -> (r: Self)
        ensures
            r.timestamp == timestamp,
            r.source@ == source@,
            r.head@ == prev_head@,
            r.departed@ == departed@,
            r.retained@ == retained@,
            r.new@ == new@,
    {
        Commit {
            timestamp,
            source: source.to_owned(),
            head: prev_head.to_owned(),
            departed: departed.to_owned(),
            retained: retained.to_owned(),
            new: new.to_owned(),
        }
    }

    /// The wire form: compact JSON, keys sorted.
    pub fn to_json(&self) -> (r: String)
        ensures
            r@ == commit_json(*self),
    {
        let mut out = "{\"d\":".to_owned();
        out.append(json_string(self.departed.as_str()).as_str());
        out.append(",\"h\":");
        out.append(json_string(self.head.as_str()).as_str());
        out.append(",\"n\":");
        out.append(json_string(self.new.as_str()).as_str());
        out.append(",\"r\":");
        out.append(json_string(self.retained.as_str()).as_str());
        out.append(",\"s\":");
        out.append(json_string(self.source.as_str()).as_str());
        out.append(",\"ts\":");
        out.append(decimal_string(self.timestamp).as_str());
        out.append("}");
        out
    }

    /// The content key: `t:` and the SHA-1 of the wire form.
    pub fn content_key(&self) -> (r: String)
        ensures
            r@ == "t:"@ + sha1_text(utf8(commit_json(*self))),
    {
        let json = self.to_json();
        joined("t:", sha1_hex(json.as_str().as_bytes()).as_str())
    }

    /// Whether the commit links to the given previous head.
    pub fn chain_valid(&self, prev_key: &str) -> (r: bool)
        ensures
            r == (self.head@ == prev_key@),
    {
        same_text(self.head.as_str(), prev_key)
    }
}

proof fn lemma_body_concat(a: Seq<char>, b: Seq<char>)
    ensures
        json_body(a + b) == json_body(a) + json_body(b),
    decreases b.len(),
{
    if b.len() == 0 {
        assert(a + b =~= a);
        assert(json_body(a) + json_body(b) =~= json_body(a));
    } else {
        lemma_body_concat(a, b.drop_last());
        assert((a + b).drop_last() =~= a + b.drop_last());
        assert((a + b).last() == b.last());
        assert(json_body(a + b) =~= json_body(a) + json_body(b));
    }
}

proof fn lemma_body_front(s: Seq<char>)
    requires
        s.len() > 0,
    ensures
        json_body(s) == json_char(s[0]) + json_body(s.skip(1)),
{
    let first = seq![s[0]];
    assert(s =~= first + s.skip(1));
    lemma_body_concat(first, s.skip(1));
    assert(first.drop_last() =~= Seq::empty());
    assert(json_body(first.drop_last()) =~= Seq::empty());
    assert(first.last() == s[0]);
    assert(json_body(first) =~= json_char(s[0]));
}

proof fn lemma_hex_digits_distinct(d: int, e: int)
    requires
        0 <= d < 16,
        0 <= e < 16,
        hex_digit(d) == hex_digit(e),
    ensures
        d == e,
{
    assert(hex_digit(d) as int == if d < 10 {
        48 + d
    } else {
        87 + d
    });
    assert(hex_digit(e) as int == if e < 10 {
        48 + e
    } else {
        87 + e
    });
}

/// No character's form starts another's.
proof fn lemma_chars_tell_apart(a: char, b: char, x: Seq<char>, y: Seq<char>)
    requires
        json_char(a) + x == json_char(b) + y,
    ensures
        a == b,
        x == y,
{
    let l = json_char(a) + x;
    let r = json_char(b) + y;
    let (p, q) = (json_char(a), json_char(b));
    assert(l[0] == p[0] && r[0] == q[0]);
    if p[0] == '\\' {
        assert(l[1] == p[1] && r[1] == q[1]);
        if p[1] == 'u' {
            assert(l[4] == p[4] && r[4] == q[4]);
            assert(l[5] == p[5] && r[5] == q[5]);
            lemma_hex_digits_distinct(a as int / 16, b as int / 16);
            lemma_hex_digits_distinct(a as int % 16, b as int % 16);
        }
    }
    assert(a == b);
    assert(x =~= l.skip(p.len() as int));
    assert(y =~= r.skip(q.len() as int));
}

/// A JSON string tells where it ends.
proof fn lemma_strings_end_themselves(a: Seq<char>, b: Seq<char>, x: Seq<char>, y: Seq<char>)
    requires
        json_body(a) + (seq!['"'] + x) == json_body(b) + (seq!['"'] + y),
    ensures
        a == b,
        x == y,
    decreases a.len(),
{
    let l = json_body(a) + (seq!['"'] + x);
    let r = json_body(b) + (seq!['"'] + y);
    if a.len() == 0 || b.len() == 0 {
        if b.len() > 0 {
            lemma_body_front(b);
            assert(l[0] == '"');
            assert(r[0] == json_char(b[0])[0]);
        }
        if a.len() > 0 {
            lemma_body_front(a);
            assert(r[0] == '"');
            assert(l[0] == json_char(a[0])[0]);
        }
        assert(a =~= b);
        assert(x =~= l.skip(1));
        assert(y =~= r.skip(1));
    } else {
        lemma_body_front(a);
        lemma_body_front(b);
        let u = json_body(a.skip(1)) + (seq!['"'] + x);
        let v = json_body(b.skip(1)) + (seq!['"'] + y);
        assert(l =~= json_char(a[0]) + u);
        assert(r =~= json_char(b[0]) + v);
        lemma_chars_tell_apart(a[0], b[0], u, v);
        lemma_strings_end_themselves(a.skip(1), b.skip(1), x, y);
        assert(a =~= seq![a[0]] + a.skip(1));
        assert(b =~= seq![b[0]] + b.skip(1));
    }
}

/// A field's text and what follows can be told apart.
proof fn lemma_fields_tell_apart(
    name: Seq<char>,
    a: Seq<char>,
    b: Seq<char>,
    x: Seq<char>,
    y: Seq<char>,
)
    requires
        name + json_text(a) + x == name + json_text(b) + y,
    ensures
        a == b,
        x == y,
{
    let l = name + json_text(a) + x;
    let r = name + json_text(b) + y;
    let n = name.len() as int + 1;
    assert(l.skip(n) =~= json_body(a) + (seq!['"'] + x));
    assert(r.skip(n) =~= json_body(b) + (seq!['"'] + y));
    lemma_strings_end_themselves(a, b, x, y);
}

proof fn lemma_decimals_distinct(a: nat, b: nat)
    requires
        decimal_text(a) == decimal_text(b),
    ensures
        a == b,
{
    lemma_digits_roundtrip(a);
    lemma_digits_roundtrip(b);
    assert(digits(a) =~= digits(b)) by {
        assert(decimal_text(a).len() == digits(a).len());
        assert(decimal_text(b).len() == digits(b).len());
        assert forall|i: int| 0 <= i < digits(a).len() implies digits(a)[i] == digits(b)[i] by {
            assert(decimal_text(a)[i] == digits(a)[i] as char);
            assert(decimal_text(b)[i] == digits(b)[i] as char);
            assert(is_digit(digits(a)[i]) && is_digit(digits(b)[i]));
        }
    }
}

proof fn lemma_regroup(a: Seq<char>, b: Seq<char>, c: Seq<char>, d: Seq<char>)
    ensures
        a + b + c + d == a + (b + c + d),
{
    assert(a + b + c + d =~= a + (b + c + d));
}

spec fn from_time(c: Commit) -> Seq<char> {
    ",\"ts\":"@ + decimal_text(c.timestamp as nat) + "}"@
}

spec fn from_source(c: Commit) -> Seq<char> {
    ",\"s\":"@ + json_text(c.source@) + from_time(c)
}

spec fn from_retained(c: Commit) -> Seq<char> {
    ",\"r\":"@ + json_text(c.retained@) + from_source(c)
}

spec fn from_new(c: Commit) -> Seq<char> {
    ",\"n\":"@ + json_text(c.new@) + from_retained(c)
}

spec fn from_head(c: Commit) -> Seq<char> {
    ",\"h\":"@ + json_text(c.head@) + from_new(c)
}

/// The wire form, read field after field.
proof fn lemma_fields(c: Commit)
    ensures
        commit_json(c) == "{\"d\":"@ + json_text(c.departed@) + from_head(c),
{
    let d = "{\"d\":"@ + json_text(c.departed@);
    let h = d + ",\"h\":"@ + json_text(c.head@);
    let n = h + ",\"n\":"@ + json_text(c.new@);
    let r = n + ",\"r\":"@ + json_text(c.retained@);
    let s = r + ",\"s\":"@ + json_text(c.source@);
    lemma_regroup(s, ",\"ts\":"@, decimal_text(c.timestamp as nat), "}"@);
    lemma_regroup(r, ",\"s\":"@, json_text(c.source@), from_time(c));
    lemma_regroup(n, ",\"r\":"@, json_text(c.retained@), from_source(c));
    lemma_regroup(h, ",\"n\":"@, json_text(c.new@), from_retained(c));
    lemma_regroup(d, ",\"h\":"@, json_text(c.head@), from_new(c));
}

proof fn lemma_times_tell_apart(c: Commit, d: Commit)
    requires
        from_time(c) == from_time(d),
    ensures
        c.timestamp == d.timestamp,
{
    reveal_strlit("}");
    let n = ",\"ts\":"@.len() as int;
    assert(from_time(c).skip(n).drop_last() =~= decimal_text(c.timestamp as nat));
    assert(from_time(d).skip(n).drop_last() =~= decimal_text(d.timestamp as nat));
    lemma_decimals_distinct(c.timestamp as nat, d.timestamp as nat);
}

/// Distinct commits have distinct wire forms: the wire form determines every
/// field.
pub proof fn wire_forms_determine_commits(c: Commit, d: Commit)
    requires
        commit_json(c) == commit_json(d),
    ensures
        c.timestamp == d.timestamp,
        c.source@ == d.source@,
        c.head@ == d.head@,
        c.departed@ == d.departed@,
        c.retained@ == d.retained@,
        c.new@ == d.new@,
{
    lemma_fields(c);
    lemma_fields(d);
    lemma_fields_tell_apart("{\"d\":"@, c.departed@, d.departed@, from_head(c), from_head(d));
    lemma_fields_tell_apart(",\"h\":"@, c.head@, d.head@, from_new(c), from_new(d));
    lemma_fields_tell_apart(",\"n\":"@, c.new@, d.new@, from_retained(c), from_retained(d));
    lemma_fields_tell_apart(
        ",\"r\":"@,
        c.retained@,
        d.retained@,
        from_source(c),
        from_source(d),
    );
    lemma_fields_tell_apart(",\"s\":"@, c.source@, d.source@, from_time(c), from_time(d));
    lemma_times_tell_apart(c, d);
}

/// A text holds a name with its value.
pub open spec fn has_field(text: Seq<char>, name: Seq<char>, value: Seq<char>) -> bool {
    exists|before: Seq<char>, after: Seq<char>| text == #[trigger] (before + name + value + after)
}

/// Each part of a commit stands in the wire form under the letter of its
/// namespace, the head under `h`, the source under `s`, the time under `ts`.
pub proof fn parts_stand_under_their_letters(c: Commit)
    ensures
        has_field(commit_json(c), "{\"d\":"@, json_text(c.departed@)),
        has_field(commit_json(c), ",\"h\":"@, json_text(c.head@)),
        has_field(commit_json(c), ",\"n\":"@, json_text(c.new@)),
        has_field(commit_json(c), ",\"r\":"@, json_text(c.retained@)),
        has_field(commit_json(c), ",\"s\":"@, json_text(c.source@)),
        has_field(commit_json(c), ",\"ts\":"@, decimal_text(c.timestamp as nat)),
{
    let text = commit_json(c);
    let d = "{\"d\":"@;
    let h = ",\"h\":"@;
    let n = ",\"n\":"@;
    let r = ",\"r\":"@;
    let s = ",\"s\":"@;
    let ts = ",\"ts\":"@;
    let e = Seq::<char>::empty();
    let a1 = d + json_text(c.departed@);
    let a2 = a1 + h + json_text(c.head@);
    let a3 = a2 + n + json_text(c.new@);
    let a4 = a3 + r + json_text(c.retained@);
    let a5 = a4 + s + json_text(c.source@);
    let z6 = "}"@;
    let z5 = ts + decimal_text(c.timestamp as nat) + z6;
    let z4 = s + json_text(c.source@) + z5;
    let z3 = r + json_text(c.retained@) + z4;
    let z2 = n + json_text(c.new@) + z3;
    let z1 = h + json_text(c.head@) + z2;
    assert(text =~= e + d + json_text(c.departed@) + z1);
    assert(text =~= a1 + h + json_text(c.head@) + z2);
    assert(text =~= a2 + n + json_text(c.new@) + z3);
    assert(text =~= a3 + r + json_text(c.retained@) + z4);
    assert(text =~= a4 + s + json_text(c.source@) + z5);
    assert(text =~= a5 + ts + decimal_text(c.timestamp as nat) + z6);
}

} // verus!
