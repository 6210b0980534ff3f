//! Total orders on the keys of the ordered collections.
//!
//! A key is compared by its mathematical value, never by its representation:
//! two byte vectors with the same bytes are the same key.
use vstd::prelude::*;
use vstd::string::*;

verus! {

/// The outcome of comparing two keys.
#[derive(Clone, Copy, Debug, PartialEq, Eq)]
pub enum Order {
    /// The left key comes first.
    Before,
    /// The keys have the same value.
    Same,
    /// The left key comes last.
    After,
}

/// A type whose values are totally ordered.
pub trait Key: Sized {
    /// The mathematical value of a key.
    type Val;

    /// The value of this key.
    spec fn val(&self) -> Self::Val;

    /// The strict order on values.
    spec fn lt(a: Self::Val, b: Self::Val) -> bool;

    /// No value comes before itself.
    proof fn lt_irreflexive(a: Self::Val)
        ensures
            !Self::lt(a, a),
    ;

    /// The order is transitive.
    proof fn lt_transitive(a: Self::Val, b: Self::Val, c: Self::Val)
        requires
            Self::lt(a, b),
            Self::lt(b, c),
        ensures
            Self::lt(a, c),
    ;

    /// Any two distinct values are ordered.
    proof fn lt_total(a: Self::Val, b: Self::Val)
        ensures
            a == b || Self::lt(a, b) || Self::lt(b, a),
    ;

    /// Compares two keys by value.
    fn order(&self, other: &Self) -> (o: Order)
        ensures
            o == Order::Before <==> Self::lt(self.val(), other.val()),
            o == Order::Same <==> self.val() == other.val(),
            o == Order::After <==> Self::lt(other.val(), self.val()),
    ;

    /// A second key with the same value.
    fn duplicate(&self) -> (r: Self)
        ensures
            r.val() == self.val(),
    ;
}

impl Key for u8 {
    type Val = u8;

    open spec fn val(&self) -> u8 {
        *self
    }

    open spec fn lt(a: u8, b: u8) -> bool {
        a < b
    }

    proof fn lt_irreflexive(a: u8) {
    }

    proof fn lt_transitive(a: u8, b: u8, c: u8) {
    }

    proof fn lt_total(a: u8, b: u8) {
    }

    fn order(&self, other: &u8) -> (o: Order) {
        if *self < *other {
            Order::Before
        } else if *self == *other {
            Order::Same
        } else {
            Order::After
        }
    }

    fn duplicate(&self) -> (r: u8) {
        *self
    }
}

impl Key for u16 {
    type Val = u16;

    open spec fn val(&self) -> u16 {
        *self
    }

    open spec fn lt(a: u16, b: u16) -> bool {
        a < b
    }

    proof fn lt_irreflexive(a: u16) {
    }

    proof fn lt_transitive(a: u16, b: u16, c: u16) {
    }

    proof fn lt_total(a: u16, b: u16) {
    }

    fn order(&self, other: &u16) -> (o: Order) {
        if *self < *other {
            Order::Before
        } else if *self == *other {
            Order::Same
        } else {
            Order::After
        }
    }

    fn duplicate(&self) -> (r: u16) {
        *self
    }
}

impl Key for u32 {
    type Val = u32;

    open spec fn val(&self) -> u32 {
        *self
    }

    open spec fn lt(a: u32, b: u32) -> bool {
        a < b
    }

    proof fn lt_irreflexive(a: u32) {
    }

    proof fn lt_transitive(a: u32, b: u32, c: u32) {
    }

    proof fn lt_total(a: u32, b: u32) {
    }

    fn order(&self, other: &u32) -> (o: Order) {
        if *self < *other {
            Order::Before
        } else if *self == *other {
            Order::Same
        } else {
            Order::After
        }
    }

    fn duplicate(&self) -> (r: u32) {
        *self
    }
}

impl Key for u64 {
    type Val = u64;

    open spec fn val(&self) -> u64 {
        *self
    }

    open spec fn lt(a: u64, b: u64) -> bool {
        a < b
    }

    proof fn lt_irreflexive(a: u64) {
    }

    proof fn lt_transitive(a: u64, b: u64, c: u64) {
    }

    proof fn lt_total(a: u64, b: u64) {
    }

    fn order(&self, other: &u64) -> (o: Order) {
        if *self < *other {
            Order::Before
        } else if *self == *other {
            Order::Same
        } else {
            Order::After
        }
    }

    fn duplicate(&self) -> (r: u64) {
        *self
    }
}

/// The code point of a character.
pub fn code_point(c: char) -> (r: u32)
    ensures
        r as int == c as int,
{
    c as u32
}

impl Key for char {
    type Val = char;

    open spec fn val(&self) -> char {
        *self
    }

    open spec fn lt(a: char, b: char) -> bool {
        a < b
    }

    proof fn lt_irreflexive(a: char) {
    }

    proof fn lt_transitive(a: char, b: char, c: char) {
    }

    proof fn lt_total(a: char, b: char) {
    }

    fn order(&self, other: &char) -> (o: Order) {
        let a: u32 = code_point(*self);
        let b: u32 = code_point(*other);
        if a < b {
            Order::Before
        } else if a == b {
            Order::Same
        } else {
            Order::After
        }
    }

    fn duplicate(&self) -> (r: char) {
        *self
    }
}

/// Lexicographic order on sequences of key values.
pub open spec fn lex_lt<K: Key>(a: Seq<K::Val>, b: Seq<K::Val>) -> bool
    decreases b.len(),
{
    if b.len() == 0 {
        false
    } else if a.len() == 0 {
        true
    } else if a[0] == b[0] {
        lex_lt::<K>(a.drop_first(), b.drop_first())
    } else {
        K::lt(a[0], b[0])
    }
}

/// The lexicographic order is irreflexive.
pub proof fn lemma_lex_irreflexive<K: Key>(a: Seq<K::Val>)
    ensures
        !lex_lt::<K>(a, a),
    decreases a.len(),
{
    if a.len() > 0 {
        lemma_lex_irreflexive::<K>(a.drop_first());
    }
}

/// The lexicographic order is transitive.
pub proof fn lemma_lex_transitive<K: Key>(a: Seq<K::Val>, b: Seq<K::Val>, c: Seq<K::Val>)
    requires
        lex_lt::<K>(a, b),
        lex_lt::<K>(b, c),
    ensures
        lex_lt::<K>(a, c),
    decreases a.len(),
{
    if a.len() > 0 {
        if a[0] == b[0] && b[0] == c[0] {
            lemma_lex_transitive::<K>(a.drop_first(), b.drop_first(), c.drop_first());
        } else if a[0] != b[0] && b[0] != c[0] {
            K::lt_transitive(a[0], b[0], c[0]);
            if a[0] == c[0] {
                K::lt_irreflexive(a[0]);
            }
        }
    }
}

/// Two distinct sequences are lexicographically ordered.
pub proof fn lemma_lex_total<K: Key>(a: Seq<K::Val>, b: Seq<K::Val>)
    ensures
        a == b || lex_lt::<K>(a, b) || lex_lt::<K>(b, a),
    decreases a.len(),
{
    if a.len() == 0 {
        if b.len() == 0 {
            assert(a =~= b);
        }
    } else if b.len() > 0 {
        if a[0] == b[0] {
            lemma_lex_total::<K>(a.drop_first(), b.drop_first());
            if a.drop_first() == b.drop_first() {
                assert(a =~= seq![a[0]] + a.drop_first());
                assert(b =~= seq![b[0]] + b.drop_first());
            }
        } else {
            K::lt_total(a[0], b[0]);
        }
    }
}

/// The tail of a sequence drops its head with each step.
proof fn lemma_skip_step<T>(s: Seq<T>, i: int)
    requires
        0 <= i < s.len(),
    ensures
        s.skip(i)[0] == s[i],
        s.skip(i).len() == s.len() - i,
        s.skip(i).drop_first() == s.skip(i + 1),
{
    assert(s.skip(i).drop_first() =~= s.skip(i + 1));
}

/// Compares two slices of keys lexicographically.
fn lex_order<K: Key>(a: &[K], b: &[K], Ghost(va): Ghost<Seq<K::Val>>, Ghost(vb): Ghost<
    Seq<K::Val>,
>) -> (o: Order)
    requires
        va.len() == a@.len(),
        vb.len() == b@.len(),
        forall|i: int| 0 <= i < a@.len() ==> va[i] == (#[trigger] a@[i]).val(),
        forall|i: int| 0 <= i < b@.len() ==> vb[i] == (#[trigger] b@[i]).val(),
    ensures
        o == Order::Before <==> lex_lt::<K>(va, vb),
        o == Order::Same <==> va == vb,
        o == Order::After <==> lex_lt::<K>(vb, va),
{
    let mut i: usize = 0;
    proof {
        assert(va.skip(0) =~= va);
        assert(vb.skip(0) =~= vb);
    }
    while i < a.len() && i < b.len()
        invariant
            i <= a@.len(),
            i <= b@.len(),
            va.len() == a@.len(),
            vb.len() == b@.len(),
            forall|i: int| 0 <= i < a@.len() ==> va[i] == (#[trigger] a@[i]).val(),
            forall|i: int| 0 <= i < b@.len() ==> vb[i] == (#[trigger] b@[i]).val(),
            forall|j: int| 0 <= j < i ==> va[j] == vb[j],
            lex_lt::<K>(va, vb) == lex_lt::<K>(va.skip(i as int), vb.skip(i as int)),
            lex_lt::<K>(vb, va) == lex_lt::<K>(vb.skip(i as int), va.skip(i as int)),
        decreases a@.len() - i,
    {
        proof {
            lemma_skip_step(va, i as int);
            lemma_skip_step(vb, i as int);
            lemma_lex_irreflexive::<K>(va);
            lemma_lex_irreflexive::<K>(vb);
            K::lt_irreflexive(va[i as int]);
            if K::lt(va[i as int], vb[i as int]) && K::lt(vb[i as int], va[i as int]) {
                K::lt_transitive(va[i as int], vb[i as int], va[i as int]);
            }
        }
        match a[i].order(&b[i]) {
            Order::Before => {
                return Order::Before;
            },
            Order::After => {
                return Order::After;
            },
            Order::Same => {},
        }
        i = i + 1;
    }
    proof {
        lemma_lex_irreflexive::<K>(va);
        lemma_lex_irreflexive::<K>(vb);
    }
    if i < b.len() {
        Order::Before
    } else if i < a.len() {
        Order::After
    } else {
        proof {
            assert(va =~= vb);
        }
        Order::Same
    }
}

impl Key for Vec<u8> {
    type Val = Seq<u8>;

    open spec fn val(&self) -> Seq<u8> {
        self@
    }

    open spec fn lt(a: Seq<u8>, b: Seq<u8>) -> bool {
        lex_lt::<u8>(a, b)
    }

    proof fn lt_irreflexive(a: Seq<u8>) {
        lemma_lex_irreflexive::<u8>(a);
    }

    proof fn lt_transitive(a: Seq<u8>, b: Seq<u8>, c: Seq<u8>) {
        lemma_lex_transitive::<u8>(a, b, c);
    }

    proof fn lt_total(a: Seq<u8>, b: Seq<u8>) {
        lemma_lex_total::<u8>(a, b);
    }

    fn order(&self, other: &Vec<u8>) -> (o: Order) {
        lex_order::<u8>(self.as_slice(), other.as_slice(), Ghost(self@), Ghost(other@))
    }

    fn duplicate(&self) -> (r: Vec<u8>) {
        copy_bytes(self.as_slice())
    }
}

/// A fresh vector holding the bytes of a slice.
pub fn copy_bytes(bytes: &[u8]) -> (r: Vec<u8>)
    ensures
        r@ == bytes@,
{
    let mut r: Vec<u8> = Vec::new();
    r.extend_from_slice(bytes);
    assert(r@ =~= bytes@);
    r
}

/// Whether two slices hold the same bytes.
pub fn same_bytes(a: &[u8], b: &[u8]) -> (r: bool)
    ensures
        r == (a@ == b@),
{
    match lex_order::<u8>(a, b, Ghost(a@), Ghost(b@)) {
        Order::Same => true,
        _ => false,
    }
}

/// The byte strings that a sequence of byte vectors holds.
pub open spec fn views(s: Seq<Vec<u8>>) -> Seq<Seq<u8>> {
    s.map_values(|t: Vec<u8>| t@)
}

/// A fresh vector of byte strings.
pub fn copy_tokens(tokens: &[Vec<u8>]) -> (r: Vec<Vec<u8>>)
    ensures
        views(r@) == views(tokens@),
{
    let mut r: Vec<Vec<u8>> = Vec::new();
    let mut i: usize = 0;
    while i < tokens.len()
        invariant
            i <= tokens@.len(),
            r@.len() == i,
            forall|j: int| 0 <= j < i ==> (#[trigger] r@[j])@ == tokens@[j]@,
        decreases tokens@.len() - i,
    {
        r.push(copy_bytes(tokens[i].as_slice()));
        i = i + 1;
    }
    assert(views(r@) =~= views(tokens@));
    r
}

impl Key for Vec<Vec<u8>> {
    type Val = Seq<Seq<u8>>;

    open spec fn val(&self) -> Seq<Seq<u8>> {
        views(self@)
    }

    open spec fn lt(a: Seq<Seq<u8>>, b: Seq<Seq<u8>>) -> bool {
        lex_lt::<Vec<u8>>(a, b)
    }

    proof fn lt_irreflexive(a: Seq<Seq<u8>>) {
        lemma_lex_irreflexive::<Vec<u8>>(a);
    }

    proof fn lt_transitive(a: Seq<Seq<u8>>, b: Seq<Seq<u8>>, c: Seq<Seq<u8>>) {
        lemma_lex_transitive::<Vec<u8>>(a, b, c);
    }

    proof fn lt_total(a: Seq<Seq<u8>>, b: Seq<Seq<u8>>) {
        lemma_lex_total::<Vec<u8>>(a, b);
    }

    fn order(&self, other: &Vec<Vec<u8>>) -> (o: Order) {
        lex_order::<Vec<u8>>(
            self.as_slice(),
            other.as_slice(),
            Ghost(views(self@)),
            Ghost(views(other@)),
        )
    }

    fn duplicate(&self) -> (r: Vec<Vec<u8>>) {
        copy_tokens(self.as_slice())
    }
}

/// The characters of a string.
pub fn chars_of(s: &str) -> (r: Vec<char>)
    ensures
        r@ == s@,
{
    let mut r: Vec<char> = Vec::new();
    for c in it: s.chars()
        invariant
            r@ == it.seq().take(it.index() as int),
            it.seq() == s@,
    {
        r.push(c);
    }
    r
}

impl Key for String {
    type Val = Seq<char>;

    open spec fn val(&self) -> Seq<char> {
        self@
    }

    open spec fn lt(a: Seq<char>, b: Seq<char>) -> bool {
        lex_lt::<char>(a, b)
    }

    proof fn lt_irreflexive(a: Seq<char>) {
        lemma_lex_irreflexive::<char>(a);
    }

    proof fn lt_transitive(a: Seq<char>, b: Seq<char>, c: Seq<char>) {
        lemma_lex_transitive::<char>(a, b, c);
    }

    proof fn lt_total(a: Seq<char>, b: Seq<char>) {
        lemma_lex_total::<char>(a, b);
    }

    fn order(&self, other: &String) -> (o: Order) {
        let a = chars_of(self.as_str());
        let b = chars_of(other.as_str());
        lex_order::<char>(a.as_slice(), b.as_slice(), Ghost(self@), Ghost(other@))
    }

    fn duplicate(&self) -> (r: String) {
        self.clone()
    }
}

impl<A: Key, B: Key> Key for (A, B) {
    type Val = (A::Val, B::Val);

    open spec fn val(&self) -> (A::Val, B::Val) {
        (self.0.val(), self.1.val())
    }

    open spec fn lt(a: (A::Val, B::Val), b: (A::Val, B::Val)) -> bool {
        A::lt(a.0, b.0) || (a.0 == b.0 && B::lt(a.1, b.1))
    }

    proof fn lt_irreflexive(a: (A::Val, B::Val)) {
        A::lt_irreflexive(a.0);
        B::lt_irreflexive(a.1);
    }

    proof fn lt_transitive(a: (A::Val, B::Val), b: (A::Val, B::Val), c: (A::Val, B::Val)) {
        if A::lt(a.0, b.0) && A::lt(b.0, c.0) {
            A::lt_transitive(a.0, b.0, c.0);
        } else if a.0 == b.0 && b.0 == c.0 {
            B::lt_transitive(a.1, b.1, c.1);
        }
    }

    proof fn lt_total(a: (A::Val, B::Val), b: (A::Val, B::Val)) {
        A::lt_total(a.0, b.0);
        B::lt_total(a.1, b.1);
    }

    fn order(&self, other: &(A, B)) -> (o: Order) {
        proof {
            A::lt_irreflexive(self.0.val());
            A::lt_irreflexive(other.0.val());
            if A::lt(self.0.val(), other.0.val()) && A::lt(other.0.val(), self.0.val()) {
                A::lt_transitive(self.0.val(), other.0.val(), self.0.val());
            }
        }
        match self.0.order(&other.0) {
            Order::Before => Order::Before,
            Order::After => Order::After,
            Order::Same => self.1.order(&other.1),
        }
    }

    fn duplicate(&self) -> (r: (A, B)) {
        (self.0.duplicate(), self.1.duplicate())
    }
}

} // verus!
