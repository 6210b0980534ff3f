//! Ordered maps held as sorted vectors, and rankings by count.
use vstd::prelude::*;

use crate::collections::{ascending, lemma_listing, listing, lists, search, vals, OrdSet};
use crate::order::{Key, Order};

verus! {

/// A finite map, held in ascending key order.
pub struct OrdMap<K: Key, V> {
    body: (Vec<K>, Vec<V>),
}

impl<K: Key, V> View for OrdMap<K, V> {
    type V = Map<K::Val, V>;

    closed spec fn view(&self) -> Map<K::Val, V> {
        map_of(vals(self.body.0@), self.body.1@)
    }
}

/// The map that pairs each key with the value at its place.
pub open spec fn map_of<A, V>(keys: Seq<A>, values: Seq<V>) -> Map<A, V> {
    Map::new(|k: A| keys.contains(k), |k: A| values[keys.index_of(k)])
}

/// Inserting a fresh key and its value at one place inserts the pair.
proof fn lemma_map_insert<A, V>(keys: Seq<A>, values: Seq<V>, pos: int, k: A, v: V)
    requires
        keys.len() == values.len(),
        keys.no_duplicates(),
        0 <= pos <= keys.len(),
        !keys.contains(k),
    ensures
        map_of(keys.insert(pos, k), values.insert(pos, v)) == map_of(keys, values).insert(k, v),
{
    let ks = keys.insert(pos, k);
    let vs = values.insert(pos, v);
    assert(ks[pos] == k);
    assert(ks.no_duplicates()) by {
        assert forall|i: int, j: int| 0 <= i < ks.len() && 0 <= j < ks.len() && i != j implies ks[i]
            != ks[j] by {
            let i0 = if i < pos { i } else { i - 1 };
            let j0 = if j < pos { j } else { j - 1 };
            if i != pos {
                assert(keys[i0] == ks[i]);
                assert(keys.contains(ks[i]));
            }
            if j != pos {
                assert(keys[j0] == ks[j]);
                assert(keys.contains(ks[j]));
            }
        }
    }
    assert forall|x: A| ks.contains(x) == (keys.contains(x) || x == k) by {
        if keys.contains(x) {
            let i = choose|i: int| 0 <= i < keys.len() && keys[i] == x;
            let j = if i < pos { i } else { i + 1 };
            assert(ks[j] == x);
        }
        if ks.contains(x) {
            let j = choose|j: int| 0 <= j < ks.len() && ks[j] == x;
            if j != pos {
                let i = if j < pos { j } else { j - 1 };
                assert(keys[i] == x);
            }
        }
    }
    assert forall|x: A| ks.contains(x) implies vs[ks.index_of(x)] == map_of(keys, values).insert(
        k,
        v,
    )[x] by {
        let j = ks.index_of(x);
        assert(0 <= j < ks.len() && ks[j] == x);
        if x == k {
            assert(j == pos);
        } else {
            let i = if j < pos { j } else { j - 1 };
            assert(keys[i] == x);
            assert(keys.index_of(x) == i);
        }
    }
    assert(map_of(ks, vs) =~= map_of(keys, values).insert(k, v));
}

/// Removing a key and its value at one place removes the key.
proof fn lemma_map_remove<A, V>(keys: Seq<A>, values: Seq<V>, pos: int)
    requires
        keys.len() == values.len(),
        keys.no_duplicates(),
        0 <= pos < keys.len(),
    ensures
        map_of(keys.remove(pos), values.remove(pos)) == map_of(keys, values).remove(keys[pos]),
{
    let ks = keys.remove(pos);
    let vs = values.remove(pos);
    assert forall|x: A| ks.contains(x) == (keys.contains(x) && x != keys[pos]) by {
        if keys.contains(x) && x != keys[pos] {
            let i = choose|i: int| 0 <= i < keys.len() && keys[i] == x;
            let j = if i < pos { i } else { i - 1 };
            assert(ks[j] == x);
        }
        if ks.contains(x) {
            let j = choose|j: int| 0 <= j < ks.len() && ks[j] == x;
            let i = if j < pos { j } else { j + 1 };
            assert(keys[i] == x);
        }
    }
    assert forall|x: A| ks.contains(x) implies vs[ks.index_of(x)] == map_of(keys, values).remove(
        keys[pos],
    )[x] by {
        let j = ks.index_of(x);
        assert(0 <= j < ks.len() && ks[j] == x);
        let i = if j < pos { j } else { j + 1 };
        assert(keys[i] == x);
        assert(keys.index_of(x) == i);
    }
    assert(map_of(ks, vs) =~= map_of(keys, values).remove(keys[pos]));
}

impl<K: Key, V> OrdMap<K, V> {
    #[verifier::type_invariant]
    spec fn inv(self) -> bool {
        &&& self.body.0@.len() == self.body.1@.len()
        &&& ascending::<K>(vals(self.body.0@))
    }

    /// The keys in ascending order.
    pub closed spec fn keys(&self) -> Seq<K::Val> {
        vals(self.body.0@)
    }

    /// The values, in the order of their keys.
    pub closed spec fn values(&self) -> Seq<V> {
        self.body.1@
    }

    /// How the ordered listing and the map agree.
    pub open spec fn listed(&self) -> bool {
        &&& lists::<K>(self.keys(), self@.dom())
        &&& self.keys().no_duplicates()
        &&& self.keys().len() == self.values().len()
        &&& self@.dom().finite()
        &&& self@.dom().len() == self.keys().len()
        &&& forall|i: int|
            0 <= i < self.keys().len() ==> self@.contains_key(#[trigger] self.keys()[i])
                && self@[self.keys()[i]] == self.values()[i]
    }

    /// The empty map.
    pub fn new() -> (r: Self)
        ensures
            r@ == Map::<K::Val, V>::empty(),
            r.keys().len() == 0,
    {
        let r: OrdMap<K, V> = OrdMap { body: (Vec::new(), Vec::new()) };
        assert(r@ =~= Map::empty());
        r
    }

    /// The number of entries.
    pub fn len(&self) -> (r: usize)
        ensures
            r == self.keys().len(),
            self.listed(),
    {
        proof {
            use_type_invariant(self);
            let ks = self.keys();
            crate::collections::lemma_ascending_distinct::<K>(ks);
            ks.unique_seq_to_set();
            vstd::seq_lib::seq_to_set_is_finite(ks);
            assert(self@.dom() =~= ks.to_set());
            assert forall|i: int| 0 <= i < ks.len() implies self@.contains_key(#[trigger] ks[i])
                && self@[ks[i]] == self.values()[i] by {
                assert(ks.contains(ks[i]));
                assert(ks.index_of(ks[i]) == i);
            }
        }
        self.body.0.len()
    }

    /// Whether the map has no entry.
    pub fn is_empty(&self) -> (r: bool)
        ensures
            r == (self@ == Map::<K::Val, V>::empty()),
            r == (self.keys().len() == 0),
    {
        let n: usize = self.len();
        proof {
            if n == 0 {
                assert(self@ =~= Map::empty());
            } else {
                assert(self@.contains_key(self.keys()[0]));
            }
        }
        n == 0
    }

    /// The key at a place in the ascending order.
    pub fn key_at(&self, i: usize) -> (r: &K)
        requires
            i < self.keys().len(),
        ensures
            r.val() == self.keys()[i as int],
    {
        &self.body.0[i]
    }

    /// The value at a place in the ascending key order.
    pub fn val_at(&self, i: usize) -> (r: &V)
        requires
            i < self.keys().len(),
        ensures
            *r == self.values()[i as int],
            self@.contains_key(self.keys()[i as int]),
            *r == self@[self.keys()[i as int]],
    {
        let n: usize = self.len();
        proof {
            use_type_invariant(self);
            assert(self@.contains_key(self.keys()[i as int]));
        }
        &self.body.1[i]
    }

    /// The place of a key.
    pub fn find(&self, key: &K) -> (r: Option<usize>)
        ensures
            r is Some <==> self@.contains_key(key.val()),
            r matches Some(i) ==> i < self.keys().len() && self.keys()[i as int] == key.val(),
    {
        proof {
            use_type_invariant(self);
        }
        let (found, pos) = search(self.body.0.as_slice(), key);
        if found {
            Some(pos)
        } else {
            None
        }
    }

    /// Whether a key has an entry.
    pub fn contains_key(&self, key: &K) -> (r: bool)
        ensures
            r == self@.contains_key(key.val()),
    {
        self.find(key).is_some()
    }

    /// The value of a key.
    pub fn get(&self, key: &K) -> (r: Option<&V>)
        ensures
            r is Some <==> self@.contains_key(key.val()),
            r matches Some(v) ==> *v == self@[key.val()],
    {
        match self.find(key) {
            Some(i) => Some(self.val_at(i)),
            None => None,
        }
    }

    /// Sets the value of a key; hands back the value it replaces.
    pub fn insert(&mut self, key: K, value: V) -> (r: Option<V>)
        ensures
            final(self)@ == old(self)@.insert(key.val(), value),
            r is Some <==> old(self)@.contains_key(key.val()),
            r matches Some(v) ==> v == old(self)@[key.val()],
    {
        let prior = self.remove(&key);
        proof {
            use_type_invariant(&*self);
        }
        let ghost mid = self@;
        let mut body: (Vec<K>, Vec<V>) = (Vec::new(), Vec::new());
        core::mem::swap(&mut body, &mut self.body);
        let (mut keys, mut values) = body;
        let ghost s0 = vals(keys@);
        let ghost v0 = values@;
        let ghost k = key.val();
        let (found, pos) = search(keys.as_slice(), &key);
        proof {
            assert(!mid.contains_key(k));
            assert(!found);
        }
        keys.insert(pos, key);
        values.insert(pos, value);
        proof {
            let s1 = vals(keys@);
            assert(s1 =~= s0.insert(pos as int, k));
            assert forall|i: int, j: int| 0 <= i < j < s1.len() implies K::lt(
                #[trigger] s1[i],
                #[trigger] s1[j],
            ) by {
                if i < pos && j == pos {
                    assert(K::lt(s0[i], k));
                } else if i == pos {
                    assert(K::lt(k, s0[j - 1]));
                } else if i < pos && j < pos {
                    assert(K::lt(s0[i], s0[j]));
                } else if i < pos {
                    assert(K::lt(s0[i], s0[j - 1]));
                } else {
                    assert(K::lt(s0[i - 1], s0[j - 1]));
                }
            }
            crate::collections::lemma_ascending_distinct::<K>(s0);
            lemma_map_insert(s0, v0, pos as int, k, value);
            assert(old(self)@.remove(k).insert(k, value) =~= old(self)@.insert(k, value));
        }
        self.body = (keys, values);
        prior
    }

    /// Drops a key; hands back its value.
    pub fn remove(&mut self, key: &K) -> (r: Option<V>)
        ensures
            final(self)@ == old(self)@.remove(key.val()),
            r is Some <==> old(self)@.contains_key(key.val()),
            r matches Some(v) ==> v == old(self)@[key.val()],
    {
        proof {
            use_type_invariant(&*self);
        }
        let mut body: (Vec<K>, Vec<V>) = (Vec::new(), Vec::new());
        core::mem::swap(&mut body, &mut self.body);
        let (mut keys, mut values) = body;
        let ghost s0 = vals(keys@);
        let ghost v0 = values@;
        let ghost k = key.val();
        let (found, pos) = search(keys.as_slice(), key);
        if found {
            proof {
                crate::collections::lemma_ascending_distinct::<K>(s0);
                assert(s0[pos as int] == k);
                assert(s0.index_of(k) == pos);
                lemma_map_remove(s0, v0, pos as int);
            }
            keys.remove(pos);
            let value = values.remove(pos);
            proof {
                let s1 = vals(keys@);
                assert(s1 =~= s0.remove(pos as int));
                assert forall|i: int, j: int| 0 <= i < j < s1.len() implies K::lt(
                    #[trigger] s1[i],
                    #[trigger] s1[j],
                ) by {
                    let i0 = if i < pos { i } else { i + 1 };
                    let j0 = if j < pos { j } else { j + 1 };
                    assert(K::lt(s0[i0], s0[j0]));
                }
            }
            self.body = (keys, values);
            Some(value)
        } else {
            proof {
                assert(map_of(s0, v0).remove(k) =~= map_of(s0, v0));
            }
            self.body = (keys, values);
            None
        }
    }
}

impl<K: Key> OrdMap<K, u64> {
    /// The count of a key, zero where it has none.
    pub fn count(&self, key: &K) -> (r: u64)
        ensures
            r == count_in(self@, key.val()),
    {
        match self.get(key) {
            Some(v) => *v,
            None => 0,
        }
    }

    /// A second map with the same entries.
    pub fn duplicate(&self) -> (r: Self)
        ensures
            r@ == self@,
    {
        let n: usize = self.len();
        let mut r: OrdMap<K, u64> = OrdMap::new();
        let mut i: usize = 0;
        while i < n
            invariant
                i <= n,
                n == self.keys().len(),
                self.listed(),
                forall|k: K::Val|
                    #![auto]
                    r@.contains_key(k) <==> self.keys().take(i as int).contains(k),
                forall|k: K::Val| #![auto] r@.contains_key(k) ==> r@[k] == self@[k],
            decreases n - i,
        {
            proof {
                crate::collections::lemma_take_step(self.keys(), i as int);
                assert forall|k: K::Val|
                    self.keys().take(i + 1).contains(k) == (self.keys().take(i as int).contains(k)
                        || k == self.keys()[i as int]) by {
                    assert(self.keys().take(i + 1).to_set().contains(k) == (self.keys().take(
                        i as int,
                    ).to_set().contains(k) || k == self.keys()[i as int]));
                }
            }
            r.insert(self.key_at(i).duplicate(), *self.val_at(i));
            i = i + 1;
        }
        proof {
            assert(self.keys().take(n as int) =~= self.keys());
            assert forall|k: K::Val| r@.contains_key(k) == self@.contains_key(k) by {
                assert(self.keys().to_set().contains(k) == self.keys().contains(k));
            }
            assert(r@ =~= self@);
        }
        r
    }
}

/// The count that a map gives a key, zero where it has none.
pub open spec fn count_in<A>(m: Map<A, u64>, k: A) -> u64 {
    if m.contains_key(k) {
        m[k]
    } else {
        0
    }
}

/// The sum, over the entries of a finite map, of what `f` makes of the value.
pub open spec fn total<A, V>(m: Map<A, V>, f: spec_fn(V) -> nat) -> nat
    decreases m.dom().len(),
{
    if m.dom().finite() && m.dom().len() > 0 {
        let k = m.dom().choose();
        f(m[k]) + total(m.remove(k), f)
    } else {
        0
    }
}

/// Any one entry can be taken out of the sum.
pub proof fn lemma_total_remove<A, V>(m: Map<A, V>, f: spec_fn(V) -> nat, k: A)
    requires
        m.dom().finite(),
        m.contains_key(k),
    ensures
        total(m, f) == f(m[k]) + total(m.remove(k), f),
    decreases m.dom().len(),
{
    let c = m.dom().choose();
    assert(m.dom().contains(c));
    if c != k {
        let n = m.remove(c);
        let o = m.remove(k);
        assert(n.contains_key(k));
        assert(o.contains_key(c));
        lemma_total_remove(n, f, k);
        lemma_total_remove(o, f, c);
        assert(n.remove(k) =~= o.remove(c));
    }
}

/// Setting an entry replaces its share of the sum.
pub proof fn lemma_total_insert<A, V>(m: Map<A, V>, f: spec_fn(V) -> nat, k: A, v: V)
    requires
        m.dom().finite(),
    ensures
        m.insert(k, v).dom().finite(),
        total(m.insert(k, v), f) == total(m.remove(k), f) + f(v),
        total(m, f) == total(m.remove(k), f) + if m.contains_key(k) {
            f(m[k])
        } else {
            0
        },
{
    let n = m.insert(k, v);
    lemma_total_remove(n, f, k);
    assert(n.remove(k) =~= m.remove(k));
    if m.contains_key(k) {
        lemma_total_remove(m, f, k);
    } else {
        assert(m.remove(k) =~= m);
    }
}

/// The sum of the counts of a finite map.
pub open spec fn map_sum<A>(m: Map<A, u64>) -> nat {
    total(m, |v: u64| v as nat)
}

/// Setting a count replaces its share of the sum.
pub proof fn lemma_sum_insert<A>(m: Map<A, u64>, k: A, v: u64)
    requires
        m.dom().finite(),
    ensures
        map_sum(m.insert(k, v)) == map_sum(m) - count_in(m, k) + v,
        m.insert(k, v).dom().finite(),
        count_in(m, k) <= map_sum(m),
{
    lemma_total_insert(m, |v: u64| v as nat, k, v);
}

/// A key with a count: higher counts come first, then smaller keys.
pub struct Ranked<K: Key> {
    pub count: u64,
    pub key: K,
}

impl<K: Key> Key for Ranked<K> {
    type Val = (u64, K::Val);

    open spec fn val(&self) -> (u64, K::Val) {
        (self.count, self.key.val())
    }

    open spec fn lt(a: (u64, K::Val), b: (u64, K::Val)) -> bool {
        a.0 > b.0 || (a.0 == b.0 && K::lt(a.1, b.1))
    }

    proof fn lt_irreflexive(a: (u64, K::Val)) {
        K::lt_irreflexive(a.1);
    }

    proof fn lt_transitive(a: (u64, K::Val), b: (u64, K::Val), c: (u64, K::Val)) {
        if a.0 == b.0 && b.0 == c.0 {
            K::lt_transitive(a.1, b.1, c.1);
        }
    }

    proof fn lt_total(a: (u64, K::Val), b: (u64, K::Val)) {
        K::lt_total(a.1, b.1);
    }

    fn order(&self, other: &Self) -> (o: Order) {
        if self.count > other.count {
            Order::Before
        } else if self.count < other.count {
            Order::After
        } else {
            self.key.order(&other.key)
        }
    }

    fn duplicate(&self) -> (r: Self) {
        Ranked { count: self.count, key: self.key.duplicate() }
    }
}

/// The entries of a count map as (count, key) pairs.
pub open spec fn ranked_entries<A>(m: Map<A, u64>) -> Set<(u64, A)> {
    Set::new(|p: (u64, A)| m.contains_key(p.1) && m[p.1] == p.0)
}

/// The (count, key) pairs that a ranking lists.
pub open spec fn ranking_pairs<K: Key>(r: Seq<(K, u64)>) -> Seq<(u64, K::Val)> {
    r.map_values(|p: (K, u64)| (p.1, p.0.val()))
}

/// The entries of a count map as (count, key) pairs, by descending count and
/// then ascending key.
pub open spec fn ranking<K: Key>(m: Map<K::Val, u64>) -> Seq<(u64, K::Val)> {
    listing::<Ranked<K>>(ranked_entries(m))
}

/// Ranks the entries of a count map.
pub fn rank_entries<K: Key>(m: &OrdMap<K, u64>) -> (r: Vec<(K, u64)>)
    ensures
        ranking_pairs(r@) == ranking::<K>(m@),
        lists::<Ranked<K>>(ranking_pairs(r@), ranked_entries(m@)),
        r@.len() == m.keys().len(),
{
    let n: usize = m.len();
    let mut set: OrdSet<Ranked<K>> = OrdSet::new();
    let mut i: usize = 0;
    while i < n
        invariant
            i <= n,
            n == m.keys().len(),
            m.listed(),
            set@.finite(),
            set@.len() == i,
            forall|p: (u64, K::Val)|
                set@.contains(p) <==> exists|j: int|
                    0 <= j < i && p == (m.values()[j], #[trigger] m.keys()[j]),
        decreases n - i,
    {
        let ghost before = set@;
        let key = m.key_at(i).duplicate();
        let count: u64 = *m.val_at(i);
        set.insert(Ranked { count, key });
        proof {
            let q = (count, m.keys()[i as int]);
            if before.contains(q) {
                let j = choose|j: int|
                    0 <= j < i && q == (m.values()[j], #[trigger] m.keys()[j]);
                assert(m.keys()[j] == m.keys()[i as int]);
            }
            assert forall|p: (u64, K::Val)|
                set@.contains(p) == (exists|j: int|
                    0 <= j < i + 1 && p == (m.values()[j], #[trigger] m.keys()[j])) by {
                if before.contains(p) {
                    let j = choose|j: int|
                        0 <= j < i && p == (m.values()[j], #[trigger] m.keys()[j]);
                    assert(0 <= j < i + 1);
                }
                if p == q {
                    assert(p == (m.values()[i as int], m.keys()[i as int]));
                }
            }
        }
        i = i + 1;
    }
    proof {
        assert forall|p: (u64, K::Val)| set@.contains(p) == ranked_entries(m@).contains(p) by {
            if ranked_entries(m@).contains(p) {
                assert(m.keys().to_set().contains(p.1));
                let j = choose|j: int| 0 <= j < n && m.keys()[j] == p.1;
                assert(p == (m.values()[j], m.keys()[j]));
            }
        }
        assert(set@ =~= ranked_entries(m@));
    }
    let k: usize = set.len();
    let mut r: Vec<(K, u64)> = Vec::new();
    let mut i: usize = 0;
    while i < k
        invariant
            i <= k,
            k == set.seq().len(),
            r@.len() == i,
            forall|j: int|
                0 <= j < i ==> (r@[j].1, (#[trigger] r@[j]).0.val()) == set.seq()[j],
        decreases k - i,
    {
        let e = set.at(i);
        r.push((e.key.duplicate(), e.count));
        i = i + 1;
    }
    proof {
        assert(ranking_pairs(r@) =~= set.seq());
        lemma_listing::<Ranked<K>>(set.seq(), set@);
    }
    r
}

/// A ranking lists every entry of a finite count map once: higher counts come
/// first, and of equal counts the smaller key.
pub proof fn rankings_come_best_first<K: Key>(m: Map<K::Val, u64>)
    requires
        m.dom().finite(),
    ensures
        forall|p: (u64, K::Val)| #[trigger]
            ranking::<K>(m).contains(p) <==> m.contains_key(p.1) && m[p.1] == p.0,
        forall|i: int, j: int|
            0 <= i < j < ranking::<K>(m).len() ==> {
                let a = #[trigger] ranking::<K>(m)[i];
                let b = #[trigger] ranking::<K>(m)[j];
                a.0 > b.0 || (a.0 == b.0 && K::lt(a.1, b.1))
            },
        ranking::<K>(m).len() == m.dom().len(),
{
    let set = ranked_entries(m);
    let f = |k: K::Val| (m[k], k);
    let img = m.dom().map(f);
    m.dom().lemma_map_finite(f);
    assert forall|p: (u64, K::Val)| set.contains(p) == img.contains(p) by {
        if set.contains(p) {
            assert(m.dom().contains(p.1) && f(p.1) == p);
        }
    }
    assert(set =~= img);
    assert(vstd::relations::injective_on(f, m.dom())) by {
        assert forall|a: K::Val, b: K::Val|
            m.dom().contains(a) && m.dom().contains(b) && #[trigger] f(a) == #[trigger] f(b)
            implies a == b by {}
    }
    vstd::set_lib::lemma_map_size(m.dom(), img, f);
    crate::collections::lemma_listing_exists::<Ranked<K>>(set);
    let r = ranking::<K>(m);
    crate::collections::lemma_ascending_distinct::<Ranked<K>>(r);
    r.unique_seq_to_set();
    assert forall|p: (u64, K::Val)| #[trigger] r.contains(p) <==> (m.contains_key(p.1) && m[p.1]
        == p.0) by {
        assert(r.to_set().contains(p) == r.contains(p));
        assert(set.contains(p) == r.to_set().contains(p));
    }
}

/// A sequence that never descends.
pub open spec fn sorted<K: Key>(s: Seq<K::Val>) -> bool {
    forall|i: int, j: int| 0 <= i < j < s.len() ==> !K::lt(#[trigger] s[j], #[trigger] s[i])
}

/// The sorted arrangement of some values, repeats kept.
pub open spec fn sorted_form<K: Key>(items: Seq<K::Val>) -> Seq<K::Val> {
    choose|s: Seq<K::Val>| sorted::<K>(s) && s.to_multiset() == items.to_multiset()
}

/// There is one sorted arrangement.
pub proof fn lemma_sorted_unique<K: Key>(a: Seq<K::Val>, b: Seq<K::Val>)
    requires
        sorted::<K>(a),
        sorted::<K>(b),
        a.to_multiset() == b.to_multiset(),
    ensures
        a == b,
    decreases a.len(),
{
    a.to_multiset_ensures();
    b.to_multiset_ensures();
    assert(a.len() == b.len());
    if a.len() > 0 {
        let n = a.len() - 1;
        let x = a[n];
        let y = b[n];
        assert(a.contains(x));
        assert(b.contains(y));
        assert(b.to_multiset().count(x) > 0);
        assert(a.to_multiset().count(y) > 0);
        assert(b.contains(x));
        assert(a.contains(y));
        let i = choose|i: int| 0 <= i < b.len() && b[i] == x;
        let j = choose|j: int| 0 <= j < a.len() && a[j] == y;
        if x != y {
            assert(!K::lt(b[n], b[i]));
            assert(!K::lt(a[n], a[j]));
            K::lt_total(x, y);
        }
        let a1 = a.drop_last();
        let b1 = b.drop_last();
        assert(a =~= a1.push(x));
        assert(b =~= b1.push(y));
        a1.to_multiset_ensures();
        b1.to_multiset_ensures();
        assert(a1.to_multiset() =~= a.to_multiset().remove(x));
        assert(b1.to_multiset() =~= b.to_multiset().remove(y));
        lemma_sorted_unique::<K>(a1, b1);
    } else {
        assert(a =~= b);
    }
}

/// Sorts keys, keeping repeats.
pub fn sort<K: Key>(items: Vec<K>) -> (r: Vec<K>)
    ensures
        vals(r@) == sorted_form::<K>(vals(items@)),
        sorted::<K>(vals(r@)),
        vals(r@).to_multiset() == vals(items@).to_multiset(),
        r@.len() == items@.len(),
{
    let mut r: Vec<K> = Vec::new();
    let mut i: usize = 0;
    let ghost s = vals(items@);
    proof {
        assert(s.take(0) =~= vals(r@));
    }
    while i < items.len()
        invariant
            i <= items@.len(),
            s == vals(items@),
            r@.len() == i,
            sorted::<K>(vals(r@)),
            vals(r@).to_multiset() == s.take(i as int).to_multiset(),
        decreases items@.len() - i,
    {
        let k = items[i].duplicate();
        let mut pos: usize = i;
        let ghost before = vals(r@);
        let mut go = true;
        while go && pos > 0
            invariant
                pos <= i,
                r@.len() == i,
                before == vals(r@),
                sorted::<K>(before),
                k.val() == s[i as int],
                forall|j: int| pos <= j < i ==> K::lt(k.val(), #[trigger] before[j]),
                !go ==> pos == 0 || !K::lt(k.val(), before[pos - 1]),
            decreases pos + (if go { 1int } else { 0int }),
        {
            match k.order(&r[pos - 1]) {
                Order::Before => {
                    pos = pos - 1;
                },
                _ => {
                    go = false;
                },
            }
        }
        r.insert(pos, k);
        proof {
            let after = vals(r@);
            let v = s[i as int];
            assert(after =~= before.insert(pos as int, v));
            assert forall|a: int, b: int| 0 <= a < b < after.len() implies !K::lt(
                #[trigger] after[b],
                #[trigger] after[a],
            ) by {
                if a < pos && b == pos {
                    if K::lt(v, before[a]) {
                        if a < pos - 1 {
                            assert(!K::lt(before[pos - 1], before[a]));
                            K::lt_total(before[pos - 1], before[a]);
                            if K::lt(before[a], before[pos - 1]) {
                                K::lt_transitive(v, before[a], before[pos - 1]);
                            }
                        }
                    }
                } else if a == pos {
                    assert(K::lt(v, before[b - 1]));
                    if K::lt(before[b - 1], v) {
                        K::lt_transitive(v, before[b - 1], v);
                        K::lt_irreflexive(v);
                    }
                } else {
                    let a0 = if a < pos { a } else { a - 1 };
                    let b0 = if b < pos { b } else { b - 1 };
                    assert(!K::lt(before[b0], before[a0]));
                }
            }
            crate::collections::lemma_take_step(s, i as int);
            before.to_multiset_ensures();
            s.take(i as int).to_multiset_ensures();
            lemma_insert_multiset(before, pos as int, v);
        }
        i = i + 1;
    }
    proof {
        assert(s.take(i as int) =~= s);
        lemma_sorted_unique::<K>(vals(r@), sorted_form::<K>(s));
    }
    r
}

/// Inserting at any place adds one occurrence.
proof fn lemma_insert_multiset<T>(s: Seq<T>, pos: int, v: T)
    requires
        0 <= pos <= s.len(),
    ensures
        s.insert(pos, v).to_multiset() == s.to_multiset().insert(v),
{
    s.to_multiset_ensures();
    s.insert(pos, v).to_multiset_ensures();
    let t = s.insert(pos, v);
    assert(t =~= s.take(pos) + (seq![v] + s.skip(pos)));
    assert(s =~= s.take(pos) + s.skip(pos));
    vstd::seq_lib::lemma_multiset_commutative(s.take(pos), seq![v] + s.skip(pos));
    vstd::seq_lib::lemma_multiset_commutative(seq![v], s.skip(pos));
    vstd::seq_lib::lemma_multiset_commutative(s.take(pos), s.skip(pos));
    assert(seq![v] =~= Seq::empty().push(v));
    Seq::<T>::empty().to_multiset_ensures();
    assert(t.to_multiset() =~= s.to_multiset().insert(v));
}

proof fn lemma_sorted_insert<K: Key>(s: Seq<K::Val>, v: K::Val) -> (r: Seq<K::Val>)
    requires
        sorted::<K>(s),
    ensures
        sorted::<K>(r),
        r.to_multiset() == s.to_multiset().insert(v),
    decreases s.len(),
{
    s.to_multiset_ensures();
    if s.len() == 0 || !K::lt(v, s.last()) {
        let r = s.push(v);
        assert forall|i: int, j: int| 0 <= i < j < r.len() implies !K::lt(
            #[trigger] r[j],
            #[trigger] r[i],
        ) by {
            if j == s.len() {
                let n = s.len() - 1;
                if K::lt(v, s[i]) && i < n {
                    assert(!K::lt(s[n], s[i]));
                    K::lt_total(s[n], s[i]);
                    if K::lt(s[i], s[n]) {
                        K::lt_transitive(v, s[i], s[n]);
                    }
                }
            } else {
                assert(!K::lt(s[j], s[i]));
            }
        }
        r
    } else {
        let d = s.drop_last();
        let last = s.last();
        assert(sorted::<K>(d)) by {
            assert forall|i: int, j: int| 0 <= i < j < d.len() implies !K::lt(
                #[trigger] d[j],
                #[trigger] d[i],
            ) by {
                assert(!K::lt(s[j], s[i]));
            }
        }
        let q = lemma_sorted_insert::<K>(d, v);
        let r = q.push(last);
        d.to_multiset_ensures();
        q.to_multiset_ensures();
        assert(s =~= d.push(last));
        assert forall|i: int, j: int| 0 <= i < j < r.len() implies !K::lt(
            #[trigger] r[j],
            #[trigger] r[i],
        ) by {
            if j == q.len() {
                assert(q.contains(q[i]));
                assert(q.to_multiset().count(q[i]) > 0);
                if q[i] == v {
                    if K::lt(last, v) {
                        K::lt_transitive(v, last, v);
                        K::lt_irreflexive(v);
                    }
                } else {
                    assert(d.to_multiset().count(q[i]) > 0);
                    assert(d.contains(q[i]));
                    let k = choose|k: int| 0 <= k < d.len() && d[k] == q[i];
                    assert(!K::lt(s[s.len() - 1], s[k]));
                }
            } else {
                assert(!K::lt(q[j], q[i]));
            }
        }
        assert(r.to_multiset() =~= s.to_multiset().insert(v));
        r
    }
}

/// Any values have a sorted arrangement: the same values, as often, none before
/// a smaller one.
pub proof fn lemma_sorted_form<K: Key>(items: Seq<K::Val>)
    ensures
        sorted::<K>(sorted_form::<K>(items)),
        sorted_form::<K>(items).to_multiset() == items.to_multiset(),
        sorted_form::<K>(items).len() == items.len(),
        forall|x: K::Val| #[trigger] sorted_form::<K>(items).contains(x) <==> items.contains(x),
    decreases items.len(),
{
    items.to_multiset_ensures();
    if items.len() == 0 {
        assert(sorted::<K>(items));
    } else {
        let d = items.drop_last();
        lemma_sorted_form::<K>(d);
        let r = lemma_sorted_insert::<K>(sorted_form::<K>(d), items.last());
        d.to_multiset_ensures();
        assert(items =~= d.push(items.last()));
        assert(sorted::<K>(r) && r.to_multiset() == items.to_multiset());
    }
    let f = sorted_form::<K>(items);
    f.to_multiset_ensures();
    assert forall|x: K::Val| #[trigger] f.contains(x) <==> items.contains(x) by {
        assert(f.contains(x) <==> f.to_multiset().count(x) > 0);
        assert(items.contains(x) <==> items.to_multiset().count(x) > 0);
    }
}

} // verus!
