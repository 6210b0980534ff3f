//! Ordered sets and maps held as sorted vectors.
//!
//! Iteration is by index, in ascending key order, so every walk over a
//! collection visits its contents in one fixed order.
use vstd::prelude::*;

use crate::order::{Key, Order};

verus! {

/// A sequence whose values strictly ascend.
pub open spec fn ascending<K: Key>(s: Seq<K::Val>) -> bool {
    forall|i: int, j: int| 0 <= i < j < s.len() ==> K::lt(#[trigger] s[i], #[trigger] s[j])
}

/// `s` lists the members of `set` once each, in ascending order.
pub open spec fn lists<K: Key>(s: Seq<K::Val>, set: Set<K::Val>) -> bool {
    &&& ascending::<K>(s)
    &&& s.to_set() == set
}

/// An ascending sequence repeats no value.
pub proof fn lemma_ascending_distinct<K: Key>(s: Seq<K::Val>)
    requires
        ascending::<K>(s),
    ensures
        s.no_duplicates(),
{
    assert forall|i: int, j: int| 0 <= i < s.len() && 0 <= j < s.len() && i != j implies s[i]
        != s[j] by {
        if i < j {
            K::lt_irreflexive(s[i]);
        } else {
            K::lt_irreflexive(s[j]);
        }
    }
}

/// A set has one ascending listing.
pub proof fn lemma_listing_unique<K: Key>(a: Seq<K::Val>, b: Seq<K::Val>)
    requires
        ascending::<K>(a),
        ascending::<K>(b),
        a.to_set() == b.to_set(),
    ensures
        a == b,
    decreases a.len(),
{
    lemma_ascending_distinct::<K>(a);
    lemma_ascending_distinct::<K>(b);
    a.unique_seq_to_set();
    b.unique_seq_to_set();
    assert(a.len() == b.len());
    if a.len() > 0 {
        let n = a.len() - 1;
        let x = a[n];
        let y = b[n];
        assert(a.to_set().contains(x));
        assert(b.to_set().contains(y));
        assert(b.contains(x));
        assert(a.contains(y));
        let i = choose|i: int| 0 <= i < b.len() && b[i] == x;
        let j = choose|j: int| 0 <= j < a.len() && a[j] == y;
        if i != n {
            assert(K::lt(b[i], b[n]));
            if j != n {
                assert(K::lt(a[j], a[n]));
                K::lt_transitive(x, y, x);
                K::lt_irreflexive(x);
            } else {
                K::lt_irreflexive(x);
            }
        }
        assert(x == y);
        let a1 = a.drop_last();
        let b1 = b.drop_last();
        assert forall|v: K::Val| a1.to_set().contains(v) == b1.to_set().contains(v) by {
            if a1.contains(v) {
                let k = choose|k: int| 0 <= k < a1.len() && a1[k] == v;
                assert(a[k] == v);
                assert(v != x);
                assert(a.to_set().contains(v));
                assert(b.contains(v));
                let m = choose|m: int| 0 <= m < b.len() && b[m] == v;
                assert(b1[m] == v);
            }
            if b1.contains(v) {
                let k = choose|k: int| 0 <= k < b1.len() && b1[k] == v;
                assert(b[k] == v);
                assert(v != y);
                assert(b.to_set().contains(v));
                assert(a.contains(v));
                let m = choose|m: int| 0 <= m < a.len() && a[m] == v;
                assert(a1[m] == v);
            }
        }
        assert(a1.to_set() =~= b1.to_set());
        lemma_listing_unique::<K>(a1, b1);
        assert(a =~= a1.push(x));
        assert(b =~= b1.push(y));
    }
}

/// The ascending listing of a set.
pub open spec fn listing<K: Key>(set: Set<K::Val>) -> Seq<K::Val> {
    choose|s: Seq<K::Val>| lists::<K>(s, set)
}

/// Whatever lists a set is its listing.
pub proof fn lemma_listing<K: Key>(s: Seq<K::Val>, set: Set<K::Val>)
    requires
        lists::<K>(s, set),
    ensures
        listing::<K>(set) == s,
{
    lemma_listing_unique::<K>(s, listing::<K>(set));
}

/// Every finite set of key values has an ascending listing.
pub proof fn lemma_listing_exists<K: Key>(set: Set<K::Val>)
    requires
        set.finite(),
    ensures
        lists::<K>(listing::<K>(set), set),
    decreases set.len(),
{
    if set.len() == 0 {
        let s = Seq::<K::Val>::empty();
        assert(s.to_set() =~= set);
        assert(lists::<K>(s, set));
    } else {
        let x = set.choose();
        let rest = set.remove(x);
        lemma_listing_exists::<K>(rest);
        let s = listing::<K>(rest);
        let k = lemma_place::<K>(s, x, s.len() as int);
        let t = s.insert(k, x);
        assert(!s.contains(x)) by {
            assert(!s.to_set().contains(x));
        }
        assert forall|i: int, j: int| 0 <= i < j < t.len() implies K::lt(
            #[trigger] t[i],
            #[trigger] t[j],
        ) by {
            if i < k && j < k {
                assert(K::lt(s[i], s[j]));
            } else if i < k && j == k {
                assert(K::lt(s[i], x));
            } else if i < k && j > k {
                assert(K::lt(s[i], s[j - 1]));
            } else if i == k {
                assert(s.contains(s[j - 1]));
                K::lt_total(x, s[j - 1]);
            } else {
                assert(K::lt(s[i - 1], s[j - 1]));
            }
        }
        lemma_insert_to_set(s, k, x);
        assert(rest.insert(x) =~= set);
        assert(lists::<K>(t, set));
    }
}

/// A value above all members of a set goes to the end of its listing.
pub proof fn lemma_listing_push<K: Key>(set: Set<K::Val>, x: K::Val)
    requires
        set.finite(),
        forall|y: K::Val| #[trigger] set.contains(y) ==> K::lt(y, x),
    ensures
        listing::<K>(set.insert(x)) == listing::<K>(set).push(x),
{
    lemma_listing_exists::<K>(set);
    let all = listing::<K>(set);
    let more = all.push(x);
    let now = set.insert(x);
    assert forall|i: int, j: int| 0 <= i < j < more.len() implies K::lt(
        #[trigger] more[i],
        #[trigger] more[j],
    ) by {
        assert(all.to_set().contains(all[i]));
        assert(set.contains(all[i]));
    }
    assert forall|y: K::Val| more.to_set().contains(y) == now.contains(y) by {
        assert(all.to_set().contains(y) == set.contains(y));
        if more.contains(y) {
            let k = choose|k: int| 0 <= k < more.len() && more[k] == y;
            if k < all.len() {
                assert(all[k] == y);
            }
        }
        if all.contains(y) {
            let k = choose|k: int| 0 <= k < all.len() && all[k] == y;
            assert(more[k] == y);
        }
        assert(more[all.len() as int] == x);
    }
    assert(more.to_set() =~= now);
    lemma_listing::<K>(more, now);
}

/// Where a value belongs among the first `n` of ascending values.
proof fn lemma_place<K: Key>(s: Seq<K::Val>, x: K::Val, n: int) -> (k: int)
    requires
        ascending::<K>(s),
        0 <= n <= s.len(),
        !s.contains(x),
        forall|i: int| n <= i < s.len() ==> K::lt(x, #[trigger] s[i]),
    ensures
        0 <= k <= n,
        forall|i: int| 0 <= i < k ==> K::lt(#[trigger] s[i], x),
        forall|i: int| k <= i < s.len() ==> K::lt(x, #[trigger] s[i]),
    decreases n,
{
    if n == 0 {
        0
    } else {
        assert(s.contains(s[n - 1]));
        K::lt_total(s[n - 1], x);
        if K::lt(s[n - 1], x) {
            assert forall|i: int| 0 <= i < n implies K::lt(#[trigger] s[i], x) by {
                if i < n - 1 {
                    K::lt_transitive(s[i], s[n - 1], x);
                }
            }
            n
        } else {
            lemma_place::<K>(s, x, n - 1)
        }
    }
}

/// The values of a sequence of keys.
pub open spec fn vals<K: Key>(s: Seq<K>) -> Seq<K::Val> {
    s.map_values(|k: K| k.val())
}

/// Finds a key among ascending keys: where it is, or where it belongs.
pub(crate) fn search<K: Key>(items: &[K], key: &K) -> (r: (bool, usize))
    requires
        ascending::<K>(vals(items@)),
    ensures
        r.1 <= items@.len(),
        r.0 ==> r.1 < items@.len() && items@[r.1 as int].val() == key.val(),
        r.0 == vals(items@).contains(key.val()),
        forall|i: int| 0 <= i < r.1 ==> K::lt(#[trigger] vals(items@)[i], key.val()),
        !r.0 ==> forall|i: int|
            r.1 <= i < items@.len() ==> K::lt(key.val(), #[trigger] vals(items@)[i]),
{
    let ghost s = vals(items@);
    let ghost k = key.val();
    let mut lo: usize = 0;
    let mut hi: usize = items.len();
    while lo < hi
        invariant
            s == vals(items@),
            k == key.val(),
            ascending::<K>(s),
            lo <= hi <= items@.len(),
            forall|i: int| 0 <= i < lo ==> K::lt(#[trigger] s[i], k),
            forall|i: int| hi <= i < items@.len() ==> K::lt(k, #[trigger] s[i]),
        decreases hi - lo,
    {
        let mid: usize = lo + (hi - lo) / 2;
        match items[mid].order(key) {
            Order::Same => {
                proof {
                    assert(s[mid as int] == k);
                }
                return (true, mid);
            },
            Order::Before => {
                proof {
                    assert(s[mid as int] == items@[mid as int].val());
                    assert forall|i: int| 0 <= i < mid + 1 implies K::lt(#[trigger] s[i], k) by {
                        if i < mid {
                            K::lt_transitive(s[i], s[mid as int], k);
                        }
                    }
                }
                lo = mid + 1;
            },
            Order::After => {
                proof {
                    assert(s[mid as int] == items@[mid as int].val());
                    assert forall|i: int| mid <= i < items@.len() implies K::lt(
                        k,
                        #[trigger] s[i],
                    ) by {
                        if i > mid {
                            K::lt_transitive(k, s[mid as int], s[i]);
                        }
                    }
                }
                hi = mid;
            },
        }
    }
    proof {
        if s.contains(k) {
            let i = choose|i: int| 0 <= i < s.len() && s[i] == k;
            K::lt_irreflexive(k);
        }
    }
    (false, lo)
}

/// A finite set of keys, held in ascending order.
pub struct OrdSet<K: Key> {
    items: Vec<K>,
}

impl<K: Key> View for OrdSet<K> {
    type V = Set<K::Val>;

    closed spec fn view(&self) -> Set<K::Val> {
        vals(self.items@).to_set()
    }
}

impl<K: Key> OrdSet<K> {
    #[verifier::type_invariant]
    spec fn inv(self) -> bool {
        ascending::<K>(vals(self.items@))
    }

    /// The members in ascending order.
    pub closed spec fn seq(&self) -> Seq<K::Val> {
        vals(self.items@)
    }

    /// The empty set.
    pub fn new() -> (r: Self)
        ensures
            r@ == Set::<K::Val>::empty(),
            r.seq().len() == 0,
    {
        let items: Vec<K> = Vec::new();
        assert(vals(items@).to_set() =~= Set::empty());
        OrdSet { items }
    }

    /// The number of members.
    pub fn len(&self) -> (r: usize)
        ensures
            r == self.seq().len(),
            r == self@.len(),
            self@.finite(),
            lists::<K>(self.seq(), self@),
    {
        proof {
            use_type_invariant(self);
            lemma_ascending_distinct::<K>(vals(self.items@));
            vals(self.items@).unique_seq_to_set();
            vstd::seq_lib::seq_to_set_is_finite(vals(self.items@));
        }
        self.items.len()
    }

    /// Whether the set has no member.
    pub fn is_empty(&self) -> (r: bool)
        ensures
            r == (self@ == Set::<K::Val>::empty()),
            r == (self@.len() == 0),
            r == (self.seq().len() == 0),
    {
        let n: usize = self.len();
        proof {
            if n == 0 {
                assert(self@ =~= Set::empty());
            } else {
                assert(self.seq().to_set().contains(self.seq()[0]));
            }
        }
        n == 0
    }

    /// The member at a place in the ascending order.
    pub fn at(&self, i: usize) -> (r: &K)
        requires
            i < self.seq().len(),
        ensures
            r.val() == self.seq()[i as int],
            self@.contains(r.val()),
    {
        proof {
            assert(vals(self.items@)[i as int] == self.items@[i as int].val());
            assert(vals(self.items@).contains(self.items@[i as int].val()));
        }
        &self.items[i]
    }

    /// Membership.
    pub fn contains(&self, key: &K) -> (r: bool)
        ensures
            r == self@.contains(key.val()),
    {
        proof {
            use_type_invariant(self);
        }
        search(self.items.as_slice(), key).0
    }

    /// Adds a key; tells whether it was new.
    pub fn insert(&mut self, key: K) -> (r: bool)
        ensures
            r == !old(self)@.contains(key.val()),
            final(self)@ == old(self)@.insert(key.val()),
    {
        proof {
            use_type_invariant(&*self);
        }
        let mut items: Vec<K> = Vec::new();
        core::mem::swap(&mut items, &mut self.items);
        let ghost s0 = vals(items@);
        let ghost k = key.val();
        let (found, pos) = search(items.as_slice(), &key);
        if found {
            proof {
                assert(s0.to_set().insert(k) =~= s0.to_set());
            }
            self.items = items;
            false
        } else {
            items.insert(pos, key);
            proof {
                let s1 = vals(items@);
                assert(s1 =~= s0.insert(pos as int, k));
                assert forall|i: int, j: int| 0 <= i < j < s1.len() implies K::lt(
                    #[trigger] s1[i],
                    #[trigger] s1[j],
                ) by {
                    if i < pos && j == pos {
                        assert(K::lt(s0[i], k));
                    } else if i == pos {
                        assert(K::lt(k, s0[j - 1]));
                    } else if i < pos && j < pos {
                        assert(K::lt(s0[i], s0[j]));
                    } else if i < pos {
                        assert(K::lt(s0[i], s0[j - 1]));
                    } else {
                        assert(K::lt(s0[i - 1], s0[j - 1]));
                    }
                }
                lemma_insert_to_set(s0, pos as int, k);
            }
            self.items = items;
            true
        }
    }

    /// Removes a key; tells whether it was there.
    pub fn remove(&mut self, key: &K) -> (r: bool)
        ensures
            r == old(self)@.contains(key.val()),
            final(self)@ == old(self)@.remove(key.val()),
    {
        proof {
            use_type_invariant(&*self);
        }
        let mut items: Vec<K> = Vec::new();
        core::mem::swap(&mut items, &mut self.items);
        let ghost s0 = vals(items@);
        let ghost k = key.val();
        let (found, pos) = search(items.as_slice(), key);
        if found {
            items.remove(pos);
            proof {
                let s1 = vals(items@);
                assert(s1 =~= s0.remove(pos as int));
                assert forall|i: int, j: int| 0 <= i < j < s1.len() implies K::lt(
                    #[trigger] s1[i],
                    #[trigger] s1[j],
                ) by {
                    let i0 = if i < pos { i } else { i + 1 };
                    let j0 = if j < pos { j } else { j + 1 };
                    assert(K::lt(s0[i0], s0[j0]));
                }
                lemma_ascending_distinct::<K>(s0);
                lemma_remove_to_set(s0, pos as int);
            }
            self.items = items;
            true
        } else {
            proof {
                assert(s0.to_set().remove(k) =~= s0.to_set());
            }
            self.items = items;
            false
        }
    }

    /// A second set with the same members.
    pub fn duplicate(&self) -> (r: Self)
        ensures
            r@ == self@,
            r.seq() == self.seq(),
    {
        proof {
            use_type_invariant(self);
        }
        let mut items: Vec<K> = Vec::new();
        let mut i: usize = 0;
        while i < self.items.len()
            invariant
                i <= self.items@.len(),
                items@.len() == i,
                forall|j: int|
                    0 <= j < i ==> (#[trigger] items@[j]).val() == self.items@[j].val(),
            decreases self.items@.len() - i,
        {
            items.push(self.items[i].duplicate());
            i = i + 1;
        }
        proof {
            assert(vals(items@) =~= vals(self.items@));
        }
        OrdSet { items }
    }

    /// The members of either set.
    pub fn union(&self, other: &Self) -> (r: Self)
        ensures
            r@ == self@.union(other@),
    {
        let mut r = self.duplicate();
        r.absorb(other);
        r
    }

    /// Adds every member of another set.
    pub fn absorb(&mut self, other: &Self)
        ensures
            final(self)@ == old(self)@.union(other@),
    {
        let n: usize = other.len();
        let mut i: usize = 0;
        proof {
            assert(self@ =~= self@.union(other.seq().take(0).to_set()));
        }
        while i < n
            invariant
                i <= n,
                n == other.seq().len(),
                self@ == old(self)@.union(other.seq().take(i as int).to_set()),
            decreases n - i,
        {
            let k = other.at(i).duplicate();
            self.insert(k);
            proof {
                lemma_take_step(other.seq(), i as int);
                assert(self@ =~= old(self)@.union(other.seq().take(i + 1).to_set()));
            }
            i = i + 1;
        }
        proof {
            assert(other.seq().take(n as int) =~= other.seq());
        }
    }

    /// The members of both sets.
    pub fn intersection(&self, other: &Self) -> (r: Self)
        ensures
            r@ == self@.intersect(other@),
    {
        let n: usize = self.len();
        let mut r: OrdSet<K> = OrdSet::new();
        let mut i: usize = 0;
        proof {
            assert(r@ =~= self.seq().take(0).to_set().intersect(other@));
        }
        while i < n
            invariant
                i <= n,
                n == self.seq().len(),
                r@ == self.seq().take(i as int).to_set().intersect(other@),
            decreases n - i,
        {
            proof {
                lemma_take_step(self.seq(), i as int);
            }
            if other.contains(self.at(i)) {
                r.insert(self.at(i).duplicate());
            }
            proof {
                assert(r@ =~= self.seq().take(i + 1).to_set().intersect(other@));
            }
            i = i + 1;
        }
        proof {
            assert(self.seq().take(n as int) =~= self.seq());
        }
        r
    }

    /// The members of this set that the other lacks.
    pub fn difference(&self, other: &Self) -> (r: Self)
        ensures
            r@ == self@.difference(other@),
    {
        let n: usize = self.len();
        let mut r: OrdSet<K> = OrdSet::new();
        let mut i: usize = 0;
        proof {
            assert(r@ =~= self.seq().take(0).to_set().difference(other@));
        }
        while i < n
            invariant
                i <= n,
                n == self.seq().len(),
                r@ == self.seq().take(i as int).to_set().difference(other@),
            decreases n - i,
        {
            proof {
                lemma_take_step(self.seq(), i as int);
            }
            if !other.contains(self.at(i)) {
                r.insert(self.at(i).duplicate());
            }
            proof {
                assert(r@ =~= self.seq().take(i + 1).to_set().difference(other@));
            }
            i = i + 1;
        }
        proof {
            assert(self.seq().take(n as int) =~= self.seq());
        }
        r
    }

    /// Whether every member belongs to the other set.
    pub fn is_subset(&self, other: &Self) -> (r: bool)
        ensures
            r == self@.subset_of(other@),
    {
        let n: usize = self.len();
        let mut i: usize = 0;
        while i < n
            invariant
                i <= n,
                n == self.seq().len(),
                lists::<K>(self.seq(), self@),
                forall|j: int| 0 <= j < i ==> other@.contains(#[trigger] self.seq()[j]),
            decreases n - i,
        {
            if !other.contains(self.at(i)) {
                return false;
            }
            i = i + 1;
        }
        proof {
            assert forall|v: K::Val| self@.contains(v) implies other@.contains(v) by {
                assert(self.seq().contains(v));
            }
        }
        true
    }

    /// Whether the two sets have the same members.
    pub fn same(&self, other: &Self) -> (r: bool)
        ensures
            r == (self@ == other@),
    {
        let r = self.is_subset(other) && other.is_subset(self);
        proof {
            if r {
                assert(self@ =~= other@);
            }
        }
        r
    }

    /// The members, in ascending order.
    pub fn to_vec(&self) -> (r: Vec<K>)
        ensures
            vals(r@) == self.seq(),
            lists::<K>(vals(r@), self@),
    {
        let n: usize = self.len();
        let mut r: Vec<K> = Vec::new();
        let mut i: usize = 0;
        while i < n
            invariant
                i <= n,
                n == self.seq().len(),
                r@.len() == i,
                forall|j: int| 0 <= j < i ==> (#[trigger] r@[j]).val() == self.seq()[j],
            decreases n - i,
        {
            r.push(self.at(i).duplicate());
            i = i + 1;
        }
        proof {
            assert(vals(r@) =~= self.seq());
        }
        r
    }
}

/// Inserting at a place adds one member.
pub proof fn lemma_insert_to_set<T>(s: Seq<T>, pos: int, v: T)
    requires
        0 <= pos <= s.len(),
    ensures
        s.insert(pos, v).to_set() == s.to_set().insert(v),
{
    let t = s.insert(pos, v);
    assert forall|x: T| t.to_set().contains(x) == s.to_set().insert(v).contains(x) by {
        if t.contains(x) {
            let i = choose|i: int| 0 <= i < t.len() && t[i] == x;
            if i < pos {
                assert(s[i] == x);
            } else if i > pos {
                assert(s[i - 1] == x);
            }
        }
        if s.contains(x) {
            let i = choose|i: int| 0 <= i < s.len() && s[i] == x;
            if i < pos {
                assert(t[i] == x);
            } else {
                assert(t[i + 1] == x);
            }
        }
        assert(t[pos] == v);
    }
    assert(t.to_set() =~= s.to_set().insert(v));
}

/// Removing at a place drops one member of a sequence without repeats.
pub proof fn lemma_remove_to_set<T>(s: Seq<T>, pos: int)
    requires
        0 <= pos < s.len(),
        s.no_duplicates(),
    ensures
        s.remove(pos).to_set() == s.to_set().remove(s[pos]),
{
    let t = s.remove(pos);
    assert forall|x: T| t.to_set().contains(x) == s.to_set().remove(s[pos]).contains(x) by {
        if t.contains(x) {
            let i = choose|i: int| 0 <= i < t.len() && t[i] == x;
            if i < pos {
                assert(s[i] == x);
            } else {
                assert(s[i + 1] == x);
            }
        }
        if s.contains(x) && x != s[pos] {
            let i = choose|i: int| 0 <= i < s.len() && s[i] == x;
            if i < pos {
                assert(t[i] == x);
            } else {
                assert(t[i - 1] == x);
            }
        }
    }
    assert(t.to_set() =~= s.to_set().remove(s[pos]));
}

/// A longer prefix adds one member.
pub proof fn lemma_take_step<T>(s: Seq<T>, i: int)
    requires
        0 <= i < s.len(),
    ensures
        s.take(i + 1) == s.take(i).push(s[i]),
        s.take(i + 1).to_set() == s.take(i).to_set().insert(s[i]),
{
    assert(s.take(i + 1) =~= s.take(i).push(s[i]));
    assert(s.take(i).push(s[i]) =~= s.take(i).insert(i, s[i]));
    lemma_insert_to_set(s.take(i), i, s[i]);
}

} // verus!
