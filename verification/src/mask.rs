//! Observable masks: the planes of a collection that rank above a threshold,
//! and the degrees within them.
use vstd::prelude::*;
use vstd::string::*;

use crate::collections::OrdSet;
use crate::maps::OrdMap;
use crate::ranks::{HLLSetRankIndex, Rank};

verus! {

/// A rank that observable planes exceed.
pub type Threshold = Rank;

/// Which planes of a collection rank above a threshold.
pub struct ObservableMask {
    pub threshold: Threshold,
    /// The keys above the threshold.
    pub observable: OrdSet<String>,
    /// The keys at or below it.
    pub hidden: OrdSet<String>,
    /// The size of the collection.
    pub total: usize,
}

/// The keys that rank above a threshold.
pub open spec fn above(values: Map<Seq<char>, u64>, threshold: u64) -> Set<Seq<char>> {
    values.dom().filter(|k: Seq<char>| values[k] > threshold)
}

/// The keys that rank at or below a threshold.
pub open spec fn at_or_below(values: Map<Seq<char>, u64>, threshold: u64) -> Set<Seq<char>> {
    values.dom().filter(|k: Seq<char>| values[k] <= threshold)
}

impl ObservableMask {
    /// Splits a collection at a threshold.
    pub fn apply(ranks: &HLLSetRankIndex, threshold: Threshold) -> (r: Self)
        ensures
            r.threshold == threshold,
            r.observable@ == above(ranks.values(), threshold),
            r.hidden@ == at_or_below(ranks.values(), threshold),
            r.total == ranks.values().dom().len(),
    {
        let n: usize = ranks.len();
        let ghost keys = ranks.keys();
        let ghost values = ranks.values();
        let mut observable: OrdSet<String> = OrdSet::new();
        let mut hidden: OrdSet<String> = OrdSet::new();
        let mut i: usize = 0;
        let ghost up = |k: Seq<char>| values[k] > threshold;
        let ghost down = |k: Seq<char>| values[k] <= threshold;
        proof {
            keys.unique_seq_to_set();
            assert(observable@ =~= keys.take(0).to_set().filter(up));
            assert(hidden@ =~= keys.take(0).to_set().filter(down));
        }
        while i < n
            invariant
                i <= n,
                n == keys.len(),
                keys == ranks.keys(),
                values == ranks.values(),
                up == (|k: Seq<char>| values[k] > threshold),
                down == (|k: Seq<char>| values[k] <= threshold),
                observable@ == keys.take(i as int).to_set().filter(up),
                hidden@ == keys.take(i as int).to_set().filter(down),
            decreases n - i,
        {
            proof {
                crate::collections::lemma_take_step(keys, i as int);
            }
            let key = ranks.key_at(i).to_owned();
            if ranks.at(i).value > threshold {
                observable.insert(key);
            } else {
                hidden.insert(key);
            }
            proof {
                assert(observable@ =~= keys.take(i + 1).to_set().filter(up));
                assert(hidden@ =~= keys.take(i + 1).to_set().filter(down));
            }
            i = i + 1;
        }
        proof {
            assert(keys.take(n as int) =~= keys);
        }
        ObservableMask { threshold, observable, hidden, total: n }
    }

    /// Whether a key is observable.
    pub fn is_observable(&self, key: &str) -> (r: bool)
        ensures
            r == self.observable@.contains(key@),
    {
        self.observable.contains(&key.to_owned())
    }

    /// The number of observable keys.
    pub fn observable_count(&self) -> (r: usize)
        ensures
            r == self.observable@.len(),
    {
        self.observable.len()
    }

    /// The observable and all keys; their quotient is the observable fraction,
    /// zero for an empty collection.
    pub fn observable_fraction(&self) -> (r: (usize, usize))
        ensures
            r.0 == self.observable@.len(),
            r.1 == self.total,
    {
        (self.observable.len(), self.total)
    }

    /// What entered and what left the observable keys from one mask to the
    /// next, ascending.
    pub fn diff(prev: &Self, curr: &Self) -> (r: MaskDiff)
        ensures
            crate::collections::lists::<String>(
                crate::text::texts(r.entered@),
                curr.observable@.difference(prev.observable@),
            ),
            crate::collections::lists::<String>(
                crate::text::texts(r.exited@),
                prev.observable@.difference(curr.observable@),
            ),
    {
        let entered = curr.observable.difference(&prev.observable).to_vec();
        let exited = prev.observable.difference(&curr.observable).to_vec();
        proof {
            assert(crate::text::texts(entered@) =~= crate::collections::vals(entered@));
            assert(crate::text::texts(exited@) =~= crate::collections::vals(exited@));
        }
        MaskDiff { entered, exited }
    }
}

/// What changed between two masks.
pub struct MaskDiff {
    /// Keys that became observable.
    pub entered: Vec<String>,
    /// Keys that no longer are.
    pub exited: Vec<String>,
}

impl MaskDiff {
    /// Whether nothing changed.
    pub fn is_stable(&self) -> (r: bool)
        ensures
            r == (self.entered@.len() == 0 && self.exited@.len() == 0),
    {
        self.entered.len() == 0 && self.exited.len() == 0
    }

    /// How many keys changed.
    pub fn churn(&self) -> (r: usize)
        requires
            self.entered@.len() + self.exited@.len() <= usize::MAX,
        ensures
            r == self.entered@.len() + self.exited@.len(),
    {
        self.entered.len() + self.exited.len()
    }
}

/// Neighbours by key.
pub type Neighbours = Map<Seq<char>, Set<Seq<char>>>;

/// The neighbours of a key, none where it has none.
pub open spec fn neighbours_of(m: Neighbours, k: Seq<char>) -> Set<Seq<char>> {
    if m.contains_key(k) {
        m[k]
    } else {
        Set::empty()
    }
}

/// The degree of a key, zero where it has none.
pub open spec fn degree_of(m: Map<Seq<char>, usize>, k: Seq<char>) -> usize {
    if m.contains_key(k) {
        m[k]
    } else {
        0
    }
}

/// The neighbours with one more.
pub open spec fn linked(m: Neighbours, k: Seq<char>, other: Seq<char>) -> Neighbours {
    m.insert(k, neighbours_of(m, k).insert(other))
}

/// The degrees with one of them one larger.
pub open spec fn bumped(m: Map<Seq<char>, usize>, k: Seq<char>) -> Map<Seq<char>, usize> {
    m.insert(k, (degree_of(m, k) + 1) as usize)
}

/// The degrees that neighbours give within the observable keys.
pub open spec fn exact_degrees(m: Neighbours, observable: Set<Seq<char>>) -> Map<
    Seq<char>,
    usize,
> {
    Map::new(
        |k: Seq<char>|
            m.contains_key(k) && observable.contains(k) && m[k].intersect(observable).len() > 0,
        |k: Seq<char>| m[k].intersect(observable).len() as usize,
    )
}

/// Degrees within the observable keys.
pub struct SubLatticeDegree {
    degrees: OrdMap<String, usize>,
    adjacency: OrdMap<String, OrdSet<String>>,
}

impl SubLatticeDegree {
    /// The degrees.
    pub closed spec fn degree_map(&self) -> Map<Seq<char>, usize> {
        self.degrees@
    }

    /// The neighbours.
    pub closed spec fn neighbours(&self) -> Neighbours {
        self.adjacency@.map_values(|s: OrdSet<String>| s@)
    }

    /// No keys.
    pub fn new() -> (r: Self)
        ensures
            r.degree_map() == Map::<Seq<char>, usize>::empty(),
            r.neighbours() == Map::<Seq<char>, Set<Seq<char>>>::empty(),
    {
        let r = SubLatticeDegree { degrees: OrdMap::new(), adjacency: OrdMap::new() };
        proof {
            assert(r.neighbours() =~= Map::empty());
        }
        r
    }

    fn link(&mut self, a: &str, b: &str)
        ensures
            final(self).neighbours() == linked(old(self).neighbours(), a@, b@),
            final(self).degree_map() == old(self).degree_map(),
    {
        let ghost before = self.neighbours();
        let key = a.to_owned();
        let mut set: OrdSet<String> = match self.adjacency.remove(&key) {
            Some(s) => s,
            None => OrdSet::new(),
        };
        set.insert(b.to_owned());
        self.adjacency.insert(key, set);
        proof {
            assert(self.neighbours() =~= linked(before, a@, b@));
        }
    }

    fn bump(&mut self, a: &str)
        requires
            degree_of(old(self).degree_map(), a@) < usize::MAX,
        ensures
            final(self).neighbours() == old(self).neighbours(),
            final(self).degree_map() == bumped(old(self).degree_map(), a@),
    {
        let n: usize = self.degree(a);
        self.degrees.insert(a.to_owned(), n + 1);
    }

    /// Adds an edge between two keys; where both are observable their degrees
    /// grow.
    pub fn add_edge(&mut self, a: &str, b: &str, mask: &ObservableMask)
        requires
            mask.observable@.contains(a@) && mask.observable@.contains(b@) ==> {
                &&& degree_of(old(self).degree_map(), a@) < usize::MAX
                &&& degree_of(bumped(old(self).degree_map(), a@), b@) < usize::MAX
            },
        ensures
            final(self).neighbours() == linked(linked(old(self).neighbours(), a@, b@), b@, a@),
            final(self).degree_map() == if mask.observable@.contains(a@)
                && mask.observable@.contains(b@) {
                bumped(bumped(old(self).degree_map(), a@), b@)
            } else {
                old(self).degree_map()
            },
    {
        self.link(a, b);
        self.link(b, a);
        if mask.is_observable(a) && mask.is_observable(b) {
            self.bump(a);
            self.bump(b);
        }
    }

    /// Computes all degrees anew.
    pub fn recompute(&mut self, mask: &ObservableMask)
        ensures
            final(self).neighbours() == old(self).neighbours(),
            final(self).degree_map() == exact_degrees(
                old(self).neighbours(),
                mask.observable@,
            ),
            accurate(final(self).neighbours(), final(self).degree_map(), mask.observable@),
            forall|k: Seq<char>| #[trigger]
                final(self).degree_map().contains_key(k) ==> final(self).degree_map()[k] > 0,
    {
        let ghost nb = self.neighbours();
        let ghost obs = mask.observable@;
        let ghost want = exact_degrees(nb, obs);
        let mut degrees: OrdMap<String, usize> = OrdMap::new();
        let n: usize = self.adjacency.len();
        let ghost keys = self.adjacency.keys();
        let mut i: usize = 0;
        proof {
            assert(degrees@ =~= want.restrict(keys.take(0).to_set()));
        }
        while i < n
            invariant
                i <= n,
                n == keys.len(),
                keys == self.adjacency.keys(),
                nb == self.neighbours(),
                nb == old(self).neighbours(),
                obs == mask.observable@,
                want == exact_degrees(nb, obs),
                degrees@ == want.restrict(keys.take(i as int).to_set()),
                forall|j: int|
                    0 <= j < i && obs.contains(#[trigger] keys[j]) ==> nb[keys[j]].intersect(
                        obs,
                    ).len() <= usize::MAX,
            decreases n - i,
        {
            let key = self.adjacency.key_at(i);
            let around = self.adjacency.val_at(i);
            let ghost k = keys[i as int];
            proof {
                crate::collections::lemma_take_step(keys, i as int);
                assert(nb.contains_key(k));
                assert(nb[k] == around@);
            }
            if mask.is_observable(key.as_str()) {
                let d: usize = around.intersection(&mask.observable).len();
                if d > 0 {
                    degrees.insert(key.clone(), d);
                }
            }
            proof {
                assert(degrees@ =~= want.restrict(keys.take(i + 1).to_set()));
            }
            i = i + 1;
        }
        proof {
            assert(keys.take(n as int) =~= keys);
            assert forall|x: Seq<char>| want.contains_key(x) implies keys.to_set().contains(
                x,
            ) by {
                assert(self.adjacency@.contains_key(x));
            }
            assert(degrees@ =~= want);
            assert forall|x: Seq<char>| #[trigger]
                nb.contains_key(x) && obs.contains(x) implies nb[x].intersect(obs).len()
                <= usize::MAX by {
                assert(self.adjacency@.contains_key(x));
                assert(keys.to_set().contains(x));
                let j = choose|j: int| 0 <= j < keys.len() && keys[j] == x;
                assert(obs.contains(keys[j]));
            }
            lemma_exact_degrees(nb, obs);
        }
        self.degrees = degrees;
    }

    /// The degree of a key.
    pub fn degree(&self, key: &str) -> (r: usize)
        ensures
            r == degree_of(self.degree_map(), key@),
    {
        match self.degrees.get(&key.to_owned()) {
            Some(d) => *d,
            None => 0,
        }
    }

    /// The number of keys with a degree.
    pub fn active_count(&self) -> (r: usize)
        ensures
            r == self.degree_map().dom().len(),
    {
        self.degrees.len()
    }
}

/// The degrees are the numbers of observable neighbours.
pub open spec fn accurate(
    m: Neighbours,
    degrees: Map<Seq<char>, usize>,
    observable: Set<Seq<char>>,
) -> bool {
    forall|k: Seq<char>| #[trigger]
        degree_of(degrees, k) == if observable.contains(k) {
            neighbours_of(m, k).intersect(observable).len()
        } else {
            0
        }
}

proof fn lemma_exact_degrees(m: Neighbours, observable: Set<Seq<char>>)
    requires
        forall|k: Seq<char>| #[trigger]
            m.contains_key(k) && observable.contains(k) ==> m[k].intersect(observable).len()
                <= usize::MAX,
    ensures
        accurate(m, exact_degrees(m, observable), observable),
        forall|k: Seq<char>| #[trigger]
            exact_degrees(m, observable).contains_key(k) ==> exact_degrees(m, observable)[k] > 0,
{
    let d = exact_degrees(m, observable);
    assert forall|k: Seq<char>| #[trigger] degree_of(d, k) == if observable.contains(k) {
        neighbours_of(m, k).intersect(observable).len()
    } else {
        0
    } by {
        if !m.contains_key(k) {
            assert(neighbours_of(m, k).intersect(observable) =~= Set::empty());
        }
    }
}

/// Only keys joined by an added edge are neighbours, and they are so both
/// ways.
pub proof fn edges_join_both_ways(
    m: Neighbours,
    a: Seq<char>,
    b: Seq<char>,
    k: Seq<char>,
    n: Seq<char>,
)
    ensures
        neighbours_of(linked(linked(m, a, b), b, a), k).contains(n) <==> neighbours_of(
            m,
            k,
        ).contains(n) || (k == a && n == b) || (k == b && n == a),
{
}

/// Adding a new edge between two different keys keeps accurate degrees
/// accurate.
pub proof fn new_edges_keep_degrees_accurate(
    m: Neighbours,
    degrees: Map<Seq<char>, usize>,
    observable: Set<Seq<char>>,
    a: Seq<char>,
    b: Seq<char>,
)
    requires
        accurate(m, degrees, observable),
        a != b,
        !neighbours_of(m, a).contains(b),
        !neighbours_of(m, b).contains(a),
        neighbours_of(m, a).finite(),
        neighbours_of(m, b).finite(),
        degree_of(degrees, a) < usize::MAX,
        degree_of(degrees, b) < usize::MAX,
    ensures
        accurate(
            linked(linked(m, a, b), b, a),
            if observable.contains(a) && observable.contains(b) {
                bumped(bumped(degrees, a), b)
            } else {
                degrees
            },
            observable,
        ),
{
    let m2 = linked(linked(m, a, b), b, a);
    let both = observable.contains(a) && observable.contains(b);
    let d2 = if both {
        bumped(bumped(degrees, a), b)
    } else {
        degrees
    };
    let na = neighbours_of(m, a);
    let nb = neighbours_of(m, b);
    assert(neighbours_of(m2, a) == na.insert(b));
    assert(neighbours_of(m2, b) == nb.insert(a));
    assert(degree_of(degrees, a) == if observable.contains(a) {
        na.intersect(observable).len()
    } else {
        0
    });
    assert(degree_of(degrees, b) == if observable.contains(b) {
        nb.intersect(observable).len()
    } else {
        0
    });
    if observable.contains(b) {
        assert(na.insert(b).intersect(observable) =~= na.intersect(observable).insert(b));
    } else {
        assert(na.insert(b).intersect(observable) =~= na.intersect(observable));
    }
    if observable.contains(a) {
        assert(nb.insert(a).intersect(observable) =~= nb.intersect(observable).insert(a));
    } else {
        assert(nb.insert(a).intersect(observable) =~= nb.intersect(observable));
    }
    assert forall|k: Seq<char>| #[trigger] degree_of(d2, k) == if observable.contains(k) {
        neighbours_of(m2, k).intersect(observable).len()
    } else {
        0
    } by {
        if k != a && k != b {
            assert(neighbours_of(m2, k) == neighbours_of(m, k));
            assert(degree_of(d2, k) == degree_of(degrees, k));
        }
    }
}

/// A mask splits a collection: every key is on one side, a key that ranks at
/// the threshold is hidden, and a higher threshold never shows more.
pub proof fn masks_split_a_collection(
    values: Map<Seq<char>, u64>,
    low: u64,
    high: u64,
    key: Seq<char>,
)
    requires
        low <= high,
    ensures
        above(values, low).union(at_or_below(values, low)) == values.dom(),
        above(values, low).disjoint(at_or_below(values, low)),
        above(values, high).subset_of(above(values, low)),
        values.contains_key(key) ==> at_or_below(values, values[key]).contains(key),
        values.contains_key(key) && values[key] > 0 ==> above(
            values,
            (values[key] - 1) as u64,
        ).contains(key),
{
    assert(above(values, low).union(at_or_below(values, low)) =~= values.dom());
}

} // verus!
