//! The temporal pyramid: planes over windows of growing length.
//!
//! Observations enter the finest layer. When a layer's window has elapsed,
//! its plane moves up into the next layer and the layer starts anew; the
//! coarsest layer, having none above it, starts its window anew and keeps its
//! plane. The state of the system is the union of all layers, so it holds
//! every bit ever observed.
use vstd::prelude::*;

use crate::hllset::HLLSet;

verus! {

/// Layers of the standard pyramid.
pub const DEFAULT_LAYERS: usize = 7;

/// Nanoseconds that no span of whole seconds in 64 bits exceeds.
pub const LONGEST: u128 = 18_446_744_073_709_551_616_000_000_000;

/// A span of time in nanoseconds.
#[derive(Clone, Copy, Debug, PartialEq, Eq, Structural)]
pub struct Duration {
    pub nanos: u128,
}

impl Duration {
    /// No time.
    pub fn zero() -> (r: Self)
        ensures
            r.nanos == 0,
    {
        Duration { nanos: 0 }
    }

    /// Some seconds.
    pub fn from_secs(secs: u64) -> (r: Self)
        ensures
            r.nanos == secs * 1_000_000_000,
            r.nanos <= LONGEST,
    {
        Duration { nanos: secs as u128 * 1_000_000_000 }
    }

    /// Some milliseconds.
    pub fn from_millis(millis: u64) -> (r: Self)
        ensures
            r.nanos == millis * 1_000_000,
            r.nanos <= LONGEST,
    {
        Duration { nanos: millis as u128 * 1_000_000 }
    }
}

/// The windows of the standard pyramid in seconds: a second, a minute, an
/// hour, a day, a week, thirty days, a year.
pub open spec fn standard_seconds() -> Seq<int> {
    seq![1int, 60, 3_600, 86_400, 604_800, 2_592_000, 31_536_000]
}

/// Windows of some seconds.
pub open spec fn of_seconds(v: Seq<Duration>, secs: Seq<int>) -> bool {
    &&& v.len() == secs.len()
    &&& forall|i: int| 0 <= i < v.len() ==> (#[trigger] v[i]).nanos == secs[i] * 1_000_000_000
}

/// The windows of the standard pyramid.
pub fn default_durations() -> (r: Vec<Duration>)
    ensures
        of_seconds(r@, standard_seconds()),
{
    let mut v: Vec<Duration> = Vec::new();
    v.push(Duration::from_secs(1));
    v.push(Duration::from_secs(60));
    v.push(Duration::from_secs(3_600));
    v.push(Duration::from_secs(86_400));
    v.push(Duration::from_secs(604_800));
    v.push(Duration::from_secs(2_592_000));
    v.push(Duration::from_secs(31_536_000));
    v
}

/// One layer.
pub struct Layer {
    /// What was observed in the current window.
    pub hllset: HLLSet,
    /// The length of the window.
    pub window: Duration,
    /// How much of it has elapsed.
    pub elapsed: Duration,
    /// How many observations the plane holds.
    pub observations: u64,
    /// Whether the layer has started anew at least once.
    pub has_carried: bool,
}

/// What a layer holds.
#[verifier::ext_equal]
pub struct LayerState {
    pub plane: Set<u32>,
    pub window: nat,
    pub elapsed: nat,
    pub observations: nat,
    pub has_carried: bool,
}

/// The window has elapsed.
pub open spec fn full(l: LayerState) -> bool {
    l.elapsed >= l.window
}

impl View for Layer {
    type V = LayerState;

    open spec fn view(&self) -> LayerState {
        LayerState {
            plane: self.hllset@,
            window: self.window.nanos as nat,
            elapsed: self.elapsed.nanos as nat,
            observations: self.observations as nat,
            has_carried: self.has_carried,
        }
    }
}

/// A layer at its beginning.
pub open spec fn fresh(window: nat) -> LayerState {
    LayerState {
        plane: Set::empty(),
        window,
        elapsed: 0,
        observations: 0,
        has_carried: false,
    }
}

/// A layer started anew.
pub open spec fn reset(l: LayerState) -> LayerState {
    LayerState { has_carried: true, ..fresh(l.window) }
}

/// A layer that starts its window anew and keeps what it holds.
pub open spec fn renewed(l: LayerState) -> LayerState {
    LayerState { elapsed: 0, has_carried: true, ..l }
}

impl Layer {
    /// An empty layer.
    pub fn new(window: Duration) -> (r: Self)
        ensures
            r@ == fresh(window.nanos as nat),
            r.window == window,
    {
        Layer {
            hllset: HLLSet::new(),
            window,
            elapsed: Duration::zero(),
            observations: 0,
            has_carried: false,
        }
    }

    /// Whether the window has elapsed.
    pub fn is_full(&self) -> (r: bool)
        ensures
            r == full(self@),
    {
        self.elapsed.nanos >= self.window.nanos
    }

    /// What is left of the window.
    pub fn remaining(&self) -> (r: Duration)
        ensures
            r.nanos == if full(self@) {
                0
            } else {
                self@.window - self@.elapsed
            },
    {
        if self.is_full() {
            Duration::zero()
        } else {
            Duration { nanos: self.window.nanos - self.elapsed.nanos }
        }
    }
}

/// The layers' contents.
pub open spec fn states(v: Seq<Layer>) -> Seq<LayerState> {
    v.map_values(|l: Layer| l@)
}

/// Layer `i` moved up into the next.
pub open spec fn carried(s: Seq<LayerState>, i: int) -> Seq<LayerState> {
    let to = s[i + 1];
    s.update(
        i + 1,
        LayerState {
            plane: to.plane.union(s[i].plane),
            observations: to.observations + s[i].observations,
            elapsed: to.elapsed + s[i].window,
            ..to
        },
    ).update(i, reset(s[i]))
}

/// The layers after the first `n` of them have moved up where full, in order.
pub open spec fn carried_up(s: Seq<LayerState>, n: nat) -> Seq<LayerState>
    decreases n,
{
    if n == 0 {
        s
    } else {
        let before = carried_up(s, (n - 1) as nat);
        if full(before[n - 1]) {
            carried(before, n - 1)
        } else {
            before
        }
    }
}

/// How many of the first `n` layers move up.
pub open spec fn carry_count(s: Seq<LayerState>, n: nat) -> nat
    decreases n,
{
    if n == 0 {
        0
    } else {
        carry_count(s, (n - 1) as nat) + if full(carried_up(s, (n - 1) as nat)[n - 1]) {
            1nat
        } else {
            0nat
        }
    }
}

/// Some time added to the finest layer.
pub open spec fn aged(s: Seq<LayerState>, delta: nat) -> Seq<LayerState> {
    s.update(0, LayerState { elapsed: s[0].elapsed + delta, ..s[0] })
}

/// The layers once time has passed and layers have moved up, before the
/// coarsest is looked at.
pub open spec fn settled(s: Seq<LayerState>, delta: nat) -> Seq<LayerState> {
    carried_up(aged(s, delta), (s.len() - 1) as nat)
}

/// The coarsest layer starts its window anew.
pub open spec fn top_renews(s: Seq<LayerState>, delta: nat) -> bool {
    delta > 0 && full(settled(s, delta).last())
}

/// The layers after some time.
pub open spec fn advanced(s: Seq<LayerState>, delta: nat) -> Seq<LayerState> {
    if delta == 0 {
        s
    } else {
        let up = settled(s, delta);
        if full(up.last()) {
            up.update(s.len() - 1, renewed(up.last()))
        } else {
            up
        }
    }
}

/// How many layers start anew after some time.
pub open spec fn advance_count(s: Seq<LayerState>, delta: nat) -> nat {
    if delta == 0 {
        0
    } else {
        carry_count(aged(s, delta), (s.len() - 1) as nat) + if top_renews(s, delta) {
            1nat
        } else {
            0nat
        }
    }
}

/// The layers with one more observation in the finest.
pub open spec fn observed(s: Seq<LayerState>, plane: Set<u32>) -> Seq<LayerState> {
    s.update(
        0,
        LayerState {
            plane: s[0].plane.union(plane),
            observations: s[0].observations + 1,
            ..s[0]
        },
    )
}

/// The union of all layers.
pub open spec fn system(s: Seq<LayerState>) -> Set<u32> {
    Set::new(|b: u32| exists|i: int| 0 <= i < s.len() && (#[trigger] s[i]).plane.contains(b))
}

/// All observations that the layers hold.
pub open spec fn held(s: Seq<LayerState>) -> nat
    decreases s.len(),
{
    if s.len() == 0 {
        0
    } else {
        held(s.drop_last()) + s.last().observations
    }
}

/// Layers at rest: at least one, of windows that fit and do not shrink, and
/// of elapsed times within their windows.
pub open spec fn at_rest(s: Seq<LayerState>) -> bool {
    &&& s.len() > 0
    &&& forall|i: int|
        0 <= i < s.len() ==> (#[trigger] s[i]).window <= LONGEST && s[i].elapsed <= s[i].window
    &&& forall|i: int, j: int|
        0 <= i <= j < s.len() ==> (#[trigger] s[i]).window <= (#[trigger] s[j]).window
}

proof fn lemma_held_update(s: Seq<LayerState>, i: int, l: LayerState)
    requires
        0 <= i < s.len(),
    ensures
        held(s.update(i, l)) == held(s) - s[i].observations + l.observations,
    decreases s.len(),
{
    let t = s.update(i, l);
    if i == s.len() - 1 {
        assert(t.drop_last() =~= s.drop_last());
    } else {
        lemma_held_update(s.drop_last(), i, l);
        assert(t.drop_last() =~= s.drop_last().update(i, l));
    }
}

proof fn lemma_held_part(s: Seq<LayerState>, i: int, j: int)
    requires
        0 <= i < s.len(),
        0 <= j < s.len(),
    ensures
        s[i].observations <= held(s),
        i != j ==> s[i].observations + s[j].observations <= held(s),
{
    let zero_i = LayerState { observations: 0, ..s[i] };
    lemma_held_update(s, i, zero_i);
    let t = s.update(i, zero_i);
    let zero_j = LayerState { observations: 0, ..t[j] };
    lemma_held_update(t, j, zero_j);
}

proof fn lemma_carried_held(s: Seq<LayerState>, i: int)
    requires
        0 <= i < s.len() - 1,
    ensures
        held(carried(s, i)) == held(s),
{
    let to = s[i + 1];
    let l = LayerState {
        plane: to.plane.union(s[i].plane),
        observations: to.observations + s[i].observations,
        elapsed: to.elapsed + s[i].window,
        ..to
    };
    let t = s.update(i + 1, l);
    lemma_held_update(s, i + 1, l);
    assert(t[i] == s[i]);
    lemma_held_update(t, i, reset(s[i]));
}

/// Moving layers up keeps every observation.
pub proof fn carries_keep_observations(s: Seq<LayerState>, n: nat)
    requires
        n < s.len(),
    ensures
        carried_up(s, n).len() == s.len(),
        held(carried_up(s, n)) == held(s),
    decreases n,
{
    if n > 0 {
        carries_keep_observations(s, (n - 1) as nat);
        let before = carried_up(s, (n - 1) as nat);
        if full(before[n - 1]) {
            lemma_carried_held(before, n - 1);
        }
    }
}

proof fn lemma_carried_system(s: Seq<LayerState>, i: int)
    requires
        0 <= i < s.len() - 1,
    ensures
        system(carried(s, i)) == system(s),
{
    let t = carried(s, i);
    assert forall|b: u32| system(t).contains(b) == system(s).contains(b) by {
        if system(t).contains(b) {
            let k = choose|k: int| 0 <= k < t.len() && (#[trigger] t[k]).plane.contains(b);
            if k == i + 1 {
                if s[i].plane.contains(b) {
                    assert(s[i].plane.contains(b));
                } else {
                    assert(s[i + 1].plane.contains(b));
                }
            } else {
                assert(k != i);
                assert(s[k].plane.contains(b));
            }
        }
        if system(s).contains(b) {
            let k = choose|k: int| 0 <= k < s.len() && (#[trigger] s[k]).plane.contains(b);
            if k == i || k == i + 1 {
                assert(t[i + 1].plane.contains(b));
            } else {
                assert(t[k].plane.contains(b));
            }
        }
    }
    assert(system(t) =~= system(s));
}

/// Moving layers up keeps the state of the system.
pub proof fn carries_keep_the_system_state(s: Seq<LayerState>, n: nat)
    requires
        n < s.len(),
    ensures
        carried_up(s, n).len() == s.len(),
        system(carried_up(s, n)) == system(s),
    decreases n,
{
    if n > 0 {
        carries_keep_the_system_state(s, (n - 1) as nat);
        let before = carried_up(s, (n - 1) as nat);
        if full(before[n - 1]) {
            lemma_carried_system(before, n - 1);
        }
    }
}

/// The passing of time keeps the state of the system: the union of the layers
/// is constant.
pub proof fn time_keeps_the_system_state(s: Seq<LayerState>, delta: nat)
    requires
        s.len() > 0,
    ensures
        system(advanced(s, delta)) == system(s),
{
    if delta > 0 {
        let a = aged(s, delta);
        lemma_same_planes(a, s);
        carries_keep_the_system_state(a, (s.len() - 1) as nat);
        lemma_same_planes(advanced(s, delta), settled(s, delta));
    }
}

proof fn lemma_same_planes(a: Seq<LayerState>, b: Seq<LayerState>)
    requires
        a.len() == b.len(),
        forall|i: int| 0 <= i < a.len() ==> (#[trigger] a[i]).plane == (#[trigger] b[i]).plane,
    ensures
        system(a) == system(b),
{
    assert forall|bit: u32| system(a).contains(bit) == system(b).contains(bit) by {
        if system(a).contains(bit) {
            let k = choose|k: int| 0 <= k < a.len() && (#[trigger] a[k]).plane.contains(bit);
            assert(b[k].plane.contains(bit));
        }
        if system(b).contains(bit) {
            let k = choose|k: int| 0 <= k < b.len() && (#[trigger] b[k]).plane.contains(bit);
            assert(a[k].plane.contains(bit));
        }
    }
    assert(system(a) =~= system(b));
}

/// An observation joins the state of the system, and stays in it.
pub proof fn observations_join_the_system_state(s: Seq<LayerState>, plane: Set<u32>, delta: nat)
    requires
        s.len() > 0,
    ensures
        system(observed(s, plane)) == system(s).union(plane),
        system(advanced(observed(s, plane), delta)) == system(s).union(plane),
{
    let o = observed(s, plane);
    assert forall|b: u32| system(o).contains(b) == system(s).union(plane).contains(b) by {
        if system(o).contains(b) {
            let k = choose|k: int| 0 <= k < o.len() && (#[trigger] o[k]).plane.contains(b);
            if k == 0 && !plane.contains(b) {
                assert(s[0].plane.contains(b));
            } else if k > 0 {
                assert(s[k].plane.contains(b));
            }
        }
        if system(s).contains(b) {
            let k = choose|k: int| 0 <= k < s.len() && (#[trigger] s[k]).plane.contains(b);
            assert(o[k].plane.contains(b));
        }
        if plane.contains(b) {
            assert(o[0].plane.contains(b));
        }
    }
    assert(system(o) =~= system(s).union(plane));
    time_keeps_the_system_state(o, delta);
}

/// Layers on the way: windows as before, the layers up to `n` settled, layer
/// `n` possibly over its window, the rest at rest.
spec fn settling(s: Seq<LayerState>, t: Seq<LayerState>, n: int, delta: nat) -> bool {
    &&& t.len() == s.len()
    &&& forall|i: int| 0 <= i < s.len() ==> (#[trigger] t[i]).window == s[i].window
    &&& forall|i: int| 0 <= i < n ==> (#[trigger] t[i]).elapsed <= t[i].window
    &&& forall|i: int| n < i < s.len() ==> (#[trigger] t[i]) == s[i]
    &&& n == 0 ==> t[0].elapsed == s[0].elapsed + delta
    &&& 0 < n < s.len() ==> t[n].elapsed <= s[n].elapsed + s[n - 1].window
}

proof fn lemma_settling(s: Seq<LayerState>, n: int, delta: nat)
    requires
        at_rest(s),
        0 <= n < s.len(),
    ensures
        settling(s, carried_up(aged(s, delta), n as nat), n, delta),
    decreases n,
{
    if n > 0 {
        lemma_settling(s, n - 1, delta);
        let before = carried_up(aged(s, delta), (n - 1) as nat);
        let t = carried_up(aged(s, delta), n as nat);
        assert(before[n] == s[n]);
        if full(before[n - 1]) {
            assert(t == carried(before, n - 1));
        }
        assert forall|i: int| 0 <= i < n implies (#[trigger] t[i]).elapsed <= t[i].window by {
            if i < n - 1 {
                assert(before[i].elapsed <= before[i].window);
                assert(t[i] == before[i]);
            }
        }
        assert forall|i: int| 0 <= i < s.len() implies (#[trigger] t[i]).window == s[i].window by {
            assert(before[i].window == s[i].window);
        }
        assert forall|i: int| n < i < s.len() implies (#[trigger] t[i]) == s[i] by {
            assert(before[i] == s[i]);
        }
    }
}

/// Time leaves layers at rest, and keeps every observation: no elapsed time
/// exceeds its window.
pub proof fn time_leaves_layers_at_rest(s: Seq<LayerState>, delta: nat)
    requires
        at_rest(s),
    ensures
        at_rest(advanced(s, delta)),
        advanced(s, delta).len() == s.len(),
        held(advanced(s, delta)) == held(s),
{
    if delta > 0 {
        let n = s.len() - 1;
        lemma_settling(s, n, delta);
        let a = aged(s, delta);
        lemma_held_update(s, 0, LayerState { elapsed: s[0].elapsed + delta, ..s[0] });
        carries_keep_observations(a, n as nat);
        let up = settled(s, delta);
        let t = advanced(s, delta);
        if full(up.last()) {
            lemma_held_update(up, n, renewed(up.last()));
        }
        assert forall|i: int| 0 <= i < t.len() implies (#[trigger] t[i]).window <= LONGEST
            && t[i].elapsed <= t[i].window by {
            assert(up[i].window == s[i].window);
            assert(s[i].window <= LONGEST);
            if i < n {
                assert(up[i].elapsed <= up[i].window);
            }
        }
        assert forall|i: int, j: int| 0 <= i <= j < t.len() implies (#[trigger] t[i]).window <= (
        #[trigger] t[j]).window by {
            assert(up[i].window == s[i].window);
            assert(up[j].window == s[j].window);
            assert(s[i].window <= s[j].window);
        }
    }
}

/// A pyramid of layers, the finest first.
pub struct TemporalPyramid {
    layers: Vec<Layer>,
    last_timestamp: Option<Duration>,
    total_observations: u64,
}

/// Windows that a pyramid accepts: at least one, none shorter than the one
/// before.
pub open spec fn acceptable(durations: Seq<Duration>) -> bool {
    &&& durations.len() > 0
    &&& forall|i: int, j: int|
        0 <= i <= j < durations.len() ==> (#[trigger] durations[i]).nanos <= (
        #[trigger] durations[j]).nanos
    &&& forall|i: int| 0 <= i < durations.len() ==> (#[trigger] durations[i]).nanos <= LONGEST
}

/// The layers of a new pyramid.
pub open spec fn fresh_layers(durations: Seq<Duration>) -> Seq<LayerState> {
    durations.map_values(|d: Duration| fresh(d.nanos as nat))
}

/// The time since the last timestamp; none where there is none, or where it
/// lies ahead.
pub open spec fn since(last: Option<Duration>, now: Duration) -> nat {
    match last {
        Some(prev) => if now.nanos <= prev.nanos {
            0
        } else {
            (now.nanos - prev.nanos) as nat
        },
        None => 0,
    }
}

impl TemporalPyramid {
    /// The layers.
    pub closed spec fn view(&self) -> Seq<LayerState> {
        states(self.layers@)
    }

    /// All observations so far.
    pub closed spec fn total(&self) -> nat {
        self.total_observations as nat
    }

    /// The last timestamp.
    pub closed spec fn last(&self) -> Option<Duration> {
        self.last_timestamp
    }

    /// Layers at rest that hold all that was observed.
    pub open spec fn wf(&self) -> bool {
        &&& at_rest(self@)
        &&& held(self@) == self.total()
        &&& self.total() == 0 ==> system(self@) == Set::<u32>::empty()
    }

    /// A pyramid of windows, the finest first.
    pub fn new(durations: Vec<Duration>) -> (r: Self)
        requires
            acceptable(durations@),
        ensures
            r.wf(),
            r@ == fresh_layers(durations@),
            r.total() == 0,
            r.last() is None,
    {
        let mut layers: Vec<Layer> = Vec::new();
        let mut i: usize = 0;
        while i < durations.len()
            invariant
                i <= durations@.len(),
                layers@.len() == i,
                forall|j: int|
                    0 <= j < i ==> (#[trigger] layers@[j])@ == fresh(durations@[j].nanos as nat),
            decreases durations@.len() - i,
        {
            layers.push(Layer::new(durations[i]));
            i = i + 1;
        }
        let r = TemporalPyramid { layers, last_timestamp: None, total_observations: 0 };
        proof {
            assert(r@ =~= fresh_layers(durations@));
            lemma_fresh(durations@);
        }
        r
    }

    /// The number of layers.
    pub fn layer_count(&self) -> (r: usize)
        ensures
            r == self@.len(),
    {
        self.layers.len()
    }

    /// A layer, the finest being the first.
    pub fn layer(&self, i: usize) -> (r: &Layer)
        requires
            i < self@.len(),
        ensures
            r@ == self@[i as int],
    {
        &self.layers[i]
    }

    /// All observations so far.
    pub fn total_observations(&self) -> (r: u64)
        ensures
            r == self.total(),
    {
        self.total_observations
    }

    /// Ingests an observation at a time, measured from some fixed origin.
    /// Hands back how many layers started anew.
    pub fn ingest(&mut self, observation: &HLLSet, now: Duration) -> (r: usize)
        requires
            old(self).wf(),
            old(self).total() < u64::MAX,
            now.nanos <= LONGEST,
        ensures
            final(self).wf(),
            final(self)@ == advanced(
                observed(old(self)@, observation@),
                since(old(self).last(), now),
            ),
            system(final(self)@) == system(old(self)@).union(observation@),
            final(self).total() == old(self).total() + 1,
            final(self).last() == Some(now),
            r == advance_count(
                observed(old(self)@, observation@),
                since(old(self).last(), now),
            ),
    {
        let delta = match self.last_timestamp {
            Some(prev) => {
                if now.nanos <= prev.nanos {
                    Duration::zero()
                } else {
                    Duration { nanos: now.nanos - prev.nanos }
                }
            },
            None => Duration::zero(),
        };
        self.last_timestamp = Some(now);
        self.ingest_with_delta(observation, delta)
    }

    /// Ingests an observation after some time. Hands back how many layers
    /// started anew.
    pub fn ingest_with_delta(&mut self, observation: &HLLSet, delta: Duration) -> (r: usize)
        requires
            old(self).wf(),
            old(self).total() < u64::MAX,
            delta.nanos <= LONGEST,
        ensures
            final(self).wf(),
            final(self)@ == advanced(observed(old(self)@, observation@), delta.nanos as nat),
            system(final(self)@) == system(old(self)@).union(observation@),
            final(self).total() == old(self).total() + 1,
            final(self).last() == old(self).last(),
            r == advance_count(observed(old(self)@, observation@), delta.nanos as nat),
    {
        let ghost s = self@;
        self.total_observations = self.total_observations + 1;
        proof {
            lemma_held_part(s, 0, 0);
        }
        let l0 = &self.layers[0];
        let grown = Layer {
            hllset: l0.hllset.union(observation),
            window: l0.window,
            elapsed: l0.elapsed,
            observations: l0.observations + 1,
            has_carried: l0.has_carried,
        };
        let ghost g = grown@;
        let ghost before = self.layers@;
        self.layers.set(0, grown);
        proof {
            assert(states(self.layers@) =~= s.update(0, g));
            assert(g == observed(s, observation@)[0]);
            assert(self@ =~= observed(s, observation@));
            lemma_held_update(s, 0, g);
            lemma_observed_rest(s, observation@);
        }
        let r = self.advance_time(delta);
        proof {
            time_leaves_layers_at_rest(observed(s, observation@), delta.nanos as nat);
            observations_join_the_system_state(s, observation@, delta.nanos as nat);
        }
        r
    }

    /// Lets time pass: layers whose windows have elapsed move up, the coarsest
    /// starts its window anew.
    fn advance_time(&mut self, delta: Duration) -> (r: usize)
        requires
            at_rest(old(self)@),
            held(old(self)@) <= old(self).total(),
            delta.nanos <= LONGEST,
        ensures
            final(self)@ == advanced(old(self)@, delta.nanos as nat),
            final(self).total() == old(self).total(),
            final(self).last() == old(self).last(),
            r == advance_count(old(self)@, delta.nanos as nat),
    {
        if delta.nanos == 0 {
            return 0;
        }
        let ghost s = self@;
        let ghost d = delta.nanos as nat;
        let n: usize = self.layers.len();
        let l0 = &self.layers[0];
        proof {
            assert(s[0].elapsed <= s[0].window && s[0].window <= LONGEST);
            assert(s[0] == self.layers@[0]@);
        }
        let older = Layer {
            hllset: l0.hllset.clone(),
            window: l0.window,
            elapsed: Duration { nanos: l0.elapsed.nanos + delta.nanos },
            observations: l0.observations,
            has_carried: l0.has_carried,
        };
        let ghost o = older@;
        self.layers.set(0, older);
        let ghost a = aged(s, d);
        proof {
            assert(o == a[0]);
            assert(self@ =~= a);
            lemma_held_update(s, 0, a[0]);
        }
        let mut carries: usize = 0;
        let mut i: usize = 0;
        while i + 1 < n
            invariant
                n == s.len(),
                i < n,
                at_rest(s),
                d <= LONGEST,
                a == aged(s, d),
                held(a) <= self.total(),
                self@ == carried_up(a, i as nat),
                self@.len() == n,
                carries <= i,
                carries == carry_count(a, i as nat),
                self.total() == old(self).total(),
                self.last() == old(self).last(),
            decreases n - i,
        {
            let ghost before = self@;
            proof {
                lemma_settling(s, i as int, d);
                carries_keep_observations(a, i as nat);
                lemma_held_part(before, i as int, i + 1);
                assert(before[i + 1] == s[i + 1]);
                assert(s[i + 1].elapsed <= s[i + 1].window && s[i + 1].window <= LONGEST);
                assert(before[i as int].window == s[i as int].window);
                assert(s[i as int].window <= LONGEST);
                assert(before[i as int] == self.layers@[i as int]@);
                assert(before[i + 1] == self.layers@[i + 1]@);
            }
            if self.layers[i].is_full() {
                self.carry(i);
                carries = carries + 1;
            }
            i = i + 1;
        }
        let top: usize = n - 1;
        proof {
            assert(i == top);
            assert(self@ == settled(s, d));
            assert(self@.last() == self.layers@[top as int]@);
        }
        if self.layers[top].is_full() {
            let full = &self.layers[top];
            let anew = Layer {
                hllset: full.hllset.clone(),
                window: full.window,
                elapsed: Duration::zero(),
                observations: full.observations,
                has_carried: true,
            };
            let ghost before = self@;
            let ghost w = anew@;
            self.layers.set(top, anew);
            proof {
                assert(w == renewed(before.last()));
                assert(self@ =~= before.update(top as int, w));
            }
            carries = carries + 1;
        }
        carries
    }

    /// Moves a layer up into the next.
    fn carry(&mut self, from: usize)
        requires
            from + 1 < old(self)@.len(),
            old(self)@[from as int].window <= LONGEST,
            old(self)@[from + 1].elapsed <= LONGEST,
            old(self)@[from as int].observations + old(self)@[from + 1].observations <= u64::MAX,
        ensures
            final(self)@ == carried(old(self)@, from as int),
            final(self).total() == old(self).total(),
            final(self).last() == old(self).last(),
    {
        let ghost s = self@;
        let n: usize = self.layers.len();
        assert(from + 1 < n);
        let source = &self.layers[from];
        let target = &self.layers[from + 1];
        proof {
            assert(s[from as int] == source@);
            assert(s[from + 1] == target@);
        }
        let grown = Layer {
            hllset: target.hllset.union(&source.hllset),
            window: target.window,
            elapsed: Duration { nanos: target.elapsed.nanos + source.window.nanos },
            observations: target.observations + source.observations,
            has_carried: target.has_carried,
        };
        let mut anew = Layer::new(source.window);
        anew.has_carried = true;
        let ghost g = grown@;
        let ghost w = anew@;
        self.layers.set(from + 1, grown);
        self.layers.set(from, anew);
        proof {
            assert(w == reset(s[from as int]));
            assert(self@ =~= s.update(from + 1, g).update(from as int, w));
        }
    }

    /// The union of all layers.
    pub fn system_state(&self) -> (r: HLLSet)
        ensures
            r@ == system(self@),
    {
        let ghost s = self@;
        let mut state = HLLSet::new();
        let mut i: usize = 0;
        proof {
            assert(state@ =~= system(s.take(0)));
        }
        while i < self.layers.len()
            invariant
                i <= self.layers@.len(),
                s == self@,
                s.len() == self.layers@.len(),
                state@ == system(s.take(i as int)),
            decreases self.layers@.len() - i,
        {
            proof {
                lemma_system_step(s, i as int);
                assert(s[i as int] == self.layers@[i as int]@);
            }
            state = state.union(&self.layers[i].hllset);
            i = i + 1;
        }
        proof {
            assert(s.take(i as int) =~= s);
        }
        state
    }

    /// The number of bits in the state of the system.
    pub fn system_popcount(&self) -> (r: u64)
        ensures
            r == system(self@).len(),
    {
        self.system_state().popcount()
    }

    /// Checks that nothing is held where nothing was observed, which holds of
    /// every well-formed pyramid.
    pub fn verify_noether(&self) -> (r: bool)
        ensures
            r == (self.total() == 0 ==> system(self@) == Set::<u32>::empty()),
            self.wf() ==> r,
    {
        let state = self.system_state();
        if self.total_observations == 0 {
            state.is_empty()
        } else {
            true
        }
    }

    /// One for each bit of the state of the system and zero for the others.
    pub fn tf_snapshot(&self) -> (r: Vec<u64>)
        ensures
            indicates(r@, system(self@)),
    {
        indicator(&self.system_state())
    }

    /// For each layer, one for each bit it sets and zero for the others.
    pub fn per_layer_tf_snapshots(&self) -> (r: Vec<Vec<u64>>)
        ensures
            r@.len() == self@.len(),
            forall|i: int|
                0 <= i < r@.len() ==> indicates((#[trigger] r@[i])@, self@[i].plane),
    {
        let ghost s = self@;
        let mut out: Vec<Vec<u64>> = Vec::new();
        let mut i: usize = 0;
        while i < self.layers.len()
            invariant
                i <= self.layers@.len(),
                s == self@,
                s.len() == self.layers@.len(),
                out@.len() == i,
                forall|k: int| 0 <= k < i ==> indicates((#[trigger] out@[k])@, s[k].plane),
            decreases self.layers@.len() - i,
        {
            proof {
                assert(s[i as int] == self.layers@[i as int]@);
            }
            out.push(indicator(&self.layers[i].hllset));
            i = i + 1;
        }
        out
    }

    /// The standard pyramid, from a second to a year.
    pub fn standard() -> (r: Self)
        ensures
            r.wf(),
            r.total() == 0,
            r.last() is None,
            exists|d: Seq<Duration>|
                of_seconds(d, standard_seconds()) && r@ == #[trigger] fresh_layers(d),
    {
        let d = default_durations();
        proof {
            assert forall|i: int, j: int| 0 <= i <= j < d@.len() implies (#[trigger] d@[i]).nanos
                <= (#[trigger] d@[j]).nanos by {
                let q = standard_seconds();
                assert(q[i] <= q[j]);
                assert(d@[i].nanos == q[i] * 1_000_000_000);
                assert(d@[j].nanos == q[j] * 1_000_000_000);
            }
            assert forall|i: int| 0 <= i < d@.len() implies (#[trigger] d@[i]).nanos
                <= LONGEST by {
                let q = standard_seconds();
                assert(q[i] <= 31_536_000);
            }
        }
        let ghost dv = d@;
        let r = TemporalPyramid::new(d);
        proof {
            assert(of_seconds(dv, standard_seconds()) && r@ == fresh_layers(dv));
        }
        r
    }

    fn uniform(window: Duration, count: usize) -> (r: Self)
        requires
            count > 0,
            window.nanos <= LONGEST,
        ensures
            r.wf(),
            r.total() == 0,
            r.last() is None,
            r@ == Seq::new(count as nat, |i: int| fresh(window.nanos as nat)),
    {
        let mut d: Vec<Duration> = Vec::new();
        while d.len() < count
            invariant
                d@.len() <= count,
                forall|i: int| 0 <= i < d@.len() ==> #[trigger] d@[i] == window,
            decreases count - d@.len(),
        {
            d.push(window);
        }
        let ghost dv = d@;
        let r = TemporalPyramid::new(d);
        proof {
            assert(r@ =~= Seq::new(count as nat, |i: int| fresh(window.nanos as nat)));
        }
        r
    }

    /// Five layers of a tenth of a second.
    pub fn high_frequency() -> (r: Self)
        ensures
            r.wf(),
            r.total() == 0,
            r.last() is None,
            r@ == Seq::new(5, |i: int| fresh(100_000_000)),
    {
        let w = Duration::from_millis(100);
        assert(w.nanos == 100_000_000);
        TemporalPyramid::uniform(w, 5)
    }

    /// Four layers of a quarter of a second.
    pub fn realtime_control() -> (r: Self)
        ensures
            r.wf(),
            r.total() == 0,
            r.last() is None,
            r@ == Seq::new(4, |i: int| fresh(250_000_000)),
    {
        let w = Duration::from_millis(250);
        assert(w.nanos == 250_000_000);
        TemporalPyramid::uniform(w, 4)
    }

    /// Six layers of ten minutes.
    pub fn document_analysis() -> (r: Self)
        ensures
            r.wf(),
            r.total() == 0,
            r.last() is None,
            r@ == Seq::new(6, |i: int| fresh(600_000_000_000)),
    {
        let w = Duration::from_secs(600);
        assert(w.nanos == 600_000_000_000);
        TemporalPyramid::uniform(w, 6)
    }

    /// A second and a minute.
    pub fn minimal() -> (r: Self)
        ensures
            r.wf(),
            r.total() == 0,
            r.last() is None,
            r@ == seq![fresh(1_000_000_000), fresh(60_000_000_000)],
    {
        let mut d: Vec<Duration> = Vec::new();
        d.push(Duration::from_secs(1));
        d.push(Duration::from_secs(60));
        let r = TemporalPyramid::new(d);
        proof {
            assert(r@ =~= seq![fresh(1_000_000_000), fresh(60_000_000_000)]);
        }
        r
    }
}

impl Default for TemporalPyramid {
    fn default() -> (r: Self)
        ensures
            r.wf(),
            r.total() == 0,
            r.last() is None,
            exists|d: Seq<Duration>|
                of_seconds(d, standard_seconds()) && r@ == #[trigger] fresh_layers(d),
    {
        TemporalPyramid::standard()
    }
}

/// Ones where a plane sets a bit, zeros elsewhere.
pub open spec fn indicates(row: Seq<u64>, plane: Set<u32>) -> bool {
    &&& row.len() == 32768
    &&& forall|b: int|
        0 <= b < 32768 ==> #[trigger] row[b] == if plane.contains(b as u32) {
            1u64
        } else {
            0u64
        }
}

fn indicator(plane: &HLLSet) -> (r: Vec<u64>)
    ensures
        indicates(r@, plane@),
{
    let mut row: Vec<u64> = Vec::new();
    let mut b: u32 = 0;
    while b < 32768
        invariant
            b <= 32768,
            row@.len() == b,
            forall|k: int|
                0 <= k < b ==> #[trigger] row@[k] == if plane@.contains(k as u32) {
                    1u64
                } else {
                    0u64
                },
        decreases 32768 - b,
    {
        row.push(
            if plane.contains(b) {
                1
            } else {
                0
            },
        );
        b = b + 1;
    }
    row
}

proof fn lemma_fresh(durations: Seq<Duration>)
    requires
        acceptable(durations),
    ensures
        at_rest(fresh_layers(durations)),
        held(fresh_layers(durations)) == 0,
        system(fresh_layers(durations)) == Set::<u32>::empty(),
{
    let s = fresh_layers(durations);
    lemma_fresh_held(s);
    assert forall|i: int, j: int| 0 <= i <= j < s.len() implies (#[trigger] s[i]).window <= (
    #[trigger] s[j]).window by {
        assert(durations[i].nanos <= durations[j].nanos);
    }
    assert(system(s) =~= Set::empty());
}

proof fn lemma_fresh_held(s: Seq<LayerState>)
    requires
        forall|i: int| 0 <= i < s.len() ==> (#[trigger] s[i]).observations == 0,
    ensures
        held(s) == 0,
    decreases s.len(),
{
    if s.len() > 0 {
        let front = s.drop_last();
        assert forall|i: int| 0 <= i < front.len() implies (#[trigger] front[i]).observations
            == 0 by {
            assert(front[i] == s[i]);
        }
        lemma_fresh_held(front);
        assert(s[s.len() - 1].observations == 0);
    }
}

proof fn lemma_observed_rest(s: Seq<LayerState>, plane: Set<u32>)
    requires
        at_rest(s),
    ensures
        at_rest(observed(s, plane)),
{
    let o = observed(s, plane);
    assert forall|i: int| 0 <= i < o.len() implies (#[trigger] o[i]).window <= LONGEST
        && o[i].elapsed <= o[i].window by {
        assert(s[i].window <= LONGEST && s[i].elapsed <= s[i].window);
    }
    assert forall|i: int, j: int| 0 <= i <= j < o.len() implies (#[trigger] o[i]).window <= (
    #[trigger] o[j]).window by {
        assert(s[i].window <= s[j].window);
    }
}

proof fn lemma_system_step(s: Seq<LayerState>, i: int)
    requires
        0 <= i < s.len(),
    ensures
        system(s.take(i + 1)) == system(s.take(i)).union(s[i].plane),
{
    let long = s.take(i + 1);
    let short = s.take(i);
    assert forall|b: u32|
        system(long).contains(b) == system(short).union(s[i].plane).contains(b) by {
        if system(long).contains(b) {
            let k = choose|k: int| 0 <= k < long.len() && (#[trigger] long[k]).plane.contains(b);
            if k < i {
                assert(short[k].plane.contains(b));
            }
        }
        if system(short).contains(b) {
            let k = choose|k: int| 0 <= k < short.len() && (#[trigger] short[k]).plane.contains(b);
            assert(long[k].plane.contains(b));
        }
        if s[i].plane.contains(b) {
            assert(long[i].plane.contains(b));
        }
    }
    assert(system(long) =~= system(short).union(s[i].plane));
}

/// The time that layer `i` gains when `delta` passes: all of it for the finest,
/// the window of the layer below where that moved up, none otherwise.
pub open spec fn gained(s: Seq<LayerState>, moved: Seq<bool>, delta: nat, i: int) -> nat {
    if i == 0 {
        delta
    } else if moved[i - 1] {
        s[i - 1].window
    } else {
        0
    }
}

/// Everything from layer `j` up to below layer `i` moved up.
pub open spec fn moved_through(moved: Seq<bool>, j: int, i: int) -> bool {
    forall|k: int| j <= k < i ==> #[trigger] moved[k]
}

/// The bits that reach layer `i`: its own, and those of every layer below from
/// which all layers moved up.
pub open spec fn arriving(s: Seq<LayerState>, moved: Seq<bool>, i: int) -> Set<u32> {
    Set::new(
        |b: u32|
            exists|j: int|
                0 <= j <= i && (#[trigger] s[j]).plane.contains(b) && moved_through(moved, j, i),
    )
}

/// The observations that reach layer `i`: its own, and those that reached the
/// layer below where that moved up.
pub open spec fn arriving_count(s: Seq<LayerState>, moved: Seq<bool>, i: int) -> nat
    decreases i,
{
    s[i].observations + if i > 0 && moved[i - 1] {
        arriving_count(s, moved, i - 1)
    } else {
        0
    }
}

/// What holds of layers below the coarsest, the first `n` of which have been
/// looked at.
spec fn moving(
    s: Seq<LayerState>,
    t: Seq<LayerState>,
    moved: Seq<bool>,
    delta: nat,
    n: int,
) -> bool {
    &&& t.len() == s.len()
    &&& moved.len() == n
    &&& forall|i: int|
        0 <= i < n ==> #[trigger] moved[i] == (s[i].elapsed + gained(s, moved, delta, i)
            >= s[i].window)
    &&& forall|i: int| 0 <= i < n ==> moved_layer(s, (#[trigger] t[i]), moved, delta, i)
    &&& n < s.len() ==> {
        &&& t[n].plane == arriving(s, moved, n)
        &&& t[n].elapsed == s[n].elapsed + gained(s, moved, delta, n)
        &&& t[n].window == s[n].window
        &&& t[n].has_carried == s[n].has_carried
        &&& t[n].observations == arriving_count(s, moved, n)
    }
    &&& forall|i: int| n < i < s.len() ==> (#[trigger] t[i]) == s[i]
}

/// Layer `i` after time has passed: empty and at its beginning where it moved
/// up, and otherwise with all that reached it.
pub open spec fn moved_layer(
    s: Seq<LayerState>,
    t: LayerState,
    moved: Seq<bool>,
    delta: nat,
    i: int,
) -> bool {
    &&& t.window == s[i].window
    &&& t.has_carried == (s[i].has_carried || moved[i])
    &&& if moved[i] {
        t.plane == Set::<u32>::empty() && t.observations == 0 && t.elapsed == 0
    } else {
        t.plane == arriving(s, moved, i) && t.elapsed == s[i].elapsed + gained(s, moved, delta, i)
            && t.observations == arriving_count(s, moved, i)
    }
}

proof fn lemma_moving(s: Seq<LayerState>, delta: nat, n: int) -> (moved: Seq<bool>)
    requires
        0 <= n < s.len(),
    ensures
        moving(s, carried_up(aged(s, delta), n as nat), moved, delta, n),
        carry_count(aged(s, delta), n as nat) == moved.filter(|m: bool| m).len(),
    decreases n,
{
    let a = aged(s, delta);
    reveal(Seq::filter);
    if n == 0 {
        let none = Seq::<bool>::empty();
        assert forall|b: u32| a[0].plane.contains(b) == arriving(s, none, 0).contains(b) by {
            if s[0].plane.contains(b) {
                assert(moved_through(none, 0, 0));
            }
        }
        assert(a[0].plane =~= arriving(s, none, 0));
        none
    } else {
        let before = lemma_moving(s, delta, n - 1);
        let u = carried_up(a, (n - 1) as nat);
        let moved = before.push(full(u[n - 1]));
        assert(moved.drop_last() =~= before);
        lemma_moving_step(s, u, before, delta, n);
        moved
    }
}

proof fn lemma_moving_step(
    s: Seq<LayerState>,
    u: Seq<LayerState>,
    before: Seq<bool>,
    delta: nat,
    n: int,
)
    requires
        0 < n < s.len(),
        moving(s, u, before, delta, n - 1),
    ensures
        moving(
            s,
            if full(u[n - 1]) {
                carried(u, n - 1)
            } else {
                u
            },
            before.push(full(u[n - 1])),
            delta,
            n,
        ),
{
    let f = full(u[n - 1]);
    let t = if f {
        carried(u, n - 1)
    } else {
        u
    };
    let moved = before.push(f);
    assert(u[n] == s[n]);
    lemma_arriving_step(s, before, f, n);
    lemma_arriving_prefix(s, before, f, n - 1);
    assert(arriving_count(s, moved, n - 1) == arriving_count(s, before, n - 1)) by {
        lemma_count_prefix(s, before, f, n - 1);
    }
    assert(moved[n - 1] == f);
    assert(gained(s, moved, delta, n - 1) == gained(s, before, delta, n - 1));
    assert forall|i: int| 0 <= i < n implies #[trigger] moved[i] == (s[i].elapsed + gained(
        s,
        moved,
        delta,
        i,
    ) >= s[i].window) by {
        if i < n - 1 {
            assert(moved[i] == before[i]);
            assert(gained(s, moved, delta, i) == gained(s, before, delta, i));
        }
    }
    assert forall|i: int| 0 <= i < n implies moved_layer(s, (#[trigger] t[i]), moved, delta, i) by {
        if i < n - 1 {
            assert(t[i] == u[i]);
            assert(moved_layer(s, u[i], before, delta, i));
            assert(moved[i] == before[i]);
            assert(gained(s, moved, delta, i) == gained(s, before, delta, i));
            lemma_arriving_prefix(s, before, f, i);
            lemma_count_prefix(s, before, f, i);
        } else if f {
            assert(t[i] == reset(u[i]));
        } else {
            assert(t[i] == u[i]);
        }
    }
    if f {
        assert(t[n].plane =~= arriving(s, moved, n));
    }
    assert forall|i: int| n < i < s.len() implies (#[trigger] t[i]) == s[i] by {
        assert(u[i] == s[i]);
    }
}

proof fn lemma_count_prefix(s: Seq<LayerState>, before: Seq<bool>, f: bool, i: int)
    requires
        0 <= i <= before.len(),
    ensures
        arriving_count(s, before.push(f), i) == arriving_count(s, before, i),
    decreases i,
{
    if i > 0 {
        lemma_count_prefix(s, before, f, i - 1);
        assert(before.push(f)[i - 1] == before[i - 1]);
    }
}

proof fn lemma_arriving_prefix(s: Seq<LayerState>, before: Seq<bool>, f: bool, i: int)
    requires
        0 <= i <= before.len(),
    ensures
        arriving(s, before.push(f), i) == arriving(s, before, i),
{
    let moved = before.push(f);
    assert forall|b: u32| arriving(s, moved, i).contains(b) == arriving(s, before, i).contains(
        b,
    ) by {
        if arriving(s, moved, i).contains(b) {
            let j = choose|j: int|
                0 <= j <= i && (#[trigger] s[j]).plane.contains(b) && moved_through(moved, j, i);
            assert forall|k: int| j <= k < i implies #[trigger] before[k] by {
                assert(moved[k]);
            }
            assert(moved_through(before, j, i));
        }
        if arriving(s, before, i).contains(b) {
            let j = choose|j: int|
                0 <= j <= i && (#[trigger] s[j]).plane.contains(b) && moved_through(before, j, i);
            assert forall|k: int| j <= k < i implies #[trigger] moved[k] by {
                assert(before[k]);
            }
            assert(moved_through(moved, j, i));
        }
    }
    assert(arriving(s, moved, i) =~= arriving(s, before, i));
}

proof fn lemma_arriving_step(s: Seq<LayerState>, before: Seq<bool>, f: bool, n: int)
    requires
        0 < n < s.len(),
        before.len() == n - 1,
    ensures
        arriving(s, before.push(f), n) == if f {
            s[n].plane.union(arriving(s, before, n - 1))
        } else {
            s[n].plane
        },
{
    let moved = before.push(f);
    let want = if f {
        s[n].plane.union(arriving(s, before, n - 1))
    } else {
        s[n].plane
    };
    assert forall|b: u32| arriving(s, moved, n).contains(b) == want.contains(b) by {
        if arriving(s, moved, n).contains(b) {
            let j = choose|j: int|
                0 <= j <= n && (#[trigger] s[j]).plane.contains(b) && moved_through(moved, j, n);
            if j < n {
                assert(moved[n - 1]);
                assert forall|k: int| j <= k < n - 1 implies #[trigger] before[k] by {
                    assert(moved[k]);
                }
                assert(moved_through(before, j, n - 1));
                assert(arriving(s, before, n - 1).contains(b));
            }
        }
        if s[n].plane.contains(b) {
            assert(moved_through(moved, n, n));
        }
        if f && arriving(s, before, n - 1).contains(b) {
            let j = choose|j: int|
                0 <= j <= n - 1 && (#[trigger] s[j]).plane.contains(b) && moved_through(
                    before,
                    j,
                    n - 1,
                );
            assert forall|k: int| j <= k < n implies #[trigger] moved[k] by {
                if k < n - 1 {
                    assert(before[k]);
                }
            }
            assert(moved_through(moved, j, n));
        }
    }
    assert(arriving(s, moved, n) =~= want);
}

/// When time passes, precisely the layers whose windows have elapsed move up,
/// the finest first: each hands what it holds and its window to the next, and
/// starts anew with nothing. A layer that does not move up keeps what it holds
/// and what reached it. The coarsest starts its window anew and keeps all.
pub proof fn full_layers_move_up(s: Seq<LayerState>, delta: nat) -> (moved: Seq<bool>)
    requires
        s.len() > 0,
        delta > 0,
    ensures
        moved.len() == s.len(),
        advanced(s, delta).len() == s.len(),
        forall|i: int|
            0 <= i < s.len() ==> #[trigger] moved[i] == (s[i].elapsed + gained(
                s,
                moved,
                delta,
                i,
            ) >= s[i].window),
        forall|i: int|
            0 <= i < s.len() - 1 ==> moved_layer(
                s,
                (#[trigger] advanced(s, delta)[i]),
                moved,
                delta,
                i,
            ),
        advanced(s, delta).last().plane == arriving(s, moved, s.len() - 1),
        advanced(s, delta).last().observations == arriving_count(s, moved, s.len() - 1),
        advanced(s, delta).last().elapsed == if moved.last() {
            0
        } else {
            s.last().elapsed + gained(s, moved, delta, s.len() - 1)
        },
        advanced(s, delta).last().window == s.last().window,
        advanced(s, delta).last().has_carried == (s.last().has_carried || moved.last()),
        advance_count(s, delta) == moved.filter(|m: bool| m).len(),
{
    let n = s.len() - 1;
    let before = lemma_moving(s, delta, n);
    let up = settled(s, delta);
    let f = full(up.last());
    let moved = before.push(f);
    let t = advanced(s, delta);
    assert(moved.drop_last() =~= before);
    reveal(Seq::filter);
    assert forall|i: int| 0 <= i <= n implies arriving(s, moved, i) == #[trigger] arriving(
        s,
        before,
        i,
    ) by {
        lemma_arriving_prefix(s, before, f, i);
    }
    assert forall|i: int| 0 <= i < s.len() implies #[trigger] moved[i] == (s[i].elapsed + gained(
        s,
        moved,
        delta,
        i,
    ) >= s[i].window) by {
        if i < n {
            assert(moved[i] == before[i]);
        }
        if i > 0 {
            assert(moved[i - 1] == before[i - 1]);
        }
    }
    assert forall|i: int| 0 <= i < s.len() - 1 implies moved_layer(
        s,
        (#[trigger] t[i]),
        moved,
        delta,
        i,
    ) by {
        assert(t[i] == up[i]);
        assert(moved_layer(s, up[i], before, delta, i));
        assert(moved[i] == before[i]);
        assert(arriving(s, moved, i) == arriving(s, before, i));
        lemma_count_prefix(s, before, f, i);
        assert(gained(s, moved, delta, i) == gained(s, before, delta, i));
    }
    assert(arriving(s, moved, n) == arriving(s, before, n));
    lemma_count_prefix(s, before, f, n);
    moved
}

/// A layer below the coarsest whose window has elapsed holds no bits and no
/// observations afterwards: what it held is in the layers above. Bits only ever
/// move to coarser layers, and no bit is left behind in two.
pub proof fn elapsed_windows_are_emptied(s: Seq<LayerState>, delta: nat)
    requires
        s.len() > 1,
        delta > 0,
        s[0].elapsed + delta >= s[0].window,
    ensures
        advanced(s, delta)[0].plane == Set::<u32>::empty(),
        advanced(s, delta)[0].observations == 0,
        advanced(s, delta)[0].elapsed == 0,
        advanced(s, delta)[0].has_carried,
        forall|b: u32| #[trigger]
            s[0].plane.contains(b) ==> exists|i: int|
                0 < i < s.len() && (#[trigger] advanced(s, delta)[i]).plane.contains(b),
{
    let moved = full_layers_move_up(s, delta);
    assert(moved[0]);
    let t = advanced(s, delta);
    assert(moved_layer(s, t[0], moved, delta, 0));
    time_keeps_the_system_state(s, delta);
    assert forall|b: u32| #[trigger] s[0].plane.contains(b) implies exists|i: int|
        0 < i < s.len() && (#[trigger] t[i]).plane.contains(b) by {
        assert(system(s).contains(b));
        assert(system(t).contains(b));
        let i = choose|i: int| 0 <= i < t.len() && (#[trigger] t[i]).plane.contains(b);
        assert(i != 0);
    }
}

/// Layers that share no bit share none after time has passed.
pub proof fn layers_stay_apart(s: Seq<LayerState>, delta: nat)
    requires
        s.len() > 0,
        forall|i: int, j: int|
            0 <= i < j < s.len() ==> (#[trigger] s[i]).plane.disjoint((#[trigger] s[j]).plane),
    ensures
        forall|i: int, j: int|
            0 <= i < j < s.len() ==> (#[trigger] advanced(s, delta)[i]).plane.disjoint(
                (#[trigger] advanced(s, delta)[j]).plane,
            ),
{
    let t = advanced(s, delta);
    if delta > 0 {
        let moved = full_layers_move_up(s, delta);
        assert forall|i: int, j: int| 0 <= i < j < s.len() implies (
        #[trigger] t[i]).plane.disjoint((#[trigger] t[j]).plane) by {
            assert(moved_layer(s, t[i], moved, delta, i));
            assert forall|b: u32| !(t[i].plane.contains(b) && t[j].plane.contains(b)) by {
                if t[i].plane.contains(b) && t[j].plane.contains(b) {
                    if j < s.len() - 1 {
                        assert(moved_layer(s, t[j], moved, delta, j));
                    }
                    assert(!moved[i]);
                    let p = choose|p: int|
                        0 <= p <= i && (#[trigger] s[p]).plane.contains(b) && moved_through(
                            moved,
                            p,
                            i,
                        );
                    let q = choose|q: int|
                        0 <= q <= j && (#[trigger] s[q]).plane.contains(b) && moved_through(
                            moved,
                            q,
                            j,
                        );
                    if q <= i {
                        assert(moved[i]);
                    } else {
                        assert(s[p].plane.disjoint(s[q].plane));
                    }
                }
            }
        }
    }
}

/// No time moves nothing, and an observation goes to the finest layer: it is in
/// it before time passes, and the coarser layers have seen nothing of it.
pub proof fn observations_start_in_the_finest_layer(s: Seq<LayerState>, plane: Set<u32>)
    requires
        s.len() > 0,
    ensures
        ({
            let t = advanced(observed(s, plane), 0);
            &&& t.len() == s.len()
            &&& t[0].plane == s[0].plane.union(plane)
            &&& t[0].observations == s[0].observations + 1
            &&& t[0].elapsed == s[0].elapsed
            &&& forall|i: int| 0 < i < s.len() ==> #[trigger] t[i] == s[i]
        }),
        advance_count(observed(s, plane), 0) == 0,
{
}

/// Timestamps count from the last one, and never backwards: two readings add up
/// to the time between the first and the last.
pub proof fn timestamps_measure_what_lies_between(a: Duration, b: Duration, c: Duration)
    requires
        a.nanos <= b.nanos <= c.nanos,
    ensures
        since(None, a) == 0,
        since(Some(a), b) == b.nanos - a.nanos,
        since(Some(b), a) == 0,
        since(Some(a), b) + since(Some(b), c) == since(Some(a), c),
{
}

} // verus!
