//! Rank correlation in whole numbers: the covariance and the variances of
//! ranks, without the square root that makes a coefficient of them.
use vstd::prelude::*;

use crate::bridge::{doubled_ranks, equal, greater};

verus! {

/// The moments of vectors of `n` places fit into 128 bits with a sign: twice a
/// rank is at most `2 n + 1`, and a moment at most `n` times the sum of `n`
/// products of two such.
pub open spec fn moments_fit(n: int) -> bool {
    n * n * ((2 * n + 1) * (2 * n + 1)) <= i128::MAX
}

/// The moments of two rank vectors. The coefficient is the covariance divided
/// by the square roots of the variances, and zero where a variance is.
#[derive(Clone, Copy, Debug, PartialEq, Eq, Structural)]
pub struct Correlation {
    pub cov: i128,
    pub var_a: u128,
    pub var_b: u128,
}

/// The sum of a vector.
pub open spec fn sum(x: Seq<int>) -> int
    decreases x.len(),
{
    if x.len() == 0 {
        0
    } else {
        sum(x.drop_last()) + x.last()
    }
}

/// The inner product of two vectors of one length.
pub open spec fn dot(x: Seq<int>, y: Seq<int>) -> int
    decreases x.len(),
{
    if x.len() == 0 || y.len() == 0 {
        0
    } else {
        dot(x.drop_last(), y.drop_last()) + x.last() * y.last()
    }
}

/// The covariance of two vectors of one length, times the square of the
/// length.
pub open spec fn covariance(x: Seq<int>, y: Seq<int>) -> int {
    x.len() * dot(x, y) - sum(x) * sum(y)
}

/// Twice the ranks of some values, the highest value having rank one and
/// equal values sharing the average of their ranks.
pub open spec fn rank_vector(values: Seq<u64>) -> Seq<int> {
    Seq::new(
        values.len(),
        |i: int| 2 * greater(values, values[i]) + equal(values, values[i]) as int + 1,
    )
}

/// The common length of two vectors.
pub open spec fn shared_length(a: Seq<u64>, b: Seq<u64>) -> int {
    if a.len() <= b.len() {
        a.len() as int
    } else {
        b.len() as int
    }
}

/// The moments of two vectors, cut to their common length: single equal
/// values correlate in full, other single values and nothing do not.
pub open spec fn is_correlation(c: Correlation, a: Seq<u64>, b: Seq<u64>) -> bool {
    let n = shared_length(a, b);
    if n < 2 {
        if n == 1 && a[0] == b[0] {
            c == (Correlation { cov: 1, var_a: 1, var_b: 1 })
        } else {
            c == (Correlation { cov: 0, var_a: 0, var_b: 0 })
        }
    } else {
        let x = rank_vector(a.take(n));
        let y = rank_vector(b.take(n));
        &&& c.cov == covariance(x, y)
        &&& c.var_a == covariance(x, x)
        &&& c.var_b == covariance(y, y)
    }
}

proof fn lemma_rank_bounds(values: Seq<u64>, v: u64)
    ensures
        greater(values, v) + equal(values, v) <= values.len(),
    decreases values.len(),
{
    if values.len() > 0 {
        lemma_rank_bounds(values.drop_last(), v);
    }
}

/// Entries between zero and a bound.
pub open spec fn bounded(x: Seq<int>, m: int) -> bool {
    forall|i: int| 0 <= i < x.len() ==> 0 <= #[trigger] x[i] <= m
}

proof fn lemma_rank_vector_bounded(values: Seq<u64>)
    ensures
        bounded(rank_vector(values), 2 * values.len() as int + 1),
{
    let x = rank_vector(values);
    assert forall|i: int| 0 <= i < x.len() implies 0 <= #[trigger] x[i] <= 2 * values.len()
        + 1 by {
        lemma_rank_bounds(values, values[i]);
    }
}

proof fn lemma_sum_bounds(x: Seq<int>, m: int)
    requires
        bounded(x, m),
        m >= 0,
    ensures
        0 <= sum(x) <= x.len() * m,
    decreases x.len(),
{
    if x.len() > 0 {
        let p = x.drop_last();
        assert forall|i: int| 0 <= i < p.len() implies 0 <= #[trigger] p[i] <= m by {
            assert(p[i] == x[i]);
        }
        lemma_sum_bounds(p, m);
        assert(0 <= x[x.len() - 1] <= m);
        assert(x.len() * m == p.len() * m + m) by (nonlinear_arith)
            requires
                x.len() == p.len() + 1,
        ;
    } else {
        assert(x.len() * m == 0) by (nonlinear_arith)
            requires
                x.len() == 0,
        ;
    }
}

proof fn lemma_dot_bounds(x: Seq<int>, y: Seq<int>, m: int)
    requires
        x.len() == y.len(),
        bounded(x, m),
        bounded(y, m),
        m >= 0,
    ensures
        0 <= dot(x, y) <= x.len() * (m * m),
    decreases x.len(),
{
    if x.len() > 0 {
        let p = x.drop_last();
        let q = y.drop_last();
        assert forall|i: int| 0 <= i < p.len() implies 0 <= #[trigger] p[i] <= m by {
            assert(p[i] == x[i]);
        }
        assert forall|i: int| 0 <= i < q.len() implies 0 <= #[trigger] q[i] <= m by {
            assert(q[i] == y[i]);
        }
        lemma_dot_bounds(p, q, m);
        let u = x[x.len() - 1];
        let v = y[y.len() - 1];
        assert(0 <= u * v <= m * m) by (nonlinear_arith)
            requires
                0 <= u <= m,
                0 <= v <= m,
        ;
        let k = m * m;
        assert(x.len() * k == p.len() * k + k) by (nonlinear_arith)
            requires
                x.len() == p.len() + 1,
        ;
    } else {
        let k = m * m;
        assert(x.len() * k == 0) by (nonlinear_arith)
            requires
                x.len() == 0,
        ;
    }
}

/// The moments of short vectors with small entries are small.
pub proof fn lemma_moments_bounded(x: Seq<int>, y: Seq<int>, m: int)
    requires
        x.len() == y.len(),
        bounded(x, m),
        bounded(y, m),
        m >= 0,
    ensures
        -((x.len() * m) * (x.len() * m)) <= covariance(x, y) <= (x.len() * m) * (x.len() * m),
        0 <= sum(x) <= x.len() * m,
        0 <= sum(y) <= x.len() * m,
        0 <= dot(x, y) <= x.len() * (m * m),
{
    let n = x.len() as int;
    lemma_sum_bounds(x, m);
    lemma_sum_bounds(y, m);
    lemma_dot_bounds(x, y, m);
    let s = sum(x);
    let t = sum(y);
    let d = dot(x, y);
    assert(0 <= s * t <= (n * m) * (n * m)) by (nonlinear_arith)
        requires
            0 <= s <= n * m,
            0 <= t <= n * m,
    ;
    assert(0 <= n * d <= (n * m) * (n * m)) by (nonlinear_arith)
        requires
            0 <= d <= n * (m * m),
            n >= 0,
            m >= 0,
    ;
}

proof fn lemma_dot_commutes(x: Seq<int>, y: Seq<int>)
    requires
        x.len() == y.len(),
    ensures
        dot(x, y) == dot(y, x),
    decreases x.len(),
{
    if x.len() > 0 {
        lemma_dot_commutes(x.drop_last(), y.drop_last());
        let u = x.last();
        let v = y.last();
        assert(u * v == v * u) by (nonlinear_arith);
    }
}

/// A vector scaled and shifted.
pub open spec fn shifted(x: Seq<int>, n: int, s: int) -> Seq<int> {
    x.map_values(|v: int| n * v - s)
}

proof fn lemma_shifted_dot(x: Seq<int>, y: Seq<int>, n: int, s: int, t: int)
    requires
        x.len() == y.len(),
    ensures
        dot(shifted(x, n, s), shifted(y, n, t)) == n * n * dot(x, y) - n * t * sum(x) - n * s * sum(
            y,
        ) + x.len() * (s * t),
    decreases x.len(),
{
    let a = shifted(x, n, s);
    let b = shifted(y, n, t);
    if x.len() > 0 {
        let p = x.drop_last();
        let q = y.drop_last();
        assert(a.drop_last() =~= shifted(p, n, s));
        assert(b.drop_last() =~= shifted(q, n, t));
        lemma_shifted_dot(p, q, n, s, t);
        let u = x.last();
        let v = y.last();
        let d = dot(p, q);
        let e = sum(p);
        let f = sum(q);
        let k = p.len() as int;
        let nu = n * u;
        let nv = n * v;
        assert((nu - s) * (nv - t) == nu * nv - nu * t - s * nv + s * t) by (nonlinear_arith);
        assert((n * u) * (n * v) == n * n * (u * v)) by (nonlinear_arith);
        assert((n * u) * t == n * t * u) by (nonlinear_arith);
        assert(s * (n * v) == n * s * v) by (nonlinear_arith);
        assert(n * n * (d + u * v) == n * n * d + n * n * (u * v)) by (nonlinear_arith);
        assert(n * t * (e + u) == n * t * e + n * t * u) by (nonlinear_arith);
        assert(n * s * (f + v) == n * s * f + n * s * v) by (nonlinear_arith);
        assert((k + 1) * (s * t) == k * (s * t) + s * t) by (nonlinear_arith);
    } else {
        assert(dot(x, y) == 0 && sum(x) == 0 && sum(y) == 0);
        let d = dot(x, y);
        let e = sum(x);
        let f = sum(y);
        let k = x.len() as int;
        assert(n * n * d - n * t * e - n * s * f + k * (s * t) == 0) by (nonlinear_arith)
            requires
                d == 0,
                e == 0,
                f == 0,
                k == 0,
        ;
    }
}

/// The inner product of two vectors is bounded by those of each with itself.
proof fn lemma_cauchy_schwarz(x: Seq<int>, y: Seq<int>)
    requires
        x.len() == y.len(),
    ensures
        dot(x, y) * dot(x, y) <= dot(x, x) * dot(y, y),
        dot(x, x) >= 0,
        dot(y, y) >= 0,
    decreases x.len(),
{
    if x.len() > 0 {
        let a = x.drop_last();
        let b = y.drop_last();
        lemma_cauchy_schwarz(a, b);
        let p = dot(a, b);
        let q = dot(a, a);
        let r = dot(b, b);
        let u = x.last();
        let v = y.last();
        lemma_cauchy_step(p, q, r, u, v);
        assert(q + u * u >= 0 && r + v * v >= 0) by (nonlinear_arith)
            requires
                q >= 0,
                r >= 0,
        ;
    } else {
        assert(0int * 0int <= 0int * 0int) by (nonlinear_arith);
    }
}

proof fn lemma_cauchy_step(p: int, q: int, r: int, u: int, v: int)
    requires
        p * p <= q * r,
        q >= 0,
        r >= 0,
    ensures
        (p + u * v) * (p + u * v) <= (q + u * u) * (r + v * v),
{
    // It remains that twice p u v is at most q v v + r u u.
    let w = u * v;
    let g = q * (v * v);
    let h = r * (u * u);
    assert(g >= 0 && h >= 0) by (nonlinear_arith)
        requires
            q >= 0,
            r >= 0,
            g == q * (v * v),
            h == r * (u * u),
    ;
    assert(g * h == (q * r) * (w * w)) by (nonlinear_arith)
        requires
            g == q * (v * v),
            h == r * (u * u),
            w == u * v,
    ;
    assert((p * w) * (p * w) <= g * h) by (nonlinear_arith)
        requires
            g * h == (q * r) * (w * w),
            p * p <= q * r,
            w * w >= 0 || w * w <= 0,
    {
        assert((p * w) * (p * w) == (p * p) * (w * w)) by (nonlinear_arith);
        assert(w * w >= 0) by (nonlinear_arith);
        assert((p * p) * (w * w) <= (q * r) * (w * w)) by (nonlinear_arith)
            requires
                p * p <= q * r,
                w * w >= 0,
        ;
    }
    let z = p * w;
    assert(2 * z <= g + h) by (nonlinear_arith)
        requires
            z * z <= g * h,
            g >= 0,
            h >= 0,
    {
        if 2 * z > g + h {
            assert((g + h) * (g + h) < (2 * z) * (2 * z)) by (nonlinear_arith)
                requires
                    2 * z > g + h,
                    g + h >= 0,
            ;
            assert((2 * z) * (2 * z) == 4 * (z * z)) by (nonlinear_arith);
            assert((g + h) * (g + h) == (g - h) * (g - h) + 4 * (g * h)) by (nonlinear_arith);
            assert((g - h) * (g - h) >= 0) by (nonlinear_arith);
        }
    }
    assert((p + w) * (p + w) == p * p + 2 * (p * w) + w * w) by (nonlinear_arith);
    assert((q + u * u) * (r + v * v) == q * r + q * (v * v) + r * (u * u) + (u * u) * (v * v))
        by (nonlinear_arith);
    assert(w * w == (u * u) * (v * v)) by (nonlinear_arith)
        requires
            w == u * v,
    ;
}

/// The covariance is bounded by the variances, so that the coefficient lies
/// between minus one and one.
pub proof fn coefficients_are_bounded(x: Seq<int>, y: Seq<int>)
    requires
        x.len() == y.len(),
    ensures
        covariance(x, y) * covariance(x, y) <= covariance(x, x) * covariance(y, y),
        covariance(x, x) >= 0,
        covariance(y, y) >= 0,
{
    let n = x.len() as int;
    let s = sum(x);
    let t = sum(y);
    let a = shifted(x, n, s);
    let b = shifted(y, n, t);
    lemma_shifted_dot(x, y, n, s, t);
    lemma_shifted_dot(x, x, n, s, s);
    lemma_shifted_dot(y, y, n, t, t);
    lemma_cauchy_schwarz(a, b);
    lemma_centred(n, dot(x, y), s, t, dot(a, b));
    lemma_centred(n, dot(x, x), s, s, dot(a, a));
    lemma_centred(n, dot(y, y), t, t, dot(b, b));
    let c = covariance(x, y);
    let va = covariance(x, x);
    let vb = covariance(y, y);
    if n > 0 {
        assert(c * c <= va * vb && va >= 0 && vb >= 0) by (nonlinear_arith)
            requires
                n > 0,
                (n * c) * (n * c) <= (n * va) * (n * vb),
                n * va >= 0,
                n * vb >= 0,
        ;
    } else {
        assert(c == 0 && va == 0 && vb == 0) by {
            assert(x =~= Seq::empty());
            assert(y =~= Seq::empty());
            assert(0int * dot(x, y) - 0int * 0int == 0) by (nonlinear_arith);
        }
        assert(c * c <= va * vb) by (nonlinear_arith)
            requires
                c == 0,
                va == 0,
                vb == 0,
        ;
    }
}

proof fn lemma_centred(n: int, d: int, s: int, t: int, r: int)
    requires
        r == n * n * d - n * t * s - n * s * t + n * (s * t),
    ensures
        r == n * (n * d - s * t),
{
    assert(n * n * d - n * t * s - n * s * t + n * (s * t) == n * (n * d - s * t))
        by (nonlinear_arith);
}

/// The order of the vectors does not matter.
pub proof fn covariance_is_symmetric(x: Seq<int>, y: Seq<int>)
    requires
        x.len() == y.len(),
    ensures
        covariance(x, y) == covariance(y, x),
{
    lemma_dot_commutes(x, y);
    let s = sum(x);
    let t = sum(y);
    assert(s * t == t * s) by (nonlinear_arith);
}

/// Vectors whose ranks run against each other, one falling by what the other
/// rises, correlate in full, with the other sign.
pub proof fn reversed_ranks_correlate_inversely(x: Seq<int>, top: int)
    ensures
        covariance(x, x.map_values(|v: int| top - v)) == -covariance(x, x),
        covariance(x.map_values(|v: int| top - v), x.map_values(|v: int| top - v)) == covariance(
            x,
            x,
        ),
{
    let y = x.map_values(|v: int| top - v);
    lemma_reversed(x, top);
    let n = x.len() as int;
    let s = sum(x);
    let d = dot(x, x);
    assert(n * (top * s - d) - s * (n * top - s) == -(n * d - s * s)) by (nonlinear_arith);
    assert(n * (n * (top * top) - 2 * (top * s) + d) - (n * top - s) * (n * top - s) == n * d - s
        * s) by (nonlinear_arith);
}

proof fn lemma_reversed(x: Seq<int>, top: int)
    ensures
        sum(x.map_values(|v: int| top - v)) == x.len() * top - sum(x),
        dot(x, x.map_values(|v: int| top - v)) == top * sum(x) - dot(x, x),
        dot(x.map_values(|v: int| top - v), x.map_values(|v: int| top - v)) == x.len() * (top * top)
            - 2 * (top * sum(x)) + dot(x, x),
    decreases x.len(),
{
    let f = |v: int| top - v;
    let y = x.map_values(f);
    if x.len() > 0 {
        let p = x.drop_last();
        assert(y.drop_last() =~= p.map_values(f));
        lemma_reversed(p, top);
        let n = p.len() as int;
        let s = sum(p);
        let d = dot(p, p);
        let u = x.last();
        assert(y.last() == top - u);
        assert(n * top - s + (top - u) == (n + 1) * top - (s + u)) by (nonlinear_arith);
        assert(top * s - d + u * (top - u) == top * (s + u) - (d + u * u)) by (nonlinear_arith);
        assert(n * (top * top) - 2 * (top * s) + d + (top - u) * (top - u) == (n + 1) * (top * top)
            - 2 * (top * (s + u)) + (d + u * u)) by (nonlinear_arith);
    } else {
        let n = x.len() as int;
        let s = sum(x);
        assert(n * top == 0 && top * s == 0 && n * (top * top) == 0) by (nonlinear_arith)
            requires
                n == 0,
                s == 0,
        ;
    }
}

/// The moments of the ranks of two vectors, cut to their common length.
pub fn spearman_rank_correlation(a: &[u64], b: &[u64]) -> (c: Correlation)
    requires
        moments_fit(shared_length(a@, b@) as int),
    ensures
        is_correlation(c, a@, b@),
{
    let n: usize = if a.len() <= b.len() {
        a.len()
    } else {
        b.len()
    };
    if n < 2 {
        return if n == 1 && a[0] == b[0] {
            Correlation { cov: 1, var_a: 1, var_b: 1 }
        } else {
            Correlation { cov: 0, var_a: 0, var_b: 0 }
        };
    }
    let first = vstd::slice::slice_subrange(a, 0, n);
    let second = vstd::slice::slice_subrange(b, 0, n);
    proof {
        let m = 2 * n + 1;
        lemma_squares_small(n as int, m, 0, 0);
        assert(m <= u64::MAX) by (nonlinear_arith)
            requires
                0 <= m,
                m * m <= i128::MAX,
        ;
    }
    let ranks_a = doubled_ranks(first);
    let ranks_b = doubled_ranks(second);
    let ghost x = rank_vector(first@);
    let ghost y = rank_vector(second@);
    let ghost m = 2 * n + 1;
    let mut sa: u128 = 0;
    let mut sb: u128 = 0;
    let mut saa: u128 = 0;
    let mut sbb: u128 = 0;
    let mut sab: u128 = 0;
    proof {
        assert(first@ =~= a@.take(n as int));
        assert(second@ =~= b@.take(n as int));
        lemma_rank_vector_bounded(first@);
        lemma_rank_vector_bounded(second@);
        assert(x.take(0) =~= Seq::empty());
        assert(y.take(0) =~= Seq::empty());
    }
    let mut i: usize = 0;
    while i < n
        invariant
            2 <= n,
            moments_fit(n as int),
            i <= n,
            ranks_a@.len() == n,
            ranks_b@.len() == n,
            x.len() == n,
            y.len() == n,
            m == 2 * n + 1,
            bounded(x, m),
            bounded(y, m),
            forall|k: int| 0 <= k < n ==> #[trigger] ranks_a@[k] == x[k],
            forall|k: int| 0 <= k < n ==> #[trigger] ranks_b@[k] == y[k],
            sa == sum(x.take(i as int)),
            sb == sum(y.take(i as int)),
            saa == dot(x.take(i as int), x.take(i as int)),
            sbb == dot(y.take(i as int), y.take(i as int)),
            sab == dot(x.take(i as int), y.take(i as int)),
        decreases n - i,
    {
        let u: u128 = ranks_a[i] as u128;
        let v: u128 = ranks_b[i] as u128;
        proof {
            assert(x.take(i + 1).drop_last() =~= x.take(i as int));
            assert(y.take(i + 1).drop_last() =~= y.take(i as int));
            assert(x.take(i + 1).last() == u);
            assert(y.take(i + 1).last() == v);
            lemma_prefix_small(x, y, m, i + 1, n as int);
            lemma_prefix_small(x, x, m, i + 1, n as int);
            lemma_prefix_small(y, y, m, i + 1, n as int);
            lemma_prefix_small(x, y, m, i as int, n as int);
            lemma_prefix_small(x, x, m, i as int, n as int);
            lemma_prefix_small(y, y, m, i as int, n as int);
            assert(x[i as int] == u && y[i as int] == v);
            lemma_squares_small(n as int, m, u as int, v as int);
        }
        sa = sa + u;
        sb = sb + v;
        saa = saa + u * u;
        sbb = sbb + v * v;
        sab = sab + u * v;
        i = i + 1;
    }
    proof {
        assert(x.take(n as int) =~= x);
        assert(y.take(n as int) =~= y);
        lemma_prefix_small(x, y, m, n as int, n as int);
        lemma_prefix_small(x, x, m, n as int, n as int);
        lemma_prefix_small(y, y, m, n as int, n as int);
        coefficients_are_bounded(x, y);
    }
    let len: u128 = n as u128;
    proof {
        lemma_products_small(n as int, m, sab as int, sa as int, sb as int);
        lemma_products_small(n as int, m, saa as int, sa as int, sa as int);
        lemma_products_small(n as int, m, sbb as int, sb as int, sb as int);
    }
    let cov: i128 = (len * sab) as i128 - (sa * sb) as i128;
    let var_a: u128 = len * saa - sa * sa;
    let var_b: u128 = len * sbb - sb * sb;
    Correlation { cov, var_a, var_b }
}

proof fn lemma_prefix_small(x: Seq<int>, y: Seq<int>, m: int, i: int, n: int)
    requires
        x.len() == n,
        y.len() == n,
        0 <= i <= n,
        m == 2 * n + 1,
        bounded(x, m),
        bounded(y, m),
    ensures
        0 <= sum(x.take(i)) <= n * m,
        0 <= sum(y.take(i)) <= n * m,
        0 <= dot(x.take(i), y.take(i)) <= n * (m * m),
{
    let p = x.take(i);
    let q = y.take(i);
    assert forall|k: int| 0 <= k < p.len() implies 0 <= #[trigger] p[k] <= m by {
        assert(p[k] == x[k]);
    }
    assert forall|k: int| 0 <= k < q.len() implies 0 <= #[trigger] q[k] <= m by {
        assert(q[k] == y[k]);
    }
    lemma_moments_bounded(p, q, m);
    let k = m * m;
    assert(k >= 0) by (nonlinear_arith)
        requires
            k == m * m,
    ;
    assert(i * m <= n * m) by (nonlinear_arith)
        requires
            0 <= i <= n,
            0 <= m,
    ;
    assert(i * k <= n * k) by (nonlinear_arith)
        requires
            0 <= i <= n,
            0 <= k,
    ;
}

proof fn lemma_products_small(n: int, m: int, d: int, s: int, t: int)
    requires
        0 <= n,
        m == 2 * n + 1,
        moments_fit(n),
        0 <= d <= n * (m * m),
        0 <= s <= n * m,
        0 <= t <= n * m,
    ensures
        0 <= n * d <= i128::MAX,
        0 <= s * t <= i128::MAX,
{
    let k = m * m;
    let e = n * m;
    assert(0 <= n * d <= n * (n * k)) by (nonlinear_arith)
        requires
            0 <= n,
            0 <= d <= n * k,
    ;
    assert(n * (n * k) == n * n * k) by (nonlinear_arith);
    assert(0 <= s * t <= e * e) by (nonlinear_arith)
        requires
            0 <= s <= e,
            0 <= t <= e,
    ;
    assert(e * e == n * n * k) by (nonlinear_arith)
        requires
            e == n * m,
            k == m * m,
    ;
}

/// A product of two ranks, and the sums of such products, fit.
proof fn lemma_squares_small(n: int, m: int, u: int, v: int)
    requires
        1 <= n,
        m == 2 * n + 1,
        moments_fit(n),
        0 <= u <= m,
        0 <= v <= m,
    ensures
        0 <= u * v <= m * m,
        0 <= u * u <= m * m,
        0 <= v * v <= m * m,
        m * m <= i128::MAX,
        n * m <= i128::MAX,
        n * (m * m) <= i128::MAX,
{
    let k = m * m;
    assert(0 <= u * v <= k && 0 <= u * u <= k && 0 <= v * v <= k && m <= k) by (nonlinear_arith)
        requires
            0 <= u <= m,
            0 <= v <= m,
            1 <= m,
            k == m * m,
    ;
    assert(k <= n * k) by (nonlinear_arith)
        requires
            1 <= n,
            0 <= k,
    ;
    assert(n * k <= n * n * k) by (nonlinear_arith)
        requires
            1 <= n,
            0 <= k,
    ;
    assert(n * m <= n * k) by (nonlinear_arith)
        requires
            1 <= n,
            m <= k,
    ;
}

proof fn lemma_same_counts(a: Seq<u64>, b: Seq<u64>, v: u64, w: u64)
    requires
        a.len() == b.len(),
        forall|j: int| 0 <= j < a.len() ==> (#[trigger] a[j] > v) == (b[j] > w),
        forall|j: int| 0 <= j < a.len() ==> (#[trigger] a[j] == v) == (b[j] == w),
    ensures
        greater(a, v) == greater(b, w),
        equal(a, v) == equal(b, w),
    decreases a.len(),
{
    if a.len() > 0 {
        let p = a.drop_last();
        let q = b.drop_last();
        assert forall|j: int| 0 <= j < p.len() implies (#[trigger] p[j] > v) == (q[j] > w) && (p[j]
            == v) == (q[j] == w) by {
            assert(p[j] == a[j]);
        }
        lemma_same_counts(p, q, v, w);
        assert((a[a.len() - 1] > v) == (b[a.len() - 1] > w));
    }
}

proof fn lemma_opposite_counts(a: Seq<u64>, b: Seq<u64>, v: u64, w: u64)
    requires
        a.len() == b.len(),
        forall|j: int| 0 <= j < a.len() ==> (#[trigger] a[j] > v) == (b[j] < w),
        forall|j: int| 0 <= j < a.len() ==> (#[trigger] a[j] == v) == (b[j] == w),
    ensures
        greater(a, v) + equal(a, v) + greater(b, w) == a.len(),
        equal(a, v) == equal(b, w),
    decreases a.len(),
{
    if a.len() > 0 {
        let p = a.drop_last();
        let q = b.drop_last();
        assert forall|j: int| 0 <= j < p.len() implies (#[trigger] p[j] > v) == (q[j] < w) && (p[j]
            == v) == (q[j] == w) by {
            assert(p[j] == a[j]);
        }
        lemma_opposite_counts(p, q, v, w);
        assert((a[a.len() - 1] > v) == (b[a.len() - 1] < w));
    }
}

/// Two vectors order their places alike.
pub open spec fn ordered_alike(a: Seq<u64>, b: Seq<u64>) -> bool {
    a.len() == b.len() && forall|i: int, j: int|
        0 <= i < a.len() && 0 <= j < a.len() ==> (#[trigger] a[i] < #[trigger] a[j]) == (b[i]
            < b[j])
}

/// Two vectors order their places in opposite ways.
pub open spec fn ordered_oppositely(a: Seq<u64>, b: Seq<u64>) -> bool {
    a.len() == b.len() && forall|i: int, j: int|
        0 <= i < a.len() && 0 <= j < a.len() ==> (#[trigger] a[i] < #[trigger] a[j]) == (b[i]
            > b[j])
}

/// Vectors that order their places alike correlate in full: the covariance
/// and both variances are the same.
pub proof fn alike_orders_correlate_in_full(c: Correlation, a: Seq<u64>, b: Seq<u64>)
    requires
        is_correlation(c, a, b),
        ordered_alike(a, b),
        a.len() >= 2,
    ensures
        c.cov == c.var_a,
        c.var_a == c.var_b,
{
    let n = shared_length(a, b);
    assert(a.take(n) =~= a);
    assert(b.take(n) =~= b);
    assert forall|i: int| 0 <= i < n implies rank_vector(a)[i] == rank_vector(b)[i] by {
        assert forall|j: int| 0 <= j < a.len() implies (#[trigger] a[j] > a[i]) == (b[j] > b[i])
            && (a[j] == a[i]) == (b[j] == b[i]) by {
            assert((a[i] < a[j]) == (b[i] < b[j]));
            assert((a[j] < a[i]) == (b[j] < b[i]));
        }
        lemma_same_counts(a, b, a[i], b[i]);
    }
    assert(rank_vector(a) =~= rank_vector(b));
}

/// Vectors that order their places in opposite ways correlate in full with
/// the other sign.
pub proof fn opposite_orders_correlate_inversely(c: Correlation, a: Seq<u64>, b: Seq<u64>)
    requires
        is_correlation(c, a, b),
        ordered_oppositely(a, b),
        a.len() >= 2,
    ensures
        c.cov == -(c.var_a as int),
        c.var_a == c.var_b,
{
    let n = shared_length(a, b);
    assert(a.take(n) =~= a);
    assert(b.take(n) =~= b);
    let x = rank_vector(a);
    let top = 2 * (n + 1);
    assert forall|i: int| 0 <= i < n implies rank_vector(b)[i] == top - x[i] by {
        assert forall|j: int| 0 <= j < a.len() implies (#[trigger] a[j] > a[i]) == (b[j] < b[i])
            && (a[j] == a[i]) == (b[j] == b[i]) by {
            assert((a[i] < a[j]) == (b[i] > b[j]));
            assert((a[j] < a[i]) == (b[j] > b[i]));
        }
        lemma_opposite_counts(a, b, a[i], b[i]);
    }
    assert(rank_vector(b) =~= x.map_values(|v: int| top - v));
    reversed_ranks_correlate_inversely(x, top);
}

/// The moments of two vectors keep the coefficient between minus one and one.
pub proof fn correlations_are_bounded(c: Correlation, a: Seq<u64>, b: Seq<u64>)
    requires
        is_correlation(c, a, b),
    ensures
        c.cov * c.cov <= c.var_a * c.var_b,
{
    let n = shared_length(a, b);
    if n >= 2 {
        coefficients_are_bounded(rank_vector(a.take(n)), rank_vector(b.take(n)));
    } else {
        assert(0int * 0int <= 0int * 0int && 1int * 1int <= 1int * 1int);
    }
}

/// Exchanging the vectors exchanges the variances.
pub proof fn correlation_is_symmetric(c: Correlation, a: Seq<u64>, b: Seq<u64>)
    requires
        is_correlation(c, a, b),
    ensures
        is_correlation((Correlation { cov: c.cov, var_a: c.var_b, var_b: c.var_a }), b, a),
{
    let n = shared_length(a, b);
    if n >= 2 {
        covariance_is_symmetric(rank_vector(a.take(n)), rank_vector(b.take(n)));
    }
}

/// A number times its size.
pub open spec fn signed_square(x: int) -> int {
    if x < 0 {
        -(x * x)
    } else {
        x * x
    }
}

/// The numerator of the coefficient's signed square, over the second
/// variance; zero where the coefficient is.
pub open spec fn level_over(c: Correlation) -> int {
    if c.var_a == 0 || c.var_b == 0 {
        0
    } else {
        signed_square(c.cov as int)
    }
}

/// The denominator of the coefficient's signed square; one where the
/// coefficient is zero.
pub open spec fn level_under(c: Correlation) -> int {
    if c.var_a == 0 || c.var_b == 0 {
        1
    } else {
        c.var_b as int
    }
}

/// Of two correlations with one first vector, the first has the higher
/// coefficient.
pub open spec fn stronger(c: Correlation, d: Correlation) -> bool {
    level_over(c) * level_under(d) > level_over(d) * level_under(c)
}

/// The largest moments of vectors with one entry for each register.
pub const LARGEST_MOMENT: u128 = 4_402_342_526_976;

/// Moments no larger than those of vectors with one entry for each register.
pub open spec fn small_moments(c: Correlation) -> bool {
    -(LARGEST_MOMENT as int) <= c.cov <= LARGEST_MOMENT && c.var_a <= LARGEST_MOMENT && c.var_b
        <= LARGEST_MOMENT
}

/// The moments of vectors with one entry for each register are small.
pub proof fn lemma_small_moments(c: Correlation, a: Seq<u64>, b: Seq<u64>)
    requires
        is_correlation(c, a, b),
        a.len() == 1024,
        b.len() == 1024,
    ensures
        small_moments(c),
{
    assert(a.take(1024) =~= a);
    assert(b.take(1024) =~= b);
    let x = rank_vector(a);
    let y = rank_vector(b);
    lemma_rank_vector_bounded(a);
    lemma_rank_vector_bounded(b);
    lemma_moments_bounded(x, y, 2049);
    lemma_moments_bounded(x, x, 2049);
    lemma_moments_bounded(y, y, 2049);
    assert((1024int * 2049int) * (1024int * 2049int) == LARGEST_MOMENT);
}

/// Being stronger carries over.
pub proof fn lemma_stronger_chains(c: Correlation, d: Correlation, e: Correlation)
    requires
        !stronger(d, c),
        !stronger(e, d),
    ensures
        !stronger(e, c),
        stronger(c, d) || stronger(d, e) ==> stronger(c, e),
{
    let (cn, cd) = (level_over(c), level_under(c));
    let (dn, dd) = (level_over(d), level_under(d));
    let (en, ed) = (level_over(e), level_under(e));
    assert(cn * ed >= en * cd) by (nonlinear_arith)
        requires
            cn * dd >= dn * cd,
            dn * ed >= en * dd,
            cd > 0,
            dd > 0,
            ed > 0,
    {
        assert((cn * dd) * ed >= (dn * cd) * ed) by (nonlinear_arith)
            requires
                cn * dd >= dn * cd,
                ed > 0,
        ;
        assert((dn * ed) * cd >= (en * dd) * cd) by (nonlinear_arith)
            requires
                dn * ed >= en * dd,
                cd > 0,
        ;
        assert((cn * ed) * dd >= (en * cd) * dd) by (nonlinear_arith)
            requires
                (cn * dd) * ed >= (dn * cd) * ed,
                (dn * ed) * cd >= (en * dd) * cd,
        ;
        assert(cn * ed >= en * cd) by (nonlinear_arith)
            requires
                (cn * ed) * dd >= (en * cd) * dd,
                dd > 0,
        ;
    }
    if stronger(c, d) || stronger(d, e) {
        assert(cn * ed > en * cd) by (nonlinear_arith)
            requires
                cn * dd >= dn * cd,
                dn * ed >= en * dd,
                cn * dd > dn * cd || dn * ed > en * dd,
                cd > 0,
                dd > 0,
                ed > 0,
        {
            assert((cn * dd) * ed >= (dn * cd) * ed) by (nonlinear_arith)
                requires
                    cn * dd >= dn * cd,
                    ed > 0,
            ;
            assert((dn * ed) * cd >= (en * dd) * cd) by (nonlinear_arith)
                requires
                    dn * ed >= en * dd,
                    cd > 0,
            ;
            if cn * dd > dn * cd {
                assert((cn * dd) * ed > (dn * cd) * ed) by (nonlinear_arith)
                    requires
                        cn * dd > dn * cd,
                        ed > 0,
                ;
            } else {
                assert((dn * ed) * cd > (en * dd) * cd) by (nonlinear_arith)
                    requires
                        dn * ed > en * dd,
                        cd > 0,
                ;
            }
            assert((cn * ed) * dd > (en * cd) * dd) by (nonlinear_arith)
                requires
                    (cn * dd) * ed >= (dn * cd) * ed,
                    (dn * ed) * cd >= (en * dd) * cd,
                    (cn * dd) * ed > (dn * cd) * ed || (dn * ed) * cd > (en * dd) * cd,
            ;
            assert(cn * ed > en * cd) by (nonlinear_arith)
                requires
                    (cn * ed) * dd > (en * cd) * dd,
                    dd > 0,
            ;
        }
    }
}

/// Whether the first of two correlations with one first vector has the higher
/// coefficient.
pub fn is_stronger(c: &Correlation, d: &Correlation) -> (r: bool)
    requires
        small_moments(*c),
        small_moments(*d),
    ensures
        r == stronger(*c, *d),
{
    let cn: i128 = over(c);
    let cd: i128 = under(c);
    let dn: i128 = over(d);
    let dd: i128 = under(d);
    proof {
        lemma_levels_fit(cn as int, dd as int);
        lemma_levels_fit(dn as int, cd as int);
    }
    cn * dd > dn * cd
}

proof fn lemma_levels_fit(n: int, d: int)
    requires
        -(LARGEST_MOMENT * LARGEST_MOMENT) <= n <= LARGEST_MOMENT * LARGEST_MOMENT,
        1 <= d <= LARGEST_MOMENT,
    ensures
        i128::MIN <= n * d <= i128::MAX,
{
    let m: int = LARGEST_MOMENT as int;
    let k: int = m * m;
    assert(-(k * m) <= n * d <= k * m) by (nonlinear_arith)
        requires
            -k <= n <= k,
            1 <= d <= m,
    ;
    assert(k * m <= i128::MAX);
}

fn over(c: &Correlation) -> (r: i128)
    requires
        small_moments(*c),
    ensures
        r == level_over(*c),
        -(LARGEST_MOMENT * LARGEST_MOMENT) <= r <= LARGEST_MOMENT * LARGEST_MOMENT,
{
    let x: i128 = c.cov;
    proof {
        let m: int = LARGEST_MOMENT as int;
        assert(0 <= x * x <= m * m) by (nonlinear_arith)
            requires
                -m <= x <= m,
        ;
        assert(m * m <= i128::MAX);
    }
    if c.var_a == 0 || c.var_b == 0 {
        0
    } else if x < 0 {
        -(x * x)
    } else {
        x * x
    }
}

fn under(c: &Correlation) -> (r: i128)
    requires
        small_moments(*c),
    ensures
        r == level_under(*c),
        1 <= r <= LARGEST_MOMENT,
{
    if c.var_a == 0 || c.var_b == 0 {
        1
    } else {
        c.var_b as i128
    }
}

/// Of two correlations with the same variances, neither of them zero, the one
/// with the larger covariance is the stronger; a positive one is stronger than
/// a negative one whatever the variances.
pub proof fn larger_covariances_are_stronger(c: Correlation, d: Correlation)
    requires
        c.var_a > 0,
        c.var_b > 0,
        d.var_a > 0,
        d.var_b > 0,
    ensures
        c.var_b == d.var_b ==> (stronger(c, d) <==> c.cov > d.cov),
        c.cov > 0 && d.cov < 0 ==> stronger(c, d) && !stronger(d, c),
{
    let x = c.cov as int;
    let y = d.cov as int;
    let u = c.var_b as int;
    let w = d.var_b as int;
    if u == w {
        assert(signed_square(x) > signed_square(y) <==> x > y) by {
            lemma_signed_square(x, y);
            lemma_signed_square(y, x);
        }
        let p = signed_square(x);
        let q = signed_square(y);
        assert((p * u > q * u) == (p > q)) by (nonlinear_arith)
            requires
                u > 0,
        ;
    }
    if x > 0 && y < 0 {
        let p = signed_square(x);
        let q = signed_square(y);
        assert(p > 0 && q < 0) by {
            assert(x * x > 0) by (nonlinear_arith)
                requires
                    x > 0,
            ;
            assert(y * y > 0) by (nonlinear_arith)
                requires
                    y < 0,
            ;
        }
        assert(p * w > 0 && q * u < 0) by (nonlinear_arith)
            requires
                p > 0,
                q < 0,
                u > 0,
                w > 0,
        ;
    }
}

proof fn lemma_signed_square(x: int, y: int)
    ensures
        x > y ==> signed_square(x) > signed_square(y),
{
    if x > y {
        assert(y >= 0 ==> x * x > y * y) by (nonlinear_arith)
            requires
                x > y,
        ;
        assert(x < 0 ==> x * x < y * y) by (nonlinear_arith)
            requires
                x > y,
        ;
        assert(y < 0 ==> y * y > 0) by (nonlinear_arith);
        assert(x * x >= 0) by (nonlinear_arith);
    }
}

proof fn lemma_greater_counts(values: Seq<u64>, a: u64, b: u64)
    requires
        a > b,
    ensures
        greater(values, a) + equal(values, a) <= greater(values, b),
    decreases values.len(),
{
    if values.len() > 0 {
        lemma_greater_counts(values.drop_last(), a, b);
    }
}

proof fn lemma_equal_counts(values: Seq<u64>, i: int)
    requires
        0 <= i < values.len(),
    ensures
        equal(values, values[i]) >= 1,
    decreases values.len(),
{
    if i < values.len() - 1 {
        lemma_equal_counts(values.drop_last(), i);
    }
}

/// Higher values rank before lower ones, and equal values share a rank.
pub proof fn higher_values_rank_first(values: Seq<u64>, i: int, j: int)
    requires
        0 <= i < values.len(),
        0 <= j < values.len(),
    ensures
        rank_vector(values)[i] < rank_vector(values)[j] <==> values[i] > values[j],
        rank_vector(values)[i] == rank_vector(values)[j] <==> values[i] == values[j],
{
    lemma_equal_counts(values, i);
    lemma_equal_counts(values, j);
    if values[i] > values[j] {
        lemma_greater_counts(values, values[i], values[j]);
    }
    if values[j] > values[i] {
        lemma_greater_counts(values, values[j], values[i]);
    }
}

} // verus!
