//! Sums over sequences of whole numbers, and the inequalities between them
//! on which the bounds of structural similarity rest.

use vstd::prelude::*;

verus! {

/// The sum of the first `k` members of `s`.
pub open spec fn sum_to(s: Seq<int>, k: int) -> int
    decreases k,
{
    if k <= 0 {
        0
    } else {
        sum_to(s, k - 1) + s[k - 1]
    }
}

/// The sum of the products of the first `k` members of `a` and `b`, place by
/// place.
pub open spec fn dot_to(a: Seq<int>, b: Seq<int>, k: int) -> int
    decreases k,
{
    if k <= 0 {
        0
    } else {
        dot_to(a, b, k - 1) + a[k - 1] * b[k - 1]
    }
}

/// The sum of all members.
pub open spec fn sum(s: Seq<int>) -> int {
    sum_to(s, s.len() as int)
}

/// The sum of the products of all members, place by place.
pub open spec fn dot(a: Seq<int>, b: Seq<int>) -> int {
    dot_to(a, b, a.len() as int)
}

/// The covariance of `a` and `b` over all their members, times the square
/// of their number: `n * sum(a[i] * b[i]) - sum(a) * sum(b)`. With `b == a`
/// it is the variance of `a`, times that square.
pub open spec fn co_moment(a: Seq<int>, b: Seq<int>) -> int {
    a.len() * dot(a, b) - sum(a) * sum(b)
}

/// Every member is a grey level.
pub open spec fn is_gray(s: Seq<int>) -> bool {
    forall|i: int| 0 <= i < s.len() ==> 0 <= #[trigger] s[i] <= 255
}

/// Sums of grey levels and of their products stay within what their number
/// allows.
pub proof fn lemma_sums_bounded(a: Seq<int>, b: Seq<int>, k: int)
    requires
        is_gray(a),
        is_gray(b),
        0 <= k <= a.len(),
        k <= b.len(),
    ensures
        0 <= sum_to(a, k) <= 255 * k,
        0 <= dot_to(a, b, k) <= 65025 * k,
    decreases k,
{
    if k > 0 {
        lemma_sums_bounded(a, b, k - 1);
        let p = a[k - 1];
        let q = b[k - 1];
        assert(0 <= p * q <= 65025) by (nonlinear_arith)
            requires
                0 <= p <= 255,
                0 <= q <= 255,
        ;
    }
}

/// Sums of products do not depend on the order of the two sequences.
pub proof fn lemma_dot_symmetric(a: Seq<int>, b: Seq<int>, k: int)
    ensures
        dot_to(a, b, k) == dot_to(b, a, k),
    decreases k,
{
    if k > 0 {
        lemma_dot_symmetric(a, b, k - 1);
        assert(a[k - 1] * b[k - 1] == b[k - 1] * a[k - 1]) by (nonlinear_arith);
    }
}

/// The squared distances of the first `k` members from any number `c` add
/// up to no less than nothing.
proof fn lemma_spread(z: Seq<int>, k: int, c: int)
    requires
        0 <= k,
    ensures
        dot_to(z, z, k) - 2 * c * sum_to(z, k) + k * (c * c) >= 0,
    decreases k,
{
    if k > 0 {
        lemma_spread(z, k - 1, c);
        let v = z[k - 1];
        let q = dot_to(z, z, k - 1);
        let s = sum_to(z, k - 1);
        assert((q + v * v) - 2 * c * (s + v) + k * (c * c) == (q - 2 * c * s + (k - 1) * (c * c))
            + (v - c) * (v - c)) by (nonlinear_arith);
        assert((v - c) * (v - c) >= 0) by (nonlinear_arith);
    } else {
        assert(2 * c * 0 == 0 && 0 * (c * c) == 0) by (nonlinear_arith);
    }
}

/// The square of a sum of `k` numbers is at most `k` times the sum of their
/// squares.
pub proof fn lemma_square_of_sum(z: Seq<int>, k: int)
    requires
        0 <= k,
    ensures
        k * dot_to(z, z, k) - sum_to(z, k) * sum_to(z, k) >= 0,
    decreases k,
{
    if k > 0 {
        lemma_square_of_sum(z, k - 1);
        let v = z[k - 1];
        let q = dot_to(z, z, k - 1);
        let s = sum_to(z, k - 1);
        lemma_spread(z, k - 1, v);
        assert(k * (q + v * v) - (s + v) * (s + v) == ((k - 1) * q - s * s) + (q - 2 * v * s + (k
            - 1) * (v * v))) by (nonlinear_arith);
    } else {
        assert(0 * dot_to(z, z, 0) == 0) by (nonlinear_arith);
    }
}

/// The members of `a` plus `t` times those of `b`, place by place.
pub open spec fn combine(a: Seq<int>, b: Seq<int>, t: int) -> Seq<int> {
    Seq::new(a.len(), |i: int| a[i] + t * b[i])
}

proof fn lemma_combine_sums(a: Seq<int>, b: Seq<int>, t: int, k: int)
    requires
        0 <= k <= a.len(),
        a.len() == b.len(),
        t == 1 || t == -1,
    ensures
        sum_to(combine(a, b, t), k) == sum_to(a, k) + t * sum_to(b, k),
        dot_to(combine(a, b, t), combine(a, b, t), k) == dot_to(a, a, k) + 2 * t * dot_to(a, b, k)
            + dot_to(b, b, k),
    decreases k,
{
    if k > 0 {
        lemma_combine_sums(a, b, t, k - 1);
        let p = a[k - 1];
        let q = b[k - 1];
        let z = combine(a, b, t);
        assert(z[k - 1] == p + t * q);
        assert((p + t * q) * (p + t * q) == p * p + 2 * t * (p * q) + q * q) by (nonlinear_arith)
            requires
                t == 1 || t == -1,
        ;
        assert(t * (sum_to(b, k - 1) + q) == t * sum_to(b, k - 1) + t * q) by (nonlinear_arith);
        assert(2 * t * (dot_to(a, b, k - 1) + p * q) == 2 * t * dot_to(a, b, k - 1) + 2 * t * (p
            * q)) by (nonlinear_arith);
    } else {
        assert(t * 0 == 0 && 2 * t * 0 == 0) by (nonlinear_arith);
    }
}

/// Variances are not negative, and twice a covariance lies between minus
/// and plus the sum of the two variances.
pub proof fn lemma_co_moment_bounds(a: Seq<int>, b: Seq<int>)
    requires
        a.len() == b.len(),
    ensures
        co_moment(a, a) >= 0,
        co_moment(b, b) >= 0,
        2 * co_moment(a, b) <= co_moment(a, a) + co_moment(b, b),
        -2 * co_moment(a, b) <= co_moment(a, a) + co_moment(b, b),
        co_moment(a, b) == co_moment(b, a),
{
    let n = a.len() as int;
    lemma_square_of_sum(a, n);
    lemma_square_of_sum(b, n);
    lemma_dot_symmetric(a, b, n);
    assert(sum(a) * sum(b) == sum(b) * sum(a)) by (nonlinear_arith);
    let sa = sum(a);
    let sb = sum(b);
    let daa = dot(a, a);
    let dbb = dot(b, b);
    let dab = dot(a, b);
    let minus = combine(a, b, -1);
    let plus = combine(a, b, 1);
    lemma_combine_sums(a, b, -1, n);
    lemma_combine_sums(a, b, 1, n);
    lemma_square_of_sum(minus, n);
    lemma_square_of_sum(plus, n);
    assert(n * (daa + 2 * (-1) * dab + dbb) - (sa + (-1) * sb) * (sa + (-1) * sb) == (n * daa - sa
        * sa) + (n * dbb - sb * sb) - 2 * (n * dab - sa * sb)) by (nonlinear_arith);
    assert(n * (daa + 2 * 1 * dab + dbb) - (sa + 1 * sb) * (sa + 1 * sb) == (n * daa - sa * sa)
        + (n * dbb - sb * sb) + 2 * (n * dab - sa * sb)) by (nonlinear_arith);
}

} // verus!
