//! Exact integer helpers shared by the geometry and the solver: clamping,
//! truncated products-over-quotients, integer square roots, and sums and
//! truncated averages of sample sequences.

use vstd::prelude::*;

verus! {

use vstd::arithmetic::div_mod::lemma_div_is_ordered;
use vstd::arithmetic::div_mod::lemma_div_multiples_vanish;
use vstd::arithmetic::div_mod::lemma_div_pos_is_pos;

/// `v` forced into the interval `[lo, hi]`.
pub open spec fn clamp_to(v: int, lo: int, hi: int) -> int {
    if v < lo {
        lo
    } else if v > hi {
        hi
    } else {
        v
    }
}

/// `v` lies between `a` and `b`, whichever order they come in.
pub open spec fn lies_between(v: int, a: int, b: int) -> bool {
    (a <= v <= b) || (b <= v <= a)
}

/// Truncated `(a * b) / d`, intended for `a >= 0` and `d > 0`: the quotient of
/// the product, rounded towards zero.
pub open spec fn scale_to(a: int, b: int, d: int) -> int {
    if b >= 0 {
        (a * b) / d
    } else {
        -((a * (-b)) / d)
    }
}

/// Truncated quotient `s / n`, rounded towards zero, intended for `n > 0`.
pub open spec fn div_trunc(s: int, n: int) -> int {
    if s >= 0 {
        s / n
    } else {
        -((-s) / n)
    }
}

/// The product of values bounded in magnitude is bounded by the product of the
/// bounds.
pub proof fn lemma_mul_bounds(a: int, b: int, aa: int, bb: int)
    by (nonlinear_arith)
    requires
        -aa <= a <= aa,
        -bb <= b <= bb,
    ensures
        -(aa * bb) <= a * b <= aa * bb,
{
}

/// For a weight `a` between `0` and `d`, scaling keeps the result between `0`
/// and `b`.
pub proof fn lemma_scale_to_bounds(a: int, b: int, d: int)
    requires
        0 <= a <= d,
        0 < d,
    ensures
        lies_between(scale_to(a, b, d), 0, b),
{
    if b >= 0 {
        lemma_mul_bounds(a, b, d, b);
        assert(a * b <= d * b) by (nonlinear_arith)
            requires 0 <= a <= d && 0 <= b;
        assert(0 <= a * b) by (nonlinear_arith)
            requires 0 <= a && 0 <= b;
        lemma_div_is_ordered(a * b, d * b, d);
        lemma_div_multiples_vanish(b, d);
        assert((d * b) / d == b);
        lemma_div_pos_is_pos(a * b, d);
    } else {
        let nb = -b;
        assert(a * nb <= d * nb) by (nonlinear_arith)
            requires 0 <= a <= d && 0 <= nb;
        assert(0 <= a * nb) by (nonlinear_arith)
            requires 0 <= a && 0 <= nb;
        lemma_div_is_ordered(a * nb, d * nb, d);
        lemma_div_multiples_vanish(nb, d);
        lemma_div_pos_is_pos(a * nb, d);
    }
}

/// For `b` at most `k` times the divisor in magnitude, the scaled value is at
/// most `k` times the weight in magnitude.
pub proof fn lemma_scale_to_magnitude(a: int, b: int, d: int, k: int)
    requires
        0 <= a,
        0 < d,
        0 <= k,
        -(k * d) <= b <= k * d,
    ensures
        -(a * k) <= scale_to(a, b, d) <= a * k,
{
    if b >= 0 {
        assert(0 <= a * b <= d * (a * k)) by (nonlinear_arith)
            requires 0 <= a && 0 <= b <= k * d;
        lemma_div_is_ordered(a * b, d * (a * k), d);
        lemma_div_multiples_vanish(a * k, d);
        lemma_div_pos_is_pos(a * b, d);
        assert(0 <= a * k) by (nonlinear_arith)
            requires 0 <= a && 0 <= k;
    } else {
        let nb = -b;
        assert(0 <= a * nb <= d * (a * k)) by (nonlinear_arith)
            requires 0 <= a && 0 <= nb <= k * d;
        lemma_div_is_ordered(a * nb, d * (a * k), d);
        lemma_div_multiples_vanish(a * k, d);
        lemma_div_pos_is_pos(a * nb, d);
        assert(0 <= a * k) by (nonlinear_arith)
            requires 0 <= a && 0 <= k;
    }
}

/// Scaling by the full weight `d` reproduces `b`; scaling by weight `0`
/// gives `0`.
pub proof fn lemma_scale_to_ends(b: int, d: int)
    requires
        0 < d,
    ensures
        scale_to(d, b, d) == b,
        scale_to(0, b, d) == 0,
{
    if b >= 0 {
        lemma_div_multiples_vanish(b, d);
    } else {
        lemma_div_multiples_vanish(-b, d);
    }
    assert(0int * b == 0) by (nonlinear_arith);
    assert(0int * (-b) == 0) by (nonlinear_arith);
    assert(0int / d == 0) by {
        lemma_div_multiples_vanish(0, d);
    }
}

/// Truncated `(a * b) / d` for a non-negative `a` and a positive `d`.
pub fn mul_div_trunc(a: i128, b: i128, d: i128) -> (r: i128)
    requires
        0 <= a,
        0 < d,
        -i128::MAX <= b,
        -i128::MAX <= a * b <= i128::MAX,
    ensures
        r == scale_to(a as int, b as int, d as int),
{
    if b >= 0 {
        let p = a * b;
        let q = (p as u128) / (d as u128);
        proof {
            assert(0 <= a * b) by (nonlinear_arith)
                requires 0 <= a && 0 <= b;
            lemma_div_is_ordered(a * b, i128::MAX as int, d as int);
            lemma_div_pos_is_pos(a * b, d as int);
            assert((i128::MAX as int) / (d as int) <= i128::MAX as int) by {
                vstd::arithmetic::div_mod::lemma_div_nonincreasing(i128::MAX as int, d as int);
            }
        }
        q as i128
    } else {
        let nb = -b;
        proof {
            assert(a * nb == -(a * b) && 0 <= a * nb <= i128::MAX) by (nonlinear_arith)
                requires nb == -b && 0 <= a && -i128::MAX <= a * b <= i128::MAX && 0 <= nb;
        }
        let p = a * nb;
        let q = (p as u128) / (d as u128);
        proof {
            lemma_div_is_ordered(a * nb, i128::MAX as int, d as int);
            lemma_div_pos_is_pos(a * nb, d as int);
            assert((i128::MAX as int) / (d as int) <= i128::MAX as int) by {
                vstd::arithmetic::div_mod::lemma_div_nonincreasing(i128::MAX as int, d as int);
            }
        }
        -(q as i128)
    }
}

/// `v` forced into `[lo, hi]`.
pub fn clamp_i64(v: i64, lo: i64, hi: i64) -> (r: i64)
    requires
        lo <= hi,
    ensures
        r == clamp_to(v as int, lo as int, hi as int),
{
    if v < lo {
        lo
    } else if v > hi {
        hi
    } else {
        v
    }
}

/// `r` is the integer square root of `x`.
pub open spec fn is_isqrt(x: int, r: int) -> bool {
    &&& 0 <= r
    &&& r * r <= x
    &&& x < (r + 1) * (r + 1)
}

/// Upper bound on the inputs accepted by `isqrt`: `2^84`.
pub const ISQRT_INPUT_LIMIT: u128 = 19342813113834066795298816;

/// Integer square root by bisection.
pub fn isqrt(x: u128) -> (r: u64)
    requires
        x < ISQRT_INPUT_LIMIT,
    ensures
        is_isqrt(x as int, r as int),
        r < 4398046511104,
{
    let mut lo: u128 = 0;
    let mut hi: u128 = 4398046511104;
    proof {
        assert(4398046511104int * 4398046511104int == 19342813113834066795298816int)
            by (nonlinear_arith);
    }
    while hi - lo > 1
        invariant
            0 <= lo < hi <= 4398046511104,
            lo * lo <= x,
            x < hi * hi,
        decreases hi - lo,
    {
        let mid = lo + (hi - lo) / 2;
        assert(lo < mid < hi);
        proof {
            assert(mid * mid <= 4398046511104int * 4398046511104int) by (nonlinear_arith)
                requires 0 <= mid <= 4398046511104int;
        }
        let sq = mid * mid;
        if sq <= x {
            lo = mid;
        } else {
            hi = mid;
        }
    }
    proof {
        assert(hi == lo + 1);
    }
    lo as u64
}

/// The sum of a sequence of samples.
pub open spec fn seq_sum(s: Seq<i64>) -> int
    decreases s.len(),
{
    if s.len() == 0 {
        0
    } else {
        seq_sum(s.drop_last()) + s.last()
    }
}

/// Appending a sample adds it to the sum.
pub proof fn lemma_seq_sum_push(s: Seq<i64>, v: i64)
    ensures
        seq_sum(s.push(v)) == seq_sum(s) + v,
{
    assert(s.push(v).drop_last() =~= s);
    assert(s.push(v).last() == v);
}

/// A sequence of samples between `lo` and `hi` sums to between `len * lo` and
/// `len * hi`.
pub proof fn lemma_seq_sum_bounds(s: Seq<i64>, lo: int, hi: int)
    requires
        forall|i: int| 0 <= i < s.len() ==> lo <= #[trigger] s[i] <= hi,
    ensures
        s.len() * lo <= seq_sum(s) <= s.len() * hi,
    decreases s.len(),
{
    if s.len() == 0 {
        assert(0int * lo == 0) by (nonlinear_arith);
        assert(0int * hi == 0) by (nonlinear_arith);
    } else {
        let init = s.drop_last();
        lemma_seq_sum_bounds(init, lo, hi);
        assert(lo <= s.last() <= hi);
        assert(s.len() * lo == init.len() * lo + lo) by (nonlinear_arith)
            requires s.len() == init.len() + 1;
        assert(s.len() * hi == init.len() * hi + hi) by (nonlinear_arith)
            requires s.len() == init.len() + 1;
    }
}

/// A sequence of samples all equal to `c` sums to `len * c`.
pub proof fn lemma_seq_sum_constant(s: Seq<i64>, c: i64)
    requires
        forall|i: int| 0 <= i < s.len() ==> #[trigger] s[i] == c,
    ensures
        seq_sum(s) == s.len() * c,
    decreases s.len(),
{
    if s.len() == 0 {
        assert(0int * c == 0) by (nonlinear_arith);
    } else {
        let init = s.drop_last();
        lemma_seq_sum_constant(init, c);
        assert(s.len() * c == init.len() * c + c) by (nonlinear_arith)
            requires s.len() == init.len() + 1;
    }
}

/// The truncated average of `n` copies of `c` is `c`.
pub proof fn lemma_div_trunc_exact(n: int, c: int)
    requires
        0 < n,
    ensures
        div_trunc(n * c, n) == c,
{
    if c >= 0 {
        assert(0 <= n * c) by (nonlinear_arith)
            requires 0 < n && 0 <= c;
        lemma_div_multiples_vanish(c, n);
    } else {
        assert(n * c < 0) by (nonlinear_arith)
            requires 0 < n && c < 0;
        assert(-(n * c) == n * (-c)) by (nonlinear_arith);
        lemma_div_multiples_vanish(-c, n);
    }
}

/// A truncated average of a sum of `n` samples between `lo` and `hi` lies
/// between `lo` and `hi` itself.
pub proof fn lemma_div_trunc_bounds(s: int, n: int, lo: int, hi: int)
    requires
        0 < n,
        lo <= 0 <= hi,
        n * lo <= s <= n * hi,
    ensures
        lo <= div_trunc(s, n) <= hi,
{
    if s >= 0 {
        lemma_div_pos_is_pos(s, n);
        lemma_div_is_ordered(s, n * hi, n);
        lemma_div_multiples_vanish(hi, n);
    } else {
        assert(0 <= -s <= n * (-lo)) by (nonlinear_arith)
            requires n * lo <= s <= 0;
        lemma_div_pos_is_pos(-s, n);
        lemma_div_is_ordered(-s, n * (-lo), n);
        lemma_div_multiples_vanish(-lo, n);
    }
}

/// Truncated quotient `s / n` for a positive `n`.
pub fn div_i128_trunc(s: i128, n: i128) -> (r: i128)
    requires
        0 < n,
        -i128::MAX <= s,
    ensures
        r == div_trunc(s as int, n as int),
{
    if s >= 0 {
        let q = (s as u128) / (n as u128);
        proof {
            lemma_div_is_ordered(s as int, i128::MAX as int, n as int);
            lemma_div_pos_is_pos(s as int, n as int);
            vstd::arithmetic::div_mod::lemma_div_nonincreasing(i128::MAX as int, n as int);
        }
        q as i128
    } else {
        let m = -s;
        let q = (m as u128) / (n as u128);
        proof {
            lemma_div_is_ordered(m as int, i128::MAX as int, n as int);
            lemma_div_pos_is_pos(m as int, n as int);
            vstd::arithmetic::div_mod::lemma_div_nonincreasing(i128::MAX as int, n as int);
        }
        -(q as i128)
    }
}

} // verus!
