//! Scalar numeric utilities: exact rational values, an integer square root,
//! the quadratic-equation solver and root selection within a range.
//!
//! A `Rat` is an exact fraction with a positive denominator; a square root is
//! taken as the integer floor, so the solver's contract pins each returned
//! root to `(-b +- r) / (2 a)` with `r` the floor square root of the
//! discriminant.  When the discriminant is a perfect square the roots satisfy
//! the quadratic exactly (`lemma_solve_roots_satisfy`).

use vstd::prelude::*;

use crate::vector::lemma_abs_mul;

verus! {

/// An exact rational number `n / d` with `d > 0`.
#[derive(Clone, Copy, Debug, PartialEq, Eq, Structural)]
pub struct Rat {
    pub n: i64,
    pub d: i64,
}

/// Well-formedness of a rational: positive denominator.
pub open spec fn rat_wf(r: Rat) -> bool {
    r.d > 0
}

/// The rationals `a` and `b` denote the same value (cross multiplication).
pub open spec fn rat_eq(a: Rat, b: Rat) -> bool {
    a.n * b.d == b.n * a.d
}

/// `a <= b` as rational values (valid when both are well-formed).
pub open spec fn rat_le(a: Rat, b: Rat) -> bool {
    a.n * b.d <= b.n * a.d
}

/// `(-x) * (-y) == x * y`.
pub proof fn lemma_mul_neg_neg(x: int, y: int)
    by (nonlinear_arith)
    ensures
        (-x) * (-y) == x * y,
{
}

/// `(-x) * y == -(x * y)`.
pub proof fn lemma_mul_neg_left(x: int, y: int)
    by (nonlinear_arith)
    ensures
        (-x) * y == -(x * y),
{
}

/// Cancel a common non-zero factor.
pub proof fn lemma_mul_cancel(x: int, y: int, k: int)
    by (nonlinear_arith)
    requires
        x * k == y * k,
        k != 0,
    ensures
        x == y,
{
}

/// A product of positive factors is positive.
pub proof fn lemma_mul_pos(x: int, y: int)
    by (nonlinear_arith)
    requires
        x > 0,
        y > 0,
    ensures
        x * y > 0,
{
}

/// A product of i64 values, computed exactly in i128.
pub fn mul64(a: i64, b: i64) -> (r: i128)
    ensures
        r == (a as int) * (b as int),
{
    proof {
        lemma_abs_mul(a as int, b as int, 0x8000000000000000, 0x8000000000000000);
    }
    (a as i128) * (b as i128)
}

impl Rat {
    /// The rational with value `v`.
    pub fn from_int(v: i64) -> (r: Rat)
        ensures
            r.n == v,
            r.d == 1,
            rat_wf(r),
    {
        Rat { n: v, d: 1 }
    }

    /// Exact value equality of two rationals.
    pub fn eq_rat(&self, o: &Rat) -> (r: bool)
        ensures
            r == rat_eq(*self, *o),
    {
        mul64(self.n, o.d) == mul64(o.n, self.d)
    }

    /// Exact `<=` on rational values.
    pub fn le(&self, o: &Rat) -> (r: bool)
        requires
            rat_wf(*self),
            rat_wf(*o),
        ensures
            r == rat_le(*self, *o),
    {
        mul64(self.n, o.d) <= mul64(o.n, self.d)
    }
}

/// `r` is the integer floor of the square root of `n`.
pub open spec fn is_sqrt_floor(r: int, n: int) -> bool {
    0 <= r && r * r <= n && n < (r + 1) * (r + 1)
}

/// A non-negative number has at most one floor square root.
pub proof fn lemma_sqrt_floor_unique(r1: int, r2: int, n: int)
    requires
        is_sqrt_floor(r1, n),
        is_sqrt_floor(r2, n),
    ensures
        r1 == r2,
{
    if r1 < r2 {
        assert((r1 + 1) * (r1 + 1) <= r2 * r2) by (nonlinear_arith)
            requires
                0 <= r1 + 1 <= r2,
        ;
    }
    if r2 < r1 {
        assert((r2 + 1) * (r2 + 1) <= r1 * r1) by (nonlinear_arith)
            requires
                0 <= r2 + 1 <= r1,
        ;
    }
}

/// When `n` is the perfect square of `s >= 0`, the floor square root is `s`.
pub proof fn lemma_sqrt_floor_exact(r: int, s: int, n: int)
    requires
        is_sqrt_floor(r, n),
        s >= 0,
        s * s == n,
    ensures
        r == s,
{
    assert(s * s < (s + 1) * (s + 1)) by (nonlinear_arith)
        requires
            s >= 0,
    ;
    assert(is_sqrt_floor(s, n));
    lemma_sqrt_floor_unique(r, s, n);
}

/// Integer floor square root by binary search.
pub fn isqrt(n: u64) -> (r: u64)
    ensures
        is_sqrt_floor(r as int, n as int),
{
    let mut lo: u64 = 0;
    let mut hi: u64 = 4294967296;
    proof {
        assert((4294967296 as int) * (4294967296 as int) > n as int);
    }
    while hi - lo > 1
        invariant
            lo < hi <= 4294967296,
            (lo as int) * (lo as int) <= n as int,
            (n as int) < (hi as int) * (hi as int),
        decreases hi - lo,
    {
        let mid: u64 = lo + (hi - lo) / 2;
        proof {
            lemma_abs_mul(mid as int, mid as int, 0x100000000, 0x100000000);
            assert((mid as int) * (mid as int) >= 0) by (nonlinear_arith);
        }
        if (mid as u128) * (mid as u128) <= n as u128 {
            lo = mid;
        } else {
            hi = mid;
        }
    }
    lo
}

/// Discriminant of `a x^2 + b x + c`.
pub open spec fn quad_disc(a: int, b: int, c: int) -> int {
    b * b - 4 * (a * c)
}

/// The quadratic form `a x^2 + b x + c` evaluated at the rational `n / d`
/// and cleared of denominators.
pub open spec fn quad_at(a: int, b: int, c: int, n: int, d: int) -> int {
    a * (n * n) + b * (n * d) + c * (d * d)
}

#[verifier::rlimit(60)]
proof fn lemma_quad_root_raw(a: int, b: int, c: int, r: int)
    by (nonlinear_arith)
    requires
        r * r == b * b - 4 * (a * c),
    ensures
        a * ((-b - r) * (-b - r)) + b * ((-b - r) * (2 * a)) + c * ((2 * a) * (2 * a)) == 0,
        a * ((-b + r) * (-b + r)) + b * ((-b + r) * (2 * a)) + c * ((2 * a) * (2 * a)) == 0,
{
}

/// Quadratic root law: whenever the discriminant is a perfect square `r^2`,
/// the two values `(-b - r) / (2 a)` and `(-b + r) / (2 a)` returned by
/// `solve` satisfy the quadratic exactly.
pub proof fn lemma_solve_roots_satisfy(a: int, b: int, c: int, r: int)
    requires
        r * r == quad_disc(a, b, c),
    ensures
        quad_at(a, b, c, -b - r, 2 * a) == 0,
        quad_at(a, b, c, -b + r, 2 * a) == 0,
{
    lemma_quad_root_raw(a, b, c, r);
}

/// Real roots of `a x^2 + b x + c = 0`.
///
/// Rejects a degenerate leading coefficient and a negative discriminant
/// (where the reference computation yields no real number).  Otherwise the
/// roots are `(-b -+ r) / (2 a)` with `r` the floor square root of the
/// discriminant, normalised to a positive denominator; the first root is the
/// smaller one when `a > 0`.
pub fn solve(a: i64, b: i64, c: i64) -> (r: Option<(Rat, Rat)>)
    requires
        -0x40000000 <= a <= 0x40000000,
        -0x40000000 <= b <= 0x40000000,
        -0x40000000 <= c <= 0x40000000,
    ensures
        r is None <==> (a == 0 || quad_disc(a as int, b as int, c as int) < 0),
        r matches Some(p) ==> {
            &&& rat_wf(p.0)
            &&& rat_wf(p.1)
            &&& p.0.d == p.1.d
            &&& p.0.d == (if a > 0 {
                2 * a as int
            } else {
                -(2 * a as int)
            })
            &&& exists|rt: int|
                {
                    &&& #[trigger] is_sqrt_floor(rt, quad_disc(a as int, b as int, c as int))
                    &&& p.0.n * (2 * a) == (-b - rt) * p.0.d
                    &&& p.1.n * (2 * a) == (-b + rt) * p.1.d
                }
            &&& (a > 0 ==> p.0.n <= p.1.n)
            &&& (a < 0 ==> p.1.n <= p.0.n)
        },
{
    if a == 0 {
        return None;
    }
    proof {
        lemma_abs_mul(b as int, b as int, 0x40000000, 0x40000000);
        lemma_abs_mul(a as int, c as int, 0x40000000, 0x40000000);
    }
    let d: i128 = (b as i128) * (b as i128) - 4 * ((a as i128) * (c as i128));
    if d < 0 {
        return None;
    }
    assert(0 <= d < 0x10000000000000000);
    let r64: u64 = isqrt(d as u64);
    assert(is_sqrt_floor(r64 as int, d as int));
    assert(r64 < 4294967296) by (nonlinear_arith)
        requires
            (r64 as int) * (r64 as int) <= d < 0x10000000000000000,
            r64 >= 0,
    ;
    let rr: i64 = r64 as i64;
    let n1: i64 = -b - rr;
    let n2: i64 = -b + rr;
    let d0: i64 = 2 * a;
    let ghost rt: int = rr as int;
    let out = if a > 0 {
        (Rat { n: n1, d: d0 }, Rat { n: n2, d: d0 })
    } else {
        (Rat { n: -n1, d: -d0 }, Rat { n: -n2, d: -d0 })
    };
    proof {
        assert(is_sqrt_floor(rt, quad_disc(a as int, b as int, c as int)));
        if a > 0 {
            assert(out.0.n * (2 * a) == (-b - rt) * out.0.d);
            assert(out.1.n * (2 * a) == (-b + rt) * out.1.d);
        } else {
            lemma_mul_neg_neg(-b - rt, -(2 * (a as int)));
            lemma_mul_neg_neg(-b + rt, -(2 * (a as int)));
            assert(out.0.n * (2 * a) == (-b - rt) * out.0.d);
            assert(out.1.n * (2 * a) == (-b + rt) * out.1.d);
        }
    }
    Some(out)
}

/// Real roots of `a x^2 + 2 b2 x + c = 0`, taking half the middle
/// coefficient; the reduced discriminant is `b2^2 - a c` and the roots are
/// `(-b2 -+ r) / a`.
pub fn solve2(a: i64, b2: i64, c: i64) -> (r: Option<(Rat, Rat)>)
    requires
        -0x40000000 <= a <= 0x40000000,
        -0x40000000 <= b2 <= 0x40000000,
        -0x40000000 <= c <= 0x40000000,
    ensures
        r is None <==> (a == 0 || (b2 * b2 - a * c) < 0),
        r matches Some(p) ==> {
            &&& rat_wf(p.0)
            &&& rat_wf(p.1)
            &&& p.0.d == p.1.d
            &&& p.0.d == (if a > 0 {
                a as int
            } else {
                -(a as int)
            })
            &&& exists|rt: int|
                {
                    &&& #[trigger] is_sqrt_floor(rt, b2 * b2 - a * c)
                    &&& p.0.n * (a as int) == (-b2 - rt) * p.0.d
                    &&& p.1.n * (a as int) == (-b2 + rt) * p.1.d
                }
            &&& (a > 0 ==> p.0.n <= p.1.n)
            &&& (a < 0 ==> p.1.n <= p.0.n)
        },
{
    if a == 0 {
        return None;
    }
    proof {
        lemma_abs_mul(b2 as int, b2 as int, 0x40000000, 0x40000000);
        lemma_abs_mul(a as int, c as int, 0x40000000, 0x40000000);
    }
    let d: i128 = (b2 as i128) * (b2 as i128) - (a as i128) * (c as i128);
    if d < 0 {
        return None;
    }
    assert(0 <= d < 0x10000000000000000);
    let r64: u64 = isqrt(d as u64);
    assert(is_sqrt_floor(r64 as int, d as int));
    assert(r64 < 4294967296) by (nonlinear_arith)
        requires
            (r64 as int) * (r64 as int) <= d < 0x10000000000000000,
            r64 >= 0,
    ;
    let rr: i64 = r64 as i64;
    let n1: i64 = -b2 - rr;
    let n2: i64 = -b2 + rr;
    let ghost rt: int = rr as int;
    let out = if a > 0 {
        (Rat { n: n1, d: a }, Rat { n: n2, d: a })
    } else {
        (Rat { n: -n1, d: -a }, Rat { n: -n2, d: -a })
    };
    proof {
        assert(is_sqrt_floor(rt, b2 * b2 - a * c));
        if a > 0 {
            assert(out.0.n * (a as int) == (-b2 - rt) * out.0.d);
            assert(out.1.n * (a as int) == (-b2 + rt) * out.1.d);
        } else {
            lemma_mul_neg_neg(-b2 - rt, -(a as int));
            lemma_mul_neg_neg(-b2 + rt, -(a as int));
            assert(out.0.n * (a as int) == (-b2 - rt) * out.0.d);
            assert(out.1.n * (a as int) == (-b2 + rt) * out.1.d);
        }
    }
    Some(out)
}

/// The candidate root `x` lies in the closed range `[s, e]`.
pub open spec fn in_range(x: Rat, s: Rat, e: Rat) -> bool {
    rat_le(s, x) && rat_le(x, e)
}

/// First root of the list lying in the closed range `[s, e]`, if any.
///
/// The tie-break is enumeration order, and a miss is reported as `None`
/// rather than folded into a zero value.
pub fn sol(rs: &Vec<Rat>, s: Rat, e: Rat) -> (r: Option<Rat>)
    requires
        forall|i: int| 0 <= i < rs@.len() ==> rat_wf(#[trigger] rs@[i]),
        rat_wf(s),
        rat_wf(e),
    ensures
        r is None <==> (forall|i: int| 0 <= i < rs@.len() ==> !in_range(#[trigger] rs@[i], s, e)),
        r matches Some(x) ==> exists|i: int|
            {
                &&& 0 <= i < rs@.len()
                &&& #[trigger] in_range(rs@[i], s, e)
                &&& x == rs@[i]
                &&& forall|j: int| 0 <= j < i ==> !in_range(#[trigger] rs@[j], s, e)
            },
{
    let mut i: usize = 0;
    while i < rs.len()
        invariant
            0 <= i <= rs@.len(),
            forall|i0: int| 0 <= i0 < rs@.len() ==> rat_wf(#[trigger] rs@[i0]),
            rat_wf(s),
            rat_wf(e),
            forall|j: int| 0 <= j < i ==> !in_range(#[trigger] rs@[j], s, e),
        decreases rs@.len() - i,
    {
        let x = rs[i];
        if s.le(&x) && x.le(&e) {
            proof {
                assert(in_range(rs@[i as int], s, e));
            }
            return Some(x);
        }
        i = i + 1;
    }
    None
}

} // verus!
