//! Fixed-point points in two and three dimensions, and the integer vector
//! algebra (sums, cross and dot products, determinants) that the mass-property
//! engine is specified with.

use vstd::prelude::*;

verus! {

/// A 3D point: integer numerators over a denominator kept by the caller.
#[derive(Clone, Copy, Debug, PartialEq, Eq, Structural)]
pub struct V3 {
    pub x: i64,
    pub y: i64,
    pub z: i64,
}

/// A 2D point: integer numerators over a denominator kept by the caller.
#[derive(Clone, Copy, Debug, PartialEq, Eq, Structural)]
pub struct V2 {
    pub x: i64,
    pub y: i64,
}

impl V3 {
    /// The mathematical value of this point, as a triple of integers.
    pub open spec fn ints(self) -> (int, int, int) {
        (self.x as int, self.y as int, self.z as int)
    }

    pub fn new(x: i64, y: i64, z: i64) -> (r: V3)
        ensures
            r.ints() == (x as int, y as int, z as int),
    {
        V3 { x, y, z }
    }
}

impl V2 {
    /// The mathematical value of this point, as a pair of integers.
    pub open spec fn ints(self) -> (int, int) {
        (self.x as int, self.y as int)
    }

    pub fn new(x: i64, y: i64) -> (r: V2)
        ensures
            r.ints() == (x as int, y as int),
    {
        V2 { x, y }
    }
}

/// View of a vertex list as a sequence of integer triples.
pub open spec fn seq3(vs: Seq<V3>) -> Seq<(int, int, int)> {
    vs.map_values(|v: V3| v.ints())
}

/// View of a 2D point list as a sequence of integer pairs.
pub open spec fn seq2(vs: Seq<V2>) -> Seq<(int, int)> {
    vs.map_values(|v: V2| v.ints())
}

pub open spec fn zero3() -> (int, int, int) {
    (0int, 0int, 0int)
}

pub open spec fn add3(a: (int, int, int), b: (int, int, int)) -> (int, int, int) {
    (a.0 + b.0, a.1 + b.1, a.2 + b.2)
}

pub open spec fn sub3(a: (int, int, int), b: (int, int, int)) -> (int, int, int) {
    (a.0 - b.0, a.1 - b.1, a.2 - b.2)
}

pub open spec fn neg3(a: (int, int, int)) -> (int, int, int) {
    (-a.0, -a.1, -a.2)
}

/// Scale a vector by an integer factor.
pub open spec fn scl3(k: int, a: (int, int, int)) -> (int, int, int) {
    (k * a.0, k * a.1, k * a.2)
}

pub open spec fn dot3(a: (int, int, int), b: (int, int, int)) -> int {
    a.0 * b.0 + a.1 * b.1 + a.2 * b.2
}

pub open spec fn cross3(a: (int, int, int), b: (int, int, int)) -> (int, int, int) {
    (a.1 * b.2 - a.2 * b.1, a.2 * b.0 - a.0 * b.2, a.0 * b.1 - a.1 * b.0)
}

/// Scalar triple product `c . (a x b)`: the determinant with rows a, b, c.
/// Six times the signed volume of the tetrahedron (origin, a, b, c).
pub open spec fn det3(a: (int, int, int), b: (int, int, int), c: (int, int, int)) -> int {
    dot3(c, cross3(a, b))
}

/// Component-wise sum of a sequence of integer triples.
pub open spec fn sum3_seq(vs: Seq<(int, int, int)>) -> (int, int, int)
    decreases vs.len(),
{
    if vs.len() == 0 {
        zero3()
    } else {
        add3(sum3_seq(vs.drop_last()), vs.last())
    }
}

/// Component-wise sum of a sequence of integer pairs.
pub open spec fn sum2_seq(vs: Seq<(int, int)>) -> (int, int)
    decreases vs.len(),
{
    if vs.len() == 0 {
        (0int, 0int)
    } else {
        let p = sum2_seq(vs.drop_last());
        (p.0 + vs.last().0, p.1 + vs.last().1)
    }
}

/// All components of every triple lie in `[-b, b]`.
pub open spec fn bounded3(vs: Seq<(int, int, int)>, b: int) -> bool {
    forall|i: int|
        0 <= i < vs.len() ==> (-b <= #[trigger] vs[i].0 <= b && -b <= vs[i].1 <= b && -b <= vs[i].2
            <= b)
}

/// All components of a single point lie in `[-b, b]`.
pub open spec fn v3_bounded(v: V3, b: int) -> bool {
    -b <= v.x <= b && -b <= v.y <= b && -b <= v.z <= b
}

/// All components of every pair lie in `[-b, b]`.
pub open spec fn bounded2(vs: Seq<(int, int)>, b: int) -> bool {
    forall|i: int| 0 <= i < vs.len() ==> (-b <= #[trigger] vs[i].0 <= b && -b <= vs[i].1 <= b)
}

/// Absolute value of an integer.
pub open spec fn abs_i(x: int) -> int {
    if x >= 0 {
        x
    } else {
        -x
    }
}

/// Summing one more triple extends the component-wise sum.
pub proof fn lemma_sum3_push(s: Seq<(int, int, int)>, x: (int, int, int))
    ensures
        sum3_seq(s.push(x)) == add3(sum3_seq(s), x),
{
    assert(s.push(x).drop_last() =~= s);
}

/// Summing one more pair extends the component-wise sum.
pub proof fn lemma_sum2_push(s: Seq<(int, int)>, x: (int, int))
    ensures
        sum2_seq(s.push(x)).0 == sum2_seq(s).0 + x.0,
        sum2_seq(s.push(x)).1 == sum2_seq(s).1 + x.1,
{
    assert(s.push(x).drop_last() =~= s);
}

/// A prefix one longer is the prefix plus the next element.
pub proof fn lemma_take_push<A>(s: Seq<A>, i: int)
    requires
        0 <= i < s.len(),
    ensures
        s.take(i + 1) == s.take(i).push(s[i]),
{
    assert(s.take(i + 1) =~= s.take(i).push(s[i]));
}

/// Extract the component bounds of one element of a bounded sequence.
pub proof fn lemma_bounded3_at(vs: Seq<(int, int, int)>, b: int, i: int)
    requires
        bounded3(vs, b),
        0 <= i < vs.len(),
    ensures
        -b <= vs[i].0 <= b,
        -b <= vs[i].1 <= b,
        -b <= vs[i].2 <= b,
{
    assert(-b <= vs[i].0 <= b);
}

/// Extract the component bounds of one element of a bounded pair sequence.
pub proof fn lemma_bounded2_at(vs: Seq<(int, int)>, b: int, i: int)
    requires
        bounded2(vs, b),
        0 <= i < vs.len(),
    ensures
        -b <= vs[i].0 <= b,
        -b <= vs[i].1 <= b,
{
    assert(-b <= vs[i].0 <= b);
}

/// |a * b| <= x * y when |a| <= x and |b| <= y.
pub proof fn lemma_abs_mul(a: int, b: int, x: int, y: int)
    by (nonlinear_arith)
    requires
        -x <= a <= x,
        -y <= b <= y,
    ensures
        -(x * y) <= a * b <= x * y,
{
}

/// Each component of the cross product of triples bounded by `b` is bounded
/// by `2 b^2`.
pub proof fn lemma_cross3_bound(a: (int, int, int), bb: (int, int, int), b: int)
    requires
        b >= 0,
        -b <= a.0 <= b,
        -b <= a.1 <= b,
        -b <= a.2 <= b,
        -b <= bb.0 <= b,
        -b <= bb.1 <= b,
        -b <= bb.2 <= b,
    ensures
        -(2 * (b * b)) <= cross3(a, bb).0 <= 2 * (b * b),
        -(2 * (b * b)) <= cross3(a, bb).1 <= 2 * (b * b),
        -(2 * (b * b)) <= cross3(a, bb).2 <= 2 * (b * b),
{
    lemma_abs_mul(a.1, bb.2, b, b);
    lemma_abs_mul(a.2, bb.1, b, b);
    lemma_abs_mul(a.2, bb.0, b, b);
    lemma_abs_mul(a.0, bb.2, b, b);
    lemma_abs_mul(a.0, bb.1, b, b);
    lemma_abs_mul(a.1, bb.0, b, b);
}

/// The determinant of three triples bounded by `b` is bounded by `6 b^3`.
pub proof fn lemma_det3_bound(a: (int, int, int), bb: (int, int, int), c: (int, int, int), b: int)
    requires
        b >= 0,
        -b <= a.0 <= b,
        -b <= a.1 <= b,
        -b <= a.2 <= b,
        -b <= bb.0 <= b,
        -b <= bb.1 <= b,
        -b <= bb.2 <= b,
        -b <= c.0 <= b,
        -b <= c.1 <= b,
        -b <= c.2 <= b,
    ensures
        -(6 * (b * (b * b))) <= det3(a, bb, c) <= 6 * (b * (b * b)),
{
    let cr = cross3(a, bb);
    lemma_cross3_bound(a, bb, b);
    lemma_abs_mul(c.0, cr.0, b, 2 * (b * b));
    lemma_abs_mul(c.1, cr.1, b, 2 * (b * b));
    lemma_abs_mul(c.2, cr.2, b, 2 * (b * b));
    assert(b * (2 * (b * b)) == 2 * (b * (b * b))) by (nonlinear_arith);
}

} // verus!
