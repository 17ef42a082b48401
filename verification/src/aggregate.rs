//! Vector aggregate utilities: component-wise sums and averages of point
//! collections, the centroid of an indexed subset, internal and external
//! division of a segment, precision-aware rounding and equality.

use vstd::prelude::*;

use crate::vector::V2;
use crate::vector::V3;
use crate::vector::abs_i;
use crate::vector::bounded2;
use crate::vector::v3_bounded;
use crate::vector::bounded3;
use crate::vector::lemma_abs_mul;
use crate::vector::lemma_sum2_push;
use crate::vector::lemma_sum3_push;
use crate::vector::lemma_take_push;
use crate::vector::seq2;
use crate::vector::seq3;
use crate::vector::sum2_seq;
use crate::vector::sum3_seq;
use crate::scalar::lemma_mul_neg_neg;

verus! {

/// A 3D point with an explicit positive denominator: the exact value of an
/// average or a division point.
#[derive(Clone, Copy, Debug, PartialEq, Eq, Structural)]
pub struct Rat3 {
    pub n: V3,
    pub d: i64,
}

/// A 2D point with an explicit positive denominator.
#[derive(Clone, Copy, Debug, PartialEq, Eq, Structural)]
pub struct Rat2 {
    pub n: V2,
    pub d: i64,
}

/// Well-formedness of a rational point: positive denominator.
pub open spec fn rat3_wf(r: Rat3) -> bool {
    r.d > 0
}

/// Well-formedness of a rational 2D point: positive denominator.
pub open spec fn rat2_wf(r: Rat2) -> bool {
    r.d > 0
}

/// Component-wise sum of a non-empty collection of 3D points.
pub fn sum_f3(vs: &Vec<V3>) -> (r: V3)
    requires
        bounded3(seq3(vs@), 0x40000000),
        vs@.len() <= 0x40000000,
    ensures
        r.ints() == sum3_seq(seq3(vs@)),
{
    let ghost sq = seq3(vs@);
    let mut acc = V3 { x: 0, y: 0, z: 0 };
    let mut i: usize = 0;
    proof {
        assert(sq.take(0) =~= Seq::<(int, int, int)>::empty());
    }
    while i < vs.len()
        invariant
            0 <= i <= vs@.len() <= 0x40000000,
            sq == seq3(vs@),
            bounded3(sq, 0x40000000),
            acc.ints() == sum3_seq(sq.take(i as int)),
            -(i as int) * 0x40000000 <= acc.x <= (i as int) * 0x40000000,
            -(i as int) * 0x40000000 <= acc.y <= (i as int) * 0x40000000,
            -(i as int) * 0x40000000 <= acc.z <= (i as int) * 0x40000000,
        decreases vs@.len() - i,
    {
        let v = vs[i];
        proof {
            assert(sq[i as int] == v.ints());
            lemma_take_push(sq, i as int);
            lemma_sum3_push(sq.take(i as int), sq[i as int]);
        }
        acc = V3 { x: acc.x + v.x, y: acc.y + v.y, z: acc.z + v.z };
        i = i + 1;
    }
    proof {
        assert(sq.take(vs@.len() as int) =~= sq);
    }
    acc
}

/// Component-wise average of a non-empty collection of 3D points, as an
/// exact rational point (the sum over the count).
pub fn avg_f3(vs: &Vec<V3>) -> (r: Rat3)
    requires
        vs@.len() >= 1,
        bounded3(seq3(vs@), 0x40000000),
        vs@.len() <= 0x40000000,
    ensures
        rat3_wf(r),
        r.n.ints() == sum3_seq(seq3(vs@)),
        r.d == vs@.len(),
{
    let s = sum_f3(vs);
    Rat3 { n: s, d: vs.len() as i64 }
}

/// The points of `vs` addressed by `idx`, in index order.
pub open spec fn pick3(idx: Seq<u16>, vs: Seq<(int, int, int)>) -> Seq<(int, int, int)> {
    Seq::new(idx.len(), |i: int| vs[idx[i] as int])
}

/// The pairs of `vs` addressed by `idx`, in index order.
pub open spec fn pick2(idx: Seq<u16>, vs: Seq<(int, int)>) -> Seq<(int, int)> {
    Seq::new(idx.len(), |i: int| vs[idx[i] as int])
}

/// Centroid of the vertices addressed by `idx`: the exact average of the
/// indexed points.
pub fn center_indexed(idx: &Vec<u16>, vtx: &Vec<V3>) -> (r: Rat3)
    requires
        idx@.len() >= 1,
        idx@.len() <= 0x40000000,
        forall|i: int| 0 <= i < idx@.len() ==> (#[trigger] idx@[i]) < vtx@.len(),
        bounded3(seq3(vtx@), 0x40000000),
    ensures
        rat3_wf(r),
        r.n.ints() == sum3_seq(pick3(idx@, seq3(vtx@))),
        r.d == idx@.len(),
{
    let ghost sq = pick3(idx@, seq3(vtx@));
    let mut acc = V3 { x: 0, y: 0, z: 0 };
    let mut i: usize = 0;
    proof {
        assert(sq.take(0) =~= Seq::<(int, int, int)>::empty());
    }
    while i < idx.len()
        invariant
            0 <= i <= idx@.len() <= 0x40000000,
            sq == pick3(idx@, seq3(vtx@)),
            forall|j: int| 0 <= j < idx@.len() ==> (#[trigger] idx@[j]) < vtx@.len(),
            bounded3(seq3(vtx@), 0x40000000),
            acc.ints() == sum3_seq(sq.take(i as int)),
            -(i as int) * 0x40000000 <= acc.x <= (i as int) * 0x40000000,
            -(i as int) * 0x40000000 <= acc.y <= (i as int) * 0x40000000,
            -(i as int) * 0x40000000 <= acc.z <= (i as int) * 0x40000000,
        decreases idx@.len() - i,
    {
        let j = idx[i];
        let v = vtx[j as usize];
        proof {
            assert(sq[i as int] == v.ints());
            lemma_take_push(sq, i as int);
            lemma_sum3_push(sq.take(i as int), sq[i as int]);
        }
        acc = V3 { x: acc.x + v.x, y: acc.y + v.y, z: acc.z + v.z };
        i = i + 1;
    }
    proof {
        assert(sq.take(idx@.len() as int) =~= sq);
    }
    Rat3 { n: acc, d: idx.len() as i64 }
}

/// Component-wise sum of a collection of 2D points.
pub fn sum_f2(vs: &Vec<V2>) -> (r: V2)
    requires
        bounded2(seq2(vs@), 0x40000000),
        vs@.len() <= 0x40000000,
    ensures
        r.ints() == sum2_seq(seq2(vs@)),
{
    let ghost sq = seq2(vs@);
    let mut acc = V2 { x: 0, y: 0 };
    let mut i: usize = 0;
    proof {
        assert(sq.take(0) =~= Seq::<(int, int)>::empty());
    }
    while i < vs.len()
        invariant
            0 <= i <= vs@.len() <= 0x40000000,
            sq == seq2(vs@),
            bounded2(sq, 0x40000000),
            acc.ints() == sum2_seq(sq.take(i as int)),
            -(i as int) * 0x40000000 <= acc.x <= (i as int) * 0x40000000,
            -(i as int) * 0x40000000 <= acc.y <= (i as int) * 0x40000000,
        decreases vs@.len() - i,
    {
        let v = vs[i];
        proof {
            assert(sq[i as int] == v.ints());
            lemma_take_push(sq, i as int);
            lemma_sum2_push(sq.take(i as int), sq[i as int]);
        }
        acc = V2 { x: acc.x + v.x, y: acc.y + v.y };
        i = i + 1;
    }
    proof {
        assert(sq.take(vs@.len() as int) =~= sq);
    }
    acc
}

/// Component-wise average of a non-empty collection of 2D points, as an
/// exact rational point.
pub fn avg_f2(vs: &Vec<V2>) -> (r: Rat2)
    requires
        vs@.len() >= 1,
        bounded2(seq2(vs@), 0x40000000),
        vs@.len() <= 0x40000000,
    ensures
        rat2_wf(r),
        r.n.ints() == sum2_seq(seq2(vs@)),
        r.d == vs@.len(),
{
    let s = sum_f2(vs);
    Rat2 { n: s, d: vs.len() as i64 }
}

/// Centroid of the texture points addressed by `idx`.
pub fn center_indexed_uv(idx: &Vec<u16>, uvs: &Vec<V2>) -> (r: Rat2)
    requires
        idx@.len() >= 1,
        idx@.len() <= 0x40000000,
        forall|i: int| 0 <= i < idx@.len() ==> (#[trigger] idx@[i]) < uvs@.len(),
        bounded2(seq2(uvs@), 0x40000000),
    ensures
        rat2_wf(r),
        r.n.ints() == sum2_seq(pick2(idx@, seq2(uvs@))),
        r.d == idx@.len(),
{
    let ghost sq = pick2(idx@, seq2(uvs@));
    let mut acc = V2 { x: 0, y: 0 };
    let mut i: usize = 0;
    proof {
        assert(sq.take(0) =~= Seq::<(int, int)>::empty());
    }
    while i < idx.len()
        invariant
            0 <= i <= idx@.len() <= 0x40000000,
            sq == pick2(idx@, seq2(uvs@)),
            forall|j: int| 0 <= j < idx@.len() ==> (#[trigger] idx@[j]) < uvs@.len(),
            bounded2(seq2(uvs@), 0x40000000),
            acc.ints() == sum2_seq(sq.take(i as int)),
            -(i as int) * 0x40000000 <= acc.x <= (i as int) * 0x40000000,
            -(i as int) * 0x40000000 <= acc.y <= (i as int) * 0x40000000,
        decreases idx@.len() - i,
    {
        let j = idx[i];
        let v = uvs[j as usize];
        proof {
            assert(sq[i as int] == v.ints());
            lemma_take_push(sq, i as int);
            lemma_sum2_push(sq.take(i as int), sq[i as int]);
        }
        acc = V2 { x: acc.x + v.x, y: acc.y + v.y };
        i = i + 1;
    }
    proof {
        assert(sq.take(idx@.len() as int) =~= sq);
    }
    Rat2 { n: acc, d: idx.len() as i64 }
}

/// The point dividing the segment from `p` to `q` in the ratio `m : n`:
/// the per-axis weighted average `(n p + m q) / (m + n)`.
///
/// A zero denominator (`m + n == 0`) is rejected as `None`.
pub fn divide_int(p: &V3, q: &V3, m: i32, n: i32) -> (r: Option<Rat3>)
    requires
        v3_bounded(*p, 0x40000000),
        v3_bounded(*q, 0x40000000),
    ensures
        r is None <==> m + n == 0,
        r matches Some(w) ==> {
            &&& rat3_wf(w)
            &&& w.d == abs_i(m + n)
            &&& w.n.x * (m + n) == (n * p.x + m * q.x) * w.d
            &&& w.n.y * (m + n) == (n * p.y + m * q.y) * w.d
            &&& w.n.z * (m + n) == (n * p.z + m * q.z) * w.d
        },
{
    divide_ratio(p, q, m as i64, n as i64)
}

/// The point dividing the segment from `p` to `q` externally in the ratio
/// `m : n`, that is internally in the ratio `m : -n`.
///
/// A zero denominator (`m == n`) is rejected as `None`, not silently
/// computed.
pub fn divide_ext(p: &V3, q: &V3, m: i32, n: i32) -> (r: Option<Rat3>)
    requires
        v3_bounded(*p, 0x40000000),
        v3_bounded(*q, 0x40000000),
    ensures
        r is None <==> m == n,
        r matches Some(w) ==> {
            &&& rat3_wf(w)
            &&& w.d == abs_i(m - n)
            &&& w.n.x * (m - n) == ((-n) * p.x + m * q.x) * w.d
            &&& w.n.y * (m - n) == ((-n) * p.y + m * q.y) * w.d
            &&& w.n.z * (m - n) == ((-n) * p.z + m * q.z) * w.d
        },
{
    divide_ratio(p, q, m as i64, -(n as i64))
}

/// Shared exact division-point computation over widened weights.
fn divide_ratio(p: &V3, q: &V3, m: i64, n: i64) -> (r: Option<Rat3>)
    requires
        v3_bounded(*p, 0x40000000),
        v3_bounded(*q, 0x40000000),
        -0x80000000 <= m <= 0x80000000,
        -0x80000000 <= n <= 0x80000000,
    ensures
        r is None <==> m + n == 0,
        r matches Some(w) ==> {
            &&& rat3_wf(w)
            &&& w.d == abs_i(m + n)
            &&& w.n.x * (m + n) == (n * p.x + m * q.x) * w.d
            &&& w.n.y * (m + n) == (n * p.y + m * q.y) * w.d
            &&& w.n.z * (m + n) == (n * p.z + m * q.z) * w.d
        },
{
    let s: i64 = m + n;
    if s == 0 {
        return None;
    }
    proof {
        lemma_abs_mul(n as int, p.x as int, 0x80000000, 0x40000000);
        lemma_abs_mul(m as int, q.x as int, 0x80000000, 0x40000000);
        lemma_abs_mul(n as int, p.y as int, 0x80000000, 0x40000000);
        lemma_abs_mul(m as int, q.y as int, 0x80000000, 0x40000000);
        lemma_abs_mul(n as int, p.z as int, 0x80000000, 0x40000000);
        lemma_abs_mul(m as int, q.z as int, 0x80000000, 0x40000000);
    }
    let nx: i64 = n * p.x + m * q.x;
    let ny: i64 = n * p.y + m * q.y;
    let nz: i64 = n * p.z + m * q.z;
    let w = if s > 0 {
        Rat3 { n: V3 { x: nx, y: ny, z: nz }, d: s }
    } else {
        Rat3 { n: V3 { x: -nx, y: -ny, z: -nz }, d: -s }
    };
    proof {
        if s > 0 {
            assert(w.n.x * (m + n) == (n * p.x + m * q.x) * w.d);
            assert(w.n.y * (m + n) == (n * p.y + m * q.y) * w.d);
            assert(w.n.z * (m + n) == (n * p.z + m * q.z) * w.d);
        } else {
            lemma_mul_neg_neg(nx as int, -((m + n) as int));
            lemma_mul_neg_neg(ny as int, -((m + n) as int));
            lemma_mul_neg_neg(nz as int, -((m + n) as int));
            assert(w.n.x * (m + n) == (n * p.x + m * q.x) * w.d);
            assert(w.n.y * (m + n) == (n * p.y + m * q.y) * w.d);
            assert(w.n.z * (m + n) == (n * p.z + m * q.z) * w.d);
        }
    }
    Some(w)
}

/// Per-axis rounding against a reference value: a component within `e` of
/// `q` snaps to zero, any other is replaced by its offset from `q`.
pub fn round_prec(v: &V3, e: i64, q: i64) -> (r: V3)
    requires
        v3_bounded(*v, 0x2000000000000000),
        -0x2000000000000000 <= q <= 0x2000000000000000,
    ensures
        r.x == (if abs_i(v.x - q) >= e {
            v.x - q
        } else {
            0int
        }),
        r.y == (if abs_i(v.y - q) >= e {
            v.y - q
        } else {
            0int
        }),
        r.z == (if abs_i(v.z - q) >= e {
            v.z - q
        } else {
            0int
        }),
{
    let dx: i64 = v.x - q;
    let dy: i64 = v.y - q;
    let dz: i64 = v.z - q;
    V3 {
        x: if (if dx >= 0 { dx } else { -dx }) >= e { dx } else { 0 },
        y: if (if dy >= 0 { dy } else { -dy }) >= e { dy } else { 0 },
        z: if (if dz >= 0 { dz } else { -dz }) >= e { dz } else { 0 },
    }
}

/// Every component of `a` is strictly within `e` of the matching component
/// of `b`.
pub open spec fn prec_eq3(a: (int, int, int), b: (int, int, int), e: int) -> bool {
    abs_i(a.0 - b.0) < e && abs_i(a.1 - b.1) < e && abs_i(a.2 - b.2) < e
}

/// Precision-aware equality of two points: true when every axis differs by
/// strictly less than `e`.  Used for vertex deduplication.
pub fn prec_eq(s: &V3, e: i64, d: &V3) -> (r: bool)
    ensures
        r == prec_eq3(s.ints(), d.ints(), e as int),
{
    let dx: i128 = s.x as i128 - d.x as i128;
    let dy: i128 = s.y as i128 - d.y as i128;
    let dz: i128 = s.z as i128 - d.z as i128;
    (if dx >= 0 { dx } else { -dx }) < e as i128 && (if dy >= 0 { dy } else { -dy }) < e as i128
        && (if dz >= 0 { dz } else { -dz }) < e as i128
}

} // verus!
