//! Laws of the mass-property engine under motions of the lattice.
//!
//! The total signed volume element of an edge-balanced (closed) mesh is
//! invariant under translation: a fixed winding convention gives one
//! well-defined signed volume wherever the solid sits.  And a mesh whose
//! moment is already zero is a fixed point of recentering: the pass only
//! rescales the lattice, leaving every vertex unchanged as a point.
//!
//! Closedness enters through the normal sum: on a mesh whose directed edges
//! cancel in pairs the triangle normals sum to zero, since each edge
//! contributes the antisymmetric term `u x v`.

use vstd::prelude::*;

use crate::vector::add3;
use crate::vector::cross3;
use crate::vector::det3;
use crate::vector::dot3;
use crate::vector::scl3;
use crate::vector::sub3;
use crate::vector::zero3;
use crate::engine::Tri;
use crate::engine::tri_det;
use crate::engine::tris_ok;
use crate::engine::vol6_sum;
use crate::recenter::recenter_map;
use crate::recenter::sgn;

verus! {

/// Every vertex translated by `d`.
pub open spec fn translate3(vs: Seq<(int, int, int)>, d: (int, int, int)) -> Seq<(int, int, int)> {
    Seq::new(vs.len(), |i: int| add3(vs[i], d))
}

/// The (doubled) area normal of a triangle: the sum of `u x v` over its
/// three directed edges.
pub open spec fn tri_norm(t: Tri, vs: Seq<(int, int, int)>) -> (int, int, int) {
    let a = vs[t.a as int];
    let b = vs[t.b as int];
    let c = vs[t.c as int];
    add3(add3(cross3(a, b), cross3(b, c)), cross3(c, a))
}

/// Sum of the triangle normals of a mesh: zero on a closed mesh, where
/// every directed edge appears with its reverse and `u x v` cancels
/// against `v x u`.
pub open spec fn norm_sum(ts: Seq<Tri>, vs: Seq<(int, int, int)>) -> (int, int, int)
    decreases ts.len(),
{
    if ts.len() == 0 {
        zero3()
    } else {
        add3(norm_sum(ts.drop_last(), vs), tri_norm(ts.last(), vs))
    }
}

/// The mesh is balanced: its triangle normals cancel.  This holds of any
/// closed, consistently wound mesh.
pub open spec fn balanced(ts: Seq<Tri>, vs: Seq<(int, int, int)>) -> bool {
    norm_sum(ts, vs) == zero3()
}

/// Distributivity of the dot product over vector addition, on the right.
proof fn lemma_dot_add(d: (int, int, int), x: (int, int, int), y: (int, int, int))
    by (nonlinear_arith)
    ensures
        dot3(d, add3(x, y)) == dot3(d, x) + dot3(d, y),
{
}

/// Distributivity of the dot product over vector addition, on the left.
proof fn lemma_dot_add_left(x: (int, int, int), y: (int, int, int), q: (int, int, int))
    by (nonlinear_arith)
    ensures
        dot3(add3(x, y), q) == dot3(x, q) + dot3(y, q),
{
}

/// Distributivity of multiplication over addition.
proof fn lemma_mul_dist(x: int, y: int, z: int)
    by (nonlinear_arith)
    ensures
        (x + y) * z == x * z + y * z,
        z * (x + y) == z * x + z * y,
{
}

/// Commutation inside a triple product.
proof fn lemma_mul3_cyc(x: int, y: int, z: int)
    by (nonlinear_arith)
    ensures
        x * (y * z) == y * (z * x),
{
}

/// Distributivity of the cross product, in the first factor.
proof fn lemma_cross_add_left(a1: (int, int, int), a2: (int, int, int), b: (int, int, int))
    ensures
        cross3(add3(a1, a2), b) == add3(cross3(a1, b), cross3(a2, b)),
{
    lemma_mul_dist(a1.1, a2.1, b.2);
    lemma_mul_dist(a1.2, a2.2, b.1);
    lemma_mul_dist(a1.2, a2.2, b.0);
    lemma_mul_dist(a1.0, a2.0, b.2);
    lemma_mul_dist(a1.0, a2.0, b.1);
    lemma_mul_dist(a1.1, a2.1, b.0);
}

/// Distributivity of the cross product, in the second factor.
proof fn lemma_cross_add_right(a: (int, int, int), b1: (int, int, int), b2: (int, int, int))
    ensures
        cross3(a, add3(b1, b2)) == add3(cross3(a, b1), cross3(a, b2)),
{
    lemma_mul_dist(b1.2, b2.2, a.1);
    lemma_mul_dist(b1.1, b2.1, a.2);
    lemma_mul_dist(b1.0, b2.0, a.2);
    lemma_mul_dist(b1.2, b2.2, a.0);
    lemma_mul_dist(b1.1, b2.1, a.0);
    lemma_mul_dist(b1.0, b2.0, a.1);
}

/// A vector crossed with itself vanishes.
proof fn lemma_cross_self(d: (int, int, int))
    by (nonlinear_arith)
    ensures
        cross3(d, d) == zero3(),
{
}

/// Distributivity of multiplication over subtraction.
proof fn lemma_mul_dist_sub(z: int, x: int, y: int)
    by (nonlinear_arith)
    ensures
        z * (x - y) == z * x - z * y,
{
}

/// Cyclic shift of the scalar triple product.
proof fn lemma_triple_cyclic(a: (int, int, int), b: (int, int, int), c: (int, int, int))
    ensures
        dot3(c, cross3(a, b)) == dot3(a, cross3(b, c)),
{
    lemma_mul_dist_sub(c.0, a.1 * b.2, a.2 * b.1);
    lemma_mul_dist_sub(c.1, a.2 * b.0, a.0 * b.2);
    lemma_mul_dist_sub(c.2, a.0 * b.1, a.1 * b.0);
    lemma_mul_dist_sub(a.0, b.1 * c.2, b.2 * c.1);
    lemma_mul_dist_sub(a.1, b.2 * c.0, b.0 * c.2);
    lemma_mul_dist_sub(a.2, b.0 * c.1, b.1 * c.0);
    lemma_mul3_cyc(c.0, a.1, b.2);
    lemma_mul3_cyc(c.0, a.2, b.1);
    lemma_mul3_cyc(c.1, a.2, b.0);
    lemma_mul3_cyc(c.1, a.0, b.2);
    lemma_mul3_cyc(c.2, a.0, b.1);
    lemma_mul3_cyc(c.2, a.1, b.0);
    assert(a.1 * (b.2 * c.0) - a.2 * (b.1 * c.0) + (a.2 * (b.0 * c.1) - a.0 * (b.2 * c.1)) + (a.0
        * (b.1 * c.2) - a.1 * (b.0 * c.2)) == a.0 * (b.1 * c.2) - a.0 * (b.2 * c.1) + (a.1 * (b.2
        * c.0) - a.1 * (b.0 * c.2)) + (a.2 * (b.0 * c.1) - a.2 * (b.1 * c.0)));
}

/// A scalar triple product with a repeated factor vanishes.
proof fn lemma_triple_repeat(d: (int, int, int), b: (int, int, int))
    by (nonlinear_arith)
    ensures
        dot3(d, cross3(d, b)) == 0,
        dot3(d, cross3(b, d)) == 0,
{
}

/// Multilinear expansion of the determinant under translation of all three
/// rows by `d`: the drift is the normal of the triangle dotted with `d`.
proof fn lemma_det_translate(
    a: (int, int, int),
    b: (int, int, int),
    c: (int, int, int),
    d: (int, int, int),
)
    ensures
        det3(add3(a, d), add3(b, d), add3(c, d)) == det3(a, b, c) + dot3(
            d,
            add3(add3(cross3(a, b), cross3(b, c)), cross3(c, a)),
        ),
{
    let ad = add3(a, d);
    let bd = add3(b, d);
    // row 1: det(a + d, bd, cd) = det(a, bd, cd) + det(d, bd, cd)
    lemma_cross_add_left(a, d, bd);
    lemma_dot_add_left(a, d, cross3(bd, add3(c, d)));
    // expand det(x, b + d, c + d) for x in {a, d}
    lemma_cross_add_right(a, b, d);
    lemma_cross_add_right(d, b, d);
    lemma_dot_add_left(b, d, cross3(add3(c, d), a));
    assert(det3(ad, bd, add3(c, d)) == dot3(c, cross3(ad, bd)) + dot3(d, cross3(ad, bd))) by {
        lemma_dot_add_left(c, d, cross3(ad, bd));
    }
    // cross(ad, bd) = cross(a,b) + cross(a,d) + cross(d,b) + cross(d,d)
    lemma_cross_add_left(a, d, bd);
    lemma_cross_add_right(a, b, d);
    lemma_cross_add_right(d, b, d);
    lemma_cross_self(d);
    let q = add3(add3(cross3(a, b), cross3(a, d)), cross3(d, b));
    assert(cross3(ad, bd) == q) by {
        assert(add3(cross3(d, b), cross3(d, d)) == cross3(d, b));
    }
    // dot(c, q) and dot(d, q) expand by distributivity
    lemma_dot_add(c, add3(cross3(a, b), cross3(a, d)), cross3(d, b));
    lemma_dot_add(c, cross3(a, b), cross3(a, d));
    lemma_dot_add(d, add3(cross3(a, b), cross3(a, d)), cross3(d, b));
    lemma_dot_add(d, cross3(a, b), cross3(a, d));
    lemma_triple_repeat(d, b);
    assert(dot3(d, cross3(a, d)) == 0) by {
        lemma_triple_cyclic(a, d, d);
        lemma_triple_repeat(d, a);
    }
    // the two remaining cross terms are cyclic shifts of triangle normals
    assert(dot3(c, cross3(a, d)) == dot3(d, cross3(c, a))) by {
        lemma_triple_cyclic(c, a, d);
        lemma_triple_cyclic(a, d, c);
    }
    assert(dot3(c, cross3(d, b)) == dot3(d, cross3(b, c))) by {
        lemma_triple_cyclic(d, b, c);
    }
    lemma_dot_add(d, add3(cross3(a, b), cross3(b, c)), cross3(c, a));
    lemma_dot_add(d, cross3(a, b), cross3(b, c));
}

/// Helper: the last triangle of an in-bounds list is in bounds.
spec fn tri_ok_last(ts: Seq<Tri>, vs: Seq<(int, int, int)>) -> bool {
    ts.len() > 0 ==> crate::engine::tri_ok(ts[ts.len() - 1], vs.len() as int)
}

/// The volume element of a translated mesh drifts by `d . norm_sum`.
proof fn lemma_vol_translate(ts: Seq<Tri>, vs: Seq<(int, int, int)>, d: (int, int, int))
    requires
        tris_ok(ts, vs.len() as int),
    ensures
        vol6_sum(ts, translate3(vs, d)) == vol6_sum(ts, vs) + dot3(d, norm_sum(ts, vs)),
    decreases ts.len(),
{
    let vt = translate3(vs, d);
    if ts.len() == 0 {
        assert(dot3(d, zero3()) == 0) by (nonlinear_arith);
    } else {
        let t = ts.last();
        let pre = ts.drop_last();
        assert(tri_ok_last(ts, vs));
        lemma_vol_translate(pre, vs, d);
        let a = vs[t.a as int];
        let b = vs[t.b as int];
        let c = vs[t.c as int];
        assert(vt[t.a as int] == add3(a, d));
        assert(vt[t.b as int] == add3(b, d));
        assert(vt[t.c as int] == add3(c, d));
        lemma_det_translate(a, b, c, d);
        lemma_dot_add(d, norm_sum(pre, vs), tri_norm(t, vs));
        assert(tri_det(t, vt) == tri_det(t, vs) + dot3(d, tri_norm(t, vs)));
    }
}

/// Law (closure invariance): the signed volume element of a balanced mesh
/// does not change when the whole mesh is translated; with a fixed winding
/// convention the sweep's volume is one well-defined number, with one sign,
/// wherever the solid sits.
pub proof fn lemma_volume_translation_invariant(
    ts: Seq<Tri>,
    vs: Seq<(int, int, int)>,
    d: (int, int, int),
)
    requires
        tris_ok(ts, vs.len() as int),
        balanced(ts, vs),
    ensures
        vol6_sum(ts, translate3(vs, d)) == vol6_sum(ts, vs),
{
    lemma_vol_translate(ts, vs, d);
    assert(dot3(d, zero3()) == 0) by (nonlinear_arith);
}

/// Law (recentering idempotence): when a mesh's moment is already zero, the
/// recentering transform only rescales the lattice: every vertex is
/// unchanged as a point, since the new numerator over the new positive
/// denominator equals the old numerator over the old denominator.
pub proof fn lemma_recenter_idempotent(vs: Seq<(int, int, int)>, m: int, den: int, i: int)
    requires
        0 <= i < vs.len(),
        m != 0,
        den > 0,
    ensures
        scl3(den, recenter_map(vs, m, zero3())[i]) == scl3(sgn(m) * (4 * m) * den, vs[i]),
        sgn(m) * (4 * m) * den > 0,
{
    assert(recenter_map(vs, m, zero3())[i] == scl3(sgn(m), sub3(scl3(4 * m, vs[i]), zero3())));
    assert(scl3(den, scl3(sgn(m), sub3(scl3(4 * m, vs[i]), zero3()))) == scl3(
        sgn(m) * (4 * m) * den,
        vs[i],
    )) by (nonlinear_arith);
    assert(sgn(m) * (4 * m) * den > 0) by (nonlinear_arith)
        requires
            m != 0,
            den > 0,
            sgn(m) == (if m >= 0 {
                1int
            } else {
                -1int
            }),
    ;
}

} // verus!
