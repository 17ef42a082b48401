//! Mass-property engine: centroid and signed volume of a closed triangle
//! mesh by signed tetrahedral decomposition from the origin, plus the
//! deduplicating centroid estimator for raw point sets.
//!
//! For every triangle `(i, j, k)` the scalar triple product
//! `m = v[k] . (v[i] x v[j])` is six times the signed volume of the
//! tetrahedron it spans with the origin; the total `m` and the moment
//! `sum m * (v[i] + v[j] + v[k])` determine the centroid
//! `moment / (4 * total)` exactly.

use vstd::prelude::*;

use crate::vector::V3;
use crate::vector::add3;
use crate::vector::bounded3;
use crate::vector::det3;
use crate::vector::lemma_abs_mul;
use crate::vector::lemma_bounded3_at;
use crate::vector::lemma_cross3_bound;
use crate::vector::lemma_det3_bound;
use crate::vector::lemma_take_push;
use crate::vector::scl3;
use crate::vector::seq3;
use crate::vector::sum3_seq;
use crate::vector::v3_bounded;
use crate::vector::zero3;
use crate::aggregate::Rat3;
use crate::aggregate::prec_eq3;
use crate::aggregate::rat3_wf;
use crate::vector::abs_i;

verus! {

/// Largest vertex-coordinate magnitude the engine accepts.
pub open spec fn coord_max() -> int {
    67108864
}

/// Largest triple product of coordinates bounded by `coord_max()`.
pub open spec fn det_max() -> int {
    1813388729421943762059264
}

/// Largest per-triangle moment contribution under `coord_max()`.
pub open spec fn mom_max() -> int {
    365083372865730067631050523148288
}

/// Largest number of triangles the engine accepts.
pub open spec fn tri_max() -> int {
    131072
}

/// An ordered triple of vertex indices: one mesh face with its winding.
#[derive(Clone, Copy, Debug, PartialEq, Eq, Structural)]
pub struct Tri {
    pub a: usize,
    pub b: usize,
    pub c: usize,
}

/// All three indices address a vertex list of length `n`.
pub open spec fn tri_ok(t: Tri, n: int) -> bool {
    t.a < n && t.b < n && t.c < n
}

/// Every triangle of the sequence addresses a vertex list of length `n`.
pub open spec fn tris_ok(ts: Seq<Tri>, n: int) -> bool {
    forall|i: int| 0 <= i < ts.len() ==> tri_ok(#[trigger] ts[i], n)
}

/// Signed volume element of one triangle: `v[c] . (v[a] x v[b])`.
pub open spec fn tri_det(t: Tri, vs: Seq<(int, int, int)>) -> int {
    det3(vs[t.a as int], vs[t.b as int], vs[t.c as int])
}

/// Sum of the three vertices of a triangle.
pub open spec fn tri_vsum(t: Tri, vs: Seq<(int, int, int)>) -> (int, int, int) {
    add3(add3(vs[t.a as int], vs[t.b as int]), vs[t.c as int])
}

/// Total signed volume element of a triangle sequence: six times the
/// enclosed volume when the mesh is closed and consistently wound.
pub open spec fn vol6_sum(ts: Seq<Tri>, vs: Seq<(int, int, int)>) -> int
    decreases ts.len(),
{
    if ts.len() == 0 {
        0
    } else {
        vol6_sum(ts.drop_last(), vs) + tri_det(ts.last(), vs)
    }
}

/// Total moment of a triangle sequence: the centroid of the mesh is
/// `mom_sum / (4 * vol6_sum)` per axis.
pub open spec fn mom_sum(ts: Seq<Tri>, vs: Seq<(int, int, int)>) -> (int, int, int)
    decreases ts.len(),
{
    if ts.len() == 0 {
        zero3()
    } else {
        add3(mom_sum(ts.drop_last(), vs), scl3(tri_det(ts.last(), vs), tri_vsum(ts.last(), vs)))
    }
}

/// The triangles of a face-group list, flattened in order.
pub open spec fn flat_tris(gs: Seq<Seq<Tri>>) -> Seq<Tri>
    decreases gs.len(),
{
    if gs.len() == 0 {
        Seq::empty()
    } else {
        flat_tris(gs.drop_last()) + gs.last()
    }
}

/// View of an executable face-group list as nested sequences.
pub open spec fn groups_view(gs: Seq<Vec<Tri>>) -> Seq<Seq<Tri>> {
    gs.map_values(|g: Vec<Tri>| g@)
}

pub proof fn lemma_vol6_push(ts: Seq<Tri>, vs: Seq<(int, int, int)>, x: Tri)
    ensures
        vol6_sum(ts.push(x), vs) == vol6_sum(ts, vs) + tri_det(x, vs),
{
    assert(ts.push(x).drop_last() =~= ts);
}

pub proof fn lemma_mom_push(ts: Seq<Tri>, vs: Seq<(int, int, int)>, x: Tri)
    ensures
        mom_sum(ts.push(x), vs) == add3(mom_sum(ts, vs), scl3(tri_det(x, vs), tri_vsum(x, vs))),
{
    assert(ts.push(x).drop_last() =~= ts);
}

/// The volume element is additive over concatenation.
pub proof fn lemma_vol6_concat(t1: Seq<Tri>, t2: Seq<Tri>, vs: Seq<(int, int, int)>)
    ensures
        vol6_sum(t1 + t2, vs) == vol6_sum(t1, vs) + vol6_sum(t2, vs),
    decreases t2.len(),
{
    if t2.len() == 0 {
        assert(t1 + t2 =~= t1);
    } else {
        assert((t1 + t2).drop_last() =~= t1 + t2.drop_last());
        assert((t1 + t2).last() == t2.last());
        lemma_vol6_concat(t1, t2.drop_last(), vs);
    }
}

/// The moment is additive over concatenation.
pub proof fn lemma_mom_concat(t1: Seq<Tri>, t2: Seq<Tri>, vs: Seq<(int, int, int)>)
    ensures
        mom_sum(t1 + t2, vs) == add3(mom_sum(t1, vs), mom_sum(t2, vs)),
    decreases t2.len(),
{
    if t2.len() == 0 {
        assert(t1 + t2 =~= t1);
    } else {
        assert((t1 + t2).drop_last() =~= t1 + t2.drop_last());
        assert((t1 + t2).last() == t2.last());
        lemma_mom_concat(t1, t2.drop_last(), vs);
    }
}

/// Flattening is additive over concatenation of group lists.
pub proof fn lemma_flat_concat(g1: Seq<Seq<Tri>>, g2: Seq<Seq<Tri>>)
    ensures
        flat_tris(g1 + g2) == flat_tris(g1) + flat_tris(g2),
    decreases g2.len(),
{
    if g2.len() == 0 {
        assert(g1 + g2 =~= g1);
        assert(flat_tris(g1) + flat_tris(g2) =~= flat_tris(g1));
    } else {
        assert((g1 + g2).drop_last() =~= g1 + g2.drop_last());
        assert((g1 + g2).last() == g2.last());
        lemma_flat_concat(g1, g2.drop_last());
        assert(flat_tris(g1) + flat_tris(g2.drop_last()) + g2.last() =~= flat_tris(g1) + (
        flat_tris(g2.drop_last()) + g2.last()));
    }
}

/// A single group flattens to itself.
pub proof fn lemma_flat_singleton(g: Seq<Tri>)
    ensures
        flat_tris(seq![g]) == g,
{
    assert(seq![g].drop_last() =~= Seq::<Seq<Tri>>::empty());
    assert(seq![g].last() == g);
    assert(flat_tris(Seq::<Seq<Tri>>::empty()) == Seq::<Tri>::empty());
    assert(Seq::<Tri>::empty() + g =~= g);
}

/// One more group flattens to the previous triangles plus that group.
pub proof fn lemma_flat_take_succ(gs: Seq<Seq<Tri>>, g: int)
    requires
        0 <= g < gs.len(),
    ensures
        flat_tris(gs.take(g + 1)) == flat_tris(gs.take(g)) + gs[g],
{
    assert(gs.take(g + 1) =~= gs.take(g).push(gs[g]));
    assert(gs.take(g + 1).drop_last() =~= gs.take(g));
}

/// A flattened prefix is no longer than the whole flattened list.
pub proof fn lemma_flat_take_le(gs: Seq<Seq<Tri>>, g: int)
    requires
        0 <= g <= gs.len(),
    ensures
        flat_tris(gs.take(g)).len() <= flat_tris(gs).len(),
    decreases gs.len() - g,
{
    if g == gs.len() {
        assert(gs.take(g) =~= gs);
    } else {
        lemma_flat_take_succ(gs, g);
        lemma_flat_take_le(gs, g + 1);
    }
}

/// Exact centroid numerators and signed volume of a mesh, as computed by
/// `calc_cg`: the centroid is `(px, py, pz) / (4 m)` in vertex units and
/// `m` is six times the signed volume.
#[derive(Clone, Copy, Debug, PartialEq, Eq, Structural)]
pub struct CgVol {
    pub px: i128,
    pub py: i128,
    pub pz: i128,
    pub m: i128,
}

/// The signed volume element of one triangle, computed exactly.
fn det3_exec(va: &V3, vb: &V3, vc: &V3) -> (r: i128)
    requires
        v3_bounded(*va, coord_max()),
        v3_bounded(*vb, coord_max()),
        v3_bounded(*vc, coord_max()),
    ensures
        r == det3(va.ints(), vb.ints(), vc.ints()),
        -det_max() <= r <= det_max(),
{
    proof {
        lemma_cross3_bound(va.ints(), vb.ints(), 67108864);
        lemma_det3_bound(va.ints(), vb.ints(), vc.ints(), 67108864);
        lemma_abs_mul(va.y as int, vb.z as int, 67108864, 67108864);
        lemma_abs_mul(va.z as int, vb.y as int, 67108864, 67108864);
        lemma_abs_mul(va.z as int, vb.x as int, 67108864, 67108864);
        lemma_abs_mul(va.x as int, vb.z as int, 67108864, 67108864);
        lemma_abs_mul(va.x as int, vb.y as int, 67108864, 67108864);
        lemma_abs_mul(va.y as int, vb.x as int, 67108864, 67108864);
    }
    let cx: i128 = (va.y as i128) * (vb.z as i128) - (va.z as i128) * (vb.y as i128);
    let cy: i128 = (va.z as i128) * (vb.x as i128) - (va.x as i128) * (vb.z as i128);
    let cz: i128 = (va.x as i128) * (vb.y as i128) - (va.y as i128) * (vb.x as i128);
    proof {
        lemma_abs_mul(vc.x as int, cx as int, 67108864, 9007199254740992);
        lemma_abs_mul(vc.y as int, cy as int, 67108864, 9007199254740992);
        lemma_abs_mul(vc.z as int, cz as int, 67108864, 9007199254740992);
    }
    (vc.x as i128) * cx + (vc.y as i128) * cy + (vc.z as i128) * cz
}

/// Centroid and signed volume of a triangle mesh by signed tetrahedral
/// decomposition from the origin.
///
/// The result is exact: `m` is the total signed volume element (six times
/// the enclosed volume for a closed, consistently wound mesh) and the
/// centroid is `(px, py, pz) / (4 m)` per axis.  On an open mesh the result
/// is computed the same way but has no physical meaning.
pub fn calc_cg(idx: &Vec<Vec<Tri>>, vtx: &Vec<V3>) -> (r: CgVol)
    requires
        forall|g: int| 0 <= g < idx@.len() ==> tris_ok((#[trigger] idx@[g])@, vtx@.len() as int),
        bounded3(seq3(vtx@), coord_max()),
        flat_tris(groups_view(idx@)).len() <= tri_max(),
    ensures
        r.m == vol6_sum(flat_tris(groups_view(idx@)), seq3(vtx@)),
        (r.px as int, r.py as int, r.pz as int) == mom_sum(
            flat_tris(groups_view(idx@)),
            seq3(vtx@),
        ),
        -tri_max() * det_max() <= r.m <= tri_max() * det_max(),
        -tri_max() * mom_max() <= r.px <= tri_max() * mom_max(),
        -tri_max() * mom_max() <= r.py <= tri_max() * mom_max(),
        -tri_max() * mom_max() <= r.pz <= tri_max() * mom_max(),
{
    let ghost gv = groups_view(idx@);
    let ghost sq = seq3(vtx@);
    let mut macc: i128 = 0;
    let mut pxa: i128 = 0;
    let mut pya: i128 = 0;
    let mut pza: i128 = 0;
    let mut g: usize = 0;
    proof {
        assert(gv.take(0) =~= Seq::<Seq<Tri>>::empty());
    }
    while g < idx.len()
        invariant
            0 <= g <= idx@.len(),
            gv == groups_view(idx@),
            sq == seq3(vtx@),
            forall|g0: int|
                0 <= g0 < idx@.len() ==> tris_ok((#[trigger] idx@[g0])@, vtx@.len() as int),
            bounded3(sq, coord_max()),
            flat_tris(gv).len() <= tri_max(),
            macc == vol6_sum(flat_tris(gv.take(g as int)), sq),
            (pxa as int, pya as int, pza as int) == mom_sum(flat_tris(gv.take(g as int)), sq),
            -flat_tris(gv.take(g as int)).len() * 1813388729421943762059264 <= macc
                <= flat_tris(gv.take(g as int)).len() * 1813388729421943762059264,
            -flat_tris(gv.take(g as int)).len() * 365083372865730067631050523148288 <= pxa
                <= flat_tris(gv.take(g as int)).len() * 365083372865730067631050523148288,
            -flat_tris(gv.take(g as int)).len() * 365083372865730067631050523148288 <= pya
                <= flat_tris(gv.take(g as int)).len() * 365083372865730067631050523148288,
            -flat_tris(gv.take(g as int)).len() * 365083372865730067631050523148288 <= pza
                <= flat_tris(gv.take(g as int)).len() * 365083372865730067631050523148288,
        decreases idx@.len() - g,
    {
        let grp = &idx[g];
        let ghost base = flat_tris(gv.take(g as int));
        let mut t: usize = 0;
        proof {
            lemma_flat_take_succ(gv, g as int);
            lemma_flat_take_le(gv, g as int + 1);
            assert(gv[g as int] == idx@[g as int]@);
            assert(grp@.take(0) =~= Seq::<Tri>::empty());
            assert(base + grp@.take(0) =~= base);
            lemma_vol6_concat(base, grp@.take(0), sq);
            lemma_mom_concat(base, grp@.take(0), sq);
        }
        while t < grp.len()
            invariant
                0 <= t <= grp@.len(),
                gv == groups_view(idx@),
                sq == seq3(vtx@),
                0 <= g < idx@.len(),
                grp@ == idx@[g as int]@,
                base == flat_tris(gv.take(g as int)),
                flat_tris(gv.take(g as int + 1)) == base + grp@,
                base.len() + grp@.len() <= tri_max(),
                forall|g0: int|
                    0 <= g0 < idx@.len() ==> tris_ok((#[trigger] idx@[g0])@, vtx@.len() as int),
                bounded3(sq, coord_max()),
                macc == vol6_sum(base + grp@.take(t as int), sq),
                (pxa as int, pya as int, pza as int) == mom_sum(base + grp@.take(t as int), sq),
                -(base.len() + t as int) * 1813388729421943762059264 <= macc <= (base.len()
                    + t as int) * 1813388729421943762059264,
                -(base.len() + t as int) * 365083372865730067631050523148288 <= pxa <= (base.len()
                    + t as int) * 365083372865730067631050523148288,
                -(base.len() + t as int) * 365083372865730067631050523148288 <= pya <= (base.len()
                    + t as int) * 365083372865730067631050523148288,
                -(base.len() + t as int) * 365083372865730067631050523148288 <= pza <= (base.len()
                    + t as int) * 365083372865730067631050523148288,
            decreases grp@.len() - t,
        {
            let tr = grp[t];
            proof {
                assert(tris_ok(idx@[g as int]@, vtx@.len() as int));
                assert(tri_ok(grp@[t as int], vtx@.len() as int));
            }
            let va = vtx[tr.a];
            let vb = vtx[tr.b];
            let vc = vtx[tr.c];
            proof {
                assert(sq[tr.a as int] == va.ints());
                assert(sq[tr.b as int] == vb.ints());
                assert(sq[tr.c as int] == vc.ints());
                lemma_bounded3_at(sq, coord_max(), tr.a as int);
                lemma_bounded3_at(sq, coord_max(), tr.b as int);
                lemma_bounded3_at(sq, coord_max(), tr.c as int);
            }
            let m = det3_exec(&va, &vb, &vc);
            let sx: i64 = va.x + vb.x + vc.x;
            let sy: i64 = va.y + vb.y + vc.y;
            let sz: i64 = va.z + vb.z + vc.z;
            proof {
                lemma_abs_mul(m as int, sx as int, 1813388729421943762059264, 201326592);
                lemma_abs_mul(m as int, sy as int, 1813388729421943762059264, 201326592);
                lemma_abs_mul(m as int, sz as int, 1813388729421943762059264, 201326592);
                lemma_take_push(grp@, t as int);
                lemma_vol6_concat(base, grp@.take(t as int + 1), sq);
                lemma_vol6_concat(base, grp@.take(t as int), sq);
                lemma_vol6_push(grp@.take(t as int), sq, grp@[t as int]);
                lemma_mom_concat(base, grp@.take(t as int + 1), sq);
                lemma_mom_concat(base, grp@.take(t as int), sq);
                lemma_mom_push(grp@.take(t as int), sq, grp@[t as int]);
                assert(tri_det(grp@[t as int], sq) == m as int);
                assert(tri_vsum(grp@[t as int], sq) == (sx as int, sy as int, sz as int));
            }
            macc = macc + m;
            pxa = pxa + m * (sx as i128);
            pya = pya + m * (sy as i128);
            pza = pza + m * (sz as i128);
            t = t + 1;
        }
        proof {
            assert(grp@.take(grp@.len() as int) =~= grp@);
        }
        g = g + 1;
    }
    proof {
        assert(gv.take(idx@.len() as int) =~= gv);
    }
    CgVol { px: pxa, py: pya, pz: pza, m: macc }
}

/// Centroid of the tetrahedron spanned by three vertices and the origin:
/// the vertex sum over four.
pub fn calc_cg_o(vs: &Vec<V3>) -> (r: Rat3)
    requires
        vs@.len() == 3,
        bounded3(seq3(vs@), 0x1000000000000000),
    ensures
        rat3_wf(r),
        r.n.ints() == sum3_seq(seq3(vs@)),
        r.d == 4,
{
    let ghost sq = seq3(vs@);
    let a = vs[0];
    let b = vs[1];
    let c = vs[2];
    proof {
        assert(sq[0] == a.ints());
        assert(sq[1] == b.ints());
        assert(sq[2] == c.ints());
        lemma_bounded3_at(sq, 0x1000000000000000, 0);
        lemma_bounded3_at(sq, 0x1000000000000000, 1);
        lemma_bounded3_at(sq, 0x1000000000000000, 2);
        let s2 = sq.drop_last();
        let s1 = s2.drop_last();
        assert(s1.drop_last() =~= Seq::<(int, int, int)>::empty());
        assert(sq.last() == sq[2]);
        assert(s2.last() == sq[1]);
        assert(s1.last() == sq[0]);
        assert(sum3_seq(s1) == add3(sum3_seq(s1.drop_last()), s1.last()));
        assert(sum3_seq(s2) == add3(sum3_seq(s1), s2.last()));
        assert(sum3_seq(sq) == add3(sum3_seq(s2), sq.last()));
    }
    Rat3 { n: V3 { x: a.x + b.x + c.x, y: a.y + b.y + c.y, z: a.z + b.z + c.z }, d: 4 }
}

/// First-seen-wins deduplication: keep each point unless an already kept
/// point lies within `e` of it on every axis.
pub open spec fn near_any(acc: Seq<(int, int, int)>, p: (int, int, int), e: int) -> bool {
    exists|j: int| 0 <= j < acc.len() && prec_eq3(#[trigger] acc[j], p, e)
}

/// The kept points after scanning `s` with accumulator `acc`.
pub open spec fn dedup_rec(
    s: Seq<(int, int, int)>,
    acc: Seq<(int, int, int)>,
    e: int,
) -> Seq<(int, int, int)>
    decreases s.len(),
{
    if s.len() == 0 {
        acc
    } else {
        dedup_rec(
            s.drop_first(),
            if near_any(acc, s.first(), e) {
                acc
            } else {
                acc.push(s.first())
            },
            e,
        )
    }
}

/// The deduplicated form of a point sequence.
pub open spec fn dedup3(s: Seq<(int, int, int)>, e: int) -> Seq<(int, int, int)> {
    dedup_rec(s, Seq::empty(), e)
}

proof fn lemma_dedup_rec_push(s: Seq<(int, int, int)>, acc: Seq<(int, int, int)>, x: (int, int, int), e: int)
    ensures
        dedup_rec(s.push(x), acc, e) == (if near_any(dedup_rec(s, acc, e), x, e) {
            dedup_rec(s, acc, e)
        } else {
            dedup_rec(s, acc, e).push(x)
        }),
    decreases s.len(),
{
    reveal_with_fuel(dedup_rec, 3);
    if s.len() == 0 {
        assert(s.push(x).drop_first() =~= Seq::<(int, int, int)>::empty());
        assert(s.push(x).first() == x);
    } else {
        assert(s.push(x).first() == s.first());
        assert(s.push(x).drop_first() =~= s.drop_first().push(x));
        let acc2 = if near_any(acc, s.first(), e) {
            acc
        } else {
            acc.push(s.first())
        };
        assert(dedup_rec(s, acc, e) == dedup_rec(s.drop_first(), acc2, e));
        assert(dedup_rec(s.push(x), acc, e) == dedup_rec(s.drop_first().push(x), acc2, e));
        lemma_dedup_rec_push(s.drop_first(), acc2, x, e);
    }
}

proof fn lemma_dedup_rec_grows(s: Seq<(int, int, int)>, acc: Seq<(int, int, int)>, e: int)
    ensures
        acc.len() <= dedup_rec(s, acc, e).len() <= acc.len() + s.len(),
    decreases s.len(),
{
    if s.len() > 0 {
        let acc2 = if near_any(acc, s.first(), e) {
            acc
        } else {
            acc.push(s.first())
        };
        lemma_dedup_rec_grows(s.drop_first(), acc2, e);
    }
}

/// Approximate centroid of a raw point set: points within `e` of an earlier
/// point are dropped (first seen wins), the rest are averaged, and each
/// axis of the average within `e` of zero snaps to zero.
///
/// The average weighs every kept point equally, so this is a plain estimate,
/// not the mass centroid.
pub fn calc_cg_f3(vs: &Vec<V3>, e: i64) -> (r: Rat3)
    requires
        vs@.len() >= 1,
        vs@.len() <= 0x40000000,
        bounded3(seq3(vs@), 0x40000000),
    ensures
        rat3_wf(r),
        r.d == dedup3(seq3(vs@), e as int).len(),
        ({
            let dd = dedup3(seq3(vs@), e as int);
            let s = sum3_seq(dd);
            &&& r.n.x == (if abs_i(s.0) >= e * dd.len() {
                s.0
            } else {
                0int
            })
            &&& r.n.y == (if abs_i(s.1) >= e * dd.len() {
                s.1
            } else {
                0int
            })
            &&& r.n.z == (if abs_i(s.2) >= e * dd.len() {
                s.2
            } else {
                0int
            })
        }),
{
    let ghost sq = seq3(vs@);
    let mut vtmp: Vec<V3> = Vec::new();
    let mut i: usize = 0;
    proof {
        assert(sq.take(0) =~= Seq::<(int, int, int)>::empty());
        assert(dedup_rec(sq.take(0), Seq::empty(), e as int) =~= seq3(vtmp@));
    }
    while i < vs.len()
        invariant
            0 <= i <= vs@.len() <= 0x40000000,
            sq == seq3(vs@),
            bounded3(sq, 0x40000000),
            seq3(vtmp@) == dedup_rec(sq.take(i as int), Seq::empty(), e as int),
            vtmp@.len() <= i,
            bounded3(seq3(vtmp@), 0x40000000),
        decreases vs@.len() - i,
    {
        let v = vs[i];
        proof {
            assert(sq[i as int] == v.ints());
        }
        let mut found = false;
        let mut j: usize = 0;
        while j < vtmp.len()
            invariant_except_break
                0 <= j <= vtmp@.len(),
                !found,
                forall|j0: int|
                    0 <= j0 < j ==> !prec_eq3(#[trigger] seq3(vtmp@)[j0], v.ints(), e as int),
            ensures
                found == near_any(seq3(vtmp@), v.ints(), e as int),
            decreases vtmp@.len() - j,
        {
            let w = vtmp[j];
            proof {
                assert(seq3(vtmp@)[j as int] == w.ints());
            }
            if crate::aggregate::prec_eq(&w, e, &v) {
                found = true;
                proof {
                    assert(prec_eq3(seq3(vtmp@)[j as int], v.ints(), e as int));
                }
                break;
            }
            j = j + 1;
        }
        proof {
            lemma_take_push(sq, i as int);
            lemma_dedup_rec_push(sq.take(i as int), Seq::empty(), sq[i as int], e as int);
        }
        if !found {
            vtmp.push(v);
            proof {
                assert(seq3(vtmp@) =~= dedup_rec(sq.take(i as int + 1), Seq::empty(), e as int));
            }
        }
        i = i + 1;
    }
    proof {
        assert(sq.take(vs@.len() as int) =~= sq);
        lemma_dedup_rec_grows(sq, Seq::empty(), e as int);
        assert(dedup3(sq, e as int).len() >= 1) by {
            assert(sq.len() > 0);
            assert(!near_any(Seq::empty(), sq.first(), e as int));
            lemma_dedup_rec_grows(sq.drop_first(), Seq::empty().push(sq.first()), e as int);
        }
    }
    let s = crate::aggregate::sum_f3(&vtmp);
    let k: i64 = vtmp.len() as i64;
    let ghost dd = dedup3(sq, e as int);
    proof {
        lemma_abs_mul(e as int, k as int, 0x8000000000000000, 0x8000000000000000);
    }
    let ek: i128 = (e as i128) * (k as i128);
    let rx: i64 = if (if s.x >= 0 { s.x as i128 } else { -(s.x as i128) }) >= ek { s.x } else { 0 };
    let ry: i64 = if (if s.y >= 0 { s.y as i128 } else { -(s.y as i128) }) >= ek { s.y } else { 0 };
    let rz: i64 = if (if s.z >= 0 { s.z as i128 } else { -(s.z as i128) }) >= ek { s.z } else { 0 };
    Rat3 { n: V3 { x: rx, y: ry, z: rz }, d: k }
}

} // verus!
