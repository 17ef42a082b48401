//! Recentering: run the mass-property engine, then rewrite every vertex so
//! that the computed centroid moves to the origin.
//!
//! The centroid is the rational `p / (4 m)` in vertex units, so the exact
//! translated vertex `v - p / (4 m)` is represented by the new numerator
//! `s (4 m v - p)` over the new common denominator `s 4 m d`, where
//! `s` is the sign of `m`; the mesh stays on one integer lattice and the
//! translation is exact.

use vstd::prelude::*;

use crate::vector::V3;
use crate::vector::bounded3;
use crate::vector::lemma_abs_mul;
use crate::vector::lemma_bounded3_at;
use crate::vector::scl3;
use crate::vector::seq3;
use crate::vector::sub3;
use crate::engine::CgVol;
use crate::engine::Tri;
use crate::engine::calc_cg;
use crate::engine::coord_max;
use crate::engine::det_max;
use crate::engine::flat_tris;
use crate::engine::groups_view;
use crate::engine::mom_max;
use crate::engine::mom_sum;
use crate::engine::tri_max;
use crate::engine::tris_ok;
use crate::engine::vol6_sum;
use crate::scalar::lemma_mul_neg_left;
use crate::scalar::lemma_mul_pos;

verus! {

/// The value lies in the range of `i64`.
pub open spec fn in_i64(x: int) -> bool {
    -0x8000000000000000 <= x <= 0x7fffffffffffffff
}

/// Sign factor of a non-zero total: keeps the common denominator positive.
pub open spec fn sgn(m: int) -> int {
    if m >= 0 {
        1int
    } else {
        -1int
    }
}

/// The recentered vertex lattice: each vertex `v` becomes
/// `sgn(m) * (4 m v - p)` over the denominator `sgn(m) * 4 m * d`.
pub open spec fn recenter_map(vs: Seq<(int, int, int)>, m: int, p: (int, int, int)) -> Seq<
    (int, int, int),
> {
    Seq::new(vs.len(), |i: int| scl3(sgn(m), sub3(scl3(4 * m, vs[i]), p)))
}

/// Every recentered numerator fits the vertex storage.
pub open spec fn recenter_fits(vs: Seq<(int, int, int)>, m: int, p: (int, int, int)) -> bool {
    forall|i: int|
        0 <= i < vs.len() ==> {
            let w = #[trigger] recenter_map(vs, m, p)[i];
            in_i64(w.0) && in_i64(w.1) && in_i64(w.2)
        }
}

/// Recenter the mesh on its own centroid and report centroid and volume.
///
/// On success the vertex list holds the exact translation of every vertex by
/// `-p/(4m)` (encoded on the rescaled lattice) and the denominator becomes
/// `|4 m|` times the old one; the returned value carries the centroid
/// numerators `p` over `4 m` in old vertex units, and `m`, six times the
/// signed volume in old lattice units (divide by the old `den` cubed for
/// mesh units).  `None` is returned exactly when the mesh has zero total
/// signed volume or a recentered numerator would not fit the vertex storage;
/// the mesh is then left unchanged.
pub fn recenter_with_volume(idx: &Vec<Vec<Tri>>, vtx: &mut Vec<V3>, den: &mut i128) -> (r: Option<
    CgVol,
>)
    requires
        forall|g: int|
            0 <= g < idx@.len() ==> tris_ok((#[trigger] idx@[g])@, old(vtx)@.len() as int),
        bounded3(seq3(old(vtx)@), coord_max()),
        flat_tris(groups_view(idx@)).len() <= tri_max(),
        0 < *old(den) <= 0x8000000,
    ensures
        ({
            let ts = flat_tris(groups_view(idx@));
            let vs0 = seq3(old(vtx)@);
            let m = vol6_sum(ts, vs0);
            let p = mom_sum(ts, vs0);
            &&& (r is None <==> (m == 0 || !recenter_fits(vs0, m, p)))
            &&& (r is None ==> final(vtx)@ == old(vtx)@ && *final(den) == *old(den))
            &&& (r matches Some(cg) ==> {
                &&& cg.m == m
                &&& (cg.px as int, cg.py as int, cg.pz as int) == p
                &&& seq3(final(vtx)@) == recenter_map(vs0, m, p)
                &&& final(vtx)@.len() == old(vtx)@.len()
                &&& *final(den) == sgn(m) * (4 * m) * *old(den)
                &&& *final(den) > 0
            })
        }),
{
    let ghost ts = flat_tris(groups_view(idx@));
    let ghost vs0 = seq3(vtx@);
    let cg = calc_cg(idx, vtx);
    if cg.m == 0 {
        return None;
    }
    let ghost m = cg.m as int;
    let ghost p = (cg.px as int, cg.py as int, cg.pz as int);
    proof {
        lemma_abs_mul(4 * m, *den as int, 4 * tri_max() * det_max(), 0x8000000);
    }
    let m4: i128 = 4 * cg.m;
    let dnew: i128 = if cg.m > 0 {
        m4 * *den
    } else {
        -(m4 * *den)
    };
    let mut nv: Vec<V3> = Vec::new();
    let mut i: usize = 0;
    while i < vtx.len()
        invariant
            0 <= i <= vtx@.len(),
            vtx@ == old(vtx)@,
            *den == *old(den),
            vs0 == seq3(vtx@),
            ts == flat_tris(groups_view(idx@)),
            m == vol6_sum(ts, vs0),
            p == mom_sum(ts, vs0),
            bounded3(vs0, coord_max()),
            m4 == 4 * m,
            m == cg.m,
            m != 0,
            p == (cg.px as int, cg.py as int, cg.pz as int),
            -tri_max() * det_max() <= m <= tri_max() * det_max(),
            -tri_max() * mom_max() <= p.0 <= tri_max() * mom_max(),
            -tri_max() * mom_max() <= p.1 <= tri_max() * mom_max(),
            -tri_max() * mom_max() <= p.2 <= tri_max() * mom_max(),
            nv@.len() == i,
            forall|j: int| 0 <= j < i ==> (#[trigger] seq3(nv@)[j]) == recenter_map(vs0, m, p)[j],
        decreases vtx@.len() - i,
    {
        let v = vtx[i];
        proof {
            assert(vs0[i as int] == v.ints());
            lemma_bounded3_at(vs0, coord_max(), i as int);
            lemma_abs_mul(4 * m, v.x as int, 4 * tri_max() * det_max(), coord_max());
            lemma_abs_mul(4 * m, v.y as int, 4 * tri_max() * det_max(), coord_max());
            lemma_abs_mul(4 * m, v.z as int, 4 * tri_max() * det_max(), coord_max());
        }
        let tx: i128 = m4 * (v.x as i128) - cg.px;
        let ty: i128 = m4 * (v.y as i128) - cg.py;
        let tz: i128 = m4 * (v.z as i128) - cg.pz;
        let (wx, wy, wz) = if cg.m > 0 {
            (tx, ty, tz)
        } else {
            (-tx, -ty, -tz)
        };
        proof {
            assert(recenter_map(vs0, m, p)[i as int] == scl3(
                sgn(m),
                sub3(scl3(4 * m, vs0[i as int]), p),
            ));
        }
        if wx < -0x8000000000000000 || wx > 0x7fffffffffffffff || wy < -0x8000000000000000 || wy
            > 0x7fffffffffffffff || wz < -0x8000000000000000 || wz > 0x7fffffffffffffff {
            proof {
                let w = recenter_map(vs0, m, p)[i as int];
                assert(!(in_i64(w.0) && in_i64(w.1) && in_i64(w.2)));
                assert(!recenter_fits(vs0, m, p));
            }
            return None;
        }
        let w = V3 { x: wx as i64, y: wy as i64, z: wz as i64 };
        let ghost nv0 = nv@;
        nv.push(w);
        proof {
            assert(nv@ == nv0.push(w));
            assert forall|j: int| 0 <= j < i + 1 implies (#[trigger] seq3(nv@)[j]) == recenter_map(
                vs0,
                m,
                p,
            )[j] by {
                if j < i {
                    assert(nv@[j] == nv0[j]);
                    assert(seq3(nv0)[j] == recenter_map(vs0, m, p)[j]);
                } else {
                    assert(nv@[j] == w);
                    assert(w.ints() == (wx as int, wy as int, wz as int));
                }
            }
        }
        i = i + 1;
    }
    *vtx = nv;
    *den = dnew;
    proof {
        if cg.m > 0 {
            lemma_mul_pos(4 * m, *old(den) as int);
        } else {
            lemma_mul_neg_left(4 * m, *old(den) as int);
            lemma_mul_pos(-(4 * m), *old(den) as int);
        }
        assert(*den == sgn(m) * (4 * m) * *old(den));
        assert(seq3(vtx@) =~= recenter_map(vs0, m, p));
        assert(recenter_fits(vs0, m, p)) by {
            assert forall|j: int| 0 <= j < vs0.len() implies {
                let w = #[trigger] recenter_map(vs0, m, p)[j];
                in_i64(w.0) && in_i64(w.1) && in_i64(w.2)
            } by {
                assert(seq3(vtx@)[j] == recenter_map(vs0, m, p)[j]);
            }
        }
    }
    Some(cg)
}

/// Volume-ignoring recentering: compute the centroid and translate every
/// vertex onto it, for meshes whose volume is not meaningful to keep.
///
/// Same computation and contract as `recenter_with_volume`; only the
/// centroid part of the result is intended for the caller.
pub fn recenter(idx: &Vec<Vec<Tri>>, vtx: &mut Vec<V3>, den: &mut i128) -> (r: Option<CgVol>)
    requires
        forall|g: int|
            0 <= g < idx@.len() ==> tris_ok((#[trigger] idx@[g])@, old(vtx)@.len() as int),
        bounded3(seq3(old(vtx)@), coord_max()),
        flat_tris(groups_view(idx@)).len() <= tri_max(),
        0 < *old(den) <= 0x8000000,
    ensures
        ({
            let ts = flat_tris(groups_view(idx@));
            let vs0 = seq3(old(vtx)@);
            let m = vol6_sum(ts, vs0);
            let p = mom_sum(ts, vs0);
            &&& (r is None <==> (m == 0 || !recenter_fits(vs0, m, p)))
            &&& (r is None ==> final(vtx)@ == old(vtx)@ && *final(den) == *old(den))
            &&& (r matches Some(cg) ==> {
                &&& cg.m == m
                &&& (cg.px as int, cg.py as int, cg.pz as int) == p
                &&& seq3(final(vtx)@) == recenter_map(vs0, m, p)
                &&& final(vtx)@.len() == old(vtx)@.len()
                &&& *final(den) == sgn(m) * (4 * m) * *old(den)
                &&& *final(den) > 0
            })
        }),
{
    recenter_with_volume(idx, vtx, den)
}

} // verus!
