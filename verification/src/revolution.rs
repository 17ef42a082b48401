//! Revolution generator: sweep a 2D profile (axial offset, radius) around
//! the axis into a closed or open triangle mesh, then recenter it on its
//! own centroid.
//!
//! The angular directions are supplied as a table of (sin, cos) numerators
//! over a common denominator, so a vertex of ring `sn` and division `cn` is
//! the exact lattice point
//! `(r * rad * sin, r * off * tden, r * rad * cos)` over `pden * tden`.
//! Ring-major vertex order, quad strips between adjacent rings with the
//! angular index wrapping, and an apex plus a triangle fan for each fixed
//! end cap follow the classical sweep construction.

use vstd::prelude::*;

use vstd::arithmetic::div_mod::lemma_fundamental_div_mod_converse;

use crate::vector::V2;
use crate::vector::V3;
use crate::vector::bounded2;
use crate::vector::bounded3;
use crate::vector::lemma_abs_mul;
use crate::vector::lemma_bounded2_at;
use crate::vector::seq2;
use crate::vector::seq3;
use crate::engine::Tri;
use crate::engine::coord_max;
use crate::engine::flat_tris;
use crate::engine::groups_view;
use crate::engine::mom_sum;
use crate::engine::tri_max;
use crate::engine::tris_ok;
use crate::engine::vol6_sum;
use crate::recenter::recenter_fits;
use crate::recenter::recenter_map;
use crate::recenter::recenter_with_volume;
use crate::recenter::sgn;
use crate::scalar::lemma_mul_pos;

verus! {

/// Number of apex vertices added by the end-cap policy: one per fixed end.
pub open spec fn cap_count(fo: (bool, bool)) -> int {
    (if fo.0 {
        1int
    } else {
        0int
    }) + (if fo.1 {
        1int
    } else {
        0int
    })
}

/// Wrap an angular index one past the ring back to its start.
pub open spec fn wrap(j: int, c: int) -> int {
    if j >= c {
        j - c
    } else {
        j
    }
}

/// The vertex lattice of the un-recentered sweep: ring-major side vertices,
/// then the bottom apex (if the bottom end is fixed), then the top apex.
pub open spec fn rev_vtx(
    r: int,
    tbl: Seq<(int, int)>,
    dirs: Seq<(int, int)>,
    tden: int,
    fo: (bool, bool),
) -> Seq<(int, int, int)> {
    let s = tbl.len() as int;
    let c = dirs.len() as int;
    Seq::new(
        (s * c + cap_count(fo)) as nat,
        |i: int|
            if i < s * c {
                let sn = i / c;
                let cn = i % c;
                (
                    r * (tbl[sn].1 * dirs[cn].0),
                    r * (tbl[sn].0 * tden),
                    r * (tbl[sn].1 * dirs[cn].1),
                )
            } else if fo.0 && i == s * c {
                (0int, r * (tbl[0].0 * tden), 0int)
            } else {
                (0int, r * (tbl[s - 1].0 * tden), 0int)
            },
    )
}

/// A triangle from three index expressions.
pub open spec fn mk_tri(i: int, j: int, k: int) -> Tri {
    Tri { a: i as usize, b: j as usize, c: k as usize }
}

/// The face groups emitted for the quad cell between rings `sn`, `sn + 1`
/// at angular division `cn`: an optional bottom-fan triangle, the side
/// quad pair, and an optional top-fan triangle, in emission order.
pub open spec fn cell_groups(sn: int, cn: int, s: int, c: int, fo: (bool, bool)) -> Seq<Seq<Tri>> {
    let k = sn * c + cn;
    let kc = sn * c + wrap(cn + 1, c);
    let ks = (sn + 1) * c + cn;
    let ksc = (sn + 1) * c + wrap(cn + 1, c);
    let fo0 = s * c;
    let fo1 = s * c + (if fo.0 {
        1int
    } else {
        0int
    });
    let bot: Seq<Seq<Tri>> = if fo.0 && sn == 0 {
        seq![seq![mk_tri(fo0, kc, k)]]
    } else {
        Seq::empty()
    };
    let top: Seq<Seq<Tri>> = if fo.1 && sn == s - 2 {
        seq![seq![mk_tri(fo1, ks, ksc)]]
    } else {
        Seq::empty()
    };
    bot + seq![seq![mk_tri(k, kc, ksc), mk_tri(k, ksc, ks)]] + top
}

/// The face groups of the first `n` quad cells, in emission order
/// (cell `i` lies between rings `i / c` and `i / c + 1` at division
/// `i % c`).
pub open spec fn rev_groups_upto(n: nat, s: int, c: int, fo: (bool, bool)) -> Seq<Seq<Tri>>
    decreases n,
{
    if n == 0 {
        Seq::empty()
    } else {
        rev_groups_upto((n - 1) as nat, s, c, fo) + cell_groups(
            (n - 1) as int / c,
            (n - 1) as int % c,
            s,
            c,
            fo,
        )
    }
}

/// The full face-group list of the sweep: all `(s - 1) * c` quad cells.
pub open spec fn rev_groups(s: int, c: int, fo: (bool, bool)) -> Seq<Seq<Tri>> {
    rev_groups_upto(((s - 1) * c) as nat, s, c, fo)
}

/// Triangles emitted by the first `n` cells: two per cell, plus one per
/// bottom-ring cell when the bottom is fixed and one per top-ring cell when
/// the top is fixed.
pub open spec fn clamp0(x: int, c: int) -> int {
    if x <= 0 {
        0int
    } else if x >= c {
        c
    } else {
        x
    }
}

pub open spec fn tri_count_upto(n: int, s: int, c: int, fo: (bool, bool)) -> int {
    2 * n + (if fo.0 {
        clamp0(n, c)
    } else {
        0int
    }) + (if fo.1 {
        clamp0(n - (s - 2) * c, c)
    } else {
        0int
    })
}

/// Build the vertex list of the sweep.
fn rev_vertices(r: i64, tbl: &Vec<V2>, dirs: &Vec<V2>, tden: i64, fo: (bool, bool)) -> (vtx: Vec<
    V3,
>)
    requires
        tbl@.len() >= 1,
        dirs@.len() >= 1,
        tbl@.len() * dirs@.len() <= 32768,
        -256 <= r <= 256,
        bounded2(seq2(tbl@), 512),
        bounded2(seq2(dirs@), 512),
        0 < tden <= 512,
    ensures
        seq3(vtx@) == rev_vtx(r as int, seq2(tbl@), seq2(dirs@), tden as int, fo),
        vtx@.len() == tbl@.len() * dirs@.len() + cap_count(fo),
        bounded3(seq3(vtx@), coord_max()),
{
    let ghost tq = seq2(tbl@);
    let ghost dq = seq2(dirs@);
    let ghost model = rev_vtx(r as int, tq, dq, tden as int, fo);
    let s: usize = tbl.len();
    let c: usize = dirs.len();
    let mut vtx: Vec<V3> = Vec::new();
    let mut sn: usize = 0;
    while sn < s
        invariant
            0 <= sn <= s,
            s == tbl@.len(),
            c == dirs@.len(),
            s * c <= 32768,
            s >= 1,
            c >= 1,
            -256 <= r <= 256,
            bounded2(tq, 512),
            bounded2(dq, 512),
            0 < tden <= 512,
            tq == seq2(tbl@),
            dq == seq2(dirs@),
            model == rev_vtx(r as int, tq, dq, tden as int, fo),
            vtx@.len() == sn * c,
            forall|j: int| 0 <= j < sn * c ==> (#[trigger] seq3(vtx@)[j]) == model[j],
            bounded3(seq3(vtx@), coord_max()),
        decreases s - sn,
    {
        let off = tbl[sn].x;
        let rad = tbl[sn].y;
        proof {
            assert(tq[sn as int] == tbl@[sn as int].ints());
            lemma_bounded2_at(tq, 512, sn as int);
            assert(sn * c + c <= s * c) by (nonlinear_arith)
                requires
                    0 <= sn < s,
                    c >= 0,
            ;
        }
        let mut cn: usize = 0;
        while cn < c
            invariant
                0 <= cn <= c,
                0 <= sn < s,
                s == tbl@.len(),
                c == dirs@.len(),
                s * c <= 32768,
                c >= 1,
                sn * c + c <= s * c,
                -256 <= r <= 256,
                bounded2(tq, 512),
                bounded2(dq, 512),
                0 < tden <= 512,
                tq == seq2(tbl@),
                dq == seq2(dirs@),
                model == rev_vtx(r as int, tq, dq, tden as int, fo),
                off == tbl@[sn as int].x,
                rad == tbl@[sn as int].y,
                -512 <= off <= 512,
                -512 <= rad <= 512,
                vtx@.len() == sn * c + cn,
                forall|j: int| 0 <= j < sn * c + cn ==> (#[trigger] seq3(vtx@)[j]) == model[j],
                bounded3(seq3(vtx@), coord_max()),
            decreases c - cn,
        {
            let dir = dirs[cn];
            proof {
                assert(dq[cn as int] == dir.ints());
                lemma_bounded2_at(dq, 512, cn as int);
                lemma_abs_mul(rad as int, dir.x as int, 512, 512);
                lemma_abs_mul(rad as int, dir.y as int, 512, 512);
                lemma_abs_mul(off as int, tden as int, 512, 512);
                lemma_abs_mul(r as int, (rad as int) * (dir.x as int), 256, 262144);
                lemma_abs_mul(r as int, (rad as int) * (dir.y as int), 256, 262144);
                lemma_abs_mul(r as int, (off as int) * (tden as int), 256, 262144);
            }
            let wx: i128 = (r as i128) * ((rad as i128) * (dir.x as i128));
            let wy: i128 = (r as i128) * ((off as i128) * (tden as i128));
            let wz: i128 = (r as i128) * ((rad as i128) * (dir.y as i128));
            let v = V3 { x: wx as i64, y: wy as i64, z: wz as i64 };
            let ghost old_vtx = vtx@;
            vtx.push(v);
            proof {
                let i = sn * c + cn;
                lemma_fundamental_div_mod_converse(i as int, c as int, sn as int, cn as int);
                assert(model[i as int] == (
                    (r as int) * (tq[sn as int].1 * dq[cn as int].0),
                    (r as int) * (tq[sn as int].0 * (tden as int)),
                    (r as int) * (tq[sn as int].1 * dq[cn as int].1),
                ));
                assert(v.ints() == model[i as int]);
                assert(vtx@ == old_vtx.push(v));
                assert forall|j: int| 0 <= j < i + 1 implies (#[trigger] seq3(vtx@)[j])
                    == model[j] by {
                    if j < i {
                        assert(vtx@[j] == old_vtx[j]);
                        assert(seq3(old_vtx)[j] == model[j]);
                    } else {
                        assert(vtx@[j] == v);
                    }
                }
                assert forall|j: int| 0 <= j < seq3(vtx@).len() implies (-coord_max() <= (
                #[trigger] seq3(vtx@)[j]).0 <= coord_max() && -coord_max() <= seq3(vtx@)[j].1
                    <= coord_max() && -coord_max() <= seq3(vtx@)[j].2 <= coord_max()) by {
                    if j < i {
                        assert(vtx@[j] == old_vtx[j]);
                        assert(-coord_max() <= seq3(old_vtx)[j].0 <= coord_max());
                    } else {
                        assert(vtx@[j] == v);
                    }
                }
            }
            cn = cn + 1;
        }
        proof {
            assert((sn as int + 1) * c == sn as int * c + c) by (nonlinear_arith);
        }
        sn = sn + 1;
    }
    proof {
        lemma_abs_mul(tbl@[0].x as int, tden as int, 512, 512);
        lemma_abs_mul(r as int, (tbl@[0].x as int) * (tden as int), 256, 262144);
        lemma_abs_mul(tbl@[s - 1].x as int, tden as int, 512, 512);
        lemma_abs_mul(r as int, (tbl@[s - 1].x as int) * (tden as int), 256, 262144);
        lemma_bounded2_at(tq, 512, 0);
        lemma_bounded2_at(tq, 512, s as int - 1);
        assert(tq[0] == tbl@[0].ints());
        assert(tq[s - 1] == tbl@[s as int - 1].ints());
    }
    if fo.0 {
        let wy: i128 = (r as i128) * ((tbl[0].x as i128) * (tden as i128));
        let ghost old_vtx = vtx@;
        let v = V3 { x: 0, y: wy as i64, z: 0 };
        vtx.push(v);
        proof {
            let i = s * c;
            assert(v.ints() == model[i as int]);
            assert forall|j: int| 0 <= j < i + 1 implies (#[trigger] seq3(vtx@)[j]) == model[j] by {
                if j < i {
                    assert(vtx@[j] == old_vtx[j]);
                    assert(seq3(old_vtx)[j] == model[j]);
                } else {
                    assert(vtx@[j] == v);
                }
            }
            assert forall|j: int| 0 <= j < seq3(vtx@).len() implies (-coord_max() <= (
            #[trigger] seq3(vtx@)[j]).0 <= coord_max() && -coord_max() <= seq3(vtx@)[j].1
                <= coord_max() && -coord_max() <= seq3(vtx@)[j].2 <= coord_max()) by {
                if j < i {
                    assert(vtx@[j] == old_vtx[j]);
                    assert(-coord_max() <= seq3(old_vtx)[j].0 <= coord_max());
                } else {
                    assert(vtx@[j] == v);
                }
            }
        }
    }
    if fo.1 {
        let wy: i128 = (r as i128) * ((tbl[s - 1].x as i128) * (tden as i128));
        let ghost old_vtx = vtx@;
        let ghost n0 = vtx@.len() as int;
        let v = V3 { x: 0, y: wy as i64, z: 0 };
        vtx.push(v);
        proof {
            assert(v.ints() == model[n0]);
            assert forall|j: int| 0 <= j < n0 + 1 implies (#[trigger] seq3(vtx@)[j]) == model[j] by {
                if j < n0 {
                    assert(vtx@[j] == old_vtx[j]);
                    assert(seq3(old_vtx)[j] == model[j]);
                } else {
                    assert(vtx@[j] == v);
                }
            }
            assert forall|j: int| 0 <= j < seq3(vtx@).len() implies (-coord_max() <= (
            #[trigger] seq3(vtx@)[j]).0 <= coord_max() && -coord_max() <= seq3(vtx@)[j].1
                <= coord_max() && -coord_max() <= seq3(vtx@)[j].2 <= coord_max()) by {
                if j < n0 {
                    assert(vtx@[j] == old_vtx[j]);
                    assert(-coord_max() <= seq3(old_vtx)[j].0 <= coord_max());
                } else {
                    assert(vtx@[j] == v);
                }
            }
        }
    }
    proof {
        assert(seq3(vtx@) =~= model);
    }
    vtx
}

/// The flattened triangles of one quad cell, and their number.
pub proof fn lemma_cell_flat(sn: int, cn: int, s: int, c: int, fo: (bool, bool))
    ensures
        flat_tris(cell_groups(sn, cn, s, c, fo)).len() == 2 + (if fo.0 && sn == 0 {
            1int
        } else {
            0int
        }) + (if fo.1 && sn == s - 2 {
            1int
        } else {
            0int
        }),
{
    let k = sn * c + cn;
    let kc = sn * c + wrap(cn + 1, c);
    let ks = (sn + 1) * c + cn;
    let ksc = (sn + 1) * c + wrap(cn + 1, c);
    let fo0 = s * c;
    let fo1 = s * c + (if fo.0 {
        1int
    } else {
        0int
    });
    let bot: Seq<Seq<Tri>> = if fo.0 && sn == 0 {
        seq![seq![mk_tri(fo0, kc, k)]]
    } else {
        Seq::empty()
    };
    let mid: Seq<Seq<Tri>> = seq![seq![mk_tri(k, kc, ksc), mk_tri(k, ksc, ks)]];
    let top: Seq<Seq<Tri>> = if fo.1 && sn == s - 2 {
        seq![seq![mk_tri(fo1, ks, ksc)]]
    } else {
        Seq::empty()
    };
    crate::engine::lemma_flat_concat(bot + mid, top);
    crate::engine::lemma_flat_concat(bot, mid);
    crate::engine::lemma_flat_singleton(seq![mk_tri(k, kc, ksc), mk_tri(k, ksc, ks)]);
    if fo.0 && sn == 0 {
        crate::engine::lemma_flat_singleton(seq![mk_tri(fo0, kc, k)]);
    }
    if fo.1 && sn == s - 2 {
        crate::engine::lemma_flat_singleton(seq![mk_tri(fo1, ks, ksc)]);
    }
}

/// Triangle count law for the sweep: the first `n` cells hold
/// `tri_count_upto(n)` triangles, so the full sweep has
/// `2 (s - 1) c` side triangles plus `c` per fixed end cap.
pub proof fn lemma_rev_count(n: nat, s: int, c: int, fo: (bool, bool))
    requires
        c >= 1,
        s >= 3,
        n <= (s - 1) * c,
    ensures
        flat_tris(rev_groups_upto(n, s, c, fo)).len() == tri_count_upto(n as int, s, c, fo),
    decreases n,
{
    if n > 0 {
        lemma_rev_count((n - 1) as nat, s, c, fo);
        let i = (n - 1) as int;
        let sn = i / c;
        let cn = i % c;
        assert(i == sn * c + cn && 0 <= cn < c) by {
            vstd::arithmetic::div_mod::lemma_fundamental_div_mod(i, c);
            vstd::arithmetic::div_mod::lemma_mod_bound(i, c);
        }
        assert(sn >= 0) by (nonlinear_arith)
            requires
                i >= 0,
                c >= 1,
                i == sn * c + cn,
                cn < c,
        ;
        assert(sn <= s - 2) by (nonlinear_arith)
            requires
                i < (s - 1) * c,
                c >= 1,
                i == sn * c + cn,
                0 <= cn,
        ;
        crate::engine::lemma_flat_concat(
            rev_groups_upto((n - 1) as nat, s, c, fo),
            cell_groups(sn, cn, s, c, fo),
        );
        lemma_cell_flat(sn, cn, s, c, fo);
        assert(sn == 0 <==> i < c) by (nonlinear_arith)
            requires
                i == sn * c + cn,
                0 <= cn < c,
                sn >= 0,
                c >= 1,
        ;
        assert(sn == s - 2 ==> i - (s - 2) * c == cn) by (nonlinear_arith)
            requires
                i == sn * c + cn,
        ;
        assert(sn < s - 2 ==> i < (s - 2) * c) by (nonlinear_arith)
            requires
                i == sn * c + cn,
                0 <= cn < c,
                c >= 1,
        ;
    }
}

/// Build the face-group list of the sweep.
fn rev_triangles(s: usize, c: usize, fo: (bool, bool)) -> (tri: Vec<Vec<Tri>>)
    requires
        s >= 3,
        c >= 1,
        s * c <= 32768,
    ensures
        groups_view(tri@) == rev_groups(s as int, c as int, fo),
        forall|g: int|
            0 <= g < tri@.len() ==> tris_ok((#[trigger] tri@[g])@, s * c + cap_count(fo)),
{
    let ghost si = s as int;
    let ghost ci = c as int;
    let fo0: usize = s * c;
    let fo1: usize = if fo.0 {
        s * c + 1
    } else {
        s * c
    };
    let mut tri: Vec<Vec<Tri>> = Vec::new();
    let ghost total = s * c + cap_count(fo);
    let mut sn: usize = 0;
    while sn < s - 1
        invariant
            0 <= sn <= si - 1,
            si == s as int,
            ci == c as int,
            s >= 3,
            c >= 1,
            s * c <= 32768,
            fo0 == s * c,
            fo1 == s * c + (if fo.0 {
                1int
            } else {
                0int
            }),
            total == s * c + cap_count(fo),
            groups_view(tri@) == rev_groups_upto((sn * c) as nat, si, ci, fo),
            forall|g: int| 0 <= g < tri@.len() ==> tris_ok((#[trigger] tri@[g])@, total),
        decreases s - 1 - sn,
    {
        proof {
            assert(sn * c + c <= (si - 1) * ci) by (nonlinear_arith)
                requires
                    0 <= sn < si - 1,
                    ci >= 1,
                    ci == c,
            ;
            assert((si - 1) * ci + ci == si * ci) by (nonlinear_arith);
        }
        let mut cn: usize = 0;
        while cn < c
            invariant
                0 <= cn <= ci,
                0 <= sn < si - 1,
                si == s as int,
                ci == c as int,
                s >= 3,
                c >= 1,
                s * c <= 32768,
                sn * c + c <= (si - 1) * ci,
                (si - 1) * ci + ci == si * ci,
                fo0 == s * c,
                fo1 == s * c + (if fo.0 {
                    1int
                } else {
                    0int
                }),
                total == s * c + cap_count(fo),
                groups_view(tri@) == rev_groups_upto((sn * c + cn) as nat, si, ci, fo),
                forall|g: int| 0 <= g < tri@.len() ==> tris_ok((#[trigger] tri@[g])@, total),
            decreases c - cn,
        {
            proof {
                assert((sn as int + 2) * (c as int) <= si * ci) by (nonlinear_arith)
                    requires
                        0 <= sn as int <= si - 2,
                        ci >= 1,
                        c == ci,
                ;
                assert((sn as int + 1) * (c as int) <= si * ci) by (nonlinear_arith)
                    requires
                        0 <= sn as int <= si - 1,
                        ci >= 1,
                        c == ci,
                ;
            }
            proof {
                assert((sn as int + 1) * c == sn as int * c + c) by (nonlinear_arith);
                assert((sn as int + 2) * c == sn as int * c + c + c) by (nonlinear_arith);
            }
            let k: usize = sn * c + cn;
            let ks: usize = k + c;
            let mut ksc: usize = k + c + 1;
            if ksc >= (sn + 2) * c {
                ksc = ksc - c;
            }
            let mut kc: usize = k + 1;
            if kc >= (sn + 1) * c {
                kc = kc - c;
            }
            let ghost i = sn as int * ci + cn as int;
            proof {
                lemma_fundamental_div_mod_converse(i, ci, sn as int, cn as int);
                assert(kc == sn as int * ci + wrap(cn as int + 1, ci));
                assert(ksc == (sn as int + 1) * ci + wrap(cn as int + 1, ci));
                assert(ks == (sn as int + 1) * ci + cn as int);
            }
            let ghost before = groups_view(tri@);
            let ghost cell = cell_groups(sn as int, cn as int, si, ci, fo);
            if fo.0 && sn == 0 {
                tri.push(vec![Tri { a: fo0, b: kc, c: k }]);
            }
            tri.push(vec![Tri { a: k, b: kc, c: ksc }, Tri { a: k, b: ksc, c: ks }]);
            if fo.1 && sn == s - 2 {
                tri.push(vec![Tri { a: fo1, b: ks, c: ksc }]);
            }
            proof {
                assert(groups_view(tri@) =~~= before + cell);
                assert(rev_groups_upto((i + 1) as nat, si, ci, fo) == rev_groups_upto(
                    i as nat,
                    si,
                    ci,
                    fo,
                ) + cell_groups(i / ci, i % ci, si, ci, fo));
                assert(groups_view(tri@) == rev_groups_upto((sn * c + cn + 1) as nat, si, ci, fo));
                assert(forall|g: int|
                    0 <= g < tri@.len() ==> tris_ok((#[trigger] tri@[g])@, total));
            }
            cn = cn + 1;
        }
        proof {
            assert(sn as int * ci + ci == (sn as int + 1) * ci) by (nonlinear_arith);
        }
        sn = sn + 1;
    }
    proof {
        assert((sn * c) as nat == ((si - 1) * ci) as nat);
    }
    tri
}

/// An exact scalar value `n / d`.
#[derive(Clone, Copy, Debug, PartialEq, Eq, Structural)]
pub struct Frac {
    pub n: i128,
    pub d: i128,
}

/// A triangulated solid: vertex numerators over one common denominator,
/// face groups of triangles, the signed volume element, and whether the
/// mesh has been recentered on its centroid.
#[derive(Debug)]
pub struct Polyhedron {
    /// Vertex numerators; the exact position of vertex `i` is `vtx[i] / den`.
    pub vtx: Vec<V3>,
    /// Common positive denominator of every vertex.
    pub den: i128,
    /// Face groups: each inner list is one logical surface patch.
    pub tri: Vec<Vec<Tri>>,
    /// Six times the signed volume, as an exact fraction in mesh units.
    pub vol: Frac,
    /// True when the mesh was recentered by the volume-based pass.
    pub center: bool,
}

/// Well-formedness of a mesh: positive denominator and every triangle
/// index inside the vertex list.
pub open spec fn ph_wf(ph: Polyhedron) -> bool {
    &&& ph.den > 0
    &&& forall|g: int|
        0 <= g < ph.tri@.len() ==> tris_ok((#[trigger] ph.tri@[g])@, ph.vtx@.len() as int)
}

/// A solid of revolution: the generated mesh, plus the edge list kept for
/// interface compatibility (not computed by the sweep).
#[derive(Debug)]
pub struct Revolution {
    /// The swept, recentered mesh.
    pub ph: Polyhedron,
    /// Duplex edge table; the sweep leaves it empty.
    pub edges: Vec<(u16, [u16; 8])>,
}

impl Revolution {
    /// Sweep a profile table into a recentered solid of revolution.
    ///
    /// `tbl` holds `2 p + 1` profile entries `(axial offset, radius)` as
    /// numerators over `pden`; `dirs` holds the `4 q` angular directions
    /// `(sin, cos)` as numerators over `tden`; `r` is an integer radial
    /// scale; `fo = (bottom, top)` marks each fixed end, which gains an
    /// apex vertex and a fan of cap triangles.  The mesh is recentered on
    /// its centroid; `None` is returned exactly when the sweep has zero
    /// total signed volume or the recentered lattice would overflow the
    /// vertex storage.
    pub fn new(
        r: i64,
        p: u16,
        q: u16,
        fo: (bool, bool),
        tbl: &Vec<V2>,
        dirs: &Vec<V2>,
        pden: i64,
        tden: i64,
    ) -> (res: Option<Revolution>)
        requires
            p >= 1,
            q >= 1,
            tbl@.len() == 2 * p + 1,
            dirs@.len() == 4 * q,
            (2 * p + 1) * (4 * q as int) <= 32768,
            -256 <= r <= 256,
            bounded2(seq2(tbl@), 512),
            bounded2(seq2(dirs@), 512),
            0 < pden <= 0x40000,
            0 < tden <= 512,
        ensures
            ({
                let s = 2 * p as int + 1;
                let c = 4 * q as int;
                let vs0 = rev_vtx(r as int, seq2(tbl@), seq2(dirs@), tden as int, fo);
                let gs = rev_groups(s, c, fo);
                let m = vol6_sum(flat_tris(gs), vs0);
                let mom = mom_sum(flat_tris(gs), vs0);
                &&& (res is None <==> (m == 0 || !recenter_fits(vs0, m, mom)))
                &&& (res matches Some(rev) ==> {
                    &&& groups_view(rev.ph.tri@) == gs
                    &&& seq3(rev.ph.vtx@) == recenter_map(vs0, m, mom)
                    &&& rev.ph.vtx@.len() == s * c + cap_count(fo)
                    &&& flat_tris(groups_view(rev.ph.tri@)).len() == 2 * ((s - 1) * c) + (if fo.0 {
                        c
                    } else {
                        0int
                    }) + (if fo.1 {
                        c
                    } else {
                        0int
                    })
                    &&& rev.ph.den == sgn(m) * (4 * m) * ((pden as int) * (tden as int))
                    &&& rev.ph.vol.n == m
                    &&& rev.ph.vol.d == ((pden as int) * (tden as int)) * (((pden as int) * (
                    tden as int)) * ((pden as int) * (tden as int)))
                    &&& rev.ph.center
                    &&& ph_wf(rev.ph)
                    &&& rev.edges@.len() == 0
                })
            }),
    {
        let s: usize = 2 * (p as usize) + 1;
        let c: usize = 4 * (q as usize);
        let ghost si = s as int;
        let ghost ci = c as int;
        proof {
            assert(si * ci == (2 * p as int + 1) * (4 * q as int)) by (nonlinear_arith)
                requires
                    si == 2 * p as int + 1,
                    ci == 4 * q as int,
            ;
        }
        let mut vtx = rev_vertices(r, tbl, dirs, tden, fo);
        let tri = rev_triangles(s, c, fo);
        let ghost vs0 = rev_vtx(r as int, seq2(tbl@), seq2(dirs@), tden as int, fo);
        let ghost gs = rev_groups(si, ci, fo);
        proof {
            lemma_rev_count(((si - 1) * ci) as nat, si, ci, fo);
            assert(clamp0((si - 1) * ci, ci) == ci) by (nonlinear_arith)
                requires
                    si >= 3,
                    ci >= 1,
            ;
            assert(clamp0((si - 1) * ci - (si - 2) * ci, ci) == ci) by (nonlinear_arith)
                requires
                    si >= 3,
                    ci >= 1,
            ;
            assert(2 * ((si - 1) * ci) + ci + ci <= 2 * (si * ci)) by (nonlinear_arith)
                requires
                    si >= 1,
                    ci >= 0,
            ;
            assert(flat_tris(gs).len() <= tri_max());
            lemma_mul_pos(pden as int, tden as int);
            lemma_abs_mul(pden as int, tden as int, 0x40000, 512);
        }
        let mut den: i128 = (pden as i128) * (tden as i128);
        let ghost den0 = den as int;
        proof {
            lemma_mul_pos(den0, den0);
            lemma_abs_mul(den0, den0, 0x8000000, 0x8000000);
            lemma_mul_pos(den0, den0 * den0);
            lemma_abs_mul(den0, den0 * den0, 0x8000000, 0x40000000000000);
        }
        let vold: i128 = den * (den * den);
        match recenter_with_volume(&tri, &mut vtx, &mut den) {
            None => None,
            Some(cg) => {
                let ph = Polyhedron {
                    vtx,
                    den,
                    tri,
                    vol: Frac { n: cg.m, d: vold },
                    center: true,
                };
                Some(Revolution { ph, edges: Vec::new() })
            },
        }
    }

    /// Sweep from an explicit profile table: the table-driven variant of
    /// the generator (the table is the profile function).
    pub fn from_tbl(
        r: i64,
        p: u16,
        q: u16,
        fo: (bool, bool),
        tbl: &Vec<V2>,
        dirs: &Vec<V2>,
        pden: i64,
        tden: i64,
    ) -> (res: Option<Revolution>)
        requires
            p >= 1,
            q >= 1,
            tbl@.len() == 2 * p + 1,
            dirs@.len() == 4 * q,
            (2 * p + 1) * (4 * q as int) <= 32768,
            -256 <= r <= 256,
            bounded2(seq2(tbl@), 512),
            bounded2(seq2(dirs@), 512),
            0 < pden <= 0x40000,
            0 < tden <= 512,
        ensures
            ({
                let s = 2 * p as int + 1;
                let c = 4 * q as int;
                let vs0 = rev_vtx(r as int, seq2(tbl@), seq2(dirs@), tden as int, fo);
                let gs = rev_groups(s, c, fo);
                let m = vol6_sum(flat_tris(gs), vs0);
                let mom = mom_sum(flat_tris(gs), vs0);
                &&& (res is None <==> (m == 0 || !recenter_fits(vs0, m, mom)))
                &&& (res matches Some(rev) ==> {
                    &&& groups_view(rev.ph.tri@) == gs
                    &&& seq3(rev.ph.vtx@) == recenter_map(vs0, m, mom)
                    &&& rev.ph.vtx@.len() == s * c + cap_count(fo)
                    &&& rev.ph.center
                    &&& ph_wf(rev.ph)
                })
            }),
    {
        Revolution::new(r, p, q, fo, tbl, dirs, pden, tden)
    }
}

} // verus!
