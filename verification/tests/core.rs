use polyhedron_faces::Rat;
use polyhedron_faces::Tri;
use polyhedron_faces::V2;
use polyhedron_faces::V3;
use polyhedron_faces::calc_cg;
use polyhedron_faces::calc_cg_f2_x;
use polyhedron_faces::calc_cg_f3;
use polyhedron_faces::calc_cg_o;
use polyhedron_faces::center_indexed;
use polyhedron_faces::divide_ext;
use polyhedron_faces::divide_int;
use polyhedron_faces::isqrt;
use polyhedron_faces::prec_eq;
use polyhedron_faces::recenter_with_volume;
use polyhedron_faces::round_prec;
use polyhedron_faces::sol;
use polyhedron_faces::solve;
use polyhedron_faces::solve2;
use polyhedron_faces::sum_f2;
use polyhedron_faces::sum_f3;
use polyhedron_faces::avg_f3;
use polyhedron_faces::Revolution;

fn v3(x: i64, y: i64, z: i64) -> V3 {
    V3 { x, y, z }
}

fn v2(x: i64, y: i64) -> V2 {
    V2 { x, y }
}

#[test]
fn test_isqrt() {
    assert_eq!(isqrt(0), 0);
    assert_eq!(isqrt(1), 1);
    assert_eq!(isqrt(15), 3);
    assert_eq!(isqrt(16), 4);
    assert_eq!(isqrt(u64::MAX), 4294967295);
}

/// Quadratic round-trip: for a=1, b=-3, c=2 the roots are (1, 2).
#[test]
fn test_solve_roots() {
    let (r1, r2) = solve(1, -3, 2).unwrap();
    assert!(r1.eq_rat(&Rat::from_int(1)));
    assert!(r2.eq_rat(&Rat::from_int(2)));
    // both roots satisfy the quadratic: a n^2 + b n d + c d^2 == 0
    for r in [r1, r2] {
        let (n, d) = (r.n as i128, r.d as i128);
        assert_eq!(n * n - 3 * n * d + 2 * d * d, 0);
    }
    // degenerate leading coefficient and negative discriminant are rejected
    assert!(solve(0, 1, 1).is_none());
    assert!(solve(1, 0, 1).is_none());
}

#[test]
fn test_solve2_roots() {
    let (r1, r2) = solve2(2, 0, -8).unwrap();
    assert!(r1.eq_rat(&Rat::from_int(-2)));
    assert!(r2.eq_rat(&Rat::from_int(2)));
    assert!(solve2(0, 3, 1).is_none());
    assert!(solve2(1, 0, 1).is_none());
}

#[test]
fn test_sol_picks_first_in_range() {
    let rs = vec![Rat::from_int(-2), Rat::from_int(2), Rat::from_int(1)];
    let hit = sol(&rs, Rat::from_int(0), Rat::from_int(2)).unwrap();
    assert!(hit.eq_rat(&Rat::from_int(2)));
    assert!(sol(&rs, Rat::from_int(5), Rat::from_int(6)).is_none());
}

/// Division ratio: the midpoint of [0,0,0] and [10,0,0] in ratio 1:1 is
/// [5,0,0]; external division in ratio 1:1 has a zero denominator and is
/// rejected.
#[test]
fn test_divide_ratio() {
    let p = v3(0, 0, 0);
    let q = v3(10, 0, 0);
    let w = divide_int(&p, &q, 1, 1).unwrap();
    assert_eq!(w.d, 2);
    assert_eq!(w.n.x, 10);
    assert_eq!(w.n.y, 0);
    assert_eq!(w.n.z, 0);
    assert_eq!(w.n.x, 5 * w.d); // value 5
    assert!(divide_ext(&p, &q, 1, 1).is_none());
    let e = divide_ext(&p, &q, 3, 1).unwrap();
    assert_eq!(e.d, 2);
    assert_eq!(e.n.x, 30); // value 15
}

#[test]
fn test_sums_and_averages() {
    let vs = vec![v3(1, 2, 3), v3(4, 5, 6)];
    let s = sum_f3(&vs);
    assert_eq!((s.x, s.y, s.z), (5, 7, 9));
    let a = avg_f3(&vs);
    assert_eq!(a.d, 2);
    assert_eq!(a.n.x, 5);
    let uv = vec![v2(1, 2), v2(3, 4)];
    let s2 = sum_f2(&uv);
    assert_eq!((s2.x, s2.y), (4, 6));
    let c = center_indexed(&vec![0u16, 0u16, 1u16], &vs);
    assert_eq!(c.d, 3);
    assert_eq!((c.n.x, c.n.y, c.n.z), (6, 9, 12));
}

#[test]
fn test_round_prec_and_prec_eq() {
    let r = round_prec(&v3(5, -3, 100), 4, 0);
    assert_eq!((r.x, r.y, r.z), (5, 0, 100));
    let r = round_prec(&v3(5, -3, 100), 4, 2);
    assert_eq!((r.x, r.y, r.z), (0, -5, 98));
    assert!(prec_eq(&v3(1, 2, 3), 2, &v3(2, 3, 4)));
    assert!(!prec_eq(&v3(1, 2, 3), 1, &v3(2, 3, 4)));
}

#[test]
fn test_calc_cg_o_is_quarter_sum() {
    let vs = vec![v3(1, 0, 0), v3(0, 1, 0), v3(0, 0, 1)];
    let r = calc_cg_o(&vs);
    assert_eq!(r.d, 4);
    assert_eq!((r.n.x, r.n.y, r.n.z), (1, 1, 1));
}

#[test]
fn test_calc_cg_f3_dedup() {
    let vs = vec![v3(0, 0, 0), v3(0, 0, 5), v3(0, 0, 0)];
    let r = calc_cg_f3(&vs, 1);
    // the duplicate origin is dropped: two kept points, average z = 5/2
    assert_eq!(r.d, 2);
    assert_eq!((r.n.x, r.n.y, r.n.z), (0, 0, 5));
}

/// The unit tetrahedron: total signed volume element 1 (six times the
/// enclosed volume 1/6), centroid (1,1,1)/4.
#[test]
fn test_calc_cg_unit_tetrahedron() {
    let vtx = vec![v3(0, 0, 0), v3(1, 0, 0), v3(0, 1, 0), v3(0, 0, 1)];
    let idx = vec![vec![
        Tri { a: 1, b: 2, c: 3 },
        Tri { a: 0, b: 2, c: 1 },
        Tri { a: 0, b: 1, c: 3 },
        Tri { a: 0, b: 3, c: 2 },
    ]];
    let cg = calc_cg(&idx, &vtx);
    assert_eq!(cg.m, 1);
    assert_eq!((cg.px, cg.py, cg.pz), (1, 1, 1));
}

#[test]
fn test_recenter_rejects_flat_mesh() {
    let idx = vec![vec![Tri { a: 0, b: 1, c: 2 }]];
    let mut vtx = vec![v3(1, 0, 0), v3(0, 1, 0), v3(1, 1, 0)];
    let mut den: i128 = 1;
    assert!(recenter_with_volume(&idx, &mut vtx, &mut den).is_none());
    assert_eq!(den, 1);
    assert_eq!(vtx[0], v3(1, 0, 0));
}

fn quarter_dirs() -> Vec<V2> {
    // (sin, cos) at 0, 90, 180, 270 degrees
    vec![v2(0, 1), v2(1, 0), v2(0, -1), v2(-1, 0)]
}

fn closed_profile() -> Vec<V2> {
    // (axial offset, radius): closed by the symmetric radii
    vec![v2(1, 1), v2(0, 1), v2(-1, 1), v2(0, 0), v2(1, 1)]
}

/// Vertex count law: an open sweep has (2p+1)*4q vertices; with both caps
/// fixed, two apexes more.  Triangle count law: 2*(2p)*(4q) side triangles
/// plus 4q per fixed cap.
#[test]
fn test_vertex_and_triangle_count() {
    let rev = Revolution::new(1, 2, 1, (false, false), &closed_profile(), &quarter_dirs(), 1, 1)
        .unwrap();
    assert_eq!(rev.ph.vtx.len(), 20); // (2*2+1) * 4
    let total: usize = rev.ph.tri.iter().map(|g| g.len()).sum();
    assert_eq!(total, 32); // 2 * (2*2) * 4
    assert_eq!(rev.ph.tri.len(), 16);
    assert!(rev.ph.center);
    assert!(rev.ph.den > 0);
    assert!(rev.ph.vol.n != 0);
    assert_eq!(rev.ph.vol.d, 1);

    // a solid cylinder with both end caps fixed
    let tbl = vec![v2(0, 2), v2(1, 2), v2(2, 2)];
    let rev = Revolution::new(1, 1, 1, (true, true), &tbl, &quarter_dirs(), 1, 1).unwrap();
    assert_eq!(rev.ph.vtx.len(), 3 * 4 + 2);
    let total: usize = rev.ph.tri.iter().map(|g| g.len()).sum();
    assert_eq!(total, 2 * 2 * 4 + 4 + 4);
}

/// End-to-end scenario: the closed profile swept at q = 1 gives 20 side
/// vertices and 32 side triangles, and after the recentering pass the
/// centroid of the mesh is exactly on the sweep axis.
#[test]
fn test_end_to_end_revolution() {
    let rev = Revolution::from_tbl(1, 2, 1, (false, false), &closed_profile(), &quarter_dirs(), 1, 1)
        .unwrap();
    assert_eq!(rev.ph.vtx.len(), 20);
    let total: usize = rev.ph.tri.iter().map(|g| g.len()).sum();
    assert_eq!(total, 32);
    // centroid of the recentered mesh: exactly zero on every axis
    let cg = calc_cg(&rev.ph.tri, &rev.ph.vtx);
    assert!(cg.m != 0);
    assert_eq!(cg.px, 0);
    assert_eq!(cg.py, 0);
    assert_eq!(cg.pz, 0);
}

/// Recentering idempotence: a second recentering pass leaves every vertex
/// unchanged as a point (same rational position on the rescaled lattice).
#[test]
fn test_recenter_idempotent() {
    let rev = Revolution::new(1, 2, 1, (false, false), &closed_profile(), &quarter_dirs(), 1, 1)
        .unwrap();
    let vtx1 = rev.ph.vtx.clone();
    let den1 = rev.ph.den;
    let mut vtx2 = rev.ph.vtx.clone();
    let mut den2 = rev.ph.den;
    let cg2 = recenter_with_volume(&rev.ph.tri, &mut vtx2, &mut den2).unwrap();
    assert_eq!((cg2.px, cg2.py, cg2.pz), (0, 0, 0));
    assert_eq!(vtx1.len(), vtx2.len());
    for i in 0..vtx1.len() {
        // v2 / den2 == v1 / den1, cross-multiplied
        assert_eq!(vtx2[i].x as i128 * den1, vtx1[i].x as i128 * den2);
        assert_eq!(vtx2[i].y as i128 * den1, vtx1[i].y as i128 * den2);
        assert_eq!(vtx2[i].z as i128 * den1, vtx1[i].z as i128 * den2);
    }
}

/// Closure invariant: the sign of the signed volume is fixed by the winding
/// convention, so the same convex profile swept at a finer angular
/// resolution keeps the same sign.
#[test]
fn test_volume_sign_consistent() {
    let rev1 = Revolution::new(1, 2, 1, (false, false), &closed_profile(), &quarter_dirs(), 1, 1)
        .unwrap();
    // eight directions at 45-degree steps, quantised over 99
    let dirs8 = vec![
        v2(0, 99),
        v2(70, 70),
        v2(99, 0),
        v2(70, -70),
        v2(0, -99),
        v2(-70, -70),
        v2(-99, 0),
        v2(-70, 70),
    ];
    let rev2 = Revolution::new(1, 2, 2, (false, false), &closed_profile(), &dirs8, 1, 99).unwrap();
    assert!(rev1.ph.vol.n != 0 && rev2.ph.vol.n != 0);
    assert_eq!(rev1.ph.vol.n > 0, rev2.ph.vol.n > 0);

    // and a scaled copy of the same solid keeps that sign too
    let rev3 = Revolution::new(2, 2, 1, (false, false), &closed_profile(), &quarter_dirs(), 1, 1)
        .unwrap();
    assert_eq!(rev1.ph.vol.n > 0, rev3.ph.vol.n > 0);
}

/// Profile centroid of the triangle (0,0)-(2,2)-(4,0): the half-area axis
/// sits exactly at x = 2.
#[test]
fn test_profile_centroid_triangle() {
    let vs = vec![v2(0, 0), v2(2, 2), v2(4, 0)];
    let x = calc_cg_f2_x(&vs).unwrap();
    assert!(x.eq_rat(&Rat::from_int(2)));
}

/// A profile whose straddling edge has constant width degenerates the
/// quadratic; the fallback is reported, not silently folded into zero.
#[test]
fn test_profile_centroid_degenerate_edge() {
    let vs = vec![v2(0, 2), v2(2, 2), v2(2, 0), v2(0, 0)];
    assert!(calc_cg_f2_x(&vs).is_none());
}
