//! Planar profile centroid: the x-axis centroid of a closed 2D polygon by
//! signed-area boundary integration.
//!
//! Consecutive profile points contribute signed trapezoid areas; the first
//! cumulative sum to reach half the total area marks the edge straddling
//! the centroid axis, and a quadratic in the interpolation fraction locates
//! the exact position inside that edge.  All areas are kept doubled so the
//! scan is exact in integers; a root that does not lie within the edge is
//! reported as `None` rather than folded into a zero fallback.

use vstd::prelude::*;

use crate::vector::V2;
use crate::vector::abs_i;
use crate::vector::bounded2;
use crate::vector::lemma_abs_mul;
use crate::vector::lemma_bounded2_at;
use crate::vector::seq2;
use crate::scalar::Rat;
use crate::scalar::in_range;
use crate::scalar::is_sqrt_floor;
use crate::scalar::lemma_mul_cancel;
use crate::scalar::lemma_mul_neg_neg;
use crate::scalar::rat_le;
use crate::scalar::rat_wf;
use crate::scalar::sol;
use crate::scalar::solve2;

verus! {

/// Doubled signed trapezoid area of the edge from point `i` to `i + 1`.
pub open spec fn area2_at(vs: Seq<(int, int)>, i: int) -> int {
    (vs[i + 1].0 - vs[i].0) * (vs[i + 1].1 + vs[i].1)
}

/// Doubled cumulative area of the first `k` edges.
pub open spec fn cum2(vs: Seq<(int, int)>, k: int) -> int
    decreases k,
{
    if k <= 0 {
        0
    } else {
        cum2(vs, k - 1) + area2_at(vs, k - 1)
    }
}

/// Doubled total signed area of the profile.
pub open spec fn area_total(vs: Seq<(int, int)>) -> int {
    cum2(vs, vs.len() - 1)
}

/// Index `k` marks the edge straddling the half-area point: the first
/// cumulative sum to reach half the total.
pub open spec fn straddle_at(vs: Seq<(int, int)>, k: int) -> bool {
    &&& 1 <= k < vs.len()
    &&& 2 * cum2(vs, k) >= area_total(vs)
    &&& forall|j: int| 1 <= j < k ==> 2 * #[trigger] cum2(vs, j) < area_total(vs)
}

/// The quadratic `(a, b2, c)` relating the interpolation fraction to the
/// area inside the straddling edge `k`, cleared of the fraction's
/// denominator.
pub open spec fn edge_quad(vs: Seq<(int, int)>, k: int) -> (int, int, int) {
    let md = 2 * area2_at(vs, k - 1);
    let mn = area_total(vs) - 2 * cum2(vs, k - 1);
    let h = vs[k].0 - vs[k - 1].0;
    let w0 = vs[k - 1].1;
    let w1 = vs[k].1;
    (md * (w1 - w0), md * (h * w0), -(mn * (h * (h * (w1 + w0)))))
}

/// The root with numerator `num` over the denominator `aq` lies in `[0, h]`.
pub open spec fn root_in01(num: int, aq: int, h: int) -> bool {
    if aq > 0 {
        0 <= num && num <= h * aq
    } else {
        0 >= num && num >= h * aq
    }
}

/// What `calc_cg_f2_x` reports at the straddling edge `k`: `None` when the
/// quadratic degenerates, has a negative discriminant or no root within the
/// edge; else the first of the two roots within the edge, shifted to the
/// edge's start.
pub open spec fn profile_result(vs: Seq<(int, int)>, k: int, r: Option<Rat>) -> bool {
    let q = edge_quad(vs, k);
    let aq = q.0;
    let bq = q.1;
    let cq = q.2;
    let h0 = vs[k - 1].0;
    let h = vs[k].0 - h0;
    if aq == 0 || bq * bq - aq * cq < 0 {
        r is None
    } else {
        exists|rt: int|
            {
                &&& #[trigger] is_sqrt_floor(rt, bq * bq - aq * cq)
                &&& match r {
                    None => !root_in01(-bq - rt, aq, h) && !root_in01(-bq + rt, aq, h),
                    Some(x) => {
                        &&& x.d == abs_i(aq)
                        &&& if root_in01(-bq - rt, aq, h) {
                            x.n == (if aq > 0 {
                                -bq - rt
                            } else {
                                bq + rt
                            }) + h0 * x.d
                        } else {
                            &&& root_in01(-bq + rt, aq, h)
                            &&& x.n == (if aq > 0 {
                                -bq + rt
                            } else {
                                bq - rt
                            }) + h0 * x.d
                        }
                    },
                }
            }
    }
}

/// A normalised root lies in `[0, h]` as a rational exactly when its raw
/// numerator over the raw denominator does.
proof fn lemma_root_range(rr: Rat, num: int, aq: int, h: i64)
    requires
        aq != 0,
        rat_wf(rr),
        rr.d == abs_i(aq),
        rr.n == (if aq > 0 {
            num
        } else {
            -num
        }),
    ensures
        in_range(rr, Rat { n: 0, d: 1 }, Rat { n: h, d: 1 }) == root_in01(num, aq, h as int),
{
    let zero = Rat { n: 0, d: 1 };
    let he = Rat { n: h, d: 1 };
    assert(rat_le(zero, rr) == (0 <= rr.n)) by (nonlinear_arith)
        requires
            zero.n == 0 && zero.d == 1 && rr.d > 0,
    ;
    assert(rat_le(rr, he) == (rr.n <= (h as int) * rr.d)) by (nonlinear_arith)
        requires
            he.n == h as int && he.d == 1 && rr.d > 0,
    ;
    if aq > 0 {
        assert(rr.d == aq);
    } else {
        assert(rr.d == -aq);
        assert((h as int) * (-aq) == -((h as int) * aq)) by (nonlinear_arith);
    }
}

/// The x-axis centroid of a closed 2D polygon profile.
///
/// The signed trapezoid areas of consecutive edges accumulate until the
/// running sum first reaches half the total; inside that edge the exact
/// position solves a quadratic, and the first root lying within the edge's
/// x-range, shifted by the edge's start, is the centroid (the y coordinate
/// is not computed by this routine).  `None` preserves the reference
/// computation's fallback cases: a degenerate quadratic, a discriminant
/// with no representable square root, or no root within the edge.
pub fn calc_cg_f2_x(vs: &Vec<V2>) -> (r: Option<Rat>)
    requires
        2 <= vs@.len() <= 24,
        bounded2(seq2(vs@), 24),
        area_total(seq2(vs@)) > 0,
    ensures
        r matches Some(x) ==> rat_wf(x),
        exists|k: int| #[trigger] straddle_at(seq2(vs@), k) && profile_result(seq2(vs@), k, r),
{
    let ghost sq = seq2(vs@);
    let n = vs.len();
    let mut cums: Vec<i64> = Vec::new();
    cums.push(0);
    let mut i: usize = 1;
    while i < n
        invariant
            1 <= i <= n,
            n == vs@.len(),
            2 <= n <= 24,
            sq == seq2(vs@),
            bounded2(sq, 24),
            cums@.len() == i,
            forall|k: int| 0 <= k < i ==> (#[trigger] cums@[k]) == cum2(sq, k),
            forall|k: int| 0 <= k < i ==> -2304 * k <= #[trigger] cums@[k] <= 2304 * k,
        decreases n - i,
    {
        let p0 = vs[i - 1];
        let p1 = vs[i];
        proof {
            assert(sq[i - 1] == p0.ints());
            assert(sq[i as int] == p1.ints());
            lemma_bounded2_at(sq, 24, i - 1);
            lemma_bounded2_at(sq, 24, i as int);
            lemma_abs_mul(p1.x as int - p0.x as int, p1.y as int + p0.y as int, 48, 48);
        }
        let a: i64 = (p1.x - p0.x) * (p1.y + p0.y);
        let prev = cums[i - 1];
        cums.push(prev + a);
        proof {
            assert(cums@[i as int] == cum2(sq, i as int));
        }
        i = i + 1;
    }
    let total = cums[n - 1];
    proof {
        assert(total == area_total(sq));
    }
    let mut kidx: usize = n - 1;
    let mut found = false;
    let mut j: usize = 1;
    while j < n
        invariant
            1 <= j <= n,
            n == vs@.len(),
            2 <= n <= 24,
            sq == seq2(vs@),
            total == area_total(sq),
            area_total(sq) > 0,
            cums@.len() == n,
            forall|k: int| 0 <= k < n ==> (#[trigger] cums@[k]) == cum2(sq, k),
            forall|k: int| 0 <= k < n ==> -2304 * k <= #[trigger] cums@[k] <= 2304 * k,
            found ==> straddle_at(sq, kidx as int),
            !found ==> forall|j0: int| 1 <= j0 < j ==> 2 * #[trigger] cum2(sq, j0) < area_total(
                sq,
            ),
            !found ==> kidx == n - 1,
            1 <= kidx < n,
        decreases n - j,
    {
        if !found && 2 * cums[j] >= total {
            kidx = j;
            found = true;
            proof {
                assert(straddle_at(sq, j as int));
            }
        }
        j = j + 1;
    }
    proof {
        if !found {
            assert(2 * cum2(sq, n - 1) < area_total(sq));
            assert(cum2(sq, n - 1) == area_total(sq));
            assert(false);
        }
    }
    let ghost kk = kidx as int;
    let md: i64 = 2 * (cums[kidx] - cums[kidx - 1]);
    let mn: i64 = total - 2 * cums[kidx - 1];
    let p0 = vs[kidx - 1];
    let p1 = vs[kidx];
    let h0 = p0.x;
    let w0 = p0.y;
    let h: i64 = p1.x - h0;
    let w1 = p1.y;
    proof {
        assert(sq[kk - 1] == p0.ints());
        assert(sq[kk] == p1.ints());
        lemma_bounded2_at(sq, 24, kk - 1);
        lemma_bounded2_at(sq, 24, kk);
        assert(cum2(sq, kk) == cum2(sq, kk - 1) + area2_at(sq, kk - 1));
        lemma_abs_mul(sq[kk].0 - sq[kk - 1].0, sq[kk].1 + sq[kk - 1].1, 48, 48);
        assert(md == 2 * area2_at(sq, kk - 1));
        // the straddle property bounds the fraction: 0 < mn <= md
        if kk > 1 {
            assert(2 * cum2(sq, kk - 1) < area_total(sq));
        } else {
            assert(cum2(sq, 0) == 0);
        }
        assert(2 * cum2(sq, kk as int) >= area_total(sq));
        assert(0 < mn <= md);
        lemma_abs_mul(md as int, w1 as int - w0 as int, 4608, 48);
        lemma_abs_mul(h as int, w0 as int, 48, 24);
        lemma_abs_mul(md as int, (h as int) * (w0 as int), 4608, 1152);
        lemma_abs_mul(h as int, w1 as int + w0 as int, 48, 48);
        lemma_abs_mul(h as int, (h as int) * ((w1 + w0) as int), 48, 2304);
        lemma_abs_mul(mn as int, (h as int) * ((h as int) * ((w1 + w0) as int)), 4608, 110592);
    }
    let aq: i64 = md * (w1 - w0);
    let bq: i64 = md * (h * w0);
    let cq: i64 = -(mn * (h * (h * (w1 + w0))));
    proof {
        assert(edge_quad(sq, kk) == (aq as int, bq as int, cq as int));
    }
    match solve2(aq, bq, cq) {
        None => {
            proof {
                assert(profile_result(sq, kk, Option::<Rat>::None));
            }
            None
        },
        Some((r1, r2)) => {
            let ghost disc = (bq as int) * (bq as int) - (aq as int) * (cq as int);
            let ghost rtw: int = choose|rt: int|
                {
                    &&& #[trigger] is_sqrt_floor(rt, (bq as int) * (bq as int) - (aq as int) * (
                    cq as int))
                    &&& r1.n * (aq as int) == (-(bq as int) - rt) * r1.d
                    &&& r2.n * (aq as int) == (-(bq as int) + rt) * r2.d
                };
            proof {
                // pin the raw numerators of the two normalised roots
                if aq > 0 {
                    assert(r1.d == aq as int);
                    lemma_mul_cancel(r1.n as int, -(bq as int) - rtw, aq as int);
                    lemma_mul_cancel(r2.n as int, -(bq as int) + rtw, aq as int);
                } else {
                    assert(r1.d == -(aq as int));
                    lemma_mul_neg_neg(bq as int + rtw, aq as int);
                    lemma_mul_neg_neg(bq as int - rtw, aq as int);
                    lemma_mul_cancel(r1.n as int, bq as int + rtw, aq as int);
                    lemma_mul_cancel(r2.n as int, bq as int - rtw, aq as int);
                }
            }
            let roots = vec![r1, r2];
            let zero = Rat { n: 0, d: 1 };
            let he = Rat { n: h, d: 1 };
            proof {
                assert(roots@[0] == r1);
                assert(roots@[1] == r2);
                lemma_root_range(r1, -(bq as int) - rtw, aq as int, h);
                lemma_root_range(r2, -(bq as int) + rtw, aq as int, h);
            }
            match sol(&roots, zero, he) {
                None => {
                    proof {
                        assert(!in_range(roots@[0], zero, he));
                        assert(!in_range(roots@[1], zero, he));
                        assert(profile_result(sq, kk, Option::<Rat>::None));
                    }
                    None
                },
                Some(root) => {
                    proof {
                        // bound the square root, hence the numerators
                        lemma_abs_mul(bq as int, bq as int, 5308416, 5308416);
                        lemma_abs_mul(aq as int, cq as int, 221184, 509607936);
                        assert(rtw < 16777216) by (nonlinear_arith)
                            requires
                                rtw * rtw <= disc,
                                rtw >= 0,
                                disc <= 141000000000000,
                        ;
                        lemma_abs_mul(h0 as int, root.d as int, 24, 221184);
                    }
                    let x = Rat { n: root.n + h0 * root.d, d: root.d };
                    proof {
                        let got = choose|i0: int|
                            {
                                &&& 0 <= i0 < roots@.len()
                                &&& #[trigger] in_range(roots@[i0], zero, he)
                                &&& root == roots@[i0]
                                &&& forall|j0: int|
                                    0 <= j0 < i0 ==> !in_range(#[trigger] roots@[j0], zero, he)
                            };
                        if got == 0 {
                            assert(root == r1);
                        } else {
                            assert(got == 1);
                            assert(root == r2);
                            assert(!in_range(roots@[0], zero, he));
                        }
                        assert(profile_result(sq, kk, Some(x)));
                    }
                    Some(x)
                },
            }
        },
    }
}

} // verus!
