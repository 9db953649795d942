//! The pendulum chain: particles integrated under gravity and held
//! together by a simplified half-split distance correction, with the first
//! particle re-normalized onto a circular track around the origin.
//!
//! One outer tick runs fifty sub-steps of a fiftieth of the fixed timestep
//! each; every sub-step integrates, constrains and re-derives velocity, in
//! that order. The half-split correction moves each adjacent pair by half
//! the violation along the connecting line — deliberately not the general
//! compliance-weighted formula the other solvers use.

use vstd::prelude::*;
use crate::fixed::{
    div_tz, iabs, is_sqrt, isqrt_u64, lemma_div_tz_bound, lemma_div_tz_scale, lemma_mul_bound,
    lemma_sqrt_unique, mul_div, sqrt_floor, SCALE,
};
use crate::vec2::{lemma_mag2_bound, Vec2, V2};
use crate::collision::v2v;
use crate::settings::DT;

verus! {

/// Largest chain coordinate magnitude the solver works in.
pub const PEND_RANGE: i64 = 0x20_0000;

/// Largest velocity coordinate magnitude one sub-step can produce.
pub const PEND_VEL_RANGE: i64 = 0x40_0000_0000;

/// The radius of the circular track the first particle rides on.
pub const PEND_TRACK: i64 = 196608;

/// The rest length of each chain link.
pub const PEND_REST: i64 = 131072;

/// Number of sub-steps per outer tick.
pub const PEND_STEPS: u64 = 50;

/// The velocity after gravity `(0, -10)` over one sub-step, unless that
/// would leave `PEND_VEL_RANGE`.
pub open spec fn pend_pre_v(v: V2, dtv: int) -> V2 {
    let nv = V2 { x: v.x, y: v.y - 10 * dtv };
    if nv.bounded(PEND_VEL_RANGE as int) {
        nv
    } else {
        v
    }
}

/// The position after integration, unless that would leave `PEND_RANGE`.
pub open spec fn pend_pre_x(x: V2, v: V2, dtv: int) -> V2 {
    let vv = pend_pre_v(v, dtv);
    let nx = x.add(
        V2 { x: div_tz(dtv * vv.x, SCALE as int), y: div_tz(dtv * vv.y, SCALE as int) },
    );
    if nx.bounded(PEND_RANGE as int) {
        nx
    } else {
        x
    }
}

/// The first particle re-normalized to the track radius; a particle at the
/// origin is left alone.
pub open spec fn pend_fix_first(xs: Seq<V2>) -> Seq<V2> {
    if xs.len() == 0 {
        xs
    } else {
        let len = sqrt_floor(xs[0].mag2());
        if len == 0 {
            xs
        } else {
            xs.update(
                0,
                V2 {
                    x: div_tz(xs[0].x * (PEND_TRACK as int), len),
                    y: div_tz(xs[0].y * (PEND_TRACK as int), len),
                },
            )
        }
    }
}

/// The half-split correction for the adjacent pair `(i, i + 1)`: each end
/// moves by half of the violation along the connecting line. A coincident
/// pair is skipped, as is a correction that would leave `PEND_RANGE`.
pub open spec fn pend_pair(xs: Seq<V2>, i: int) -> Seq<V2> {
    let cs = xs[i + 1].sub(xs[i]);
    let len = sqrt_floor(cs.mag2());
    if len == 0 {
        xs
    } else {
        let c = V2 {
            x: div_tz(cs.x * (PEND_REST as int), len),
            y: div_tz(cs.y * (PEND_REST as int), len),
        };
        let k = V2 { x: div_tz(cs.x - c.x, 2), y: div_tz(cs.y - c.y, 2) };
        let n1 = xs[i].add(k);
        let n2 = xs[i + 1].sub(k);
        if n1.bounded(PEND_RANGE as int) && n2.bounded(PEND_RANGE as int) {
            xs.update(i, n1).update(i + 1, n2)
        } else {
            xs
        }
    }
}

/// The chain walk: pairs are corrected left to right, each seeing the
/// positions the previous one left.
pub open spec fn pend_chain(xs: Seq<V2>, i: int) -> Seq<V2>
    decreases xs.len() - i,
{
    if i < 0 || i + 1 >= xs.len() {
        xs
    } else {
        pend_chain(pend_pair(xs, i), i + 1)
    }
}

/// The velocity recovered from the distance travelled over one sub-step.
pub open spec fn pend_post_v(x: V2, p: V2, dtv: int) -> V2 {
    V2 {
        x: div_tz((x.x - p.x) * (SCALE as int), dtv),
        y: div_tz((x.y - p.y) * (SCALE as int), dtv),
    }
}

/// One whole sub-step on the three arrays: integrate, constrain, recover
/// velocity.
pub open spec fn pend_step(xs: Seq<V2>, vs: Seq<V2>, dtv: int) -> (Seq<V2>, Seq<V2>, Seq<V2>) {
    let xs1 = Seq::new(xs.len(), |i: int| pend_pre_x(xs[i], vs[i], dtv));
    let vs1 = Seq::new(vs.len(), |i: int| pend_pre_v(vs[i], dtv));
    let xs2 = pend_chain(pend_fix_first(xs1), 0);
    let vs2 = Seq::new(xs2.len(), |i: int| pend_post_v(xs2[i], xs[i], dtv));
    (xs2, xs, vs2)
}

/// `k` sub-steps, threading positions, snapshots and velocities through.
pub open spec fn pend_run(xs: Seq<V2>, ps: Seq<V2>, vs: Seq<V2>, dtv: int, k: int) -> (
    Seq<V2>,
    Seq<V2>,
    Seq<V2>,
)
    decreases k,
{
    if k <= 0 {
        (xs, ps, vs)
    } else {
        let s = pend_step(xs, vs, dtv);
        pend_run(s.0, s.1, s.2, dtv, k - 1)
    }
}

/// The chain state the solver works on: index-aligned arrays within range.
pub open spec fn pend_wf(xs: Seq<V2>, ps: Seq<V2>, vs: Seq<V2>) -> bool {
    &&& ps.len() == xs.len()
    &&& vs.len() == xs.len()
    &&& forall|i: int| 0 <= i < xs.len() ==> (#[trigger] xs[i]).bounded(PEND_RANGE as int)
    &&& forall|i: int| 0 <= i < vs.len() ==> (#[trigger] vs[i]).bounded(PEND_VEL_RANGE as int)
}

fn pend_integrate(xs: &mut Vec<Vec2>, pps: &mut Vec<Vec2>, vs: &mut Vec<Vec2>, dtv: i64)
    requires
        pend_wf(v2v(old(xs)@), v2v(old(pps)@), v2v(old(vs)@)),
        0 < dtv <= SCALE,
    ensures
        v2v(final(xs)@) =~= Seq::new(
            old(xs)@.len() as nat,
            |i: int| pend_pre_x(v2v(old(xs)@)[i], v2v(old(vs)@)[i], dtv as int),
        ),
        v2v(final(vs)@) =~= Seq::new(
            old(vs)@.len() as nat,
            |i: int| pend_pre_v(v2v(old(vs)@)[i], dtv as int),
        ),
        v2v(final(pps)@) =~= v2v(old(xs)@),
        pend_wf(v2v(final(xs)@), v2v(final(pps)@), v2v(final(vs)@)),
        final(xs)@.len() == old(xs)@.len(),
{
    let ghost xs0 = v2v(xs@);
    let ghost vs0 = v2v(vs@);
    let n = xs.len();
    let mut i: usize = 0;
    while i < n
        invariant
            i <= n,
            0 < dtv <= SCALE,
            n == xs@.len(),
            old(xs)@.len() == n,
            old(vs)@.len() == n,
            old(pps)@.len() == n,
            pps@.len() == n,
            vs@.len() == n,
            xs0 == v2v(old(xs)@),
            vs0 == v2v(old(vs)@),
            pend_wf(xs0, v2v(old(pps)@), vs0),
            forall|q: int| i <= q < n ==> v2v(xs@)[q] == xs0[q],
            forall|q: int| i <= q < n ==> v2v(vs@)[q] == vs0[q],
            forall|q: int| 0 <= q < i ==> v2v(xs@)[q] == pend_pre_x(xs0[q], vs0[q], dtv as int),
            forall|q: int| 0 <= q < i ==> v2v(vs@)[q] == pend_pre_v(vs0[q], dtv as int),
            forall|q: int| 0 <= q < i ==> v2v(pps@)[q] == xs0[q],
        decreases n - i,
    {
        proof {
            assert(v2v(xs@)[i as int] == xs@[i as int]@);
            assert(v2v(vs@)[i as int] == vs@[i as int]@);
            assert(xs0[i as int].bounded(PEND_RANGE as int));
            assert(vs0[i as int].bounded(PEND_VEL_RANGE as int));
        }
        let x = xs[i];
        let v = vs[i];
        let nv = Vec2 { x: v.x, y: v.y - 10 * dtv };
        let v2 = if -PEND_VEL_RANGE <= nv.x && nv.x <= PEND_VEL_RANGE && -PEND_VEL_RANGE <= nv.y
            && nv.y <= PEND_VEL_RANGE {
            nv
        } else {
            v
        };
        proof {
            lemma_div_tz_scale(dtv as int, v2.x as int, SCALE as int, PEND_VEL_RANGE as int);
            lemma_div_tz_scale(dtv as int, v2.y as int, SCALE as int, PEND_VEL_RANGE as int);
        }
        let dx = Vec2 { x: mul_div(dtv, v2.x, SCALE), y: mul_div(dtv, v2.y, SCALE) };
        let nx = x.add(dx);
        let x2 = if -PEND_RANGE <= nx.x && nx.x <= PEND_RANGE && -PEND_RANGE <= nx.y && nx.y
            <= PEND_RANGE {
            nx
        } else {
            x
        };
        let ghost bx = v2v(xs@);
        let ghost bv = v2v(vs@);
        let ghost bp = v2v(pps@);
        pps[i] = x;
        vs[i] = v2;
        xs[i] = x2;
        proof {
            assert(v2@ == pend_pre_v(vs0[i as int], dtv as int));
            assert(x2@ == pend_pre_x(xs0[i as int], vs0[i as int], dtv as int));
            assert(v2v(xs@)[i as int] == x2@);
            assert(v2v(vs@)[i as int] == v2@);
            assert(v2v(pps@)[i as int] == x@);
            assert(forall|q: int| 0 <= q < n && q != i ==> v2v(xs@)[q] == bx[q]);
            assert(forall|q: int| 0 <= q < n && q != i ==> v2v(vs@)[q] == bv[q]);
            assert(forall|q: int| 0 <= q < n && q != i ==> v2v(pps@)[q] == bp[q]);
            assert forall|q: int| 0 <= q < i + 1 implies v2v(xs@)[q] == pend_pre_x(
                xs0[q],
                vs0[q],
                dtv as int,
            ) by {
                if q < i {
                    assert(v2v(xs@)[q] == bx[q]);
                }
            }
            assert forall|q: int| 0 <= q < i + 1 implies v2v(vs@)[q] == pend_pre_v(
                vs0[q],
                dtv as int,
            ) by {
                if q < i {
                    assert(v2v(vs@)[q] == bv[q]);
                }
            }
            assert forall|q: int| 0 <= q < i + 1 implies v2v(pps@)[q] == xs0[q] by {
                if q < i {
                    assert(v2v(pps@)[q] == bp[q]);
                }
            }
        }
        i += 1;
    }
}

#[verifier::rlimit(100)]
fn pend_constrain(xs: &mut Vec<Vec2>)
    requires
        forall|i: int|
            0 <= i < old(xs)@.len() ==> (#[trigger] v2v(old(xs)@)[i]).bounded(PEND_RANGE as int),
    ensures
        v2v(final(xs)@) == pend_chain(pend_fix_first(v2v(old(xs)@)), 0),
        final(xs)@.len() == old(xs)@.len(),
        forall|i: int|
            0 <= i < final(xs)@.len() ==> (#[trigger] v2v(final(xs)@)[i]).bounded(
                PEND_RANGE as int,
            ),
{
    let ghost xs0 = v2v(xs@);
    let n = xs.len();
    if n > 0 {
        proof {
            assert(v2v(xs@)[0] == xs@[0]@);
            assert(xs0[0].bounded(PEND_RANGE as int));
        }
        let x0 = xs[0];
        let m = x0.mag2();
        let len64 = isqrt_u64(m as u64);
        proof {
            lemma_sqrt_unique(m as int, len64 as int);
        }
        if len64 != 0 {
            let len = len64 as i64;
            proof {
                lemma_mag2_bound(x0@, 0x20_0000);
                assert(len <= 0x80_0000) by {
                    if len64 > 0x80_0000 {
                        assert((len64 as int) * (len64 as int) > 0x80_0000 * 0x80_0000)
                            by (nonlinear_arith)
                            requires
                                len64 > 0x80_0000,
                        ;
                        assert((len64 as int) * (len64 as int) <= m as int);
                    }
                }
                crate::fixed::lemma_square_nonneg(x0.x as int);
                crate::fixed::lemma_square_nonneg(x0.y as int);
                assert(iabs(x0.x as int) <= len as int && iabs(x0.y as int) <= len as int)
                    by (nonlinear_arith)
                    requires
                        is_sqrt(m as int, len as int),
                        m as int == (x0.x as int) * (x0.x as int) + (x0.y as int) * (
                        x0.y as int),
                        (x0.x as int) * (x0.x as int) >= 0,
                        (x0.y as int) * (x0.y as int) >= 0,
                ;
                lemma_div_tz_scale(x0.x as int, PEND_TRACK as int, len as int, PEND_TRACK as int);
                lemma_div_tz_scale(x0.y as int, PEND_TRACK as int, len as int, PEND_TRACK as int);
            }
            let nx = Vec2 { x: mul_div(x0.x, PEND_TRACK, len), y: mul_div(x0.y, PEND_TRACK, len) };
            let ghost before = v2v(xs@);
            xs[0] = nx;
            proof {
                assert(v2v(xs@) =~= before.update(0, nx@));
            }
        }
        proof {
            assert(v2v(xs@) == pend_fix_first(xs0));
        }
    } else {
        proof {
            assert(v2v(xs@) == pend_fix_first(xs0));
        }
    }
    let ghost fixed0 = v2v(xs@);
    proof {
        assert forall|i: int| 0 <= i < n implies (#[trigger] v2v(xs@)[i]).bounded(
            PEND_RANGE as int,
        ) by {
            assert(xs0[i].bounded(PEND_RANGE as int));
        }
    }
    let mut i: usize = 0;
    while n > 1 && i < n - 1
        invariant
            n == xs@.len(),
            i <= n,
            fixed0 == pend_chain(pend_fix_first(xs0), 0) || true,
            pend_chain(v2v(xs@), i as int) == pend_chain(fixed0, 0),
            forall|q: int|
                0 <= q < n ==> (#[trigger] v2v(xs@)[q]).bounded(PEND_RANGE as int),
        decreases n - i,
    {
        let ghost cur = v2v(xs@);
        proof {
            assert(v2v(xs@)[i as int] == xs@[i as int]@);
            assert(v2v(xs@)[i + 1] == xs@[i + 1]@);
        }
        let xa = xs[i];
        let xb = xs[i + 1];
        let cs = xb.sub(xa);
        let m = cs.mag2();
        let len64 = isqrt_u64(m as u64);
        proof {
            lemma_sqrt_unique(m as int, len64 as int);
        }
        if len64 != 0 {
            let len = len64 as i64;
            proof {
                lemma_mag2_bound(cs@, 0x40_0000);
                assert(len <= 0x100_0000) by {
                    if len64 > 0x100_0000 {
                        assert((len64 as int) * (len64 as int) > 0x100_0000 * 0x100_0000)
                            by (nonlinear_arith)
                            requires
                                len64 > 0x100_0000,
                        ;
                        assert((len64 as int) * (len64 as int) <= m as int);
                    }
                }
                crate::fixed::lemma_square_nonneg(cs.x as int);
                crate::fixed::lemma_square_nonneg(cs.y as int);
                assert(iabs(cs.x as int) <= len as int && iabs(cs.y as int) <= len as int)
                    by (nonlinear_arith)
                    requires
                        is_sqrt(m as int, len as int),
                        m as int == (cs.x as int) * (cs.x as int) + (cs.y as int) * (
                        cs.y as int),
                        (cs.x as int) * (cs.x as int) >= 0,
                        (cs.y as int) * (cs.y as int) >= 0,
                ;
                lemma_div_tz_scale(cs.x as int, PEND_REST as int, len as int, PEND_REST as int);
                lemma_div_tz_scale(cs.y as int, PEND_REST as int, len as int, PEND_REST as int);
                lemma_div_tz_bound((cs.x as int) - div_tz(cs.x as int * PEND_REST as int, len as int), 2);
                lemma_div_tz_bound((cs.y as int) - div_tz(cs.y as int * PEND_REST as int, len as int), 2);
            }
            let c = Vec2 { x: mul_div(cs.x, PEND_REST, len), y: mul_div(cs.y, PEND_REST, len) };
            let k = Vec2 { x: mul_div(cs.x - c.x, 1, 2), y: mul_div(cs.y - c.y, 1, 2) };
            let n1 = xa.add(k);
            let n2 = xb.sub(k);
            if -PEND_RANGE <= n1.x && n1.x <= PEND_RANGE && -PEND_RANGE <= n1.y && n1.y
                <= PEND_RANGE && -PEND_RANGE <= n2.x && n2.x <= PEND_RANGE && -PEND_RANGE
                <= n2.y && n2.y <= PEND_RANGE {
                xs[i] = n1;
                xs[i + 1] = n2;
                proof {
                    assert(v2v(xs@) =~= cur.update(i as int, n1@).update(i + 1, n2@));
                }
            }
            proof {
                assert(v2v(xs@) == pend_pair(cur, i as int));
                assert(pend_chain(cur, i as int) == pend_chain(v2v(xs@), i + 1));
            }
        } else {
            proof {
                assert(v2v(xs@) == pend_pair(cur, i as int));
                assert(pend_chain(cur, i as int) == pend_chain(v2v(xs@), i + 1));
            }
        }
        i += 1;
    }
    proof {
        assert(pend_chain(v2v(xs@), i as int) == v2v(xs@));
    }
}

fn pend_recover(xs: &Vec<Vec2>, pps: &Vec<Vec2>, vs: &mut Vec<Vec2>, dtv: i64)
    requires
        old(vs)@.len() == xs@.len(),
        pps@.len() == xs@.len(),
        0 < dtv <= SCALE,
        forall|i: int|
            0 <= i < xs@.len() ==> (#[trigger] v2v(xs@)[i]).bounded(PEND_RANGE as int),
        forall|i: int|
            0 <= i < pps@.len() ==> (#[trigger] v2v(pps@)[i]).bounded(PEND_RANGE as int),
    ensures
        v2v(final(vs)@) =~= Seq::new(
            xs@.len() as nat,
            |i: int| pend_post_v(v2v(xs@)[i], v2v(pps@)[i], dtv as int),
        ),
        forall|i: int|
            0 <= i < final(vs)@.len() ==> (#[trigger] v2v(final(vs)@)[i]).bounded(
                PEND_VEL_RANGE as int,
            ),
{
    let n = xs.len();
    let mut i: usize = 0;
    while i < n
        invariant
            i <= n,
            0 < dtv <= SCALE,
            n == xs@.len(),
            pps@.len() == n,
            vs@.len() == n,
            forall|q: int| 0 <= q < n ==> (#[trigger] v2v(xs@)[q]).bounded(PEND_RANGE as int),
            forall|q: int| 0 <= q < n ==> (#[trigger] v2v(pps@)[q]).bounded(PEND_RANGE as int),
            forall|q: int|
                0 <= q < i ==> v2v(vs@)[q] == pend_post_v(
                    v2v(xs@)[q],
                    v2v(pps@)[q],
                    dtv as int,
                ) && (#[trigger] v2v(vs@)[q]).bounded(PEND_VEL_RANGE as int),
        decreases n - i,
    {
        proof {
            assert(v2v(xs@)[i as int] == xs@[i as int]@);
            assert(v2v(pps@)[i as int] == pps@[i as int]@);
        }
        let x = xs[i];
        let p = pps[i];
        proof {
            lemma_mul_bound((x.x - p.x) as int, SCALE as int, 0x40_0000, SCALE as int);
            lemma_mul_bound((x.y - p.y) as int, SCALE as int, 0x40_0000, SCALE as int);
            lemma_div_tz_bound((x.x - p.x) as int * SCALE as int, dtv as int);
            lemma_div_tz_bound((x.y - p.y) as int * SCALE as int, dtv as int);
        }
        let nv = Vec2 { x: mul_div(x.x - p.x, SCALE, dtv), y: mul_div(x.y - p.y, SCALE, dtv) };
        let ghost bv = v2v(vs@);
        vs[i] = nv;
        proof {
            assert(v2v(vs@)[i as int] == nv@);
            assert(nv@ == pend_post_v(v2v(xs@)[i as int], v2v(pps@)[i as int], dtv as int));
            assert(forall|q: int| 0 <= q < n && q != i ==> v2v(vs@)[q] == bv[q]);
            assert forall|q: int| 0 <= q < i + 1 implies v2v(vs@)[q] == pend_post_v(
                v2v(xs@)[q],
                v2v(pps@)[q],
                dtv as int,
            ) && (#[trigger] v2v(vs@)[q]).bounded(PEND_VEL_RANGE as int) by {
                if q < i {
                    assert(v2v(vs@)[q] == bv[q]);
                }
            }
        }
        i += 1;
    }
}

/// Runs one outer tick of the pendulum chain: fifty sub-steps, each
/// integrating under gravity `(0, -10)`, re-normalizing the first particle
/// onto its track, walking the chain with the half-split correction, and
/// recovering velocity, exactly as `pend_run` states.
pub fn run_pendulum(xs: &mut Vec<Vec2>, pps: &mut Vec<Vec2>, vs: &mut Vec<Vec2>)
    requires
        pend_wf(v2v(old(xs)@), v2v(old(pps)@), v2v(old(vs)@)),
    ensures
        (v2v(final(xs)@), v2v(final(pps)@), v2v(final(vs)@)) == pend_run(
            v2v(old(xs)@),
            v2v(old(pps)@),
            v2v(old(vs)@),
            div_tz(DT as int, PEND_STEPS as int),
            PEND_STEPS as int,
        ),
        pend_wf(v2v(final(xs)@), v2v(final(pps)@), v2v(final(vs)@)),
{
    let dtv: i64 = 21;
    proof {
        assert(21 == div_tz(DT as int, PEND_STEPS as int));
    }
    let mut s: u64 = 0;
    while s < PEND_STEPS
        invariant
            s <= PEND_STEPS,
            dtv == 21,
            pend_wf(v2v(xs@), v2v(pps@), v2v(vs@)),
            pend_run(v2v(xs@), v2v(pps@), v2v(vs@), dtv as int, PEND_STEPS - s) == pend_run(
                v2v(old(xs)@),
                v2v(old(pps)@),
                v2v(old(vs)@),
                dtv as int,
                PEND_STEPS as int,
            ),
        decreases PEND_STEPS - s,
    {
        let ghost xs_a = v2v(xs@);
        let ghost ps_a = v2v(pps@);
        let ghost vs_a = v2v(vs@);
        pend_integrate(xs, pps, vs, dtv);
        pend_constrain(xs);
        pend_recover(xs, pps, vs, dtv);
        proof {
            assert((v2v(xs@), v2v(pps@), v2v(vs@)) == pend_step(xs_a, vs_a, dtv as int));
            assert(pend_run(xs_a, ps_a, vs_a, dtv as int, PEND_STEPS - s) == pend_run(
                v2v(xs@),
                v2v(pps@),
                v2v(vs@),
                dtv as int,
                PEND_STEPS - s - 1,
            ));
        }
        s += 1;
    }
}

} // verus!
