//! The soft-body simulator: a particle lattice with edge constraints,
//! stepped by a fixed four-stage pipeline.
//!
//! One `simulate(dt)` call integrates velocity under gravity and snapshots
//! the positions, runs one pass over the edge list in insertion order
//! applying the general distance correction, clamps every particle to the
//! floor, and recomputes velocity from the travelled distance. The whole
//! step is a function of the particle arrays alone, which is what
//! `lemma_simulate_deterministic` states.

use vstd::prelude::*;
use crate::fixed::{
    div_tz, iabs, is_sqrt, isqrt_u64, lemma_div_tz_bound, lemma_div_tz_scale, lemma_mul_bound,
    lemma_sqrt_unique, mul_div, sqrt_floor, SCALE,
};
use crate::vec3::{lemma_mag2_bound3, v3v, Vec3, V3};
use crate::tetra::{clamp_floor, harddeck_spec};

verus! {

/// Largest particle coordinate magnitude the simulator works in.
pub const SOFT_RANGE: i64 = 0x20_0000;

/// Largest velocity coordinate magnitude one step can produce.
pub const VEL_RANGE: i64 = 0x40_0000_0000;

/// The edge constraint's compliance, as a fixed-point scalar (about 0.01).
pub const SOFT_ALPHA: i64 = 655;

/// Mathematical value of an edge list.
pub open spec fn edgev(s: Seq<u32>) -> Seq<int> {
    s.map_values(|e: u32| e as int)
}

/// A particle lattice: positions, render colors, the pre-integration
/// snapshot, velocities, and the flattened edge index pairs with their
/// shared rest length.
pub struct Softbody {
    pub particles: Vec<Vec3>,
    pub colors: Vec<Vec3>,
    pub temp_particles: Vec<Vec3>,
    pub vel_particles: Vec<Vec3>,
    pub edges: Vec<u32>,
    pub a: i64,
}

impl Softbody {
    /// Every edge names two distinct in-range particles, the four arrays are
    /// index aligned, and all coordinates lie in working range.
    pub open spec fn wf(self) -> bool {
        &&& self.colors@.len() == self.particles@.len()
        &&& self.temp_particles@.len() == self.particles@.len()
        &&& self.vel_particles@.len() == self.particles@.len()
        &&& self.edges@.len() % 2 == 0
        &&& forall|k: int|
            0 <= k < self.edges@.len() ==> 0 <= #[trigger] edgev(self.edges@)[k]
                < self.particles@.len()
        &&& forall|i: int|
            0 <= i < self.particles@.len() ==> (#[trigger] v3v(self.particles@)[i]).bounded(
                SOFT_RANGE as int,
            )
        &&& forall|i: int|
            0 <= i < self.particles@.len() ==> (#[trigger] v3v(self.temp_particles@)[i]).bounded(
                SOFT_RANGE as int,
            )
        &&& forall|i: int|
            0 <= i < self.particles@.len() ==> (#[trigger] v3v(self.vel_particles@)[i]).bounded(
                VEL_RANGE as int,
            )
        &&& 0 < self.a <= SOFT_RANGE
    }

    /// The shared rest length of every edge.
    pub open spec fn rest_length(self) -> int {
        self.a as int
    }
}

/// The velocity after gravity: one timestep of the unit downward pull is
/// taken off the vertical coordinate, unless that would leave `VEL_RANGE`.
pub open spec fn pre_v(v: V3, dt: int) -> V3 {
    let nv = V3 { x: v.x, y: v.y - dt, z: v.z };
    if nv.bounded(VEL_RANGE as int) {
        nv
    } else {
        v
    }
}

/// The position after integration: the new velocity times the timestep is
/// added on, unless that would leave `SOFT_RANGE`.
pub open spec fn pre_x(x: V3, v: V3, dt: int) -> V3 {
    let vv = pre_v(v, dt);
    let nx = x.add(
        V3 {
            x: div_tz(dt * vv.x, SCALE as int),
            y: div_tz(dt * vv.y, SCALE as int),
            z: div_tz(dt * vv.z, SCALE as int),
        },
    );
    if nx.bounded(SOFT_RANGE as int) {
        nx
    } else {
        x
    }
}

pub open spec fn pre_ps(ps: Seq<V3>, vs: Seq<V3>, dt: int) -> Seq<V3> {
    Seq::new(ps.len(), |i: int| pre_x(ps[i], vs[i], dt))
}

pub open spec fn pre_vs(vs: Seq<V3>, dt: int) -> Seq<V3> {
    Seq::new(vs.len(), |i: int| pre_v(vs[i], dt))
}

/// One edge correction: the scalar violation is the current length minus
/// the rest length, and both endpoints move by equal and opposite amounts
/// along the edge. The denominator carries the weight two and the
/// compliance term `SOFT_ALPHA / dt^2`. A coincident pair is skipped, as is
/// a correction that would leave `SOFT_RANGE`.
pub open spec fn soft_edge_step(ps: Seq<V3>, e1: int, e2: int, a: int, dt: int) -> Seq<V3> {
    let g = ps[e1].sub(ps[e2]);
    let len = sqrt_floor(g.mag2());
    if len == 0 {
        ps
    } else {
        let den = 2 * (SCALE as int) + div_tz(
            (SOFT_ALPHA as int) * (SCALE as int) * (SCALE as int),
            dt * dt,
        );
        let lam = div_tz(-(len - a) * (SCALE as int), den);
        let corr = V3 {
            x: div_tz(g.x * lam, len),
            y: div_tz(g.y * lam, len),
            z: div_tz(g.z * lam, len),
        };
        let n1 = ps[e1].add(corr);
        let n2 = ps[e2].sub(corr);
        if n1.bounded(SOFT_RANGE as int) && n2.bounded(SOFT_RANGE as int) {
            ps.update(e1, n1).update(e2, n2)
        } else {
            ps
        }
    }
}

/// One pass over the edge list in insertion order, each edge seeing the
/// positions the previous ones left.
pub open spec fn soft_edge_pass(ps: Seq<V3>, edges: Seq<int>, k: int, a: int, dt: int) -> Seq<
    V3,
>
    decreases edges.len() - k,
{
    if k < 0 || k + 1 >= edges.len() {
        ps
    } else {
        soft_edge_pass(soft_edge_step(ps, edges[k], edges[k + 1], a, dt), edges, k + 2, a, dt)
    }
}

/// One application of the distance correction never increases the length
/// violation, and strictly reduces it while the violation is above the
/// rounding floor. For two particles on one axis the edge step changes the
/// signed violation `s` into `s + 2 * div_tz(-s * SCALE, den)`, where `den`
/// is the correction's denominator; repeated application is therefore
/// monotone in `|s|` down to where the rounded multiplier reaches zero.
pub proof fn lemma_dist_scalar_contracts(s: int, den: int)
    requires
        den >= 2 * (SCALE as int),
    ensures
        iabs(s + 2 * div_tz(-s * (SCALE as int), den)) <= iabs(s),
        iabs(s) * (SCALE as int) >= den ==> iabs(s + 2 * div_tz(-s * (SCALE as int), den))
            < iabs(s),
{
    let sc = SCALE as int;
    let lam = div_tz(-s * sc, den);
    vstd::arithmetic::mul::lemma_mul_unary_negation(s, sc);
    if s >= 0 {
        let p = s * sc;
        vstd::arithmetic::mul::lemma_mul_nonnegative(s, sc);
        assert(iabs(s) == s);
        assert(iabs(s) * sc == p);
        assert(-s * sc == -p);
        assert(lam == -(p / den));
        assert(p / den >= 0) by {
            vstd::arithmetic::div_mod::lemma_div_is_ordered(0, p, den);
            vstd::arithmetic::div_mod::lemma_div_of0(den);
        }
        assert(p / den <= s / 2) by {
            vstd::arithmetic::div_mod::lemma_div_is_ordered_by_denominator(p, 2 * sc, den);
            vstd::arithmetic::div_mod::lemma_div_denominator(p, sc, 2);
            vstd::arithmetic::mul::lemma_mul_is_commutative(s, sc);
            vstd::arithmetic::div_mod::lemma_div_multiples_vanish(s, sc);
        }
        assert(2 * (s / 2) <= s);
        if p >= den {
            assert(p / den >= 1) by {
                vstd::arithmetic::div_mod::lemma_div_is_ordered(den, p, den);
                vstd::arithmetic::div_mod::lemma_div_by_self(den);
            }
        }
    } else {
        let p = (-s) * sc;
        vstd::arithmetic::mul::lemma_mul_nonnegative(-s, sc);
        assert(iabs(s) == -s);
        assert(iabs(s) * sc == p);
        assert(-s * sc == p);
        assert(lam == p / den);
        assert(p / den >= 0) by {
            vstd::arithmetic::div_mod::lemma_div_is_ordered(0, p, den);
            vstd::arithmetic::div_mod::lemma_div_of0(den);
        }
        assert(p / den <= (-s) / 2) by {
            vstd::arithmetic::div_mod::lemma_div_is_ordered_by_denominator(p, 2 * sc, den);
            vstd::arithmetic::div_mod::lemma_div_denominator(p, sc, 2);
            vstd::arithmetic::mul::lemma_mul_is_commutative(-s, sc);
            vstd::arithmetic::div_mod::lemma_div_multiples_vanish(-s, sc);
        }
        assert(2 * ((-s) / 2) <= -s);
        if p >= den {
            assert(p / den >= 1) by {
                vstd::arithmetic::div_mod::lemma_div_is_ordered(den, p, den);
                vstd::arithmetic::div_mod::lemma_div_by_self(den);
            }
        }
    }
}

/// The velocity recovered from the travelled distance.
pub open spec fn post_v(x: V3, p: V3, dt: int) -> V3 {
    V3 {
        x: div_tz((x.x - p.x) * (SCALE as int), dt),
        y: div_tz((x.y - p.y) * (SCALE as int), dt),
        z: div_tz((x.z - p.z) * (SCALE as int), dt),
    }
}

pub open spec fn post_vs(ps: Seq<V3>, temp: Seq<V3>, dt: int) -> Seq<V3> {
    Seq::new(ps.len(), |i: int| post_v(ps[i], temp[i], dt))
}

/// What one whole `simulate(dt)` step leaves in the three particle arrays:
/// positions, snapshot, velocities.
pub open spec fn simulate_spec(
    ps: Seq<V3>,
    vs: Seq<V3>,
    edges: Seq<int>,
    a: int,
    dt: int,
) -> (Seq<V3>, Seq<V3>, Seq<V3>) {
    let ps1 = pre_ps(ps, vs, dt);
    let vs1 = pre_vs(vs, dt);
    let ps2 = soft_edge_pass(ps1, edges, 0, a, dt);
    let ps3 = harddeck_spec(ps2);
    let vs2 = post_vs(ps3, ps, dt);
    (ps3, ps, vs2)
}

/// The slack added to the rest distance when scanning for lattice edges
/// (about 0.01).
pub const EDGE_EPS: i64 = 655;

/// Whether two lattice points are close enough to connect.
pub open spec fn close_points(ps: Seq<V3>, i: int, y: int, a: int) -> bool {
    ps[i].sub(ps[y]).mag2() < (a + EDGE_EPS as int) * (a + EDGE_EPS as int)
}

/// The lattice edges for one anchor point, scanning partners upward.
pub open spec fn edges_inner(ps: Seq<V3>, i: int, y: int, a: int, acc: Seq<int>) -> Seq<int>
    decreases ps.len() - y,
{
    if y < 0 || y >= ps.len() {
        acc
    } else {
        edges_inner(
            ps,
            i,
            y + 1,
            a,
            if close_points(ps, i, y, a) {
                acc.push(i).push(y)
            } else {
                acc
            },
        )
    }
}

/// The whole one-time edge scan: every unordered pair closer than the rest
/// distance plus a small slack is connected, in index order.
pub open spec fn edges_outer(ps: Seq<V3>, i: int, a: int, acc: Seq<int>) -> Seq<int>
    decreases ps.len() - i,
{
    if i < 0 || i >= ps.len() {
        acc
    } else {
        edges_outer(ps, i + 1, a, edges_inner(ps, i, i + 1, a, acc))
    }
}

/// A whole step is a function of the particle arrays, the edge list and the
/// timestep alone: two equal states step to equal states, so `simulate` is
/// deterministic and carries no hidden global state.
pub proof fn lemma_simulate_deterministic(
    ps1: Seq<V3>,
    vs1: Seq<V3>,
    edges1: Seq<int>,
    a1: int,
    ps2: Seq<V3>,
    vs2: Seq<V3>,
    edges2: Seq<int>,
    a2: int,
    dt: int,
)
    requires
        ps1 == ps2,
        vs1 == vs2,
        edges1 == edges2,
        a1 == a2,
    ensures
        simulate_spec(ps1, vs1, edges1, a1, dt) == simulate_spec(ps2, vs2, edges2, a2, dt),
{
}

impl Softbody {
    /// Integrates velocity under gravity, snapshots the positions and
    /// integrates the positions, exactly as `pre_ps`/`pre_vs` state.
    fn pre_solve(&mut self, dt: i64)
        requires
            old(self).wf(),
            0 < dt <= SCALE,
        ensures
            v3v(final(self).particles@) == pre_ps(
                v3v(old(self).particles@),
                v3v(old(self).vel_particles@),
                dt as int,
            ),
            v3v(final(self).vel_particles@) == pre_vs(v3v(old(self).vel_particles@), dt as int),
            v3v(final(self).temp_particles@) == v3v(old(self).particles@),
            final(self).edges@ == old(self).edges@,
            final(self).colors@ == old(self).colors@,
            final(self).a == old(self).a,
            final(self).particles@.len() == old(self).particles@.len(),
            final(self).wf(),
    {
        let ghost ps0 = v3v(self.particles@);
        let ghost vs0 = v3v(self.vel_particles@);
        let n = self.particles.len();
        let mut i: usize = 0;
        while i < n
            invariant
                i <= n,
                0 < dt <= SCALE,
                n == self.particles@.len(),
                old(self).particles@.len() == n,
                old(self).vel_particles@.len() == n,
                old(self).temp_particles@.len() == n,
                self.temp_particles@.len() == n,
                self.vel_particles@.len() == n,
                self.colors@ == old(self).colors@,
                self.edges@ == old(self).edges@,
                self.a == old(self).a,
                ps0 == v3v(old(self).particles@),
                vs0 == v3v(old(self).vel_particles@),
                old(self).wf(),
                forall|q: int| i <= q < n ==> v3v(self.particles@)[q] == ps0[q],
                forall|q: int| i <= q < n ==> v3v(self.vel_particles@)[q] == vs0[q],
                forall|q: int|
                    i <= q < n ==> v3v(self.temp_particles@)[q] == v3v(
                        old(self).temp_particles@,
                    )[q],
                forall|q: int|
                    0 <= q < i ==> v3v(self.particles@)[q] == pre_x(ps0[q], vs0[q], dt as int),
                forall|q: int|
                    0 <= q < i ==> v3v(self.vel_particles@)[q] == pre_v(vs0[q], dt as int),
                forall|q: int| 0 <= q < i ==> v3v(self.temp_particles@)[q] == ps0[q],
            decreases n - i,
        {
            proof {
                assert(v3v(self.particles@)[i as int] == self.particles@[i as int]@);
                assert(v3v(self.vel_particles@)[i as int] == self.vel_particles@[i as int]@);
                assert(ps0[i as int].bounded(SOFT_RANGE as int)) by {
                    assert(v3v(old(self).particles@)[i as int] == ps0[i as int]);
                }
                assert(vs0[i as int].bounded(VEL_RANGE as int)) by {
                    assert(v3v(old(self).vel_particles@)[i as int] == vs0[i as int]);
                }
                assert(v3v(self.particles@)[i as int] == ps0[i as int]);
                assert(v3v(self.vel_particles@)[i as int] == vs0[i as int]);
                assert(self.particles@[i as int]@.bounded(SOFT_RANGE as int));
                assert(self.vel_particles@[i as int]@.bounded(VEL_RANGE as int));
            }
            let x = self.particles[i];
            let v = self.vel_particles[i];
            let nv = Vec3 { x: v.x, y: v.y - dt, z: v.z };
            let v2 = if nv.bounded_check(VEL_RANGE) {
                nv
            } else {
                v
            };
            proof {
                lemma_div_tz_scale(dt as int, v2.x as int, SCALE as int, VEL_RANGE as int);
                lemma_div_tz_scale(dt as int, v2.y as int, SCALE as int, VEL_RANGE as int);
                lemma_div_tz_scale(dt as int, v2.z as int, SCALE as int, VEL_RANGE as int);
            }
            let dx = Vec3 {
                x: mul_div(dt, v2.x, SCALE),
                y: mul_div(dt, v2.y, SCALE),
                z: mul_div(dt, v2.z, SCALE),
            };
            let nx = x.add(dx);
            let x2 = if nx.bounded_check(SOFT_RANGE) {
                nx
            } else {
                x
            };
            let ghost bp = v3v(self.particles@);
            let ghost bv = v3v(self.vel_particles@);
            let ghost bt = v3v(self.temp_particles@);
            self.temp_particles[i] = x;
            self.vel_particles[i] = v2;
            self.particles[i] = x2;
            proof {
                assert(v2@ == pre_v(vs0[i as int], dt as int));
                assert(x2@ == pre_x(ps0[i as int], vs0[i as int], dt as int));
                assert(v3v(self.particles@)[i as int] == x2@);
                assert(v3v(self.vel_particles@)[i as int] == v2@);
                assert(v3v(self.temp_particles@)[i as int] == x@);
                assert(forall|q: int|
                    0 <= q < n && q != i ==> v3v(self.particles@)[q] == bp[q]);
                assert(forall|q: int|
                    0 <= q < n && q != i ==> v3v(self.vel_particles@)[q] == bv[q]);
                assert(forall|q: int|
                    0 <= q < n && q != i ==> v3v(self.temp_particles@)[q] == bt[q]);
                assert forall|q: int| 0 <= q < i + 1 implies v3v(self.particles@)[q] == pre_x(
                    ps0[q],
                    vs0[q],
                    dt as int,
                ) by {
                    if q < i {
                        assert(v3v(self.particles@)[q] == bp[q]);
                    }
                }
                assert forall|q: int| 0 <= q < i + 1 implies v3v(self.vel_particles@)[q]
                    == pre_v(vs0[q], dt as int) by {
                    if q < i {
                        assert(v3v(self.vel_particles@)[q] == bv[q]);
                    }
                }
                assert forall|q: int| 0 <= q < i + 1 implies v3v(self.temp_particles@)[q]
                    == ps0[q] by {
                    if q < i {
                        assert(v3v(self.temp_particles@)[q] == bt[q]);
                    }
                }
            }
            i += 1;
        }
        proof {
            assert(v3v(self.particles@) =~= pre_ps(ps0, vs0, dt as int));
            assert(v3v(self.vel_particles@) =~= pre_vs(vs0, dt as int));
            assert(v3v(self.temp_particles@) =~= ps0);
        }
    }

    /// One pass over the edge list in insertion order, as `soft_edge_pass`
    /// states.
    fn edge(&mut self, dt: i64)
        requires
            old(self).wf(),
            0 < dt <= SCALE,
        ensures
            v3v(final(self).particles@) == soft_edge_pass(
                v3v(old(self).particles@),
                edgev(old(self).edges@),
                0,
                old(self).a as int,
                dt as int,
            ),
            final(self).temp_particles@ == old(self).temp_particles@,
            final(self).vel_particles@ == old(self).vel_particles@,
            final(self).edges@ == old(self).edges@,
            final(self).colors@ == old(self).colors@,
            final(self).a == old(self).a,
            final(self).particles@.len() == old(self).particles@.len(),
            final(self).wf(),
    {
        let ghost es = edgev(self.edges@);
        let ghost a0 = self.a as int;
        let ghost ps_start = v3v(self.particles@);
        let n = self.particles.len();
        let mut k: usize = 0;
        while k + 1 < self.edges.len()
            invariant
                k % 2 == 0,
                0 < dt <= SCALE,
                k <= self.edges@.len(),
                n == self.particles@.len(),
                old(self).particles@.len() == n,
                es.len() == self.edges@.len(),
                self.temp_particles@ == old(self).temp_particles@,
                self.vel_particles@ == old(self).vel_particles@,
                self.edges@ == old(self).edges@,
                self.colors@ == old(self).colors@,
                self.a == old(self).a,
                es == edgev(self.edges@),
                a0 == self.a as int,
                ps_start == v3v(old(self).particles@),
                old(self).wf(),
                forall|i: int|
                    0 <= i < n ==> (#[trigger] v3v(self.particles@)[i]).bounded(
                        SOFT_RANGE as int,
                    ),
                soft_edge_pass(v3v(self.particles@), es, k as int, a0, dt as int)
                    == soft_edge_pass(ps_start, es, 0, a0, dt as int),
            decreases self.edges@.len() - k,
        {
            let ghost ps_cur = v3v(self.particles@);
            let e1 = self.edges[k] as usize;
            let e2 = self.edges[k + 1] as usize;
            proof {
                assert(es[k as int] == edgev(old(self).edges@)[k as int]);
                assert(es[k + 1] == edgev(old(self).edges@)[k + 1]);
                assert(0 <= es[k as int] < n);
                assert(0 <= es[k + 1] < n);
                assert(v3v(self.particles@)[e1 as int] == self.particles@[e1 as int]@);
                assert(v3v(self.particles@)[e2 as int] == self.particles@[e2 as int]@);
            }
            let x1 = self.particles[e1];
            let x2 = self.particles[e2];
            let g = x1.sub(x2);
            let m = g.mag2();
            let len64 = isqrt_u64(m as u64);
            proof {
                lemma_sqrt_unique(m as int, len64 as int);
                lemma_mag2_bound3(x1@.sub(x2@), 0x40_0000);
            }
            if len64 == 0 {
                proof {
                    assert(soft_edge_step(ps_cur, es[k as int], es[k + 1], a0, dt as int)
                        == ps_cur);
                    assert(soft_edge_pass(ps_cur, es, k as int, a0, dt as int)
                        == soft_edge_pass(ps_cur, es, k + 2, a0, dt as int));
                }
            } else {
                let len = len64 as i64;
                proof {
                    assert(len <= 0x100_0000) by {
                        if len64 > 0x100_0000 {
                            assert((len64 as int) * (len64 as int) > 0x100_0000 * 0x100_0000)
                                by (nonlinear_arith)
                                requires
                                    len64 > 0x100_0000,
                            ;
                            assert((len64 as int) * (len64 as int) <= m as int);
                        }
                    }
                    assert(1 <= dt * dt <= 65536 * 65536) by (nonlinear_arith)
                        requires
                            0 < dt <= 65536,
                    ;
                    lemma_div_tz_bound((655 * 4294967296) as int, (dt * dt) as int);
                }
                let q2 = mul_div(655, 65536 * 65536, dt * dt);
                proof {
                    assert(655 * (65536 * 65536) == (SOFT_ALPHA as int) * (SCALE as int) * (
                    SCALE as int));
                    assert(q2 as int == div_tz(
                        (SOFT_ALPHA as int) * (SCALE as int) * (SCALE as int),
                        (dt * dt) as int,
                    ));
                    assert(q2 >= 0) by {
                        lemma_div_tz_bound(
                            (SOFT_ALPHA as int) * (SCALE as int) * (SCALE as int),
                            (dt * dt) as int,
                        );
                    }
                    assert(iabs(q2 as int) <= 655 * (65536 * 65536)) by {
                        lemma_div_tz_bound(
                            (SOFT_ALPHA as int) * (SCALE as int) * (SCALE as int),
                            (dt * dt) as int,
                        );
                    }
                }
                let den = 2 * SCALE + q2;
                let negc = -(len - self.a);
                proof {
                    lemma_mul_bound(negc as int, SCALE as int, 0x200_0000, SCALE as int);
                    lemma_div_tz_bound(negc as int * SCALE as int, den as int);
                }
                let lam = mul_div(negc, SCALE, den);
                proof {
                    assert(iabs(lam as int) <= 0x2_0000_0000_0000);
                    crate::fixed::lemma_square_nonneg(g.x as int);
                    crate::fixed::lemma_square_nonneg(g.y as int);
                    crate::fixed::lemma_square_nonneg(g.z as int);
                    assert(iabs(g.x as int) <= len as int && iabs(g.y as int) <= len as int
                        && iabs(g.z as int) <= len as int) by (nonlinear_arith)
                        requires
                            is_sqrt(m as int, len as int),
                            m as int == (g.x as int) * (g.x as int) + (g.y as int) * (
                            g.y as int) + (g.z as int) * (g.z as int),
                            (g.x as int) * (g.x as int) >= 0,
                            (g.y as int) * (g.y as int) >= 0,
                            (g.z as int) * (g.z as int) >= 0,
                    ;
                    lemma_div_tz_scale(g.x as int, lam as int, len as int, 0x2_0000_0000_0000);
                    lemma_div_tz_scale(g.y as int, lam as int, len as int, 0x2_0000_0000_0000);
                    lemma_div_tz_scale(g.z as int, lam as int, len as int, 0x2_0000_0000_0000);
                }
                let corr = Vec3 {
                    x: mul_div(g.x, lam, len),
                    y: mul_div(g.y, lam, len),
                    z: mul_div(g.z, lam, len),
                };
                let n1 = x1.add(corr);
                let n2 = x2.sub(corr);
                if n1.bounded_check(SOFT_RANGE) && n2.bounded_check(SOFT_RANGE) {
                    self.particles[e1] = n1;
                    self.particles[e2] = n2;
                    proof {
                        assert(v3v(self.particles@) =~= ps_cur.update(e1 as int, n1@).update(
                            e2 as int,
                            n2@,
                        ));
                    }
                }
                proof {
                    assert(v3v(self.particles@) == soft_edge_step(
                        ps_cur,
                        es[k as int],
                        es[k + 1],
                        a0,
                        dt as int,
                    ));
                    assert(soft_edge_pass(ps_cur, es, k as int, a0, dt as int)
                        == soft_edge_pass(v3v(self.particles@), es, k + 2, a0, dt as int));
                }
            }
            k += 2;
        }
        proof {
            assert(soft_edge_pass(v3v(self.particles@), es, k as int, a0, dt as int)
                == v3v(self.particles@));
        }
    }

    /// Clamps every particle to the floor.
    fn harddeck(&mut self)
        requires
            old(self).wf(),
        ensures
            v3v(final(self).particles@) == harddeck_spec(v3v(old(self).particles@)),
            final(self).temp_particles@ == old(self).temp_particles@,
            final(self).vel_particles@ == old(self).vel_particles@,
            final(self).edges@ == old(self).edges@,
            final(self).colors@ == old(self).colors@,
            final(self).a == old(self).a,
            final(self).particles@.len() == old(self).particles@.len(),
            final(self).wf(),
    {
        let ghost ps0 = v3v(self.particles@);
        let n = self.particles.len();
        let mut i: usize = 0;
        while i < n
            invariant
                i <= n,
                n == self.particles@.len(),
                old(self).particles@.len() == n,
                self.temp_particles@ == old(self).temp_particles@,
                self.vel_particles@ == old(self).vel_particles@,
                self.edges@ == old(self).edges@,
                self.colors@ == old(self).colors@,
                self.a == old(self).a,
                ps0 == v3v(old(self).particles@),
                old(self).wf(),
                forall|q: int| i <= q < n ==> v3v(self.particles@)[q] == ps0[q],
                forall|q: int| 0 <= q < i ==> v3v(self.particles@)[q] == clamp_floor(ps0[q]),
            decreases n - i,
        {
            proof {
                assert(v3v(self.particles@)[i as int] == self.particles@[i as int]@);
            }
            let v = self.particles[i];
            let ghost before = v3v(self.particles@);
            if v.y < 0 {
                self.particles[i] = Vec3 { x: v.x, y: 0, z: v.z };
            }
            proof {
                assert(v3v(self.particles@)[i as int] == clamp_floor(ps0[i as int]));
                assert(forall|q: int|
                    0 <= q < n && q != i ==> v3v(self.particles@)[q] == before[q]);
                assert forall|q: int| 0 <= q < i + 1 implies v3v(self.particles@)[q]
                    == clamp_floor(ps0[q]) by {
                    if q < i {
                        assert(v3v(self.particles@)[q] == before[q]);
                    }
                }
            }
            i += 1;
        }
        proof {
            assert(v3v(self.particles@) =~= harddeck_spec(ps0));
            assert forall|q: int| 0 <= q < n implies (#[trigger] v3v(self.particles@)[q]).bounded(
                SOFT_RANGE as int,
            ) by {
                assert(ps0[q].bounded(SOFT_RANGE as int));
            }
        }
    }

    /// Recomputes velocity from the travelled distance, as `post_vs` states.
    fn post_solve(&mut self, dt: i64)
        requires
            old(self).wf(),
            0 < dt <= SCALE,
        ensures
            v3v(final(self).vel_particles@) == post_vs(
                v3v(old(self).particles@),
                v3v(old(self).temp_particles@),
                dt as int,
            ),
            final(self).particles@ == old(self).particles@,
            final(self).temp_particles@ == old(self).temp_particles@,
            final(self).edges@ == old(self).edges@,
            final(self).colors@ == old(self).colors@,
            final(self).a == old(self).a,
            final(self).wf(),
    {
        let ghost ps0 = v3v(self.particles@);
        let ghost ts0 = v3v(self.temp_particles@);
        let n = self.particles.len();
        let mut i: usize = 0;
        while i < n
            invariant
                i <= n,
                n == self.particles@.len(),
                old(self).particles@.len() == n,
                old(self).temp_particles@.len() == n,
                old(self).vel_particles@.len() == n,
                self.particles@ == old(self).particles@,
                self.temp_particles@ == old(self).temp_particles@,
                self.edges@ == old(self).edges@,
                self.colors@ == old(self).colors@,
                self.a == old(self).a,
                self.vel_particles@.len() == n,
                ps0 == v3v(old(self).particles@),
                ts0 == v3v(old(self).temp_particles@),
                old(self).wf(),
                0 < dt <= SCALE,
                forall|q: int|
                    i <= q < n ==> v3v(self.vel_particles@)[q] == v3v(
                        old(self).vel_particles@,
                    )[q],
                forall|q: int|
                    0 <= q < i ==> v3v(self.vel_particles@)[q] == post_v(
                        ps0[q],
                        ts0[q],
                        dt as int,
                    ),
            decreases n - i,
        {
            proof {
                assert(v3v(self.particles@)[i as int] == self.particles@[i as int]@);
                assert(v3v(self.temp_particles@)[i as int] == self.temp_particles@[i as int]@);
                assert(ps0[i as int].bounded(SOFT_RANGE as int));
                assert(ts0[i as int].bounded(SOFT_RANGE as int));
            }
            let x = self.particles[i];
            let p = self.temp_particles[i];
            proof {
                lemma_mul_bound((x.x - p.x) as int, SCALE as int, 0x40_0000, SCALE as int);
                lemma_mul_bound((x.y - p.y) as int, SCALE as int, 0x40_0000, SCALE as int);
                lemma_mul_bound((x.z - p.z) as int, SCALE as int, 0x40_0000, SCALE as int);
                lemma_div_tz_bound((x.x - p.x) as int * SCALE as int, dt as int);
                lemma_div_tz_bound((x.y - p.y) as int * SCALE as int, dt as int);
                lemma_div_tz_bound((x.z - p.z) as int * SCALE as int, dt as int);
            }
            let nv = Vec3 {
                x: mul_div(x.x - p.x, SCALE, dt),
                y: mul_div(x.y - p.y, SCALE, dt),
                z: mul_div(x.z - p.z, SCALE, dt),
            };
            let ghost bv = v3v(self.vel_particles@);
            self.vel_particles[i] = nv;
            proof {
                assert(nv@ == post_v(ps0[i as int], ts0[i as int], dt as int));
                assert(v3v(self.vel_particles@)[i as int] == nv@);
                assert(forall|q: int|
                    0 <= q < n && q != i ==> v3v(self.vel_particles@)[q] == bv[q]);
                assert(nv@.bounded(VEL_RANGE as int)) by {
                    lemma_div_tz_bound((x.x - p.x) as int * SCALE as int, dt as int);
                }
                assert forall|q: int| 0 <= q < i + 1 implies v3v(self.vel_particles@)[q]
                    == post_v(ps0[q], ts0[q], dt as int) by {
                    if q < i {
                        assert(v3v(self.vel_particles@)[q] == bv[q]);
                    }
                }
            }
            i += 1;
        }
        proof {
            assert(v3v(self.vel_particles@) =~= post_vs(ps0, ts0, dt as int));
        }
    }

    /// One whole step: pre-solve, edge pass, floor clamp, velocity
    /// recovery, exactly as `simulate_spec` states. Repeated calls with a
    /// small timestep carry no state beyond the particle arrays.
    pub fn simulate(&mut self, dt: i64)
        requires
            old(self).wf(),
            0 < dt <= SCALE,
        ensures
            (
                v3v(final(self).particles@),
                v3v(final(self).temp_particles@),
                v3v(final(self).vel_particles@),
            ) == simulate_spec(
                v3v(old(self).particles@),
                v3v(old(self).vel_particles@),
                edgev(old(self).edges@),
                old(self).a as int,
                dt as int,
            ),
            final(self).edges@ == old(self).edges@,
            final(self).colors@ == old(self).colors@,
            final(self).a == old(self).a,
            final(self).particles@.len() == old(self).particles@.len(),
            final(self).wf(),
    {
        self.pre_solve(dt);
        self.edge(dt);
        self.harddeck();
        self.post_solve(dt);
    }

    /// Read-only access to the positions for rendering.
    pub fn get_particle_slice(&self) -> (r: &[Vec3])
        ensures
            r@ == self.particles@,
    {
        self.particles.as_slice()
    }

    /// Builds a tetrahedrally packed `l x l x l` lattice with spacing `a`
    /// and connects every particle pair whose rest distance is below the
    /// spacing plus a small slack: a one-time quadratic scan.
    pub fn build_tetragrid(a: i64, l: usize) -> (s: Softbody)
        requires
            0 < a <= 0x2_0000,
            l <= 10,
        ensures
            v3v(s.particles@) == grid_points(a as int, l as int),
            edgev(s.edges@) == edges_outer(
                grid_points(a as int, l as int),
                0,
                a as int,
                Seq::empty(),
            ),
            v3v(s.temp_particles@) =~= Seq::new(
                grid_points(a as int, l as int).len(),
                |i: int| (V3 { x: 0, y: 0, z: 0 }),
            ),
            v3v(s.vel_particles@) =~= Seq::new(
                grid_points(a as int, l as int).len(),
                |i: int| (V3 { x: 0, y: 0, z: 0 }),
            ),
            v3v(s.colors@) =~= Seq::new(
                grid_points(a as int, l as int).len(),
                |i: int| (V3 { x: SCALE as int, y: 0, z: 0 }),
            ),
            s.a == a,
            s.wf(),
    {
        let ghost target = grid_points(a as int, l as int);
        let s3v = isqrt_u64(12884901888u64) as i64;
        let r23 = isqrt_u64(2863311530u64) as i64;
        proof {
            assert(12884901888 == 3 * (SCALE as int) * (SCALE as int));
            assert(2863311530 == div_tz(2 * (SCALE as int) * (SCALE as int), 3));
            assert(s3v < 0x2_0000) by {
                if s3v >= 0x2_0000 {
                    assert((s3v as int) * (s3v as int) >= 0x2_0000 * 0x2_0000)
                        by (nonlinear_arith)
                        requires
                            s3v >= 0x2_0000,
                    ;
                }
            }
            assert(r23 < 0x1_0000) by {
                if r23 >= 0x1_0000 {
                    assert((r23 as int) * (r23 as int) >= 0x1_0000 * 0x1_0000)
                        by (nonlinear_arith)
                        requires
                            r23 >= 0x1_0000,
                    ;
                }
            }
            lemma_mul_bound(a as int, s3v as int, 0x2_0000, 0x2_0000);
            crate::fixed::lemma_div_tz_ordered(
                a as int * s3v as int,
                2 * SCALE as int,
                (0x2_0000 * 0x2_0000) as int,
            );
            lemma_mul_bound(a as int, r23 as int, 0x2_0000, 0x1_0000);
            crate::fixed::lemma_div_tz_ordered(
                a as int * r23 as int,
                SCALE as int,
                (0x2_0000 * 0x1_0000) as int,
            );
        }
        let ha = mul_div(a, s3v, 2 * SCALE);
        let h = mul_div(a, r23, SCALE);
        proof {
            assert(ha as int == grid_ha(a as int));
            assert(h as int == grid_h(a as int));
            assert(iabs(ha as int) <= 0x2_0000 && iabs(h as int) <= 0x2_0000);
            lemma_div_tz_bound(2 * ha as int, 3);
            lemma_div_tz_bound(a as int, 2);
        }
        let zoff = mul_div(2, ha, 3);
        let xoff = mul_div(a, 1, 2);
        let mut particles: Vec<Vec3> = Vec::new();
        assert(v3v(particles@) =~= Seq::<V3>::empty());
        let mut y: usize = 0;
        while y < l
            invariant
                y <= l,
                l <= 10,
                0 < a <= 0x2_0000,
                iabs(ha as int) <= 0x2_0000,
                iabs(h as int) <= 0x2_0000,
                ha as int == grid_ha(a as int),
                h as int == grid_h(a as int),
                zoff as int == div_tz(2 * grid_ha(a as int), 3),
                iabs(zoff as int) <= 0x2_0000,
                xoff as int == div_tz(a as int, 2),
                iabs(xoff as int) <= 0x2_0000,
                target == grid_points(a as int, l as int),
                grid_build(a as int, l as int, y as int, 0, 0, v3v(particles@)) == target,
                forall|q: int|
                    0 <= q < particles@.len() ==> (#[trigger] v3v(particles@)[q]).bounded(
                        SOFT_RANGE as int,
                    ),
                particles@.len() <= 1000 * (y as int),
            decreases l - y,
        {
            let mut z: usize = 0;
            while z < l
                invariant
                    y < l,
                    z <= l,
                    l <= 10,
                    0 < a <= 0x2_0000,
                    iabs(ha as int) <= 0x2_0000,
                    iabs(h as int) <= 0x2_0000,
                    ha as int == grid_ha(a as int),
                    h as int == grid_h(a as int),
                    zoff as int == div_tz(2 * grid_ha(a as int), 3),
                    iabs(zoff as int) <= 0x2_0000,
                    xoff as int == div_tz(a as int, 2),
                    iabs(xoff as int) <= 0x2_0000,
                    target == grid_points(a as int, l as int),
                    grid_build(a as int, l as int, y as int, z as int, 0, v3v(particles@))
                        == target,
                    forall|q: int|
                        0 <= q < particles@.len() ==> (#[trigger] v3v(particles@)[q]).bounded(
                            SOFT_RANGE as int,
                        ),
                    particles@.len() <= 1000 * (y as int) + 100 * (z as int),
                decreases l - z,
            {
                let mut x: usize = 0;
                while x < l
                    invariant
                        y < l,
                        z < l,
                        x <= l,
                        l <= 10,
                        0 < a <= 0x2_0000,
                        iabs(ha as int) <= 0x2_0000,
                        iabs(h as int) <= 0x2_0000,
                        ha as int == grid_ha(a as int),
                        h as int == grid_h(a as int),
                        zoff as int == div_tz(2 * grid_ha(a as int), 3),
                        iabs(zoff as int) <= 0x2_0000,
                        xoff as int == div_tz(a as int, 2),
                        iabs(xoff as int) <= 0x2_0000,
                        target == grid_points(a as int, l as int),
                        grid_build(a as int, l as int, y as int, z as int, x as int, v3v(particles@))
                            == target,
                        forall|q: int|
                            0 <= q < particles@.len() ==> (#[trigger] v3v(particles@)[q]).bounded(
                                SOFT_RANGE as int,
                            ),
                        particles@.len() <= 1000 * (y as int) + 100 * (z as int) + 10 * (
                        x as int),
                    decreases l - x,
                {
                    proof {
                        lemma_mul_bound(x as int, a as int, 10, 0x2_0000);
                        lemma_mul_bound(y as int, h as int, 10, 0x2_0000);
                        lemma_mul_bound(z as int, ha as int, 10, 0x2_0000);
                    }
                    let zo = if y % 2 == 0 {
                        zoff
                    } else {
                        0
                    };
                    let xo = if z % 2 == 0 {
                        xoff
                    } else {
                        0
                    };
                    let p = Vec3 {
                        x: (x as i64) * a + xo,
                        y: (y as i64) * h,
                        z: (z as i64) * ha + zo,
                    };
                    let ghost acc0 = v3v(particles@);
                    particles.push(p);
                    proof {
                        assert(v3v(particles@) =~= acc0.push(p@));
                        assert(p@ == grid_point(a as int, x as int, y as int, z as int));
                        assert(grid_build(a as int, l as int, y as int, z as int, x as int, acc0)
                            == grid_build(
                            a as int,
                            l as int,
                            y as int,
                            z as int,
                            x + 1,
                            v3v(particles@),
                        ));
                    }
                    x += 1;
                }
                proof {
                    assert(grid_build(
                        a as int,
                        l as int,
                        y as int,
                        z as int,
                        l as int,
                        v3v(particles@),
                    ) == grid_build(a as int, l as int, y as int, z + 1, 0, v3v(particles@)));
                }
                z += 1;
            }
            proof {
                assert(grid_build(a as int, l as int, y as int, l as int, 0, v3v(particles@))
                    == grid_build(a as int, l as int, y + 1, 0, 0, v3v(particles@)));
            }
            y += 1;
        }
        proof {
            assert(grid_build(a as int, l as int, l as int, 0, 0, v3v(particles@))
                == v3v(particles@));
        }
        let n = particles.len();
        let edges = scan_edges(&particles, a);
        let mut temp: Vec<Vec3> = Vec::new();
        let mut vel: Vec<Vec3> = Vec::new();
        let mut colors: Vec<Vec3> = Vec::new();
        let mut i: usize = 0;
        while i < n
            invariant
                i <= n,
                temp@.len() == i,
                vel@.len() == i,
                colors@.len() == i,
                forall|q: int| 0 <= q < i ==> v3v(temp@)[q] == (V3 { x: 0, y: 0, z: 0 }),
                forall|q: int| 0 <= q < i ==> v3v(vel@)[q] == (V3 { x: 0, y: 0, z: 0 }),
                forall|q: int|
                    0 <= q < i ==> v3v(colors@)[q] == (V3 { x: SCALE as int, y: 0, z: 0 }),
            decreases n - i,
        {
            let ghost t0 = v3v(temp@);
            let ghost e0 = v3v(vel@);
            let ghost c0 = v3v(colors@);
            temp.push(Vec3 { x: 0, y: 0, z: 0 });
            vel.push(Vec3 { x: 0, y: 0, z: 0 });
            colors.push(Vec3 { x: SCALE, y: 0, z: 0 });
            proof {
                assert(v3v(temp@) =~= t0.push(V3 { x: 0, y: 0, z: 0 }));
                assert(v3v(vel@) =~= e0.push(V3 { x: 0, y: 0, z: 0 }));
                assert(v3v(colors@) =~= c0.push(V3 { x: SCALE as int, y: 0, z: 0 }));
            }
            i += 1;
        }
        let s = Softbody {
            particles,
            colors,
            temp_particles: temp,
            vel_particles: vel,
            edges,
            a,
        };
        proof {
            assert(v3v(s.temp_particles@) =~= Seq::new(
                grid_points(a as int, l as int).len(),
                |i: int| (V3 { x: 0, y: 0, z: 0 }),
            ));
            assert(v3v(s.vel_particles@) =~= Seq::new(
                grid_points(a as int, l as int).len(),
                |i: int| (V3 { x: 0, y: 0, z: 0 }),
            ));
            assert(v3v(s.colors@) =~= Seq::new(
                grid_points(a as int, l as int).len(),
                |i: int| (V3 { x: SCALE as int, y: 0, z: 0 }),
            ));
            assert forall|q: int| 0 <= q < s.particles@.len() implies (#[trigger] v3v(
                s.temp_particles@,
            )[q]).bounded(SOFT_RANGE as int) by {}
            assert forall|q: int| 0 <= q < s.particles@.len() implies (#[trigger] v3v(
                s.vel_particles@,
            )[q]).bounded(VEL_RANGE as int) by {}
        }
        s
    }
}

/// The half-spacing offsets of the tetrahedral packing.
pub open spec fn grid_ha(a: int) -> int {
    div_tz(a * sqrt_floor(3 * (SCALE as int) * (SCALE as int)), 2 * (SCALE as int))
}

pub open spec fn grid_h(a: int) -> int {
    div_tz(a * sqrt_floor(div_tz(2 * (SCALE as int) * (SCALE as int), 3)), SCALE as int)
}

/// One lattice point: alternate planes are shifted by half a spacing along
/// X and by a third of the row offset along Z.
pub open spec fn grid_point(a: int, x: int, y: int, z: int) -> V3 {
    let z_off = if y % 2 == 0 {
        div_tz(2 * grid_ha(a), 3)
    } else {
        0
    };
    let x_off = if z % 2 == 0 {
        div_tz(a, 2)
    } else {
        0
    };
    V3 { x: x * a + x_off, y: y * grid_h(a), z: z * grid_ha(a) + z_off }
}

/// The lattice points in push order: plane by plane, row by row.
pub open spec fn grid_build(a: int, l: int, y: int, z: int, x: int, acc: Seq<V3>) -> Seq<V3>
    decreases l - y, l - z, l - x,
{
    if !(0 <= y < l) {
        acc
    } else if !(0 <= z < l) {
        grid_build(a, l, y + 1, 0, 0, acc)
    } else if !(0 <= x < l) {
        grid_build(a, l, y, z + 1, 0, acc)
    } else {
        grid_build(a, l, y, z, x + 1, acc.push(grid_point(a, x, y, z)))
    }
}

pub open spec fn grid_points(a: int, l: int) -> Seq<V3> {
    grid_build(a, l, 0, 0, 0, Seq::empty())
}

/// The one-time quadratic edge scan over the finished lattice.
fn scan_edges(particles: &Vec<Vec3>, a: i64) -> (out: Vec<u32>)
    requires
        forall|q: int|
            0 <= q < particles@.len() ==> (#[trigger] v3v(particles@)[q]).bounded(
                SOFT_RANGE as int,
            ),
        0 < a <= SOFT_RANGE,
        particles@.len() <= 0xffff_ffff,
    ensures
        edgev(out@) == edges_outer(v3v(particles@), 0, a as int, Seq::empty()),
        out@.len() % 2 == 0,
        forall|k: int| 0 <= k < out@.len() ==> 0 <= #[trigger] edgev(out@)[k] < particles@.len(),
{
    let ghost ps = v3v(particles@);
    let n = particles.len();
    let mut out: Vec<u32> = Vec::new();
    assert(edgev(out@) =~= Seq::<int>::empty());
    let mut i: usize = 0;
    while i < n
        invariant
            i <= n,
            n == particles@.len(),
            n <= 0xffff_ffff,
            ps == v3v(particles@),
            0 < a <= SOFT_RANGE,
            forall|q: int| 0 <= q < n ==> (#[trigger] ps[q]).bounded(SOFT_RANGE as int),
            edges_outer(ps, i as int, a as int, edgev(out@)) == edges_outer(
                ps,
                0,
                a as int,
                Seq::empty(),
            ),
            out@.len() % 2 == 0,
            forall|k: int| 0 <= k < out@.len() ==> 0 <= #[trigger] edgev(out@)[k] < n,
        decreases n - i,
    {
        let mut y = i + 1;
        while y < n
            invariant
                i < y <= n,
                i < n,
                n == particles@.len(),
                n <= 0xffff_ffff,
                ps == v3v(particles@),
                0 < a <= SOFT_RANGE,
                forall|q: int| 0 <= q < n ==> (#[trigger] ps[q]).bounded(SOFT_RANGE as int),
                edges_outer(ps, i + 1, a as int, edges_inner(ps, i as int, y as int, a as int, edgev(out@)))
                    == edges_outer(ps, 0, a as int, Seq::empty()),
                out@.len() % 2 == 0,
                forall|k: int| 0 <= k < out@.len() ==> 0 <= #[trigger] edgev(out@)[k] < n,
            decreases n - y,
        {
            let ghost acc0 = edgev(out@);
            proof {
                assert(ps[i as int] == particles@[i as int]@);
                assert(ps[y as int] == particles@[y as int]@);
            }
            let d = particles[i].sub(particles[y]);
            let m = d.mag2();
            let t = a + EDGE_EPS;
            proof {
                lemma_mul_bound(t as int, t as int, 0x20_1000, 0x20_1000);
            }
            if m < t * t {
                out.push(i as u32);
                out.push(y as u32);
                proof {
                    assert(edgev(out@) =~= acc0.push(i as int).push(y as int));
                }
            }
            proof {
                assert(edges_inner(ps, i as int, y as int, a as int, acc0) == edges_inner(
                    ps,
                    i as int,
                    y + 1,
                    a as int,
                    edgev(out@),
                ));
            }
            y += 1;
        }
        i += 1;
    }
    out
}

} // verus!
