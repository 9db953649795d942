//! The tetrahedron primitive and its XPBD-style constraints.
//!
//! A `Tetrahedral` holds four positions, a rest volume and a rest edge
//! length. `vol_c` corrects the four vertices along the opposite-face
//! normals to restore the rest volume; `tetra_dist` applies the general
//! distance correction to each vertex pair; `harddeck` clamps every vertex
//! to the floor. The operand order of every cross product matters: swapping
//! one flips the restoring direction, which `lemma_vol6_swap` states.

use vstd::prelude::*;
use crate::fixed::{
    div_tz, iabs, is_sqrt, isqrt_u64, lemma_div_tz_bound, lemma_div_tz_denom, lemma_div_tz_scale,
    lemma_mul_bound, lemma_sqrt_unique, mul_div, sqrt_floor, SCALE,
};
use crate::vec3::{lemma_mag2_bound3, lemma_prod_bound3, v3v, Vec3, V3};
use crate::settings::DT;

verus! {

/// Largest vertex coordinate magnitude the tetrahedron routines work in; a
/// correction that would push a vertex outside is dropped whole.
pub const TETRA_RANGE: i64 = 0x20_0000;

/// Four positions, the volume the volume constraint restores, and the edge
/// length the distance constraint restores.
#[derive(Clone, Debug)]
pub struct Tetrahedral {
    pub verts: [Vec3; 4],
    pub rest_volume: i64,
    pub rest_edge: i64,
}

/// Six times the signed volume of the tetrahedron `(a, b, c, d)`:
/// `((b - a) x (c - a)) . (d - a)`.
pub open spec fn vol6(a: V3, b: V3, c: V3, d: V3) -> int {
    b.sub(a).cross(c.sub(a)).dot(d.sub(a))
}

/// The fixed-point signed volume: `vol6` carries three scale factors, so
/// dividing by six and by two scale factors leaves one.
pub open spec fn volume_of(a: V3, b: V3, c: V3, d: V3) -> int {
    div_tz(vol6(a, b, c, d), 6 * (SCALE as int) * (SCALE as int))
}

/// The four constraint gradients: each vertex's opposite-face normal,
/// scaled back to fixed-point units.
pub open spec fn grads_of(a: V3, b: V3, c: V3, d: V3) -> Seq<V3> {
    seq![
        d.sub(b).cross(c.sub(b)).div_all(SCALE as int),
        c.sub(a).cross(d.sub(a)).div_all(SCALE as int),
        d.sub(a).cross(b.sub(a)).div_all(SCALE as int),
        b.sub(a).cross(c.sub(a)).div_all(SCALE as int),
    ]
}

/// The fixed-point compliance term `1 / dt^2`, scaled.
pub open spec fn inv_dt2(dt: int) -> int {
    div_tz((SCALE as int) * (SCALE as int) * (SCALE as int), dt * dt)
}

/// One application of the volume constraint: the scalar violation is the
/// volume minus its rest value, the denominator sums the squared gradient
/// norms with the compliance term, and every vertex moves by the multiplier
/// times its gradient. A correction that would leave `TETRA_RANGE` is
/// dropped whole.
pub open spec fn vol_c_spec(vs: Seq<V3>, rest: int, dt: int) -> Seq<V3> {
    let g = grads_of(vs[0], vs[1], vs[2], vs[3]);
    let vol = volume_of(vs[0], vs[1], vs[2], vs[3]);
    let d1 = g[0].mag2() + g[1].mag2() + g[2].mag2() + g[3].mag2();
    let den = div_tz(d1, SCALE as int) + inv_dt2(dt);
    let lam = div_tz(6 * (rest - vol) * (SCALE as int), den);
    let nv = Seq::new(4, |i: int| vs[i].add(
        V3 {
            x: div_tz(lam * g[i].x, SCALE as int),
            y: div_tz(lam * g[i].y, SCALE as int),
            z: div_tz(lam * g[i].z, SCALE as int),
        },
    ));
    if forall|i: int| 0 <= i < 4 ==> (#[trigger] nv[i]).bounded(TETRA_RANGE as int) {
        nv
    } else {
        vs
    }
}

/// One pairwise distance correction between vertices `a` and `b`: the
/// violation is the current distance minus the rest length, and both ends
/// move by equal and opposite amounts along the connecting line. A
/// coincident pair is skipped, as is a correction that would leave
/// `TETRA_RANGE`.
pub open spec fn dist_step(vs: Seq<V3>, a: int, b: int, rest: int, dt: int) -> Seq<V3> {
    let g = vs[a].sub(vs[b]);
    let len = sqrt_floor(g.mag2());
    if len == 0 {
        vs
    } else {
        let den = 2 * (SCALE as int) + inv_dt2(dt);
        let lam = div_tz(-(len - rest) * (SCALE as int), den);
        let corr = V3 {
            x: div_tz(g.x * lam, len),
            y: div_tz(g.y * lam, len),
            z: div_tz(g.z * lam, len),
        };
        let na = vs[a].add(corr);
        let nb = vs[b].sub(corr);
        if na.bounded(TETRA_RANGE as int) && nb.bounded(TETRA_RANGE as int) {
            vs.update(a, na).update(b, nb)
        } else {
            vs
        }
    }
}

/// The whole pairwise pass, walking the six vertex pairs in order.
pub open spec fn tetra_dist_spec(vs: Seq<V3>, rest: int, dt: int) -> Seq<V3> {
    let s1 = dist_step(vs, 0, 1, rest, dt);
    let s2 = dist_step(s1, 0, 2, rest, dt);
    let s3 = dist_step(s2, 0, 3, rest, dt);
    let s4 = dist_step(s3, 1, 2, rest, dt);
    let s5 = dist_step(s4, 1, 3, rest, dt);
    dist_step(s5, 2, 3, rest, dt)
}

/// The floor clamp for one position: a vertex below the deck is lifted onto
/// it, anything else is untouched.
pub open spec fn clamp_floor(v: V3) -> V3 {
    if v.y < 0 {
        V3 { x: v.x, y: 0, z: v.z }
    } else {
        v
    }
}

pub open spec fn harddeck_spec(vs: Seq<V3>) -> Seq<V3> {
    vs.map_values(|v: V3| clamp_floor(v))
}

/// The tetrahedron's vertices all lie within working range and its rest
/// values are representable.
pub open spec fn tetra_wf(t: Tetrahedral) -> bool {
    &&& forall|i: int| 0 <= i < 4 ==> (#[trigger] v3v(t.verts@)[i]).bounded(TETRA_RANGE as int)
    &&& t.verts@.len() == 4
    &&& iabs(t.rest_volume as int) <= 0x10_0000_0000
    &&& 0 <= t.rest_edge <= TETRA_RANGE
}

/// The vertex layout `Tetrahedral::new` builds from its radius parameter.
pub open spec fn tetra_new_spec(r: int) -> Seq<V3> {
    let s3 = sqrt_floor(3 * (SCALE as int) * (SCALE as int));
    let x = div_tz(r * s3, SCALE as int);
    let h = div_tz(x * s3, SCALE as int);
    seq![
        V3 { x: -x, y: 0, z: -r },
        V3 { x: x, y: 0, z: -r },
        V3 { x: 0, y: 0, z: 2 * r },
        V3 { x: 0, y: h, z: 0 },
    ]
}

impl Tetrahedral {
    /// A regular-based tetrahedron around the origin with apex above it; the
    /// rest edge length and the rest volume are taken from this initial
    /// shape.
    pub fn new(r: i64) -> (t: Tetrahedral)
        requires
            0 < r <= 0x8_0000,
        ensures
            v3v(t.verts@) == tetra_new_spec(r as int),
            t.rest_edge as int == 2 * div_tz(
                r as int * sqrt_floor(3 * (SCALE as int) * (SCALE as int)),
                SCALE as int,
            ),
            t.rest_volume as int == volume_of(
                tetra_new_spec(r as int)[0],
                tetra_new_spec(r as int)[1],
                tetra_new_spec(r as int)[2],
                tetra_new_spec(r as int)[3],
            ),
            tetra_wf(t),
    {
        let s3 = isqrt_u64(12884901888u64) as i64;
        proof {
            assert(12884901888 == 3 * (SCALE as int) * (SCALE as int));
            assert(s3 as int == sqrt_floor(3 * (SCALE as int) * (SCALE as int)));
            assert(s3 < 0x2_0000) by {
                if s3 >= 0x2_0000 {
                    assert((s3 as int) * (s3 as int) >= 0x2_0000 * 0x2_0000) by (nonlinear_arith)
                        requires
                            s3 >= 0x2_0000,
                    ;
                }
            }
            crate::fixed::lemma_mul_bound(r as int, s3 as int, 0x8_0000, 0x2_0000);
            crate::fixed::lemma_div_tz_ordered(r as int * s3 as int, SCALE as int, (0x8_0000 * 0x2_0000) as int);
        }
        let x = mul_div(r, s3, SCALE);
        proof {
            crate::fixed::lemma_mul_bound(x as int, s3 as int, 0x10_0000, 0x2_0000);
            crate::fixed::lemma_div_tz_ordered(x as int * s3 as int, SCALE as int, (0x10_0000 * 0x2_0000) as int);
        }
        let h = mul_div(x, s3, SCALE);
        let v1 = Vec3 { x: -x, y: 0, z: -r };
        let v2 = Vec3 { x, y: 0, z: -r };
        let v3 = Vec3 { x: 0, y: 0, z: 2 * r };
        let v4 = Vec3 { x: 0, y: h, z: 0 };
        let mut t = Tetrahedral { verts: [v1, v2, v3, v4], rest_volume: 0, rest_edge: 2 * x };
        assert(v3v(t.verts@) =~= tetra_new_spec(r as int));
        let vol = t.get_volume();
        t.rest_volume = vol;
        t
    }

    /// The degenerate tetrahedron with every vertex at the origin.
    pub fn zero() -> (t: Tetrahedral)
        ensures
            v3v(t.verts@) =~= Seq::new(4, |i: int| (V3 { x: 0, y: 0, z: 0 })),
            t.rest_volume == 0,
            t.rest_edge == 0,
            tetra_wf(t),
    {
        let z = Vec3 { x: 0, y: 0, z: 0 };
        let t = Tetrahedral { verts: [z, z, z, z], rest_volume: 0, rest_edge: 0 };
        assert(v3v(t.verts@) =~= Seq::new(4, |i: int| (V3 { x: 0, y: 0, z: 0 })));
        t
    }

    /// The four constraint gradients, one opposite-face normal per vertex.
    pub fn get_constraints(&self) -> (g: [Vec3; 4])
        requires
            tetra_wf(*self),
        ensures
            v3v(g@) == grads_of(
                v3v(self.verts@)[0],
                v3v(self.verts@)[1],
                v3v(self.verts@)[2],
                v3v(self.verts@)[3],
            ),
            forall|i: int| 0 <= i < 4 ==> (#[trigger] v3v(g@)[i]).bounded(0x2000_0000),
    {
        let v1 = self.verts[0];
        let v2 = self.verts[1];
        let v3 = self.verts[2];
        let v4 = self.verts[3];
        proof {
            assert(v3v(self.verts@)[0] == self.verts@[0]@);
            assert(v3v(self.verts@)[1] == self.verts@[1]@);
            assert(v3v(self.verts@)[2] == self.verts@[2]@);
            assert(v3v(self.verts@)[3] == self.verts@[3]@);
        }
        let c1r = v4.sub(v2).cross(v3.sub(v2));
        let c2r = v3.sub(v1).cross(v4.sub(v1));
        let c3r = v4.sub(v1).cross(v2.sub(v1));
        let c4r = v2.sub(v1).cross(v3.sub(v1));
        proof {
            lemma_prod_bound3(v4@.sub(v2@), v3@.sub(v2@), 0x40_0000, 0x40_0000);
            lemma_prod_bound3(v3@.sub(v1@), v4@.sub(v1@), 0x40_0000, 0x40_0000);
            lemma_prod_bound3(v4@.sub(v1@), v2@.sub(v1@), 0x40_0000, 0x40_0000);
            lemma_prod_bound3(v2@.sub(v1@), v3@.sub(v1@), 0x40_0000, 0x40_0000);
        }
        let g = [div_scale(c1r), div_scale(c2r), div_scale(c3r), div_scale(c4r)];
        proof {
            crate::vec3::lemma_div_all_bounded(c1r@, SCALE as int, 0x2000_0000_0000);
            crate::vec3::lemma_div_all_bounded(c2r@, SCALE as int, 0x2000_0000_0000);
            crate::vec3::lemma_div_all_bounded(c3r@, SCALE as int, 0x2000_0000_0000);
            crate::vec3::lemma_div_all_bounded(c4r@, SCALE as int, 0x2000_0000_0000);
            assert(v3v(g@) =~= grads_of(
                v3v(self.verts@)[0],
                v3v(self.verts@)[1],
                v3v(self.verts@)[2],
                v3v(self.verts@)[3],
            ));
        }
        g
    }

    /// The fixed-point signed volume, derived on demand.
    pub fn get_volume(&self) -> (r: i64)
        requires
            tetra_wf(*self),
        ensures
            r as int == volume_of(
                v3v(self.verts@)[0],
                v3v(self.verts@)[1],
                v3v(self.verts@)[2],
                v3v(self.verts@)[3],
            ),
            iabs(r as int) <= 0x10_0000_0000,
    {
        let v1 = self.verts[0];
        let v2 = self.verts[1];
        let v3 = self.verts[2];
        let v4 = self.verts[3];
        proof {
            assert(v3v(self.verts@)[0] == self.verts@[0]@);
            assert(v3v(self.verts@)[1] == self.verts@[1]@);
            assert(v3v(self.verts@)[2] == self.verts@[2]@);
            assert(v3v(self.verts@)[3] == self.verts@[3]@);
        }
        let e1 = v2.sub(v1);
        let e2 = v3.sub(v1);
        let e3 = v4.sub(v1);
        let cr = e1.cross(e2);
        proof {
            lemma_prod_bound3(e1@, e2@, 0x40_0000, 0x40_0000);
            lemma_mul_bound(cr.x as int, e3.x as int, 0x2000_0000_0000, 0x40_0000);
            lemma_mul_bound(cr.y as int, e3.y as int, 0x2000_0000_0000, 0x40_0000);
            lemma_mul_bound(cr.z as int, e3.z as int, 0x2000_0000_0000, 0x40_0000);
        }
        let t128: i128 = (cr.x as i128) * (e3.x as i128) + (cr.y as i128) * (e3.y as i128) + (
        cr.z as i128) * (e3.z as i128);
        proof {
            crate::fixed::lemma_div_tz_ordered(
                t128 as int,
                25769803776,
                (3 * (0x2000_0000_0000 * 0x40_0000)) as int,
            );
        }
        let q = crate::fixed::div_tz_i128(t128, 25769803776);
        proof {
            assert(25769803776 == 6 * (SCALE as int) * (SCALE as int));
        }
        q as i64
    }
}

/// One coordinate vector scaled down to fixed-point units.
fn div_scale(v: Vec3) -> (r: Vec3)
    ensures
        r@ == v@.div_all(SCALE as int),
{
    proof {
        lemma_div_tz_bound(v.x as int, SCALE as int);
        lemma_div_tz_bound(v.y as int, SCALE as int);
        lemma_div_tz_bound(v.z as int, SCALE as int);
    }
    Vec3 {
        x: mul_div(v.x, 1, SCALE),
        y: mul_div(v.y, 1, SCALE),
        z: mul_div(v.z, 1, SCALE),
    }
}

/// The floor clamp changes nothing the second time: a law of `harddeck`.
pub proof fn lemma_harddeck_idempotent(vs: Seq<V3>)
    ensures
        harddeck_spec(harddeck_spec(vs)) == harddeck_spec(vs),
{
    assert(harddeck_spec(harddeck_spec(vs)) =~= harddeck_spec(vs));
}

/// Swapping the two cross-product operands of the signed volume flips its
/// sign, so the winding of a tetrahedron decides the constraint's restoring
/// direction.
#[verifier::rlimit(100)]
pub proof fn lemma_vol6_swap(a: V3, b: V3, c: V3, d: V3) by (nonlinear_arith)
    ensures
        vol6(a, c, b, d) == -vol6(a, b, c, d),
{
}

/// The sign flip carries to the fixed-point volume exactly, because the
/// division rounds toward zero.
pub proof fn lemma_volume_swap(a: V3, b: V3, c: V3, d: V3)
    ensures
        volume_of(a, c, b, d) == -volume_of(a, b, c, d),
{
    lemma_vol6_swap(a, b, c, d);
}

/// Applies the hard floor clamp to every vertex; doing it twice changes
/// nothing more.
pub fn harddeck(t: &mut Tetrahedral)
    ensures
        v3v(final(t).verts@) == harddeck_spec(v3v(old(t).verts@)),
        final(t).rest_volume == old(t).rest_volume,
        final(t).rest_edge == old(t).rest_edge,
        old(t).verts@.len() == 4 ==> final(t).verts@.len() == 4,
{
    let mut i: usize = 0;
    while i < 4
        invariant
            i <= 4,
            t.verts@.len() == 4,
            t.rest_volume == old(t).rest_volume,
            t.rest_edge == old(t).rest_edge,
            forall|q: int| i <= q < 4 ==> v3v(t.verts@)[q] == v3v(old(t).verts@)[q],
            forall|q: int|
                0 <= q < i ==> v3v(t.verts@)[q] == clamp_floor(v3v(old(t).verts@)[q]),
        decreases 4 - i,
    {
        let v = t.verts[i];
        let ghost before = v3v(t.verts@);
        if v.y < 0 {
            t.verts.set(i, Vec3 { x: v.x, y: 0, z: v.z });
        }
        proof {
            assert(before[i as int] == v@);
            assert(v3v(t.verts@)[i as int] == clamp_floor(v3v(old(t).verts@)[i as int]));
            assert(forall|q: int| 0 <= q < 4 && q != i ==> v3v(t.verts@)[q] == before[q]);
            assert forall|q: int| 0 <= q < i + 1 implies v3v(t.verts@)[q] == clamp_floor(
                v3v(old(t).verts@)[q],
            ) by {
                if q < i {
                    assert(v3v(t.verts@)[q] == before[q]);
                }
            }
        }
        i += 1;
    }
    assert(v3v(t.verts@) =~= harddeck_spec(v3v(old(t).verts@)));
}

/// Applies the volume constraint once, as `vol_c_spec` states.
pub fn vol_c(t: &mut Tetrahedral)
    requires
        tetra_wf(*old(t)),
    ensures
        v3v(final(t).verts@) == vol_c_spec(
            v3v(old(t).verts@),
            old(t).rest_volume as int,
            DT as int,
        ),
        final(t).rest_volume == old(t).rest_volume,
        final(t).rest_edge == old(t).rest_edge,
        tetra_wf(*final(t)),
{
    let ghost vs0 = v3v(t.verts@);
    let g = t.get_constraints();
    let vol = t.get_volume();
    proof {
        assert(v3v(g@)[0] == g@[0]@);
        assert(v3v(g@)[1] == g@[1]@);
        assert(v3v(g@)[2] == g@[2]@);
        assert(v3v(g@)[3] == g@[3]@);
        lemma_mag2_bound3(g@[0]@, 0x2000_0000);
        lemma_mag2_bound3(g@[1]@, 0x2000_0000);
        lemma_mag2_bound3(g@[2]@, 0x2000_0000);
        lemma_mag2_bound3(g@[3]@, 0x2000_0000);
    }
    let d1 = g[0].mag2() + g[1].mag2() + g[2].mag2() + g[3].mag2();
    proof {
        lemma_div_tz_bound(d1 as int, SCALE as int);
        lemma_div_tz_bound(281474976710656, (DT * DT) as int);
    }
    let den = mul_div(d1, 1, SCALE) + mul_div(4294967296, 65536, DT * DT);
    proof {
        assert(4294967296 * 65536 == (SCALE as int) * (SCALE as int) * (SCALE as int));
        assert(den as int == div_tz(d1 as int, SCALE as int) + inv_dt2(DT as int));
        assert(inv_dt2(DT as int) == div_tz(281474976710656, 1192464));
        assert(div_tz(d1 as int, SCALE as int) >= 0) by {
            lemma_div_tz_bound(d1 as int, SCALE as int);
        }
        assert(den >= 65536);
    }
    let num = 6 * (t.rest_volume - vol);
    proof {
        lemma_div_tz_bound(num as int * SCALE as int, den as int);
    }
    let lam = mul_div(num, SCALE, den);
    proof {
        lemma_div_tz_denom(num as int * SCALE as int, den as int, SCALE as int);
        crate::fixed::lemma_mul_bound(num as int, SCALE as int, 0x1_0000_0000_0000, SCALE as int);
        assert(iabs(lam as int) <= 0x1_0000_0000_0000);
        crate::fixed::lemma_mul_bound(lam as int, g@[0]@.x, 0x1_0000_0000_0000, 0x2000_0000);
        crate::fixed::lemma_mul_bound(lam as int, g@[0]@.y, 0x1_0000_0000_0000, 0x2000_0000);
        crate::fixed::lemma_mul_bound(lam as int, g@[0]@.z, 0x1_0000_0000_0000, 0x2000_0000);
        crate::fixed::lemma_mul_bound(lam as int, g@[1]@.x, 0x1_0000_0000_0000, 0x2000_0000);
        crate::fixed::lemma_mul_bound(lam as int, g@[1]@.y, 0x1_0000_0000_0000, 0x2000_0000);
        crate::fixed::lemma_mul_bound(lam as int, g@[1]@.z, 0x1_0000_0000_0000, 0x2000_0000);
        crate::fixed::lemma_mul_bound(lam as int, g@[2]@.x, 0x1_0000_0000_0000, 0x2000_0000);
        crate::fixed::lemma_mul_bound(lam as int, g@[2]@.y, 0x1_0000_0000_0000, 0x2000_0000);
        crate::fixed::lemma_mul_bound(lam as int, g@[2]@.z, 0x1_0000_0000_0000, 0x2000_0000);
        crate::fixed::lemma_mul_bound(lam as int, g@[3]@.x, 0x1_0000_0000_0000, 0x2000_0000);
        crate::fixed::lemma_mul_bound(lam as int, g@[3]@.y, 0x1_0000_0000_0000, 0x2000_0000);
        crate::fixed::lemma_mul_bound(lam as int, g@[3]@.z, 0x1_0000_0000_0000, 0x2000_0000);
        lemma_div_tz_bound(lam as int * g@[0]@.x, SCALE as int);
        lemma_div_tz_bound(lam as int * g@[0]@.y, SCALE as int);
        lemma_div_tz_bound(lam as int * g@[0]@.z, SCALE as int);
        lemma_div_tz_bound(lam as int * g@[1]@.x, SCALE as int);
        lemma_div_tz_bound(lam as int * g@[1]@.y, SCALE as int);
        lemma_div_tz_bound(lam as int * g@[1]@.z, SCALE as int);
        lemma_div_tz_bound(lam as int * g@[2]@.x, SCALE as int);
        lemma_div_tz_bound(lam as int * g@[2]@.y, SCALE as int);
        lemma_div_tz_bound(lam as int * g@[2]@.z, SCALE as int);
        lemma_div_tz_bound(lam as int * g@[3]@.x, SCALE as int);
        lemma_div_tz_bound(lam as int * g@[3]@.y, SCALE as int);
        lemma_div_tz_bound(lam as int * g@[3]@.z, SCALE as int);
    }
    let n0 = t.verts[0].add(Vec3 {
        x: mul_div(lam, g[0].x, SCALE),
        y: mul_div(lam, g[0].y, SCALE),
        z: mul_div(lam, g[0].z, SCALE),
    });
    let n1 = t.verts[1].add(Vec3 {
        x: mul_div(lam, g[1].x, SCALE),
        y: mul_div(lam, g[1].y, SCALE),
        z: mul_div(lam, g[1].z, SCALE),
    });
    let n2 = t.verts[2].add(Vec3 {
        x: mul_div(lam, g[2].x, SCALE),
        y: mul_div(lam, g[2].y, SCALE),
        z: mul_div(lam, g[2].z, SCALE),
    });
    let n3 = t.verts[3].add(Vec3 {
        x: mul_div(lam, g[3].x, SCALE),
        y: mul_div(lam, g[3].y, SCALE),
        z: mul_div(lam, g[3].z, SCALE),
    });
    let ghost nv = Seq::new(4, |i: int| vs0[i].add(
        V3 {
            x: div_tz(
                div_tz(6 * (old(t).rest_volume - volume_of(vs0[0], vs0[1], vs0[2], vs0[3]))
                    * (SCALE as int), den as int) * grads_of(vs0[0], vs0[1], vs0[2], vs0[3])[i].x,
                SCALE as int,
            ),
            y: div_tz(
                div_tz(6 * (old(t).rest_volume - volume_of(vs0[0], vs0[1], vs0[2], vs0[3]))
                    * (SCALE as int), den as int) * grads_of(vs0[0], vs0[1], vs0[2], vs0[3])[i].y,
                SCALE as int,
            ),
            z: div_tz(
                div_tz(6 * (old(t).rest_volume - volume_of(vs0[0], vs0[1], vs0[2], vs0[3]))
                    * (SCALE as int), den as int) * grads_of(vs0[0], vs0[1], vs0[2], vs0[3])[i].z,
                SCALE as int,
            ),
        },
    ));
    proof {
        assert(v3v(t.verts@)[0] == vs0[0] && v3v(t.verts@)[1] == vs0[1] && v3v(t.verts@)[2]
            == vs0[2] && v3v(t.verts@)[3] == vs0[3]);
        assert(n0@ == nv[0] && n1@ == nv[1] && n2@ == nv[2] && n3@ == nv[3]);
    }
    if n0.bounded_check(TETRA_RANGE) && n1.bounded_check(TETRA_RANGE) && n2.bounded_check(
        TETRA_RANGE,
    ) && n3.bounded_check(TETRA_RANGE) {
        t.verts = [n0, n1, n2, n3];
        proof {
            assert(forall|i: int| 0 <= i < 4 ==> (#[trigger] nv[i]).bounded(TETRA_RANGE as int))
                by {
                assert(nv[0] == n0@ && nv[1] == n1@ && nv[2] == n2@ && nv[3] == n3@);
            }
            assert(v3v(t.verts@) =~= nv);
            assert(v3v(t.verts@) == vol_c_spec(vs0, old(t).rest_volume as int, DT as int));
        }
    } else {
        proof {
            assert(!(forall|i: int|
                0 <= i < 4 ==> (#[trigger] nv[i]).bounded(TETRA_RANGE as int))) by {
                assert(nv[0] == n0@ && nv[1] == n1@ && nv[2] == n2@ && nv[3] == n3@);
            }
            assert(v3v(t.verts@) =~= vs0);
            assert(v3v(t.verts@) == vol_c_spec(vs0, old(t).rest_volume as int, DT as int));
        }
    }
}

/// One executable pairwise distance correction between vertices `a` and `b`.
fn dist_pair(t: &mut Tetrahedral, a: usize, b: usize)
    requires
        tetra_wf(*old(t)),
        a < 4,
        b < 4,
        a != b,
    ensures
        v3v(final(t).verts@) == dist_step(
            v3v(old(t).verts@),
            a as int,
            b as int,
            old(t).rest_edge as int,
            DT as int,
        ),
        final(t).rest_volume == old(t).rest_volume,
        final(t).rest_edge == old(t).rest_edge,
        tetra_wf(*final(t)),
{
    let ghost vs0 = v3v(t.verts@);
    proof {
        assert(vs0[a as int] == t.verts@[a as int]@);
        assert(vs0[b as int] == t.verts@[b as int]@);
    }
    let va = t.verts[a];
    let vb = t.verts[b];
    let g = va.sub(vb);
    let m = g.mag2();
    let len64 = isqrt_u64(m as u64);
    proof {
        lemma_sqrt_unique(m as int, len64 as int);
        assert(len64 as int == sqrt_floor(vs0[a as int].sub(vs0[b as int]).mag2()));
    }
    if len64 == 0 {
        assert(v3v(t.verts@) == dist_step(vs0, a as int, b as int, old(t).rest_edge as int, DT as int));
    } else {
        let len = len64 as i64;
        proof {
            lemma_mag2_bound3(va@.sub(vb@), 0x40_0000);
            assert(len <= 0x100_0000) by {
                if len64 > 0x100_0000 {
                    assert((len64 as int) * (len64 as int) > 0x100_0000 * 0x100_0000)
                        by (nonlinear_arith)
                        requires
                            len64 > 0x100_0000,
                    ;
                    assert((len64 as int) * (len64 as int) <= m as int);
                }
            }
        }
        let q2 = mul_div(4294967296, 65536, DT * DT);
        proof {
            assert(4294967296 * 65536 == (SCALE as int) * (SCALE as int) * (SCALE as int));
            lemma_div_tz_bound(281474976710656, (DT * DT) as int);
            assert(q2 as int == inv_dt2(DT as int));
            assert(q2 as int == div_tz(281474976710656, 1192464));
            assert(q2 >= 0);
        }
        let den = 2 * SCALE + q2;
        let negc = -(len - t.rest_edge);
        proof {
            crate::fixed::lemma_mul_bound(negc as int, SCALE as int, 0x200_0000, SCALE as int);
            lemma_div_tz_bound(negc as int * SCALE as int, den as int);
        }
        let lam = mul_div(negc, SCALE, den);
        proof {
            lemma_div_tz_bound(negc as int * SCALE as int, den as int);
            assert(iabs(lam as int) <= 0x2_0000_0000_0000);
            crate::fixed::lemma_square_nonneg(g.y as int);
            crate::fixed::lemma_square_nonneg(g.z as int);
            crate::fixed::lemma_square_nonneg(g.x as int);
            assert(iabs(g.x as int) <= len as int && iabs(g.y as int) <= len as int && iabs(
                g.z as int,
            ) <= len as int) by (nonlinear_arith)
                requires
                    is_sqrt(m as int, len as int),
                    m as int == (g.x as int) * (g.x as int) + (g.y as int) * (g.y as int) + (
                    g.z as int) * (g.z as int),
                    (g.y as int) * (g.y as int) >= 0,
                    (g.z as int) * (g.z as int) >= 0,
                    (g.x as int) * (g.x as int) >= 0,
            ;
            lemma_div_tz_scale(g.x as int, lam as int, len as int, 0x2_0000_0000_0000);
            lemma_div_tz_scale(g.y as int, lam as int, len as int, 0x2_0000_0000_0000);
            lemma_div_tz_scale(g.z as int, lam as int, len as int, 0x2_0000_0000_0000);
        }
        let corr = Vec3 {
            x: mul_div(g.x, lam, len),
            y: mul_div(g.y, lam, len),
            z: mul_div(g.z, lam, len),
        };
        let na = va.add(corr);
        let nb = vb.sub(corr);
        let ghost before = v3v(t.verts@);
        if na.bounded_check(TETRA_RANGE) && nb.bounded_check(TETRA_RANGE) {
            t.verts.set(a, na);
            t.verts.set(b, nb);
            proof {
                assert(v3v(t.verts@) =~= vs0.update(a as int, na@).update(b as int, nb@));
            }
        }
        assert(v3v(t.verts@) == dist_step(vs0, a as int, b as int, old(t).rest_edge as int, DT as int));
    }
}

/// Applies the pairwise distance correction to all six vertex pairs in
/// order, as `tetra_dist_spec` states.
pub fn tetra_dist(t: &mut Tetrahedral)
    requires
        tetra_wf(*old(t)),
    ensures
        v3v(final(t).verts@) == tetra_dist_spec(
            v3v(old(t).verts@),
            old(t).rest_edge as int,
            DT as int,
        ),
        final(t).rest_volume == old(t).rest_volume,
        final(t).rest_edge == old(t).rest_edge,
        tetra_wf(*final(t)),
{
    dist_pair(t, 0, 1);
    dist_pair(t, 0, 2);
    dist_pair(t, 0, 3);
    dist_pair(t, 1, 2);
    dist_pair(t, 1, 3);
    dist_pair(t, 2, 3);
}

} // verus!
