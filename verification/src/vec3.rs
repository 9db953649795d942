//! 3D fixed-point vectors and their mathematical model.

use vstd::prelude::*;
use crate::fixed::div_tz;

verus! {

/// A 3D vector of fixed-point scalars.
#[derive(Clone, Copy, PartialEq, Eq, Structural, Debug)]
pub struct Vec3 {
    pub x: i64,
    pub y: i64,
    pub z: i64,
}

/// The mathematical value of a `Vec3`.
pub ghost struct V3 {
    pub x: int,
    pub y: int,
    pub z: int,
}

impl View for Vec3 {
    type V = V3;

    open spec fn view(&self) -> V3 {
        V3 { x: self.x as int, y: self.y as int, z: self.z as int }
    }
}

impl V3 {
    pub open spec fn add(self, o: V3) -> V3 {
        V3 { x: self.x + o.x, y: self.y + o.y, z: self.z + o.z }
    }

    pub open spec fn sub(self, o: V3) -> V3 {
        V3 { x: self.x - o.x, y: self.y - o.y, z: self.z - o.z }
    }

    pub open spec fn dot(self, o: V3) -> int {
        self.x * o.x + self.y * o.y + self.z * o.z
    }

    pub open spec fn cross(self, o: V3) -> V3 {
        V3 {
            x: self.y * o.z - self.z * o.y,
            y: self.z * o.x - self.x * o.z,
            z: self.x * o.y - self.y * o.x,
        }
    }

    pub open spec fn mag2(self) -> int {
        self.dot(self)
    }

    /// All coordinates scaled down by `c`, rounding toward zero.
    pub open spec fn div_all(self, c: int) -> V3 {
        V3 { x: div_tz(self.x, c), y: div_tz(self.y, c), z: div_tz(self.z, c) }
    }

    /// All coordinates within `b` in magnitude.
    pub open spec fn bounded(self, b: int) -> bool {
        &&& -b <= self.x <= b
        &&& -b <= self.y <= b
        &&& -b <= self.z <= b
    }

    /// All coordinates representable as `i64`.
    pub open spec fn fits(self) -> bool {
        self.bounded(0x7fff_ffff_ffff_ffff)
    }
}

/// Mathematical value of a vector list.
pub open spec fn v3v(s: Seq<Vec3>) -> Seq<V3> {
    s.map_values(|p: Vec3| p@)
}

/// The squared magnitude of a vector with coordinates within `b` is at most
/// `3 * b * b`, and it is nonnegative.
pub proof fn lemma_mag2_bound3(v: V3, b: int) by (nonlinear_arith)
    requires
        v.bounded(b),
        b >= 0,
    ensures
        0 <= v.mag2() <= 3 * b * b,
{
}

/// A dot product of vectors with coordinates within `a` and `b` is within
/// `3 * a * b`; a cross product has coordinates within `2 * a * b`.
pub proof fn lemma_prod_bound3(u: V3, v: V3, a: int, b: int)
    requires
        u.bounded(a),
        v.bounded(b),
        a >= 0,
        b >= 0,
    ensures
        -(3 * a * b) <= u.dot(v) <= 3 * a * b,
        u.cross(v).bounded(2 * a * b),
{
    crate::fixed::lemma_mul_bound(u.x, v.x, a, b);
    crate::fixed::lemma_mul_bound(u.y, v.y, a, b);
    crate::fixed::lemma_mul_bound(u.z, v.z, a, b);
    crate::fixed::lemma_mul_bound(u.y, v.z, a, b);
    crate::fixed::lemma_mul_bound(u.z, v.y, a, b);
    crate::fixed::lemma_mul_bound(u.z, v.x, a, b);
    crate::fixed::lemma_mul_bound(u.x, v.z, a, b);
    crate::fixed::lemma_mul_bound(u.x, v.y, a, b);
    crate::fixed::lemma_mul_bound(u.y, v.x, a, b);
    assert(2 * a * b == 2 * (a * b) && 3 * a * b == 3 * (a * b)) by (nonlinear_arith);
}

impl Vec3 {
    pub fn new(x: i64, y: i64, z: i64) -> (r: Vec3)
        ensures
            r@ == (V3 { x: x as int, y: y as int, z: z as int }),
    {
        Vec3 { x, y, z }
    }

    pub fn zero() -> (r: Vec3)
        ensures
            r@ == (V3 { x: 0, y: 0, z: 0 }),
    {
        Vec3 { x: 0, y: 0, z: 0 }
    }

    pub fn add(self, o: Vec3) -> (r: Vec3)
        requires
            self@.add(o@).fits(),
        ensures
            r@ == self@.add(o@),
    {
        Vec3 { x: self.x + o.x, y: self.y + o.y, z: self.z + o.z }
    }

    pub fn sub(self, o: Vec3) -> (r: Vec3)
        requires
            self@.sub(o@).fits(),
        ensures
            r@ == self@.sub(o@),
    {
        Vec3 { x: self.x - o.x, y: self.y - o.y, z: self.z - o.z }
    }

    pub fn dot(self, o: Vec3) -> (r: i64)
        requires
            self@.bounded(0x4000_0000),
            o@.bounded(0x4000_0000),
        ensures
            r as int == self@.dot(o@),
    {
        proof {
            lemma_prod_bound3(self@, o@, 0x4000_0000, 0x4000_0000);
            assert(-0x1000_0000_0000_0000 <= (self.x as int) * (o.x as int) <= 0x1000_0000_0000_0000
                && -0x1000_0000_0000_0000 <= (self.y as int) * (o.y as int) <= 0x1000_0000_0000_0000
                && -0x1000_0000_0000_0000 <= (self.z as int) * (o.z as int) <= 0x1000_0000_0000_0000)
                by (nonlinear_arith)
                requires
                    -0x4000_0000 <= self.x <= 0x4000_0000,
                    -0x4000_0000 <= self.y <= 0x4000_0000,
                    -0x4000_0000 <= self.z <= 0x4000_0000,
                    -0x4000_0000 <= o.x <= 0x4000_0000,
                    -0x4000_0000 <= o.y <= 0x4000_0000,
                    -0x4000_0000 <= o.z <= 0x4000_0000,
            ;
        }
        self.x * o.x + self.y * o.y + self.z * o.z
    }

    pub fn cross(self, o: Vec3) -> (r: Vec3)
        requires
            self@.bounded(0x4000_0000),
            o@.bounded(0x4000_0000),
        ensures
            r@ == self@.cross(o@),
    {
        proof {
            assert(-0x1000_0000_0000_0000 <= (self.y as int) * (o.z as int) <= 0x1000_0000_0000_0000
                && -0x1000_0000_0000_0000 <= (self.z as int) * (o.y as int) <= 0x1000_0000_0000_0000
                && -0x1000_0000_0000_0000 <= (self.z as int) * (o.x as int) <= 0x1000_0000_0000_0000
                && -0x1000_0000_0000_0000 <= (self.x as int) * (o.z as int) <= 0x1000_0000_0000_0000
                && -0x1000_0000_0000_0000 <= (self.x as int) * (o.y as int) <= 0x1000_0000_0000_0000
                && -0x1000_0000_0000_0000 <= (self.y as int) * (o.x as int) <= 0x1000_0000_0000_0000)
                by (nonlinear_arith)
                requires
                    -0x4000_0000 <= self.x <= 0x4000_0000,
                    -0x4000_0000 <= self.y <= 0x4000_0000,
                    -0x4000_0000 <= self.z <= 0x4000_0000,
                    -0x4000_0000 <= o.x <= 0x4000_0000,
                    -0x4000_0000 <= o.y <= 0x4000_0000,
                    -0x4000_0000 <= o.z <= 0x4000_0000,
            ;
        }
        Vec3 {
            x: self.y * o.z - self.z * o.y,
            y: self.z * o.x - self.x * o.z,
            z: self.x * o.y - self.y * o.x,
        }
    }

    pub fn mag2(self) -> (r: i64)
        requires
            self@.bounded(0x4000_0000),
        ensures
            r as int == self@.mag2(),
            r >= 0,
    {
        let r = self.dot(self);
        proof {
            lemma_mag2_bound3(self@, 0x4000_0000);
        }
        r
    }

    /// Exact range test on all three coordinates.
    pub fn bounded_check(self, b: i64) -> (r: bool)
        requires
            b >= 0,
        ensures
            r == self@.bounded(b as int),
    {
        -b <= self.x && self.x <= b && -b <= self.y && self.y <= b && -b <= self.z && self.z <= b
    }
}

/// Scaling all coordinates down by `c` scales a coordinate bound down the
/// same way.
pub proof fn lemma_div_all_bounded(v: V3, c: int, b: int)
    requires
        c >= 1,
        b >= 0,
        v.bounded(b),
    ensures
        v.div_all(c).bounded(b / c),
{
    crate::fixed::lemma_div_tz_ordered(v.x, c, b);
    crate::fixed::lemma_div_tz_ordered(v.y, c, b);
    crate::fixed::lemma_div_tz_ordered(v.z, c, b);
}

} // verus!
