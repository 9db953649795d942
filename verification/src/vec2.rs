//! 2D fixed-point vectors and their mathematical model.

use vstd::prelude::*;
use crate::fixed::div_tz;

verus! {

/// A 2D vector of fixed-point scalars.
#[derive(Clone, Copy, PartialEq, Eq, Structural, Debug)]
pub struct Vec2 {
    pub x: i64,
    pub y: i64,
}

/// The mathematical value of a `Vec2`: the same two coordinates as
/// unbounded integers.
pub ghost struct V2 {
    pub x: int,
    pub y: int,
}

impl View for Vec2 {
    type V = V2;

    open spec fn view(&self) -> V2 {
        V2 { x: self.x as int, y: self.y as int }
    }
}

impl V2 {
    pub open spec fn add(self, o: V2) -> V2 {
        V2 { x: self.x + o.x, y: self.y + o.y }
    }

    pub open spec fn sub(self, o: V2) -> V2 {
        V2 { x: self.x - o.x, y: self.y - o.y }
    }

    pub open spec fn neg(self) -> V2 {
        V2 { x: -self.x, y: -self.y }
    }

    pub open spec fn dot(self, o: V2) -> int {
        self.x * o.x + self.y * o.y
    }

    pub open spec fn mag2(self) -> int {
        self.dot(self)
    }

    /// Both coordinates scaled down by `c`, rounding toward zero.
    pub open spec fn div_all(self, c: int) -> V2 {
        V2 { x: div_tz(self.x, c), y: div_tz(self.y, c) }
    }

    /// Both coordinates within `b` in magnitude.
    pub open spec fn bounded(self, b: int) -> bool {
        &&& -b <= self.x <= b
        &&& -b <= self.y <= b
    }

    /// Both coordinates representable as `i64`.
    pub open spec fn fits(self) -> bool {
        self.bounded(0x7fff_ffff_ffff_ffff)
    }
}

/// The squared magnitude of a vector with coordinates within `b` is at most
/// `2 * b * b`, and it is nonnegative.
pub proof fn lemma_mag2_bound(v: V2, b: int) by (nonlinear_arith)
    requires
        v.bounded(b),
        b >= 0,
    ensures
        0 <= v.mag2() <= 2 * b * b,
{
}

impl Vec2 {
    pub fn new(x: i64, y: i64) -> (r: Vec2)
        ensures
            r@ == (V2 { x: x as int, y: y as int }),
    {
        Vec2 { x, y }
    }

    pub fn add(self, o: Vec2) -> (r: Vec2)
        requires
            self@.add(o@).fits(),
        ensures
            r@ == self@.add(o@),
    {
        Vec2 { x: self.x + o.x, y: self.y + o.y }
    }

    pub fn sub(self, o: Vec2) -> (r: Vec2)
        requires
            self@.sub(o@).fits(),
        ensures
            r@ == self@.sub(o@),
    {
        Vec2 { x: self.x - o.x, y: self.y - o.y }
    }

    pub fn dot(self, o: Vec2) -> (r: i64)
        requires
            self@.bounded(0x4000_0000),
            o@.bounded(0x4000_0000),
        ensures
            r as int == self@.dot(o@),
    {
        proof {
            assert(-0x1000_0000_0000_0000 <= (self.x as int) * (o.x as int) <= 0x1000_0000_0000_0000
                && -0x1000_0000_0000_0000 <= (self.y as int) * (o.y as int) <= 0x1000_0000_0000_0000)
                by (nonlinear_arith)
                requires
                    -0x4000_0000 <= self.x <= 0x4000_0000,
                    -0x4000_0000 <= self.y <= 0x4000_0000,
                    -0x4000_0000 <= o.x <= 0x4000_0000,
                    -0x4000_0000 <= o.y <= 0x4000_0000,
            ;
        }
        self.x * o.x + self.y * o.y
    }

    pub fn mag2(self) -> (r: i64)
        requires
            self@.bounded(0x4000_0000),
        ensures
            r as int == self@.mag2(),
            r >= 0,
    {
        let r = self.dot(self);
        proof {
            lemma_mag2_bound(self@, 0x4000_0000);
        }
        r
    }
}

} // verus!
