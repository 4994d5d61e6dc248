//! Segments between two integer points.
use vstd::prelude::*;
use crate::point::{isqrt, Point};

verus! {

/// An ordered pair of endpoints; clipping truncates from `p0` and `p1`
/// towards each other.
#[derive(Clone, Copy, Debug, PartialEq, Eq, Structural)]
pub struct Segment {
    pub p0: Point,
    pub p1: Point,
}

impl Segment {
    pub fn new(p0: Point, p1: Point) -> (s: Segment)
        ensures
            s.p0 == p0,
            s.p1 == p1,
    {
        Segment { p0, p1 }
    }

    /// Length, the norm of `p1 - p0`, rounded down to an integer.
    pub fn length(&self) -> (r: u64)
        ensures
            r * r <= self.length_squared_spec() < (r + 1) * (r + 1),
    {
        isqrt(self.length_squared())
    }

    pub open spec fn length_squared_spec(&self) -> int {
        (self.p1.x - self.p0.x) * (self.p1.x - self.p0.x) + (self.p1.y - self.p0.y) * (self.p1.y
            - self.p0.y)
    }

    /// Squared length, the squared norm of `p1 - p0`.
    pub fn length_squared(&self) -> (r: u128)
        ensures
            r == self.length_squared_spec(),
    {
        let dx = self.p1.x as i128 - self.p0.x as i128;
        let dy = self.p1.y as i128 - self.p0.y as i128;
        assert(0 <= dx * dx <= 0x1_0000_0000_0000_0000int) by (nonlinear_arith)
            requires
                -0xffff_ffff <= dx <= 0xffff_ffff,
        ;
        assert(0 <= dy * dy <= 0x1_0000_0000_0000_0000int) by (nonlinear_arith)
            requires
                -0xffff_ffff <= dy <= 0xffff_ffff,
        ;
        (dx * dx + dy * dy) as u128
    }
}

} // verus!
