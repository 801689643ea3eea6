//! 2D vectors in fixed-point coordinates.
//!
//! A `Vector2` is an ordered pair of scaled integers (see [`crate::fixed`]);
//! two vectors with equal coordinates are interchangeable.

use vstd::prelude::*;
use crate::fixed::{ONE, iabs, tdiv};

verus! {

/// Geometry is kept within this magnitude (about 16 million pixels from
/// the origin), which leaves room for every intermediate product below.
pub const COORD_LIMIT: i64 = 0x10000000000;

#[derive(Clone, Copy, PartialEq, Eq, Structural, Debug)]
pub struct Vector2 {
    pub x: i64,
    pub y: i64,
}

/// Whether both coordinates stay within the working range.
pub open spec fn vec_in_range(v: Vector2) -> bool {
    iabs(v.x as int) <= COORD_LIMIT && iabs(v.y as int) <= COORD_LIMIT
}

impl Vector2 {
    pub fn new(x: i64, y: i64) -> (v: Vector2)
        ensures
            v.x == x,
            v.y == y,
    {
        Vector2 { x, y }
    }

    /// A vector on an exact pixel coordinate.
    pub fn from_pixel(px: i64, py: i64) -> (v: Vector2)
        requires
            iabs(px as int) * ONE <= COORD_LIMIT,
            iabs(py as int) * ONE <= COORD_LIMIT,
        ensures
            v.x == px * ONE,
            v.y == py * ONE,
            vec_in_range(v),
    {
        proof {
            crate::fixed::lemma_mul_pos_mag(px as int, ONE as int);
            crate::fixed::lemma_mul_pos_mag(py as int, ONE as int);
        }
        Vector2 { x: px * ONE, y: py * ONE }
    }

    /// The pixel this vector lands on: both coordinates truncated toward zero.
    pub fn to_pixel(&self) -> (p: (i64, i64))
        ensures
            p.0 == tdiv(self.x as int, ONE as int),
            p.1 == tdiv(self.y as int, ONE as int),
    {
        (self.x / ONE, self.y / ONE)
    }

    pub fn add(&self, o: &Vector2) -> (v: Vector2)
        requires
            i64::MIN <= self.x + o.x <= i64::MAX,
            i64::MIN <= self.y + o.y <= i64::MAX,
        ensures
            v.x == self.x + o.x,
            v.y == self.y + o.y,
    {
        Vector2 { x: self.x + o.x, y: self.y + o.y }
    }

    pub fn sub(&self, o: &Vector2) -> (v: Vector2)
        requires
            i64::MIN <= self.x - o.x <= i64::MAX,
            i64::MIN <= self.y - o.y <= i64::MAX,
        ensures
            v.x == self.x - o.x,
            v.y == self.y - o.y,
    {
        Vector2 { x: self.x - o.x, y: self.y - o.y }
    }

    pub fn neg(&self) -> (v: Vector2)
        requires
            self.x > i64::MIN,
            self.y > i64::MIN,
        ensures
            v.x == -self.x,
            v.y == -self.y,
    {
        Vector2 { x: -self.x, y: -self.y }
    }

    /// Scale by a fixed-point factor.
    pub fn scale(&self, k: i64) -> (v: Vector2)
        requires
            i64::MIN <= tdiv(self.x * k, ONE as int) <= i64::MAX,
            i64::MIN <= tdiv(self.y * k, ONE as int) <= i64::MAX,
        ensures
            v.x == tdiv(self.x * k, ONE as int),
            v.y == tdiv(self.y * k, ONE as int),
    {
        Vector2 { x: crate::fixed::fp_mul(self.x, k), y: crate::fixed::fp_mul(self.y, k) }
    }

    /// The Euclidean norm, rounded down to the nearest fixed-point unit
    /// step: the floor square root of the squared coordinate sum.
    pub fn norm(&self) -> (r: i64)
        requires
            iabs(self.x as int) <= 2 * COORD_LIMIT,
            iabs(self.y as int) <= 2 * COORD_LIMIT,
        ensures
            r as int == crate::fixed::sqrt_floor(self.x * self.x + self.y * self.y),
            r >= 0,
    {
        proof {
            crate::fixed::lemma_mul_bound(
                self.x as int,
                self.x as int,
                2 * COORD_LIMIT as int,
                2 * COORD_LIMIT as int,
            );
            crate::fixed::lemma_mul_bound(
                self.y as int,
                self.y as int,
                2 * COORD_LIMIT as int,
                2 * COORD_LIMIT as int,
            );
            assert(self.x * self.x >= 0 && self.y * self.y >= 0) by (nonlinear_arith);
            assert(-(0x20000000000i128) <= (self.x as i128) <= 0x20000000000i128
                && -(0x20000000000i128) <= (self.y as i128) <= 0x20000000000i128);
            assert(0 <= (self.x as i128) * (self.x as i128) <= 0x400000000000000000000i128
                && 0 <= (self.y as i128) * (self.y as i128) <= 0x400000000000000000000i128)
                by (nonlinear_arith)
                requires
                    -(0x20000000000i128) <= (self.x as i128) <= 0x20000000000i128,
                    -(0x20000000000i128) <= (self.y as i128) <= 0x20000000000i128,
            ;
        }
        let sq: u128 = ((self.x as i128) * (self.x as i128) + (self.y as i128) * (self.y as i128))
            as u128;
        let r = crate::fixed::isqrt(sq);
        proof {
            crate::fixed::lemma_sqrt_floor_bounds(sq as int);
            assert((0x200000000000i64 as int) * (0x200000000000i64 as int) > sq as int);
            crate::fixed::lemma_sqrt_floor_unique(sq as int, crate::fixed::sqrt_floor(sq as int));
            if crate::fixed::sqrt_floor(sq as int) >= 0x200000000000 {
                assert((crate::fixed::sqrt_floor(sq as int)) * (crate::fixed::sqrt_floor(
                    sq as int,
                )) >= (0x200000000000) * (0x200000000000)) by (nonlinear_arith)
                    requires crate::fixed::sqrt_floor(sq as int) >= 0x200000000000
                ;
            }
        }
        r as i64
    }

    /// Divide both coordinates by a positive integer, truncating toward zero.
    pub fn div_by(&self, d: i64) -> (v: Vector2)
        requires
            d > 0,
        ensures
            v.x == tdiv(self.x as int, d as int),
            v.y == tdiv(self.y as int, d as int),
            iabs(v.x as int) <= iabs(self.x as int),
            iabs(v.y as int) <= iabs(self.y as int),
    {
        proof {
            crate::fixed::lemma_tdiv_mag(self.x as int, d as int);
            crate::fixed::lemma_tdiv_mag(self.y as int, d as int);
        }
        Vector2 { x: self.x / d, y: self.y / d }
    }
}

} // verus!
