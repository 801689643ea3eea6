//! 2x2 linear maps in fixed-point entries, and the norm-bounded
//! rotation-and-scale maps used for heading transforms.

use vstd::prelude::*;
use crate::fixed::{ONE, iabs, tdiv, tdivs, lemma_tdiv_exact, lemma_tdiv_mag};
use crate::vector::{Vector2, COORD_LIMIT};

verus! {

/// Matrix entries are kept within this magnitude.
pub const ENTRY_LIMIT: i64 = 0x7FFFFFFF;

/// A 2x2 real linear map (c11, c12, c21, c22), entries in fixed point.
#[derive(Clone, Copy, PartialEq, Eq, Structural, Debug)]
pub struct Matrix2 {
    pub c11: i64,
    pub c12: i64,
    pub c21: i64,
    pub c22: i64,
}

/// Whether every entry stays within the working range.
pub open spec fn mat_in_range(m: Matrix2) -> bool {
    &&& iabs(m.c11 as int) <= ENTRY_LIMIT
    &&& iabs(m.c12 as int) <= ENTRY_LIMIT
    &&& iabs(m.c21 as int) <= ENTRY_LIMIT
    &&& iabs(m.c22 as int) <= ENTRY_LIMIT
}

impl Matrix2 {
    /// The unscaled determinant: fixed-point value scaled by `ONE * ONE`.
    pub open spec fn spec_det_raw(&self) -> int {
        self.c11 * self.c22 - self.c12 * self.c21
    }

    pub fn identity() -> (m: Matrix2)
        ensures
            m.c11 == ONE,
            m.c12 == 0,
            m.c21 == 0,
            m.c22 == ONE,
            mat_in_range(m),
    {
        Matrix2 { c11: ONE, c12: 0, c21: 0, c22: ONE }
    }

    /// The rotation matrix [[cos, -sin], [sin, cos]] built from a
    /// fixed-point cosine / sine pair (the trigonometric evaluation is
    /// the caller's; positive angles turn counterclockwise in y-down
    /// pixel space, which reads clockwise on screen).
    pub fn rotation(cos: i64, sin: i64) -> (m: Matrix2)
        requires
            iabs(cos as int) <= ONE,
            iabs(sin as int) <= ONE,
        ensures
            m.c11 == cos,
            m.c12 == -sin,
            m.c21 == sin,
            m.c22 == cos,
            mat_in_range(m),
    {
        Matrix2 { c11: cos, c12: -sin, c21: sin, c22: cos }
    }

    /// The determinant, as a fixed-point value.
    pub fn determinate(&self) -> (d: i64)
        requires
            mat_in_range(*self),
        ensures
            d == tdiv(self.spec_det_raw(), ONE as int),
    {
        proof {
            lemma_entry_products_bounded(*self);
            lemma_tdiv_mag(self.spec_det_raw(), ONE as int);
        }
        let p: i128 = (self.c11 as i128) * (self.c22 as i128) - (self.c12 as i128) * (self.c21 as i128);
        let q: i128 = p / (ONE as i128);
        q as i64
    }

    /// The inverse map, when one exists.  The result is disengaged
    /// exactly when the determinant is zero.
    pub fn inverse(&self) -> (r: Option<Matrix2>)
        requires
            mat_in_range(*self),
        ensures
            r is None <==> self.spec_det_raw() == 0,
            r is Some ==> {
                let inv = r->Some_0;
                let d = self.spec_det_raw();
                &&& inv.c11 == tdivs(self.c22 * 0x100000000, d)
                &&& inv.c12 == tdivs(-self.c12 * 0x100000000, d)
                &&& inv.c21 == tdivs(-self.c21 * 0x100000000, d)
                &&& inv.c22 == tdivs(self.c11 * 0x100000000, d)
            },
    {
        proof {
            lemma_entry_products_bounded(*self);
        }
        let det: i128 = (self.c11 as i128) * (self.c22 as i128) - (self.c12 as i128) * (self.c21 as i128);
        if det == 0 {
            return None;
        }
        let sq: i128 = 0x100000000;
        proof {
            lemma_inv_entry_fits(self.c22 as int, det as int);
            lemma_inv_entry_fits(-(self.c12 as int), det as int);
            lemma_inv_entry_fits(-(self.c21 as int), det as int);
            lemma_inv_entry_fits(self.c11 as int, det as int);
        }
        Some(Matrix2 {
            c11: crate::fixed::tdivs_i128(self.c22 as i128 * sq, det) as i64,
            c12: crate::fixed::tdivs_i128(-(self.c12 as i128) * sq, det) as i64,
            c21: crate::fixed::tdivs_i128(-(self.c21 as i128) * sq, det) as i64,
            c22: crate::fixed::tdivs_i128(self.c11 as i128 * sq, det) as i64,
        })
    }

    /// Matrix x matrix composition (this map applied after `o`).
    pub fn mul_mat(&self, o: &Matrix2) -> (r: Matrix2)
        requires
            mat_in_range(*self),
            mat_in_range(*o),
        ensures
            r.c11 == tdiv(self.c11 * o.c11 + self.c12 * o.c21, ONE as int),
            r.c12 == tdiv(self.c11 * o.c12 + self.c12 * o.c22, ONE as int),
            r.c21 == tdiv(self.c21 * o.c11 + self.c22 * o.c21, ONE as int),
            r.c22 == tdiv(self.c21 * o.c12 + self.c22 * o.c22, ONE as int),
    {
        proof {
            lemma_pair_product_bounded(self.c11 as int, self.c12 as int, o.c11 as int, o.c21 as int);
            lemma_pair_product_bounded(self.c11 as int, self.c12 as int, o.c12 as int, o.c22 as int);
            lemma_pair_product_bounded(self.c21 as int, self.c22 as int, o.c11 as int, o.c21 as int);
            lemma_pair_product_bounded(self.c21 as int, self.c22 as int, o.c12 as int, o.c22 as int);
        }
        Matrix2 {
            c11: mat_dot(self.c11, self.c12, o.c11, o.c21),
            c12: mat_dot(self.c11, self.c12, o.c12, o.c22),
            c21: mat_dot(self.c21, self.c22, o.c11, o.c21),
            c22: mat_dot(self.c21, self.c22, o.c12, o.c22),
        }
    }

    /// Matrix x vector application.
    pub fn mul_vec(&self, v: &Vector2) -> (r: Vector2)
        requires
            mat_in_range(*self),
            vec_in_range_m(*v),
        ensures
            r.x == tdiv(self.c11 * v.x + self.c12 * v.y, ONE as int),
            r.y == tdiv(self.c21 * v.x + self.c22 * v.y, ONE as int),
    {
        proof {
            lemma_vec_product_bounded(self.c11 as int, self.c12 as int, v.x as int, v.y as int);
            lemma_vec_product_bounded(self.c21 as int, self.c22 as int, v.x as int, v.y as int);
        }
        Vector2 {
            x: mat_dot(self.c11, self.c12, v.x, v.y),
            y: mat_dot(self.c21, self.c22, v.x, v.y),
        }
    }

    /// Scale every entry by a fixed-point factor.
    pub fn scale(&self, k: i64) -> (r: Matrix2)
        requires
            mat_in_range(*self),
            iabs(k as int) <= ENTRY_LIMIT,
        ensures
            r.c11 == tdiv(self.c11 * k, ONE as int),
            r.c12 == tdiv(self.c12 * k, ONE as int),
            r.c21 == tdiv(self.c21 * k, ONE as int),
            r.c22 == tdiv(self.c22 * k, ONE as int),
    {
        proof {
            lemma_scale_fits(self.c11 as int, k as int);
            lemma_scale_fits(self.c12 as int, k as int);
            lemma_scale_fits(self.c21 as int, k as int);
            lemma_scale_fits(self.c22 as int, k as int);
        }
        Matrix2 {
            c11: crate::fixed::fp_mul(self.c11, k),
            c12: crate::fixed::fp_mul(self.c12, k),
            c21: crate::fixed::fp_mul(self.c21, k),
            c22: crate::fixed::fp_mul(self.c22, k),
        }
    }
}

/// Mirror of `crate::vector::vec_in_range` (re-stated here so the
/// requires above read without a module hop).
pub open spec fn vec_in_range_m(v: Vector2) -> bool {
    crate::vector::vec_in_range(v)
}

/// One row-by-column fixed-point dot product.
fn mat_dot(a: i64, b: i64, p: i64, q: i64) -> (r: i64)
    requires
        iabs(a * p + b * q) <= 0x40000000000000000000,
    ensures
        r == tdiv(a * p + b * q, ONE as int),
{
    proof {
        assert(i128::MIN <= a * p <= i128::MAX && i128::MIN <= b * q <= i128::MAX)
            by (nonlinear_arith)
            requires
                i64::MIN <= a <= i64::MAX,
                i64::MIN <= b <= i64::MAX,
                i64::MIN <= p <= i64::MAX,
                i64::MIN <= q <= i64::MAX,
        ;
        lemma_tdiv_mag(a * p + b * q, ONE as int);
    }
    let s: i128 = (a as i128) * (p as i128) + (b as i128) * (q as i128);
    let r: i128 = s / (ONE as i128);
    r as i64
}

proof fn lemma_entry_products_bounded(m: Matrix2)
    requires
        mat_in_range(m),
    ensures
        iabs(m.c11 * m.c22) <= 0x3FFFFFFFFFFFFFFF,
        iabs(m.c12 * m.c21) <= 0x3FFFFFFFFFFFFFFF,
        iabs(m.spec_det_raw()) <= 0x7FFFFFFFFFFFFFFE,
{
    crate::fixed::lemma_mul_bound(m.c11 as int, m.c22 as int, ENTRY_LIMIT as int, ENTRY_LIMIT as int);
    crate::fixed::lemma_mul_bound(m.c12 as int, m.c21 as int, ENTRY_LIMIT as int, ENTRY_LIMIT as int);
}

proof fn lemma_inv_entry_fits(adj: int, det: int)
    requires
        iabs(adj) <= ENTRY_LIMIT,
        det != 0,
    ensures
        iabs(tdivs(adj * 0x100000000, det)) <= 0x7FFFFFFF00000000,
        i64::MIN <= tdivs(adj * 0x100000000, det) <= i64::MAX,
{
    crate::fixed::lemma_mul_bound(adj, 0x100000000, ENTRY_LIMIT as int, 0x100000000);
    let num = adj * 0x100000000;
    if det > 0 {
        lemma_tdiv_mag(num, det);
    } else {
        lemma_tdiv_mag(num, -det);
    }
}

proof fn lemma_pair_product_bounded(a: int, b: int, p: int, q: int)
    requires
        iabs(a) <= ENTRY_LIMIT,
        iabs(b) <= ENTRY_LIMIT,
        iabs(p) <= ENTRY_LIMIT,
        iabs(q) <= ENTRY_LIMIT,
    ensures
        iabs(a * p + b * q) <= 0x40000000000000000000,
{
    crate::fixed::lemma_mul_bound(a, p, ENTRY_LIMIT as int, ENTRY_LIMIT as int);
    crate::fixed::lemma_mul_bound(b, q, ENTRY_LIMIT as int, ENTRY_LIMIT as int);
}

proof fn lemma_vec_product_bounded(a: int, b: int, p: int, q: int)
    requires
        iabs(a) <= ENTRY_LIMIT,
        iabs(b) <= ENTRY_LIMIT,
        iabs(p) <= COORD_LIMIT,
        iabs(q) <= COORD_LIMIT,
    ensures
        iabs(a * p + b * q) <= 0x40000000000000000000,
{
    crate::fixed::lemma_mul_bound(a, p, ENTRY_LIMIT as int, COORD_LIMIT as int);
    crate::fixed::lemma_mul_bound(b, q, ENTRY_LIMIT as int, COORD_LIMIT as int);
}

proof fn lemma_scale_fits(e: int, k: int)
    requires
        iabs(e) <= ENTRY_LIMIT,
        iabs(k) <= ENTRY_LIMIT,
    ensures
        i64::MIN <= tdiv(e * k, ONE as int) <= i64::MAX,
{
    crate::fixed::lemma_mul_bound(e, k, ENTRY_LIMIT as int, ENTRY_LIMIT as int);
    lemma_tdiv_mag(e * k, ONE as int);
}

/// A rotation-and-scale map, stored as the pair (c, s) of the matrix
/// [[c, -s], [s, c]], with magnitude at most one: c^2 + s^2 <= ONE^2.
///
/// This family of "growth" maps (a rotation composed with a shrink)
/// stays within the magnitude bound under fixed-point composition, so a
/// chain of any length can be composed without the entries drifting out
/// of range.  Heading transforms and branch growth maps live here.
#[derive(Clone, Copy, PartialEq, Eq, Structural, Debug)]
pub struct Growth {
    pub c: i64,
    pub s: i64,
}

/// The magnitude invariant of a growth map.
pub open spec fn growth_wf(g: Growth) -> bool {
    g.c * g.c + g.s * g.s <= ONE * ONE
}

/// Entries of a growth map are bounded by `ONE` each.
pub proof fn lemma_growth_entry_bound(g: Growth)
    requires
        growth_wf(g),
    ensures
        iabs(g.c as int) <= ONE,
        iabs(g.s as int) <= ONE,
{
    let c = g.c as int;
    let s = g.s as int;
    assert(c * c >= 0 && s * s >= 0) by (nonlinear_arith);
    if iabs(c) > ONE {
        assert(false) by (nonlinear_arith)
            requires c > 65536 || c < -65536, c * c + s * s <= 65536 * 65536, s * s >= 0
        ;
    }
    if iabs(s) > ONE {
        assert(false) by (nonlinear_arith)
            requires s > 65536 || s < -65536, c * c + s * s <= 65536 * 65536, c * c >= 0
        ;
    }
}

impl Growth {
    /// Build a growth map from a fixed-point (cos, sin)-like pair,
    /// refusing any pair whose magnitude exceeds one.
    pub fn new(c: i64, s: i64) -> (r: Option<Growth>)
        requires
            iabs(c as int) <= ENTRY_LIMIT,
            iabs(s as int) <= ENTRY_LIMIT,
        ensures
            r is Some <==> c * c + s * s <= ONE * ONE,
            r is Some ==> r->Some_0 == (Growth { c, s }),
            r is Some ==> growth_wf(r->Some_0),
    {
        proof {
            crate::fixed::lemma_mul_bound(c as int, c as int, ENTRY_LIMIT as int, ENTRY_LIMIT as int);
            crate::fixed::lemma_mul_bound(s as int, s as int, ENTRY_LIMIT as int, ENTRY_LIMIT as int);
        }
        let cc: i128 = (c as i128) * (c as i128);
        let ss: i128 = (s as i128) * (s as i128);
        if cc + ss <= 0x100000000 {
            Some(Growth { c, s })
        } else {
            None
        }
    }

    /// The map that leaves every vector unchanged.
    pub fn identity() -> (r: Growth)
        ensures
            r.c == ONE,
            r.s == 0,
            growth_wf(r),
    {
        Growth { c: ONE, s: 0 }
    }

    /// The same turn taken in the opposite direction, with the same scale.
    pub fn reverse(&self) -> (r: Growth)
        requires
            growth_wf(*self),
        ensures
            r.c == self.c,
            r.s == -self.s,
            growth_wf(r),
    {
        proof {
            lemma_growth_entry_bound(*self);
            assert((-self.s) * (-self.s) == self.s * self.s) by (nonlinear_arith);
        }
        Growth { c: self.c, s: -self.s }
    }

    /// Fixed-point composition; the result is this map applied after `o`.
    pub fn compose(&self, o: &Growth) -> (r: Growth)
        requires
            growth_wf(*self),
            growth_wf(*o),
        ensures
            r.c == tdiv(self.c * o.c - self.s * o.s, ONE as int),
            r.s == tdiv(self.s * o.c + self.c * o.s, ONE as int),
            growth_wf(r),
    {
        proof {
            lemma_growth_entry_bound(*self);
            lemma_growth_entry_bound(*o);
            crate::fixed::lemma_mul_bound(self.c as int, o.c as int, ONE as int, ONE as int);
            crate::fixed::lemma_mul_bound(self.s as int, o.s as int, ONE as int, ONE as int);
            crate::fixed::lemma_mul_bound(self.s as int, o.c as int, ONE as int, ONE as int);
            crate::fixed::lemma_mul_bound(self.c as int, o.s as int, ONE as int, ONE as int);
            lemma_growth_compose_wf(self.c as int, self.s as int, o.c as int, o.s as int);
            lemma_tdiv_mag(self.c * o.c - self.s * o.s, ONE as int);
            lemma_tdiv_mag(self.s * o.c + self.c * o.s, ONE as int);
        }
        let a: i64 = self.c * o.c - self.s * o.s;
        let b: i64 = self.s * o.c + self.c * o.s;
        Growth { c: a / ONE, s: b / ONE }
    }

    /// Apply the map to a vector; the result never grows past the sum
    /// of the input's coordinate magnitudes.
    pub fn apply(&self, v: &Vector2) -> (r: Vector2)
        requires
            growth_wf(*self),
            vec_in_range_m(*v),
        ensures
            r.x == tdiv(self.c * v.x - self.s * v.y, ONE as int),
            r.y == tdiv(self.s * v.x + self.c * v.y, ONE as int),
            iabs(r.x as int) <= iabs(v.x as int) + iabs(v.y as int),
            iabs(r.y as int) <= iabs(v.x as int) + iabs(v.y as int),
    {
        proof {
            lemma_growth_entry_bound(*self);
            crate::fixed::lemma_mul_bound(self.c as int, v.x as int, ONE as int, COORD_LIMIT as int);
            crate::fixed::lemma_mul_bound(self.s as int, v.y as int, ONE as int, COORD_LIMIT as int);
            crate::fixed::lemma_mul_bound(self.s as int, v.x as int, ONE as int, COORD_LIMIT as int);
            crate::fixed::lemma_mul_bound(self.c as int, v.y as int, ONE as int, COORD_LIMIT as int);
            lemma_growth_apply_bound(self.c as int, self.s as int, v.x as int, v.y as int);
        }
        let ax: i128 = (self.c as i128) * (v.x as i128) - (self.s as i128) * (v.y as i128);
        let ay: i128 = (self.s as i128) * (v.x as i128) + (self.c as i128) * (v.y as i128);
        Vector2 { x: (ax / 65536) as i64, y: (ay / 65536) as i64 }
    }
}

/// Composition of two magnitude-bounded pairs is magnitude-bounded:
/// the Brahmagupta identity gives the product of the two squared
/// magnitudes, and truncation only shrinks entries.
#[verifier::rlimit(100)]
proof fn lemma_growth_compose_wf(c: int, s: int, oc: int, os: int)
    requires
        c * c + s * s <= ONE * ONE,
        oc * oc + os * os <= ONE * ONE,
    ensures
        tdiv(c * oc - s * os, ONE as int) * tdiv(c * oc - s * os, ONE as int)
            + tdiv(s * oc + c * os, ONE as int) * tdiv(s * oc + c * os, ONE as int)
            <= ONE * ONE,
{
    let n: int = ONE as int;
    let a = c * oc - s * os;
    let b = s * oc + c * os;
    let p = c * oc;
    let q = s * os;
    let u = s * oc;
    let t = c * os;
    assert((p - q) * (p - q) == p * p - 2 * (p * q) + q * q) by (nonlinear_arith);
    assert((u + t) * (u + t) == u * u + 2 * (u * t) + t * t) by (nonlinear_arith);
    assert(p * q == u * t) by (nonlinear_arith)
        requires p == c * oc, q == s * os, u == s * oc, t == c * os
    ;
    assert(p * p == (c * c) * (oc * oc)) by (nonlinear_arith)
        requires p == c * oc
    ;
    assert(q * q == (s * s) * (os * os)) by (nonlinear_arith)
        requires q == s * os
    ;
    assert(u * u == (s * s) * (oc * oc)) by (nonlinear_arith)
        requires u == s * oc
    ;
    assert(t * t == (c * c) * (os * os)) by (nonlinear_arith)
        requires t == c * os
    ;
    assert((c * c + s * s) * (oc * oc + os * os) == (c * c) * (oc * oc) + (c * c) * (os * os)
        + (s * s) * (oc * oc) + (s * s) * (os * os)) by (nonlinear_arith);
    assert(a * a + b * b == (c * c + s * s) * (oc * oc + os * os));
    assert(c * c >= 0 && s * s >= 0 && oc * oc >= 0 && os * os >= 0) by (nonlinear_arith);
    assert((c * c + s * s) * (oc * oc + os * os) <= (n * n) * (n * n)) by (nonlinear_arith)
        requires
            c * c + s * s <= n * n,
            oc * oc + os * os <= n * n,
            c * c + s * s >= 0,
            oc * oc + os * os >= 0,
    ;
    let e = tdiv(a, n);
    let f = tdiv(b, n);
    lemma_tdiv_mag(a, n);
    lemma_tdiv_mag(b, n);
    let me = iabs(e);
    let mf = iabs(f);
    let ma = iabs(a);
    let mb = iabs(b);
    assert(e * e * (n * n) <= a * a) by (nonlinear_arith)
        requires
            me * n <= ma,
            me >= 0,
            ma >= 0,
            n > 0,
            e == me || e == -me,
            a == ma || a == -ma,
    ;
    assert(f * f * (n * n) <= b * b) by (nonlinear_arith)
        requires
            mf * n <= mb,
            mf >= 0,
            mb >= 0,
            n > 0,
            f == mf || f == -mf,
            b == mb || b == -mb,
    ;
    assert(e * e + f * f <= n * n) by (nonlinear_arith)
        requires
            e * e * (n * n) <= a * a,
            f * f * (n * n) <= b * b,
            a * a + b * b <= (n * n) * (n * n),
            n > 0,
    ;
}

/// Applying a magnitude-bounded map moves no coordinate past the sum of
/// the input's coordinate magnitudes.
proof fn lemma_growth_apply_bound(c: int, s: int, vx: int, vy: int)
    requires
        iabs(c) <= ONE,
        iabs(s) <= ONE,
    ensures
        iabs(tdiv(c * vx - s * vy, ONE as int)) <= iabs(vx) + iabs(vy),
        iabs(tdiv(s * vx + c * vy, ONE as int)) <= iabs(vx) + iabs(vy),
{
    let n: int = ONE as int;
    let mx = iabs(vx);
    let my = iabs(vy);
    crate::fixed::lemma_mul_bound(c, vx, n, mx);
    crate::fixed::lemma_mul_bound(s, vy, n, my);
    crate::fixed::lemma_mul_bound(s, vx, n, mx);
    crate::fixed::lemma_mul_bound(c, vy, n, my);
    lemma_tdiv_mag(c * vx - s * vy, n);
    lemma_tdiv_mag(s * vx + c * vy, n);
    let ex = tdiv(c * vx - s * vy, n);
    let ey = tdiv(s * vx + c * vy, n);
    assert(iabs(ex) <= mx + my) by (nonlinear_arith)
        requires
            iabs(ex) * n <= iabs(c * vx - s * vy),
            iabs(c * vx - s * vy) <= n * mx + n * my,
            iabs(ex) >= 0,
            mx >= 0,
            my >= 0,
            n > 0,
    ;
    assert(iabs(ey) <= mx + my) by (nonlinear_arith)
        requires
            iabs(ey) * n <= iabs(s * vx + c * vy),
            iabs(s * vx + c * vy) <= n * mx + n * my,
            iabs(ey) >= 0,
            mx >= 0,
            my >= 0,
            n > 0,
    ;
}

/// A rotation matrix of exactly unit magnitude, composed with its
/// inverse, gives back the identity with no rounding loss: the inverse
/// of [[c, -s], [s, c]] is its transpose entry for entry, and the
/// product's entries are exactly those of the identity.  (Pairs whose
/// squared magnitude falls short of one, as most rounded cosine/sine
/// pairs do, are excluded: for them the round trip is only close.)
pub proof fn lemma_rotation_inverse_identity(c: int, s: int)
    requires
        c * c + s * s == ONE * ONE,
    ensures
        c * c - (-s) * s != 0,
        tdivs(c * 0x100000000, c * c - (-s) * s) == c,
        tdivs(-(-s) * 0x100000000, c * c - (-s) * s) == s,
        tdivs(-s * 0x100000000, c * c - (-s) * s) == -s,
        tdiv(c * c + (-s) * (-s), ONE as int) == ONE,
        tdiv(c * s + (-s) * c, ONE as int) == 0,
        tdiv(s * c + c * (-s), ONE as int) == 0,
        tdiv(s * s + c * c, ONE as int) == ONE,
{
    assert((-s) * s == -(s * s) && (-s) * (-s) == s * s && (-(-s)) == s) by (nonlinear_arith);
    assert(c * c - (-s) * s == ONE * ONE);
    assert(ONE * ONE == 0x100000000) by (nonlinear_arith);
    assert(c * 0x100000000 == c * 0x100000000int);
    lemma_tdiv_exact(c, 0x100000000);
    lemma_tdiv_exact(s, 0x100000000);
    lemma_tdiv_exact(-s, 0x100000000);
    assert(ONE * ONE == ONE * (ONE as int)) by (nonlinear_arith);
    lemma_tdiv_exact(ONE as int, ONE as int);
    assert(c * s + (-s) * c == 0) by (nonlinear_arith);
    assert(s * c + c * (-s) == 0) by (nonlinear_arith);
    assert(tdiv(0, ONE as int) == 0) by {
        lemma_tdiv_exact(0, ONE as int);
        assert(0 * ONE == 0) by (nonlinear_arith);
    }
    assert(s * s + c * c == ONE * ONE);
}

/// A turn of exactly unit magnitude, composed with the same turn taken
/// in reverse, is the identity map, and the identity map restores
/// every vector exactly.  (As above, pairs of magnitude below one are
/// excluded; a rounded pair such as (46340, 46340) loses a unit.)
pub proof fn lemma_unit_turn_reversed(c: int, s: int, vx: int, vy: int)
    requires
        c * c + s * s == ONE * ONE,
    ensures
        tdiv(c * c - s * -s, ONE as int) == ONE,
        tdiv(s * c + c * -s, ONE as int) == 0,
        tdiv(ONE * vx - 0 * vy, ONE as int) == vx,
        tdiv(0 * vx + ONE * vy, ONE as int) == vy,
{
    assert(s * -s == -(s * s)) by (nonlinear_arith);
    assert(c * c - s * -s == ONE * ONE);
    assert(ONE * ONE == ONE * (ONE as int)) by (nonlinear_arith);
    lemma_tdiv_exact(ONE as int, ONE as int);
    assert(s * c + c * -s == 0) by (nonlinear_arith);
    assert(tdiv(0, ONE as int) == 0) by {
        lemma_tdiv_exact(0, ONE as int);
        assert(0 * ONE == 0) by (nonlinear_arith);
    }
    assert(0 * vy == 0 && 0 * vx == 0) by (nonlinear_arith);
    assert(ONE * vx == vx * ONE && ONE * vy == vy * ONE) by (nonlinear_arith);
    lemma_tdiv_exact(vx, ONE as int);
    lemma_tdiv_exact(vy, ONE as int);
}

} // verus!
