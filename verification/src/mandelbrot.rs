//! The escape-time field: each pixel maps to a point of the plane,
//! which is iterated under z -> z^2 + c until its squared modulus
//! leaves 4 or the iteration cap is reached; the exit count picks the
//! colour.

use vstd::prelude::*;
use crate::buffer::{PixelBuffer, MAX_DIM};
use crate::fixed::{ONE, iabs, tdiv, lemma_tdiv_exact, lemma_tdiv_mag, fp_mul};
use crate::vector::Vector2;

verus! {

/// The escape iteration from state (x, y) at count `it`: it stops at
/// the cap or as soon as the squared modulus exceeds 4.
pub open spec fn escape_from(x: int, y: int, cx: int, cy: int, it: int, cap: int) -> int
    decreases cap - it,
{
    if it >= cap || x * x + y * y > 4 * ONE * ONE {
        it
    } else {
        escape_from(
            tdiv(x * x - y * y, ONE as int) + cx,
            tdiv(2 * x * y, ONE as int) + cy,
            cx,
            cy,
            it + 1,
            cap,
        )
    }
}

/// The escape count of the plane point (cx, cy).
pub open spec fn escape_count(cx: int, cy: int, cap: int) -> int {
    escape_from(0, 0, cx, cy, 0, cap)
}

/// Iterate one plane point to its escape count.
pub fn escape_time(cx: i64, cy: i64, cap: u32) -> (r: u32)
    requires
        iabs(cx as int) <= 16 * ONE,
        iabs(cy as int) <= 16 * ONE,
    ensures
        r == escape_count(cx as int, cy as int, cap as int),
        r <= cap,
{
    let mut x: i64 = 0;
    let mut y: i64 = 0;
    let mut it: u32 = 0;
    loop
        invariant
            iabs(cx as int) <= 16 * ONE,
            iabs(cy as int) <= 16 * ONE,
            iabs(x as int) <= 32 * ONE,
            iabs(y as int) <= 32 * ONE,
            it <= cap,
            escape_count(cx as int, cy as int, cap as int) == escape_from(
                x as int,
                y as int,
                cx as int,
                cy as int,
                it as int,
                cap as int,
            ),
        ensures
            it <= cap,
            escape_count(cx as int, cy as int, cap as int) == it,
        decreases cap - it,
    {
        proof {
            crate::fixed::lemma_mul_bound(x as int, x as int, 32 * ONE as int, 32 * ONE as int);
            crate::fixed::lemma_mul_bound(y as int, y as int, 32 * ONE as int, 32 * ONE as int);
            crate::fixed::lemma_mul_bound(x as int, y as int, 32 * ONE as int, 32 * ONE as int);
            assert(x * x >= 0 && y * y >= 0) by (nonlinear_arith);
            assert(-2097152 <= (x as i128) <= 2097152 && -2097152 <= (y as i128) <= 2097152);
            assert((x as i128) * (x as i128) < 0x40000000000000i128 && (x as i128) * (x as i128)
                >= 0 && (y as i128) * (y as i128) < 0x40000000000000i128 && (y as i128) * (
            y as i128) >= 0) by (nonlinear_arith)
                requires
                    -2097152 <= (x as i128) <= 2097152,
                    -2097152 <= (y as i128) <= 2097152,
            ;
        }
        let norm_sq: i128 = (x as i128) * (x as i128) + (y as i128) * (y as i128);
        if !(norm_sq <= 4 * (ONE as i128) * (ONE as i128) && it < cap) {
            break;
        }
        proof {
            assert(-(x * x + y * y) <= 2 * x * y <= x * x + y * y) by (nonlinear_arith);
            lemma_tdiv_mag(x * x - y * y, ONE as int);
            lemma_tdiv_mag(2 * x * y, ONE as int);
        }
        let xt: i64 = (x * x - y * y) / ONE + cx;
        y = (2 * x * y) / ONE + cy;
        x = xt;
        it = it + 1;
    }
    it
}

/// At the origin of the set the iterate stays at zero, so the count
/// always runs to the cap (and, as for every point, never past it).
pub proof fn lemma_origin_never_escapes(cap: int)
    requires
        cap >= 1,
    ensures
        escape_count(0, 0, cap) == cap,
{
    lemma_origin_from(0, cap);
}

proof fn lemma_origin_from(it: int, cap: int)
    requires
        0 <= it <= cap,
    ensures
        escape_from(0, 0, 0, 0, it, cap) == cap,
    decreases cap - it,
{
    assert(0 * 0 == 0) by (nonlinear_arith);
    assert(4 * ONE * ONE >= 0) by (nonlinear_arith);
    if it < cap {
        assert(tdiv(0, ONE as int) == 0) by {
            lemma_tdiv_exact(0, ONE as int);
            assert(0 * ONE == 0) by (nonlinear_arith);
        }
        assert(2 * (0 * 0) == 0) by (nonlinear_arith);
        lemma_origin_from(it + 1, cap);
    }
}

/// The colour of an exit count: the count shifted into the colour's
/// higher bits.
pub fn get_colour(iterations: u32) -> (c: u32)
    requires
        iterations <= 0x3FFFFF,
    ensures
        c == iterations * 1024,
{
    proof {
        assert(iterations << 10u32 == iterations * 1024) by (bit_vector)
            requires iterations <= 0x3FFFFF
        ;
        assert(crate::colours::BLACK + iterations == iterations);
    }
    (crate::colours::BLACK + iterations) << 10u32
}

/// The plane coordinate that a pixel index maps to along one axis:
/// the pixel's fraction of the span, centred, scaled and translated.
pub open spec fn plane_coord(p: int, extent: int, scale: int, origin: int) -> int {
    tdiv((tdiv(p * ONE, extent) - 32768) * scale, ONE as int) + origin
}

/// The colour a pixel of the field shows.
pub open spec fn field_colour(m: Mandelbrot, w: int, h: int, px: int, py: int) -> u32 {
    let sx = tdiv(m.basis.x * m.zoom, ONE as int);
    let sy = tdiv(m.basis.y * m.zoom, ONE as int);
    let cx = plane_coord(px, w, sx, m.origin.x as int);
    let cy = plane_coord(py, h, sy, m.origin.y as int);
    (escape_count(cx, cy, m.cap as int) * 1024) as u32
}

/// The escape-time fractal: pan centre, scale basis, current zoom and
/// iteration cap.
pub struct Mandelbrot {
    pub origin: Vector2,
    pub basis: Vector2,
    pub zoom: i64,
    pub cap: u32,
}

impl Mandelbrot {
    /// All parameters small enough that every mapped coordinate stays
    /// within the iteration's working range.
    pub open spec fn wf(&self) -> bool {
        &&& iabs(self.origin.x as int) <= 4 * ONE
        &&& iabs(self.origin.y as int) <= 4 * ONE
        &&& iabs(self.basis.x as int) <= 4 * ONE
        &&& iabs(self.basis.y as int) <= 4 * ONE
        &&& 0 <= self.zoom <= 4 * ONE
        &&& self.cap <= 0x3FFFFF
    }

    pub fn new(origin: Vector2, basis: Vector2, zoom: i64, cap: u32) -> (r: Mandelbrot)
        requires
            iabs(origin.x as int) <= 4 * ONE,
            iabs(origin.y as int) <= 4 * ONE,
            iabs(basis.x as int) <= 4 * ONE,
            iabs(basis.y as int) <= 4 * ONE,
            0 <= zoom <= 4 * ONE,
            cap <= 0x3FFFFF,
        ensures
            r == (Mandelbrot { origin, basis, zoom, cap }),
            r.wf(),
    {
        Mandelbrot { origin, basis, zoom, cap }
    }

    /// Shrink the zoom by a fixed-point factor below one; the next
    /// frame then covers a smaller span of the plane.
    pub fn zoom_step(&mut self, factor: i64)
        requires
            old(self).wf(),
            0 <= factor <= ONE,
        ensures
            final(self).wf(),
            final(self).zoom == tdiv(old(self).zoom * factor, ONE as int),
            final(self).origin == old(self).origin,
            final(self).basis == old(self).basis,
            final(self).cap == old(self).cap,
    {
        proof {
            crate::fixed::lemma_mul_bound(self.zoom as int, factor as int, 4 * ONE as int, ONE as int);
            assert(self.zoom * factor >= 0) by (nonlinear_arith)
                requires self.zoom >= 0, factor >= 0
            ;
            lemma_tdiv_mag(self.zoom * factor, ONE as int);
        }
        self.zoom = fp_mul(self.zoom, factor);
    }

    /// Compute the whole field from scratch: every pixel of the buffer
    /// receives the colour of its escape count.
    pub fn draw(&self, buf: &mut PixelBuffer)
        requires
            old(buf).wf(),
            self.wf(),
        ensures
            final(buf).wf(),
            final(buf).spec_width() == old(buf).spec_width(),
            final(buf).spec_height() == old(buf).spec_height(),
            forall|px: int, py: int|
                0 <= px < old(buf).spec_width() && 0 <= py < old(buf).spec_height()
                    ==> final(buf)@[py * old(buf).spec_width() + px] == field_colour(
                    *self,
                    old(buf).spec_width(),
                    old(buf).spec_height(),
                    px,
                    py,
                ),
    {
        let w = buf.width();
        let h = buf.height();
        proof {
            buf.lemma_wf_len();
            crate::fixed::lemma_mul_bound(self.basis.x as int, self.zoom as int, 4 * ONE as int, 4 * ONE as int);
            crate::fixed::lemma_mul_bound(self.basis.y as int, self.zoom as int, 4 * ONE as int, 4 * ONE as int);
            lemma_tdiv_mag(self.basis.x * self.zoom, ONE as int);
            lemma_tdiv_mag(self.basis.y * self.zoom, ONE as int);
        }
        let sx: i64 = fp_mul(self.basis.x, self.zoom);
        let sy: i64 = fp_mul(self.basis.y, self.zoom);
        let mut py: usize = 0;
        while py < h
            invariant
                buf.wf(),
                buf.spec_width() == w,
                buf.spec_height() == h,
                w == old(buf).spec_width(),
                h == old(buf).spec_height(),
                w <= MAX_DIM,
                h <= MAX_DIM,
                self.wf(),
                py <= h,
                sx == tdiv(self.basis.x * self.zoom, ONE as int),
                sy == tdiv(self.basis.y * self.zoom, ONE as int),
                iabs(sx as int) <= 16 * ONE,
                iabs(sy as int) <= 16 * ONE,
                forall|qx: int, qy: int|
                    0 <= qx < w && 0 <= qy < py ==> buf@[qy * w as int + qx] == field_colour(
                        *self,
                        w as int,
                        h as int,
                        qx,
                        qy,
                    ),
            decreases h - py,
        {
            let cy = plane_of(py as i64, h as i64, sy, self.origin.y);
            let mut px: usize = 0;
            while px < w
                invariant
                    buf.wf(),
                    buf.spec_width() == w,
                    buf.spec_height() == h,
                    w == old(buf).spec_width(),
                    h == old(buf).spec_height(),
                    w <= MAX_DIM,
                    h <= MAX_DIM,
                    self.wf(),
                    py < h,
                    px <= w,
                    sx == tdiv(self.basis.x * self.zoom, ONE as int),
                    sy == tdiv(self.basis.y * self.zoom, ONE as int),
                    iabs(sx as int) <= 16 * ONE,
                    iabs(sy as int) <= 16 * ONE,
                    cy as int == plane_coord(py as int, h as int, sy as int, self.origin.y as int),
                    iabs(cy as int) <= 16 * ONE,
                    forall|qx: int, qy: int|
                        0 <= qx < w && 0 <= qy < py ==> buf@[qy * w as int + qx] == field_colour(
                            *self,
                            w as int,
                            h as int,
                            qx,
                            qy,
                        ),
                    forall|qx: int|
                        0 <= qx < px ==> buf@[py as int * w as int + qx] == field_colour(
                            *self,
                            w as int,
                            h as int,
                            qx,
                            py as int,
                        ),
                decreases w - px,
            {
                let cx = plane_of(px as i64, w as i64, sx, self.origin.x);
                let count = escape_time(cx, cy, self.cap);
                let colour = get_colour(count);
                proof {
                    buf.lemma_wf_len();
                }
                let ghost pre = buf@;
                buf.set_pixel(px as i64, py as i64, colour);
                proof {
                    buf.lemma_wf_len();
                    assert(0 <= py * w + px < w * h) by (nonlinear_arith)
                        requires px < w, py < h
                    ;
                    assert(buf@ == pre.update(py as int * w as int + px as int, colour));
                    assert forall|qx: int, qy: int|
                        0 <= qx < w && 0 <= qy < py implies buf@[qy * w as int + qx]
                        == field_colour(*self, w as int, h as int, qx, qy) by {
                        lemma_rowmajor_distinct(qx, qy, px as int, py as int, w as int);
                        assert(0 <= qy * w + qx < w * h) by (nonlinear_arith)
                            requires 0 <= qx < w, 0 <= qy < h
                        ;
                        assert(buf@[qy * w as int + qx] == pre[qy * w as int + qx]);
                    }
                    assert forall|qx: int| 0 <= qx < px + 1 implies buf@[py as int * w as int + qx]
                        == field_colour(*self, w as int, h as int, qx, py as int) by {
                        if qx < px {
                            lemma_rowmajor_distinct(qx, py as int, px as int, py as int, w as int);
                            assert(0 <= py * w + qx < w * h) by (nonlinear_arith)
                                requires 0 <= qx, qx < w, py < h
                            ;
                            assert(buf@[py as int * w as int + qx] == pre[py as int * w as int
                                + qx]);
                        }
                    }
                }
                px = px + 1;
            }
            py = py + 1;
        }
    }
}

/// Distinct in-row coordinates give distinct row-major indices.
proof fn lemma_rowmajor_distinct(x1: int, y1: int, x2: int, y2: int, w: int)
    requires
        0 <= x1 < w,
        0 <= x2 < w,
        0 <= y1,
        0 <= y2,
        (x1, y1) != (x2, y2),
    ensures
        y1 * w + x1 != y2 * w + x2,
{
    if y1 == y2 {
    } else {
        assert(y1 * w + x1 != y2 * w + x2) by (nonlinear_arith)
            requires
                0 <= x1 < w,
                0 <= x2 < w,
                y1 != y2,
                0 <= y1,
                0 <= y2,
        ;
    }
}

/// The pixel-to-plane mapping along one axis.
fn plane_of(p: i64, extent: i64, scale: i64, origin: i64) -> (c: i64)
    requires
        0 <= p < extent,
        extent <= MAX_DIM,
        iabs(scale as int) <= 16 * ONE,
        iabs(origin as int) <= 4 * ONE,
    ensures
        c as int == plane_coord(p as int, extent as int, scale as int, origin as int),
        iabs(c as int) <= 16 * ONE,
{
    proof {
        crate::fixed::lemma_mul_bound(p as int, ONE as int, MAX_DIM as int, ONE as int);
        lemma_tdiv_mag(p * ONE, extent as int);
        vstd::arithmetic::div_mod::lemma_div_is_ordered(p * ONE, extent * ONE, extent as int);
        assert(extent * ONE == ONE * extent) by (nonlinear_arith);
        lemma_tdiv_exact(ONE as int, extent as int);
        assert(p * ONE >= 0) by (nonlinear_arith)
            requires p >= 0, ONE > 0
        ;
        assert(p * ONE <= extent * ONE) by (nonlinear_arith)
            requires p <= extent, ONE > 0
        ;
    }
    let a: i64 = (p * ONE) / extent;
    proof {
        assert(0 <= a as int <= ONE);
        crate::fixed::lemma_mul_bound((a - 32768) as int, scale as int, 32768, 16 * ONE as int);
        lemma_tdiv_mag((a - 32768) * scale, ONE as int);
    }
    let b: i64 = ((a - 32768) * scale) / ONE;
    b + origin
}

} // verus!
