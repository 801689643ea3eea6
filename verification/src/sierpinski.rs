//! The Sierpinski-family generator: each triangle is trisected into
//! the three corner triangles through its edge midpoints.

use vstd::prelude::*;
use crate::GeomError;
use crate::buffer::PixelBuffer;
use crate::colours;
use crate::fixed::{ONE, iabs, tdiv, lemma_tdiv_exact};
use crate::matrix::Matrix2;
use crate::raster::{paint_layers, draw_line};
use crate::vector::{Vector2, vec_in_range, COORD_LIMIT};

verus! {

/// A triangle, an ordered triple of vertices.
#[derive(Clone, Copy, PartialEq, Eq, Structural, Debug)]
pub struct Triangle {
    pub a: Vector2,
    pub b: Vector2,
    pub c: Vector2,
}

/// The model of a triangle: its vertices as integer pairs.
pub open spec fn tri_model(t: Triangle) -> ((int, int), (int, int), (int, int)) {
    (
        (t.a.x as int, t.a.y as int),
        (t.b.x as int, t.b.y as int),
        (t.c.x as int, t.c.y as int),
    )
}

pub open spec fn tri_in_range(t: ((int, int), (int, int), (int, int))) -> bool {
    &&& iabs(t.0.0) <= COORD_LIMIT && iabs(t.0.1) <= COORD_LIMIT
    &&& iabs(t.1.0) <= COORD_LIMIT && iabs(t.1.1) <= COORD_LIMIT
    &&& iabs(t.2.0) <= COORD_LIMIT && iabs(t.2.1) <= COORD_LIMIT
}

/// The midpoint between two vertices, truncated toward the first.
pub open spec fn tmid(p: (int, int), q: (int, int)) -> (int, int) {
    (p.0 + tdiv(q.0 - p.0, 2), p.1 + tdiv(q.1 - p.1, 2))
}

/// The three child triangles: each corner with its two adjacent
/// midpoints.
pub open spec fn tri_children(t: ((int, int), (int, int), (int, int))) -> Seq<
    ((int, int), (int, int), (int, int)),
> {
    let ab = tmid(t.0, t.1);
    let ac = tmid(t.0, t.2);
    let bc = tmid(t.1, t.2);
    seq![(t.0, ab, ac), (ab, t.1, bc), (ac, bc, t.2)]
}

/// One generation step over a whole triangle list.
pub open spec fn tri_step(ts: Seq<((int, int), (int, int), (int, int))>) -> Seq<
    ((int, int), (int, int), (int, int)),
>
    decreases ts.len(),
{
    if ts.len() == 0 {
        Seq::empty()
    } else {
        tri_children(ts[0]) + tri_step(ts.drop_first())
    }
}

proof fn lemma_tri_step_snoc(
    ts: Seq<((int, int), (int, int), (int, int))>,
    t: ((int, int), (int, int), (int, int)),
)
    ensures
        tri_step(ts.push(t)) == tri_step(ts) + tri_children(t),
    decreases ts.len(),
{
    if ts.len() == 0 {
        assert(ts.push(t)[0] == t);
        assert(ts.push(t).drop_first() =~= Seq::<((int, int), (int, int), (int, int))>::empty());
        assert(tri_step(Seq::<((int, int), (int, int), (int, int))>::empty()) == Seq::<
            ((int, int), (int, int), (int, int)),
        >::empty());
        assert(tri_children(t) + Seq::<((int, int), (int, int), (int, int))>::empty()
            =~= tri_children(t));
        assert(tri_step(ts) + tri_children(t) =~= tri_children(t));
    } else {
        assert(ts.push(t)[0] == ts[0]);
        assert(ts.push(t).drop_first() =~= ts.drop_first().push(t));
        lemma_tri_step_snoc(ts.drop_first(), t);
        assert(tri_children(ts[0]) + (tri_step(ts.drop_first()) + tri_children(t)) =~= (
        tri_children(ts[0]) + tri_step(ts.drop_first())) + tri_children(t));
    }
}

impl Triangle {
    pub fn point_ab(&self) -> (r: Vector2)
        requires
            tri_in_range(tri_model(*self)),
        ensures
            (r.x as int, r.y as int) == tmid(tri_model(*self).0, tri_model(*self).1),
    {
        proof {
            crate::fixed::lemma_tdiv_mag(self.b.x - self.a.x, 2);
            crate::fixed::lemma_tdiv_mag(self.b.y - self.a.y, 2);
        }
        Vector2 { x: self.a.x + (self.b.x - self.a.x) / 2, y: self.a.y + (self.b.y - self.a.y) / 2 }
    }

    pub fn point_ac(&self) -> (r: Vector2)
        requires
            tri_in_range(tri_model(*self)),
        ensures
            (r.x as int, r.y as int) == tmid(tri_model(*self).0, tri_model(*self).2),
    {
        proof {
            crate::fixed::lemma_tdiv_mag(self.c.x - self.a.x, 2);
            crate::fixed::lemma_tdiv_mag(self.c.y - self.a.y, 2);
        }
        Vector2 { x: self.a.x + (self.c.x - self.a.x) / 2, y: self.a.y + (self.c.y - self.a.y) / 2 }
    }

    pub fn point_bc(&self) -> (r: Vector2)
        requires
            tri_in_range(tri_model(*self)),
        ensures
            (r.x as int, r.y as int) == tmid(tri_model(*self).1, tri_model(*self).2),
    {
        proof {
            crate::fixed::lemma_tdiv_mag(self.c.x - self.b.x, 2);
            crate::fixed::lemma_tdiv_mag(self.c.y - self.b.y, 2);
        }
        Vector2 { x: self.b.x + (self.c.x - self.b.x) / 2, y: self.b.y + (self.c.y - self.b.y) / 2 }
    }

    /// Draw the triangle's three edges in cerise, one pixel thick.
    pub fn draw(&self, buf: &mut PixelBuffer)
        requires
            old(buf).wf(),
            tri_in_range(tri_model(*self)),
        ensures
            final(buf).wf(),
            final(buf).spec_width() == old(buf).spec_width(),
            final(buf).spec_height() == old(buf).spec_height(),
            final(buf)@ == tri_edges_paint(
                old(buf)@,
                old(buf).spec_width(),
                old(buf).spec_height(),
                *self,
                colours::CERISE,
            ),
    {
        draw_line(buf, &self.a, &self.b, colours::CERISE, 1);
        draw_line(buf, &self.a, &self.c, colours::CERISE, 1);
        draw_line(buf, &self.b, &self.c, colours::CERISE, 1);
    }
}

/// The pixels of one triangle's three edges, in drawing order.
pub open spec fn tri_edges_paint(
    contents: Seq<u32>,
    w: int,
    h: int,
    t: Triangle,
    colour: u32,
) -> Seq<u32> {
    paint_layers(
        paint_layers(paint_layers(contents, w, h, t.a, t.b, colour, 1), w, h, t.a, t.c, colour, 1),
        w,
        h,
        t.b,
        t.c,
        colour,
        1,
    )
}

/// The pixels of a whole generation, in-range triangles only.
pub open spec fn sierpinski_paint(
    contents: Seq<u32>,
    w: int,
    h: int,
    ts: Seq<Triangle>,
    colour: u32,
) -> Seq<u32>
    decreases ts.len(),
{
    if ts.len() == 0 {
        contents
    } else {
        let painted = if tri_in_range(tri_model(ts[0])) {
            tri_edges_paint(contents, w, h, ts[0], colour)
        } else {
            contents
        };
        sierpinski_paint(painted, w, h, ts.drop_first(), colour)
    }
}

/// The apex that makes (a, b, apex) equilateral: half the base turned
/// a quarter turn and stretched by the given root-of-three factor.
pub fn equilateral_apex(a: Vector2, b: Vector2, sqrt3: i64) -> (r: Vector2)
    requires
        vec_in_range(a),
        vec_in_range(b),
        0 <= sqrt3 <= 3 * ONE,
    ensures
        r.x as int == a.x + tdiv(b.x - a.x, 2) + tdiv(sqrt3 * tdiv(b.y - a.y, 2), ONE as int),
        r.y as int == a.y + tdiv(b.y - a.y, 2) + tdiv(-sqrt3 * tdiv(b.x - a.x, 2), ONE as int),
{
    proof {
        crate::fixed::lemma_tdiv_mag(b.x - a.x, 2);
        crate::fixed::lemma_tdiv_mag(b.y - a.y, 2);
    }
    let hx: i64 = (b.x - a.x) / 2;
    let hy: i64 = (b.y - a.y) / 2;
    let m = Matrix2::rotation(0, -ONE).scale(sqrt3);
    proof {
        assert(0 * sqrt3 == 0) by (nonlinear_arith);
        assert(tdiv(0, ONE as int) == 0) by {
            lemma_tdiv_exact(0, ONE as int);
            assert(0 * ONE == 0) by (nonlinear_arith);
        }
        assert(ONE * sqrt3 == sqrt3 * ONE) by (nonlinear_arith);
        lemma_tdiv_exact(sqrt3 as int, ONE as int);
        assert((-ONE) * sqrt3 == (-(sqrt3 as int)) * ONE) by (nonlinear_arith);
        lemma_tdiv_exact(-(sqrt3 as int), ONE as int);
        assert(m.c11 == 0 && m.c12 == sqrt3 && m.c21 == -sqrt3 && m.c22 == 0);
    }
    let half = Vector2 { x: hx, y: hy };
    let turned = m.mul_vec(&half);
    proof {
        assert(m.c11 * half.x + m.c12 * half.y == sqrt3 * (half.y as int)) by (nonlinear_arith)
            requires m.c11 == 0, m.c12 == sqrt3
        ;
        assert(m.c21 * half.x + m.c22 * half.y == (-sqrt3) * (half.x as int)) by (nonlinear_arith)
            requires m.c21 == -sqrt3, m.c22 == 0
        ;
        crate::fixed::lemma_mul_bound(sqrt3 as int, half.y as int, 3 * ONE as int, COORD_LIMIT as int);
        crate::fixed::lemma_mul_bound(sqrt3 as int, half.x as int, 3 * ONE as int, COORD_LIMIT as int);
        crate::fixed::lemma_tdiv_mag(sqrt3 * (half.y as int), ONE as int);
        crate::fixed::lemma_tdiv_mag((-sqrt3) * (half.x as int), ONE as int);
        assert((-sqrt3) * (half.x as int) == -(sqrt3 * (half.x as int))) by (nonlinear_arith);
    }
    Vector2 { x: a.x + hx + turned.x, y: a.y + hy + turned.y }
}

/// The Sierpinski triangle fractal: the current generation.
pub struct SierpinskiTriangle {
    pub triangles: Vec<Triangle>,
}

impl SierpinskiTriangle {
    pub open spec fn tris_model(&self) -> Seq<((int, int), (int, int), (int, int))> {
        self.triangles@.map_values(|t: Triangle| tri_model(t))
    }

    /// Seed the fractal with one triangle.
    pub fn new(a: Vector2, b: Vector2, c: Vector2) -> (r: SierpinskiTriangle)
        ensures
            r.tris_model() == seq![
                (
                    (a.x as int, a.y as int),
                    (b.x as int, b.y as int),
                    (c.x as int, c.y as int),
                ),
            ],
    {
        let mut triangles: Vec<Triangle> = Vec::new();
        triangles.push(Triangle { a, b, c });
        let r = SierpinskiTriangle { triangles };
        proof {
            assert(r.tris_model() =~= seq![
                (
                    (a.x as int, a.y as int),
                    (b.x as int, b.y as int),
                    (c.x as int, c.y as int),
                ),
            ]);
        }
        r
    }

    /// Replace every triangle by its three corner children, in order.
    /// Fails, leaving the fractal unchanged, when a triangle has left
    /// the working range.
    pub fn generate(&mut self) -> (r: Result<(), GeomError>)
        ensures
            r is Ok ==> {
                &&& forall|j: int|
                    0 <= j < old(self).tris_model().len() ==> tri_in_range(
                        #[trigger] old(self).tris_model()[j],
                    )
                &&& final(self).tris_model() == tri_step(old(self).tris_model())
            },
            r is Err ==> {
                &&& *final(self) == *old(self)
                &&& exists|j: int|
                    0 <= j < old(self).tris_model().len() && !tri_in_range(
                        #[trigger] old(self).tris_model()[j],
                    )
            },
    {
        let n = self.triangles.len();
        let mut next: Vec<Triangle> = Vec::new();
        let mut i: usize = 0;
        while i < n
            invariant
                self == old(self),
                n == self.triangles@.len(),
                i <= n,
                forall|j: int| 0 <= j < i ==> tri_in_range(#[trigger] self.tris_model()[j]),
                next@.map_values(|t: Triangle| tri_model(t)) == tri_step(
                    self.tris_model().subrange(0, i as int),
                ),
            decreases n - i,
        {
            let t = self.triangles[i];
            if !(-COORD_LIMIT <= t.a.x && t.a.x <= COORD_LIMIT && -COORD_LIMIT <= t.a.y && t.a.y
                <= COORD_LIMIT && -COORD_LIMIT <= t.b.x && t.b.x <= COORD_LIMIT && -COORD_LIMIT
                <= t.b.y && t.b.y <= COORD_LIMIT && -COORD_LIMIT <= t.c.x && t.c.x <= COORD_LIMIT
                && -COORD_LIMIT <= t.c.y && t.c.y <= COORD_LIMIT) {
                proof {
                    assert(!tri_in_range(self.tris_model()[i as int]));
                    assert(exists|j: int|
                        0 <= j < self.tris_model().len() && !tri_in_range(
                            #[trigger] self.tris_model()[j],
                        ));
                }
                return Err(GeomError::OutOfRange);
            }
            let ab = t.point_ab();
            let ac = t.point_ac();
            let bc = t.point_bc();
            next.push(Triangle { a: t.a, b: ab, c: ac });
            next.push(Triangle { a: ab, b: t.b, c: bc });
            next.push(Triangle { a: ac, b: bc, c: t.c });
            proof {
                lemma_tri_step_snoc(
                    self.tris_model().subrange(0, i as int),
                    self.tris_model()[i as int],
                );
                assert(self.tris_model().subrange(0, i as int).push(self.tris_model()[i as int])
                    =~= self.tris_model().subrange(0, i + 1 as int));
                assert(next@.map_values(|t2: Triangle| tri_model(t2)) =~= tri_step(
                    self.tris_model().subrange(0, i + 1 as int),
                ));
            }
            i = i + 1;
        }
        proof {
            assert(self.tris_model().subrange(0, n as int) =~= self.tris_model());
        }
        self.triangles = next;
        Ok(())
    }

    /// Rasterize the current generation.
    pub fn draw(&self, buf: &mut PixelBuffer)
        requires
            old(buf).wf(),
        ensures
            final(buf).wf(),
            final(buf).spec_width() == old(buf).spec_width(),
            final(buf).spec_height() == old(buf).spec_height(),
            final(buf)@ == sierpinski_paint(
                old(buf)@,
                old(buf).spec_width(),
                old(buf).spec_height(),
                self.triangles@,
                colours::CERISE,
            ),
    {
        let ghost w = old(buf).spec_width();
        let ghost h = old(buf).spec_height();
        let n = self.triangles.len();
        let mut i: usize = 0;
        proof {
            assert(self.triangles@.subrange(0, n as int) =~= self.triangles@);
        }
        while i < n
            invariant
                buf.wf(),
                buf.spec_width() == w,
                buf.spec_height() == h,
                w == old(buf).spec_width(),
                h == old(buf).spec_height(),
                n == self.triangles@.len(),
                i <= n,
                sierpinski_paint(old(buf)@, w, h, self.triangles@, colours::CERISE)
                    == sierpinski_paint(
                    buf@,
                    w,
                    h,
                    self.triangles@.subrange(i as int, n as int),
                    colours::CERISE,
                ),
            decreases n - i,
        {
            let t = self.triangles[i];
            let ghost pre = buf@;
            if -COORD_LIMIT <= t.a.x && t.a.x <= COORD_LIMIT && -COORD_LIMIT <= t.a.y && t.a.y
                <= COORD_LIMIT && -COORD_LIMIT <= t.b.x && t.b.x <= COORD_LIMIT && -COORD_LIMIT
                <= t.b.y && t.b.y <= COORD_LIMIT && -COORD_LIMIT <= t.c.x && t.c.x <= COORD_LIMIT
                && -COORD_LIMIT <= t.c.y && t.c.y <= COORD_LIMIT {
                t.draw(buf);
            }
            proof {
                assert(self.triangles@.subrange(i as int, n as int)[0]
                    == self.triangles@[i as int]);
                assert(self.triangles@.subrange(i as int, n as int).drop_first()
                    =~= self.triangles@.subrange(i + 1 as int, n as int));
                assert(sierpinski_paint(
                    pre,
                    w,
                    h,
                    self.triangles@.subrange(i as int, n as int),
                    colours::CERISE,
                ) == sierpinski_paint(
                    buf@,
                    w,
                    h,
                    self.triangles@.subrange(i + 1 as int, n as int),
                    colours::CERISE,
                ));
            }
            i = i + 1;
        }
        proof {
            assert(self.triangles@.subrange(n as int, n as int) =~= Seq::<Triangle>::empty());
        }
    }
}

/// Trisection preserves the centroid: when every edge difference is
/// even (so the midpoints are exact), the nine child vertices sum to
/// three times the parent's vertex sum, coordinate by coordinate —
/// that is, the mean of the children's vertices is the parent's
/// centroid.
pub proof fn lemma_trisection_centroid(t: ((int, int), (int, int), (int, int)))
    requires
        (t.1.0 - t.0.0) % 2 == 0,
        (t.1.1 - t.0.1) % 2 == 0,
        (t.2.0 - t.0.0) % 2 == 0,
        (t.2.1 - t.0.1) % 2 == 0,
        (t.2.0 - t.1.0) % 2 == 0,
        (t.2.1 - t.1.1) % 2 == 0,
    ensures
        ({
            let cs = tri_children(t);
            let sx = cs[0].0.0 + cs[0].1.0 + cs[0].2.0 + cs[1].0.0 + cs[1].1.0 + cs[1].2.0
                + cs[2].0.0 + cs[2].1.0 + cs[2].2.0;
            let sy = cs[0].0.1 + cs[0].1.1 + cs[0].2.1 + cs[1].0.1 + cs[1].1.1 + cs[1].2.1
                + cs[2].0.1 + cs[2].1.1 + cs[2].2.1;
            sx == 3 * (t.0.0 + t.1.0 + t.2.0) && sy == 3 * (t.0.1 + t.1.1 + t.2.1)
        }),
{
    lemma_even_mid(t.0.0, t.1.0);
    lemma_even_mid(t.0.1, t.1.1);
    lemma_even_mid(t.0.0, t.2.0);
    lemma_even_mid(t.0.1, t.2.1);
    lemma_even_mid(t.1.0, t.2.0);
    lemma_even_mid(t.1.1, t.2.1);
}

/// With an even difference the truncated midpoint is exact: twice the
/// midpoint is the sum of the ends.
proof fn lemma_even_mid(p: int, q: int)
    requires
        (q - p) % 2 == 0,
    ensures
        2 * (p + tdiv(q - p, 2)) == p + q,
{
    let x = q - p;
    vstd::arithmetic::div_mod::lemma_fundamental_div_mod(x, 2);
    let k = x / 2;
    assert(x == 2 * k);
    assert(x == k * 2) by (nonlinear_arith)
        requires x == 2 * k
    ;
    lemma_tdiv_exact(k, 2);
}

} // verus!
