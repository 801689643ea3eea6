//! The Koch-family generator: each segment is replaced by four, with
//! the middle third lifted into the classic indentation bump.

use vstd::prelude::*;
use crate::GeomError;
use crate::buffer::PixelBuffer;
use crate::colours;
use crate::fixed::{ONE, iabs, tdiv, lemma_tdiv_exact};
use crate::matrix::{Growth, growth_wf};
use crate::raster::{paint_layers, draw_line};
use crate::turtle::gapply;
use crate::vector::{Vector2, vec_in_range, COORD_LIMIT};

verus! {

/// One line of the fractal.
#[derive(Clone, Copy, PartialEq, Eq, Structural, Debug)]
pub struct KochLine {
    pub start: Vector2,
    pub end: Vector2,
}

/// The model of a line: its two endpoints as integer pairs.
pub open spec fn kseg_model(l: KochLine) -> ((int, int), (int, int)) {
    ((l.start.x as int, l.start.y as int), (l.end.x as int, l.end.y as int))
}

pub open spec fn kseg_in_range(s: ((int, int), (int, int))) -> bool {
    &&& iabs(s.0.0) <= COORD_LIMIT
    &&& iabs(s.0.1) <= COORD_LIMIT
    &&& iabs(s.1.0) <= COORD_LIMIT
    &&& iabs(s.1.1) <= COORD_LIMIT
}

/// The five division points of a segment: its ends, the two third
/// points, and the bump vertex reached by rotating the middle third.
pub open spec fn kpt_a(s: ((int, int), (int, int))) -> (int, int) {
    s.0
}

pub open spec fn kpt_b(s: ((int, int), (int, int))) -> (int, int) {
    (s.0.0 + tdiv(s.1.0 - s.0.0, 3), s.0.1 + tdiv(s.1.1 - s.0.1, 3))
}

pub open spec fn kpt_c(s: ((int, int), (int, int)), rot: (int, int)) -> (int, int) {
    let v3 = (tdiv(s.1.0 - s.0.0, 3), tdiv(s.1.1 - s.0.1, 3));
    let r = gapply(rot, v3);
    (s.0.0 + v3.0 + r.0, s.0.1 + v3.1 + r.1)
}

pub open spec fn kpt_d(s: ((int, int), (int, int))) -> (int, int) {
    (s.0.0 + tdiv(2 * (s.1.0 - s.0.0), 3), s.0.1 + tdiv(2 * (s.1.1 - s.0.1), 3))
}

pub open spec fn kpt_e(s: ((int, int), (int, int))) -> (int, int) {
    s.1
}

/// The four child segments of one line.
pub open spec fn koch_children(s: ((int, int), (int, int)), rot: (int, int)) -> Seq<
    ((int, int), (int, int)),
> {
    seq![
        (kpt_a(s), kpt_b(s)),
        (kpt_b(s), kpt_c(s, rot)),
        (kpt_c(s, rot), kpt_d(s)),
        (kpt_d(s), kpt_e(s)),
    ]
}

/// One generation step over a whole line list.
pub open spec fn koch_step(ss: Seq<((int, int), (int, int))>, rot: (int, int)) -> Seq<
    ((int, int), (int, int)),
>
    decreases ss.len(),
{
    if ss.len() == 0 {
        Seq::empty()
    } else {
        koch_children(ss[0], rot) + koch_step(ss.drop_first(), rot)
    }
}

proof fn lemma_koch_step_snoc(
    ss: Seq<((int, int), (int, int))>,
    s: ((int, int), (int, int)),
    rot: (int, int),
)
    ensures
        koch_step(ss.push(s), rot) == koch_step(ss, rot) + koch_children(s, rot),
    decreases ss.len(),
{
    if ss.len() == 0 {
        assert(ss.push(s)[0] == s);
        assert(ss.push(s).drop_first() =~= Seq::<((int, int), (int, int))>::empty());
        assert(koch_step(Seq::<((int, int), (int, int))>::empty(), rot) == Seq::<
            ((int, int), (int, int)),
        >::empty());
        assert(koch_children(s, rot) + Seq::<((int, int), (int, int))>::empty() =~= koch_children(
            s,
            rot,
        ));
        assert(koch_step(ss, rot) + koch_children(s, rot) =~= koch_children(s, rot));
    } else {
        assert(ss.push(s)[0] == ss[0]);
        assert(ss.push(s).drop_first() =~= ss.drop_first().push(s));
        lemma_koch_step_snoc(ss.drop_first(), s, rot);
        assert(koch_children(ss[0], rot) + (koch_step(ss.drop_first(), rot) + koch_children(
            s,
            rot,
        )) =~= (koch_children(ss[0], rot) + koch_step(ss.drop_first(), rot)) + koch_children(
            s,
            rot,
        ));
    }
}

impl KochLine {
    pub fn koch_a(&self) -> (r: Vector2)
        ensures
            (r.x as int, r.y as int) == kpt_a(kseg_model(*self)),
    {
        self.start
    }

    pub fn koch_b(&self) -> (r: Vector2)
        requires
            kseg_in_range(kseg_model(*self)),
        ensures
            (r.x as int, r.y as int) == kpt_b(kseg_model(*self)),
    {
        proof {
            crate::fixed::lemma_tdiv_mag(self.end.x - self.start.x, 3);
            crate::fixed::lemma_tdiv_mag(self.end.y - self.start.y, 3);
        }
        Vector2 {
            x: self.start.x + (self.end.x - self.start.x) / 3,
            y: self.start.y + (self.end.y - self.start.y) / 3,
        }
    }

    pub fn koch_c(&self, rot: &Growth) -> (r: Vector2)
        requires
            kseg_in_range(kseg_model(*self)),
            growth_wf(*rot),
        ensures
            (r.x as int, r.y as int) == kpt_c(kseg_model(*self), (rot.c as int, rot.s as int)),
    {
        proof {
            crate::fixed::lemma_tdiv_mag(self.end.x - self.start.x, 3);
            crate::fixed::lemma_tdiv_mag(self.end.y - self.start.y, 3);
        }
        let v3 = Vector2 {
            x: (self.end.x - self.start.x) / 3,
            y: (self.end.y - self.start.y) / 3,
        };
        let r = rot.apply(&v3);
        Vector2 { x: self.start.x + v3.x + r.x, y: self.start.y + v3.y + r.y }
    }

    pub fn koch_d(&self) -> (r: Vector2)
        requires
            kseg_in_range(kseg_model(*self)),
        ensures
            (r.x as int, r.y as int) == kpt_d(kseg_model(*self)),
    {
        proof {
            crate::fixed::lemma_tdiv_mag(2 * (self.end.x - self.start.x), 3);
            crate::fixed::lemma_tdiv_mag(2 * (self.end.y - self.start.y), 3);
        }
        Vector2 {
            x: self.start.x + (2 * (self.end.x - self.start.x)) / 3,
            y: self.start.y + (2 * (self.end.y - self.start.y)) / 3,
        }
    }

    pub fn koch_e(&self) -> (r: Vector2)
        ensures
            (r.x as int, r.y as int) == kpt_e(kseg_model(*self)),
    {
        self.end
    }

    /// Draw this line in rust-orange, one pixel thick.
    pub fn draw(&self, buf: &mut PixelBuffer)
        requires
            old(buf).wf(),
            kseg_in_range(kseg_model(*self)),
        ensures
            final(buf).wf(),
            final(buf).spec_width() == old(buf).spec_width(),
            final(buf).spec_height() == old(buf).spec_height(),
            final(buf)@ == paint_layers(
                old(buf)@,
                old(buf).spec_width(),
                old(buf).spec_height(),
                self.start,
                self.end,
                colours::RUST,
                1,
            ),
    {
        draw_line(buf, &self.start, &self.end, colours::RUST, 1);
    }
}

/// The pixels of a whole generation, in-range lines only.
pub open spec fn koch_paint(
    contents: Seq<u32>,
    w: int,
    h: int,
    ss: Seq<KochLine>,
    colour: u32,
) -> Seq<u32>
    decreases ss.len(),
{
    if ss.len() == 0 {
        contents
    } else {
        let painted = if kseg_in_range(kseg_model(ss[0])) {
            paint_layers(contents, w, h, ss[0].start, ss[0].end, colour, 1)
        } else {
            contents
        };
        koch_paint(painted, w, h, ss.drop_first(), colour)
    }
}

/// The Koch fractal: the current generation of lines and the bump
/// rotation.
pub struct Koch {
    pub lines: Vec<KochLine>,
    pub rot: Growth,
}

impl Koch {
    pub open spec fn lines_model(&self) -> Seq<((int, int), (int, int))> {
        self.lines@.map_values(|l: KochLine| kseg_model(l))
    }

    /// Seed the fractal with the segment and its reverse, so the bump
    /// grows to both sides.
    pub fn new(start: Vector2, end: Vector2, rot: Growth) -> (r: Koch)
        requires
            growth_wf(rot),
        ensures
            r.lines_model() == seq![
                ((start.x as int, start.y as int), (end.x as int, end.y as int)),
                ((end.x as int, end.y as int), (start.x as int, start.y as int)),
            ],
            r.rot == rot,
            growth_wf(r.rot),
    {
        let mut lines: Vec<KochLine> = Vec::new();
        lines.push(KochLine { start, end });
        lines.push(KochLine { start: end, end: start });
        let r = Koch { lines, rot };
        proof {
            assert(r.lines_model() =~= seq![
                ((start.x as int, start.y as int), (end.x as int, end.y as int)),
                ((end.x as int, end.y as int), (start.x as int, start.y as int)),
            ]);
        }
        r
    }

    /// Replace every line by its four children, in order.  Fails,
    /// leaving the fractal unchanged, when a line has left the
    /// working range.
    pub fn generate(&mut self) -> (r: Result<(), GeomError>)
        requires
            growth_wf(old(self).rot),
        ensures
            final(self).rot == old(self).rot,
            r is Ok ==> {
                &&& forall|j: int|
                    0 <= j < old(self).lines_model().len() ==> kseg_in_range(
                        #[trigger] old(self).lines_model()[j],
                    )
                &&& final(self).lines_model() == koch_step(
                    old(self).lines_model(),
                    (old(self).rot.c as int, old(self).rot.s as int),
                )
            },
            r is Err ==> {
                &&& *final(self) == *old(self)
                &&& exists|j: int|
                    0 <= j < old(self).lines_model().len() && !kseg_in_range(
                        #[trigger] old(self).lines_model()[j],
                    )
            },
    {
        let ghost rr = (self.rot.c as int, self.rot.s as int);
        let n = self.lines.len();
        let mut next: Vec<KochLine> = Vec::new();
        let mut i: usize = 0;
        while i < n
            invariant
                growth_wf(self.rot),
                self == old(self),
                rr == (self.rot.c as int, self.rot.s as int),
                n == self.lines@.len(),
                i <= n,
                forall|j: int| 0 <= j < i ==> kseg_in_range(#[trigger] self.lines_model()[j]),
                next@.map_values(|l: KochLine| kseg_model(l)) == koch_step(
                    self.lines_model().subrange(0, i as int),
                    rr,
                ),
            decreases n - i,
        {
            let line = self.lines[i];
            if !(-COORD_LIMIT <= line.start.x && line.start.x <= COORD_LIMIT && -COORD_LIMIT
                <= line.start.y && line.start.y <= COORD_LIMIT && -COORD_LIMIT <= line.end.x
                && line.end.x <= COORD_LIMIT && -COORD_LIMIT <= line.end.y && line.end.y
                <= COORD_LIMIT) {
                proof {
                    assert(!kseg_in_range(self.lines_model()[i as int]));
                    assert(exists|j: int|
                        0 <= j < self.lines_model().len() && !kseg_in_range(
                            #[trigger] self.lines_model()[j],
                        ));
                }
                return Err(GeomError::OutOfRange);
            }
            let a = line.koch_a();
            let b = line.koch_b();
            let c = line.koch_c(&self.rot);
            let d = line.koch_d();
            let e = line.koch_e();
            next.push(KochLine { start: a, end: b });
            next.push(KochLine { start: b, end: c });
            next.push(KochLine { start: c, end: d });
            next.push(KochLine { start: d, end: e });
            proof {
                lemma_koch_step_snoc(
                    self.lines_model().subrange(0, i as int),
                    self.lines_model()[i as int],
                    rr,
                );
                assert(self.lines_model().subrange(0, i as int).push(
                    self.lines_model()[i as int],
                ) =~= self.lines_model().subrange(0, i + 1 as int));
                assert(next@.map_values(|l: KochLine| kseg_model(l)) =~= koch_step(
                    self.lines_model().subrange(0, i + 1 as int),
                    rr,
                ));
            }
            i = i + 1;
        }
        proof {
            assert(self.lines_model().subrange(0, n as int) =~= self.lines_model());
        }
        self.lines = next;
        Ok(())
    }

    /// Rasterize the current generation.
    pub fn draw(&self, buf: &mut PixelBuffer)
        requires
            old(buf).wf(),
        ensures
            final(buf).wf(),
            final(buf).spec_width() == old(buf).spec_width(),
            final(buf).spec_height() == old(buf).spec_height(),
            final(buf)@ == koch_paint(
                old(buf)@,
                old(buf).spec_width(),
                old(buf).spec_height(),
                self.lines@,
                colours::RUST,
            ),
    {
        let ghost w = old(buf).spec_width();
        let ghost h = old(buf).spec_height();
        let n = self.lines.len();
        let mut i: usize = 0;
        proof {
            assert(self.lines@.subrange(0, n as int) =~= self.lines@);
        }
        while i < n
            invariant
                buf.wf(),
                buf.spec_width() == w,
                buf.spec_height() == h,
                w == old(buf).spec_width(),
                h == old(buf).spec_height(),
                n == self.lines@.len(),
                i <= n,
                koch_paint(old(buf)@, w, h, self.lines@, colours::RUST) == koch_paint(
                    buf@,
                    w,
                    h,
                    self.lines@.subrange(i as int, n as int),
                    colours::RUST,
                ),
            decreases n - i,
        {
            let line = self.lines[i];
            let ghost pre = buf@;
            if -COORD_LIMIT <= line.start.x && line.start.x <= COORD_LIMIT && -COORD_LIMIT
                <= line.start.y && line.start.y <= COORD_LIMIT && -COORD_LIMIT <= line.end.x
                && line.end.x <= COORD_LIMIT && -COORD_LIMIT <= line.end.y && line.end.y
                <= COORD_LIMIT {
                line.draw(buf);
            }
            proof {
                assert(self.lines@.subrange(i as int, n as int)[0] == self.lines@[i as int]);
                assert(self.lines@.subrange(i as int, n as int).drop_first()
                    =~= self.lines@.subrange(i + 1 as int, n as int));
                assert(koch_paint(
                    pre,
                    w,
                    h,
                    self.lines@.subrange(i as int, n as int),
                    colours::RUST,
                ) == koch_paint(
                    buf@,
                    w,
                    h,
                    self.lines@.subrange(i + 1 as int, n as int),
                    colours::RUST,
                ));
            }
            i = i + 1;
        }
        proof {
            assert(self.lines@.subrange(n as int, n as int) =~= Seq::<KochLine>::empty());
        }
    }
}

/// The triadic split of a rightward horizontal segment keeps its
/// length in aggregate when the bump rotation is the identity: every
/// sub-segment then points rightward along the base, and the four
/// extents sum to the original extent.
pub proof fn lemma_triadic_length_preserved(s: ((int, int), (int, int)))
    requires
        s.0.1 == s.1.1,
        s.0.0 <= s.1.0,
    ensures
        ({
            let rot = (ONE as int, 0int);
            let a = kpt_a(s);
            let b = kpt_b(s);
            let c = kpt_c(s, rot);
            let d = kpt_d(s);
            let e = kpt_e(s);
            &&& a.1 == b.1 && b.1 == c.1 && c.1 == d.1 && d.1 == e.1
            &&& a.0 <= b.0 && b.0 <= c.0 && c.0 <= d.0 && d.0 <= e.0
            &&& (b.0 - a.0) + (c.0 - b.0) + (d.0 - c.0) + (e.0 - d.0) == s.1.0 - s.0.0
        }),
{
    let vx = s.1.0 - s.0.0;
    let v3 = tdiv(vx, 3);
    let v23 = tdiv(2 * vx, 3);
    crate::fixed::lemma_tdiv_mag(vx, 3);
    crate::fixed::lemma_tdiv_mag(2 * vx, 3);
    lemma_tdiv_exact(0, 3);
    // the identity rotation leaves the middle third unchanged
    assert(tdiv(ONE * v3 - 0 * 0, ONE as int) == v3) by {
        assert(ONE * v3 == v3 * ONE) by (nonlinear_arith);
        lemma_tdiv_exact(v3, ONE as int);
        assert(0 * tdiv(s.1.1 - s.0.1, 3) == 0) by (nonlinear_arith);
    }
    assert(gapply((ONE as int, 0int), (v3, tdiv(s.1.1 - s.0.1, 3))).0 == v3) by {
        assert(ONE * v3 - 0 * tdiv(s.1.1 - s.0.1, 3) == ONE * v3) by (nonlinear_arith);
        assert(ONE * v3 == v3 * ONE) by (nonlinear_arith);
        lemma_tdiv_exact(v3, ONE as int);
    }
    assert(gapply((ONE as int, 0int), (v3, tdiv(s.1.1 - s.0.1, 3))).1 == 0) by {
        assert(s.1.1 - s.0.1 == 0);
        assert(tdiv(0, 3) == 0) by {
            lemma_tdiv_exact(0, 3);
            assert(0 * 3 == 0) by (nonlinear_arith);
        }
        assert(0 * v3 + ONE * 0 == 0) by (nonlinear_arith);
        assert(tdiv(0, ONE as int) == 0) by {
            lemma_tdiv_exact(0, ONE as int);
            assert(0 * ONE == 0) by (nonlinear_arith);
        }
    }
    // the two-thirds point never falls left of twice the third point
    let q = vx / 3;
    let m = vx % 3;
    vstd::arithmetic::div_mod::lemma_fundamental_div_mod(vx, 3);
    vstd::arithmetic::div_mod::lemma_mod_bound(vx, 3);
    let q2 = (2 * vx) / 3;
    let m2 = (2 * vx) % 3;
    vstd::arithmetic::div_mod::lemma_fundamental_div_mod(2 * vx, 3);
    vstd::arithmetic::div_mod::lemma_mod_bound(2 * vx, 3);
    assert(2 * vx >= 0);
    assert(v3 == q);
    assert(v23 == q2);
    assert(6 * q + 2 * m == 3 * q2 + m2);
    assert(2 * q <= q2);
    assert(q2 <= 2 * q + 1);
    assert(q2 <= vx);
}

} // verus!
