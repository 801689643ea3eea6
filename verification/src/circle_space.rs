//! The space-filling circles family: each circle above the minimum
//! radius spawns four half-size children, one along each axis.  The
//! stroke colour fades with the radius.

use vstd::prelude::*;
use crate::GeomError;
use crate::buffer::PixelBuffer;
use crate::colours;
use crate::fixed::{ONE, iabs, tdiv, lemma_tdiv_mag};
use crate::raster::{paint, circle_points, draw_circle, RAD_LIMIT};
use crate::vector::{Vector2, vec_in_range, COORD_LIMIT};

verus! {

use crate::circle_line::{circ_model, circ_in_range};

/// The children of one circle: the four axis neighbours at half the
/// radius, spawned only above the minimum.
pub open spec fn circle_space_children(c: (int, int, int), min: int) -> Seq<(int, int, int)> {
    if c.2 > min {
        seq![
            (c.0 - c.2, c.1, tdiv(c.2, 2)),
            (c.0 + c.2, c.1, tdiv(c.2, 2)),
            (c.0, c.1 - c.2, tdiv(c.2, 2)),
            (c.0, c.1 + c.2, tdiv(c.2, 2)),
        ]
    } else {
        Seq::empty()
    }
}

/// The fading stroke: rust-orange less a cerise share that grows as
/// the pixel radius shrinks.
pub open spec fn space_colour(radius: int) -> u32
    recommends
        tdiv(radius, ONE as int) >= 1,
{
    (colours::RUST - colours::CERISE as int / tdiv(radius, ONE as int)) as u32
}

/// One generation step over a whole circle list.
pub open spec fn circle_space_step(cs: Seq<(int, int, int)>, min: int) -> Seq<(int, int, int)>
    decreases cs.len(),
{
    if cs.len() == 0 {
        Seq::empty()
    } else {
        circle_space_children(cs[0], min) + circle_space_step(cs.drop_first(), min)
    }
}

proof fn lemma_circle_space_step_snoc(cs: Seq<(int, int, int)>, c: (int, int, int), min: int)
    ensures
        circle_space_step(cs.push(c), min) == circle_space_step(cs, min) + circle_space_children(
            c,
            min,
        ),
    decreases cs.len(),
{
    if cs.len() == 0 {
        assert(cs.push(c)[0] == c);
        assert(cs.push(c).drop_first() =~= Seq::<(int, int, int)>::empty());
        assert(circle_space_step(Seq::<(int, int, int)>::empty(), min) == Seq::<
            (int, int, int),
        >::empty());
        assert(circle_space_children(c, min) + Seq::<(int, int, int)>::empty()
            =~= circle_space_children(c, min));
        assert(circle_space_step(cs, min) + circle_space_children(c, min) =~= circle_space_children(
            c,
            min,
        ));
    } else {
        assert(cs.push(c)[0] == cs[0]);
        assert(cs.push(c).drop_first() =~= cs.drop_first().push(c));
        lemma_circle_space_step_snoc(cs.drop_first(), c, min);
        assert(circle_space_children(cs[0], min) + (circle_space_step(cs.drop_first(), min)
            + circle_space_children(c, min)) =~= (circle_space_children(cs[0], min)
            + circle_space_step(cs.drop_first(), min)) + circle_space_children(c, min));
    }
}

/// The pixels of a generation: each in-range circle's midpoint walk,
/// stroked in its own fading colour.
pub open spec fn circle_space_paint(
    contents: Seq<u32>,
    w: int,
    h: int,
    cs: Seq<(Vector2, i64)>,
) -> Seq<u32>
    decreases cs.len(),
{
    if cs.len() == 0 {
        contents
    } else {
        let c = cs[0];
        let painted = if vec_in_range(c.0) && ONE <= c.1 <= RAD_LIMIT {
            paint(
                contents,
                w,
                h,
                circle_points(c.0.x as int, c.0.y as int, c.1 as int),
                space_colour(c.1 as int),
            )
        } else {
            contents
        };
        circle_space_paint(painted, w, h, cs.drop_first())
    }
}

/// The line-of-circles fractal.
pub struct CircleSpace {
    pub circles: Vec<(Vector2, i64)>,
    pub min_radius: i64,
}

impl CircleSpace {
    pub open spec fn circles_model(&self) -> Seq<(int, int, int)> {
        self.circles@.map_values(|c: (Vector2, i64)| circ_model(c))
    }

    /// Every radius is at least one pixel, at most the raster bound,
    /// and the spawn threshold at least two pixels.
    pub open spec fn wf(&self) -> bool {
        &&& 2 * ONE <= self.min_radius
        &&& forall|j: int|
            0 <= j < self.circles@.len() ==> ONE <= (#[trigger] self.circles@[j]).1 <= RAD_LIMIT
    }

    /// Seed the fractal with one circle.
    pub fn new(center: Vector2, radius: i64, min_radius: i64) -> (r: CircleSpace)
        requires
            vec_in_range(center),
            ONE <= radius <= RAD_LIMIT,
            2 * ONE <= min_radius,
        ensures
            r.circles_model() == seq![(center.x as int, center.y as int, radius as int)],
            r.min_radius == min_radius,
            r.wf(),
    {
        let mut circles: Vec<(Vector2, i64)> = Vec::new();
        circles.push((center, radius));
        let r = CircleSpace { circles, min_radius };
        proof {
            assert(r.circles_model() =~= seq![(center.x as int, center.y as int, radius as int)]);
        }
        r
    }

    /// Replace the generation by every circle's children; circles at or
    /// below the minimum radius produce none, so the generation dies
    /// out.  Fails, leaving the fractal unchanged, when a circle has
    /// left the working range.
    pub fn advance(&mut self) -> (r: Result<(), GeomError>)
        requires
            old(self).wf(),
        ensures
            final(self).wf(),
            final(self).min_radius == old(self).min_radius,
            r is Ok ==> {
                &&& forall|j: int|
                    0 <= j < old(self).circles_model().len() ==> circ_in_range(
                        #[trigger] old(self).circles_model()[j],
                    )
                &&& final(self).circles_model() == circle_space_step(
                    old(self).circles_model(),
                    old(self).min_radius as int,
                )
            },
            r is Err ==> {
                &&& *final(self) == *old(self)
                &&& exists|j: int|
                    0 <= j < old(self).circles_model().len() && !circ_in_range(
                        #[trigger] old(self).circles_model()[j],
                    )
            },
    {
        let ghost min = self.min_radius as int;
        let n = self.circles.len();
        let mut next: Vec<(Vector2, i64)> = Vec::new();
        let mut i: usize = 0;
        while i < n
            invariant
                self == old(self),
                self.wf(),
                min == self.min_radius as int,
                n == self.circles@.len(),
                i <= n,
                forall|j: int| 0 <= j < i ==> circ_in_range(#[trigger] self.circles_model()[j]),
                next@.map_values(|c: (Vector2, i64)| circ_model(c)) == circle_space_step(
                    self.circles_model().subrange(0, i as int),
                    min,
                ),
                forall|j: int|
                    0 <= j < next@.len() ==> ONE <= (#[trigger] next@[j]).1 <= RAD_LIMIT,
            decreases n - i,
        {
            let (v, rad) = self.circles[i];
            if !(-COORD_LIMIT <= v.x && v.x <= COORD_LIMIT && -COORD_LIMIT <= v.y && v.y
                <= COORD_LIMIT && -COORD_LIMIT <= v.x - rad && v.x - rad <= COORD_LIMIT
                && -COORD_LIMIT <= v.x + rad && v.x + rad <= COORD_LIMIT && -COORD_LIMIT
                <= v.y - rad && v.y - rad <= COORD_LIMIT && -COORD_LIMIT <= v.y + rad && v.y + rad
                <= COORD_LIMIT) {
                proof {
                    assert(!circ_in_range(self.circles_model()[i as int]));
                    assert(exists|j: int|
                        0 <= j < self.circles_model().len() && !circ_in_range(
                            #[trigger] self.circles_model()[j],
                        ));
                }
                return Err(GeomError::OutOfRange);
            }
            if rad > self.min_radius {
                let half: i64 = rad / 2;
                proof {
                    crate::fixed::lemma_tdiv_mag(rad as int, 2);
                    vstd::arithmetic::div_mod::lemma_div_is_ordered(2 * ONE, rad as int, 2);
                    assert(2 * ONE == ONE * 2);
                    crate::fixed::lemma_tdiv_exact(ONE as int, 2);
                }
                next.push((Vector2 { x: v.x - rad, y: v.y }, half));
                next.push((Vector2 { x: v.x + rad, y: v.y }, half));
                next.push((Vector2 { x: v.x, y: v.y - rad }, half));
                next.push((Vector2 { x: v.x, y: v.y + rad }, half));
            }
            proof {
                lemma_circle_space_step_snoc(
                    self.circles_model().subrange(0, i as int),
                    self.circles_model()[i as int],
                    min,
                );
                assert(self.circles_model().subrange(0, i as int).push(
                    self.circles_model()[i as int],
                ) =~= self.circles_model().subrange(0, i + 1 as int));
                assert(next@.map_values(|c: (Vector2, i64)| circ_model(c)) =~= circle_space_step(
                    self.circles_model().subrange(0, i + 1 as int),
                    min,
                ));
            }
            i = i + 1;
        }
        proof {
            assert(self.circles_model().subrange(0, n as int) =~= self.circles_model());
        }
        self.circles = next;
        Ok(())
    }

    /// How many circles the current generation holds.
    pub fn circle_count(&self) -> (n: usize)
        ensures
            n == self.circles_model().len(),
    {
        self.circles.len()
    }

    /// Rasterize the current generation.
    pub fn draw(&self, buf: &mut PixelBuffer)
        requires
            old(buf).wf(),
        ensures
            final(buf).wf(),
            final(buf).spec_width() == old(buf).spec_width(),
            final(buf).spec_height() == old(buf).spec_height(),
            final(buf)@ == circle_space_paint(
                old(buf)@,
                old(buf).spec_width(),
                old(buf).spec_height(),
                self.circles@,
            ),
    {
        let ghost w = old(buf).spec_width();
        let ghost h = old(buf).spec_height();
        let n = self.circles.len();
        let mut i: usize = 0;
        proof {
            assert(self.circles@.subrange(0, n as int) =~= self.circles@);
        }
        while i < n
            invariant
                buf.wf(),
                buf.spec_width() == w,
                buf.spec_height() == h,
                w == old(buf).spec_width(),
                h == old(buf).spec_height(),
                n == self.circles@.len(),
                i <= n,
                circle_space_paint(old(buf)@, w, h, self.circles@) == circle_space_paint(
                    buf@,
                    w,
                    h,
                    self.circles@.subrange(i as int, n as int),
                ),
            decreases n - i,
        {
            let (v, rad) = self.circles[i];
            let ghost pre = buf@;
            if -COORD_LIMIT <= v.x && v.x <= COORD_LIMIT && -COORD_LIMIT <= v.y && v.y
                <= COORD_LIMIT && ONE <= rad && rad <= RAD_LIMIT {
                proof {
                    lemma_tdiv_mag(rad as int, ONE as int);
                    vstd::arithmetic::div_mod::lemma_div_is_ordered(ONE as int, rad as int, ONE as int);
                    crate::fixed::lemma_tdiv_exact(1, ONE as int);
                    assert(1 * ONE == ONE);
                }
                let px: i64 = rad / ONE;
                let colour: u32 = colours::RUST - colours::CERISE / (px as u32);
                draw_circle(buf, &v, rad, colour);
            }
            proof {
                assert(self.circles@.subrange(i as int, n as int)[0] == self.circles@[i as int]);
                assert(self.circles@.subrange(i as int, n as int).drop_first()
                    =~= self.circles@.subrange(i + 1 as int, n as int));
                assert(circle_space_paint(
                    pre,
                    w,
                    h,
                    self.circles@.subrange(i as int, n as int),
                ) == circle_space_paint(
                    buf@,
                    w,
                    h,
                    self.circles@.subrange(i + 1 as int, n as int),
                ));
            }
            i = i + 1;
        }
        proof {
            assert(self.circles@.subrange(n as int, n as int) =~= Seq::<(Vector2, i64)>::empty());
        }
    }
}

} // verus!
