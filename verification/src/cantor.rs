//! The Cantor-family generator: each horizontal segment yields its two
//! outer thirds, dropped one vertical step per depth.

use vstd::prelude::*;
use crate::GeomError;
use crate::buffer::PixelBuffer;
use crate::colours;
use crate::fixed::{iabs, tdiv};
use crate::raster::{paint_layers, draw_line};
use crate::vector::{Vector2, vec_in_range, COORD_LIMIT};

verus! {

/// One segment of the set: its left end and its fixed-point length.
pub open spec fn cseg_model(s: (Vector2, i64)) -> (int, int, int) {
    (s.0.x as int, s.0.y as int, s.1 as int)
}

/// Whether a segment's both ends lie in the working range.
pub open spec fn cseg_in_range(s: (int, int, int)) -> bool {
    &&& iabs(s.0) <= COORD_LIMIT
    &&& iabs(s.1) <= COORD_LIMIT
    &&& 0 <= s.2 <= COORD_LIMIT
    &&& iabs(s.0 + s.2) <= COORD_LIMIT
}

/// Whether the children of a segment at child depth `d` stay on the
/// machine's coordinate range.
pub open spec fn cchild_ok(s: (int, int, int), step: int, d: int) -> bool {
    iabs(s.1 + step * d) <= COORD_LIMIT
}

/// The two children of a segment at child depth `d`: the outer thirds,
/// offset vertically by `step * d`.
pub open spec fn cantor_children(s: (int, int, int), step: int, d: int) -> Seq<(int, int, int)> {
    seq![
        (s.0, s.1 + step * d, tdiv(s.2, 3)),
        (s.0 + tdiv(2 * s.2, 3), s.1 + step * d, tdiv(s.2, 3)),
    ]
}

/// One generation step over a whole segment list.
pub open spec fn cantor_step(ss: Seq<(int, int, int)>, step: int, d: int) -> Seq<(int, int, int)>
    decreases ss.len(),
{
    if ss.len() == 0 {
        Seq::empty()
    } else {
        cantor_children(ss[0], step, d) + cantor_step(ss.drop_first(), step, d)
    }
}

proof fn lemma_cantor_step_snoc(ss: Seq<(int, int, int)>, s: (int, int, int), step: int, d: int)
    ensures
        cantor_step(ss.push(s), step, d) == cantor_step(ss, step, d) + cantor_children(s, step, d),
    decreases ss.len(),
{
    if ss.len() == 0 {
        assert(ss.push(s)[0] == s);
        assert(ss.push(s).drop_first() =~= Seq::<(int, int, int)>::empty());
        assert(cantor_step(Seq::<(int, int, int)>::empty(), step, d) == Seq::<(int, int, int)>::empty());
        assert(cantor_children(s, step, d) + Seq::<(int, int, int)>::empty() =~= cantor_children(
            s,
            step,
            d,
        ));
        assert(cantor_step(ss, step, d) + cantor_children(s, step, d) =~= cantor_children(
            s,
            step,
            d,
        ));
    } else {
        assert(ss.push(s)[0] == ss[0]);
        assert(ss.push(s).drop_first() =~= ss.drop_first().push(s));
        lemma_cantor_step_snoc(ss.drop_first(), s, step, d);
        assert(cantor_children(ss[0], step, d) + (cantor_step(ss.drop_first(), step, d)
            + cantor_children(s, step, d)) =~= (cantor_children(ss[0], step, d) + cantor_step(
            ss.drop_first(),
            step,
            d,
        )) + cantor_children(s, step, d));
    }
}

/// The pixels of the current generation: each segment drawn as a
/// horizontal line of thickness 3; segments out of range are skipped.
pub open spec fn cantor_paint(
    contents: Seq<u32>,
    w: int,
    h: int,
    ss: Seq<(Vector2, i64)>,
    colour: u32,
) -> Seq<u32>
    decreases ss.len(),
{
    if ss.len() == 0 {
        contents
    } else {
        let s = ss[0];
        let painted = if cseg_in_range(cseg_model(s)) {
            paint_layers(
                contents,
                w,
                h,
                s.0,
                Vector2 { x: (s.0.x + s.1) as i64, y: s.0.y },
                colour,
                3,
            )
        } else {
            contents
        };
        cantor_paint(painted, w, h, ss.drop_first(), colour)
    }
}

/// The Cantor set generator.
pub struct CantorsSet {
    pub segments: Vec<(Vector2, i64)>,
    pub depth: usize,
    pub bound: usize,
    pub step: i64,
}

impl CantorsSet {
    pub open spec fn segments_model(&self) -> Seq<(int, int, int)> {
        self.segments@.map_values(|s: (Vector2, i64)| cseg_model(s))
    }

    pub open spec fn spec_depth(&self) -> int {
        self.depth as int
    }

    pub open spec fn spec_bound(&self) -> int {
        self.bound as int
    }

    pub open spec fn spec_step(&self) -> int {
        self.step as int
    }

    /// Depth bookkeeping stays small and the step non-negative.
    pub open spec fn wf(&self) -> bool {
        &&& self.bound <= 0x10000000
        &&& self.depth <= self.bound
        &&& 0 <= self.step <= COORD_LIMIT
    }

    /// Seed the set with one segment at depth zero.
    pub fn new(origin: Vector2, length: i64, step: i64, bound: usize) -> (r: CantorsSet)
        requires
            vec_in_range(origin),
            0 <= length <= COORD_LIMIT,
            0 <= step <= COORD_LIMIT,
            bound <= 0x10000000,
        ensures
            r.segments_model() == seq![(origin.x as int, origin.y as int, length as int)],
            r.spec_depth() == 0,
            r.spec_bound() == bound,
            r.spec_step() == step,
            r.wf(),
    {
        let mut segments: Vec<(Vector2, i64)> = Vec::new();
        segments.push((origin, length));
        let r = CantorsSet { segments, depth: 0, bound, step };
        proof {
            assert(r.segments_model() =~= seq![(origin.x as int, origin.y as int, length as int)]);
        }
        r
    }

    /// How many segments the current generation holds.
    pub fn segment_count(&self) -> (n: usize)
        ensures
            n == self.segments_model().len(),
    {
        self.segments.len()
    }

    /// The current generation's segments, as (left end, length) pairs.
    pub fn segment_at(&self, i: usize) -> (s: (Vector2, i64))
        requires
            i < self.segments_model().len(),
        ensures
            cseg_model(s) == self.segments_model()[i as int],
    {
        self.segments[i]
    }

    /// Replace the generation by every segment's two children, one
    /// vertical step further down.  Fails, leaving the set unchanged,
    /// when the generation bound is reached or a segment (or a child's
    /// offset) leaves the working range.
    pub fn advance(&mut self) -> (r: Result<(), GeomError>)
        requires
            old(self).wf(),
        ensures
            final(self).wf(),
            r is Ok ==> {
                &&& old(self).spec_depth() < old(self).spec_bound()
                &&& forall|j: int|
                    0 <= j < old(self).segments_model().len() ==> cseg_in_range(
                        #[trigger] old(self).segments_model()[j],
                    ) && cchild_ok(
                        old(self).segments_model()[j],
                        old(self).spec_step(),
                        old(self).spec_depth() + 1,
                    )
                &&& final(self).segments_model() == cantor_step(
                    old(self).segments_model(),
                    old(self).spec_step(),
                    old(self).spec_depth() + 1,
                )
                &&& final(self).spec_depth() == old(self).spec_depth() + 1
            },
            r is Err ==> {
                &&& *final(self) == *old(self)
                &&& (old(self).spec_depth() >= old(self).spec_bound() || exists|j: int|
                    0 <= j < old(self).segments_model().len() && !(cseg_in_range(
                        #[trigger] old(self).segments_model()[j],
                    ) && cchild_ok(
                        old(self).segments_model()[j],
                        old(self).spec_step(),
                        old(self).spec_depth() + 1,
                    )))
            },
            final(self).spec_bound() == old(self).spec_bound(),
            final(self).spec_step() == old(self).spec_step(),
    {
        if self.depth >= self.bound {
            return Err(GeomError::OutOfRange);
        }
        let d: i64 = (self.depth as i64) + 1;
        let ghost dd = d as int;
        let n = self.segments.len();
        let mut next: Vec<(Vector2, i64)> = Vec::new();
        let mut i: usize = 0;
        while i < n
            invariant
                self.wf(),
                self == old(self),
                self.depth < self.bound,
                n == self.segments@.len(),
                i <= n,
                dd == self.spec_depth() + 1,
                d == dd,
                forall|j: int|
                    0 <= j < i ==> cseg_in_range(#[trigger] self.segments_model()[j]) && cchild_ok(
                        self.segments_model()[j],
                        self.spec_step(),
                        dd,
                    ),
                next@.map_values(|s: (Vector2, i64)| cseg_model(s)) == cantor_step(
                    self.segments_model().subrange(0, i as int),
                    self.spec_step(),
                    dd,
                ),
            decreases n - i,
        {
            let (v, len) = self.segments[i];
            if !(-COORD_LIMIT <= v.x && v.x <= COORD_LIMIT && -COORD_LIMIT <= v.y && v.y
                <= COORD_LIMIT && 0 <= len && len <= COORD_LIMIT && -COORD_LIMIT <= v.x + len
                && v.x + len <= COORD_LIMIT) {
                proof {
                    let jw = i as int;
                    assert(!cseg_in_range(self.segments_model()[jw]));
                    assert(exists|j: int|
                        0 <= j < self.segments_model().len() && !(cseg_in_range(
                            #[trigger] self.segments_model()[j],
                        ) && cchild_ok(self.segments_model()[j], self.spec_step(), dd)));
                }
                return Err(GeomError::OutOfRange);
            }
            proof {
                crate::fixed::lemma_mul_bound(
                    self.step as int,
                    d as int,
                    COORD_LIMIT as int,
                    0x10000001,
                );
            }
            let y2w: i128 = (v.y as i128) + (self.step as i128) * (d as i128);
            if !(-COORD_LIMIT as i128 <= y2w && y2w <= COORD_LIMIT as i128) {
                proof {
                    let jw = i as int;
                    assert(!cchild_ok(self.segments_model()[jw], self.spec_step(), dd));
                    assert(exists|j: int|
                        0 <= j < self.segments_model().len() && !(cseg_in_range(
                            #[trigger] self.segments_model()[j],
                        ) && cchild_ok(self.segments_model()[j], self.spec_step(), dd)));
                }
                return Err(GeomError::OutOfRange);
            }
            let y2: i64 = y2w as i64;
            let third: i64 = len / 3;
            let right: i64 = v.x + (2 * len) / 3;
            let c1 = (Vector2 { x: v.x, y: y2 }, third);
            let c2 = (Vector2 { x: right, y: y2 }, third);
            next.push(c1);
            next.push(c2);
            proof {
                crate::fixed::lemma_tdiv_mag(len as int, 3);
                crate::fixed::lemma_tdiv_mag(2 * len as int, 3);
                lemma_cantor_step_snoc(
                    self.segments_model().subrange(0, i as int),
                    self.segments_model()[i as int],
                    self.spec_step(),
                    dd,
                );
                assert(self.segments_model().subrange(0, i as int).push(
                    self.segments_model()[i as int],
                ) =~= self.segments_model().subrange(0, i + 1 as int));
                assert(next@.map_values(|s: (Vector2, i64)| cseg_model(s)) =~= cantor_step(
                    self.segments_model().subrange(0, i + 1 as int),
                    self.spec_step(),
                    dd,
                ));
            }
            i = i + 1;
        }
        proof {
            assert(self.segments_model().subrange(0, n as int) =~= self.segments_model());
        }
        self.segments = next;
        self.depth = self.depth + 1;
        Ok(())
    }

    /// Rasterize the current generation: every in-range segment as a
    /// cerise horizontal line of thickness 3.
    pub fn draw(&self, buf: &mut PixelBuffer)
        requires
            old(buf).wf(),
        ensures
            final(buf).wf(),
            final(buf).spec_width() == old(buf).spec_width(),
            final(buf).spec_height() == old(buf).spec_height(),
            final(buf)@ == cantor_paint(
                old(buf)@,
                old(buf).spec_width(),
                old(buf).spec_height(),
                self.segments@,
                colours::CERISE,
            ),
    {
        let ghost w = old(buf).spec_width();
        let ghost h = old(buf).spec_height();
        let n = self.segments.len();
        let mut i: usize = 0;
        proof {
            assert(self.segments@.subrange(0, n as int) =~= self.segments@);
        }
        while i < n
            invariant
                buf.wf(),
                buf.spec_width() == w,
                buf.spec_height() == h,
                w == old(buf).spec_width(),
                h == old(buf).spec_height(),
                n == self.segments@.len(),
                i <= n,
                cantor_paint(old(buf)@, w, h, self.segments@, colours::CERISE) == cantor_paint(
                    buf@,
                    w,
                    h,
                    self.segments@.subrange(i as int, n as int),
                    colours::CERISE,
                ),
            decreases n - i,
        {
            let (v, len) = self.segments[i];
            let ghost pre = buf@;
            if -COORD_LIMIT <= v.x && v.x <= COORD_LIMIT && -COORD_LIMIT <= v.y && v.y
                <= COORD_LIMIT && 0 <= len && len <= COORD_LIMIT && -COORD_LIMIT <= v.x + len
                && v.x + len <= COORD_LIMIT {
                let end = Vector2 { x: v.x + len, y: v.y };
                draw_line(buf, &v, &end, colours::CERISE, 3);
            }
            proof {
                assert(self.segments@.subrange(i as int, n as int)[0] == self.segments@[i as int]);
                assert(self.segments@.subrange(i as int, n as int).drop_first()
                    =~= self.segments@.subrange(i + 1 as int, n as int));
                assert(cantor_paint(
                    pre,
                    w,
                    h,
                    self.segments@.subrange(i as int, n as int),
                    colours::CERISE,
                ) == cantor_paint(
                    buf@,
                    w,
                    h,
                    self.segments@.subrange(i + 1 as int, n as int),
                    colours::CERISE,
                ));
            }
            i = i + 1;
        }
        proof {
            assert(self.segments@.subrange(n as int, n as int) =~= Seq::<(Vector2, i64)>::empty());
        }
    }
}

} // verus!
