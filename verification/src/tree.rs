//! Branching segments: the building blocks of the tree families.

use vstd::prelude::*;
use crate::buffer::PixelBuffer;
use crate::fixed::{ONE, iabs, tdiv};
use crate::matrix::{Growth, growth_wf};
use crate::raster::{paint_layers, draw_line};
use crate::vector::{Vector2, vec_in_range, COORD_LIMIT};

verus! {

/// One branch of a tree: a directed segment.
#[derive(Clone, Copy, PartialEq, Eq, Structural, Debug)]
pub struct Branch {
    pub start: Vector2,
    pub end: Vector2,
}

impl Branch {
    pub fn new(start: Vector2, end: Vector2) -> (b: Branch)
        ensures
            b.start == start,
            b.end == end,
    {
        Branch { start, end }
    }

    /// The child branch: it starts at this branch's end and extends it
    /// by the growth map applied to this branch's vector.
    pub fn grow(&self, growth: &Growth) -> (b: Branch)
        requires
            growth_wf(*growth),
            vec_in_range(self.start),
            vec_in_range(self.end),
        ensures
            b.start == self.end,
            b.end.x == self.end.x + tdiv(
                growth.c * (self.end.x - self.start.x) - growth.s * (self.end.y - self.start.y),
                ONE as int,
            ),
            b.end.y == self.end.y + tdiv(
                growth.s * (self.end.x - self.start.x) + growth.c * (self.end.y - self.start.y),
                ONE as int,
            ),
            iabs(b.end.x as int) <= 5 * COORD_LIMIT,
            iabs(b.end.y as int) <= 5 * COORD_LIMIT,
    {
        let vx = self.end.x - self.start.x;
        let vy = self.end.y - self.start.y;
        proof {
            crate::matrix::lemma_growth_entry_bound(*growth);
            crate::fixed::lemma_mul_bound(growth.c as int, vx as int, ONE as int, 2 * COORD_LIMIT as int);
            crate::fixed::lemma_mul_bound(growth.s as int, vy as int, ONE as int, 2 * COORD_LIMIT as int);
            crate::fixed::lemma_mul_bound(growth.s as int, vx as int, ONE as int, 2 * COORD_LIMIT as int);
            crate::fixed::lemma_mul_bound(growth.c as int, vy as int, ONE as int, 2 * COORD_LIMIT as int);
            crate::fixed::lemma_tdiv_mag(
                growth.c * vx - growth.s * vy,
                ONE as int,
            );
            crate::fixed::lemma_tdiv_mag(
                growth.s * vx + growth.c * vy,
                ONE as int,
            );
        }
        let gx: i128 = (growth.c as i128) * (vx as i128) - (growth.s as i128) * (vy as i128);
        let gy: i128 = (growth.s as i128) * (vx as i128) + (growth.c as i128) * (vy as i128);
        let dx = (gx / 65536) as i64;
        let dy = (gy / 65536) as i64;
        Branch { start: self.end, end: Vector2 { x: self.end.x + dx, y: self.end.y + dy } }
    }
}

/// Whether both ends of a branch lie in the working range.
pub open spec fn branch_in_range(b: Branch) -> bool {
    vec_in_range(b.start) && vec_in_range(b.end)
}

/// The pixels of a branch list: each in-range branch drawn as a line
/// of the given thickness, in order.
pub open spec fn branches_paint(
    contents: Seq<u32>,
    w: int,
    h: int,
    bs: Seq<Branch>,
    colour: u32,
    thickness: int,
) -> Seq<u32>
    decreases bs.len(),
{
    if bs.len() == 0 {
        contents
    } else {
        let painted = if branch_in_range(bs[0]) {
            paint_layers(contents, w, h, bs[0].start, bs[0].end, colour, thickness)
        } else {
            contents
        };
        branches_paint(painted, w, h, bs.drop_first(), colour, thickness)
    }
}

/// Draw every in-range branch of the list.
pub fn draw_branches(
    buf: &mut PixelBuffer,
    branches: &Vec<Branch>,
    colour: u32,
    thickness: usize,
)
    requires
        old(buf).wf(),
        thickness <= 0x100000,
    ensures
        final(buf).wf(),
        final(buf).spec_width() == old(buf).spec_width(),
        final(buf).spec_height() == old(buf).spec_height(),
        final(buf)@ == branches_paint(
            old(buf)@,
            old(buf).spec_width(),
            old(buf).spec_height(),
            branches@,
            colour,
            thickness as int,
        ),
{
    let ghost w = old(buf).spec_width();
    let ghost h = old(buf).spec_height();
    let n = branches.len();
    let mut i: usize = 0;
    proof {
        assert(branches@.subrange(0, n as int) =~= branches@);
    }
    while i < n
        invariant
            buf.wf(),
            buf.spec_width() == w,
            buf.spec_height() == h,
            w == old(buf).spec_width(),
            h == old(buf).spec_height(),
            n == branches@.len(),
            i <= n,
            thickness <= 0x100000,
            branches_paint(old(buf)@, w, h, branches@, colour, thickness as int)
                == branches_paint(
                buf@,
                w,
                h,
                branches@.subrange(i as int, n as int),
                colour,
                thickness as int,
            ),
        decreases n - i,
    {
        let b = branches[i];
        let ghost pre = buf@;
        if -COORD_LIMIT <= b.start.x && b.start.x <= COORD_LIMIT && -COORD_LIMIT <= b.start.y
            && b.start.y <= COORD_LIMIT && -COORD_LIMIT <= b.end.x && b.end.x <= COORD_LIMIT
            && -COORD_LIMIT <= b.end.y && b.end.y <= COORD_LIMIT {
            draw_line(buf, &b.start, &b.end, colour, thickness);
        }
        proof {
            assert(branches@.subrange(i as int, n as int)[0] == branches@[i as int]);
            assert(branches@.subrange(i as int, n as int).drop_first() =~= branches@.subrange(
                i + 1 as int,
                n as int,
            ));
            assert(branches_paint(
                pre,
                w,
                h,
                branches@.subrange(i as int, n as int),
                colour,
                thickness as int,
            ) == branches_paint(
                buf@,
                w,
                h,
                branches@.subrange(i + 1 as int, n as int),
                colour,
                thickness as int,
            ));
        }
        i = i + 1;
    }
    proof {
        assert(branches@.subrange(n as int, n as int) =~= Seq::<Branch>::empty());
    }
}

/// The model of one branch as integer pairs (shared with the turtle).
pub open spec fn grow_model(b: ((int, int), (int, int)), g: (int, int)) -> (
    (int, int),
    (int, int),
) {
    let vx = b.1.0 - b.0.0;
    let vy = b.1.1 - b.0.1;
    (
        b.1,
        (
            b.1.0 + tdiv(g.0 * vx - g.1 * vy, ONE as int),
            b.1.1 + tdiv(g.1 * vx + g.0 * vy, ONE as int),
        ),
    )
}

/// One branch-doubling step: every branch yields its two children, one
/// grown by each map, in order.
pub open spec fn doubling_step(
    bs: Seq<((int, int), (int, int))>,
    g1: (int, int),
    g2: (int, int),
) -> Seq<((int, int), (int, int))>
    decreases bs.len(),
{
    if bs.len() == 0 {
        Seq::empty()
    } else {
        seq![grow_model(bs[0], g1), grow_model(bs[0], g2)] + doubling_step(
            bs.drop_first(),
            g1,
            g2,
        )
    }
}

pub proof fn lemma_doubling_step_snoc(
    bs: Seq<((int, int), (int, int))>,
    b: ((int, int), (int, int)),
    g1: (int, int),
    g2: (int, int),
)
    ensures
        doubling_step(bs.push(b), g1, g2) == doubling_step(bs, g1, g2) + seq![
            grow_model(b, g1),
            grow_model(b, g2),
        ],
    decreases bs.len(),
{
    if bs.len() == 0 {
        assert(bs.push(b)[0] == b);
        assert(bs.push(b).drop_first() =~= Seq::<((int, int), (int, int))>::empty());
        assert(doubling_step(Seq::<((int, int), (int, int))>::empty(), g1, g2) == Seq::<
            ((int, int), (int, int)),
        >::empty());
        assert(seq![grow_model(b, g1), grow_model(b, g2)] + Seq::<
            ((int, int), (int, int)),
        >::empty() =~= seq![grow_model(b, g1), grow_model(b, g2)]);
        assert(doubling_step(bs, g1, g2) + seq![grow_model(b, g1), grow_model(b, g2)] =~= seq![
            grow_model(b, g1),
            grow_model(b, g2),
        ]);
    } else {
        assert(bs.push(b)[0] == bs[0]);
        assert(bs.push(b).drop_first() =~= bs.drop_first().push(b));
        lemma_doubling_step_snoc(bs.drop_first(), b, g1, g2);
        assert(seq![grow_model(bs[0], g1), grow_model(bs[0], g2)] + (doubling_step(
            bs.drop_first(),
            g1,
            g2,
        ) + seq![grow_model(b, g1), grow_model(b, g2)]) =~= (seq![
            grow_model(bs[0], g1),
            grow_model(bs[0], g2),
        ] + doubling_step(bs.drop_first(), g1, g2)) + seq![grow_model(b, g1), grow_model(b, g2)]);
    }
}

} // verus!
