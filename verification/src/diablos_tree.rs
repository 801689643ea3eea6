//! The animated branching tree: generations grow by branch doubling,
//! each depth draws in its own theme colour with thinning strokes, and
//! the final depth sprouts circular leaves sized by branch length.

use vstd::prelude::*;
use crate::GeomError;
use crate::buffer::PixelBuffer;
use crate::colours;
use crate::fixed::sqrt_floor;
use crate::matrix::{Growth, growth_wf};
use crate::raster::{paint, circle_points, draw_circle, RAD_LIMIT};
use crate::tree::{Branch, branch_in_range, branches_paint, doubling_step, draw_branches,
    lemma_doubling_step_snoc};
use crate::turtle::{branch_model, branches_model};
use crate::vector::{Vector2, COORD_LIMIT};

verus! {

/// The leaf radius of a branch: the branch vector's rounded length.
pub open spec fn leaf_radius(b: Branch) -> int {
    sqrt_floor(
        (b.end.x - b.start.x) * (b.end.x - b.start.x) + (b.end.y - b.start.y) * (b.end.y
            - b.start.y),
    )
}

/// The pixels of the leaves: a red circle at each in-range branch's
/// start whose radius fits the raster bound.
pub open spec fn leaves_paint(contents: Seq<u32>, w: int, h: int, bs: Seq<Branch>) -> Seq<u32>
    decreases bs.len(),
{
    if bs.len() == 0 {
        contents
    } else {
        let b = bs[0];
        let painted = if branch_in_range(b) && leaf_radius(b) <= RAD_LIMIT {
            paint(
                contents,
                w,
                h,
                circle_points(b.start.x as int, b.start.y as int, leaf_radius(b)),
                colours::RED,
            )
        } else {
            contents
        };
        leaves_paint(painted, w, h, bs.drop_first())
    }
}

/// The rotating tree fractal: the current generation, its depth, the
/// depth bound, and the two growth maps of the season.
pub struct DiablosTree {
    pub branches: Vec<Branch>,
    pub stem: Branch,
    pub growth_matrix_1: Growth,
    pub growth_matrix_2: Growth,
    pub depth: usize,
    pub bound: usize,
}

impl DiablosTree {
    pub open spec fn wf(&self) -> bool {
        &&& growth_wf(self.growth_matrix_1)
        &&& growth_wf(self.growth_matrix_2)
        &&& self.bound <= 0x100000
        &&& self.depth <= self.bound
    }

    /// Seed the tree with its stem at depth zero.
    pub fn new(stem: Branch, growth_matrix_1: Growth, growth_matrix_2: Growth, bound: usize) -> (r:
        DiablosTree)
        requires
            growth_wf(growth_matrix_1),
            growth_wf(growth_matrix_2),
            bound <= 0x100000,
        ensures
            r.branches@ == seq![stem],
            r.stem == stem,
            r.growth_matrix_1 == growth_matrix_1,
            r.growth_matrix_2 == growth_matrix_2,
            r.depth == 0,
            r.bound == bound,
            r.wf(),
    {
        let mut branches: Vec<Branch> = Vec::new();
        branches.push(stem);
        let r = DiablosTree { branches, stem, growth_matrix_1, growth_matrix_2, depth: 0, bound };
        proof {
            assert(r.branches@ =~= seq![stem]);
        }
        r
    }

    /// Start a fresh tree from the stem under new growth maps.
    pub fn reset(&mut self, growth_matrix_1: Growth, growth_matrix_2: Growth)
        requires
            old(self).wf(),
            growth_wf(growth_matrix_1),
            growth_wf(growth_matrix_2),
        ensures
            final(self).branches@ == seq![old(self).stem],
            final(self).stem == old(self).stem,
            final(self).growth_matrix_1 == growth_matrix_1,
            final(self).growth_matrix_2 == growth_matrix_2,
            final(self).depth == 0,
            final(self).bound == old(self).bound,
            final(self).wf(),
    {
        let mut branches: Vec<Branch> = Vec::new();
        branches.push(self.stem);
        proof {
            assert(branches@ =~= seq![old(self).stem]);
        }
        self.branches = branches;
        self.growth_matrix_1 = growth_matrix_1;
        self.growth_matrix_2 = growth_matrix_2;
        self.depth = 0;
    }

    /// Grow one depth: every branch yields its two children.  Fails,
    /// leaving the tree unchanged, at the depth bound or when a branch
    /// has left the working range.
    pub fn advance(&mut self) -> (r: Result<(), GeomError>)
        requires
            old(self).wf(),
        ensures
            final(self).wf(),
            final(self).stem == old(self).stem,
            final(self).growth_matrix_1 == old(self).growth_matrix_1,
            final(self).growth_matrix_2 == old(self).growth_matrix_2,
            final(self).bound == old(self).bound,
            r is Ok ==> {
                &&& old(self).depth < old(self).bound
                &&& forall|j: int|
                    0 <= j < old(self).branches@.len() ==> branch_in_range(
                        #[trigger] old(self).branches@[j],
                    )
                &&& branches_model(final(self).branches@) == doubling_step(
                    branches_model(old(self).branches@),
                    (old(self).growth_matrix_1.c as int, old(self).growth_matrix_1.s as int),
                    (old(self).growth_matrix_2.c as int, old(self).growth_matrix_2.s as int),
                )
                &&& final(self).depth == old(self).depth + 1
            },
            r is Err ==> {
                &&& *final(self) == *old(self)
                &&& (old(self).depth >= old(self).bound || exists|j: int|
                    0 <= j < old(self).branches@.len() && !branch_in_range(
                        #[trigger] old(self).branches@[j],
                    ))
            },
    {
        if self.depth >= self.bound {
            return Err(GeomError::OutOfRange);
        }
        let ghost m1 = (self.growth_matrix_1.c as int, self.growth_matrix_1.s as int);
        let ghost m2 = (self.growth_matrix_2.c as int, self.growth_matrix_2.s as int);
        let n = self.branches.len();
        let mut next: Vec<Branch> = Vec::new();
        let mut i: usize = 0;
        while i < n
            invariant
                self == old(self),
                self.wf(),
                self.depth < self.bound,
                m1 == (self.growth_matrix_1.c as int, self.growth_matrix_1.s as int),
                m2 == (self.growth_matrix_2.c as int, self.growth_matrix_2.s as int),
                n == self.branches@.len(),
                i <= n,
                forall|j: int| 0 <= j < i ==> branch_in_range(#[trigger] self.branches@[j]),
                branches_model(next@) == doubling_step(
                    branches_model(self.branches@).subrange(0, i as int),
                    m1,
                    m2,
                ),
            decreases n - i,
        {
            let b = self.branches[i];
            if !(-COORD_LIMIT <= b.start.x && b.start.x <= COORD_LIMIT && -COORD_LIMIT <= b.start.y
                && b.start.y <= COORD_LIMIT && -COORD_LIMIT <= b.end.x && b.end.x <= COORD_LIMIT
                && -COORD_LIMIT <= b.end.y && b.end.y <= COORD_LIMIT) {
                proof {
                    assert(!branch_in_range(self.branches@[i as int]));
                    assert(exists|j: int|
                        0 <= j < self.branches@.len() && !branch_in_range(
                            #[trigger] self.branches@[j],
                        ));
                }
                return Err(GeomError::OutOfRange);
            }
            let c1 = b.grow(&self.growth_matrix_1);
            let c2 = b.grow(&self.growth_matrix_2);
            next.push(c1);
            next.push(c2);
            proof {
                lemma_doubling_step_snoc(
                    branches_model(self.branches@).subrange(0, i as int),
                    branches_model(self.branches@)[i as int],
                    m1,
                    m2,
                );
                assert(branches_model(self.branches@).subrange(0, i as int).push(
                    branches_model(self.branches@)[i as int],
                ) =~= branches_model(self.branches@).subrange(0, i + 1 as int));
                assert(branch_model(c1) == crate::tree::grow_model(
                    branches_model(self.branches@)[i as int],
                    m1,
                ));
                assert(branch_model(c2) == crate::tree::grow_model(
                    branches_model(self.branches@)[i as int],
                    m2,
                ));
                assert(branches_model(next@) =~= doubling_step(
                    branches_model(self.branches@).subrange(0, i + 1 as int),
                    m1,
                    m2,
                ));
            }
            i = i + 1;
        }
        proof {
            assert(branches_model(self.branches@).subrange(0, n as int) =~= branches_model(
                self.branches@,
            ));
        }
        self.branches = next;
        self.depth = self.depth + 1;
        Ok(())
    }

    /// Rasterize the current generation in its depth's theme colour,
    /// with strokes thinning toward the crown.
    pub fn draw(&self, buf: &mut PixelBuffer)
        requires
            old(buf).wf(),
            self.wf(),
        ensures
            final(buf).wf(),
            final(buf).spec_width() == old(buf).spec_width(),
            final(buf).spec_height() == old(buf).spec_height(),
            final(buf)@ == branches_paint(
                old(buf)@,
                old(buf).spec_width(),
                old(buf).spec_height(),
                self.branches@,
                crate::colours::light_theme_at(self.depth as int),
                self.bound - self.depth,
            ),
    {
        let colour = crate::colours::light_theme(self.depth);
        draw_branches(buf, &self.branches, colour, self.bound - self.depth);
    }

    /// Rasterize the leaves: a red circle at each branch's start, the
    /// branch's length as its radius.
    pub fn draw_leaves(&self, buf: &mut PixelBuffer)
        requires
            old(buf).wf(),
        ensures
            final(buf).wf(),
            final(buf).spec_width() == old(buf).spec_width(),
            final(buf).spec_height() == old(buf).spec_height(),
            final(buf)@ == leaves_paint(
                old(buf)@,
                old(buf).spec_width(),
                old(buf).spec_height(),
                self.branches@,
            ),
    {
        let ghost w = old(buf).spec_width();
        let ghost h = old(buf).spec_height();
        let n = self.branches.len();
        let mut i: usize = 0;
        proof {
            assert(self.branches@.subrange(0, n as int) =~= self.branches@);
        }
        while i < n
            invariant
                buf.wf(),
                buf.spec_width() == w,
                buf.spec_height() == h,
                w == old(buf).spec_width(),
                h == old(buf).spec_height(),
                n == self.branches@.len(),
                i <= n,
                leaves_paint(old(buf)@, w, h, self.branches@) == leaves_paint(
                    buf@,
                    w,
                    h,
                    self.branches@.subrange(i as int, n as int),
                ),
            decreases n - i,
        {
            let b = self.branches[i];
            let ghost pre = buf@;
            if -COORD_LIMIT <= b.start.x && b.start.x <= COORD_LIMIT && -COORD_LIMIT <= b.start.y
                && b.start.y <= COORD_LIMIT && -COORD_LIMIT <= b.end.x && b.end.x <= COORD_LIMIT
                && -COORD_LIMIT <= b.end.y && b.end.y <= COORD_LIMIT {
                let v = Vector2 { x: b.end.x - b.start.x, y: b.end.y - b.start.y };
                let radius = v.norm();
                if radius <= RAD_LIMIT {
                    draw_circle(buf, &b.start, radius, colours::RED);
                }
            }
            proof {
                assert(self.branches@.subrange(i as int, n as int)[0] == self.branches@[i as int]);
                assert(self.branches@.subrange(i as int, n as int).drop_first()
                    =~= self.branches@.subrange(i + 1 as int, n as int));
                assert(leaves_paint(pre, w, h, self.branches@.subrange(i as int, n as int))
                    == leaves_paint(buf@, w, h, self.branches@.subrange(i + 1 as int, n as int)));
            }
            i = i + 1;
        }
        proof {
            assert(self.branches@.subrange(n as int, n as int) =~= Seq::<Branch>::empty());
        }
    }
}

} // verus!
