//! The plain branching tree: every branch grows two children, one per
//! growth map.

use vstd::prelude::*;
use crate::GeomError;
use crate::buffer::PixelBuffer;
use crate::matrix::{Growth, growth_wf};
use crate::tree::{Branch, branch_in_range, branches_paint, doubling_step, draw_branches,
    lemma_doubling_step_snoc};
use crate::turtle::{branch_model, branches_model};
use crate::vector::{Vector2, COORD_LIMIT};

verus! {

/// The simple tree fractal: its current generation of branches, the
/// stem it regrows from, and the two growth maps.
pub struct SimpleTree {
    pub branches: Vec<Branch>,
    pub stem: Branch,
    pub growth_matrix_1: Growth,
    pub growth_matrix_2: Growth,
}

impl SimpleTree {
    pub open spec fn wf(&self) -> bool {
        growth_wf(self.growth_matrix_1) && growth_wf(self.growth_matrix_2)
    }

    /// Seed the tree with its stem.
    pub fn new(stem: Branch, growth_matrix_1: Growth, growth_matrix_2: Growth) -> (r: SimpleTree)
        requires
            growth_wf(growth_matrix_1),
            growth_wf(growth_matrix_2),
        ensures
            r.branches@ == seq![stem],
            r.stem == stem,
            r.growth_matrix_1 == growth_matrix_1,
            r.growth_matrix_2 == growth_matrix_2,
            r.wf(),
    {
        let mut branches: Vec<Branch> = Vec::new();
        branches.push(stem);
        let r = SimpleTree { branches, stem, growth_matrix_1, growth_matrix_2 };
        proof {
            assert(r.branches@ =~= seq![stem]);
        }
        r
    }

    /// Start a fresh tree from the stem under new growth maps.
    pub fn reset(&mut self, growth_matrix_1: Growth, growth_matrix_2: Growth)
        requires
            growth_wf(growth_matrix_1),
            growth_wf(growth_matrix_2),
        ensures
            final(self).branches@ == seq![old(self).stem],
            final(self).stem == old(self).stem,
            final(self).growth_matrix_1 == growth_matrix_1,
            final(self).growth_matrix_2 == growth_matrix_2,
            final(self).wf(),
    {
        let mut branches: Vec<Branch> = Vec::new();
        branches.push(self.stem);
        proof {
            assert(branches@ =~= seq![old(self).stem]);
        }
        self.branches = branches;
        self.growth_matrix_1 = growth_matrix_1;
        self.growth_matrix_2 = growth_matrix_2;
    }

    /// Replace the generation by every branch's two grown children, in
    /// order.  Fails, leaving the tree unchanged, when a branch has
    /// left the working range.
    pub fn generate(&mut self) -> (r: Result<(), GeomError>)
        requires
            old(self).wf(),
        ensures
            final(self).wf(),
            final(self).stem == old(self).stem,
            final(self).growth_matrix_1 == old(self).growth_matrix_1,
            final(self).growth_matrix_2 == old(self).growth_matrix_2,
            r is Ok ==> {
                &&& forall|j: int|
                    0 <= j < old(self).branches@.len() ==> branch_in_range(
                        #[trigger] old(self).branches@[j],
                    )
                &&& branches_model(final(self).branches@) == doubling_step(
                    branches_model(old(self).branches@),
                    (old(self).growth_matrix_1.c as int, old(self).growth_matrix_1.s as int),
                    (old(self).growth_matrix_2.c as int, old(self).growth_matrix_2.s as int),
                )
            },
            r is Err ==> {
                &&& *final(self) == *old(self)
                &&& exists|j: int|
                    0 <= j < old(self).branches@.len() && !branch_in_range(
                        #[trigger] old(self).branches@[j],
                    )
            },
    {
        let ghost m1 = (self.growth_matrix_1.c as int, self.growth_matrix_1.s as int);
        let ghost m2 = (self.growth_matrix_2.c as int, self.growth_matrix_2.s as int);
        let n = self.branches.len();
        let mut next: Vec<Branch> = Vec::new();
        let mut i: usize = 0;
        while i < n
            invariant
                self == old(self),
                self.wf(),
                m1 == (self.growth_matrix_1.c as int, self.growth_matrix_1.s as int),
                m2 == (self.growth_matrix_2.c as int, self.growth_matrix_2.s as int),
                n == self.branches@.len(),
                i <= n,
                forall|j: int| 0 <= j < i ==> branch_in_range(#[trigger] self.branches@[j]),
                branches_model(next@) == doubling_step(
                    branches_model(self.branches@).subrange(0, i as int),
                    m1,
                    m2,
                ),
            decreases n - i,
        {
            let b = self.branches[i];
            if !(-COORD_LIMIT <= b.start.x && b.start.x <= COORD_LIMIT && -COORD_LIMIT <= b.start.y
                && b.start.y <= COORD_LIMIT && -COORD_LIMIT <= b.end.x && b.end.x <= COORD_LIMIT
                && -COORD_LIMIT <= b.end.y && b.end.y <= COORD_LIMIT) {
                proof {
                    assert(!branch_in_range(self.branches@[i as int]));
                    assert(exists|j: int|
                        0 <= j < self.branches@.len() && !branch_in_range(
                            #[trigger] self.branches@[j],
                        ));
                }
                return Err(GeomError::OutOfRange);
            }
            let c1 = b.grow(&self.growth_matrix_1);
            let c2 = b.grow(&self.growth_matrix_2);
            next.push(c1);
            next.push(c2);
            proof {
                lemma_doubling_step_snoc(
                    branches_model(self.branches@).subrange(0, i as int),
                    branches_model(self.branches@)[i as int],
                    m1,
                    m2,
                );
                assert(branches_model(self.branches@).subrange(0, i as int).push(
                    branches_model(self.branches@)[i as int],
                ) =~= branches_model(self.branches@).subrange(0, i + 1 as int));
                assert(branch_model(c1) == crate::tree::grow_model(
                    branches_model(self.branches@)[i as int],
                    m1,
                ));
                assert(branch_model(c2) == crate::tree::grow_model(
                    branches_model(self.branches@)[i as int],
                    m2,
                ));
                assert(branches_model(next@) =~= doubling_step(
                    branches_model(self.branches@).subrange(0, i + 1 as int),
                    m1,
                    m2,
                ));
            }
            i = i + 1;
        }
        proof {
            assert(branches_model(self.branches@).subrange(0, n as int) =~= branches_model(
                self.branches@,
            ));
        }
        self.branches = next;
        Ok(())
    }

    /// Rasterize the current generation.
    pub fn draw(&self, buf: &mut PixelBuffer, colour: u32, thickness: usize)
        requires
            old(buf).wf(),
            thickness <= 0x100000,
        ensures
            final(buf).wf(),
            final(buf).spec_width() == old(buf).spec_width(),
            final(buf).spec_height() == old(buf).spec_height(),
            final(buf)@ == branches_paint(
                old(buf)@,
                old(buf).spec_width(),
                old(buf).spec_height(),
                self.branches@,
                colour,
                thickness as int,
            ),
    {
        draw_branches(buf, &self.branches, colour, thickness);
    }
}

} // verus!
