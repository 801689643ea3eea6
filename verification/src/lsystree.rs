//! The grammar-driven tree: a rewriting grammar grows the sentence,
//! and the stack-based turtle interprets it into branches.  The step
//! length shrinks by a fixed ratio after each full pass.

use vstd::prelude::*;
use vstd::string::StringExecFns;
use crate::buffer::PixelBuffer;
use crate::colours;
use crate::fixed::{ONE, tdiv, fp_mul, lemma_tdiv_mag};
use crate::grammar::{LSystem, expand};
use crate::matrix::{Growth, growth_wf};
use crate::tree::{Branch, branch_in_range, branches_paint, draw_branches};
use crate::turtle::{TurtleError, balanced, branch_model, branches_model, interpret, turtle_init,
    turtle_run};
use crate::vector::{vec_in_range, COORD_LIMIT};

verus! {

/// The grammar tree: the current branches, the grammar, the turtle
/// parameters, and the per-pass length decay.
pub struct LSystemTree {
    pub branches: Vec<Branch>,
    pub rules: LSystem,
    pub stem: Branch,
    pub rot: Growth,
    pub length: i64,
    pub decay: i64,
}

impl LSystemTree {
    pub open spec fn wf(&self) -> bool {
        &&& self.rules.wf()
        &&& growth_wf(self.rot)
        &&& vec_in_range(self.stem.start)
        &&& vec_in_range(self.stem.end)
        &&& 0 <= self.length <= COORD_LIMIT
        &&& 0 <= self.decay <= ONE
    }

    /// Build the tree with the classic bushy rewriting rule for `F`.
    pub fn new(stem: Branch, rot: Growth, length: i64, decay: i64) -> (r: LSystemTree)
        requires
            growth_wf(rot),
            vec_in_range(stem.start),
            vec_in_range(stem.end),
            0 <= length <= COORD_LIMIT,
            0 <= decay <= ONE,
        ensures
            r.branches@ == seq![stem],
            r.rules@ == Map::<char, Seq<char>>::empty().insert('F', "-F+F+[+F+F-FF]-[-FF-F+F]"@),
            r.stem == stem,
            r.rot == rot,
            r.length == length,
            r.decay == decay,
            r.wf(),
    {
        let mut rules = LSystem::new();
        rules.add_rule('F', String::from_str("-F+F+[+F+F-FF]-[-FF-F+F]"));
        let mut branches: Vec<Branch> = Vec::new();
        branches.push(stem);
        let r = LSystemTree { branches, rules, stem, rot, length, decay };
        proof {
            assert(r.branches@ =~= seq![stem]);
        }
        r
    }

    /// One grammar pass over a sentence.
    pub fn rewrite(&self, input: String) -> (output: String)
        requires
            self.wf(),
        ensures
            output@ == expand(self.rules@, input@),
    {
        self.rules.generate(input)
    }

    /// Interpret a rewritten sentence into a fresh set of branches and
    /// shrink the step length for the next pass.  The pass succeeds
    /// exactly when the sentence's branch brackets balance; a
    /// malformed sentence leaves the tree unchanged.
    pub fn generate(&mut self, sentence: &str) -> (r: Result<(), TurtleError>)
        requires
            old(self).wf(),
            sentence@.len() <= 0x100000,
        ensures
            final(self).wf(),
            r is Ok <==> balanced(sentence@),
            r is Ok ==> {
                &&& branches_model(final(self).branches@) == turtle_run(
                    turtle_init(branch_model(old(self).stem)),
                    sentence@,
                    (old(self).rot.c as int, old(self).rot.s as int),
                    old(self).length as int,
                ).branches
                &&& final(self).length == tdiv(
                    old(self).length * old(self).decay,
                    ONE as int,
                )
                &&& final(self).stem == old(self).stem
                &&& final(self).rot == old(self).rot
                &&& final(self).rules == old(self).rules
                &&& final(self).decay == old(self).decay
            },
            r is Err ==> *final(self) == *old(self),
            r is Err ==> r->Err_0 == TurtleError::Unbalanced,
    {
        match interpret(self.stem, sentence, &self.rot, self.length) {
            Ok(branches) => {
                proof {
                    crate::fixed::lemma_mul_bound(
                        self.length as int,
                        self.decay as int,
                        COORD_LIMIT as int,
                        ONE as int,
                    );
                    assert(self.length * self.decay >= 0) by (nonlinear_arith)
                        requires self.length >= 0, self.decay >= 0
                    ;
                    lemma_tdiv_mag(self.length * self.decay, ONE as int);
                }
                self.branches = branches;
                self.length = fp_mul(self.length, self.decay);
                Ok(())
            },
            Err(e) => Err(e),
        }
    }

    /// Rasterize the current branches in white, one pixel thick.
    pub fn draw(&self, buf: &mut PixelBuffer)
        requires
            old(buf).wf(),
        ensures
            final(buf).wf(),
            final(buf).spec_width() == old(buf).spec_width(),
            final(buf).spec_height() == old(buf).spec_height(),
            final(buf)@ == branches_paint(
                old(buf)@,
                old(buf).spec_width(),
                old(buf).spec_height(),
                self.branches@,
                colours::WHITE,
                1,
            ),
    {
        draw_branches(buf, &self.branches, colours::WHITE, 1);
    }
}

} // verus!
