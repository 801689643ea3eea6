//! The stack-based turtle that interprets a rewritten grammar string.
//!
//! `F` draws a branch forward along the composed heading, `+` and `-`
//! turn the heading, `[` opens a branch by saving the turtle's position
//! and heading, and `]` closes it by restoring them — which undoes every
//! turn taken inside the branch, so drawing resumes from the saved
//! orientation.  Closing a branch that was never opened, or reaching
//! the end of the string with branches still open, is a malformed-input
//! error.

use vstd::prelude::*;
use vstd::string::StrSliceExecFns;
use crate::fixed::{ONE, iabs, tdiv};
use crate::matrix::{Growth, growth_wf};
use crate::tree::Branch;
use crate::vector::{Vector2, vec_in_range, COORD_LIMIT};

verus! {

/// Malformed grammar string: the branch brackets do not pair up.
#[derive(Clone, Copy, PartialEq, Eq, Structural, Debug)]
pub enum TurtleError {
    Unbalanced,
}

/// The interpreter state, mirrored at the specification level: the
/// branches drawn so far, the branch the turtle sits on, the heading,
/// the branch stack, and how often a branch was opened and closed.
pub ghost struct TurtleTrace {
    pub branches: Seq<((int, int), (int, int))>,
    pub cur: ((int, int), (int, int)),
    pub heading: (int, int),
    pub stack: Seq<(((int, int), (int, int)), (int, int))>,
    pub pushes: int,
    pub pops: int,
    pub failed: bool,
}

/// Fixed-point composition of two heading pairs.
pub open spec fn gcompose(a: (int, int), b: (int, int)) -> (int, int) {
    (tdiv(a.0 * b.0 - a.1 * b.1, ONE as int), tdiv(a.1 * b.0 + a.0 * b.1, ONE as int))
}

/// Fixed-point application of a heading pair to a vector.
pub open spec fn gapply(g: (int, int), v: (int, int)) -> (int, int) {
    (tdiv(g.0 * v.0 - g.1 * v.1, ONE as int), tdiv(g.1 * v.0 + g.0 * v.1, ONE as int))
}

/// What one symbol does to the turtle.
pub open spec fn turtle_step(st: TurtleTrace, ch: char, rot: (int, int), len: int) -> TurtleTrace {
    if st.failed {
        st
    } else if ch == 'F' {
        let v = gapply(st.heading, (0, -len));
        let nb = (st.cur.1, (st.cur.1.0 + v.0, st.cur.1.1 + v.1));
        TurtleTrace { branches: st.branches.push(nb), cur: nb, ..st }
    } else if ch == '+' {
        TurtleTrace { heading: gcompose(rot, st.heading), ..st }
    } else if ch == '-' {
        TurtleTrace { heading: gcompose((rot.0, -rot.1), st.heading), ..st }
    } else if ch == '[' {
        TurtleTrace { stack: st.stack.push((st.cur, st.heading)), pushes: st.pushes + 1, ..st }
    } else if ch == ']' {
        if st.stack.len() == 0 {
            TurtleTrace { failed: true, ..st }
        } else {
            TurtleTrace {
                stack: st.stack.drop_last(),
                cur: st.stack.last().0,
                heading: st.stack.last().1,
                pops: st.pops + 1,
                ..st
            }
        }
    } else {
        st
    }
}

/// The turtle run over a whole symbol sequence.
pub open spec fn turtle_run(st: TurtleTrace, s: Seq<char>, rot: (int, int), len: int) -> TurtleTrace
    decreases s.len(),
{
    if s.len() == 0 {
        st
    } else {
        turtle_run(turtle_step(st, s[0], rot, len), s.drop_first(), rot, len)
    }
}

/// The state the turtle starts a pass in: one stem branch, the turtle
/// on it, the identity heading, an empty stack.
pub open spec fn turtle_init(stem: ((int, int), (int, int))) -> TurtleTrace {
    TurtleTrace {
        branches: seq![stem],
        cur: stem,
        heading: (ONE as int, 0),
        stack: Seq::empty(),
        pushes: 0,
        pops: 0,
        failed: false,
    }
}

/// How a symbol moves the bracket depth.
pub open spec fn bracket_delta(ch: char) -> int {
    if ch == '[' {
        1
    } else if ch == ']' {
        -1
    } else {
        0
    }
}

/// Net bracket depth over a sequence.
pub open spec fn bracket_sum(s: Seq<char>) -> int
    decreases s.len(),
{
    if s.len() == 0 {
        0
    } else {
        bracket_delta(s[0]) + bracket_sum(s.drop_first())
    }
}

/// Starting from `depth` open branches, no prefix closes more than is open.
pub open spec fn bracket_ok(s: Seq<char>, depth: int) -> bool
    decreases s.len(),
{
    if s.len() == 0 {
        true
    } else {
        let d = depth + bracket_delta(s[0]);
        d >= 0 && bracket_ok(s.drop_first(), d)
    }
}

/// A well-formed bracket string: no early close, all branches closed.
pub open spec fn balanced(s: Seq<char>) -> bool {
    bracket_ok(s, 0) && bracket_sum(s) == 0
}

/// How often a symbol occurs.
pub open spec fn occurrences(s: Seq<char>, ch: char) -> int
    decreases s.len(),
{
    if s.len() == 0 {
        0
    } else {
        (if s[0] == ch {
            1int
        } else {
            0int
        }) + occurrences(s.drop_first(), ch)
    }
}

/// A failed run stays failed.
proof fn lemma_run_sticky(st: TurtleTrace, s: Seq<char>, rot: (int, int), len: int)
    requires
        st.failed,
    ensures
        turtle_run(st, s, rot, len) == st,
    decreases s.len(),
{
    if s.len() > 0 {
        lemma_run_sticky(st, s.drop_first(), rot, len);
    }
}

/// Running one more symbol applies one more step.
proof fn lemma_run_snoc(st: TurtleTrace, s: Seq<char>, ch: char, rot: (int, int), len: int)
    ensures
        turtle_run(st, s.push(ch), rot, len) == turtle_step(turtle_run(st, s, rot, len), ch, rot, len),
    decreases s.len(),
{
    if s.len() == 0 {
        assert(s.push(ch)[0] == ch);
        assert(s.push(ch).drop_first() =~= Seq::<char>::empty());
        assert(turtle_run(st, s, rot, len) == st);
        assert(turtle_run(turtle_step(st, ch, rot, len), Seq::<char>::empty(), rot, len)
            == turtle_step(st, ch, rot, len));
    } else {
        assert(s.push(ch)[0] == s[0]);
        assert(s.push(ch).drop_first() =~= s.drop_first().push(ch));
        lemma_run_snoc(turtle_step(st, s[0], rot, len), s.drop_first(), ch, rot, len);
    }
}

/// The stack discipline of a run: it fails exactly when some prefix
/// closes more branches than are open, and otherwise the stack ends at
/// the starting depth plus the net bracket depth, with one push per
/// bracket opened and one pop per bracket closed.
proof fn lemma_run_stack(st: TurtleTrace, s: Seq<char>, rot: (int, int), len: int)
    requires
        !st.failed,
    ensures
        turtle_run(st, s, rot, len).failed <==> !bracket_ok(s, st.stack.len() as int),
        !turtle_run(st, s, rot, len).failed ==> turtle_run(st, s, rot, len).stack.len()
            == st.stack.len() + bracket_sum(s),
        !turtle_run(st, s, rot, len).failed ==> turtle_run(st, s, rot, len).pushes == st.pushes
            + occurrences(s, '['),
        !turtle_run(st, s, rot, len).failed ==> turtle_run(st, s, rot, len).pops == st.pops
            + occurrences(s, ']'),
    decreases s.len(),
{
    if s.len() > 0 {
        let st2 = turtle_step(st, s[0], rot, len);
        if st2.failed {
            lemma_run_sticky(st2, s.drop_first(), rot, len);
        } else {
            lemma_run_stack(st2, s.drop_first(), rot, len);
        }
    }
}

/// The net bracket depth is the difference of the bracket counts.
proof fn lemma_bracket_sum_counts(s: Seq<char>)
    ensures
        bracket_sum(s) == occurrences(s, '[') - occurrences(s, ']'),
    decreases s.len(),
{
    if s.len() > 0 {
        lemma_bracket_sum_counts(s.drop_first());
    }
}

/// The branch pairing law: on a balanced string the turtle finishes
/// with an empty stack, having opened exactly one branch per `[` and
/// closed exactly one per `]`, and those counts agree.
pub proof fn lemma_turtle_pairing(
    stem: ((int, int), (int, int)),
    s: Seq<char>,
    rot: (int, int),
    len: int,
)
    requires
        balanced(s),
    ensures
        !turtle_run(turtle_init(stem), s, rot, len).failed,
        turtle_run(turtle_init(stem), s, rot, len).stack.len() == 0,
        turtle_run(turtle_init(stem), s, rot, len).pushes == occurrences(s, '['),
        turtle_run(turtle_init(stem), s, rot, len).pops == occurrences(s, ']'),
        occurrences(s, '[') == occurrences(s, ']'),
{
    lemma_run_stack(turtle_init(stem), s, rot, len);
    lemma_bracket_sum_counts(s);
}

/// The model of an executable branch list.
pub open spec fn branches_model(s: Seq<Branch>) -> Seq<((int, int), (int, int))> {
    s.map_values(
        |b: Branch| ((b.start.x as int, b.start.y as int), (b.end.x as int, b.end.y as int)),
    )
}

/// The model of one executable branch.
pub open spec fn branch_model(b: Branch) -> ((int, int), (int, int)) {
    ((b.start.x as int, b.start.y as int), (b.end.x as int, b.end.y as int))
}

/// Interpret a rewritten grammar string, starting from the stem branch
/// with the identity heading.  `rot` is the heading turn of one `+`
/// (a `-` takes the opposite turn) and `len` the forward step.  The
/// call succeeds exactly on strings whose branch brackets balance, and
/// then returns precisely the branches of the turtle run.
pub fn interpret(stem: Branch, sentence: &str, rot: &Growth, len: i64) -> (r: Result<
    Vec<Branch>,
    TurtleError,
>)
    requires
        growth_wf(*rot),
        vec_in_range(stem.start),
        vec_in_range(stem.end),
        0 <= len <= COORD_LIMIT,
        sentence@.len() <= 0x100000,
    ensures
        r is Ok <==> balanced(sentence@),
        r is Ok ==> branches_model(r->Ok_0@) == turtle_run(
            turtle_init(branch_model(stem)),
            sentence@,
            (rot.c as int, rot.s as int),
            len as int,
        ).branches,
        r is Err ==> r->Err_0 == TurtleError::Unbalanced,
{
    let rot_neg = rot.reverse();
    let mut branches: Vec<Branch> = Vec::new();
    branches.push(stem);
    let mut cur: Branch = stem;
    let mut heading: Growth = Growth::identity();
    let mut stack: Vec<(Branch, Growth)> = Vec::new();
    let n = sentence.unicode_len();
    let mut i: usize = 0;
    let ghost rr = (rot.c as int, rot.s as int);
    let ghost ll = len as int;
    let ghost init = turtle_init(branch_model(stem));
    while i < n
        invariant
            growth_wf(*rot),
            rot_neg.c == rot.c,
            rot_neg.s == -rot.s,
            growth_wf(rot_neg),
            rr == (rot.c as int, rot.s as int),
            ll == len as int,
            0 <= len <= COORD_LIMIT,
            n == sentence@.len(),
            n <= 0x100000,
            i <= n,
            init == turtle_init(branch_model(stem)),
            ({
                let gst = turtle_run(init, sentence@.subrange(0, i as int), rr, ll);
                &&& !gst.failed
                &&& gst.branches == branches_model(branches@)
                &&& gst.cur == branch_model(cur)
                &&& gst.heading == (heading.c as int, heading.s as int)
                &&& gst.stack.len() == stack@.len()
                &&& forall|k: int|
                    0 <= k < stack@.len() ==> gst.stack[k] == (
                        branch_model(stack@[k].0),
                        (stack@[k].1.c as int, stack@[k].1.s as int),
                    )
            }),
            growth_wf(heading),
            forall|k: int| 0 <= k < stack@.len() ==> growth_wf(#[trigger] stack@[k].1),
            iabs(cur.end.x as int) <= COORD_LIMIT + i * COORD_LIMIT,
            iabs(cur.end.y as int) <= COORD_LIMIT + i * COORD_LIMIT,
            forall|k: int|
                0 <= k < stack@.len() ==> iabs(#[trigger] stack@[k].0.end.x as int) <= COORD_LIMIT
                    + i * COORD_LIMIT && iabs(stack@[k].0.end.y as int) <= COORD_LIMIT + i
                    * COORD_LIMIT,
        decreases n - i,
    {
        let ch = sentence.get_char(i);
        let ghost pre = turtle_run(init, sentence@.subrange(0, i as int), rr, ll);
        proof {
            lemma_run_snoc(init, sentence@.subrange(0, i as int), ch, rr, ll);
            assert(sentence@.subrange(0, i as int).push(ch) =~= sentence@.subrange(
                0,
                i + 1 as int,
            ));
            assert(COORD_LIMIT + i * COORD_LIMIT + COORD_LIMIT == COORD_LIMIT + (i + 1)
                * COORD_LIMIT) by (nonlinear_arith);
            assert(COORD_LIMIT + i * COORD_LIMIT <= COORD_LIMIT + (i + 1) * COORD_LIMIT)
                by (nonlinear_arith);
            assert(COORD_LIMIT + (i + 1) * COORD_LIMIT <= COORD_LIMIT + 0x100000 * COORD_LIMIT)
                by (nonlinear_arith)
                requires i + 1 <= 0x100000, COORD_LIMIT == 0x10000000000
            ;
        }
        if ch == 'F' {
            let step = Vector2 { x: 0, y: -len };
            let v = heading.apply(&step);
            let nb = Branch {
                start: cur.end,
                end: Vector2 { x: cur.end.x + v.x, y: cur.end.y + v.y },
            };
            branches.push(nb);
            cur = nb;
            proof {
                assert(branches_model(branches@) =~= pre.branches.push(branch_model(nb)));
            }
        } else if ch == '+' {
            heading = rot.compose(&heading);
        } else if ch == '-' {
            heading = rot_neg.compose(&heading);
        } else if ch == '[' {
            stack.push((cur, heading));
        } else if ch == ']' {
            match stack.pop() {
                Some(top) => {
                    cur = top.0;
                    heading = top.1;
                    proof {
                        assert(pre.stack.len() > 0);
                        assert(pre.stack[stack@.len() as int] == (
                            branch_model(top.0),
                            (top.1.c as int, top.1.s as int),
                        ));
                        assert(pre.stack.drop_last() =~= turtle_run(
                            init,
                            sentence@.subrange(0, i + 1 as int),
                            rr,
                            ll,
                        ).stack);
                    }
                },
                None => {
                    proof {
                        let failed_state = turtle_run(init, sentence@.subrange(0, i + 1 as int), rr, ll);
                        assert(failed_state.failed);
                        lemma_extend_to_full(init, sentence@, i + 1 as int, rr, ll);
                        lemma_run_stack(init, sentence@, rr, ll);
                    }
                    return Err(TurtleError::Unbalanced);
                },
            }
        }
        i = i + 1;
    }
    proof {
        assert(sentence@.subrange(0, n as int) =~= sentence@);
        lemma_run_stack(init, sentence@, rr, ll);
    }
    if stack.len() != 0 {
        return Err(TurtleError::Unbalanced);
    }
    Ok(branches)
}

/// A run that has failed on a prefix has failed on the whole string.
proof fn lemma_extend_to_full(st: TurtleTrace, s: Seq<char>, i: int, rot: (int, int), len: int)
    requires
        0 <= i <= s.len(),
        turtle_run(st, s.subrange(0, i), rot, len).failed,
    ensures
        turtle_run(st, s, rot, len).failed,
    decreases s.len() - i,
{
    if i < s.len() {
        lemma_run_snoc(st, s.subrange(0, i), s[i], rot, len);
        assert(s.subrange(0, i).push(s[i]) =~= s.subrange(0, i + 1));
        lemma_extend_to_full(st, s, i + 1, rot, len);
    } else {
        assert(s.subrange(0, i) =~= s);
    }
}

} // verus!
