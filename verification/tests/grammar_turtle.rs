use fractals::fixed::ONE;
use fractals::grammar::LSystem;
use fractals::matrix::Growth;
use fractals::tree::Branch;
use fractals::turtle::{interpret, TurtleError};
use fractals::vector::Vector2;

#[test]
fn grammar_rewrites_mapped_symbols_only() {
    let mut g = LSystem::new();
    g.add_rule('F', String::from("F+F"));
    assert_eq!(g.generate(String::from("F")), "F+F");
    assert_eq!(g.generate(String::from("aFb")), "aF+Fb");
    assert_eq!(g.generate(String::from("")), "");
}

#[test]
fn grammar_without_matching_rules_is_the_identity() {
    let mut g = LSystem::new();
    g.add_rule('X', String::from("XX"));
    assert_eq!(g.generate(String::from("F+[-F]")), "F+[-F]");
    let empty = LSystem::new();
    assert_eq!(empty.generate(String::from("anything")), "anything");
}

#[test]
fn grammar_overwrites_a_repeated_rule() {
    let mut g = LSystem::new();
    g.add_rule('F', String::from("AA"));
    g.add_rule('F', String::from("B"));
    assert_eq!(g.generate(String::from("FF")), "BB");
}

#[test]
fn grammar_expansion_grows_the_bushy_rule() {
    let mut g = LSystem::new();
    g.add_rule('F', String::from("-F+F+[+F+F-FF]-[-FF-F+F]"));
    let one = g.generate(String::from("F"));
    assert_eq!(one, "-F+F+[+F+F-FF]-[-FF-F+F]");
    let two = g.generate(one.clone());
    assert!(two.chars().count() >= one.chars().count());
}

fn stem() -> Branch {
    Branch::new(Vector2::new(0, 0), Vector2::new(0, 0))
}

#[test]
fn turtle_draws_one_branch_per_forward_step() {
    let rot = Growth::new(0, ONE).unwrap();
    let branches = interpret(stem(), "FF", &rot, ONE).unwrap();
    assert_eq!(branches.len(), 3);
    assert_eq!((branches[1].start.x, branches[1].start.y), (0, 0));
    assert_eq!((branches[1].end.x, branches[1].end.y), (0, -ONE));
    assert_eq!((branches[2].end.x, branches[2].end.y), (0, -2 * ONE));
}

#[test]
fn turtle_branch_restores_position_and_heading() {
    // one push/pop pair: the branch turns a quarter, and after the
    // close the turtle resumes from the pre-branch spot, unturned
    let rot = Growth::new(0, ONE).unwrap();
    let branches = interpret(stem(), "F[+F]F", &rot, ONE).unwrap();
    assert_eq!(branches.len(), 4);
    // trunk
    assert_eq!((branches[1].end.x, branches[1].end.y), (0, -ONE));
    // the turned branch moves sideways
    assert_eq!((branches[2].start.x, branches[2].start.y), (0, -ONE));
    assert_eq!((branches[2].end.x, branches[2].end.y), (ONE, -ONE));
    // after the close, drawing resumes at the trunk's tip, heading up
    assert_eq!((branches[3].start.x, branches[3].start.y), (0, -ONE));
    assert_eq!((branches[3].end.x, branches[3].end.y), (0, -2 * ONE));
}

#[test]
fn turtle_rejects_an_unopened_close() {
    let rot = Growth::new(ONE, 0).unwrap();
    assert_eq!(interpret(stem(), "F]", &rot, ONE), Err(TurtleError::Unbalanced));
}

#[test]
fn turtle_rejects_an_unclosed_branch() {
    let rot = Growth::new(ONE, 0).unwrap();
    assert_eq!(interpret(stem(), "F[F", &rot, ONE), Err(TurtleError::Unbalanced));
}

#[test]
fn turtle_ignores_unknown_symbols() {
    let rot = Growth::new(ONE, 0).unwrap();
    let branches = interpret(stem(), "xFz", &rot, ONE).unwrap();
    assert_eq!(branches.len(), 2);
}
