use fractals::buffer::PixelBuffer;
use fractals::cantor::CantorsSet;
use fractals::circle_line::CircleLine;
use fractals::circle_space::CircleSpace;
use fractals::colours;
use fractals::diablos_tree::DiablosTree;
use fractals::fixed::ONE;
use fractals::koch::{Koch, KochLine};
use fractals::lsystree::LSystemTree;
use fractals::mandelbrot::{escape_time, get_colour, Mandelbrot};
use fractals::matrix::Growth;
use fractals::sierpinski::{equilateral_apex, SierpinskiTriangle, Triangle};
use fractals::simple_tree::SimpleTree;
use fractals::tree::Branch;
use fractals::vector::{Vector2, COORD_LIMIT};

#[test]
fn cantor_first_step_yields_the_outer_thirds() {
    // a segment of length 81 at depth 0: one step gives two segments
    // of length 27, dropped by exactly one step unit
    let origin = Vector2::new(0, 100);
    let mut set = CantorsSet::new(origin, 81, 20, 8);
    set.advance().unwrap();
    assert_eq!(set.segment_count(), 2);
    let (left, llen) = set.segment_at(0);
    let (right, rlen) = set.segment_at(1);
    assert_eq!(llen, 27);
    assert_eq!(rlen, 27);
    assert_eq!((left.x, left.y), (0, 120));
    assert_eq!((right.x, right.y), (54, 120));
}

#[test]
fn cantor_stops_at_its_depth_bound() {
    let mut set = CantorsSet::new(Vector2::new(0, 0), 81, 20, 1);
    assert!(set.advance().is_ok());
    assert!(set.advance().is_err());
}

#[test]
fn koch_points_at_angle_zero_stay_on_the_base() {
    let line = KochLine { start: Vector2::new(0, 0), end: Vector2::new(81, 0) };
    let rot = Growth::new(ONE, 0).unwrap();
    assert_eq!(line.koch_a().x, 0);
    assert_eq!(line.koch_b().x, 27);
    assert_eq!(line.koch_c(&rot).x, 54);
    assert_eq!(line.koch_d().x, 54);
    assert_eq!(line.koch_e().x, 81);
    assert_eq!(line.koch_c(&rot).y, 0);
}

#[test]
fn koch_bump_lifts_the_middle_vertex() {
    // a quarter turn moves the bump off the base line
    let line = KochLine { start: Vector2::new(0, 0), end: Vector2::new(81, 0) };
    let rot = Growth::new(0, ONE).unwrap();
    let c = line.koch_c(&rot);
    assert_eq!((c.x, c.y), (27, 27));
}

#[test]
fn koch_generation_quadruples_the_lines() {
    let rot = Growth::new(ONE, 0).unwrap();
    let mut koch = Koch::new(Vector2::new(0, 0), Vector2::new(81, 0), rot);
    assert_eq!(koch.lines.len(), 2);
    koch.generate().unwrap();
    assert_eq!(koch.lines.len(), 8);
    assert_eq!(koch.lines[0].start.x, 0);
    assert_eq!(koch.lines[0].end.x, 27);
}

#[test]
fn sierpinski_midpoints_are_exact_on_even_triangles() {
    let t = Triangle {
        a: Vector2::new(0, 0),
        b: Vector2::new(4, 0),
        c: Vector2::new(2, 6),
    };
    assert_eq!((t.point_ab().x, t.point_ab().y), (2, 0));
    assert_eq!((t.point_ac().x, t.point_ac().y), (1, 3));
    assert_eq!((t.point_bc().x, t.point_bc().y), (3, 3));
}

#[test]
fn sierpinski_trisection_preserves_the_centroid() {
    // even edge differences make the midpoints exact, and the nine
    // child vertices sum to three times the parent's vertex sum
    let t = Triangle {
        a: Vector2::new(0, 0),
        b: Vector2::new(4, 0),
        c: Vector2::new(2, 6),
    };
    let (ab, ac, bc) = (t.point_ab(), t.point_ac(), t.point_bc());
    let sum_x = t.a.x + ab.x + ac.x + ab.x + t.b.x + bc.x + ac.x + bc.x + t.c.x;
    let sum_y = t.a.y + ab.y + ac.y + ab.y + t.b.y + bc.y + ac.y + bc.y + t.c.y;
    assert_eq!(sum_x, 3 * (t.a.x + t.b.x + t.c.x));
    assert_eq!(sum_y, 3 * (t.a.y + t.b.y + t.c.y));
}

#[test]
fn cantor_refuses_a_segment_past_the_working_range() {
    // the segment's right end would leave the range
    let mut set = CantorsSet::new(Vector2::new(COORD_LIMIT, 0), 81, 20, 8);
    assert!(set.advance().is_err());
    assert_eq!(set.segment_count(), 1);
}

#[test]
fn sierpinski_generation_triples_the_triangles() {
    let mut s = SierpinskiTriangle::new(
        Vector2::new(0, 0),
        Vector2::new(4, 0),
        Vector2::new(2, 6),
    );
    s.generate().unwrap();
    assert_eq!(s.triangles.len(), 3);
    // the first child keeps the parent's first corner
    assert_eq!((s.triangles[0].a.x, s.triangles[0].a.y), (0, 0));
    assert_eq!((s.triangles[0].b.x, s.triangles[0].b.y), (2, 0));
    assert_eq!((s.triangles[0].c.x, s.triangles[0].c.y), (1, 3));
}

#[test]
fn equilateral_apex_of_a_flat_base() {
    // base from (0,0) to (4,0), exact root-of-three stand-in of 1:
    // the apex rises two half-bases above the midpoint
    let apex = equilateral_apex(Vector2::new(0, 0), Vector2::new(4 * ONE, 0), ONE);
    assert_eq!((apex.x, apex.y), (2 * ONE, -2 * ONE));
}

#[test]
fn circle_line_spawns_two_shrinking_children() {
    let mut cl = CircleLine::new(Vector2::new(0, 0), 4 * ONE, 2 * ONE);
    cl.advance().unwrap();
    assert_eq!(cl.circle_count(), 2);
    let (c0, r0) = cl.circles[0];
    let (c1, r1) = cl.circles[1];
    assert_eq!((c0.x, c0.y, r0), (-4 * ONE, 0, 2 * ONE));
    assert_eq!((c1.x, c1.y, r1), (4 * ONE, 0, 2 * ONE));
    // the children sit at the minimum radius, so the family dies out
    cl.advance().unwrap();
    assert_eq!(cl.circle_count(), 0);
}

#[test]
fn circle_space_spawns_four_children_and_fades() {
    let mut cs = CircleSpace::new(Vector2::new(0, 0), 8 * ONE, 2 * ONE);
    cs.advance().unwrap();
    assert_eq!(cs.circle_count(), 4);
    let (_, r0) = cs.circles[0];
    assert_eq!(r0, 4 * ONE);
    // the fading stroke of a one-pixel circle
    let mut buf = PixelBuffer::new(9, 9);
    let lone = CircleSpace::new(Vector2::new(4 * ONE, 4 * ONE), ONE, 2 * ONE);
    lone.draw(&mut buf);
    assert_eq!(buf.get_pixel(5, 4), colours::RUST - colours::CERISE);
}

#[test]
fn simple_tree_doubles_and_shrinks() {
    let stem = Branch::new(Vector2::new(0, 0), Vector2::new(0, -2 * ONE));
    let half = Growth::new(ONE / 2, 0).unwrap();
    let mut tree = SimpleTree::new(stem, half, half);
    tree.generate().unwrap();
    assert_eq!(tree.branches.len(), 2);
    let b = tree.branches[0];
    assert_eq!((b.start.x, b.start.y), (0, -2 * ONE));
    assert_eq!((b.end.x, b.end.y), (0, -3 * ONE));
    tree.reset(half, half);
    assert_eq!(tree.branches.len(), 1);
}

#[test]
fn diablos_tree_counts_depths_and_stops() {
    let stem = Branch::new(Vector2::new(0, 0), Vector2::new(0, -ONE));
    let half = Growth::new(ONE / 2, 0).unwrap();
    let mut tree = DiablosTree::new(stem, half, half, 2);
    assert!(tree.advance().is_ok());
    assert!(tree.advance().is_ok());
    assert_eq!(tree.depth, 2);
    assert_eq!(tree.branches.len(), 4);
    assert!(tree.advance().is_err());
}

#[test]
fn diablos_leaves_mark_zero_length_branches_at_their_spot() {
    let stem = Branch::new(Vector2::new(3 * ONE, 3 * ONE), Vector2::new(3 * ONE, 3 * ONE));
    let half = Growth::new(ONE / 2, 0).unwrap();
    let tree = DiablosTree::new(stem, half, half, 2);
    let mut buf = PixelBuffer::new(8, 8);
    tree.draw_leaves(&mut buf);
    assert_eq!(buf.get_pixel(3, 3), colours::RED);
    assert_eq!(buf.get_pixel(5, 5), 0);
}

#[test]
fn lsystem_tree_rewrites_and_interprets() {
    let stem = Branch::new(Vector2::new(0, 0), Vector2::new(0, 0));
    let rot = Growth::new(0, ONE).unwrap();
    let mut tree = LSystemTree::new(stem, rot, 2 * ONE, ONE / 2);
    let sentence = tree.rewrite(String::from("F"));
    assert_eq!(sentence, "-F+F+[+F+F-FF]-[-FF-F+F]");
    tree.generate(sentence.as_str()).unwrap();
    // ten forward steps and the stem
    assert_eq!(tree.branches.len(), 11);
    // the step length halves after the pass
    assert_eq!(tree.length, ONE);
    // a malformed sentence is refused and changes nothing
    assert!(tree.generate("F]").is_err());
    assert_eq!(tree.branches.len(), 11);
}

#[test]
fn escape_time_runs_to_the_cap_at_the_origin() {
    assert_eq!(escape_time(0, 0, 1), 1);
    assert_eq!(escape_time(0, 0, 17), 17);
    assert_eq!(escape_time(0, 0, 300), 300);
}

#[test]
fn escape_time_leaves_fast_far_from_the_set() {
    // c = 4: the first iterate lands at 4 and 16 > 4 stops the next
    assert_eq!(escape_time(4 * ONE, 0, 10), 1);
    // c = -1 cycles between -1 and 0, never escaping
    assert_eq!(escape_time(-ONE, 0, 25), 25);
}

#[test]
fn escape_colour_shifts_the_count() {
    assert_eq!(get_colour(0), 0);
    assert_eq!(get_colour(3), 3 << 10);
    assert_eq!(get_colour(300), 300 * 1024);
}

#[test]
fn mandelbrot_fills_a_tiny_field() {
    let m = Mandelbrot::new(
        Vector2::new(0, 0),
        Vector2::new(2 * ONE, 2 * ONE),
        2 * ONE,
        10,
    );
    let mut buf = PixelBuffer::new(4, 4);
    m.draw(&mut buf);
    // every pixel got some colour decision; the centre-ish pixels map
    // near the origin of the plane and run to the cap
    assert_eq!(buf.get_pixel(2, 2), 10 * 1024);
}

#[test]
fn mandelbrot_zoom_decays_geometrically() {
    let mut m = Mandelbrot::new(Vector2::new(0, 0), Vector2::new(2 * ONE, ONE), 2 * ONE, 10);
    m.zoom_step(ONE / 2);
    assert_eq!(m.zoom, ONE);
    m.zoom_step(ONE / 2);
    assert_eq!(m.zoom, ONE / 2);
}

#[test]
fn cantor_draw_paints_its_segment() {
    let origin = Vector2::new(2 * ONE, 2 * ONE);
    let set = CantorsSet::new(origin, 3 * ONE, ONE, 4);
    let mut buf = PixelBuffer::new(8, 8);
    set.draw(&mut buf);
    assert_eq!(buf.get_pixel(2, 2), colours::CERISE);
    assert_eq!(buf.get_pixel(5, 2), colours::CERISE);
    // the thickness layers shift up-left
    assert_eq!(buf.get_pixel(1, 1), colours::CERISE);
    assert_eq!(buf.get_pixel(6, 2), 0);
}
