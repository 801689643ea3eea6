//! Rasterization of geometric primitives into the pixel buffer.
//!
//! Lines follow the integer-error walk over truncated endpoint
//! coordinates; the walk itself is the specification, stated as a spec
//! recursion, and the drawing loops are proved to paint exactly the
//! walk's pixels.

use vstd::prelude::*;
use crate::buffer::PixelBuffer;
use crate::fixed::{ONE, iabs, tdiv, lemma_tdiv_mag};
use crate::vector::Vector2;

verus! {

/// Pixel-space coordinates stay within this magnitude.
pub const PX_LIMIT: i64 = 0x20000000;

/// One step of the integer-error line walk: starting at (x, y) with
/// error term `err`, the walk advances along the dominant axis until it
/// reaches (x1, y1).  The guard on the recursive call only restates
/// that each step nears the endpoint, which the drawing loop proves.
pub open spec fn line_walk(
    x: int,
    y: int,
    x1: int,
    y1: int,
    dx: int,
    dy: int,
    sx: int,
    sy: int,
    err: int,
) -> Seq<(int, int)>
    decreases iabs(x1 - x) + iabs(y1 - y),
{
    if x == x1 && y == y1 {
        seq![(x, y)]
    } else {
        let e2 = 2 * err;
        let xn = if e2 >= dy { x + sx } else { x };
        let errx = if e2 >= dy { err + dy } else { err };
        let yn = if e2 <= dx { y + sy } else { y };
        let errn = if e2 <= dx { errx + dx } else { errx };
        if iabs(x1 - xn) + iabs(y1 - yn) < iabs(x1 - x) + iabs(y1 - y) {
            seq![(x, y)] + line_walk(xn, yn, x1, y1, dx, dy, sx, sy, errn)
        } else {
            seq![(x, y)]
        }
    }
}

/// The pixels of the line from (x0, y0) to (x1, y1): the walk taken
/// with the standard initial error `dx + dy`.
pub open spec fn line_points(x0: int, y0: int, x1: int, y1: int) -> Seq<(int, int)> {
    let dx = iabs(x1 - x0);
    let dy = -iabs(y1 - y0);
    let sx: int = if x0 < x1 { 1int } else { -1int };
    let sy: int = if y0 < y1 { 1int } else { -1int };
    line_walk(x0, y0, x1, y1, dx, dy, sx, sy, dx + dy)
}

/// Two pixels within one step of each other along both axes.
pub open spec fn adjacent(p: (int, int), q: (int, int)) -> bool {
    iabs(q.0 - p.0) <= 1 && iabs(q.1 - p.1) <= 1
}

/// The walk is gapless: it starts at its start pixel and every step
/// moves at most one pixel along each axis, so a line drawn from the
/// walk has no holes at any finite slope.
pub proof fn lemma_line_walk_connected(
    x: int,
    y: int,
    x1: int,
    y1: int,
    dx: int,
    dy: int,
    sx: int,
    sy: int,
    err: int,
)
    requires
        sx == 1 || sx == -1,
        sy == 1 || sy == -1,
    ensures
        line_walk(x, y, x1, y1, dx, dy, sx, sy, err).len() >= 1,
        line_walk(x, y, x1, y1, dx, dy, sx, sy, err)[0] == (x, y),
        forall|i: int|
            0 <= i < line_walk(x, y, x1, y1, dx, dy, sx, sy, err).len() - 1 ==> #[trigger] adjacent(
                line_walk(x, y, x1, y1, dx, dy, sx, sy, err)[i],
                line_walk(x, y, x1, y1, dx, dy, sx, sy, err)[i + 1],
            ),
    decreases iabs(x1 - x) + iabs(y1 - y),
{
    let walk = line_walk(x, y, x1, y1, dx, dy, sx, sy, err);
    if x == x1 && y == y1 {
    } else {
        let e2 = 2 * err;
        let xn = if e2 >= dy { x + sx } else { x };
        let errx = if e2 >= dy { err + dy } else { err };
        let yn = if e2 <= dx { y + sy } else { y };
        let errn = if e2 <= dx { errx + dx } else { errx };
        if iabs(x1 - xn) + iabs(y1 - yn) < iabs(x1 - x) + iabs(y1 - y) {
            lemma_line_walk_connected(xn, yn, x1, y1, dx, dy, sx, sy, errn);
            let rest = line_walk(xn, yn, x1, y1, dx, dy, sx, sy, errn);
            assert(walk == seq![(x, y)] + rest);
            assert(walk[0] == (x, y));
            assert(walk[1] == rest[0]);
            assert forall|i: int| 0 <= i < walk.len() - 1 implies #[trigger] adjacent(
                walk[i],
                walk[i + 1],
            ) by {
                if i == 0 {
                    assert(rest[0] == (xn, yn));
                    assert(adjacent((x, y), (xn, yn)));
                } else {
                    assert(walk[i] == rest[i - 1]);
                    assert(walk[i + 1] == rest[i]);
                    assert(adjacent(rest[i - 1], rest[i - 1 + 1]));
                }
            }
        } else {
        }
    }
}

/// The pixels of a line start at the truncated first endpoint and are
/// gapless.
pub proof fn lemma_line_points_connected(x0: int, y0: int, x1: int, y1: int)
    ensures
        line_points(x0, y0, x1, y1).len() >= 1,
        line_points(x0, y0, x1, y1)[0] == (x0, y0),
        forall|i: int|
            0 <= i < line_points(x0, y0, x1, y1).len() - 1 ==> #[trigger] adjacent(
                line_points(x0, y0, x1, y1)[i],
                line_points(x0, y0, x1, y1)[i + 1],
            ),
{
    let dx = iabs(x1 - x0);
    let dy = -iabs(y1 - y0);
    let sx: int = if x0 < x1 { 1int } else { -1int };
    let sy: int = if y0 < y1 { 1int } else { -1int };
    lemma_line_walk_connected(x0, y0, x1, y1, dx, dy, sx, sy, dx + dy);
}

/// Painting a pixel sequence: each point is written in order, and
/// writes off the grid are dropped.
pub open spec fn paint(
    contents: Seq<u32>,
    w: int,
    h: int,
    pts: Seq<(int, int)>,
    colour: u32,
) -> Seq<u32>
    decreases pts.len(),
{
    if pts.len() == 0 {
        contents
    } else {
        paint(
            PixelBuffer::spec_write(contents, w, h, pts[0].0, pts[0].1, colour),
            w,
            h,
            pts.drop_first(),
            colour,
        )
    }
}

/// Painting one more point at the end writes it over the painted rest.
pub proof fn lemma_paint_snoc(
    contents: Seq<u32>,
    w: int,
    h: int,
    pts: Seq<(int, int)>,
    p: (int, int),
    colour: u32,
)
    ensures
        paint(contents, w, h, pts.push(p), colour) == PixelBuffer::spec_write(
            paint(contents, w, h, pts, colour),
            w,
            h,
            p.0,
            p.1,
            colour,
        ),
    decreases pts.len(),
{
    if pts.len() == 0 {
        assert(pts.push(p)[0] == p);
        assert(pts.push(p).drop_first() =~= Seq::<(int, int)>::empty());
        assert(paint(
            PixelBuffer::spec_write(contents, w, h, p.0, p.1, colour),
            w,
            h,
            Seq::<(int, int)>::empty(),
            colour,
        ) == PixelBuffer::spec_write(contents, w, h, p.0, p.1, colour));
    } else {
        assert(pts.push(p)[0] == pts[0]);
        assert(pts.push(p).drop_first() =~= pts.drop_first().push(p));
        lemma_paint_snoc(
            PixelBuffer::spec_write(contents, w, h, pts[0].0, pts[0].1, colour),
            w,
            h,
            pts.drop_first(),
            p,
            colour,
        );
    }
}

/// Painting never changes the grid's size.
pub proof fn lemma_paint_len(contents: Seq<u32>, w: int, h: int, pts: Seq<(int, int)>, colour: u32)
    requires
        contents.len() == w * h,
        0 <= w,
        0 <= h,
    ensures
        paint(contents, w, h, pts, colour).len() == contents.len(),
    decreases pts.len(),
{
    if pts.len() > 0 {
        let wr = PixelBuffer::spec_write(contents, w, h, pts[0].0, pts[0].1, colour);
        if 0 <= pts[0].0 < w && 0 <= pts[0].1 < h {
            assert(0 <= pts[0].1 * w + pts[0].0 < w * h) by (nonlinear_arith)
                requires
                    0 <= pts[0].0 < w,
                    0 <= pts[0].1 < h,
            ;
        }
        assert(wr.len() == contents.len());
        lemma_paint_len(wr, w, h, pts.drop_first(), colour);
    }
}

/// A cell that no painted point addresses keeps its old value.
pub proof fn lemma_paint_untouched(
    contents: Seq<u32>,
    w: int,
    h: int,
    pts: Seq<(int, int)>,
    colour: u32,
    i: int,
)
    requires
        contents.len() == w * h,
        0 <= w,
        0 <= h,
        0 <= i < contents.len(),
        forall|k: int|
            0 <= k < pts.len() ==> !(0 <= #[trigger] pts[k].0 < w && 0 <= pts[k].1 < h && pts[k].1
                * w + pts[k].0 == i),
    ensures
        paint(contents, w, h, pts, colour)[i] == contents[i],
    decreases pts.len(),
{
    if pts.len() > 0 {
        let wr = PixelBuffer::spec_write(contents, w, h, pts[0].0, pts[0].1, colour);
        if 0 <= pts[0].0 < w && 0 <= pts[0].1 < h {
            assert(0 <= pts[0].1 * w + pts[0].0 < w * h) by (nonlinear_arith)
                requires
                    0 <= pts[0].0 < w,
                    0 <= pts[0].1 < h,
            ;
            assert(pts[0].1 * w + pts[0].0 != i);
        }
        assert(wr[i] == contents[i]);
        lemma_paint_untouched(wr, w, h, pts.drop_first(), colour, i);
    }
}

/// A cell already holding the paint colour keeps it.
proof fn lemma_paint_keeps(
    contents: Seq<u32>,
    w: int,
    h: int,
    pts: Seq<(int, int)>,
    colour: u32,
    i: int,
)
    requires
        contents.len() == w * h,
        0 <= w,
        0 <= h,
        0 <= i < contents.len(),
        contents[i] == colour,
    ensures
        paint(contents, w, h, pts, colour)[i] == colour,
    decreases pts.len(),
{
    if pts.len() > 0 {
        let wr = PixelBuffer::spec_write(contents, w, h, pts[0].0, pts[0].1, colour);
        if 0 <= pts[0].0 < w && 0 <= pts[0].1 < h {
            assert(0 <= pts[0].1 * w + pts[0].0 < w * h) by (nonlinear_arith)
                requires
                    0 <= pts[0].0 < w,
                    0 <= pts[0].1 < h,
            ;
        }
        assert(wr[i] == colour);
        lemma_paint_keeps(wr, w, h, pts.drop_first(), colour, i);
    }
}

/// Every painted point that lands on the grid ends up with the colour.
pub proof fn lemma_paint_covered(
    contents: Seq<u32>,
    w: int,
    h: int,
    pts: Seq<(int, int)>,
    colour: u32,
    k: int,
)
    requires
        contents.len() == w * h,
        0 <= w,
        0 <= h,
        0 <= k < pts.len(),
        0 <= pts[k].0 < w,
        0 <= pts[k].1 < h,
    ensures
        paint(contents, w, h, pts, colour)[pts[k].1 * w + pts[k].0] == colour,
    decreases pts.len(),
{
    let wr = PixelBuffer::spec_write(contents, w, h, pts[0].0, pts[0].1, colour);
    if 0 <= pts[0].0 < w && 0 <= pts[0].1 < h {
        assert(0 <= pts[0].1 * w + pts[0].0 < w * h) by (nonlinear_arith)
            requires
                0 <= pts[0].0 < w,
                0 <= pts[0].1 < h,
        ;
    }
    if k == 0 {
        assert(wr[pts[0].1 * w + pts[0].0] == colour);
        lemma_paint_keeps(wr, w, h, pts.drop_first(), colour, pts[0].1 * w + pts[0].0);
    } else {
        lemma_paint_covered(wr, w, h, pts.drop_first(), colour, k - 1);
        assert(pts.drop_first()[k - 1] == pts[k]);
    }
}

/// The walk's next x, error count and so on, written once so the
/// drawing loop and its lemmas speak of the same step.
pub open spec fn ls_xn(x: int, sx: int, err: int, dd: int) -> int {
    if 2 * err >= -dd {
        x + sx
    } else {
        x
    }
}

pub open spec fn ls_un(u: int, err: int, dd: int) -> int {
    if 2 * err >= -dd {
        u + 1
    } else {
        u
    }
}

pub open spec fn ls_yn(y: int, sy: int, err: int, dx: int) -> int {
    if 2 * err <= dx {
        y + sy
    } else {
        y
    }
}

pub open spec fn ls_vn(v: int, err: int, dx: int) -> int {
    if 2 * err <= dx {
        v + 1
    } else {
        v
    }
}

pub open spec fn ls_errn(err: int, dx: int, dd: int) -> int {
    (if 2 * err >= -dd {
        err - dd
    } else {
        err
    }) + (if 2 * err <= dx {
        dx
    } else {
        0
    })
}

/// One step of the line walk, from a state that satisfies the loop's
/// error invariant, moves strictly toward the endpoint and keeps the
/// invariant: the step never overshoots either axis.
proof fn lemma_line_step(
    x: int,
    y: int,
    x1: int,
    y1: int,
    dx: int,
    dd: int,
    sx: int,
    sy: int,
    err: int,
    u: int,
    v: int,
)
    requires
        sx == 1 || sx == -1,
        sy == 1 || sy == -1,
        0 <= u <= dx,
        0 <= v <= dd,
        x1 == x + sx * (dx - u),
        y1 == y + sy * (dd - v),
        err == dx * (1 + v) - dd * (1 + u),
        !(x == x1 && y == y1),
        dx <= 0x40000000,
        dd <= 0x40000000,
        iabs(x1) <= PX_LIMIT,
        iabs(y1) <= PX_LIMIT,
    ensures
        2 * err >= -dd || 2 * err <= dx,
        2 * err >= -dd ==> u < dx,
        2 * err <= dx ==> v < dd,
        x1 == ls_xn(x, sx, err, dd) + sx * (dx - ls_un(u, err, dd)),
        y1 == ls_yn(y, sy, err, dx) + sy * (dd - ls_vn(v, err, dx)),
        ls_errn(err, dx, dd) == dx * (1 + ls_vn(v, err, dx)) - dd * (1 + ls_un(u, err, dd)),
        0 <= ls_un(u, err, dd) <= dx,
        0 <= ls_vn(v, err, dx) <= dd,
        iabs(x1 - ls_xn(x, sx, err, dd)) + iabs(y1 - ls_yn(y, sy, err, dx)) < iabs(x1 - x) + iabs(
            y1 - y,
        ),
        iabs(x1 - x) == dx - u,
        iabs(y1 - y) == dd - v,
        iabs(ls_xn(x, sx, err, dd)) <= iabs(x1) + dx,
        iabs(ls_yn(y, sy, err, dx)) <= iabs(y1) + dd,
        iabs(ls_errn(err, dx, dd)) <= 0x2000000000000000,
{
    lemma_signed_extent(x, x1, sx, dx - u);
    lemma_signed_extent(y, y1, sy, dd - v);
    // the walk never steps past a finished axis
    if u == dx {
        assert(x == x1) by (nonlinear_arith)
            requires x1 == x + sx * (dx - u), u == dx
        ;
        assert(v < dd);
        assert(2 * err < -dd) by (nonlinear_arith)
            requires
                err == dx * (1 + v) - dd * (1 + u),
                u == dx,
                0 <= v,
                v < dd,
                0 <= dx,
        ;
    }
    if v == dd {
        assert(y == y1) by (nonlinear_arith)
            requires y1 == y + sy * (dd - v), v == dd
        ;
        assert(u < dx);
        assert(2 * err > dx) by (nonlinear_arith)
            requires
                err == dx * (1 + v) - dd * (1 + u),
                v == dd,
                0 <= u,
                u < dx,
                0 <= dd,
        ;
    }
    let un = ls_un(u, err, dd);
    let vn = ls_vn(v, err, dx);
    let xn = ls_xn(x, sx, err, dd);
    let yn = ls_yn(y, sy, err, dx);
    assert(x1 == xn + sx * (dx - un)) by (nonlinear_arith)
        requires
            x1 == x + sx * (dx - u),
            xn == (if 2 * err >= -dd { x + sx } else { x }),
            un == (if 2 * err >= -dd { u + 1 } else { u }),
            sx == 1 || sx == -1,
    ;
    assert(y1 == yn + sy * (dd - vn)) by (nonlinear_arith)
        requires
            y1 == y + sy * (dd - v),
            yn == (if 2 * err <= dx { y + sy } else { y }),
            vn == (if 2 * err <= dx { v + 1 } else { v }),
            sy == 1 || sy == -1,
    ;
    assert(ls_errn(err, dx, dd) == dx * (1 + vn) - dd * (1 + un)) by (nonlinear_arith)
        requires
            err == dx * (1 + v) - dd * (1 + u),
            un == (if 2 * err >= -dd { u + 1 } else { u }),
            vn == (if 2 * err <= dx { v + 1 } else { v }),
            ls_errn(err, dx, dd) == (if 2 * err >= -dd { err - dd } else { err }) + (
                if 2 * err <= dx { dx } else { 0 }),
    ;
    lemma_signed_extent(xn, x1, sx, dx - un);
    lemma_signed_extent(yn, y1, sy, dd - vn);
    let errn = ls_errn(err, dx, dd);
    assert(0 <= dx * (1 + vn) <= 0x2000000000000000) by (nonlinear_arith)
        requires 0 <= dx <= 0x40000000, 0 <= vn <= dd, dd <= 0x40000000
    ;
    assert(0 <= dd * (1 + un) <= 0x2000000000000000) by (nonlinear_arith)
        requires 0 <= dd <= 0x40000000, 0 <= un <= dx, dx <= 0x40000000
    ;
}

/// When the far end lies `k >= 0` signed steps away, the distance is k.
proof fn lemma_signed_extent(a: int, b: int, s: int, k: int)
    requires
        s == 1 || s == -1,
        k >= 0,
        b == a + s * k,
    ensures
        iabs(b - a) == k,
        iabs(a) <= iabs(b) + k,
{
    if s == 1 {
        assert(s * k == k) by (nonlinear_arith)
            requires s == 1
        ;
    } else {
        assert(s * k == -k) by (nonlinear_arith)
            requires s == -1
        ;
    }
}

/// Draw the integer-error line on truncated integer pixel coordinates:
/// the buffer afterwards is exactly the old contents with the walk's
/// pixels painted.
pub fn draw_line_px(buf: &mut PixelBuffer, x0: i64, y0: i64, x1: i64, y1: i64, colour: u32)
    requires
        old(buf).wf(),
        iabs(x0 as int) <= PX_LIMIT,
        iabs(y0 as int) <= PX_LIMIT,
        iabs(x1 as int) <= PX_LIMIT,
        iabs(y1 as int) <= PX_LIMIT,
    ensures
        final(buf).wf(),
        final(buf).spec_width() == old(buf).spec_width(),
        final(buf).spec_height() == old(buf).spec_height(),
        final(buf)@ == paint(
            old(buf)@,
            old(buf).spec_width(),
            old(buf).spec_height(),
            line_points(x0 as int, y0 as int, x1 as int, y1 as int),
            colour,
        ),
{
    let w = buf.width();
    let h = buf.height();
    let dx: i64 = if x1 >= x0 { x1 - x0 } else { x0 - x1 };
    let dy: i64 = if y1 >= y0 { -(y1 - y0) } else { -(y0 - y1) };
    let ghost dd: int = -(dy as int);
    let sx: i64 = if x0 < x1 { 1 } else { -1 };
    let sy: i64 = if y0 < y1 { 1 } else { -1 };
    let mut err: i64 = dx + dy;
    let mut x = x0;
    let mut y = y0;
    let ghost mut u: int = 0;
    let ghost mut v: int = 0;
    let ghost mut done: Seq<(int, int)> = Seq::empty();
    proof {
        assert(paint(old(buf)@, w as int, h as int, done, colour) == old(buf)@);
        assert(x1 == x0 + sx * dx) by (nonlinear_arith)
            requires
                sx == (if x0 < x1 { 1int } else { -1int }),
                dx == (if x1 >= x0 { x1 - x0 } else { x0 - x1 }),
        ;
        assert(y1 == y0 + sy * dd) by (nonlinear_arith)
            requires
                sy == (if y0 < y1 { 1int } else { -1int }),
                dd == (if y1 >= y0 { y1 - y0 } else { y0 - y1 }),
        ;
        assert(err == dx * (1 + 0) - dd * (1 + 0));
    }
    loop
        invariant_except_break
            line_points(x0 as int, y0 as int, x1 as int, y1 as int) == done + line_walk(
                x as int,
                y as int,
                x1 as int,
                y1 as int,
                dx as int,
                dy as int,
                sx as int,
                sy as int,
                err as int,
            ),
        invariant
            buf.wf(),
            buf.spec_width() == old(buf).spec_width(),
            buf.spec_height() == old(buf).spec_height(),
            w == old(buf).spec_width(),
            h == old(buf).spec_height(),
            dx == iabs(x1 as int - x0 as int),
            dd == iabs(y1 as int - y0 as int),
            dy == -dd,
            0 <= dx <= 0x40000000,
            0 <= dd <= 0x40000000,
            iabs(x1 as int) <= PX_LIMIT,
            iabs(y1 as int) <= PX_LIMIT,
            sx == (if x0 < x1 { 1int } else { -1int }),
            sy == (if y0 < y1 { 1int } else { -1int }),
            x1 == x + sx * (dx - u),
            y1 == y + sy * (dd - v),
            0 <= u <= dx,
            0 <= v <= dd,
            err == dx * (1 + v) - dd * (1 + u),
            iabs(x as int) <= 0x80000000,
            iabs(y as int) <= 0x80000000,
            iabs(err as int) <= 0x2000000000000000,
            buf@ == paint(old(buf)@, w as int, h as int, done, colour),
        ensures
            buf.wf(),
            buf.spec_width() == old(buf).spec_width(),
            buf.spec_height() == old(buf).spec_height(),
            w == old(buf).spec_width(),
            h == old(buf).spec_height(),
            buf@ == paint(old(buf)@, w as int, h as int, done, colour),
            line_points(x0 as int, y0 as int, x1 as int, y1 as int) == done,
        decreases iabs(x1 as int - x as int) + iabs(y1 as int - y as int),
    {
        buf.set_pixel(x, y, colour);
        let ghost pre_done = done;
        proof {
            lemma_paint_snoc(old(buf)@, w as int, h as int, pre_done, (x as int, y as int), colour);
            done = done.push((x as int, y as int));
        }
        if x == x1 && y == y1 {
            proof {
                assert(line_walk(
                    x as int, y as int, x1 as int, y1 as int,
                    dx as int, dy as int, sx as int, sy as int, err as int,
                ) == seq![(x as int, y as int)]);
                assert(pre_done + seq![(x as int, y as int)] =~= done);
            }
            break;
        }
        proof {
            lemma_line_step(
                x as int, y as int, x1 as int, y1 as int,
                dx as int, dd, sx as int, sy as int, err as int, u, v,
            );
        }
        let ghost pre_x = x as int;
        let ghost pre_y = y as int;
        let ghost pre_err = err as int;
        let e2 = 2 * err;
        if e2 >= dy {
            err = err + dy;
            x = x + sx;
            proof {
                u = u + 1;
            }
        }
        if e2 <= dx {
            err = err + dx;
            y = y + sy;
            proof {
                v = v + 1;
            }
        }
        proof {
            assert(x as int == ls_xn(pre_x, sx as int, pre_err, dd));
            assert(y as int == ls_yn(pre_y, sy as int, pre_err, dx as int));
            assert(err as int == ls_errn(pre_err, dx as int, dd));
            // the walk at the previous state takes exactly this step
            assert(line_walk(
                pre_x, pre_y, x1 as int, y1 as int,
                dx as int, dy as int, sx as int, sy as int, pre_err,
            ) == seq![(pre_x, pre_y)] + line_walk(
                x as int, y as int, x1 as int, y1 as int,
                dx as int, dy as int, sx as int, sy as int, err as int,
            ));
            assert(pre_done + (seq![(pre_x, pre_y)] + line_walk(
                x as int, y as int, x1 as int, y1 as int,
                dx as int, dy as int, sx as int, sy as int, err as int,
            )) =~= done + line_walk(
                x as int, y as int, x1 as int, y1 as int,
                dx as int, dy as int, sx as int, sy as int, err as int,
            ));
        }
    }
}

/// Radii stay within this magnitude (about a million pixels), which
/// keeps the circle walk's decision variable within machine range.
pub const RAD_LIMIT: i64 = 0x1000000000;

/// Pixel layer `k` of a thick line: the line between the endpoints
/// shifted by (-k, -k) in fixed point, truncated to pixel coordinates.
pub open spec fn layer_points(start: Vector2, end: Vector2, k: int) -> Seq<(int, int)> {
    line_points(
        tdiv(start.x - k * ONE, ONE as int),
        tdiv(start.y - k * ONE, ONE as int),
        tdiv(end.x - k * ONE, ONE as int),
        tdiv(end.y - k * ONE, ONE as int),
    )
}

/// The first `t` layers of a thick line, painted in order.
pub open spec fn paint_layers(
    contents: Seq<u32>,
    w: int,
    h: int,
    start: Vector2,
    end: Vector2,
    colour: u32,
    t: int,
) -> Seq<u32>
    decreases t,
{
    if t <= 0 {
        contents
    } else {
        paint(
            paint_layers(contents, w, h, start, end, colour, t - 1),
            w,
            h,
            layer_points(start, end, t - 1),
            colour,
        )
    }
}

/// Draw `thickness` parallel copies of the line, layer `k` offset by
/// (-k, -k) pixels; endpoints are fixed-point and are truncated toward
/// zero after the offset, as the walk demands.
pub fn draw_line(
    buf: &mut PixelBuffer,
    start: &Vector2,
    end: &Vector2,
    colour: u32,
    thickness: usize,
)
    requires
        old(buf).wf(),
        crate::vector::vec_in_range(*start),
        crate::vector::vec_in_range(*end),
        thickness <= 0x100000,
    ensures
        final(buf).wf(),
        final(buf).spec_width() == old(buf).spec_width(),
        final(buf).spec_height() == old(buf).spec_height(),
        final(buf)@ == paint_layers(
            old(buf)@,
            old(buf).spec_width(),
            old(buf).spec_height(),
            *start,
            *end,
            colour,
            thickness as int,
        ),
{
    let ghost w = old(buf).spec_width();
    let ghost h = old(buf).spec_height();
    let mut k: usize = 0;
    while k < thickness
        invariant
            buf.wf(),
            buf.spec_width() == w,
            buf.spec_height() == h,
            w == old(buf).spec_width(),
            h == old(buf).spec_height(),
            crate::vector::vec_in_range(*start),
            crate::vector::vec_in_range(*end),
            thickness <= 0x100000,
            k <= thickness,
            buf@ == paint_layers(old(buf)@, w, h, *start, *end, colour, k as int),
        decreases thickness - k,
    {
        let off: i64 = (k as i64) * ONE;
        let ax = start.x - off;
        let ay = start.y - off;
        let bx = end.x - off;
        let by = end.y - off;
        proof {
            crate::fixed::lemma_tdiv_mag(ax as int, ONE as int);
            crate::fixed::lemma_tdiv_mag(ay as int, ONE as int);
            crate::fixed::lemma_tdiv_mag(bx as int, ONE as int);
            crate::fixed::lemma_tdiv_mag(by as int, ONE as int);
        }
        let px0 = ax / ONE;
        let py0 = ay / ONE;
        let px1 = bx / ONE;
        let py1 = by / ONE;
        draw_line_px(buf, px0, py0, px1, py1, colour);
        k = k + 1;
    }
}

/// The eight symmetric pixels of one circle-walk offset (ox, oy) about
/// the centre, in drawing order, truncated to pixel coordinates.
pub open spec fn oct_points(cx: int, cy: int, ox: int, oy: int) -> Seq<(int, int)> {
    seq![
        (tdiv(cx + ox, ONE as int), tdiv(cy + oy, ONE as int)),
        (tdiv(cx - ox, ONE as int), tdiv(cy + oy, ONE as int)),
        (tdiv(cx + ox, ONE as int), tdiv(cy - oy, ONE as int)),
        (tdiv(cx - ox, ONE as int), tdiv(cy - oy, ONE as int)),
        (tdiv(cx + oy, ONE as int), tdiv(cy + ox, ONE as int)),
        (tdiv(cx - oy, ONE as int), tdiv(cy + ox, ONE as int)),
        (tdiv(cx + oy, ONE as int), tdiv(cy - ox, ONE as int)),
        (tdiv(cx - oy, ONE as int), tdiv(cy - ox, ONE as int)),
    ]
}

/// The offsets visited by the midpoint circle walk, in fixed-point
/// units: x sweeps outward from 0, y inward from the radius; when the
/// decision term is positive y steps inward, and the walk stops once
/// y falls below x.
pub open spec fn circle_walk(x: int, y: int, d: int) -> Seq<(int, int)>
    decreases (if y >= x { y - x + 65536int } else { 0int }),
{
    if y < x {
        Seq::empty()
    } else {
        let xn = x + ONE;
        let yn = if d > 0 { y - ONE } else { y };
        let dn = if d > 0 { d + 4 * (xn - yn) + 10 * ONE } else { d + 4 * xn + 6 * ONE };
        seq![(x, y)] + circle_walk(xn, yn, dn)
    }
}

/// All pixels of the circle: the eight-way points of every walk offset.
pub open spec fn oct_flat(cx: int, cy: int, offs: Seq<(int, int)>) -> Seq<(int, int)>
    decreases offs.len(),
{
    if offs.len() == 0 {
        Seq::empty()
    } else {
        oct_points(cx, cy, offs[0].0, offs[0].1) + oct_flat(cx, cy, offs.drop_first())
    }
}

/// The pixels of the circle of fixed-point radius `r` about (cx, cy).
pub open spec fn circle_points(cx: int, cy: int, r: int) -> Seq<(int, int)> {
    oct_flat(cx, cy, circle_walk(0, r, 3 * ONE - 2 * r))
}

/// Painting a concatenation paints the parts in order.
pub proof fn lemma_paint_concat(
    contents: Seq<u32>,
    w: int,
    h: int,
    a: Seq<(int, int)>,
    b: Seq<(int, int)>,
    colour: u32,
)
    ensures
        paint(contents, w, h, a + b, colour) == paint(paint(contents, w, h, a, colour), w, h, b, colour),
    decreases a.len(),
{
    if a.len() == 0 {
        assert(a + b =~= b);
    } else {
        let wr = PixelBuffer::spec_write(contents, w, h, a[0].0, a[0].1, colour);
        assert((a + b)[0] == a[0]);
        assert((a + b).drop_first() =~= a.drop_first() + b);
        lemma_paint_concat(wr, w, h, a.drop_first(), b, colour);
    }
}

/// Write the eight symmetric pixels of one walk offset.
fn plot_octants(buf: &mut PixelBuffer, cx: i64, cy: i64, ox: i64, oy: i64, colour: u32)
    requires
        old(buf).wf(),
        iabs(cx as int) <= COORD_LIMIT_R,
        iabs(cy as int) <= COORD_LIMIT_R,
        iabs(ox as int) <= COORD_LIMIT_R,
        iabs(oy as int) <= COORD_LIMIT_R,
    ensures
        final(buf).wf(),
        final(buf).spec_width() == old(buf).spec_width(),
        final(buf).spec_height() == old(buf).spec_height(),
        final(buf)@ == paint(
            old(buf)@,
            old(buf).spec_width(),
            old(buf).spec_height(),
            oct_points(cx as int, cy as int, ox as int, oy as int),
            colour,
        ),
{
    let ghost w = old(buf).spec_width();
    let ghost h = old(buf).spec_height();
    let ghost pts = oct_points(cx as int, cy as int, ox as int, oy as int);
    proof {
        lemma_tdiv_all(cx as int, cy as int, ox as int, oy as int);
    }
    let p0 = (cx + ox) / ONE;
    let q0 = (cy + oy) / ONE;
    let p1 = (cx - ox) / ONE;
    let q1 = (cy - oy) / ONE;
    let p2 = (cx + oy) / ONE;
    let q2 = (cy + ox) / ONE;
    let p3 = (cx - oy) / ONE;
    let q3 = (cy - ox) / ONE;
    buf.set_pixel(p0, q0, colour);
    buf.set_pixel(p1, q0, colour);
    buf.set_pixel(p0, q1, colour);
    buf.set_pixel(p1, q1, colour);
    buf.set_pixel(p2, q2, colour);
    buf.set_pixel(p3, q2, colour);
    buf.set_pixel(p2, q3, colour);
    buf.set_pixel(p3, q3, colour);
    proof {
        let c = old(buf)@;
        assert(buf@ == paint(c, w, h, pts, colour)) by {
            reveal_with_fuel(paint, 9);
            assert(pts.drop_first().drop_first().drop_first().drop_first().drop_first()
                .drop_first().drop_first().drop_first() =~= Seq::<(int, int)>::empty());
        }
    }
}

/// Bound used by the circle routines: centre and offsets stay well
/// inside the coordinate range even after adding a radius.
pub const COORD_LIMIT_R: i64 = 0x20000000000;

proof fn lemma_tdiv_all(cx: int, cy: int, ox: int, oy: int)
    requires
        iabs(cx) <= COORD_LIMIT_R,
        iabs(cy) <= COORD_LIMIT_R,
        iabs(ox) <= COORD_LIMIT_R,
        iabs(oy) <= COORD_LIMIT_R,
    ensures
        iabs(tdiv(cx + ox, ONE as int)) <= PX_LIMIT,
        iabs(tdiv(cx - ox, ONE as int)) <= PX_LIMIT,
        iabs(tdiv(cy + oy, ONE as int)) <= PX_LIMIT,
        iabs(tdiv(cy - oy, ONE as int)) <= PX_LIMIT,
        iabs(tdiv(cx + oy, ONE as int)) <= PX_LIMIT,
        iabs(tdiv(cx - oy, ONE as int)) <= PX_LIMIT,
        iabs(tdiv(cy + ox, ONE as int)) <= PX_LIMIT,
        iabs(tdiv(cy - ox, ONE as int)) <= PX_LIMIT,
{
    lemma_tdiv_mag(cx + ox, ONE as int);
    lemma_tdiv_mag(cx - ox, ONE as int);
    lemma_tdiv_mag(cy + oy, ONE as int);
    lemma_tdiv_mag(cy - oy, ONE as int);
    lemma_tdiv_mag(cx + oy, ONE as int);
    lemma_tdiv_mag(cx - oy, ONE as int);
    lemma_tdiv_mag(cy + ox, ONE as int);
    lemma_tdiv_mag(cy - ox, ONE as int);
}

/// Appending one offset to the flattened eight-way pixel list.
proof fn lemma_oct_flat_snoc(cx: int, cy: int, offs: Seq<(int, int)>, p: (int, int))
    ensures
        oct_flat(cx, cy, offs.push(p)) == oct_flat(cx, cy, offs) + oct_points(cx, cy, p.0, p.1),
    decreases offs.len(),
{
    if offs.len() == 0 {
        assert(offs.push(p)[0] == p);
        assert(offs.push(p).drop_first() =~= Seq::<(int, int)>::empty());
        assert(oct_flat(cx, cy, Seq::<(int, int)>::empty()) == Seq::<(int, int)>::empty());
        assert(oct_flat(cx, cy, offs.push(p)) == oct_points(cx, cy, p.0, p.1) + oct_flat(
            cx,
            cy,
            offs.push(p).drop_first(),
        ));
        assert(oct_points(cx, cy, p.0, p.1) + Seq::<(int, int)>::empty() =~= oct_points(
            cx,
            cy,
            p.0,
            p.1,
        ));
        assert(oct_flat(cx, cy, offs) + oct_points(cx, cy, p.0, p.1) =~= oct_points(
            cx,
            cy,
            p.0,
            p.1,
        ));
    } else {
        assert(offs.push(p)[0] == offs[0]);
        assert(offs.push(p).drop_first() =~= offs.drop_first().push(p));
        lemma_oct_flat_snoc(cx, cy, offs.drop_first(), p);
        assert(oct_points(cx, cy, offs[0].0, offs[0].1) + (oct_flat(cx, cy, offs.drop_first())
            + oct_points(cx, cy, p.0, p.1)) =~= (oct_points(cx, cy, offs[0].0, offs[0].1)
            + oct_flat(cx, cy, offs.drop_first())) + oct_points(cx, cy, p.0, p.1));
    }
}

/// Draw the midpoint circle: the decision term starts at 3 - 2r and is
/// advanced by 4(x - y) + 10 after an inward step, else by 4x + 6, all
/// in fixed-point units; the buffer afterwards holds exactly the
/// eight-way symmetric pixels of the walk.
pub fn draw_circle(buf: &mut PixelBuffer, center: &Vector2, radius: i64, colour: u32)
    requires
        old(buf).wf(),
        crate::vector::vec_in_range(*center),
        0 <= radius <= RAD_LIMIT,
    ensures
        final(buf).wf(),
        final(buf).spec_width() == old(buf).spec_width(),
        final(buf).spec_height() == old(buf).spec_height(),
        final(buf)@ == paint(
            old(buf)@,
            old(buf).spec_width(),
            old(buf).spec_height(),
            circle_points(center.x as int, center.y as int, radius as int),
            colour,
        ),
{
    let ghost w = old(buf).spec_width();
    let ghost h = old(buf).spec_height();
    let cx = center.x;
    let cy = center.y;
    let mut x: i64 = 0;
    let mut y: i64 = radius;
    let mut d: i64 = 3 * ONE - 2 * radius;
    let ghost mut offs: Seq<(int, int)> = Seq::empty();
    let ghost mut k: int = 0;
    proof {
        assert(oct_flat(cx as int, cy as int, offs) =~= Seq::<(int, int)>::empty());
        assert(paint(old(buf)@, w, h, Seq::<(int, int)>::empty(), colour) == old(buf)@);
    }
    while y >= x
        invariant_except_break
            circle_walk(0, radius as int, 3 * ONE - 2 * radius) == offs + circle_walk(
                x as int,
                y as int,
                d as int,
            ),
        invariant
            buf.wf(),
            buf.spec_width() == w,
            buf.spec_height() == h,
            w == old(buf).spec_width(),
            h == old(buf).spec_height(),
            crate::vector::vec_in_range(*center),
            cx == center.x,
            cy == center.y,
            0 <= radius <= RAD_LIMIT,
            0 <= x,
            x == k * ONE,
            0 <= k <= 0x100001,
            -ONE <= y <= radius,
            x <= radius + ONE,
            iabs(d as int) <= 3 * ONE + 2 * radius + k * (4 * radius + 18 * ONE),
            buf@ == paint(old(buf)@, w, h, oct_flat(cx as int, cy as int, offs), colour),
        ensures
            buf.wf(),
            buf.spec_width() == w,
            buf.spec_height() == h,
            buf@ == paint(old(buf)@, w, h, oct_flat(cx as int, cy as int, offs), colour),
            circle_walk(0, radius as int, 3 * ONE - 2 * radius) == offs,
        decreases y - x + 2 * ONE,
    {
        proof {
            assert(iabs(d as int) <= 0x800000000000000) by (nonlinear_arith)
                requires
                    iabs(d as int) <= 3 * ONE + 2 * radius + k * (4 * radius + 18 * ONE),
                    0 <= radius <= 0x1000000000,
                    0 <= k <= 0x100001,
                    ONE == 65536,
            ;
        }
        plot_octants(buf, cx, cy, x, y, colour);
        proof {
            lemma_oct_flat_snoc(cx as int, cy as int, offs, (x as int, y as int));
            lemma_paint_concat(
                old(buf)@,
                w,
                h,
                oct_flat(cx as int, cy as int, offs),
                oct_points(cx as int, cy as int, x as int, y as int),
                colour,
            );
            offs = offs.push((x as int, y as int));
        }
        let ghost pre_x = x as int;
        let ghost pre_y = y as int;
        let ghost pre_d = d as int;
        x = x + ONE;
        if d > 0 {
            y = y - ONE;
            d = d + 4 * (x - y) + 10 * ONE;
        } else {
            d = d + 4 * x + 6 * ONE;
        }
        proof {
            k = k + 1;
            assert(x == k * ONE) by (nonlinear_arith)
                requires x == pre_x + ONE, pre_x == (k - 1) * ONE, ONE == 65536
            ;
            assert(iabs(d as int) <= iabs(pre_d) + 4 * radius + 18 * ONE);
            assert(iabs(pre_d) + 4 * radius + 18 * ONE <= 3 * ONE + 2 * radius + k * (4 * radius
                + 18 * ONE)) by (nonlinear_arith)
                requires
                    iabs(pre_d) <= 3 * ONE + 2 * radius + (k - 1) * (4 * radius + 18 * ONE),
                    0 <= radius,
                    1 <= k,
                    ONE == 65536,
            ;
            assert(circle_walk(pre_x, pre_y, pre_d) == seq![(pre_x, pre_y)] + circle_walk(
                x as int,
                y as int,
                d as int,
            ));
            assert(offs.drop_last() + (seq![(pre_x, pre_y)] + circle_walk(
                x as int,
                y as int,
                d as int,
            )) =~= offs + circle_walk(x as int, y as int, d as int));
        }
    }
}

} // verus!
