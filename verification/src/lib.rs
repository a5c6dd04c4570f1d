//! A minimal software rasterizer: an in-memory grid of packed 32-bit colors,
//! filled by flat-colored primitives (rectangle, circle, line, triangle) and
//! serialized to a binary pixel-map byte stream.

pub mod constants;
pub mod graphik_circle;
pub mod graphik_line;
pub mod graphik_rect;
pub mod graphik_triangle;
pub mod serialize;

use vstd::prelude::*;

verus! {

pub use crate::graphik_circle::GraphikCircle;
pub use crate::graphik_line::GraphikLine;
pub use crate::graphik_rect::GraphikRect;
pub use crate::graphik_triangle::GraphikTriangle;
use crate::graphik_triangle::sort_spec;
use vstd::arithmetic::div_mod::lemma_div_is_ordered;
use vstd::arithmetic::div_mod::lemma_div_multiples_vanish;
use vstd::arithmetic::div_mod::lemma_div_multiples_vanish_fancy;
use vstd::arithmetic::div_mod::lemma_div_pos_is_pos;
use vstd::arithmetic::div_mod::lemma_fundamental_div_mod;
use vstd::arithmetic::div_mod::lemma_fundamental_div_mod_converse;
use vstd::arithmetic::div_mod::lemma_mod_pos_bound;
use vstd::relations::injective_on;
use vstd::set_lib::lemma_map_size;
use vstd::set_lib::lemma_int_range;
use vstd::set_lib::set_int_range;

/// Errors that file-backed callers report when persisting a serialized image.
/// Serialization itself cannot fail; only the surrounding I/O can.
#[derive(Debug)]
pub enum Error {
    FileOpenError,
    FileWriteError,
}

/// The origin coordinate that centers an object of the given size inside a
/// canvas of the given size, by floor division; an object larger than the
/// canvas saturates to the canvas edge at zero rather than underflowing.
pub open spec fn center_coord(canvas: int, object: int) -> int {
    if object >= canvas {
        0
    } else {
        (canvas - object) / 2
    }
}

pub fn get_center(canvas: usize, object: usize) -> (r: i32)
    requires
        canvas <= i32::MAX,
    ensures
        r == center_coord(canvas as int, object as int),
{
    if object >= canvas {
        0
    } else {
        ((canvas - object) / 2) as i32
    }
}

/// The pixel of the row-major grid `s` (of row length `w`) at column `x` of
/// row `y`. All buffer contracts are stated through this function.
pub open spec fn pix(s: Seq<u32>, w: int, x: int, y: int) -> u32 {
    s[x + y * w]
}

/// Distinct in-row-range coordinates map to distinct row-major indices.
pub proof fn lemma_idx_distinct(w: int, x1: int, y1: int, x2: int, y2: int)
    requires
        0 <= x1 < w,
        0 <= x2 < w,
        0 <= y1,
        0 <= y2,
        !(x1 == x2 && y1 == y2),
    ensures
        x1 + y1 * w != x2 + y2 * w,
{
    assert(x1 + y1 * w != x2 + y2 * w) by (nonlinear_arith)
        requires
            0 <= x1 < w,
            0 <= x2 < w,
            0 <= y1,
            0 <= y2,
            !(x1 == x2 && y1 == y2),
    ;
}

/// An in-range coordinate's row-major index lies inside the grid's storage.
pub proof fn lemma_idx_bounds(w: int, h: int, x: int, y: int)
    requires
        0 <= x < w,
        0 <= y < h,
    ensures
        0 <= x + y * w < w * h,
{
    assert(0 <= x + y * w < w * h) by (nonlinear_arith)
        requires
            0 <= x < w,
            0 <= y < h,
    ;
}

/// The row-major grid of packed colors being rendered into.
#[derive(Debug, Clone)]
pub struct GraphikBuffer {
    pub width: usize,
    pub height: usize,
    pub buffer: Vec<u32>,
}

impl GraphikBuffer {
    /// The backing storage holds exactly one pixel per grid cell, and both
    /// dimensions fit the signed 32-bit coordinate space of the shapes.
    pub open spec fn wf(self) -> bool {
        &&& self.buffer@.len() == self.width * self.height
        &&& self.width <= i32::MAX
        &&& self.height <= i32::MAX
    }

    pub fn new(width: usize, height: usize) -> (r: Self)
        requires
            width <= i32::MAX,
            height <= i32::MAX,
            width * height <= usize::MAX,
        ensures
            r.wf(),
            r.width == width,
            r.height == height,
            forall|i: int| 0 <= i < r.buffer@.len() ==> r.buffer@[i] == 0u32,
    {
        let n = width * height;
        let mut buffer: Vec<u32> = Vec::new();
        let mut i: usize = 0;
        while i < n
            invariant
                i <= n,
                buffer@.len() == i,
                forall|j: int| 0 <= j < i ==> buffer@[j] == 0u32,
            decreases n - i,
        {
            buffer.push(0);
            i = i + 1;
        }
        Self { width, height, buffer }
    }
}

/// Applies shape descriptors against the pixel buffer it owns.
#[derive(Debug)]
pub struct GraphikBuilder {
    pub buffer: GraphikBuffer,
}

/// The rectangle as it is actually filled: a centered rectangle has its
/// origin recomputed from the buffer dimensions, any other is left as is.
pub open spec fn resolved_rect(r: GraphikRect, w: int, h: int) -> GraphikRect {
    if r.center {
        GraphikRect {
            x0: center_coord(w, r.width as int) as i32,
            y0: center_coord(h, r.height as int) as i32,
            ..r
        }
    } else {
        r
    }
}

/// Whether the rectangle's footprint covers the point `(x, y)`.
pub open spec fn rect_covers(r: GraphikRect, x: int, y: int) -> bool {
    &&& r.x0 <= x < r.x0 + r.width
    &&& r.y0 <= y < r.y0 + r.height
}

/// Whether the in-bounds coordinate `(x, y)` lies in the rectangle's
/// footprint; bounds keep the 64-bit arithmetic exact.
fn rect_covers_at(r: &GraphikRect, x: usize, y: usize) -> (b: bool)
    requires
        x <= i32::MAX,
        y <= i32::MAX,
    ensures
        b == rect_covers(*r, x as int, y as int),
{
    let xi = x as i64;
    let yi = y as i64;
    let x0 = r.x0 as i64;
    let y0 = r.y0 as i64;
    if xi >= x0 && yi >= y0 {
        let dx = (xi - x0) as u64;
        let dy = (yi - y0) as u64;
        dx < r.width as u64 && dy < r.height as u64
    } else {
        false
    }
}

/// A rectangle lying fully inside a `w` by `h` buffer covers exactly
/// `width * height` in-bounds coordinates, so `rect_fill` sets exactly that
/// many pixels to its color and, by its own contract, leaves every other
/// pixel unchanged.
pub proof fn lemma_rect_footprint_count(r: GraphikRect, w: int, h: int)
    requires
        0 <= r.x0,
        0 <= r.y0,
        r.x0 + r.width <= w,
        r.y0 + r.height <= h,
    ensures
        Set::new(|p: (int, int)| 0 <= p.0 < w && 0 <= p.1 < h && rect_covers(r, p.0, p.1)).finite(),
        Set::new(|p: (int, int)| 0 <= p.0 < w && 0 <= p.1 < h && rect_covers(r, p.0, p.1)).len()
            == r.width * r.height,
{
    let x0 = r.x0 as int;
    let y0 = r.y0 as int;
    let rw = r.width as int;
    let rh = r.height as int;
    let covered = Set::new(|p: (int, int)| 0 <= p.0 < w && 0 <= p.1 < h && rect_covers(r, p.0, p.1));
    if rw == 0 || rh == 0 {
        assert(covered =~= Set::<(int, int)>::empty());
        assert(rw * rh == 0) by (nonlinear_arith)
            requires rw == 0 || rh == 0,
        ;
    } else {
        let range = set_int_range(0, rw * rh);
        let g = |i: int| (x0 + i % rw, y0 + i / rw);
        lemma_int_range(0, rw * rh);
        assert forall|p: (int, int)| covered.contains(p) implies range.map(g).contains(p) by {
            let i = (p.1 - y0) * rw + (p.0 - x0);
            assert(0 <= i < rw * rh) by (nonlinear_arith)
                requires
                    0 <= p.0 - x0 < rw,
                    0 <= p.1 - y0 < rh,
                    i == (p.1 - y0) * rw + (p.0 - x0),
            ;
            lemma_fundamental_div_mod_converse(i, rw, p.1 - y0, p.0 - x0);
            assert(range.contains(i) && g(i) == p);
        }
        assert forall|p: (int, int)| range.map(g).contains(p) implies covered.contains(p) by {
            let i = choose|i: int| #[trigger] range.contains(i) && p == g(i);
            lemma_mod_pos_bound(i, rw);
            lemma_div_pos_is_pos(i, rw);
            assert(i <= rw * (rh - 1) + (rw - 1)) by (nonlinear_arith)
                requires
                    i < rw * rh,
                    0 < rw,
            ;
            lemma_div_multiples_vanish_fancy(rh - 1, rw - 1, rw);
            lemma_div_is_ordered(i, rw * (rh - 1) + (rw - 1), rw);
        }
        assert(range.map(g) =~= covered);
        assert forall|i: int, j: int|
            range.contains(i) && range.contains(j) && #[trigger] g(i) == #[trigger] g(j)
            implies i == j by {
            lemma_fundamental_div_mod(i, rw);
            lemma_fundamental_div_mod(j, rw);
        }
        assert(injective_on(g, range));
        lemma_map_size(range, covered, g);
    }
}

/// The circle as it is actually filled: a centered circle has its center
/// recomputed as the buffer midpoint, any other is left as is.
pub open spec fn resolved_circle(c: GraphikCircle, w: int, h: int) -> GraphikCircle {
    if c.center {
        GraphikCircle { x0: (w / 2) as i32, y0: (h / 2) as i32, ..c }
    } else {
        c
    }
}

/// Whether `(x, y)` lies in the closed disk of the circle: the squared
/// distance to the center is at most the squared radius.
pub open spec fn in_disk(c: GraphikCircle, x: int, y: int) -> bool {
    (x - c.x0) * (x - c.x0) + (y - c.y0) * (y - c.y0) <= c.radius * c.radius
}

/// A circle of radius zero covers exactly its center point, since
/// `0 <= 0` always holds and every other point has positive squared
/// distance.
pub proof fn lemma_disk_radius_zero(c: GraphikCircle, x: int, y: int)
    requires
        c.radius == 0,
    ensures
        in_disk(c, x, y) <==> (x == c.x0 && y == c.y0),
{
    assert((x - c.x0) * (x - c.x0) >= 0 && (y - c.y0) * (y - c.y0) >= 0) by (nonlinear_arith);
    if x != c.x0 {
        assert((x - c.x0) * (x - c.x0) > 0) by (nonlinear_arith)
            requires x != c.x0,
        ;
    }
    if y != c.y0 {
        assert((y - c.y0) * (y - c.y0) > 0) by (nonlinear_arith)
            requires y != c.y0,
        ;
    }
}

/// Squaring a value and squaring its absolute value agree.
proof fn lemma_abs_square(d: int)
    ensures
        (if d < 0 { -d } else { d }) * (if d < 0 { -d } else { d }) == d * d,
{
    assert((-d) * (-d) == d * d) by (nonlinear_arith);
}

/// Whether the in-bounds coordinate `(x, y)` passes the circle's squared
/// distance test; the wide arithmetic is exact for all descriptor values.
fn disk_covers_at(c: &GraphikCircle, x: usize, y: usize) -> (b: bool)
    requires
        x <= i32::MAX,
        y <= i32::MAX,
    ensures
        b == in_disk(*c, x as int, y as int),
{
    let dx = x as i64 - c.x0 as i64;
    let dy = y as i64 - c.y0 as i64;
    let adx = if dx < 0 { -dx } else { dx };
    let ady = if dy < 0 { -dy } else { dy };
    proof {
        lemma_abs_square(x as int - c.x0 as int);
        lemma_abs_square(y as int - c.y0 as int);
        assert(adx * adx <= 0x1_0000_0000_0000_0000 && ady * ady <= 0x1_0000_0000_0000_0000)
            by (nonlinear_arith)
            requires
                0 <= adx <= 0x1_0000_0000,
                0 <= ady <= 0x1_0000_0000,
        ;
        assert((c.radius as int) * (c.radius as int)
            < 0x1_0000_0000_0000_0000_0000_0000_0000_0000) by (nonlinear_arith)
            requires
                0 <= c.radius as int <= 0xffff_ffff_ffff_ffff,
        ;
    }
    let lhs = (adx as u128) * (adx as u128) + (ady as u128) * (ady as u128);
    let rhs = (c.radius as u128) * (c.radius as u128);
    lhs <= rhs
}

pub open spec fn abs_val(v: int) -> int {
    if v < 0 {
        -v
    } else {
        v
    }
}

/// The points visited by the midpoint line stepper, current point first:
/// from `(x, y)` it advances `x` by `sx` when `2*err > -dy` and `y` by `sy`
/// when `2*err < dx` (both on a diagonal move), adjusting the error term,
/// until it reaches `(x1, y1)`. The stepper is cut short if a step fails to
/// approach the target, which never happens for the initial error term
/// `dx - dy` (see `line_draw`, whose loop walks this sequence to its end).
pub open spec fn bres_path(
    x: int,
    y: int,
    x1: int,
    y1: int,
    err: int,
    dx: int,
    dy: int,
    sx: int,
    sy: int,
) -> Seq<(int, int)>
    decreases abs_val(x1 - x) + abs_val(y1 - y),
{
    if x == x1 && y == y1 {
        seq![(x, y)]
    } else {
        let e2 = 2 * err;
        let nx = if e2 > -dy { x + sx } else { x };
        let ny = if e2 < dx { y + sy } else { y };
        let nerr = err + (if e2 > -dy { -dy } else { 0 }) + (if e2 < dx { dx } else { 0 });
        if abs_val(x1 - nx) + abs_val(y1 - ny) < abs_val(x1 - x) + abs_val(y1 - y) {
            seq![(x, y)] + bres_path(nx, ny, x1, y1, nerr, dx, dy, sx, sy)
        } else {
            seq![(x, y)]
        }
    }
}

/// The points plotted for a line from `(x0, y0)` to `(x1, y1)`: the stepper
/// started with error term `dx - dy` and unit steps toward the endpoint.
pub open spec fn line_path(x0: int, y0: int, x1: int, y1: int) -> Seq<(int, int)> {
    let dx = abs_val(x1 - x0);
    let dy = abs_val(y1 - y0);
    let sx: int = if x0 < x1 { 1 } else { -1 };
    let sy: int = if y0 < y1 { 1 } else { -1 };
    bres_path(x0, y0, x1, y1, dx - dy, dx, dy, sx, sy)
}

/// The stepper's point sequence is never empty and starts at the current point.
pub proof fn lemma_bres_head(
    x: int,
    y: int,
    x1: int,
    y1: int,
    err: int,
    dx: int,
    dy: int,
    sx: int,
    sy: int,
)
    ensures
        bres_path(x, y, x1, y1, err, dx, dy, sx, sy).len() >= 1,
        bres_path(x, y, x1, y1, err, dx, dy, sx, sy)[0] == (x, y),
{
}

/// The stepper's points form a connected 8-path: consecutive points are
/// distinct and differ by at most one in each coordinate, so the drawn
/// line has no gaps.
pub proof fn lemma_bres_connected(
    x: int,
    y: int,
    x1: int,
    y1: int,
    err: int,
    dx: int,
    dy: int,
    sx: int,
    sy: int,
)
    requires
        sx == 1 || sx == -1,
        sy == 1 || sy == -1,
    ensures
        ({
            let p = bres_path(x, y, x1, y1, err, dx, dy, sx, sy);
            forall|i: int| 0 <= i < p.len() - 1
                ==> abs_val((#[trigger] p[i + 1]).0 - p[i].0) <= 1
                    && abs_val(p[i + 1].1 - p[i].1) <= 1
                    && p[i + 1] != p[i]
        }),
    decreases abs_val(x1 - x) + abs_val(y1 - y),
{
    let p = bres_path(x, y, x1, y1, err, dx, dy, sx, sy);
    if x == x1 && y == y1 {
        assert(p.len() == 1);
    } else {
        let e2 = 2 * err;
        let nx = if e2 > -dy { x + sx } else { x };
        let ny = if e2 < dx { y + sy } else { y };
        let nerr = err + (if e2 > -dy { -dy } else { 0 }) + (if e2 < dx { dx } else { 0 });
        if abs_val(x1 - nx) + abs_val(y1 - ny) < abs_val(x1 - x) + abs_val(y1 - y) {
            let rest = bres_path(nx, ny, x1, y1, nerr, dx, dy, sx, sy);
            lemma_bres_connected(nx, ny, x1, y1, nerr, dx, dy, sx, sy);
            lemma_bres_head(nx, ny, x1, y1, nerr, dx, dy, sx, sy);
            assert(p == seq![(x, y)] + rest);
            assert forall|i: int| 0 <= i < p.len() - 1
                implies abs_val((#[trigger] p[i + 1]).0 - p[i].0) <= 1
                    && abs_val(p[i + 1].1 - p[i].1) <= 1
                    && p[i + 1] != p[i] by {
                if i == 0 {
                    assert(p[0] == (x, y));
                    assert(p[1] == rest[0]);
                    assert(rest[0] == (nx, ny));
                    assert((nx, ny) != (x, y));
                } else {
                    assert(p[i] == rest[i - 1]);
                    assert(p[i + 1] == rest[i]);
                    assert(abs_val((rest[(i - 1) + 1]).0 - rest[i - 1].0) <= 1
                        && abs_val(rest[(i - 1) + 1].1 - rest[i - 1].1) <= 1
                        && rest[(i - 1) + 1] != rest[i - 1]);
                }
            }
        } else {
            assert(p.len() == 1);
        }
    }
}

/// The drawn line is a connected 8-path between its endpoints, with no
/// gaps and no repeated consecutive point.
pub proof fn lemma_line_path_connected(x0: int, y0: int, x1: int, y1: int)
    ensures
        ({
            let p = line_path(x0, y0, x1, y1);
            forall|i: int| 0 <= i < p.len() - 1
                ==> abs_val((#[trigger] p[i + 1]).0 - p[i].0) <= 1
                    && abs_val(p[i + 1].1 - p[i].1) <= 1
                    && p[i + 1] != p[i]
        }),
{
    let dx = abs_val(x1 - x0);
    let dy = abs_val(y1 - y0);
    let sx: int = if x0 < x1 { 1 } else { -1 };
    let sy: int = if y0 < y1 { 1 } else { -1 };
    lemma_bres_connected(x0, y0, x1, y1, dx - dy, dx, dy, sx, sy);
}

/// A purely horizontal run of the stepper visits exactly the integer
/// points from the current column to the target column, in unit steps.
proof fn lemma_bres_axis_x(x: int, y: int, x1: int, err: int, dx: int, sx: int, sy: int)
    requires
        dx >= 1,
        err == dx,
        sx == 1 || sx == -1,
        x != x1 ==> ((sx == 1 && x < x1) || (sx == -1 && x > x1)),
    ensures
        ({
            let p = bres_path(x, y, x1, y, err, dx, 0, sx, sy);
            &&& p.len() == abs_val(x1 - x) + 1
            &&& forall|i: int| 0 <= i < p.len() ==> #[trigger] p[i] == (x + i * sx, y)
        }),
    decreases abs_val(x1 - x),
{
    let p = bres_path(x, y, x1, y, err, dx, 0, sx, sy);
    if x == x1 {
        assert(p == seq![(x, y)]);
        assert forall|i: int| 0 <= i < p.len() implies #[trigger] p[i] == (x + i * sx, y) by {
            assert(0 * sx == 0) by (nonlinear_arith);
        }
    } else {
        let nx = x + sx;
        assert(abs_val(x1 - nx) == abs_val(x1 - x) - 1);
        lemma_bres_axis_x(nx, y, x1, err, dx, sx, sy);
        let rest = bres_path(nx, y, x1, y, err, dx, 0, sx, sy);
        assert(p == seq![(x, y)] + rest);
        assert forall|i: int| 0 <= i < p.len() implies #[trigger] p[i] == (x + i * sx, y) by {
            if i == 0 {
                assert(0 * sx == 0) by (nonlinear_arith);
            } else {
                assert(p[i] == rest[i - 1]);
                assert(rest[i - 1] == (nx + (i - 1) * sx, y));
                assert(nx + (i - 1) * sx == x + i * sx) by (nonlinear_arith)
                    requires nx == x + sx,
                ;
            }
        }
    }
}

/// A purely vertical run of the stepper visits exactly the integer points
/// from the current row to the target row, in unit steps.
proof fn lemma_bres_axis_y(x: int, y: int, y1: int, err: int, dy: int, sx: int, sy: int)
    requires
        dy >= 1,
        err == -dy,
        sy == 1 || sy == -1,
        y != y1 ==> ((sy == 1 && y < y1) || (sy == -1 && y > y1)),
    ensures
        ({
            let p = bres_path(x, y, x, y1, err, 0, dy, sx, sy);
            &&& p.len() == abs_val(y1 - y) + 1
            &&& forall|i: int| 0 <= i < p.len() ==> #[trigger] p[i] == (x, y + i * sy)
        }),
    decreases abs_val(y1 - y),
{
    let p = bres_path(x, y, x, y1, err, 0, dy, sx, sy);
    if y == y1 {
        assert(p == seq![(x, y)]);
        assert forall|i: int| 0 <= i < p.len() implies #[trigger] p[i] == (x, y + i * sy) by {
            assert(0 * sy == 0) by (nonlinear_arith);
        }
    } else {
        let ny = y + sy;
        assert(abs_val(y1 - ny) == abs_val(y1 - y) - 1);
        lemma_bres_axis_y(x, ny, y1, err, dy, sx, sy);
        let rest = bres_path(x, ny, x, y1, err, 0, dy, sx, sy);
        assert(p == seq![(x, y)] + rest);
        assert forall|i: int| 0 <= i < p.len() implies #[trigger] p[i] == (x, y + i * sy) by {
            if i == 0 {
                assert(0 * sy == 0) by (nonlinear_arith);
            } else {
                assert(p[i] == rest[i - 1]);
                assert(rest[i - 1] == (x, ny + (i - 1) * sy));
                assert(ny + (i - 1) * sy == y + i * sy) by (nonlinear_arith)
                    requires ny == y + sy,
                ;
            }
        }
    }
}

/// A purely horizontal line's plotted set is exactly the integer points of
/// the segment: one point per column between the two endpoints, inclusive.
pub proof fn lemma_line_path_horizontal(x0: int, x1: int, y: int)
    ensures
        line_path(x0, y, x1, y).len() == abs_val(x1 - x0) + 1,
        forall|i: int| 0 <= i < line_path(x0, y, x1, y).len()
            ==> #[trigger] line_path(x0, y, x1, y)[i]
                == ((if x0 <= x1 { x0 + i } else { x0 - i }), y),
{
    let sx: int = if x0 < x1 { 1 } else { -1 };
    let sy: int = -1;
    let dx = abs_val(x1 - x0);
    if x0 == x1 {
        assert(line_path(x0, y, x1, y) == seq![(x0, y)]);
    } else {
        lemma_bres_axis_x(x0, y, x1, dx, dx, sx, sy);
        assert forall|i: int| 0 <= i < line_path(x0, y, x1, y).len()
            implies #[trigger] line_path(x0, y, x1, y)[i]
                == ((if x0 <= x1 { x0 + i } else { x0 - i }), y) by {
            assert(line_path(x0, y, x1, y)[i] == (x0 + i * sx, y));
            assert(i * 1 == i && i * (-1) == -i) by (nonlinear_arith);
        }
    }
}

/// A purely vertical line's plotted set is exactly the integer points of
/// the segment: one point per row between the two endpoints, inclusive.
pub proof fn lemma_line_path_vertical(x: int, y0: int, y1: int)
    ensures
        line_path(x, y0, x, y1).len() == abs_val(y1 - y0) + 1,
        forall|i: int| 0 <= i < line_path(x, y0, x, y1).len()
            ==> #[trigger] line_path(x, y0, x, y1)[i]
                == (x, (if y0 <= y1 { y0 + i } else { y0 - i })),
{
    let sx: int = -1;
    let sy: int = if y0 < y1 { 1 } else { -1 };
    let dy = abs_val(y1 - y0);
    if y0 == y1 {
        assert(line_path(x, y0, x, y1) == seq![(x, y0)]);
    } else {
        lemma_bres_axis_y(x, y0, y1, -dy, dy, sx, sy);
        assert forall|i: int| 0 <= i < line_path(x, y0, x, y1).len()
            implies #[trigger] line_path(x, y0, x, y1)[i]
                == (x, (if y0 <= y1 { y0 + i } else { y0 - i })) by {
            assert(line_path(x, y0, x, y1)[i] == (x, y0 + i * sy));
            assert(i * 1 == i && i * (-1) == -i) by (nonlinear_arith);
        }
    }
}

/// Taking one more element of a sequence extends what it contains by
/// exactly that element.
pub proof fn lemma_take_one_more(s: Seq<(int, int)>, k: int)
    requires
        0 <= k < s.len(),
    ensures
        forall|q: (int, int)|
            #[trigger] s.take(k + 1).contains(q) <==> (s.take(k).contains(q) || q == s[k]),
{
    assert forall|q: (int, int)|
        #[trigger] s.take(k + 1).contains(q) <==> (s.take(k).contains(q) || q == s[k]) by {
        if s.take(k + 1).contains(q) {
            let i = choose|i: int| 0 <= i < s.take(k + 1).len() && #[trigger] s.take(k + 1)[i] == q;
            if i < k {
                assert(s.take(k)[i] == q);
            }
        }
        if s.take(k).contains(q) {
            let i = choose|i: int| 0 <= i < s.take(k).len() && #[trigger] s.take(k)[i] == q;
            assert(s.take(k + 1)[i] == q);
        }
        if q == s[k] {
            assert(s.take(k + 1)[k] == q);
        }
    }
}

/// The line as it is actually drawn: a centered axis-aligned line has its
/// fixed coordinate recomputed as the buffer midpoint, with the same
/// flag-clearing side effects as the corresponding builder call; any other
/// line is left as is.
pub open spec fn resolved_line(l: GraphikLine, w: int, h: int) -> GraphikLine {
    if l.center {
        if l.vertical {
            GraphikLine {
                vertical: true,
                horizontal: false,
                center: false,
                x0: (w / 2) as i32,
                x1: (w / 2) as i32,
                ..l
            }
        } else if l.horizontal {
            GraphikLine {
                horizontal: true,
                vertical: false,
                center: false,
                y0: (h / 2) as i32,
                y1: (h / 2) as i32,
                ..l
            }
        } else {
            l
        }
    } else {
        l
    }
}

/// The x-intercept of the edge from `(xa, ya)` to `(xb, yb)` at scanline
/// `y`, by linear interpolation with integer division truncated toward
/// zero. A degenerate edge (`yb <= ya`) is treated as the single point
/// `xa`, so no division by zero arises.
pub open spec fn interp(xa: int, ya: int, xb: int, yb: int, y: int) -> int {
    if yb <= ya {
        xa
    } else {
        let d = xb - xa;
        if d >= 0 {
            xa + d * (y - ya) / (yb - ya)
        } else {
            xa - (-d) * (y - ya) / (yb - ya)
        }
    }
}

/// Whether scanline-filling the sorted triangle `t` covers `(x, y)`: the
/// scanline must lie between `y1` and `y3` inclusive, and `x` must lie in
/// the inclusive span between the long edge's intercept and the intercept
/// of the edge active at that scanline (`1 -> 2` above `y2`, `2 -> 3` from
/// `y2` down).
pub open spec fn tri_covers(t: GraphikTriangle, x: int, y: int) -> bool {
    let xl = interp(t.x1 as int, t.y1 as int, t.x3 as int, t.y3 as int, y);
    let xo = if y < t.y2 {
        interp(t.x1 as int, t.y1 as int, t.x2 as int, t.y2 as int, y)
    } else {
        interp(t.x2 as int, t.y2 as int, t.x3 as int, t.y3 as int, y)
    };
    &&& t.y1 <= y <= t.y3
    &&& (if xl <= xo {
        xl <= x <= xo
    } else {
        xo <= x <= xl
    })
}

/// An interpolated intercept never leaves the interval between its two
/// edge endpoints' x coordinates.
proof fn lemma_interp_bounds(xa: int, ya: int, xb: int, yb: int, y: int)
    requires
        ya <= y <= yb || yb <= ya,
    ensures
        xa <= xb ==> xa <= interp(xa, ya, xb, yb, y) <= xb,
        xb <= xa ==> xb <= interp(xa, ya, xb, yb, y) <= xa,
{
    if yb > ya {
        let d = xb - xa;
        let t = y - ya;
        let den = yb - ya;
        if d >= 0 {
            assert(d * t <= d * den) by (nonlinear_arith)
                requires 0 <= t <= den, d >= 0,
            ;
            lemma_div_is_ordered(d * t, d * den, den);
            lemma_div_multiples_vanish(d, den);
            assert(den * d == d * den) by (nonlinear_arith);
            lemma_div_pos_is_pos(d * t, den);
            assert(d * t >= 0) by (nonlinear_arith)
                requires d >= 0, t >= 0,
            ;
        } else {
            assert((-d) * t <= (-d) * den) by (nonlinear_arith)
                requires 0 <= t <= den, -d >= 0,
            ;
            lemma_div_is_ordered((-d) * t, (-d) * den, den);
            lemma_div_multiples_vanish(-d, den);
            assert(den * (-d) == (-d) * den) by (nonlinear_arith);
            lemma_div_pos_is_pos((-d) * t, den);
            assert((-d) * t >= 0) by (nonlinear_arith)
                requires -d >= 0, t >= 0,
            ;
        }
    }
}

/// Computes `interp` exactly; the widened arithmetic cannot overflow.
fn interp_at(xa: i32, ya: i32, xb: i32, yb: i32, y: i32) -> (r: i64)
    requires
        ya <= y <= yb || yb <= ya,
    ensures
        r == interp(xa as int, ya as int, xb as int, yb as int, y as int),
        i32::MIN <= r <= i32::MAX,
{
    proof {
        lemma_interp_bounds(xa as int, ya as int, xb as int, yb as int, y as int);
    }
    if yb <= ya {
        xa as i64
    } else {
        let d = xb as i64 - xa as i64;
        let t = (y as i64 - ya as i64) as u64;
        let den = (yb as i64 - ya as i64) as u64;
        if d >= 0 {
            proof {
                assert((d as u64) * t <= 0xffff_ffff * 0xffff_ffff) by (nonlinear_arith)
                    requires 0 <= d as u64 <= 0xffff_ffff, 0 <= t <= 0xffff_ffff,
                ;
            }
            let q = ((d as u64) * t) / den;
            proof {
                assert(d * (y - ya) == (d as u64) * t) by (nonlinear_arith)
                    requires d as u64 == d, t == y - ya, d >= 0,
                ;
            }
            xa as i64 + (q as i64)
        } else {
            let nd = (-d) as u64;
            proof {
                assert(nd * t <= 0xffff_ffff * 0xffff_ffff) by (nonlinear_arith)
                    requires 0 <= nd <= 0xffff_ffff, 0 <= t <= 0xffff_ffff,
                ;
            }
            let q = (nd * t) / den;
            proof {
                assert((-d) * (y - ya) == nd * t) by (nonlinear_arith)
                    requires nd == -d, t == y - ya,
                ;
            }
            xa as i64 - (q as i64)
        }
    }
}

/// Whether the in-bounds coordinate `(x, y)` is covered by the sorted
/// triangle's scanline fill.
fn tri_covers_at(t: &GraphikTriangle, x: usize, y: usize) -> (b: bool)
    requires
        t.sorted(),
        x <= i32::MAX,
        y <= i32::MAX,
    ensures
        b == tri_covers(*t, x as int, y as int),
{
    let yi = y as i32;
    if t.y1 <= yi && yi <= t.y3 {
        let xl = interp_at(t.x1, t.y1, t.x3, t.y3, yi);
        let xo = if yi < t.y2 {
            interp_at(t.x1, t.y1, t.x2, t.y2, yi)
        } else {
            interp_at(t.x2, t.y2, t.x3, t.y3, yi)
        };
        let lo = if xl <= xo { xl } else { xo };
        let hi = if xl <= xo { xo } else { xl };
        lo <= x as i64 && x as i64 <= hi
    } else {
        false
    }
}

/// Multiplying by a unit step sign either keeps or negates the value.
proof fn lemma_mul_unit(c: int, s: int)
    requires
        s == 1 || s == -1,
    ensures
        s == 1 ==> c * s == c,
        s == -1 ==> c * s == -c,
{
    assert(c * 1 == c) by (nonlinear_arith);
    assert(c * (-1) == -c) by (nonlinear_arith);
}

/// One step of the line stepper, before it has reached its target: at least
/// one axis advances, neither axis ever advances past its total step count,
/// and the step-count accounting of position, error term and remaining
/// distance is maintained.
proof fn lemma_step_advance(
    gx0: int,
    gy0: int,
    gx1: int,
    gy1: int,
    gdx: int,
    gdy: int,
    gsx: int,
    gsy: int,
    cx: int,
    cy: int,
    x: int,
    y: int,
    err: int,
    stepx: bool,
    stepy: bool,
)
    requires
        x == gx0 + cx * gsx,
        y == gy0 + cy * gsy,
        gx1 == gx0 + gdx * gsx,
        gy1 == gy0 + gdy * gsy,
        0 <= cx <= gdx,
        0 <= cy <= gdy,
        gsx == 1 || gsx == -1,
        gsy == 1 || gsy == -1,
        err == gdx - gdy - cx * gdy + cy * gdx,
        !(x == gx1 && y == gy1),
        stepx == (2 * err > -gdy),
        stepy == (2 * err < gdx),
    ensures
        stepx || stepy,
        stepx ==> cx < gdx,
        stepy ==> cy < gdy,
        abs_val(gx1 - x) == gdx - cx,
        abs_val(gy1 - y) == gdy - cy,
        ({
            let ncx: int = if stepx { cx + 1 } else { cx };
            let ncy: int = if stepy { cy + 1 } else { cy };
            let nx: int = if stepx { x + gsx } else { x };
            let ny: int = if stepy { y + gsy } else { y };
            let nerr: int = err + (if stepx { -gdy } else { 0 }) + (if stepy { gdx } else { 0 });
            &&& nx == gx0 + ncx * gsx
            &&& ny == gy0 + ncy * gsy
            &&& nerr == gdx - gdy - ncx * gdy + ncy * gdx
            &&& abs_val(gx1 - nx) == gdx - ncx
            &&& abs_val(gy1 - ny) == gdy - ncy
            &&& (gx0 <= nx <= gx1 || gx1 <= nx <= gx0)
            &&& (gy0 <= ny <= gy1 || gy1 <= ny <= gy0)
        }),
{
    lemma_mul_unit(cx, gsx);
    lemma_mul_unit(gdx, gsx);
    lemma_mul_unit(cx + 1, gsx);
    lemma_mul_unit(cy, gsy);
    lemma_mul_unit(gdy, gsy);
    lemma_mul_unit(cy + 1, gsy);
    // An axis that has used up its steps never advances again.
    if cx == gdx && cy < gdy {
        assert(2 * err <= -gdy) by (nonlinear_arith)
            requires
                err == gdx - gdy - cx * gdy + cy * gdx,
                cx == gdx,
                0 <= cy < gdy,
                0 <= gdx,
        ;
    }
    if cy == gdy && cx < gdx {
        assert(2 * err >= gdx) by (nonlinear_arith)
            requires
                err == gdx - gdy - cx * gdy + cy * gdx,
                cy == gdy,
                0 <= cx < gdx,
                0 <= gdy,
        ;
    }
    assert((cx + 1) * gdy == cx * gdy + gdy) by (nonlinear_arith);
    assert((cy + 1) * gdx == cy * gdx + gdx) by (nonlinear_arith);
}

impl GraphikBuilder {
    pub open spec fn wf(self) -> bool {
        self.buffer.wf()
    }

    pub fn new(width: usize, height: usize) -> (r: Self)
        requires
            width <= i32::MAX,
            height <= i32::MAX,
            width * height <= usize::MAX,
        ensures
            r.wf(),
            r.buffer.width == width,
            r.buffer.height == height,
            forall|i: int| 0 <= i < r.buffer.buffer@.len() ==> r.buffer.buffer@[i] == 0u32,
    {
        Self { buffer: GraphikBuffer::new(width, height) }
    }

    /// Overwrites every pixel of the buffer with `color`.
    pub fn fill(&mut self, color: u32)
        requires
            old(self).wf(),
        ensures
            final(self).wf(),
            final(self).buffer.width == old(self).buffer.width,
            final(self).buffer.height == old(self).buffer.height,
            final(self).buffer.buffer@.len() == old(self).buffer.buffer@.len(),
            forall|i: int| 0 <= i < final(self).buffer.buffer@.len()
                ==> final(self).buffer.buffer@[i] == color,
    {
        let n = self.buffer.buffer.len();
        let mut i: usize = 0;
        while i < n
            invariant
                i <= n,
                self.buffer.buffer@.len() == n,
                self.buffer.width == old(self).buffer.width,
                self.buffer.height == old(self).buffer.height,
                self.buffer.wf(),
                forall|j: int| 0 <= j < i ==> self.buffer.buffer@[j] == color,
            decreases n - i,
        {
            self.buffer.buffer.set(i, color);
            i = i + 1;
        }
    }

    /// Fills the rectangle's footprint, clipped to the buffer: a centered
    /// rectangle first has its origin recomputed (and written back to the
    /// descriptor), then every in-bounds pixel of the footprint is set to the
    /// rectangle's color and every other pixel is left unchanged.
    pub fn rect_fill(&mut self, rect: &mut GraphikRect)
        requires
            old(self).wf(),
        ensures
            final(self).wf(),
            final(self).buffer.width == old(self).buffer.width,
            final(self).buffer.height == old(self).buffer.height,
            *final(rect) == resolved_rect(
                *old(rect),
                old(self).buffer.width as int,
                old(self).buffer.height as int,
            ),
            forall|x: int, y: int|
                0 <= x < old(self).buffer.width && 0 <= y < old(self).buffer.height
                    ==> #[trigger] pix(final(self).buffer.buffer@, old(self).buffer.width as int, x, y)
                        == (if rect_covers(*final(rect), x, y) {
                            old(rect).color
                        } else {
                            pix(old(self).buffer.buffer@, old(self).buffer.width as int, x, y)
                        }),
    {
        let w = self.buffer.width;
        let h = self.buffer.height;
        if rect.center {
            let x0 = get_center(w, rect.width);
            let y0 = get_center(h, rect.height);
            rect.origin(x0, y0);
        }
        let ghost rr = *rect;
        let ghost pre = self.buffer.buffer@;
        let n = self.buffer.buffer.len();
        let mut y: usize = 0;
        while y < h
            invariant
                y <= h,
                *rect == rr,
                self.buffer.width == w,
                self.buffer.height == h,
                self.buffer.buffer@.len() == pre.len(),
                pre.len() == n,
                self.buffer.wf(),
                forall|xx: int, yy: int|
                    0 <= xx < w && 0 <= yy < h
                        ==> #[trigger] pix(self.buffer.buffer@, w as int, xx, yy)
                            == (if yy < y && rect_covers(rr, xx, yy) {
                                rr.color
                            } else {
                                pix(pre, w as int, xx, yy)
                            }),
            decreases h - y,
        {
            let mut x: usize = 0;
            while x < w
                invariant
                    y < h,
                    x <= w,
                    *rect == rr,
                    self.buffer.width == w,
                    self.buffer.height == h,
                    self.buffer.buffer@.len() == pre.len(),
                    pre.len() == n,
                    self.buffer.wf(),
                    forall|xx: int, yy: int|
                        0 <= xx < w && 0 <= yy < h
                            ==> #[trigger] pix(self.buffer.buffer@, w as int, xx, yy)
                                == (if (yy < y || (yy == y && xx < x)) && rect_covers(rr, xx, yy) {
                                    rr.color
                                } else {
                                    pix(pre, w as int, xx, yy)
                                }),
                decreases w - x,
            {
                if rect_covers_at(rect, x, y) {
                    let ghost before = self.buffer.buffer@;
                    proof {
                        lemma_idx_bounds(w as int, h as int, x as int, y as int);
                    }
                    let i = y * w + x;
                    self.buffer.buffer.set(i, rect.color);
                    proof {
                        assert forall|xx: int, yy: int| 0 <= xx < w && 0 <= yy < h
                            implies #[trigger] pix(self.buffer.buffer@, w as int, xx, yy)
                                == (if (yy < y || (yy == y && xx <= x)) && rect_covers(rr, xx, yy) {
                                    rr.color
                                } else {
                                    pix(pre, w as int, xx, yy)
                                }) by {
                            lemma_idx_bounds(w as int, h as int, xx, yy);
                            if !(xx == x && yy == y) {
                                lemma_idx_distinct(w as int, xx, yy, x as int, y as int);
                                assert(pix(self.buffer.buffer@, w as int, xx, yy)
                                    == pix(before, w as int, xx, yy));
                            }
                        }
                    }
                }
                x = x + 1;
            }
            y = y + 1;
        }
    }

    /// Fills the circle's closed disk, clipped to the buffer: a centered
    /// circle first has its center recomputed as the buffer midpoint (and
    /// written back to the descriptor), then a pixel is set to the circle's
    /// color exactly when its squared distance to the center is at most the
    /// squared radius; every other pixel is left unchanged.
    pub fn circle_fill(&mut self, circle: &mut GraphikCircle)
        requires
            old(self).wf(),
        ensures
            final(self).wf(),
            final(self).buffer.width == old(self).buffer.width,
            final(self).buffer.height == old(self).buffer.height,
            *final(circle) == resolved_circle(
                *old(circle),
                old(self).buffer.width as int,
                old(self).buffer.height as int,
            ),
            forall|x: int, y: int|
                0 <= x < old(self).buffer.width && 0 <= y < old(self).buffer.height
                    ==> #[trigger] pix(final(self).buffer.buffer@, old(self).buffer.width as int, x, y)
                        == (if in_disk(*final(circle), x, y) {
                            old(circle).color
                        } else {
                            pix(old(self).buffer.buffer@, old(self).buffer.width as int, x, y)
                        }),
    {
        let w = self.buffer.width;
        let h = self.buffer.height;
        if circle.center {
            let x0 = (w / 2) as i32;
            let y0 = (h / 2) as i32;
            circle.origin(x0, y0);
        }
        let ghost cc = *circle;
        let ghost pre = self.buffer.buffer@;
        let n = self.buffer.buffer.len();
        let mut y: usize = 0;
        while y < h
            invariant
                y <= h,
                *circle == cc,
                self.buffer.width == w,
                self.buffer.height == h,
                self.buffer.buffer@.len() == pre.len(),
                pre.len() == n,
                self.buffer.wf(),
                forall|xx: int, yy: int|
                    0 <= xx < w && 0 <= yy < h
                        ==> #[trigger] pix(self.buffer.buffer@, w as int, xx, yy)
                            == (if yy < y && in_disk(cc, xx, yy) {
                                cc.color
                            } else {
                                pix(pre, w as int, xx, yy)
                            }),
            decreases h - y,
        {
            let mut x: usize = 0;
            while x < w
                invariant
                    y < h,
                    x <= w,
                    *circle == cc,
                    self.buffer.width == w,
                    self.buffer.height == h,
                    self.buffer.buffer@.len() == pre.len(),
                    pre.len() == n,
                    self.buffer.wf(),
                    forall|xx: int, yy: int|
                        0 <= xx < w && 0 <= yy < h
                            ==> #[trigger] pix(self.buffer.buffer@, w as int, xx, yy)
                                == (if (yy < y || (yy == y && xx < x)) && in_disk(cc, xx, yy) {
                                    cc.color
                                } else {
                                    pix(pre, w as int, xx, yy)
                                }),
                decreases w - x,
            {
                if disk_covers_at(circle, x, y) {
                    let ghost before = self.buffer.buffer@;
                    proof {
                        lemma_idx_bounds(w as int, h as int, x as int, y as int);
                    }
                    let i = y * w + x;
                    self.buffer.buffer.set(i, circle.color);
                    proof {
                        assert forall|xx: int, yy: int| 0 <= xx < w && 0 <= yy < h
                            implies #[trigger] pix(self.buffer.buffer@, w as int, xx, yy)
                                == (if (yy < y || (yy == y && xx <= x)) && in_disk(cc, xx, yy) {
                                    cc.color
                                } else {
                                    pix(pre, w as int, xx, yy)
                                }) by {
                            lemma_idx_bounds(w as int, h as int, xx, yy);
                            if !(xx == x && yy == y) {
                                lemma_idx_distinct(w as int, xx, yy, x as int, y as int);
                                assert(pix(self.buffer.buffer@, w as int, xx, yy)
                                    == pix(before, w as int, xx, yy));
                            }
                        }
                    }
                }
                x = x + 1;
            }
            y = y + 1;
        }
    }

    /// Fills the triangle by horizontal scanlines, clipped to the buffer:
    /// the vertices are first sorted by ascending `y` (and the sorted
    /// triangle written back to the descriptor), then every in-bounds pixel
    /// between the two active edge intercepts of its scanline is set to the
    /// triangle's color and every other pixel is left unchanged.
    pub fn triangle_fill(&mut self, tri: &mut GraphikTriangle)
        requires
            old(self).wf(),
        ensures
            final(self).wf(),
            final(self).buffer.width == old(self).buffer.width,
            final(self).buffer.height == old(self).buffer.height,
            *final(tri) == sort_spec(*old(tri)),
            forall|x: int, y: int|
                0 <= x < old(self).buffer.width && 0 <= y < old(self).buffer.height
                    ==> #[trigger] pix(final(self).buffer.buffer@, old(self).buffer.width as int, x, y)
                        == (if tri_covers(*final(tri), x, y) {
                            old(tri).color
                        } else {
                            pix(old(self).buffer.buffer@, old(self).buffer.width as int, x, y)
                        }),
    {
        let w = self.buffer.width;
        let h = self.buffer.height;
        tri.sort();
        let ghost tt = *tri;
        let ghost pre = self.buffer.buffer@;
        let n = self.buffer.buffer.len();
        let mut y: usize = 0;
        while y < h
            invariant
                y <= h,
                *tri == tt,
                tt.sorted(),
                self.buffer.width == w,
                self.buffer.height == h,
                self.buffer.buffer@.len() == pre.len(),
                pre.len() == n,
                self.buffer.wf(),
                forall|xx: int, yy: int|
                    0 <= xx < w && 0 <= yy < h
                        ==> #[trigger] pix(self.buffer.buffer@, w as int, xx, yy)
                            == (if yy < y && tri_covers(tt, xx, yy) {
                                tt.color
                            } else {
                                pix(pre, w as int, xx, yy)
                            }),
            decreases h - y,
        {
            let mut x: usize = 0;
            while x < w
                invariant
                    y < h,
                    x <= w,
                    *tri == tt,
                    tt.sorted(),
                    self.buffer.width == w,
                    self.buffer.height == h,
                    self.buffer.buffer@.len() == pre.len(),
                    pre.len() == n,
                    self.buffer.wf(),
                    forall|xx: int, yy: int|
                        0 <= xx < w && 0 <= yy < h
                            ==> #[trigger] pix(self.buffer.buffer@, w as int, xx, yy)
                                == (if (yy < y || (yy == y && xx < x)) && tri_covers(tt, xx, yy) {
                                    tt.color
                                } else {
                                    pix(pre, w as int, xx, yy)
                                }),
                decreases w - x,
            {
                if tri_covers_at(tri, x, y) {
                    let ghost before = self.buffer.buffer@;
                    proof {
                        lemma_idx_bounds(w as int, h as int, x as int, y as int);
                    }
                    let i = y * w + x;
                    self.buffer.buffer.set(i, tri.color);
                    proof {
                        assert forall|xx: int, yy: int| 0 <= xx < w && 0 <= yy < h
                            implies #[trigger] pix(self.buffer.buffer@, w as int, xx, yy)
                                == (if (yy < y || (yy == y && xx <= x)) && tri_covers(tt, xx, yy) {
                                    tt.color
                                } else {
                                    pix(pre, w as int, xx, yy)
                                }) by {
                            lemma_idx_bounds(w as int, h as int, xx, yy);
                            if !(xx == x && yy == y) {
                                lemma_idx_distinct(w as int, xx, yy, x as int, y as int);
                                assert(pix(self.buffer.buffer@, w as int, xx, yy)
                                    == pix(before, w as int, xx, yy));
                            }
                        }
                    }
                }
                x = x + 1;
            }
            y = y + 1;
        }
    }

    /// Resolves a centered axis-aligned line against the buffer dimensions,
    /// reusing the corresponding builder's flag-clearing semantics.
    fn process_line_vertices(&self, line: &mut GraphikLine, width: usize, height: usize)
        requires
            width <= i32::MAX,
            height <= i32::MAX,
        ensures
            *final(line) == resolved_line(*old(line), width as int, height as int),
    {
        if line.center {
            if line.vertical {
                let center_x = (width / 2) as i32;
                line.vertical(center_x, line.y0, line.y1);
            } else if line.horizontal {
                let center_y = (height / 2) as i32;
                line.horizontal(center_y, line.x0, line.x1);
            }
        }
    }

    /// Draws the line with the midpoint integer stepper: a centered
    /// axis-aligned line first has its fixed coordinate recomputed (and
    /// written back to the descriptor); then exactly the points of
    /// `line_path` between the two endpoints are set to the line's color
    /// where they fall inside the buffer, every other pixel is left
    /// unchanged, and both endpoints are always plotted when in bounds.
    pub fn line_draw(&mut self, line: &mut GraphikLine)
        requires
            old(self).wf(),
        ensures
            final(self).wf(),
            final(self).buffer.width == old(self).buffer.width,
            final(self).buffer.height == old(self).buffer.height,
            *final(line) == resolved_line(
                *old(line),
                old(self).buffer.width as int,
                old(self).buffer.height as int,
            ),
            forall|x: int, y: int|
                0 <= x < old(self).buffer.width && 0 <= y < old(self).buffer.height
                    ==> #[trigger] pix(final(self).buffer.buffer@, old(self).buffer.width as int, x, y)
                        == (if line_path(
                            final(line).x0 as int,
                            final(line).y0 as int,
                            final(line).x1 as int,
                            final(line).y1 as int,
                        ).contains((x, y)) {
                            final(line).color
                        } else {
                            pix(old(self).buffer.buffer@, old(self).buffer.width as int, x, y)
                        }),
            0 <= final(line).x0 < old(self).buffer.width && 0 <= final(line).y0 < old(self).buffer.height
                ==> pix(
                    final(self).buffer.buffer@,
                    old(self).buffer.width as int,
                    final(line).x0 as int,
                    final(line).y0 as int,
                ) == final(line).color,
            0 <= final(line).x1 < old(self).buffer.width && 0 <= final(line).y1 < old(self).buffer.height
                ==> pix(
                    final(self).buffer.buffer@,
                    old(self).buffer.width as int,
                    final(line).x1 as int,
                    final(line).y1 as int,
                ) == final(line).color,
    {
        let w = self.buffer.width;
        let h = self.buffer.height;
        self.process_line_vertices(line, w, h);

        let color = line.color;
        let mut x0 = line.x0;
        let mut y0 = line.y0;
        let x1 = line.x1;
        let y1 = line.y1;
        let ddx = x1 as i64 - x0 as i64;
        let ddy = y1 as i64 - y0 as i64;
        let dx = if ddx < 0 { -ddx } else { ddx };
        let dy = if ddy < 0 { -ddy } else { ddy };
        let sx: i32 = if x0 < x1 { 1 } else { -1 };
        let sy: i32 = if y0 < y1 { 1 } else { -1 };
        let mut err: i64 = dx - dy;

        let ghost gx0 = x0 as int;
        let ghost gy0 = y0 as int;
        let ghost gx1 = x1 as int;
        let ghost gy1 = y1 as int;
        let ghost gdx = dx as int;
        let ghost gdy = dy as int;
        let ghost gsx = sx as int;
        let ghost gsy = sy as int;
        let ghost path = line_path(gx0, gy0, gx1, gy1);
        let ghost pre = self.buffer.buffer@;
        let n = self.buffer.buffer.len();
        let ghost mut cx: int = 0;
        let ghost mut cy: int = 0;
        let ghost mut k: int = 0;

        proof {
            assert(path == bres_path(gx0, gy0, gx1, gy1, gdx - gdy, gdx, gdy, gsx, gsy));
            assert(path.skip(0) =~= path);
            lemma_mul_unit(gdx, gsx);
            lemma_mul_unit(gdy, gsy);
            assert(cx * gsx == 0) by (nonlinear_arith)
                requires cx == 0,
            ;
            assert(cy * gsy == 0) by (nonlinear_arith)
                requires cy == 0,
            ;
            assert(cx * gdy == 0 && cy * gdx == 0) by (nonlinear_arith)
                requires cx == 0 && cy == 0,
            ;
        }

        loop
            invariant_except_break
                self.buffer.width == w,
                self.buffer.height == h,
                self.buffer.buffer@.len() == pre.len(),
                pre.len() == n,
                self.buffer.wf(),
                x0 as int == gx0 + cx * gsx,
                y0 as int == gy0 + cy * gsy,
                gx1 == gx0 + gdx * gsx,
                gy1 == gy0 + gdy * gsy,
                0 <= cx <= gdx,
                0 <= cy <= gdy,
                gsx == 1 || gsx == -1,
                gsy == 1 || gsy == -1,
                gsx == sx as int,
                gsy == sy as int,
                gdx == dx as int,
                gdy == dy as int,
                gx1 == x1 as int,
                gy1 == y1 as int,
                i32::MIN <= gx0 <= i32::MAX,
                i32::MIN <= gy0 <= i32::MAX,
                0 <= gdx <= 0x1_0000_0000,
                0 <= gdy <= 0x1_0000_0000,
                err as int == gdx - gdy - cx * gdy + cy * gdx,
                -2 * gdy <= err as int <= 2 * gdx,
                0 <= k,
                k <= path.len(),
                path.skip(k) == bres_path(
                    x0 as int,
                    y0 as int,
                    gx1,
                    gy1,
                    err as int,
                    gdx,
                    gdy,
                    gsx,
                    gsy,
                ),
                forall|xx: int, yy: int|
                    0 <= xx < w && 0 <= yy < h
                        ==> #[trigger] pix(self.buffer.buffer@, w as int, xx, yy)
                            == (if path.take(k).contains((xx, yy)) {
                                color
                            } else {
                                pix(pre, w as int, xx, yy)
                            }),
            ensures
                x0 == x1 && y0 == y1,
                self.buffer.width == w,
                self.buffer.height == h,
                self.buffer.buffer@.len() == pre.len(),
                self.buffer.wf(),
                path[path.len() - 1] == (gx1, gy1),
                forall|xx: int, yy: int|
                    0 <= xx < w && 0 <= yy < h
                        ==> #[trigger] pix(self.buffer.buffer@, w as int, xx, yy)
                            == (if path.contains((xx, yy)) {
                                color
                            } else {
                                pix(pre, w as int, xx, yy)
                            }),
            decreases gdx - cx + gdy - cy,
        {
            proof {
                lemma_bres_head(
                    x0 as int, y0 as int, gx1, gy1, err as int, gdx, gdy, gsx, gsy,
                );
                assert(path.skip(k).len() >= 1);
                assert(k < path.len());
                assert(path[k] == (x0 as int, y0 as int));
                lemma_take_one_more(path, k);
            }
            if 0 <= x0 && x0 < w as i32 && 0 <= y0 && y0 < h as i32 {
                let ghost before = self.buffer.buffer@;
                proof {
                    lemma_idx_bounds(w as int, h as int, x0 as int, y0 as int);
                }
                let i = (y0 as usize) * w + (x0 as usize);
                self.buffer.buffer.set(i, color);
                proof {
                    assert forall|xx: int, yy: int| 0 <= xx < w && 0 <= yy < h
                        implies #[trigger] pix(self.buffer.buffer@, w as int, xx, yy)
                            == (if path.take(k + 1).contains((xx, yy)) {
                                color
                            } else {
                                pix(pre, w as int, xx, yy)
                            }) by {
                        lemma_idx_bounds(w as int, h as int, xx, yy);
                        if !(xx == x0 as int && yy == y0 as int) {
                            lemma_idx_distinct(w as int, xx, yy, x0 as int, y0 as int);
                            assert(pix(self.buffer.buffer@, w as int, xx, yy)
                                == pix(before, w as int, xx, yy));
                        }
                    }
                }
            } else {
                proof {
                    assert forall|xx: int, yy: int| 0 <= xx < w && 0 <= yy < h
                        implies #[trigger] pix(self.buffer.buffer@, w as int, xx, yy)
                            == (if path.take(k + 1).contains((xx, yy)) {
                                color
                            } else {
                                pix(pre, w as int, xx, yy)
                            }) by {
                        assert((xx, yy) != (x0 as int, y0 as int));
                    }
                }
            }
            if x0 == x1 && y0 == y1 {
                proof {
                    assert(path.skip(k) =~= seq![(x0 as int, y0 as int)]);
                    assert(path.len() == k + 1);
                    assert(path.take(k + 1) =~= path);
                    assert(path[path.len() - 1] == (gx1, gy1));
                }
                break;
            }
            let e2 = 2 * err;
            let ghost px = x0 as int;
            let ghost py = y0 as int;
            let ghost perr = err as int;
            proof {
                lemma_step_advance(
                    gx0, gy0, gx1, gy1, gdx, gdy, gsx, gsy, cx, cy, px, py, perr,
                    2 * perr > -gdy, 2 * perr < gdx,
                );
            }
            if e2 > -dy {
                err = err - dy;
                x0 = x0 + sx;
                proof {
                    cx = cx + 1;
                }
            }
            if e2 < dx {
                err = err + dx;
                y0 = y0 + sy;
                proof {
                    cy = cy + 1;
                }
            }
            proof {
                assert(bres_path(px, py, gx1, gy1, perr, gdx, gdy, gsx, gsy)
                    == seq![(px, py)] + bres_path(
                        x0 as int, y0 as int, gx1, gy1, err as int, gdx, gdy, gsx, gsy,
                    ));
                assert(path.skip(k + 1) =~= path.skip(k).skip(1));
                assert((seq![(px, py)] + bres_path(
                    x0 as int, y0 as int, gx1, gy1, err as int, gdx, gdy, gsx, gsy,
                )).skip(1) =~= bres_path(
                    x0 as int, y0 as int, gx1, gy1, err as int, gdx, gdy, gsx, gsy,
                ));
                lemma_bres_head(
                    x0 as int, y0 as int, gx1, gy1, err as int, gdx, gdy, gsx, gsy,
                );
                k = k + 1;
            }
        }

        proof {
            lemma_bres_head(gx0, gy0, gx1, gy1, gdx - gdy, gdx, gdy, gsx, gsy);
            assert(path[0] == (gx0, gy0));
            assert(path.contains((gx0, gy0)));
            assert(path.contains((gx1, gy1)));
        }
    }
}

} // verus!
