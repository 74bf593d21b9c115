use vstd::prelude::*;

use crate::color::Color;
use crate::sprite::{DrawSpriteTrait, Sprite};
use crate::text::{draw_text_on, text_fits, text_points};
use crate::vector2::{Vi2d, Vu2d, Vec2d};

verus! {

/// The Drawing Mode used
#[derive(Debug, Copy, Clone, PartialEq, Eq, Structural)]
pub enum PixelMode {
    /// Basic drawing mode
    /// The pixel data after the draw will be the same as the pixel given
    Normal,
    /// Using Alpha in the Draw, Will be more computaion heavy
    /// You should only activate when you need the alpha blending and then change it back
    Alpha,
    /// Will draw only if the alpha is equals to 255
    Mask,
}

/// What drawing one pixel does to a target.
#[derive(Debug, Copy, Clone, PartialEq, Eq, Structural)]
pub enum DrawAction {
    /// Nothing changes
    Skip,
    /// The pixel at this position takes the drawn color
    Write(Vu2d),
    /// The pixel at this position takes the drawn color blended over its current one
    Blend(Vu2d),
}

/// What drawing `col` at `pos` on a target of `size` does in pixel mode `mode`: nothing
/// outside the target; inside it, `Normal` sets the pixel, `Mask` sets it only for a fully
/// opaque color, and `Alpha` blends the color over the pixel.
pub open spec fn spec_draw_action(size: Vu2d, pos: Vi2d, col: Color, mode: PixelMode) -> DrawAction {
    if pos.x < 0 || pos.y < 0 || pos.x >= size.x || pos.y >= size.y {
        DrawAction::Skip
    } else {
        let p = Vec2d { x: pos.x as u32, y: pos.y as u32 };
        match mode {
            PixelMode::Normal => DrawAction::Write(p),
            PixelMode::Mask => if col.a == 255 {
                DrawAction::Write(p)
            } else {
                DrawAction::Skip
            },
            PixelMode::Alpha => DrawAction::Blend(p),
        }
    }
}

/// What drawing `col` at `pos` on a target of `size` does in pixel mode `mode`.
pub fn draw_action(size: Vu2d, pos: Vi2d, col: Color, mode: PixelMode) -> (a: DrawAction)
    ensures
        a == spec_draw_action(size, pos, col, mode),
{
    if pos.x < 0 || pos.y < 0 || pos.x as u32 >= size.x || pos.y as u32 >= size.y {
        return DrawAction::Skip;
    }
    let p = Vec2d { x: pos.x as u32, y: pos.y as u32 };
    match mode {
        PixelMode::Normal => DrawAction::Write(p),
        PixelMode::Mask => if col.a == 255 {
            DrawAction::Write(p)
        } else {
            DrawAction::Skip
        },
        PixelMode::Alpha => DrawAction::Blend(p),
    }
}

/// How the pixel modes relate. A point outside the target is never touched. Inside it,
/// `Normal` writes the point itself and `Alpha` blends at the point itself; `Mask` does what
/// `Normal` does for a fully opaque color (alpha 255) and nothing for any other color.
pub proof fn lemma_pixel_modes(size: Vu2d, pos: Vi2d, col: Color)
    ensures
        !(0 <= pos.x < size.x && 0 <= pos.y < size.y) ==> {
            &&& spec_draw_action(size, pos, col, PixelMode::Normal) == DrawAction::Skip
            &&& spec_draw_action(size, pos, col, PixelMode::Mask) == DrawAction::Skip
            &&& spec_draw_action(size, pos, col, PixelMode::Alpha) == DrawAction::Skip
        },
        0 <= pos.x < size.x && 0 <= pos.y < size.y ==> {
            &&& spec_draw_action(size, pos, col, PixelMode::Normal) matches DrawAction::Write(p) && p.x == pos.x && p.y == pos.y
            &&& spec_draw_action(size, pos, col, PixelMode::Alpha) matches DrawAction::Blend(p) && p.x == pos.x && p.y == pos.y
        },
        col.a == 255 ==> spec_draw_action(size, pos, col, PixelMode::Mask) == spec_draw_action(size, pos, col, PixelMode::Normal),
        col.a != 255 ==> spec_draw_action(size, pos, col, PixelMode::Mask) == DrawAction::Skip,
{
}

/// Something that can be drawn on pixel by pixel, through a pixel mode.
///
/// As for [`DrawSpriteTrait`], the model (`drawn`, `cleared`, `textsheet`, `pixel_mode`) has
/// unspecified default definitions, for implementations outside verified code.
pub trait SmartDrawingTrait: DrawSpriteTrait + Sized {
    /// What the target is after drawing `col` at `pos`.
    open spec fn drawn(self, pos: Vi2d, col: Color) -> Self {
        arbitrary()
    }

    /// What the target is after clearing it with `col`.
    open spec fn cleared(self, col: Color) -> Self {
        arbitrary()
    }

    /// The text sheet that text is drawn from.
    open spec fn textsheet(&self) -> Sprite {
        arbitrary()
    }

    /// The current pixel mode.
    open spec fn pixel_mode(&self) -> PixelMode {
        arbitrary()
    }

    /// Get the size of the target
    fn get_size(&self) -> (s: Vu2d)
        ensures
            s == self.spec_dims(),
    ;

    /// Get The textsheet (A [`Sprite`])
    fn get_textsheet(&self) -> (t: &Sprite)
        ensures
            *t == self.textsheet(),
            t.wf(),
    ;

    /// Clear the target with the given [`Color`]
    fn clear(&mut self, col: Color)
        ensures
            *final(self) == old(self).cleared(col),
    ;

    /// Set the pixel data at the given coordinates to the given Color,
    /// through the current [`PixelMode`]
    fn draw(&mut self, pos: Vi2d, col: Color)
        ensures
            *final(self) == old(self).drawn(pos, col),
    ;

    /// Return the [`PixelMode`]
    fn get_pixel_mode(&self) -> (m: PixelMode)
        ensures
            m == self.pixel_mode(),
    ;

    /// Set the [`PixelMode`]
    fn set_pixel_mode(&mut self, mode: PixelMode)
        ensures
            final(self).pixel_mode() == mode,
    ;
}

/// The target after drawing `col` at each of `pts`, in order.
pub open spec fn draw_all<T: SmartDrawingTrait>(t: T, pts: Seq<Vi2d>, col: Color) -> T
    decreases pts.len(),
{
    if pts.len() == 0 {
        t
    } else {
        draw_all(t, pts.drop_last(), col).drawn(pts.last(), col)
    }
}

/// The target after drawing each point of `pts` in its own color, in order.
pub open spec fn draw_each<T: SmartDrawingTrait>(t: T, pts: Seq<(Vi2d, Color)>) -> T
    decreases pts.len(),
{
    if pts.len() == 0 {
        t
    } else {
        draw_each(t, pts.drop_last()).drawn(pts.last().0, pts.last().1)
    }
}

/// The points with no negative coordinate, in order.
pub open spec fn keep_visible(s: Seq<Vi2d>) -> Seq<Vi2d>
    decreases s.len(),
{
    if s.len() == 0 {
        s
    } else if s.last().x >= 0 && s.last().y >= 0 {
        keep_visible(s.drop_last()).push(s.last())
    } else {
        keep_visible(s.drop_last())
    }
}

/// |v|
pub open spec fn abs(v: int) -> int {
    if v < 0 {
        -v
    } else {
        v
    }
}

/// The direction of `v`: -1 when negative, 1 otherwise.
pub open spec fn sgn(v: int) -> int {
    if v < 0 {
        -1
    } else {
        1
    }
}

/// How far the minor coordinate of the `i`-th point of a line has moved, for a line
/// that moves `a` along the minor axis while it moves `n` along the major one: the
/// nearest whole number to `i * a / n`, halves rounded down.
pub open spec fn bres_offset(i: int, a: int, n: int) -> int {
    (2 * i * a + n - 1) / (2 * n)
}

/// The points of a line from `(x0, y0)` to `(x1, y1)` that is wider than high
/// (`x0 < x1`): one point per column from `x0` to `x1`, both included.
pub open spec fn x_major_points(x0: int, y0: int, x1: int, y1: int) -> Seq<Vi2d> {
    Seq::new(
        (x1 - x0 + 1) as nat,
        |i: int|
            Vec2d {
                x: (x0 + i) as i32,
                y: (y0 + sgn(y1 - y0) * bres_offset(i, abs(y1 - y0), x1 - x0)) as i32,
            },
    )
}

/// The points of a line from `(x0, y0)` to `(x1, y1)` that is at least as high as wide
/// (`y0 < y1`): one point per row from `y0` to `y1`, both included.
pub open spec fn y_major_points(x0: int, y0: int, x1: int, y1: int) -> Seq<Vi2d> {
    Seq::new(
        (y1 - y0 + 1) as nat,
        |j: int|
            Vec2d {
                x: (x0 + sgn(x1 - x0) * bres_offset(j, abs(x1 - x0), y1 - y0)) as i32,
                y: (y0 + j) as i32,
            },
    )
}

/// The points of column `x` from row `lo` to row `hi`, both included.
pub open spec fn column_points(x: i32, lo: int, hi: int) -> Seq<Vi2d> {
    Seq::new((hi - lo + 1) as nat, |k: int| Vec2d { x, y: (lo + k) as i32 })
}

/// The points of row `y` from column `lo` to column `hi`, both included.
pub open spec fn row_points(y: i32, lo: int, hi: int) -> Seq<Vi2d> {
    Seq::new((hi - lo + 1) as nat, |k: int| Vec2d { x: (lo + k) as i32, y })
}

/// The points that [`ShapesTrait::draw_line`] draws, in order. A vertical or horizontal
/// line covers every point between its ends, both included, from the lower end up.
/// Otherwise the line is stepped along its longer axis from its lower end to its upper
/// end, both included (Bresenham); points with a negative coordinate are left out.
pub open spec fn line_points(p1: Vi2d, p2: Vi2d) -> Seq<Vi2d> {
    let (x0, y0, x1, y1) = (p1.x as int, p1.y as int, p2.x as int, p2.y as int);
    if x0 == x1 {
        column_points(p1.x, if y1 > y0 { y0 } else { y1 }, if y1 > y0 { y1 } else { y0 })
    } else if y0 == y1 {
        row_points(p1.y, if x1 > x0 { x0 } else { x1 }, if x1 > x0 { x1 } else { x0 })
    } else if abs(y1 - y0) < abs(x1 - x0) {
        if x0 > x1 {
            keep_visible(x_major_points(x1, y1, x0, y0))
        } else {
            keep_visible(x_major_points(x0, y0, x1, y1))
        }
    } else {
        if y0 > y1 {
            keep_visible(y_major_points(x1, y1, x0, y0))
        } else {
            keep_visible(y_major_points(x0, y0, x1, y1))
        }
    }
}

/// The order of a line's two ends does not matter: both orders give the same points, in
/// the same order.
pub proof fn lemma_line_symmetric(p1: Vi2d, p2: Vi2d)
    ensures
        line_points(p1, p2) == line_points(p2, p1),
{
}

/// Whether a line between the two points can be drawn: a slanted line must span less
/// than 2^30 along each axis (the stepping arithmetic works in `i32`).
pub open spec fn line_fits(p1: Vi2d, p2: Vi2d) -> bool {
    p1.x == p2.x || p1.y == p2.y || (abs(p2.x - p1.x) < 0x4000_0000 && abs(p2.y - p1.y)
        < 0x4000_0000)
}

/// The pattern turned left by one bit.
pub open spec fn rotate_once(q: u32) -> u32 {
    (q << 1u32) | (q >> 31u32)
}

/// The pattern turned left by `n` bits.
pub open spec fn rotl(p: u32, n: nat) -> u32
    decreases n,
{
    if n == 0 {
        p
    } else {
        rotate_once(rotl(p, (n - 1) as nat))
    }
}

/// The points of `s` that a dotted line with `pattern` draws: before each point the pattern
/// turns left by one bit, and the point is drawn when the lowest bit is then set.
pub open spec fn dotted_points(s: Seq<Vi2d>, pattern: u32) -> Seq<Vi2d>
    decreases s.len(),
{
    if s.len() == 0 {
        s
    } else if rotl(pattern, s.len()) & 1 == 1 {
        dotted_points(s.drop_last(), pattern).push(s.last())
    } else {
        dotted_points(s.drop_last(), pattern)
    }
}

/// All of `s`, or its dotted selection when `dotted`.
pub open spec fn pen_select(s: Seq<Vi2d>, dotted: bool, pattern: u32) -> Seq<Vi2d> {
    if dotted {
        dotted_points(s, pattern)
    } else {
        s
    }
}

/// The selection of a sequence that grows by one point.
proof fn lemma_pen_select_push(s: Seq<Vi2d>, p: Vi2d, dotted: bool, pattern: u32)
    ensures
        pen_select(s.push(p), dotted, pattern) == if !dotted || rotl(pattern, s.len() + 1) & 1 == 1 {
            pen_select(s, dotted, pattern).push(p)
        } else {
            pen_select(s, dotted, pattern)
        },
{
    assert(s.push(p).drop_last() =~= s);
    assert(s.push(p).len() == s.len() + 1);
}

/// Offer one point of a line to the pen. A dotted pen first turns its pattern by one bit
/// and draws only when the lowest bit is then set; a plain pen always draws.
fn pen_put<T: SmartDrawingTrait>(t: &mut T, p: Vi2d, col: Color, dotted: bool, cur: u32) -> (next: u32)
    ensures
        next == if dotted {
            rotate_once(cur)
        } else {
            cur
        },
        *final(t) == if !dotted || next & 1 == 1 {
            old(t).drawn(p, col)
        } else {
            *old(t)
        },
{
    if dotted {
        let next = (cur << 1u32) | (cur >> 31u32);
        if next & 1 == 1 {
            t.draw(p, col);
        }
        next
    } else {
        t.draw(p, col);
        cur
    }
}

/// Drawing one more point after a sequence is drawing the sequence, then that point.
pub proof fn lemma_draw_all_push<T: SmartDrawingTrait>(t: T, pts: Seq<Vi2d>, p: Vi2d, col: Color)
    ensures
        draw_all(t, pts.push(p), col) == draw_all(t, pts, col).drawn(p, col),
{
    assert(pts.push(p).drop_last() =~= pts);
}

/// Drawing one more colored point after a sequence.
pub proof fn lemma_draw_each_push<T: SmartDrawingTrait>(t: T, pts: Seq<(Vi2d, Color)>, p: (Vi2d, Color))
    ensures
        draw_each(t, pts.push(p)) == draw_each(t, pts).drawn(p.0, p.1),
{
    assert(pts.push(p).drop_last() =~= pts);
}

/// The visible points of a longer prefix: those of the shorter one, and the new point
/// when it has no negative coordinate.
proof fn lemma_keep_visible_take(s: Seq<Vi2d>, i: int)
    requires
        0 <= i < s.len(),
    ensures
        keep_visible(s.take(i + 1)) == if s[i].x >= 0 && s[i].y >= 0 {
            keep_visible(s.take(i)).push(s[i])
        } else {
            keep_visible(s.take(i))
        },
{
    assert(s.take(i + 1).drop_last() =~= s.take(i));
    assert(s.take(i + 1).last() == s[i]);
}

/// The first point of a stepped line has not moved along the minor axis.
proof fn lemma_bres_start(a: int, n: int)
    requires
        n >= 1,
        0 <= a,
    ensures
        bres_offset(0, a, n) == 0,
{
    assert(2 * 0 * a == 0) by (nonlinear_arith);
    vstd::arithmetic::div_mod::lemma_fundamental_div_mod_converse(n - 1, 2 * n, 0, n - 1);
}

/// One step along a line moves along the minor axis by one exactly when the decision
/// value `2 (i + 1) a - n - 2 n k` is positive.
proof fn lemma_bres_step(i: int, a: int, n: int)
    requires
        n >= 1,
        0 <= a <= n,
        0 <= i,
    ensures
        bres_offset(i + 1, a, n) == bres_offset(i, a, n) + if 2 * (i + 1) * a - n - 2 * n
            * bres_offset(i, a, n) > 0 {
            1int
        } else {
            0int
        },
{
    let m = 2 * n;
    let big = 2 * i * a + n - 1;
    let k = big / m;
    let r = big % m;
    vstd::arithmetic::div_mod::lemma_fundamental_div_mod(big, m);
    assert(0 <= r < m);
    assert(big == m * k + r);
    let big2 = 2 * (i + 1) * a + n - 1;
    assert(big2 == big + 2 * a) by (nonlinear_arith)
        requires
            big2 == 2 * (i + 1) * a + n - 1,
            big == 2 * i * a + n - 1,
    ;
    assert(2 * (i + 1) * a - n - 2 * n * k == r + 2 * a + 1 - m) by (nonlinear_arith)
        requires
            big2 == big + 2 * a,
            big2 == 2 * (i + 1) * a + n - 1,
            big == m * k + r,
            m == 2 * n,
    ;
    if r + 2 * a >= m {
        assert(big2 == (k + 1) * m + (r + 2 * a - m)) by (nonlinear_arith)
            requires
                big2 == big + 2 * a,
                big == m * k + r,
        ;
        vstd::arithmetic::div_mod::lemma_fundamental_div_mod_converse(big2, m, k + 1, r + 2 * a - m);
    } else {
        assert(big2 == k * m + (r + 2 * a)) by (nonlinear_arith)
            requires
                big2 == big + 2 * a,
                big == m * k + r,
        ;
        vstd::arithmetic::div_mod::lemma_fundamental_div_mod_converse(big2, m, k, r + 2 * a);
    }
}

/// Along a line, the minor axis moves between 0 and `a` (at most `a + 1` one step past
/// the end).
proof fn lemma_bres_bound(i: int, a: int, n: int)
    requires
        n >= 1,
        0 <= a <= n,
        0 <= i <= n + 1,
    ensures
        0 <= bres_offset(i, a, n),
        i <= n ==> bres_offset(i, a, n) <= a,
        bres_offset(i, a, n) <= a + 1,
{
    let m = 2 * n;
    let big = 2 * i * a + n - 1;
    let k = big / m;
    vstd::arithmetic::div_mod::lemma_fundamental_div_mod(big, m);
    assert(0 <= big) by (nonlinear_arith)
        requires
            big == 2 * i * a + n - 1,
            n >= 1,
            i >= 0,
            a >= 0,
    ;
    assert(0 <= k) by (nonlinear_arith)
        requires
            big == m * k + big % m,
            0 <= big % m < m,
            0 <= big,
    ;
    if i <= n {
        assert(k <= a) by (nonlinear_arith)
            requires
                big == m * k + big % m,
                0 <= big % m < m,
                big == 2 * i * a + n - 1,
                m == 2 * n,
                i <= n,
                0 <= i,
                0 <= a,
                n >= 1,
        ;
    }
    assert(k <= a + 1) by (nonlinear_arith)
        requires
            big == m * k + big % m,
            0 <= big % m < m,
            big == 2 * i * a + n - 1,
            m == 2 * n,
            i <= n + 1,
            0 <= i,
            0 <= a <= n,
            n >= 1,
    ;
}

/// Draw column `x` from row `lo` to row `hi`, both included, with the pen.
fn draw_column<T: SmartDrawingTrait>(t: &mut T, x: i32, lo: i32, hi: i32, col: Color, dotted: bool, pattern: u32)
    requires
        lo <= hi,
    ensures
        *final(t) == draw_all(*old(t), pen_select(column_points(x, lo as int, hi as int), dotted, pattern), col),
{
    let ghost start = *t;
    let ghost pts = column_points(x, lo as int, hi as int);
    let mut cur = pattern;
    let mut y: i64 = lo as i64;
    while y <= hi as i64
        invariant
            lo <= y <= hi + 1,
            pts == column_points(x, lo as int, hi as int),
            dotted ==> cur == rotl(pattern, (y - lo) as nat),
            *t == draw_all(start, pen_select(pts.take(y - lo), dotted, pattern), col),
        decreases hi - y + 1,
    {
        let p = Vec2d { x, y: y as i32 };
        proof {
            assert(pts[y - lo] == p);
            assert(pts.take(y - lo + 1) =~= pts.take(y - lo).push(p));
            lemma_pen_select_push(pts.take(y - lo), p, dotted, pattern);
            lemma_draw_all_push(start, pen_select(pts.take(y - lo), dotted, pattern), p, col);
        }
        cur = pen_put(t, p, col, dotted, cur);
        y = y + 1;
    }
    proof {
        assert(pts.take(y - lo) =~= pts);
    }
}

/// Draw row `y` from column `lo` to column `hi`, both included, with the pen.
fn draw_row<T: SmartDrawingTrait>(t: &mut T, y: i32, lo: i32, hi: i32, col: Color, dotted: bool, pattern: u32)
    requires
        lo <= hi,
    ensures
        *final(t) == draw_all(*old(t), pen_select(row_points(y, lo as int, hi as int), dotted, pattern), col),
{
    let ghost start = *t;
    let ghost pts = row_points(y, lo as int, hi as int);
    let mut cur = pattern;
    let mut x: i64 = lo as i64;
    while x <= hi as i64
        invariant
            lo <= x <= hi + 1,
            pts == row_points(y, lo as int, hi as int),
            dotted ==> cur == rotl(pattern, (x - lo) as nat),
            *t == draw_all(start, pen_select(pts.take(x - lo), dotted, pattern), col),
        decreases hi - x + 1,
    {
        let p = Vec2d { x: x as i32, y };
        proof {
            assert(pts[x - lo] == p);
            assert(pts.take(x - lo + 1) =~= pts.take(x - lo).push(p));
            lemma_pen_select_push(pts.take(x - lo), p, dotted, pattern);
            lemma_draw_all_push(start, pen_select(pts.take(x - lo), dotted, pattern), p, col);
        }
        cur = pen_put(t, p, col, dotted, cur);
        x = x + 1;
    }
    proof {
        assert(pts.take(x - lo) =~= pts);
    }
}

/// Draw a line that is wider than high, from its left end `(x0, y0)` towards `(x1, y1)`.
fn draw_x_major<T: SmartDrawingTrait>(t: &mut T, x0: i32, y0: i32, x1: i32, y1: i32, col: Color, dotted: bool, pattern: u32)
    requires
        x0 < x1,
        abs(y1 - y0) < x1 - x0,
        x1 - x0 < 0x4000_0000,
    ensures
        *final(t) == draw_all(*old(t), pen_select(keep_visible(x_major_points(x0 as int, y0 as int, x1 as int, y1 as int)), dotted, pattern), col),
{
    let ghost start = *t;
    let mut cur = pattern;
    let ghost raw = x_major_points(x0 as int, y0 as int, x1 as int, y1 as int);
    let dx: i64 = x1 as i64 - x0 as i64;
    let mut dy: i64 = y1 as i64 - y0 as i64;
    let mut yi: i64 = 1;
    if dy < 0 {
        yi = -1;
        dy = -dy;
    }
    let mut d: i64 = 2 * dy - dx;
    let mut y: i64 = y0 as i64;
    let mut x: i64 = x0 as i64;
    let ghost mut k: int = 0;
    proof {
        lemma_bres_start(dy as int, dx as int);
        assert(d == 2 * (0 + 1) * dy - dx - 2 * dx * 0);
    }
    while x <= x1 as i64
        invariant
            x0 <= x <= x1 + 1,
            dx == x1 - x0,
            1 <= dx < 0x4000_0000,
            0 <= dy < dx,
            dy == abs(y1 - y0),
            yi == sgn(y1 - y0),
            raw == x_major_points(x0 as int, y0 as int, x1 as int, y1 as int),
            0 <= k <= dy + 1,
            x <= x1 ==> k <= dy,
            k == bres_offset(x - x0, dy as int, dx as int),
            y == y0 + yi * k,
            d == 2 * (x - x0 + 1) * dy - dx - 2 * dx * k,
            dotted ==> cur == rotl(pattern, keep_visible(raw.take(x - x0)).len()),
            *t == draw_all(start, pen_select(keep_visible(raw.take(x - x0)), dotted, pattern), col),
        decreases x1 - x + 1,
    {
        let ghost i: int = x - x0;
        proof {
            if yi == 1 {
                assert(y0 <= y <= y0 + dy);
            } else {
                assert(y0 - dy <= y <= y0);
            }
        }
        let p = Vec2d { x: x as i32, y: y as i32 };
        proof {
            assert(raw[i] == p);
            lemma_keep_visible_take(raw, i);
            lemma_pen_select_push(keep_visible(raw.take(i)), p, dotted, pattern);
            lemma_draw_all_push(start, pen_select(keep_visible(raw.take(i)), dotted, pattern), p, col);
        }
        if x >= 0 && y >= 0 {
            cur = pen_put(t, p, col, dotted, cur);
        }
        proof {
            lemma_bres_step(i, dy as int, dx as int);
            assert(2 * (i + 1) * dy <= 2 * 0x4000_0000 * 0x4000_0000) by (nonlinear_arith)
                requires
                    0 <= i <= dx,
                    0 <= dy < dx,
                    dx < 0x4000_0000,
            ;
            assert(2 * (i + 2) * dy == 2 * (i + 1) * dy + 2 * dy) by (nonlinear_arith);
            assert(2 * dx * (k + 1) == 2 * dx * k + 2 * dx) by (nonlinear_arith);
        }
        if d > 0 {
            y = y + yi;
            d = d - 2 * dx;
            proof {
                k = k + 1;
            }
        }
        d = d + 2 * dy;
        x = x + 1;
        proof {
            lemma_bres_bound(x - x0, dy as int, dx as int);
        }
    }
    proof {
        assert(raw.take(x - x0) =~= raw);
    }
}

/// Draw a line that is at least as high as wide, from its top end `(x0, y0)` to `(x1, y1)`.
fn draw_y_major<T: SmartDrawingTrait>(t: &mut T, x0: i32, y0: i32, x1: i32, y1: i32, col: Color, dotted: bool, pattern: u32)
    requires
        y0 < y1,
        abs(x1 - x0) <= y1 - y0,
        y1 - y0 < 0x4000_0000,
    ensures
        *final(t) == draw_all(*old(t), pen_select(keep_visible(y_major_points(x0 as int, y0 as int, x1 as int, y1 as int)), dotted, pattern), col),
{
    let ghost start = *t;
    let mut cur = pattern;
    let ghost raw = y_major_points(x0 as int, y0 as int, x1 as int, y1 as int);
    let dy: i64 = y1 as i64 - y0 as i64;
    let mut dx: i64 = x1 as i64 - x0 as i64;
    let mut xi: i64 = 1;
    if dx < 0 {
        xi = -1;
        dx = -dx;
    }
    let mut d: i64 = 2 * dx - dy;
    let mut x: i64 = x0 as i64;
    let mut y: i64 = y0 as i64;
    let ghost mut k: int = 0;
    proof {
        lemma_bres_start(dx as int, dy as int);
        assert(d == 2 * (0 + 1) * dx - dy - 2 * dy * 0);
    }
    while y <= y1 as i64
        invariant
            y0 <= y <= y1 + 1,
            dy == y1 - y0,
            1 <= dy < 0x4000_0000,
            0 <= dx <= dy,
            dx == abs(x1 - x0),
            xi == sgn(x1 - x0),
            raw == y_major_points(x0 as int, y0 as int, x1 as int, y1 as int),
            0 <= k <= dx + 1,
            y <= y1 ==> k <= dx,
            k == bres_offset(y - y0, dx as int, dy as int),
            x == x0 + xi * k,
            d == 2 * (y - y0 + 1) * dx - dy - 2 * dy * k,
            dotted ==> cur == rotl(pattern, keep_visible(raw.take(y - y0)).len()),
            *t == draw_all(start, pen_select(keep_visible(raw.take(y - y0)), dotted, pattern), col),
        decreases y1 - y + 1,
    {
        let ghost j: int = y - y0;
        proof {
            if xi == 1 {
                assert(x0 <= x <= x0 + dx);
            } else {
                assert(x0 - dx <= x <= x0);
            }
        }
        let p = Vec2d { x: x as i32, y: y as i32 };
        proof {
            assert(raw[j] == p);
            lemma_keep_visible_take(raw, j);
            lemma_pen_select_push(keep_visible(raw.take(j)), p, dotted, pattern);
            lemma_draw_all_push(start, pen_select(keep_visible(raw.take(j)), dotted, pattern), p, col);
        }
        if x >= 0 && y >= 0 {
            cur = pen_put(t, p, col, dotted, cur);
        }
        proof {
            lemma_bres_step(j, dx as int, dy as int);
            assert(2 * (j + 1) * dx <= 2 * 0x4000_0000 * 0x4000_0000) by (nonlinear_arith)
                requires
                    0 <= j <= dy,
                    0 <= dx <= dy,
                    dy < 0x4000_0000,
            ;
            assert(2 * (j + 2) * dx == 2 * (j + 1) * dx + 2 * dx) by (nonlinear_arith);
            assert(2 * dy * (k + 1) == 2 * dy * k + 2 * dy) by (nonlinear_arith);
        }
        if d > 0 {
            x = x + xi;
            d = d - 2 * dy;
            proof {
                k = k + 1;
            }
        }
        d = d + 2 * dx;
        y = y + 1;
        proof {
            lemma_bres_bound(y - y0, dx as int, dy as int);
        }
    }
    proof {
        assert(raw.take(y - y0) =~= raw);
    }
}

/// Drawing two sequences one after the other is drawing their concatenation.
pub proof fn lemma_draw_all_concat<T: SmartDrawingTrait>(t: T, a: Seq<Vi2d>, b: Seq<Vi2d>, col: Color)
    ensures
        draw_all(draw_all(t, a, col), b, col) == draw_all(t, a + b, col),
    decreases b.len(),
{
    if b.len() == 0 {
        assert(a + b =~= a);
    } else {
        lemma_draw_all_concat(t, a, b.drop_last(), col);
        assert((a + b).drop_last() =~= a + b.drop_last());
    }
}

/// Whether `v` fits in an `i32`.
pub open spec fn fits(v: int) -> bool {
    i32::MIN <= v <= i32::MAX
}

/// The outline of a rectangle: its top, right, bottom and left edges, each drawn as a line
/// between two corners, `w - 1` and `h - 1` apart.
pub open spec fn rect_points(pos: Vi2d, size: Vi2d) -> Seq<Vi2d> {
    let (x, y) = (pos.x as int, pos.y as int);
    let (w, h) = (size.x - 1, size.y - 1);
    let tl = Vec2d { x: x as i32, y: y as i32 };
    let tr = Vec2d { x: (x + w) as i32, y: y as i32 };
    let br = Vec2d { x: (x + w) as i32, y: (y + h) as i32 };
    let bl = Vec2d { x: x as i32, y: (y + h) as i32 };
    line_points(tl, tr) + line_points(tr, br) + line_points(br, bl) + line_points(bl, tl)
}

/// Whether the corners of a rectangle at `pos` of `size` fit in `i32`.
pub open spec fn rect_fits(pos: Vi2d, size: Vi2d) -> bool {
    &&& fits(size.x - 1)
    &&& fits(size.y - 1)
    &&& fits(pos.x + size.x - 1)
    &&& fits(pos.y + size.y - 1)
}

/// The columns of a filled rectangle: for each column from `x` up to, but not including,
/// `x + w`, the vertical line from row `y` to row `y + h`.
pub open spec fn fill_rect_points(x: int, y: int, w: int, h: int) -> Seq<Vi2d>
    decreases w,
{
    if w <= 0 {
        Seq::empty()
    } else {
        fill_rect_points(x, y, w - 1, h) + line_points(
            Vec2d { x: (x + w - 1) as i32, y: y as i32 },
            Vec2d { x: (x + w - 1) as i32, y: (y + h) as i32 },
        )
    }
}

/// The edges of a triangle: lines from the first point to the second, from the first
/// to the third, and from the second to the third.
pub open spec fn triangle_points(a: Vi2d, b: Vi2d, c: Vi2d) -> Seq<Vi2d> {
    line_points(a, b) + line_points(a, c) + line_points(b, c)
}

/// Whether the three edges of the triangle can be drawn.
pub open spec fn triangle_fits(a: Vi2d, b: Vi2d, c: Vi2d) -> bool {
    line_fits(a, b) && line_fits(a, c) && line_fits(b, c)
}

/// The point `(x, y)`.
pub open spec fn pt(x: int, y: int) -> Vi2d {
    Vec2d { x: x as i32, y: y as i32 }
}

/// The offsets `(a, b)` that the midpoint circle walk visits from `(x0, y0)` with decision
/// value `d`: it steps `a` up by one each time, and steps `b` down by one when the decision
/// value is not negative, until `b` falls below `a`.
pub open spec fn circle_steps(x0: int, y0: int, d: int) -> Seq<(int, int)>
    decreases (if y0 >= x0 {
        y0 - x0 + 1
    } else {
        0
    }) as nat,
{
    if y0 < x0 {
        Seq::empty()
    } else {
        let x1 = x0 + 1;
        let y1 = if d < 0 {
            y0
        } else {
            y0 - 1
        };
        let d1 = if d < 0 {
            d + 4 * x1 + 6
        } else {
            d + 4 * (x1 - y1) + 10
        };
        seq![(x0, y0)] + circle_steps(x1, y1, d1)
    }
}

/// The offsets that a circle of radius `r` visits, one octant's worth.
pub open spec fn circle_offsets(r: int) -> Seq<(int, int)> {
    circle_steps(0, r, 3 - 2 * r)
}

/// The eight points of a circle around `c` that one offset `(a, b)` stands for.
pub open spec fn octant_points(c: Vi2d, s: (int, int)) -> Seq<Vi2d> {
    let (x, y, a, b) = (c.x as int, c.y as int, s.0, s.1);
    seq![
        pt(x + a, y - b),
        pt(x + b, y - a),
        pt(x + b, y + a),
        pt(x + a, y + b),
        pt(x - a, y + b),
        pt(x - b, y + a),
        pt(x - b, y - a),
        pt(x - a, y - b),
    ]
}

/// The points of a circle around `c` for a sequence of offsets, eight per offset.
pub open spec fn circle_outline(c: Vi2d, steps: Seq<(int, int)>) -> Seq<Vi2d>
    decreases steps.len(),
{
    if steps.len() == 0 {
        Seq::empty()
    } else {
        circle_outline(c, steps.drop_last()) + octant_points(c, steps.last())
    }
}

/// The points that [`ShapesTrait::draw_circle`] draws: none for radius 0, else eight
/// points for each offset of the midpoint circle walk.
pub open spec fn circle_points(c: Vi2d, r: u32) -> Seq<Vi2d> {
    if r == 0 {
        Seq::empty()
    } else {
        circle_outline(c, circle_offsets(r as int))
    }
}

/// The four horizontal lines of a filled circle around `c` that one offset `(a, b)`
/// stands for.
pub open spec fn disc_rows(c: Vi2d, s: (int, int)) -> Seq<Vi2d> {
    let (x, y, a, b) = (c.x as int, c.y as int, s.0, s.1);
    line_points(pt(x - a, y - b), pt(x + a, y - b)) + line_points(pt(x - b, y - a), pt(x + b, y - a))
        + line_points(pt(x - a, y + b), pt(x + a, y + b)) + line_points(
        pt(x - b, y + a),
        pt(x + b, y + a),
    )
}

/// The points of a filled circle around `c` for a sequence of offsets.
pub open spec fn disc_fill(c: Vi2d, steps: Seq<(int, int)>) -> Seq<Vi2d>
    decreases steps.len(),
{
    if steps.len() == 0 {
        Seq::empty()
    } else {
        disc_fill(c, steps.drop_last()) + disc_rows(c, steps.last())
    }
}

/// The points that [`ShapesTrait::fill_circle`] draws: none for radius 0, else four
/// horizontal lines for each offset of the midpoint circle walk.
pub open spec fn disc_points(c: Vi2d, r: u32) -> Seq<Vi2d> {
    if r == 0 {
        Seq::empty()
    } else {
        disc_fill(c, circle_offsets(r as int))
    }
}

proof fn lemma_hseg_contains(cx: int, yr: int, h: int, v: Vi2d)
    requires
        h >= 0,
        fits(cx - h),
        fits(cx + h),
        fits(yr),
    ensures
        line_points(pt(cx - h, yr), pt(cx + h, yr)).contains(v) <==> (v.y == yr && cx - h <= v.x <= cx + h),
{
    let l = line_points(pt(cx - h, yr), pt(cx + h, yr));
    if h == 0 {
        assert(l.len() == 1);
        assert(l[0] == pt(cx, yr));
        if l.contains(v) {
            let k = choose|k: int| 0 <= k < l.len() && l[k] == v;
            assert(k == 0);
        }
        if v.y == yr && cx - h <= v.x <= cx + h {
            assert(v == pt(cx, yr));
            assert(l[0] == v);
        }
    } else {
        assert(l == row_points(yr as i32, cx - h, cx + h));
        if l.contains(v) {
            let k = choose|k: int| 0 <= k < l.len() && l[k] == v;
            assert(fits(cx - h + k));
        }
        if v.y == yr && cx - h <= v.x <= cx + h {
            let k = v.x - (cx - h);
            assert(l[k] == v);
        }
    }
}

/// Whether `v` lies on one of the four rows of a filled circle around `c` that offset `s`
/// stands for.
spec fn disc_row_hit(c: Vi2d, s: (int, int), v: Vi2d) -> bool {
    let (dx, dy) = (v.x - c.x, v.y - c.y);
    ||| (dy == s.1 || dy == -s.1) && -s.0 <= dx <= s.0
    ||| (dy == s.0 || dy == -s.0) && -s.1 <= dx <= s.1
}

proof fn lemma_disc_rows_contains(c: Vi2d, s: (int, int), v: Vi2d)
    requires
        0 <= s.0 <= s.1,
        fits(c.x - s.1),
        fits(c.x + s.1),
        fits(c.y - s.1),
        fits(c.y + s.1),
    ensures
        disc_rows(c, s).contains(v) <==> disc_row_hit(c, s, v),
{
    let (x, y, a, b) = (c.x as int, c.y as int, s.0, s.1);
    let l1 = line_points(pt(x - a, y - b), pt(x + a, y - b));
    let l2 = line_points(pt(x - b, y - a), pt(x + b, y - a));
    let l3 = line_points(pt(x - a, y + b), pt(x + a, y + b));
    let l4 = line_points(pt(x - b, y + a), pt(x + b, y + a));
    lemma_hseg_contains(x, y - b, a, v);
    lemma_hseg_contains(x, y - a, b, v);
    lemma_hseg_contains(x, y + b, a, v);
    lemma_hseg_contains(x, y + a, b, v);
    lemma_concat_contains(l1, l2, v);
    lemma_concat_contains(l1 + l2, l3, v);
    lemma_concat_contains(l1 + l2 + l3, l4, v);
}

proof fn lemma_disc_fill_contains(c: Vi2d, steps: Seq<(int, int)>, r: int, v: Vi2d)
    requires
        forall|k: int| 0 <= k < steps.len() ==> 0 <= (#[trigger] steps[k]).0 <= steps[k].1 <= r,
        fits(c.x - r),
        fits(c.x + r),
        fits(c.y - r),
        fits(c.y + r),
    ensures
        disc_fill(c, steps).contains(v) <==> exists|k: int| 0 <= k < steps.len() && #[trigger] disc_row_hit(c, steps[k], v),
    decreases steps.len(),
{
    if steps.len() > 0 {
        let init = steps.drop_last();
        assert forall|k: int| 0 <= k < init.len() implies 0 <= (#[trigger] init[k]).0 <= init[k].1 <= r by {
            assert(init[k] == steps[k]);
        }
        lemma_disc_fill_contains(c, init, r, v);
        let last = steps[steps.len() - 1];
        assert(0 <= last.0 <= last.1 <= r);
        lemma_disc_rows_contains(c, last, v);
        lemma_concat_contains(disc_fill(c, init), disc_rows(c, steps.last()), v);
        if exists|k: int| 0 <= k < steps.len() && #[trigger] disc_row_hit(c, steps[k], v) {
            let k = choose|k: int| 0 <= k < steps.len() && #[trigger] disc_row_hit(c, steps[k], v);
            if k < steps.len() - 1 {
                assert(init[k] == steps[k]);
                assert(disc_row_hit(c, init[k], v));
            }
        }
        if disc_fill(c, init).contains(v) {
            let k = choose|k: int| 0 <= k < init.len() && #[trigger] disc_row_hit(c, init[k], v);
            assert(init[k] == steps[k]);
            assert(disc_row_hit(c, steps[k], v));
        }
        if disc_rows(c, steps.last()).contains(v) {
            assert(disc_row_hit(c, steps[steps.len() - 1], v));
        }
    }
}

/// Whether one of the offsets `steps` has `v` as one of its two parts.
spec fn offsets_reach(steps: Seq<(int, int)>, v: int) -> bool {
    exists|k: int| 0 <= k < steps.len() && (#[trigger] steps[k].0 == v || steps[k].1 == v)
}

proof fn lemma_steps_shape(x0: int, y0: int, d: int)
    requires
        0 <= x0,
    ensures
        forall|k: int| 0 <= k < circle_steps(x0, y0, d).len() ==> x0 <= (#[trigger] circle_steps(x0, y0, d)[k]).0 <= circle_steps(x0, y0, d)[k].1 <= y0,
        y0 >= x0 ==> circle_steps(x0, y0, d).len() > 0 && circle_steps(x0, y0, d)[0] == (x0, y0),
        forall|v: int| x0 <= v <= y0 ==> #[trigger] offsets_reach(circle_steps(x0, y0, d), v),
    decreases (if y0 >= x0 { y0 - x0 + 1 } else { 0 }) as nat,
{
    if y0 >= x0 {
        let x1 = x0 + 1;
        let y1 = if d < 0 { y0 } else { y0 - 1 };
        let d1 = if d < 0 { d + 4 * x1 + 6 } else { d + 4 * (x1 - y1) + 10 };
        let rest = circle_steps(x1, y1, d1);
        let steps = circle_steps(x0, y0, d);
        lemma_steps_shape(x1, y1, d1);
        assert(steps == seq![(x0, y0)] + rest);
        assert forall|k: int| 0 <= k < steps.len() implies x0 <= (#[trigger] steps[k]).0 <= steps[k].1 <= y0 by {
            if k > 0 {
                assert(steps[k] == rest[k - 1]);
            }
        }
        assert forall|v: int| x0 <= v <= y0 implies #[trigger] offsets_reach(steps, v) by {
            if v == x0 || v == y0 {
                assert(steps[0].0 == v || steps[0].1 == v);
            } else {
                assert(offsets_reach(rest, v));
                let k = choose|k: int| 0 <= k < rest.len() && (#[trigger] rest[k].0 == v || rest[k].1 == v);
                assert(steps[k + 1] == rest[k]);
                assert(steps[k + 1].0 == v || steps[k + 1].1 == v);
            }
        }
    }
}

proof fn lemma_steps_in_disc(x0: int, y0: int, d: int, r: int)
    requires
        0 <= x0,
        y0 <= r,
        d == circle_decision(x0, y0, r),
        y0 >= x0 ==> x0 * x0 + y0 * y0 <= r * r + r - 1,
    ensures
        forall|k: int| 0 <= k < circle_steps(x0, y0, d).len() ==> (#[trigger] circle_steps(x0, y0, d)[k]).0 * circle_steps(x0, y0, d)[k].0
            + circle_steps(x0, y0, d)[k].1 * circle_steps(x0, y0, d)[k].1 <= r * r + r - 1,
    decreases (if y0 >= x0 { y0 - x0 + 1 } else { 0 }) as nat,
{
    if y0 >= x0 {
        let x1 = x0 + 1;
        let y1 = if d < 0 { y0 } else { y0 - 1 };
        let d1 = if d < 0 { d + 4 * x1 + 6 } else { d + 4 * (x1 - y1) + 10 };
        assert(d1 == circle_decision(x1, y1, r)) by (nonlinear_arith)
            requires
                x1 == x0 + 1,
                d == circle_decision(x0, y0, r),
                d < 0 ==> y1 == y0 && d1 == d + 4 * x1 + 6,
                d >= 0 ==> y1 == y0 - 1 && d1 == d + 4 * (x1 - y1) + 10,
        ;
        if y1 >= x1 {
            if d < 0 {
                assert(x1 * x1 + y1 * y1 <= r * r + r - 1) by (nonlinear_arith)
                    requires
                        x1 == x0 + 1,
                        y1 == y0,
                        0 <= x0,
                        y0 <= r,
                        d == circle_decision(x0, y0, r),
                        d < 0,
                ;
            } else {
                assert(x1 * x1 + y1 * y1 <= r * r + r - 1) by (nonlinear_arith)
                    requires
                        x1 == x0 + 1,
                        y1 == y0 - 1,
                        y1 >= x1,
                        x0 * x0 + y0 * y0 <= r * r + r - 1,
                ;
            }
        }
        lemma_steps_in_disc(x1, y1, d1, r);
        let rest = circle_steps(x1, y1, d1);
        let steps = circle_steps(x0, y0, d);
        assert(steps == seq![(x0, y0)] + rest);
        assert forall|k: int| 0 <= k < steps.len() implies (#[trigger] steps[k]).0 * steps[k].0 + steps[k].1 * steps[k].1
            <= r * r + r - 1 by {
            if k > 0 {
                assert(steps[k] == rest[k - 1]);
            }
        }
    }
}

proof fn lemma_disc_offsets(c: Vi2d, r: u32)
    requires
        circle_fits(c, r),
        r >= 1,
    ensures
        disc_points(c, r) == disc_fill(c, circle_offsets(r as int)),
        forall|k: int| 0 <= k < circle_offsets(r as int).len() ==> 0 <= (#[trigger] circle_offsets(r as int)[k]).0
            <= circle_offsets(r as int)[k].1 <= r,
        circle_offsets(r as int).len() > 0 && circle_offsets(r as int)[0] == (0int, r as int),
        forall|v: int| 0 <= v <= r ==> #[trigger] offsets_reach(circle_offsets(r as int), v),
        forall|k: int| 0 <= k < circle_offsets(r as int).len() ==> (#[trigger] circle_offsets(r as int)[k]).0
            * circle_offsets(r as int)[k].0 + circle_offsets(r as int)[k].1 * circle_offsets(r as int)[k].1 <= r * r + r - 1,
{
    lemma_steps_shape(0, r as int, 3 - 2 * r);
    assert(3 - 2 * r == circle_decision(0, r as int, r as int)) by (nonlinear_arith);
    assert(0 * 0 + (r as int) * (r as int) <= (r as int) * (r as int) + r - 1) by (nonlinear_arith)
        requires
            r >= 1,
    ;
    lemma_steps_in_disc(0, r as int, 3 - 2 * r, r as int);
}

proof fn lemma_disc_column(c: Vi2d, r: u32, y: int)
    requires
        circle_fits(c, r),
        r >= 1,
        c.y - r <= y <= c.y + r,
    ensures
        disc_points(c, r).contains(pt(c.x as int, y)),
{
    let steps = circle_offsets(r as int);
    lemma_disc_offsets(c, r);
    let dv = if y < c.y { c.y - y } else { y - c.y };
    assert(offsets_reach(steps, dv));
    let k = choose|k: int| 0 <= k < steps.len() && (#[trigger] steps[k].0 == dv || steps[k].1 == dv);
    lemma_disc_fill_contains(c, steps, r as int, pt(c.x as int, y));
    assert(fits(y));
    assert(disc_row_hit(c, steps[k], pt(c.x as int, y)));
}

proof fn lemma_disc_middle_row(c: Vi2d, r: u32)
    requires
        circle_fits(c, r),
        r >= 1,
    ensures
        disc_points(c, r).contains(pt(c.x - r, c.y as int)),
        disc_points(c, r).contains(pt(c.x + r, c.y as int)),
{
    let steps = circle_offsets(r as int);
    lemma_disc_offsets(c, r);
    lemma_disc_fill_contains(c, steps, r as int, pt(c.x - r, c.y as int));
    lemma_disc_fill_contains(c, steps, r as int, pt(c.x + r, c.y as int));
    assert(disc_row_hit(c, steps[0], pt(c.x - r, c.y as int)));
    assert(disc_row_hit(c, steps[0], pt(c.x + r, c.y as int)));
}

proof fn lemma_disc_point(c: Vi2d, r: u32, v: Vi2d)
    requires
        circle_fits(c, r),
        r >= 1,
        disc_points(c, r).contains(v),
    ensures
        c.x - r <= v.x <= c.x + r,
        c.y - r <= v.y <= c.y + r,
        disc_points(c, r).contains(pt(v.x as int, 2 * c.y - v.y)),
        disc_points(c, r).contains(pt(2 * c.x - v.x, v.y as int)),
        (v.x - c.x) * (v.x - c.x) + (v.y - c.y) * (v.y - c.y) < r * r + r,
{
    let steps = circle_offsets(r as int);
    lemma_disc_offsets(c, r);
    lemma_disc_fill_contains(c, steps, r as int, v);
    let k = choose|k: int| 0 <= k < steps.len() && #[trigger] disc_row_hit(c, steps[k], v);
    assert(0 <= steps[k].0 <= steps[k].1 <= r);
    let (a, b, dx, dy) = (steps[k].0, steps[k].1, v.x - c.x, v.y - c.y);
    assert(a * a + b * b <= r * r + r - 1);
    assert(dx * dx + dy * dy <= a * a + b * b) by (nonlinear_arith)
        requires
            0 <= a <= b,
            ((dy == b || dy == -b) && -a <= dx <= a) || ((dy == a || dy == -a) && -b <= dx <= b),
    ;
    let v1 = pt(v.x as int, 2 * c.y - v.y);
    let v2 = pt(2 * c.x - v.x, v.y as int);
    assert(fits(2 * c.y - v.y));
    assert(fits(2 * c.x - v.x));
    lemma_disc_fill_contains(c, steps, r as int, v1);
    lemma_disc_fill_contains(c, steps, r as int, v2);
    assert(disc_row_hit(c, steps[k], v1));
    assert(disc_row_hit(c, steps[k], v2));
}

proof fn lemma_disc_row_run(c: Vi2d, r: u32, v: Vi2d, w: Vi2d)
    requires
        circle_fits(c, r),
        r >= 1,
        disc_points(c, r).contains(v),
        w.y == v.y,
        abs(w.x - c.x) <= abs(v.x - c.x),
    ensures
        disc_points(c, r).contains(w),
{
    let steps = circle_offsets(r as int);
    lemma_disc_offsets(c, r);
    lemma_disc_fill_contains(c, steps, r as int, v);
    lemma_disc_fill_contains(c, steps, r as int, w);
    let k = choose|k: int| 0 <= k < steps.len() && #[trigger] disc_row_hit(c, steps[k], v);
    assert(disc_row_hit(c, steps[k], w));
}

/// The shape of a filled circle of radius `r >= 1` around `c`: every row from `c.y - r` to
/// `c.y + r` is drawn through the center column, the middle row reaches `r` to either side,
/// nothing lies outside the `2r + 1` square around `c` nor outside the circle
/// `dx * dx + dy * dy < r * r + r`, the shape is the same mirrored top to
/// bottom and left to right, and each row is one unbroken run centered on `c.x`.
pub proof fn lemma_fill_circle_shape(c: Vi2d, r: u32)
    requires
        circle_fits(c, r),
        r >= 1,
    ensures
        forall|y: int| c.y - r <= y <= c.y + r ==> #[trigger] disc_points(c, r).contains(pt(c.x as int, y)),
        disc_points(c, r).contains(pt(c.x - r, c.y as int)),
        disc_points(c, r).contains(pt(c.x + r, c.y as int)),
        forall|v: Vi2d| #[trigger] disc_points(c, r).contains(v) ==> {
            &&& c.x - r <= v.x <= c.x + r
            &&& c.y - r <= v.y <= c.y + r
            &&& disc_points(c, r).contains(pt(v.x as int, 2 * c.y - v.y))
            &&& disc_points(c, r).contains(pt(2 * c.x - v.x, v.y as int))
            &&& (v.x - c.x) * (v.x - c.x) + (v.y - c.y) * (v.y - c.y) < r * r + r
        },
        forall|v: Vi2d, w: Vi2d|
            #![trigger disc_points(c, r).contains(v), disc_points(c, r).contains(w)]
            disc_points(c, r).contains(v) && w.y == v.y && abs(w.x - c.x) <= abs(v.x - c.x) ==> disc_points(c, r).contains(w),
{
    assert forall|y: int| c.y - r <= y <= c.y + r implies #[trigger] disc_points(c, r).contains(pt(c.x as int, y)) by {
        lemma_disc_column(c, r, y);
    }
    lemma_disc_middle_row(c, r);
    assert forall|v: Vi2d| #[trigger] disc_points(c, r).contains(v) implies {
        &&& c.x - r <= v.x <= c.x + r
        &&& c.y - r <= v.y <= c.y + r
        &&& disc_points(c, r).contains(pt(v.x as int, 2 * c.y - v.y))
        &&& disc_points(c, r).contains(pt(2 * c.x - v.x, v.y as int))
        &&& (v.x - c.x) * (v.x - c.x) + (v.y - c.y) * (v.y - c.y) < r * r + r
    } by {
        lemma_disc_point(c, r, v);
    }
    assert forall|v: Vi2d, w: Vi2d|
        #![trigger disc_points(c, r).contains(v), disc_points(c, r).contains(w)]
        disc_points(c, r).contains(v) && w.y == v.y && abs(w.x - c.x) <= abs(v.x - c.x) implies disc_points(c, r).contains(w) by {
        lemma_disc_row_run(c, r, v, w);
    }
}

/// Whether a circle around `c` of radius `r` can be drawn: the radius is below 2^30 and
/// the circle's bounding box fits in `i32`.
pub open spec fn circle_fits(c: Vi2d, r: u32) -> bool {
    &&& r < 0x4000_0000
    &&& fits(c.x - r)
    &&& fits(c.x + r)
    &&& fits(c.y - r)
    &&& fits(c.y + r)
}

/// The decision value of the walk at `(x0, y0)` for radius `r`.
pub open spec fn circle_decision(x0: int, y0: int, r: int) -> int {
    2 * x0 * x0 + 2 * y0 * y0 + 8 * x0 - 6 * y0 + 3 + 4 * r - 2 * r * r
}

/// Draw the points of a slice in order.
fn draw_points<T: SmartDrawingTrait>(t: &mut T, pts: &[Vi2d], col: Color)
    ensures
        *final(t) == draw_all(*old(t), pts@, col),
{
    let ghost start = *t;
    let mut i: usize = 0;
    while i < pts.len()
        invariant
            i <= pts@.len(),
            *t == draw_all(start, pts@.take(i as int), col),
        decreases pts@.len() - i,
    {
        proof {
            assert(pts@.take(i + 1) =~= pts@.take(i as int).push(pts@[i as int]));
            lemma_draw_all_push(start, pts@.take(i as int), pts@[i as int], col);
        }
        t.draw(pts[i], col);
        i = i + 1;
    }
    proof {
        assert(pts@.take(pts@.len() as int) =~= pts@);
    }
}

/// One step of the circle walk keeps the decision value in step with the offsets,
/// and keeps the offsets inside `[0, r + 1]`.
proof fn lemma_circle_step(x0: int, y0: int, r: int, d: int)
    requires
        0 <= x0 <= y0 <= r,
        d == circle_decision(x0, y0, r),
    ensures
        d < 0 ==> d + 4 * (x0 + 1) + 6 == circle_decision(x0 + 1, y0, r),
        d >= 0 ==> d + 4 * ((x0 + 1) - (y0 - 1)) + 10 == circle_decision(x0 + 1, y0 - 1, r),
{
    assert(circle_decision(x0 + 1, y0, r) == circle_decision(x0, y0, r) + 4 * x0 + 10) by (nonlinear_arith);
    assert(circle_decision(x0 + 1, y0 - 1, r) == circle_decision(x0, y0, r) + 4 * x0 - 4 * y0 + 18) by (nonlinear_arith);
}

/// The decision value stays far inside `i64` for a radius below 2^30.
proof fn lemma_circle_decision_bound(x0: int, y0: int, r: int)
    requires
        0 <= r < 0x4000_0000,
        0 <= x0 <= r + 1,
        -1 <= y0 <= r,
    ensures
        -0x1000_0000_0000_0000 * 7 <= circle_decision(x0, y0, r) <= 0x1000_0000_0000_0000 * 7,
{
    assert(-0x1000_0000_0000_0000 * 7 <= circle_decision(x0, y0, r) <= 0x1000_0000_0000_0000 * 7) by (nonlinear_arith)
        requires
            0 <= r < 0x4000_0000,
            0 <= x0 <= r + 1,
            -1 <= y0 <= r,
    ;
}

/// The line through `a` and `b` as `(A, B, C)`: the points `(x, y)` on it are those with
/// `A x + B y = C`.
pub open spec fn edge_line(a: Vi2d, b: Vi2d) -> (int, int, int) {
    let (a0, a1, b0, b1) = (a.x as int, a.y as int, b.x as int, b.y as int);
    (a1 - b1, b0 - a0, (a1 - b1) * b0 + (b0 - a0) * b1)
}

/// The edges of a triangle, as lines: through the first and second points, through the
/// third and first, through the second and third.
pub open spec fn tri_edges(p1: Vi2d, p2: Vi2d, p3: Vi2d) -> ((int, int, int), (int, int, int), (int, int, int)) {
    (edge_line(p1, p2), edge_line(p3, p1), edge_line(p2, p3))
}

/// On which side of line `e` the triangle's centroid lies: 1 when `A cx + B cy - C >= 0`,
/// else -1, where `(cx, cy)` is the centroid `(sx / 3, sy / 3)`.
pub open spec fn centroid_side(e: (int, int, int), sx: int, sy: int) -> int {
    if e.0 * sx + e.1 * sy - 3 * e.2 >= 0 {
        1
    } else {
        -1
    }
}

/// Whether `(x, y)` lies on the centroid's side of line `e`, line included.
pub open spec fn same_side(e: (int, int, int), sx: int, sy: int, x: int, y: int) -> bool {
    (e.0 * x + e.1 * y - e.2) * centroid_side(e, sx, sy) >= 0
}

/// Whether `(x, y)` lies inside the triangle, edges included: on the centroid's side of
/// each of its three edges.
pub open spec fn in_triangle(p1: Vi2d, p2: Vi2d, p3: Vi2d, x: int, y: int) -> bool {
    let (e0, e1, e2) = tri_edges(p1, p2, p3);
    let sx = p1.x + p2.x + p3.x;
    let sy = p1.y + p2.y + p3.y;
    same_side(e0, sx, sy, x, y) && same_side(e1, sx, sy, x, y) && same_side(e2, sx, sy, x, y)
}

/// The first `n` rows, from row `ylo`, of column `x` that lie inside the triangle.
pub open spec fn tri_column(p1: Vi2d, p2: Vi2d, p3: Vi2d, x: int, ylo: int, n: int) -> Seq<Vi2d>
    decreases n,
{
    if n <= 0 {
        Seq::empty()
    } else if in_triangle(p1, p2, p3, x, ylo + n - 1) {
        tri_column(p1, p2, p3, x, ylo, n - 1).push(pt(x, ylo + n - 1))
    } else {
        tri_column(p1, p2, p3, x, ylo, n - 1)
    }
}

/// The points inside the triangle of the first `m` columns from column `xlo`, rows `ylo`
/// to `yhi`, column by column.
pub open spec fn tri_raster(p1: Vi2d, p2: Vi2d, p3: Vi2d, xlo: int, m: int, ylo: int, yhi: int) -> Seq<Vi2d>
    decreases m,
{
    if m <= 0 {
        Seq::empty()
    } else {
        tri_raster(p1, p2, p3, xlo, m - 1, ylo, yhi) + tri_column(p1, p2, p3, xlo + m - 1, ylo, yhi - ylo + 1)
    }
}

/// min
pub open spec fn min3(a: int, b: int, c: int) -> int {
    if a <= b && a <= c {
        a
    } else if b <= c {
        b
    } else {
        c
    }
}

/// max
pub open spec fn max3(a: int, b: int, c: int) -> int {
    if a >= b && a >= c {
        a
    } else if b >= c {
        b
    } else {
        c
    }
}

/// The points that [`ShapesTrait::fill_triangle`] draws: the triangle's edges, then, column
/// by column over its bounding box, the points inside it.
pub open spec fn filled_triangle_points(p1: Vi2d, p2: Vi2d, p3: Vi2d) -> Seq<Vi2d> {
    let xlo = min3(p1.x as int, p2.x as int, p3.x as int);
    let xhi = max3(p1.x as int, p2.x as int, p3.x as int);
    let ylo = min3(p1.y as int, p2.y as int, p3.y as int);
    let yhi = max3(p1.y as int, p2.y as int, p3.y as int);
    triangle_points(p1, p2, p3) + tri_raster(p1, p2, p3, xlo, xhi - xlo + 1, ylo, yhi)
}

/// Twice the signed area of the triangle `p`, `q`, `r`: zero exactly when its corners lie on
/// one line.
pub open spec fn tri_area2(p: Vi2d, q: Vi2d, r: Vi2d) -> int {
    (q.x - p.x) * (r.y - p.y) - (q.y - p.y) * (r.x - p.x)
}

/// The line through `b` and `a` is the line through `a` and `b` with every coefficient negated.
proof fn lemma_edge_reverse(a: Vi2d, b: Vi2d)
    ensures
        edge_line(b, a) == ((-edge_line(a, b).0), (-edge_line(a, b).1), (-edge_line(a, b).2)),
{
    let (a0, a1, b0, b1) = (a.x as int, a.y as int, b.x as int, b.y as int);
    assert((b1 - a1) * a0 + (a0 - b0) * a1 == -((a1 - b1) * b0 + (b0 - a0) * b1)) by (nonlinear_arith);
}

/// The centroid test of the edge through `a` and `b`, with third corner `c`, is twice the
/// triangle's signed area.
proof fn lemma_edge_centroid(a: Vi2d, b: Vi2d, c: Vi2d)
    ensures
        ({
            let e = edge_line(a, b);
            e.0 * (a.x + b.x + c.x) + e.1 * (a.y + b.y + c.y) - 3 * e.2 == tri_area2(a, b, c)
        }),
{
    let (a0, a1, b0, b1, c0, c1) = (a.x as int, a.y as int, b.x as int, b.y as int, c.x as int, c.y as int);
    assert((a1 - b1) * (a0 + b0 + c0) + (b0 - a0) * (a1 + b1 + c1) - 3 * ((a1 - b1) * b0 + (b0 - a0) * b1)
        == (b0 - a0) * (c1 - a1) - (b1 - a1) * (c0 - a0)) by (nonlinear_arith);
}

/// Negating a line does not change which side of it the centroid's side is, when the
/// centroid is not on it.
proof fn lemma_same_side_negated(e: (int, int, int), sx: int, sy: int, x: int, y: int)
    requires
        e.0 * sx + e.1 * sy - 3 * e.2 != 0,
    ensures
        same_side(((-e.0), (-e.1), (-e.2)), sx, sy, x, y) == same_side(e, sx, sy, x, y),
{
    let v = e.0 * x + e.1 * y - e.2;
    assert((-e.0) * x + (-e.1) * y - (-e.2) == -v) by (nonlinear_arith)
        requires
            v == e.0 * x + e.1 * y - e.2,
    ;
    assert((-e.0) * sx + (-e.1) * sy - 3 * (-e.2) == -(e.0 * sx + e.1 * sy - 3 * e.2)) by (nonlinear_arith);
    assert((-v) * (-1) == v * 1 && (-v) * 1 == v * (-1)) by (nonlinear_arith);
}

/// Whether a point lies inside a triangle does not depend on the order of its corners,
/// unless they lie on one line.
proof fn lemma_in_triangle_swap(p: Vi2d, q: Vi2d, r: Vi2d, x: int, y: int)
    requires
        tri_area2(p, q, r) != 0,
    ensures
        in_triangle(q, p, r, x, y) == in_triangle(p, q, r, x, y),
        in_triangle(p, r, q, x, y) == in_triangle(p, q, r, x, y),
{
    let sx = p.x + q.x + r.x;
    let sy = p.y + q.y + r.y;
    lemma_edge_reverse(p, q);
    lemma_edge_reverse(r, p);
    lemma_edge_reverse(q, r);
    lemma_edge_centroid(p, q, r);
    lemma_edge_centroid(r, p, q);
    lemma_edge_centroid(q, r, p);
    assert(tri_area2(r, p, q) == tri_area2(p, q, r)) by (nonlinear_arith);
    assert(tri_area2(q, r, p) == tri_area2(p, q, r)) by (nonlinear_arith);
    assert(r.x + p.x + q.x == sx && q.x + r.x + p.x == sx);
    assert(r.y + p.y + q.y == sy && q.y + r.y + p.y == sy);
    lemma_same_side_negated(edge_line(p, q), sx, sy, x, y);
    lemma_same_side_negated(edge_line(r, p), sx, sy, x, y);
    lemma_same_side_negated(edge_line(q, r), sx, sy, x, y);
}

/// A point of column `x` of the raster: it is a row of the column that lies inside the
/// triangle.
proof fn lemma_tri_column_contains(p1: Vi2d, p2: Vi2d, p3: Vi2d, x: int, ylo: int, n: int, v: Vi2d)
    requires
        fits(x),
        fits(ylo),
        n > 0 ==> fits(ylo + n - 1),
    ensures
        tri_column(p1, p2, p3, x, ylo, n).contains(v) <==> (v.x == x && ylo <= v.y < ylo + n
            && in_triangle(p1, p2, p3, x, v.y as int)),
    decreases n,
{
    if n > 0 {
        lemma_tri_column_contains(p1, p2, p3, x, ylo, n - 1, v);
        let prev = tri_column(p1, p2, p3, x, ylo, n - 1);
        if in_triangle(p1, p2, p3, x, ylo + n - 1) {
            let w = pt(x, ylo + n - 1);
            assert(prev.push(w).contains(v) <==> prev.contains(v) || v == w) by {
                if prev.push(w).contains(v) {
                    let i = choose|i: int| 0 <= i < prev.push(w).len() && prev.push(w)[i] == v;
                    if i < prev.len() {
                        assert(prev[i] == v);
                    }
                }
                if prev.contains(v) {
                    let i = choose|i: int| 0 <= i < prev.len() && prev[i] == v;
                    assert(prev.push(w)[i] == v);
                }
                if v == w {
                    assert(prev.push(w)[prev.len() as int] == v);
                }
            }
        }
    }
}

/// The points of the raster: those of its columns and rows that lie inside the triangle.
proof fn lemma_tri_raster_contains(p1: Vi2d, p2: Vi2d, p3: Vi2d, xlo: int, m: int, ylo: int, yhi: int, v: Vi2d)
    requires
        fits(xlo),
        m > 0 ==> fits(xlo + m - 1),
        fits(ylo),
        fits(yhi),
    ensures
        tri_raster(p1, p2, p3, xlo, m, ylo, yhi).contains(v) <==> (xlo <= v.x < xlo + m && ylo <= v.y
            <= yhi && in_triangle(p1, p2, p3, v.x as int, v.y as int)),
    decreases m,
{
    if m > 0 {
        lemma_tri_raster_contains(p1, p2, p3, xlo, m - 1, ylo, yhi, v);
        lemma_tri_column_contains(p1, p2, p3, xlo + m - 1, ylo, yhi - ylo + 1, v);
        lemma_concat_contains(tri_raster(p1, p2, p3, xlo, m - 1, ylo, yhi), tri_column(p1, p2, p3, xlo + m - 1, ylo, yhi - ylo + 1), v);
    }
}

/// A point of two sequences one after the other is a point of one of them.
pub(crate) proof fn lemma_concat_contains<A>(a: Seq<A>, b: Seq<A>, v: A)
    ensures
        (a + b).contains(v) <==> a.contains(v) || b.contains(v),
{
    if (a + b).contains(v) {
        let i = choose|i: int| 0 <= i < (a + b).len() && (a + b)[i] == v;
        if i < a.len() {
            assert(a[i] == v);
        } else {
            assert(b[i - a.len()] == v);
        }
    }
    if a.contains(v) {
        let i = choose|i: int| 0 <= i < a.len() && a[i] == v;
        assert((a + b)[i] == v);
    }
    if b.contains(v) {
        let i = choose|i: int| 0 <= i < b.len() && b[i] == v;
        assert((a + b)[a.len() + i] == v);
    }
}

/// The points a filled triangle covers, as a set, for corners `p`, `q`, `r` in one order.
proof fn lemma_filled_triangle_contains(p: Vi2d, q: Vi2d, r: Vi2d, v: Vi2d)
    ensures
        filled_triangle_points(p, q, r).contains(v) <==> (line_points(p, q).contains(v)
            || line_points(p, r).contains(v) || line_points(q, r).contains(v) || (min3(
            p.x as int,
            q.x as int,
            r.x as int,
        ) <= v.x <= max3(p.x as int, q.x as int, r.x as int) && min3(p.y as int, q.y as int, r.y as int)
            <= v.y <= max3(p.y as int, q.y as int, r.y as int) && in_triangle(p, q, r, v.x as int, v.y as int))),
{
    let xlo = min3(p.x as int, q.x as int, r.x as int);
    let xhi = max3(p.x as int, q.x as int, r.x as int);
    let ylo = min3(p.y as int, q.y as int, r.y as int);
    let yhi = max3(p.y as int, q.y as int, r.y as int);
    lemma_tri_raster_contains(p, q, r, xlo, xhi - xlo + 1, ylo, yhi, v);
    lemma_concat_contains(line_points(p, q), line_points(p, r), v);
    lemma_concat_contains(line_points(p, q) + line_points(p, r), line_points(q, r), v);
    lemma_concat_contains(triangle_points(p, q, r), tri_raster(p, q, r, xlo, xhi - xlo + 1, ylo, yhi), v);
}

/// The points a filled triangle covers do not depend on the order or the winding of its
/// corners (for corners that do not lie on one line): swapping the first two, or the last
/// two, gives the same set of points.
pub proof fn lemma_fill_triangle_order(p: Vi2d, q: Vi2d, r: Vi2d)
    requires
        tri_area2(p, q, r) != 0,
    ensures
        filled_triangle_points(q, p, r).to_set() == filled_triangle_points(p, q, r).to_set(),
        filled_triangle_points(p, r, q).to_set() == filled_triangle_points(p, q, r).to_set(),
{
    lemma_line_symmetric(p, q);
    lemma_line_symmetric(p, r);
    lemma_line_symmetric(q, r);
    assert forall|v: Vi2d| #[trigger] filled_triangle_points(q, p, r).to_set().contains(v)
        == filled_triangle_points(p, q, r).to_set().contains(v) by {
        lemma_filled_triangle_contains(p, q, r, v);
        lemma_filled_triangle_contains(q, p, r, v);
        lemma_in_triangle_swap(p, q, r, v.x as int, v.y as int);
    }
    assert forall|v: Vi2d| #[trigger] filled_triangle_points(p, r, q).to_set().contains(v)
        == filled_triangle_points(p, q, r).to_set().contains(v) by {
        lemma_filled_triangle_contains(p, q, r, v);
        lemma_filled_triangle_contains(p, r, q, v);
        lemma_in_triangle_swap(p, q, r, v.x as int, v.y as int);
    }
    assert(filled_triangle_points(q, p, r).to_set() =~= filled_triangle_points(p, q, r).to_set());
    assert(filled_triangle_points(p, r, q).to_set() =~= filled_triangle_points(p, q, r).to_set());
}

/// Whether the `i32` arithmetic of the line test of `e` at `(x, y)` stays in range.
pub open spec fn edge_eval_fits(e: (int, int, int), x: int, y: int) -> bool {
    &&& fits(e.0 * x)
    &&& fits(e.1 * y)
    &&& fits(e.0 * x + e.1 * y)
    &&& fits(e.0 * x + e.1 * y - e.2)
    &&& fits(-(e.0 * x + e.1 * y - e.2))
}

/// Whether the `i32` arithmetic that sets up line `e` through `a` and `b` stays in range.
pub open spec fn edge_fits(a: Vi2d, b: Vi2d) -> bool {
    let e = edge_line(a, b);
    &&& fits(e.0)
    &&& fits(e.1)
    &&& fits(e.0 * b.x)
    &&& fits(e.1 * b.y)
    &&& fits(e.2)
}

/// Whether a triangle can be filled: its edges can be drawn and all the `i32` arithmetic
/// of the fill stays in range.
pub open spec fn fill_triangle_fits(p1: Vi2d, p2: Vi2d, p3: Vi2d) -> bool {
    let (e0, e1, e2) = tri_edges(p1, p2, p3);
    let xlo = min3(p1.x as int, p2.x as int, p3.x as int);
    let xhi = max3(p1.x as int, p2.x as int, p3.x as int);
    let ylo = min3(p1.y as int, p2.y as int, p3.y as int);
    let yhi = max3(p1.y as int, p2.y as int, p3.y as int);
    &&& triangle_fits(p1, p2, p3)
    &&& fits(p1.x + p2.x + p3.x)
    &&& fits(p1.y + p2.y + p3.y)
    &&& edge_fits(p1, p2)
    &&& edge_fits(p3, p1)
    &&& edge_fits(p2, p3)
    &&& forall|x: int, y: int|
        xlo <= x <= xhi && ylo <= y <= yhi ==> #[trigger] edge_eval_fits(e0, x, y)
            && edge_eval_fits(e1, x, y) && edge_eval_fits(e2, x, y)
}

fn min3_i64(a: i64, b: i64, c: i64) -> (m: i64)
    ensures
        m == min3(a as int, b as int, c as int),
{
    if a <= b && a <= c {
        a
    } else if b <= c {
        b
    } else {
        c
    }
}

fn max3_i64(a: i64, b: i64, c: i64) -> (m: i64)
    ensures
        m == max3(a as int, b as int, c as int),
{
    if a >= b && a >= c {
        a
    } else if b >= c {
        b
    } else {
        c
    }
}

/// The line through `a` and `b`, computed exactly.
fn edge_of(a: Vi2d, b: Vi2d) -> (e: (i128, i128, i128))
    ensures
        e.0 == edge_line(a, b).0,
        e.1 == edge_line(a, b).1,
        e.2 == edge_line(a, b).2,
{
    let ea = a.y as i128 - b.y as i128;
    let eb = b.x as i128 - a.x as i128;
    proof {
        lemma_i32_wide_product(ea as int, b.x as int);
        lemma_i32_wide_product(eb as int, b.y as int);
    }
    (ea, eb, ea * (b.x as i128) + eb * (b.y as i128))
}

/// A product of a number below 2^33 and an `i32` is below 2^64.
proof fn lemma_i32_wide_product(a: int, b: int)
    requires
        -0x2_0000_0000 <= a <= 0x2_0000_0000,
        i32::MIN <= b <= i32::MAX,
    ensures
        -0x1_0000_0000_0000_0000 <= a * b <= 0x1_0000_0000_0000_0000,
{
    assert(-0x1_0000_0000_0000_0000 <= a * b <= 0x1_0000_0000_0000_0000) by (nonlinear_arith)
        requires
            -0x2_0000_0000 <= a <= 0x2_0000_0000,
            -0x8000_0000 <= b <= 0x7fff_ffff,
    ;
}

/// The centroid side of line `e` for coordinate sums `sx` and `sy`.
fn side_of(e: (i128, i128, i128), sx: i128, sy: i128) -> (l: i128)
    requires
        -0x2_0000_0000 <= e.0 <= 0x2_0000_0000,
        -0x2_0000_0000 <= e.1 <= 0x2_0000_0000,
        -0x10_0000_0000_0000_0000 <= e.2 <= 0x10_0000_0000_0000_0000,
        -0x2_0000_0000 <= sx <= 0x2_0000_0000,
        -0x2_0000_0000 <= sy <= 0x2_0000_0000,
    ensures
        l == centroid_side((e.0 as int, e.1 as int, e.2 as int), sx as int, sy as int),
{
    proof {
        assert(-0x4_0000_0000_0000_0000 <= e.0 * sx <= 0x4_0000_0000_0000_0000) by (nonlinear_arith)
            requires
                -0x2_0000_0000 <= e.0 <= 0x2_0000_0000,
                -0x2_0000_0000 <= sx <= 0x2_0000_0000,
        ;
        assert(-0x4_0000_0000_0000_0000 <= e.1 * sy <= 0x4_0000_0000_0000_0000) by (nonlinear_arith)
            requires
                -0x2_0000_0000 <= e.1 <= 0x2_0000_0000,
                -0x2_0000_0000 <= sy <= 0x2_0000_0000,
        ;
    }
    if e.0 * sx + e.1 * sy - 3 * e.2 >= 0 {
        1
    } else {
        -1
    }
}

/// Whether `(x, y)` lies on the centroid's side of line `e` (sides given as `l`).
fn on_side(e: (i128, i128, i128), l: i128, x: i128, y: i128) -> (b: bool)
    requires
        -0x2_0000_0000 <= e.0 <= 0x2_0000_0000,
        -0x2_0000_0000 <= e.1 <= 0x2_0000_0000,
        -0x10_0000_0000_0000_0000 <= e.2 <= 0x10_0000_0000_0000_0000,
        l == 1 || l == -1,
        i32::MIN <= x <= i32::MAX,
        i32::MIN <= y <= i32::MAX,
    ensures
        b == ((e.0 * x + e.1 * y - e.2) * l >= 0),
{
    proof {
        lemma_i32_wide_product(e.0 as int, x as int);
        lemma_i32_wide_product(e.1 as int, y as int);
    }
    let v = e.0 * x + e.1 * y - e.2;
    if l == 1 {
        v >= 0
    } else {
        v <= 0
    }
}

/// Draw a line between two points with the pen: all of [`line_points`], or its dotted
/// selection.
fn draw_line_with<T: SmartDrawingTrait>(t: &mut T, p1: Vi2d, p2: Vi2d, col: Color, dotted: bool, pattern: u32)
    requires
        line_fits(p1, p2),
    ensures
        *final(t) == draw_all(*old(t), pen_select(line_points(p1, p2), dotted, pattern), col),
{
    if p1.x == p2.x {
        if p2.y > p1.y {
            draw_column(t, p1.x, p1.y, p2.y, col, dotted, pattern);
        } else {
            draw_column(t, p1.x, p2.y, p1.y, col, dotted, pattern);
        }
    } else if p1.y == p2.y {
        if p2.x > p1.x {
            draw_row(t, p1.y, p1.x, p2.x, col, dotted, pattern);
        } else {
            draw_row(t, p1.y, p2.x, p1.x, col, dotted, pattern);
        }
    } else {
        let adx: i64 = if p2.x >= p1.x {
            p2.x as i64 - p1.x as i64
        } else {
            p1.x as i64 - p2.x as i64
        };
        let ady: i64 = if p2.y >= p1.y {
            p2.y as i64 - p1.y as i64
        } else {
            p1.y as i64 - p2.y as i64
        };
        if ady < adx {
            if p1.x > p2.x {
                draw_x_major(t, p2.x, p2.y, p1.x, p1.y, col, dotted, pattern);
            } else {
                draw_x_major(t, p1.x, p1.y, p2.x, p2.y, col, dotted, pattern);
            }
        } else {
            if p1.y > p2.y {
                draw_y_major(t, p2.x, p2.y, p1.x, p1.y, col, dotted, pattern);
            } else {
                draw_y_major(t, p1.x, p1.y, p2.x, p2.y, col, dotted, pattern);
            }
        }
    }
}

/// Drawing of text, lines, rectangles, circles and triangles.
pub trait ShapesTrait: SmartDrawingTrait {
    /// Draw text to the screen
    /// The textsize will be equal to `scale * 8` for the height and `scale * 8 * text.len()` for
    /// the width (see [`text_points`]). A `\n` starts a new line; a character outside ASCII
    /// is skipped.
    fn draw_text(&mut self, pos: Vi2d, scale: u32, col: Color, text: &str)
        requires
            text_fits(old(self).textsheet(), text@, pos, scale),
        ensures
            *final(self) == draw_each(*old(self), text_points(old(self).textsheet(), text@, pos, scale, col, text@.len() as int)),
    {
        draw_text_on(self, pos, scale, col, text);
    }

    /// Draw a line between two points (see [`line_points`]).
    fn draw_line(&mut self, p1: Vi2d, p2: Vi2d, col: Color)
        requires
            line_fits(p1, p2),
        ensures
            *final(self) == draw_all(*old(self), line_points(p1, p2), col),
    {
        draw_line_with(self, p1, p2, col, false, 0);
    }

    /// Draw a rectangle with the top left corner at `pos`
    /// and the bottom right corner at `pos + size - (1, 1)` (both included)
    fn draw_rect(&mut self, pos: Vi2d, size: Vi2d, col: Color)
        requires
            rect_fits(pos, size),
        ensures
            *final(self) == draw_all(*old(self), rect_points(pos, size), col),
    {
        let w = size.x - 1;
        let h = size.y - 1;
        let x = pos.x;
        let y = pos.y;
        let tl = Vec2d { x, y };
        let tr = Vec2d { x: x + w, y };
        let br = Vec2d { x: x + w, y: y + h };
        let bl = Vec2d { x, y: y + h };
        let ghost start = *self;
        self.draw_line(tl, tr, col);
        self.draw_line(tr, br, col);
        self.draw_line(br, bl, col);
        self.draw_line(bl, tl, col);
        proof {
            let (a, b, c, d) = (line_points(tl, tr), line_points(tr, br), line_points(br, bl), line_points(bl, tl));
            lemma_draw_all_concat(start, a, b, col);
            lemma_draw_all_concat(start, a + b, c, col);
            lemma_draw_all_concat(start, a + b + c, d, col);
        }
    }

    /// Fill a rectangle with the top left corner at `pos`
    /// and the bottom right corner at `pos + size` (both included): each column from `pos.x`
    /// to `pos.x + size.x`, from row `pos.y` to row `pos.y + size.y`
    fn fill_rect(&mut self, pos: Vi2d, size: Vi2d, col: Color)
        requires
            fits(pos.x + size.x),
            fits(pos.y + size.y),
        ensures
            *final(self) == draw_all(*old(self), fill_rect_points(pos.x as int, pos.y as int, size.x + 1, size.y as int), col),
    {
        let ghost start = *self;
        let x = pos.x;
        let y = pos.y;
        let count: i64 = size.x as i64 + 1;
        let mut k: i64 = 0;
        proof {
            assert(fill_rect_points(x as int, y as int, 0, size.y as int) =~= Seq::<Vi2d>::empty());
        }
        while k < count
            invariant
                0 <= k,
                count > 0 ==> k <= count,
                count <= 0 ==> k == 0,
                count == size.x + 1,
                x == pos.x,
                y == pos.y,
                fits(pos.x + size.x),
                fits(pos.y + size.y),
                *self == draw_all(start, fill_rect_points(x as int, y as int, k as int, size.y as int), col),
            decreases count - k,
        {
            let nx = (x as i64 + k) as i32;
            let top = Vec2d { x: nx, y };
            let bottom = Vec2d { x: nx, y: y + size.y };
            self.draw_line(top, bottom, col);
            proof {
                lemma_draw_all_concat(start, fill_rect_points(x as int, y as int, k as int, size.y as int), line_points(top, bottom), col);
                assert(fill_rect_points(x as int, y as int, k + 1, size.y as int) == fill_rect_points(x as int, y as int, k as int, size.y as int) + line_points(top, bottom));
            }
            k = k + 1;
        }
        proof {
            if count <= 0 {
                assert(fill_rect_points(x as int, y as int, size.x + 1, size.y as int) == Seq::<Vi2d>::empty());
            }
        }
    }

    /// Draw a circle with center `pos` and radius `r` (see [`circle_points`])
    fn draw_circle(&mut self, pos: Vi2d, r: u32, col: Color)
        requires
            circle_fits(pos, r),
        ensures
            *final(self) == draw_all(*old(self), circle_points(pos, r), col),
    {
        if r == 0 {
            return ;
        }
        let ghost start = *self;
        let ghost full = circle_offsets(r as int);
        let ghost mut done: Seq<(int, int)> = Seq::empty();
        let x = pos.x as i64;
        let y = pos.y as i64;
        let ri = r as i64;
        let mut x0: i64 = 0;
        let mut y0: i64 = ri;
        let mut d: i64 = 3 - 2 * ri;
        proof {
            assert(full =~= done + circle_steps(0, r as int, 3 - 2 * r));
            assert(d == circle_decision(0, ri as int, ri as int)) by (nonlinear_arith)
                requires d == 3 - 2 * ri;
        }
        while y0 >= x0
            invariant
                x == pos.x,
                y == pos.y,
                ri == r,
                circle_fits(pos, r),
                0 <= x0 <= ri + 1,
                -1 <= y0 <= ri,
                d == circle_decision(x0 as int, y0 as int, ri as int),
                full == circle_offsets(r as int),
                full == done + circle_steps(x0 as int, y0 as int, d as int),
                *self == draw_all(start, circle_outline(pos, done), col),
            decreases y0 - x0 + 2,
        {
            let pts = [
                Vec2d { x: (x + x0) as i32, y: (y - y0) as i32 },
                Vec2d { x: (x + y0) as i32, y: (y - x0) as i32 },
                Vec2d { x: (x + y0) as i32, y: (y + x0) as i32 },
                Vec2d { x: (x + x0) as i32, y: (y + y0) as i32 },
                Vec2d { x: (x - x0) as i32, y: (y + y0) as i32 },
                Vec2d { x: (x - y0) as i32, y: (y + x0) as i32 },
                Vec2d { x: (x - y0) as i32, y: (y - x0) as i32 },
                Vec2d { x: (x - x0) as i32, y: (y - y0) as i32 },
            ];
            let ghost step = (x0 as int, y0 as int);
            proof {
                assert(pts@ =~= octant_points(pos, step));
                lemma_draw_all_concat(start, circle_outline(pos, done), octant_points(pos, step), col);
                assert(done.push(step).drop_last() =~= done);
            }
            draw_points(self, &pts, col);
            proof {
                lemma_circle_step(x0 as int, y0 as int, ri as int, d as int);
                let rest = circle_steps(x0 as int + 1, if d < 0 { y0 as int } else { y0 - 1 }, if d < 0 {
                    d + 4 * (x0 + 1) + 6
                } else {
                    d + 4 * ((x0 + 1) - (y0 - 1)) + 10
                });
                assert(circle_steps(x0 as int, y0 as int, d as int) == seq![step] + rest);
                assert(full =~= done.push(step) + rest);
                done = done.push(step);
                lemma_circle_decision_bound(x0 as int, y0 as int, ri as int);
            }
            x0 = x0 + 1;
            if d < 0 {
                d = d + 4 * x0 + 6;
            } else {
                y0 = y0 - 1;
                d = d + 4 * (x0 - y0) + 10;
            }
        }
        proof {
            assert(circle_steps(x0 as int, y0 as int, d as int) == Seq::<(int, int)>::empty());
            assert(full =~= done);
        }
    }

    /// Fill a circle with center `pos` and radius `r` (see [`disc_points`])
    fn fill_circle(&mut self, pos: Vi2d, r: u32, col: Color)
        requires
            circle_fits(pos, r),
        ensures
            *final(self) == draw_all(*old(self), disc_points(pos, r), col),
    {
        if r == 0 {
            return ;
        }
        let ghost start = *self;
        let ghost full = circle_offsets(r as int);
        let ghost mut done: Seq<(int, int)> = Seq::empty();
        let x = pos.x as i64;
        let y = pos.y as i64;
        let ri = r as i64;
        let mut x0: i64 = 0;
        let mut y0: i64 = ri;
        let mut d: i64 = 3 - 2 * ri;
        proof {
            assert(full =~= done + circle_steps(0, r as int, 3 - 2 * r));
            assert(d == circle_decision(0, ri as int, ri as int)) by (nonlinear_arith)
                requires d == 3 - 2 * ri;
        }
        while y0 >= x0
            invariant
                x == pos.x,
                y == pos.y,
                ri == r,
                circle_fits(pos, r),
                0 <= x0 <= ri + 1,
                -1 <= y0 <= ri,
                d == circle_decision(x0 as int, y0 as int, ri as int),
                full == circle_offsets(r as int),
                full == done + circle_steps(x0 as int, y0 as int, d as int),
                *self == draw_all(start, disc_fill(pos, done), col),
            decreases y0 - x0 + 2,
        {
            let ghost step = (x0 as int, y0 as int);
            let ghost before = *self;
            let a1 = Vec2d { x: (x - x0) as i32, y: (y - y0) as i32 };
            let b1 = Vec2d { x: (x + x0) as i32, y: (y - y0) as i32 };
            let a2 = Vec2d { x: (x - y0) as i32, y: (y - x0) as i32 };
            let b2 = Vec2d { x: (x + y0) as i32, y: (y - x0) as i32 };
            let a3 = Vec2d { x: (x - x0) as i32, y: (y + y0) as i32 };
            let b3 = Vec2d { x: (x + x0) as i32, y: (y + y0) as i32 };
            let a4 = Vec2d { x: (x - y0) as i32, y: (y + x0) as i32 };
            let b4 = Vec2d { x: (x + y0) as i32, y: (y + x0) as i32 };
            self.draw_line(a1, b1, col);
            self.draw_line(a2, b2, col);
            self.draw_line(a3, b3, col);
            self.draw_line(a4, b4, col);
            proof {
                let (l1, l2, l3, l4) = (line_points(a1, b1), line_points(a2, b2), line_points(a3, b3), line_points(a4, b4));
                assert(a1 == pt(pos.x - step.0, pos.y - step.1));
                assert(disc_rows(pos, step) == l1 + l2 + l3 + l4);
                lemma_draw_all_concat(before, l1, l2, col);
                lemma_draw_all_concat(before, l1 + l2, l3, col);
                lemma_draw_all_concat(before, l1 + l2 + l3, l4, col);
                lemma_draw_all_concat(start, disc_fill(pos, done), disc_rows(pos, step), col);
                assert(done.push(step).drop_last() =~= done);
                lemma_circle_step(x0 as int, y0 as int, ri as int, d as int);
                let rest = circle_steps(x0 as int + 1, if d < 0 { y0 as int } else { y0 - 1 }, if d < 0 {
                    d + 4 * (x0 + 1) + 6
                } else {
                    d + 4 * ((x0 + 1) - (y0 - 1)) + 10
                });
                assert(circle_steps(x0 as int, y0 as int, d as int) == seq![step] + rest);
                assert(full =~= done.push(step) + rest);
                done = done.push(step);
                lemma_circle_decision_bound(x0 as int, y0 as int, ri as int);
            }
            x0 = x0 + 1;
            if d < 0 {
                d = d + 4 * x0 + 6;
            } else {
                y0 = y0 - 1;
                d = d + 4 * (x0 - y0) + 10;
            }
        }
        proof {
            assert(circle_steps(x0 as int, y0 as int, d as int) == Seq::<(int, int)>::empty());
            assert(full =~= done);
        }
    }

    /// Draw the edges of a triangle between the three points
    fn draw_triangle(&mut self, pts1: Vi2d, pts2: Vi2d, pts3: Vi2d, col: Color)
        requires
            triangle_fits(pts1, pts2, pts3),
        ensures
            *final(self) == draw_all(*old(self), triangle_points(pts1, pts2, pts3), col),
    {
        let ghost start = *self;
        self.draw_line(pts1, pts2, col);
        self.draw_line(pts1, pts3, col);
        self.draw_line(pts2, pts3, col);
        proof {
            let (a, b, c) = (line_points(pts1, pts2), line_points(pts1, pts3), line_points(pts2, pts3));
            lemma_draw_all_concat(start, a, b, col);
            lemma_draw_all_concat(start, a + b, c, col);
        }
    }
    /// Fill the given triangle: draw its edges, then every point of its bounding box that
    /// lies inside it (see [`filled_triangle_points`] and [`in_triangle`]).
    fn fill_triangle(&mut self, pts1: Vi2d, pts2: Vi2d, pts3: Vi2d, col: Color)
        requires
            fill_triangle_fits(pts1, pts2, pts3),
        ensures
            *final(self) == draw_all(*old(self), filled_triangle_points(pts1, pts2, pts3), col),
    {
        let ghost start = *self;
        self.draw_triangle(pts1, pts2, pts3, col);
        let ghost edges_done = *self;
        let e0 = edge_of(pts1, pts2);
        let e1 = edge_of(pts3, pts1);
        let e2 = edge_of(pts2, pts3);
        let sx = pts1.x as i128 + pts2.x as i128 + pts3.x as i128;
        let sy = pts1.y as i128 + pts2.y as i128 + pts3.y as i128;
        proof {
            lemma_i32_wide_product((pts1.y - pts2.y) as int, pts2.x as int);
            lemma_i32_wide_product((pts2.x - pts1.x) as int, pts2.y as int);
            lemma_i32_wide_product((pts3.y - pts1.y) as int, pts1.x as int);
            lemma_i32_wide_product((pts1.x - pts3.x) as int, pts1.y as int);
            lemma_i32_wide_product((pts2.y - pts3.y) as int, pts3.x as int);
            lemma_i32_wide_product((pts3.x - pts2.x) as int, pts3.y as int);
        }
        let l0 = side_of(e0, sx, sy);
        let l1 = side_of(e1, sx, sy);
        let l2 = side_of(e2, sx, sy);
        let xlo: i64 = min3_i64(pts1.x as i64, pts2.x as i64, pts3.x as i64);
        let xhi: i64 = max3_i64(pts1.x as i64, pts2.x as i64, pts3.x as i64);
        let ylo: i64 = min3_i64(pts1.y as i64, pts2.y as i64, pts3.y as i64);
        let yhi: i64 = max3_i64(pts1.y as i64, pts2.y as i64, pts3.y as i64);
        let ghost tri = (pts1, pts2, pts3);
        let mut x: i64 = xlo;
        while x <= xhi
            invariant
                xlo <= x <= xhi + 1,
                xlo == min3(pts1.x as int, pts2.x as int, pts3.x as int),
                xhi == max3(pts1.x as int, pts2.x as int, pts3.x as int),
                ylo == min3(pts1.y as int, pts2.y as int, pts3.y as int),
                yhi == max3(pts1.y as int, pts2.y as int, pts3.y as int),
                ylo <= yhi,
                i32::MIN <= xlo,
                xhi <= i32::MAX,
                i32::MIN <= ylo,
                yhi <= i32::MAX,
                e0.0 == edge_line(pts1, pts2).0 && e0.1 == edge_line(pts1, pts2).1 && e0.2 == edge_line(pts1, pts2).2,
                e1.0 == edge_line(pts3, pts1).0 && e1.1 == edge_line(pts3, pts1).1 && e1.2 == edge_line(pts3, pts1).2,
                e2.0 == edge_line(pts2, pts3).0 && e2.1 == edge_line(pts2, pts3).1 && e2.2 == edge_line(pts2, pts3).2,
                -0x2_0000_0000 <= e0.0 <= 0x2_0000_0000 && -0x2_0000_0000 <= e0.1 <= 0x2_0000_0000,
                -0x2_0000_0000 <= e1.0 <= 0x2_0000_0000 && -0x2_0000_0000 <= e1.1 <= 0x2_0000_0000,
                -0x2_0000_0000 <= e2.0 <= 0x2_0000_0000 && -0x2_0000_0000 <= e2.1 <= 0x2_0000_0000,
                -0x10_0000_0000_0000_0000 <= e0.2 <= 0x10_0000_0000_0000_0000,
                -0x10_0000_0000_0000_0000 <= e1.2 <= 0x10_0000_0000_0000_0000,
                -0x10_0000_0000_0000_0000 <= e2.2 <= 0x10_0000_0000_0000_0000,
                sx == pts1.x + pts2.x + pts3.x,
                sy == pts1.y + pts2.y + pts3.y,
                l0 == centroid_side(edge_line(pts1, pts2), sx as int, sy as int),
                l1 == centroid_side(edge_line(pts3, pts1), sx as int, sy as int),
                l2 == centroid_side(edge_line(pts2, pts3), sx as int, sy as int),
                *self == draw_all(edges_done, tri_raster(pts1, pts2, pts3, xlo as int, x - xlo, ylo as int, yhi as int), col),
            decreases xhi - x + 1,
        {
            let ghost col_start = *self;
            let mut y: i64 = ylo;
            while y <= yhi
                invariant
                    ylo <= y <= yhi + 1,
                    xlo <= x <= xhi,
                    xlo == min3(pts1.x as int, pts2.x as int, pts3.x as int),
                    xhi == max3(pts1.x as int, pts2.x as int, pts3.x as int),
                    ylo == min3(pts1.y as int, pts2.y as int, pts3.y as int),
                    yhi == max3(pts1.y as int, pts2.y as int, pts3.y as int),
                    i32::MIN <= xlo,
                    xhi <= i32::MAX,
                    i32::MIN <= ylo,
                    yhi <= i32::MAX,
                    e0.0 == edge_line(pts1, pts2).0 && e0.1 == edge_line(pts1, pts2).1 && e0.2 == edge_line(pts1, pts2).2,
                    e1.0 == edge_line(pts3, pts1).0 && e1.1 == edge_line(pts3, pts1).1 && e1.2 == edge_line(pts3, pts1).2,
                    e2.0 == edge_line(pts2, pts3).0 && e2.1 == edge_line(pts2, pts3).1 && e2.2 == edge_line(pts2, pts3).2,
                    -0x2_0000_0000 <= e0.0 <= 0x2_0000_0000 && -0x2_0000_0000 <= e0.1 <= 0x2_0000_0000,
                    -0x2_0000_0000 <= e1.0 <= 0x2_0000_0000 && -0x2_0000_0000 <= e1.1 <= 0x2_0000_0000,
                    -0x2_0000_0000 <= e2.0 <= 0x2_0000_0000 && -0x2_0000_0000 <= e2.1 <= 0x2_0000_0000,
                    -0x10_0000_0000_0000_0000 <= e0.2 <= 0x10_0000_0000_0000_0000,
                    -0x10_0000_0000_0000_0000 <= e1.2 <= 0x10_0000_0000_0000_0000,
                    -0x10_0000_0000_0000_0000 <= e2.2 <= 0x10_0000_0000_0000_0000,
                    sx == pts1.x + pts2.x + pts3.x,
                    sy == pts1.y + pts2.y + pts3.y,
                    l0 == centroid_side(edge_line(pts1, pts2), sx as int, sy as int),
                    l1 == centroid_side(edge_line(pts3, pts1), sx as int, sy as int),
                    l2 == centroid_side(edge_line(pts2, pts3), sx as int, sy as int),
                    *self == draw_all(col_start, tri_column(pts1, pts2, pts3, x as int, ylo as int, y - ylo), col),
                decreases yhi - y + 1,
            {
                let inside = on_side(e0, l0, x as i128, y as i128) && on_side(e1, l1, x as i128, y as i128)
                    && on_side(e2, l2, x as i128, y as i128);
                let p = Vec2d { x: x as i32, y: y as i32 };
                proof {
                    assert(inside == in_triangle(pts1, pts2, pts3, x as int, y as int));
                    assert(pt(x as int, y as int) == p);
                    lemma_draw_all_push(col_start, tri_column(pts1, pts2, pts3, x as int, ylo as int, y - ylo), p, col);
                }
                if inside {
                    self.draw(p, col);
                }
                y = y + 1;
            }
            proof {
                lemma_draw_all_concat(edges_done, tri_raster(pts1, pts2, pts3, xlo as int, x - xlo, ylo as int, yhi as int),
                    tri_column(pts1, pts2, pts3, x as int, ylo as int, yhi - ylo + 1), col);
            }
            x = x + 1;
        }
        proof {
            lemma_draw_all_concat(start, triangle_points(pts1, pts2, pts3),
                tri_raster(pts1, pts2, pts3, xlo as int, xhi - xlo + 1, ylo as int, yhi as int), col);
        }
    }
}

impl<T: SmartDrawingTrait> ShapesTrait for T {

}

/// The dotted outline of a rectangle: each of its four edges with the pattern started afresh.
pub open spec fn rect_points_dotted(pos: Vi2d, size: Vi2d, pattern: u32) -> Seq<Vi2d> {
    let (x, y) = (pos.x as int, pos.y as int);
    let (w, h) = (size.x - 1, size.y - 1);
    let tl = Vec2d { x: x as i32, y: y as i32 };
    let tr = Vec2d { x: (x + w) as i32, y: y as i32 };
    let br = Vec2d { x: (x + w) as i32, y: (y + h) as i32 };
    let bl = Vec2d { x: x as i32, y: (y + h) as i32 };
    dotted_points(line_points(tl, tr), pattern) + dotted_points(line_points(tr, br), pattern)
        + dotted_points(line_points(br, bl), pattern) + dotted_points(line_points(bl, tl), pattern)
}

/// The dotted edges of a triangle, each with the pattern started afresh.
pub open spec fn triangle_points_dotted(a: Vi2d, b: Vi2d, c: Vi2d, pattern: u32) -> Seq<Vi2d> {
    dotted_points(line_points(a, b), pattern) + dotted_points(line_points(a, c), pattern)
        + dotted_points(line_points(b, c), pattern)
}

/// Drawing of dotted lines, rectangles and triangles: the 32 bits of a pattern, read
/// from the highest, say which points of each line are drawn.
pub trait DottedShapeTrait: SmartDrawingTrait {
    /// Draw a dotted line (see [`dotted_points`] and [`line_points`])
    fn draw_line_dotted(&mut self, p1: Vi2d, p2: Vi2d, col: Color, pattern: u32)
        requires
            line_fits(p1, p2),
        ensures
            *final(self) == draw_all(*old(self), dotted_points(line_points(p1, p2), pattern), col),
    {
        draw_line_with(self, p1, p2, col, true, pattern);
    }

    /// Draw a dotted rectangle with the top left corner at `pos`
    /// and the bottom right corner at `pos + size - (1, 1)` (both included)
    fn draw_rect_dotted(&mut self, pos: Vi2d, size: Vi2d, col: Color, pattern: u32)
        requires
            rect_fits(pos, size),
        ensures
            *final(self) == draw_all(*old(self), rect_points_dotted(pos, size, pattern), col),
    {
        let w = size.x - 1;
        let h = size.y - 1;
        let x = pos.x;
        let y = pos.y;
        let tl = Vec2d { x, y };
        let tr = Vec2d { x: x + w, y };
        let br = Vec2d { x: x + w, y: y + h };
        let bl = Vec2d { x, y: y + h };
        let ghost start = *self;
        self.draw_line_dotted(tl, tr, col, pattern);
        self.draw_line_dotted(tr, br, col, pattern);
        self.draw_line_dotted(br, bl, col, pattern);
        self.draw_line_dotted(bl, tl, col, pattern);
        proof {
            let (a, b, c, d) = (
                dotted_points(line_points(tl, tr), pattern),
                dotted_points(line_points(tr, br), pattern),
                dotted_points(line_points(br, bl), pattern),
                dotted_points(line_points(bl, tl), pattern),
            );
            lemma_draw_all_concat(start, a, b, col);
            lemma_draw_all_concat(start, a + b, c, col);
            lemma_draw_all_concat(start, a + b + c, d, col);
        }
    }

    /// Draw the dotted edges of a triangle between the three points
    fn draw_triangle_dotted(&mut self, pts1: Vi2d, pts2: Vi2d, pts3: Vi2d, col: Color, pattern: u32)
        requires
            triangle_fits(pts1, pts2, pts3),
        ensures
            *final(self) == draw_all(*old(self), triangle_points_dotted(pts1, pts2, pts3, pattern), col),
    {
        let ghost start = *self;
        self.draw_line_dotted(pts1, pts2, col, pattern);
        self.draw_line_dotted(pts1, pts3, col, pattern);
        self.draw_line_dotted(pts2, pts3, col, pattern);
        proof {
            let (a, b, c) = (
                dotted_points(line_points(pts1, pts2), pattern),
                dotted_points(line_points(pts1, pts3), pattern),
                dotted_points(line_points(pts2, pts3), pattern),
            );
            lemma_draw_all_concat(start, a, b, col);
            lemma_draw_all_concat(start, a + b, c, col);
        }
    }
}

impl<T: SmartDrawingTrait> DottedShapeTrait for T {

}

/// Turning a pattern `n` times, for `n` from 1 to 31, moves its bits `n` places up,
/// the top `n` bits coming round to the bottom.
proof fn lemma_rotl_closed(p: u32, n: u32)
    requires
        1 <= n < 32,
    ensures
        rotl(p, n as nat) == (p << n) | (p >> ((32 - n) as u32)),
    decreases n,
{
    if n == 1 {
        assert(rotl(p, 0) == p);
    } else {
        let m = (n - 1) as u32;
        lemma_rotl_closed(p, m);
        assert(rotate_once((p << m) | (p >> ((32 - m) as u32))) == (p << n) | (p >> ((32 - n) as u32)))
            by (bit_vector)
            requires
                1 <= m < 31,
                n == m + 1,
        ;
    }
}

/// Turning a pattern 32 times gives it back.
proof fn lemma_rotl_32(p: u32)
    ensures
        rotl(p, 32) == p,
{
    lemma_rotl_closed(p, 31);
    assert(rotate_once((p << 31u32) | (p >> 1u32)) == p) by (bit_vector);
}

/// Turning by `n + m` is turning by `n`, then by `m`.
proof fn lemma_rotl_add(p: u32, n: nat, m: nat)
    ensures
        rotl(p, n + m) == rotl(rotl(p, n), m),
    decreases m,
{
    if m > 0 {
        lemma_rotl_add(p, n, (m - 1) as nat);
    }
}

/// A dotted pattern repeats every 32 points: the `k`-th and the `(k + 32)`-th points of
/// a line are both drawn or both left out.
pub proof fn lemma_dotted_period(pattern: u32, k: nat)
    ensures
        rotl(pattern, k + 33) & 1 == rotl(pattern, k + 1) & 1,
{
    lemma_rotl_add(pattern, k + 1, 32);
    lemma_rotl_32(rotl(pattern, k + 1));
}

/// A pattern with every bit set draws every point of the line: the dotted line is the
/// plain line.
pub proof fn lemma_dotted_full(s: Seq<Vi2d>)
    ensures
        dotted_points(s, 0xffff_ffff) == s,
    decreases s.len(),
{
    if s.len() > 0 {
        lemma_dotted_full(s.drop_last());
        lemma_rotl_fixed(0xffff_ffff, s.len());
        assert(0xffff_ffffu32 & 1 == 1) by (bit_vector);
        assert(s.drop_last().push(s.last()) =~= s);
    }
}

/// A pattern with no bit set draws nothing.
pub proof fn lemma_dotted_empty(s: Seq<Vi2d>)
    ensures
        dotted_points(s, 0) == Seq::<Vi2d>::empty(),
    decreases s.len(),
{
    if s.len() > 0 {
        lemma_dotted_empty(s.drop_last());
        lemma_rotl_fixed(0, s.len());
        assert(0u32 & 1 == 0) by (bit_vector);
    }
}

/// The patterns with all bits equal are left as they are by turning.
proof fn lemma_rotl_fixed(p: u32, n: nat)
    requires
        p == 0 || p == 0xffff_ffff,
    ensures
        rotl(p, n) == p,
    decreases n,
{
    if n > 0 {
        lemma_rotl_fixed(p, (n - 1) as nat);
        assert(p == 0 || p == 0xffff_ffff ==> rotate_once(p) == p) by (bit_vector);
    }
}

/// The color of pixel `(x, y)` of `spr`, fully transparent black outside it.
pub open spec fn sample(spr: Sprite, x: int, y: int) -> Color {
    if spr.in_bounds(x, y) {
        spr.pixel(x, y)
    } else {
        Color::spec_blank()
    }
}

/// The first `k` rows of a `b` by `b` block of color `c` whose corner is `(bx, by)`,
/// each row going down from the top.
pub open spec fn blit_block(bx: int, by: int, b: int, k: int, c: Color) -> Seq<(Vi2d, Color)>
    decreases k,
{
    if k <= 0 {
        Seq::empty()
    } else {
        blit_block(bx, by, b, k - 1, c) + Seq::new(b as nat, |js: int| (pt(bx + k - 1, by + js), c))
    }
}

/// A picture placed on a target: at `(x, y)`, `w` by `h` source pixels taken from `spr`
/// starting at `(ox, oy)`, each drawn as a `b` by `b` block, mirrored horizontally and/or
/// vertically as `flip` says.
pub struct Blit {
    pub x: int,
    pub y: int,
    pub ox: int,
    pub oy: int,
    pub w: int,
    pub h: int,
    pub b: int,
    pub flip: (bool, bool),
}

/// The color of cell `(i, j)` of a blit: the source pixel it shows, counted from the
/// right or the bottom when that axis is mirrored.
pub open spec fn blit_color(spr: Sprite, bl: Blit, i: int, j: int) -> Color {
    let fx = if bl.flip.0 { bl.w - 1 - i } else { i };
    let fy = if bl.flip.1 { bl.h - 1 - j } else { j };
    sample(spr, bl.ox + fx, bl.oy + fy)
}

/// The first `n` cells of column `i` of a blit, each as its block of points.
pub open spec fn blit_column(spr: Sprite, bl: Blit, i: int, n: int) -> Seq<(Vi2d, Color)>
    decreases n,
{
    if n <= 0 {
        Seq::empty()
    } else {
        blit_column(spr, bl, i, n - 1) + blit_block(
            bl.x + i * bl.b,
            bl.y + (n - 1) * bl.b,
            bl.b,
            bl.b,
            blit_color(spr, bl, i, n - 1),
        )
    }
}

/// The first `m` columns of a blit, column by column.
pub open spec fn blit_points(spr: Sprite, bl: Blit, m: int) -> Seq<(Vi2d, Color)>
    decreases m,
{
    if m <= 0 {
        Seq::empty()
    } else {
        blit_points(spr, bl, m - 1) + blit_column(spr, bl, m - 1, bl.h)
    }
}

proof fn lemma_mixed_index(a: int, na: int, c: int, nc: int)
    requires
        0 <= a < na,
        0 <= c < nc,
    ensures
        0 <= a * nc + c < na * nc,
        a * nc + c < (a + 1) * nc,
        a * nc <= a * nc + c,
{
    assert(0 <= a * nc + c < na * nc) by (nonlinear_arith)
        requires
            0 <= a < na,
            0 <= c < nc,
    ;
    assert(a * nc + c < (a + 1) * nc) by (nonlinear_arith)
        requires
            0 <= c < nc,
    ;
}

proof fn lemma_block_layout(bx: int, by: int, b: int, k: int, c: Color)
    requires
        b >= 1,
        0 <= k,
    ensures
        blit_block(bx, by, b, k, c).len() == k * b,
        forall|is: int, js: int|
            0 <= is < k && 0 <= js < b ==> #[trigger] blit_block(bx, by, b, k, c)[is * b + js] == (pt(bx + is, by + js), c),
    decreases k,
{
    if k > 0 {
        lemma_block_layout(bx, by, b, k - 1, c);
        let prev = blit_block(bx, by, b, k - 1, c);
        let row = Seq::new(b as nat, |js: int| (pt(bx + k - 1, by + js), c));
        assert(prev.len() + row.len() == k * b) by (nonlinear_arith)
            requires
                prev.len() == (k - 1) * b,
                row.len() == b,
        ;
        assert forall|is: int, js: int| 0 <= is < k && 0 <= js < b implies #[trigger] blit_block(bx, by, b, k, c)[is * b + js]
            == (pt(bx + is, by + js), c) by {
            lemma_mixed_index(is, k, js, b);
            if is < k - 1 {
                lemma_mixed_index(is, k - 1, js, b);
                assert(prev[is * b + js] == (pt(bx + is, by + js), c));
            } else {
                assert(is * b == prev.len());
            }
        }
    } else {
        assert(blit_block(bx, by, b, k, c).len() == k * b) by (nonlinear_arith)
            requires
                k == 0,
                blit_block(bx, by, b, k, c).len() == 0,
        ;
    }
}

/// The source pixel that cell `(i, j)` of a blit shows: counted from the right when the blit
/// is mirrored horizontally, from the bottom when it is mirrored vertically.
spec fn blit_source(spr: Sprite, bl: Blit, i: int, j: int) -> Color {
    sample(
        spr,
        bl.ox + if bl.flip.0 { bl.w - 1 - i } else { i },
        bl.oy + if bl.flip.1 { bl.h - 1 - j } else { j },
    )
}

proof fn lemma_column_layout(spr: Sprite, bl: Blit, i: int, n: int)
    requires
        bl.b >= 1,
        0 <= n,
    ensures
        blit_column(spr, bl, i, n).len() == n * (bl.b * bl.b),
        forall|j: int, is: int, js: int|
            0 <= j < n && 0 <= is < bl.b && 0 <= js < bl.b ==> #[trigger] blit_column(spr, bl, i, n)[j * (bl.b * bl.b) + (is * bl.b + js)]
                == (pt(bl.x + i * bl.b + is, bl.y + j * bl.b + js), blit_source(spr, bl, i, j)),
    decreases n,
{
    let b = bl.b;
    let bb = b * b;
    assert(bb >= 1) by (nonlinear_arith)
        requires
            b >= 1,
            bb == b * b,
    ;
    if n > 0 {
        lemma_column_layout(spr, bl, i, n - 1);
        let prev = blit_column(spr, bl, i, n - 1);
        let blk = blit_block(bl.x + i * b, bl.y + (n - 1) * b, b, b, blit_color(spr, bl, i, n - 1));
        lemma_block_layout(bl.x + i * b, bl.y + (n - 1) * b, b, b, blit_color(spr, bl, i, n - 1));
        assert(prev.len() + blk.len() == n * bb) by (nonlinear_arith)
            requires
                prev.len() == (n - 1) * bb,
                blk.len() == b * b,
                bb == b * b,
        ;
        assert forall|j: int, is: int, js: int|
            0 <= j < n && 0 <= is < b && 0 <= js < b implies #[trigger] blit_column(spr, bl, i, n)[j * bb + (is * b + js)]
                == (pt(bl.x + i * b + is, bl.y + j * b + js), blit_source(spr, bl, i, j)) by {
            lemma_mixed_index(is, b, js, b);
            lemma_mixed_index(j, n, is * b + js, bb);
            if j < n - 1 {
                lemma_mixed_index(j, n - 1, is * b + js, bb);
                assert(prev[j * bb + (is * b + js)] == (pt(bl.x + i * b + is, bl.y + j * b + js), blit_source(spr, bl, i, j)));
            } else {
                assert(j * bb == prev.len());
                assert(blk[is * b + js] == (pt(bl.x + i * b + is, bl.y + (n - 1) * b + js), blit_color(spr, bl, i, n - 1)));
            }
        }
    } else {
        assert(blit_column(spr, bl, i, n).len() == n * bb) by (nonlinear_arith)
            requires
                n == 0,
                blit_column(spr, bl, i, n).len() == 0,
        ;
    }
}

/// Where every point of a blit lands and what color it has. A blit of `w` by `h` cells with
/// blocks of `b` by `b` points has `w * h * b * b` points: column by column, cell by cell
/// down a column, and row by row inside a block, cell `(i, j)` covers the points
/// `(x + i * b + is, y + j * b + js)` for `is`, `js` below `b`, all in the color of source
/// pixel `(ox + i, oy + j)`, or `(ox + w - 1 - i, ...)` when mirrored horizontally and
/// `(..., oy + h - 1 - j)` when mirrored vertically.
pub proof fn lemma_blit_layout(spr: Sprite, bl: Blit, m: int)
    requires
        bl.b >= 1,
        bl.h >= 0,
        0 <= m,
    ensures
        blit_points(spr, bl, m).len() == m * (bl.h * (bl.b * bl.b)),
        forall|i: int, j: int, is: int, js: int|
            0 <= i < m && 0 <= j < bl.h && 0 <= is < bl.b && 0 <= js < bl.b ==> #[trigger] blit_points(spr, bl, m)[i * (bl.h
                * (bl.b * bl.b)) + (j * (bl.b * bl.b) + (is * bl.b + js))] == (
                pt(bl.x + i * bl.b + is, bl.y + j * bl.b + js),
                sample(
                    spr,
                    bl.ox + if bl.flip.0 { bl.w - 1 - i } else { i },
                    bl.oy + if bl.flip.1 { bl.h - 1 - j } else { j },
                ),
            ),
    decreases m,
{
    let b = bl.b;
    let bb = b * b;
    let hb = bl.h * bb;
    assert(bb >= 1 && hb >= 0) by (nonlinear_arith)
        requires
            b >= 1,
            bl.h >= 0,
            bb == b * b,
            hb == bl.h * bb,
    ;
    if m > 0 {
        lemma_blit_layout(spr, bl, m - 1);
        let prev = blit_points(spr, bl, m - 1);
        let col = blit_column(spr, bl, m - 1, bl.h);
        lemma_column_layout(spr, bl, m - 1, bl.h);
        assert(prev.len() + col.len() == m * hb) by (nonlinear_arith)
            requires
                prev.len() == (m - 1) * hb,
                col.len() == bl.h * bb,
                hb == bl.h * bb,
        ;
        assert forall|i: int, j: int, is: int, js: int|
            0 <= i < m && 0 <= j < bl.h && 0 <= is < b && 0 <= js < b implies #[trigger] blit_points(spr, bl, m)[i * hb + (j * bb + (is * b + js))]
                == (pt(bl.x + i * b + is, bl.y + j * b + js), blit_source(spr, bl, i, j)) by {
            lemma_mixed_index(is, b, js, b);
            lemma_mixed_index(j, bl.h, is * b + js, bb);
            lemma_mixed_index(i, m, j * bb + (is * b + js), hb);
            if i < m - 1 {
                lemma_mixed_index(i, m - 1, j * bb + (is * b + js), hb);
                assert(prev[i * hb + (j * bb + (is * b + js))] == (pt(bl.x + i * b + is, bl.y + j * b + js), blit_source(spr, bl, i, j)));
            } else {
                assert(i * hb == prev.len());
                assert(col[j * bb + (is * b + js)] == (pt(bl.x + i * b + is, bl.y + j * b + js), blit_source(spr, bl, i, j)));
            }
        }
    } else {
        assert(blit_points(spr, bl, m).len() == m * hb) by (nonlinear_arith)
            requires
                m == 0,
                blit_points(spr, bl, m).len() == 0,
        ;
    }
}

/// Whether every point of a blit fits in `i32`.
pub open spec fn blit_fits(bl: Blit) -> bool {
    &&& fits(bl.x)
    &&& fits(bl.y)
    &&& (bl.w > 0 && bl.h > 0 && bl.b > 0) ==> fits(bl.x + bl.w * bl.b - 1) && fits(bl.y + bl.h * bl.b - 1)
    &&& -0x8000_0000 <= bl.w <= 0x8000_0000
    &&& -0x8000_0000 <= bl.h <= 0x8000_0000
    &&& -0x8000_0000 <= bl.b <= 0x8000_0000
    &&& -0x1_0000_0000 <= bl.ox <= 0x1_0000_0000
    &&& -0x1_0000_0000 <= bl.oy <= 0x1_0000_0000
}

/// Drawing two colored sequences one after the other is drawing their concatenation.
pub proof fn lemma_draw_each_concat<T: SmartDrawingTrait>(t: T, a: Seq<(Vi2d, Color)>, b: Seq<(Vi2d, Color)>)
    ensures
        draw_each(draw_each(t, a), b) == draw_each(t, a + b),
    decreases b.len(),
{
    if b.len() == 0 {
        assert(a + b =~= a);
    } else {
        lemma_draw_each_concat(t, a, b.drop_last());
        assert((a + b).drop_last() =~= a + b.drop_last());
    }
}

/// The pixel of `spr` at `(x, y)`, fully transparent black outside it.
pub(crate) fn sample_exec(spr: &Sprite, x: i64, y: i64) -> (c: Color)
    requires
        spr.wf(),
    ensures
        c == sample(*spr, x as int, y as int),
{
    if x < 0 || y < 0 || x >= spr.width() as i64 || y >= spr.height() as i64 {
        return Color::blank();
    }
    spr.get_pixel(x as u32, y as u32)
}

/// Draw one `b` by `b` block of color `c` with its corner at `(bx, by)`.
pub(crate) fn draw_block<T: SmartDrawingTrait>(t: &mut T, bx: i64, by: i64, b: i64, c: Color)
    requires
        0 <= b,
        b > 0 ==> fits(bx as int) && fits(by as int) && fits(bx + b - 1) && fits(by + b - 1),
    ensures
        *final(t) == draw_each(*old(t), blit_block(bx as int, by as int, b as int, b as int, c)),
{
    let ghost start = *t;
    let mut is: i64 = 0;
    while is < b
        invariant
            0 <= is <= b,
            b > 0 ==> fits(bx as int) && fits(by as int) && fits(bx + b - 1) && fits(by + b - 1),
            *t == draw_each(start, blit_block(bx as int, by as int, b as int, is as int, c)),
        decreases b - is,
    {
        let ghost row_start = *t;
        let ghost row = Seq::new(b as nat, |js: int| (pt(bx + is, by + js), c));
        let mut js: i64 = 0;
        while js < b
            invariant
                0 <= is < b,
                0 <= js <= b,
                fits(bx as int) && fits(by as int) && fits(bx + b - 1) && fits(by + b - 1),
                row == Seq::new(b as nat, |k: int| (pt(bx + is, by + k), c)),
                *t == draw_each(row_start, row.take(js as int)),
            decreases b - js,
        {
            let p = Vec2d { x: (bx + is) as i32, y: (by + js) as i32 };
            proof {
                assert(row[js as int] == (p, c));
                assert(row.take(js + 1) =~= row.take(js as int).push((p, c)));
                lemma_draw_each_push(row_start, row.take(js as int), (p, c));
            }
            t.draw(p, c);
            js = js + 1;
        }
        proof {
            assert(row.take(b as int) =~= row);
            lemma_draw_each_concat(start, blit_block(bx as int, by as int, b as int, is as int, c), row);
        }
        is = is + 1;
    }
}

/// Draw a blit of `spr` (see [`blit_points`]).
fn draw_blit<T: SmartDrawingTrait>(t: &mut T, spr: &Sprite, x: i64, y: i64, ox: i64, oy: i64, w: i64, h: i64, b: i64, flip: (bool, bool))
    requires
        spr.wf(),
        blit_fits(Blit { x: x as int, y: y as int, ox: ox as int, oy: oy as int, w: w as int, h: h as int, b: b as int, flip }),
        0 <= b,
    ensures
        *final(t) == draw_each(*old(t), blit_points(*spr, Blit { x: x as int, y: y as int, ox: ox as int, oy: oy as int, w: w as int, h: h as int, b: b as int, flip }, w as int)),
{
    let ghost bl = Blit { x: x as int, y: y as int, ox: ox as int, oy: oy as int, w: w as int, h: h as int, b: b as int, flip };
    let ghost start = *t;
    let mut i: i64 = 0;
    while i < w
        invariant
            0 <= i,
            w > 0 ==> i <= w,
            w <= 0 ==> i == 0,
            spr.wf(),
            0 <= b,
            bl == (Blit { x: x as int, y: y as int, ox: ox as int, oy: oy as int, w: w as int, h: h as int, b: b as int, flip }),
            blit_fits(bl),
            *t == draw_each(start, blit_points(*spr, bl, i as int)),
        decreases w - i,
    {
        let ghost col_start = *t;
        let fx: i64 = if flip.0 { w - 1 - i } else { i };
        let mut j: i64 = 0;
        while j < h
            invariant
                0 <= i < w,
                0 <= j,
                h > 0 ==> j <= h,
                h <= 0 ==> j == 0,
                spr.wf(),
                0 <= b,
                bl == (Blit { x: x as int, y: y as int, ox: ox as int, oy: oy as int, w: w as int, h: h as int, b: b as int, flip }),
                blit_fits(bl),
                fx == (if flip.0 { w - 1 - i } else { i as int }),
                *t == draw_each(col_start, blit_column(*spr, bl, i as int, j as int)),
            decreases h - j,
        {
            let fy: i64 = if flip.1 { h - 1 - j } else { j };
            let c = sample_exec(spr, ox + fx, oy + fy);
            proof {
                assert(0 <= i * b <= (w - 1) * b) by (nonlinear_arith)
                    requires
                        0 <= i < w,
                        0 <= b,
                ;
                assert(0 <= j * b <= (h - 1) * b) by (nonlinear_arith)
                    requires
                        0 <= j < h,
                        0 <= b,
                ;
                assert((w - 1) * b + b == w * b) by (nonlinear_arith);
                assert((h - 1) * b + b == h * b) by (nonlinear_arith);
                assert(i * b <= 0x8000_0000 * 0x8000_0000) by (nonlinear_arith)
                    requires
                        0 <= i <= 0x8000_0000,
                        0 <= b <= 0x8000_0000,
                ;
                assert(j * b <= 0x8000_0000 * 0x8000_0000) by (nonlinear_arith)
                    requires
                        0 <= j <= 0x8000_0000,
                        0 <= b <= 0x8000_0000,
                ;
            }
            let bx = x + i * b;
            let by = y + j * b;
            let ghost before = *t;
            draw_block(t, bx, by, b, c);
            proof {
                lemma_draw_each_concat(col_start, blit_column(*spr, bl, i as int, j as int),
                    blit_block(bx as int, by as int, b as int, b as int, c));
            }
            j = j + 1;
        }
        proof {
            if h <= 0 {
                assert(blit_column(*spr, bl, i as int, h as int) == Seq::<(Vi2d, Color)>::empty());
                assert(blit_column(*spr, bl, i as int, 0) == Seq::<(Vi2d, Color)>::empty());
            }
            lemma_draw_each_concat(start, blit_points(*spr, bl, i as int), blit_column(*spr, bl, i as int, h as int));
        }
        i = i + 1;
    }
    proof {
        if w <= 0 {
            assert(blit_points(*spr, bl, w as int) == Seq::<(Vi2d, Color)>::empty());
            assert(blit_points(*spr, bl, 0) == Seq::<(Vi2d, Color)>::empty());
        }
    }
}

/// The size of the block that one source pixel becomes at `scale`: `scale` when above 1
/// (read as an `i32`, so none above `i32::MAX`), else 1.
pub open spec fn block_size(scale: u32) -> int {
    if scale > 1 {
        if scale <= i32::MAX {
            scale as int
        } else {
            0
        }
    } else {
        1
    }
}

/// How many columns (or rows) of a sprite of width (or height) `d` are drawn: all of them,
/// or none when `d` does not fit in an `i32`.
pub open spec fn sprite_extent(d: u32) -> int {
    if d <= i32::MAX {
        d as int
    } else {
        0
    }
}

fn sprite_extent_exec(d: u32) -> (e: i64)
    ensures
        e == sprite_extent(d),
{
    if d <= 0x7fff_ffff {
        d as i64
    } else {
        0
    }
}

/// The blit that [`SpriteTrait::draw_sprite`] draws.
pub open spec fn sprite_blit(pos: Vi2d, scale: u32, spr: Sprite, flip: (bool, bool)) -> Blit {
    Blit {
        x: pos.x as int,
        y: pos.y as int,
        ox: 0,
        oy: 0,
        w: sprite_extent(spr.spec_width()),
        h: sprite_extent(spr.spec_height()),
        b: block_size(scale),
        flip,
    }
}

/// The blit that [`SpriteTrait::draw_partial_sprite`] draws.
pub open spec fn partial_blit(coords: Vi2d, o: Vi2d, size: Vi2d, scale: u32, flip: (bool, bool)) -> Blit {
    Blit {
        x: coords.x as int,
        y: coords.y as int,
        ox: o.x as int,
        oy: o.y as int,
        w: size.x as int,
        h: size.y as int,
        b: block_size(scale),
        flip,
    }
}

/// Where [`SpriteTrait::draw_sprite`] puts each pixel of the sprite. With `s` the scale (1 for
/// a scale of 0 or 1), a `w` by `h` sprite gives `w * h * s * s` points: pixel `(i, j)` of the
/// picture fills the `s` by `s` square at `(pos.x + i * s, pos.y + j * s)` with the sprite's
/// pixel `(i, j)`, or `(w - 1 - i, j)` when mirrored horizontally, or `(i, h - 1 - j)` when
/// mirrored vertically.
pub proof fn lemma_draw_sprite_layout(pos: Vi2d, scale: u32, spr: Sprite, flip: (bool, bool))
    requires
        spr.spec_width() <= i32::MAX,
        spr.spec_height() <= i32::MAX,
        scale <= i32::MAX,
    ensures
        ({
            let s: int = if scale > 1 { scale as int } else { 1 };
            let (w, h) = (spr.spec_width() as int, spr.spec_height() as int);
            let pts = blit_points(spr, sprite_blit(pos, scale, spr, flip), sprite_extent(spr.spec_width()));
            &&& pts.len() == w * (h * (s * s))
            &&& forall|i: int, j: int, is: int, js: int|
                0 <= i < w && 0 <= j < h && 0 <= is < s && 0 <= js < s ==> #[trigger] pts[i * (h * (s * s)) + (j * (s * s) + (is
                    * s + js))] == (
                    pt(pos.x + i * s + is, pos.y + j * s + js),
                    spr.pixel(if flip.0 { w - 1 - i } else { i }, if flip.1 { h - 1 - j } else { j }),
                )
        }),
{
    let s: int = if scale > 1 { scale as int } else { 1 };
    let (w, h) = (spr.spec_width() as int, spr.spec_height() as int);
    let bl = sprite_blit(pos, scale, spr, flip);
    assert(bl.b == s && bl.w == w && bl.h == h);
    lemma_blit_layout(spr, bl, w);
}

/// Where [`SpriteTrait::draw_partial_sprite`] puts each pixel of the chunk. With `s` the scale
/// (1 for a scale of 0 or 1), a chunk of `size` gives `size.x * size.y * s * s` points: chunk
/// pixel `(i, j)` fills the `s` by `s` square at `(coords.x + i * s, coords.y + j * s)` with
/// the sprite's pixel `(o.x + i, o.y + j)` (counted from the chunk's right or bottom edge
/// when mirrored), transparent black outside the sprite.
pub proof fn lemma_draw_partial_sprite_layout(coords: Vi2d, spr: Sprite, o: Vi2d, size: Vi2d, scale: u32, flip: (bool, bool))
    requires
        size.x >= 0,
        size.y >= 0,
        scale <= i32::MAX,
    ensures
        ({
            let s: int = if scale > 1 { scale as int } else { 1 };
            let (w, h) = (size.x as int, size.y as int);
            let pts = blit_points(spr, partial_blit(coords, o, size, scale, flip), size.x as int);
            &&& pts.len() == w * (h * (s * s))
            &&& forall|i: int, j: int, is: int, js: int|
                0 <= i < w && 0 <= j < h && 0 <= is < s && 0 <= js < s ==> #[trigger] pts[i * (h * (s * s)) + (j * (s * s) + (is
                    * s + js))] == (
                    pt(coords.x + i * s + is, coords.y + j * s + js),
                    sample(spr, o.x + if flip.0 { w - 1 - i } else { i }, o.y + if flip.1 { h - 1 - j } else { j }),
                )
        }),
{
    let bl = partial_blit(coords, o, size, scale, flip);
    lemma_blit_layout(spr, bl, size.x as int);
}

fn block_size_exec(scale: u32) -> (b: i64)
    ensures
        b == block_size(scale),
{
    if scale > 1 {
        if scale <= 0x7fff_ffff {
            scale as i64
        } else {
            0
        }
    } else {
        1
    }
}

/// Drawing of sprites onto the target.
pub trait SpriteTrait: SmartDrawingTrait {
    /// Draw a Sprite with the top left corner at `pos`, each of its pixels as a `scale` by
    /// `scale` block (one pixel when `scale` is 0 or 1); `flip` mirrors it
    /// (horizontal, vertical). See [`sprite_blit`] and [`blit_points`].
    fn draw_sprite(&mut self, pos: Vi2d, scale: u32, sprite: &Sprite, flip: (bool, bool))
        requires
            sprite.wf(),
            blit_fits(sprite_blit(pos, scale, *sprite, flip)),
        ensures
            *final(self) == draw_each(*old(self), blit_points(*sprite, sprite_blit(pos, scale, *sprite, flip), sprite_extent(sprite.spec_width()))),
    {
        let b = block_size_exec(scale);
        let w = sprite_extent_exec(sprite.width());
        let h = sprite_extent_exec(sprite.height());
        draw_blit(self, sprite, pos.x as i64, pos.y as i64, 0, 0, w, h, b, flip);
    }

    /// Draw a chunk of the given [`Sprite`] onto the Target
    /// `coords` is the top left corner of the Target
    /// `o` is the Top left corner of the Sprite Chunk
    /// and `size` is the `(width, height)` of the chunk
    /// `flip` and `scale` is the same as [`SpriteTrait::draw_sprite()`]; a chunk pixel outside
    /// the sprite is fully transparent black. See [`partial_blit`] and [`blit_points`].
    fn draw_partial_sprite(&mut self, coords: Vi2d, sprite: &Sprite, o: Vi2d, size: Vi2d, scale: u32, flip: (bool, bool))
        requires
            sprite.wf(),
            blit_fits(partial_blit(coords, o, size, scale, flip)),
        ensures
            *final(self) == draw_each(*old(self), blit_points(*sprite, partial_blit(coords, o, size, scale, flip), size.x as int)),
    {
        let b = block_size_exec(scale);
        draw_blit(self, sprite, coords.x as i64, coords.y as i64, o.x as i64, o.y as i64, size.x as i64, size.y as i64, b, flip);
    }
}

impl<T: SmartDrawingTrait> SpriteTrait for T {

}

} // verus!
