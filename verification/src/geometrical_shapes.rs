//! The drawable primitives: point, line, rectangle, triangle and circle.
//!
//! Every primitive rasterizes itself onto a [`Canvas`] through
//! [`Drawable::draw`]; the contract of each `draw` states, over the canvas's
//! recorded writes, exactly which pixels the call appends. Composite shapes
//! (rectangle, triangle) decompose into lines sharing one random color.

use vstd::prelude::*;

use crate::canvas::{lemma_positions_concat, positions_of, Canvas, Color, Displayable, PixelWrite};
use crate::rng::random_in_range;
use crate::rounding::{
    abs_of, lemma_round_div_exact, lemma_round_div_position_bounds, max_of, round_div,
    round_div_i128,
};

verus! {

/// A color that the random generator may produce: fully opaque and not pure
/// black. Pure black is excluded on purpose — it would be invisible on a
/// black background.
pub open spec fn visible_color(c: Color) -> bool {
    c.a == 255 && !(c.r == 0 && c.g == 0 && c.b == 0)
}

/// Samples a color uniformly over the 24-bit RGB space, alpha fully opaque,
/// resampling until the triple is not all zero: the result is never pure
/// black. The retry budget is generous enough that running out of it (a run
/// of ten thousand all-zero samples) is unobservable in practice; if it ever
/// happened, the result would fall back to opaque white, which also is not
/// black.
pub fn random_color() -> (c: Color)
    ensures
        visible_color(c),
{
    let mut attempts: u32 = 0;
    while attempts < 10000
        decreases 10000 - attempts,
    {
        let r: i32 = random_in_range(0, 255);
        let g: i32 = random_in_range(0, 255);
        let b: i32 = random_in_range(0, 255);
        if r != 0 || g != 0 || b != 0 {
            return Color { r: r as u8, g: g as u8, b: b as u8, a: 255 };
        }
        attempts = attempts + 1;
    }
    Color { r: 255, g: 255, b: 255, a: 255 }
}

/// The drawable capability: a primitive that can rasterize itself onto a
/// surface, plus the shared random-color generator.
pub trait Drawable {
    /// What `draw` asks of the primitive. Most primitives ask nothing; the
    /// circle needs its bounding box to fit in `i32` coordinates.
    spec fn draw_req(&self) -> bool;

    /// Write the primitive's pixels onto `image`.
    fn draw(&self, image: &mut Canvas)
        requires
            self.draw_req(),
    ;

    /// A freshly sampled random color: opaque and never pure black.
    fn color() -> (c: Color)
        ensures
            visible_color(c),
    ;
}

/// A 2D integer coordinate. Drawing it writes a single pixel at `(x, y)`
/// in a fresh random color.
#[derive(Clone, Copy, PartialEq, Eq, Structural, Debug)]
pub struct Point(pub i32, pub i32);

impl Point {
    pub fn new(x: i32, y: i32) -> (p: Self)
        ensures
            p == (Point(x, y)),
    {
        Self(x, y)
    }

    /// A point placed uniformly at random, with `x` in `[1, width)` and `y`
    /// in `[1, height)`: column and row zero and the right and bottom edges
    /// are deliberately never chosen.
    pub fn random(width: i32, height: i32) -> (p: Self)
        requires
            width >= 2,
            height >= 2,
        ensures
            1 <= p.0 < width,
            1 <= p.1 < height,
    {
        let x: i32 = random_in_range(1, width - 1);
        let y: i32 = random_in_range(1, height - 1);
        Self::new(x, y)
    }
}

impl Drawable for Point {
    open spec fn draw_req(&self) -> bool {
        true
    }

    fn draw(&self, image: &mut Canvas)
        ensures
            exists|c: Color|
                visible_color(c) && final(image).writes() == old(image).writes().push(
                    (PixelWrite { x: self.0, y: self.1, color: c }),
                ),
    {
        let c = Self::color();
        image.display(self.0, self.1, c);
    }

    fn color() -> (c: Color) {
        random_color()
    }
}

/// The step count of the line from `p1` to `p2`: the extent of the dominant
/// axis. Zero exactly when the endpoints coincide.
pub open spec fn line_steps(p1: Point, p2: Point) -> int {
    max_of(abs_of(p2.0 - p1.0), abs_of(p2.1 - p1.1))
}

/// The position of pixel `k` of the line from `p1` to `p2`, meaningful for
/// `0 <= k <= line_steps(p1, p2)`: the point `k / steps` of the way along
/// the segment, each coordinate of that position rounded half away from
/// zero (the coordinate is `(p1 * steps + k * (p2 - p1)) / steps` exactly).
/// A degenerate segment has the single pixel at its start point.
pub open spec fn line_point(p1: Point, p2: Point, k: int) -> (int, int) {
    let s = line_steps(p1, p2);
    if s == 0 {
        (p1.0 as int, p1.1 as int)
    } else {
        (
            round_div(p1.0 * s + k * (p2.0 - p1.0), s),
            round_div(p1.1 * s + k * (p2.1 - p1.1), s),
        )
    }
}

/// The pixel writes of the line from `p1` to `p2` in color `c`:
/// `line_steps + 1` pixels, from the start point to the end point.
pub open spec fn line_writes(p1: Point, p2: Point, c: Color) -> Seq<PixelWrite> {
    Seq::new(
        (line_steps(p1, p2) + 1) as nat,
        |k: int|
            PixelWrite {
                x: line_point(p1, p2, k).0 as i32,
                y: line_point(p1, p2, k).1 as i32,
                color: c,
            },
    )
}

/// A straight segment between two endpoints, drawn in a fixed color.
/// The endpoints may coincide: such a line is a single pixel.
#[derive(Clone, Copy, PartialEq, Eq, Structural, Debug)]
pub struct Line(pub Point, pub Point, pub Color);

impl Line {
    pub fn new(p1: &Point, p2: &Point, color: Color) -> (l: Self)
        ensures
            l == (Line(*p1, *p2, color)),
    {
        Self(*p1, *p2, color)
    }

    /// A line between two independently random points, in its own random
    /// color (not derived from the endpoints).
    pub fn random(width: i32, height: i32) -> (l: Self)
        requires
            width >= 2,
            height >= 2,
        ensures
            1 <= l.0.0 < width,
            1 <= l.0.1 < height,
            1 <= l.1.0 < width,
            1 <= l.1.1 < height,
            visible_color(l.2),
    {
        let p1 = Point::random(width, height);
        let p2 = Point::random(width, height);
        Self::new(&p1, &p2, Self::color())
    }
}

impl Drawable for Line {
    open spec fn draw_req(&self) -> bool {
        true
    }

    /// Symmetric DDA rasterization: `line_steps + 1` pixels, one per step
    /// along the dominant axis, at exactly rounded fractional positions.
    fn draw(&self, image: &mut Canvas)
        ensures
            final(image).writes() == old(image).writes() + line_writes(self.0, self.1, self.2),
    {
        let x1: i32 = self.0.0;
        let y1: i32 = self.0.1;
        let x2: i32 = self.1.0;
        let y2: i32 = self.1.1;
        let dx: i64 = x2 as i64 - x1 as i64;
        let dy: i64 = y2 as i64 - y1 as i64;
        let ax: i64 = if dx < 0 {
            -dx
        } else {
            dx
        };
        let ay: i64 = if dy < 0 {
            -dy
        } else {
            dy
        };
        let steps: i64 = if ax >= ay {
            ax
        } else {
            ay
        };
        let ghost ow = image.writes();
        let ghost lw = line_writes(self.0, self.1, self.2);
        proof {
            assert(steps as int == line_steps(self.0, self.1));
        }
        if steps == 0 {
            // The endpoints coincide: exactly one pixel, and no division.
            image.display(x1, y1, self.2);
            proof {
                assert(image.writes() =~= ow + lw);
            }
            return ;
        }
        let mut k: i64 = 0;
        while k <= steps
            invariant
                0 <= k <= steps + 1,
                1 <= steps <= 0x1_0000_0000,
                steps as int == line_steps(self.0, self.1),
                x1 == self.0.0,
                y1 == self.0.1,
                x2 == self.1.0,
                y2 == self.1.1,
                dx == self.1.0 - self.0.0,
                dy == self.1.1 - self.0.1,
                lw == line_writes(self.0, self.1, self.2),
                image.writes() == ow + lw.take(k as int),
            decreases steps + 1 - k,
        {
            proof {
                assert((k as int) * (dx as int) <= 0x1_0000_0000_0000_0000
                    && (k as int) * (dx as int) >= -0x1_0000_0000_0000_0000
                    && (k as int) * (dy as int) <= 0x1_0000_0000_0000_0000
                    && (k as int) * (dy as int) >= -0x1_0000_0000_0000_0000) by (nonlinear_arith)
                    requires
                        0 <= k as int <= 0x1_0000_0000,
                        -0x1_0000_0000 <= dx as int <= 0x1_0000_0000,
                        -0x1_0000_0000 <= dy as int <= 0x1_0000_0000,
                ;
                assert((x1 as int) * (steps as int) <= 0x8000_0000_0000_0000
                    && (x1 as int) * (steps as int) >= -0x8000_0000_0000_0000
                    && (y1 as int) * (steps as int) <= 0x8000_0000_0000_0000
                    && (y1 as int) * (steps as int) >= -0x8000_0000_0000_0000) by (nonlinear_arith)
                    requires
                        1 <= steps as int <= 0x1_0000_0000,
                        -0x8000_0000 <= x1 as int <= 0x8000_0000,
                        -0x8000_0000 <= y1 as int <= 0x8000_0000,
                ;
            }
            let px_i: i128 = round_div_i128(
                (x1 as i128) * (steps as i128) + (k as i128) * (dx as i128),
                steps as i128,
            );
            let py_i: i128 = round_div_i128(
                (y1 as i128) * (steps as i128) + (k as i128) * (dy as i128),
                steps as i128,
            );
            proof {
                lemma_round_div_position_bounds(x1 as int, x2 as int, steps as int, k as int);
                lemma_round_div_position_bounds(y1 as int, y2 as int, steps as int, k as int);
            }
            let px: i32 = px_i as i32;
            let py: i32 = py_i as i32;
            image.display(px, py, self.2);
            proof {
                assert(line_point(self.0, self.1, k as int).0 == px_i as int);
                assert(line_point(self.0, self.1, k as int).1 == py_i as int);
                assert(lw[k as int] == (PixelWrite { x: px, y: py, color: self.2 }));
                assert(image.writes() =~= ow + lw.take(k as int + 1));
            }
            k = k + 1;
        }
        proof {
            assert(lw.take(steps as int + 1) =~= lw);
        }
    }

    fn color() -> (c: Color) {
        random_color()
    }
}

/// A line writes one pixel per step plus one: `max(|dx|, |dy|) + 1` in all.
pub proof fn lemma_line_pixel_count(p1: Point, p2: Point, c: Color)
    ensures
        line_writes(p1, p2, c).len() == max_of(abs_of(p2.0 - p1.0), abs_of(p2.1 - p1.1)) + 1,
{
}

/// A line's first pixel lies exactly on its start point and its last pixel
/// exactly on its end point.
pub proof fn lemma_line_endpoints(p1: Point, p2: Point, c: Color)
    ensures
        line_writes(p1, p2, c).first() == (PixelWrite { x: p1.0, y: p1.1, color: c }),
        line_writes(p1, p2, c).last() == (PixelWrite { x: p2.0, y: p2.1, color: c }),
{
    let s = line_steps(p1, p2);
    if s != 0 {
        lemma_round_div_exact(p1.0 as int, s);
        lemma_round_div_exact(p1.1 as int, s);
        lemma_round_div_exact(p2.0 as int, s);
        lemma_round_div_exact(p2.1 as int, s);
        assert(p1.0 * s + 0 * (p2.0 - p1.0) == p1.0 * s && p1.1 * s + 0 * (p2.1 - p1.1) == p1.1 * s
            && p1.0 * s + s * (p2.0 - p1.0) == p2.0 * s && p1.1 * s + s * (p2.1 - p1.1) == p2.1
            * s) by (nonlinear_arith);
    }
}

/// Whenever the two endpoints coincide, the line consists of exactly one
/// pixel, at the start point; the step count is zero and `draw` writes that
/// pixel on its division-free path.
pub proof fn lemma_line_degenerate(p1: Point, p2: Point, c: Color)
    requires
        p1 == p2,
    ensures
        line_writes(p1, p2, c).len() == 1,
        line_writes(p1, p2, c) == seq![(PixelWrite { x: p1.0, y: p1.1, color: c })],
{
    assert(line_writes(p1, p2, c) =~= seq![(PixelWrite { x: p1.0, y: p1.1, color: c })]);
}

/// Pixel `k` of the line from `p1` to `p2` coincides with pixel
/// `steps - k` of the line from `p2` to `p1`: step `k` of the forward pass
/// and step `steps - k` of the backward pass sit at the same exact rational
/// position, so even rounded ties agree.
pub proof fn lemma_line_point_reverse(p1: Point, p2: Point, k: int)
    requires
        0 <= k <= line_steps(p1, p2),
    ensures
        line_point(p2, p1, line_steps(p1, p2) - k) == line_point(p1, p2, k),
{
    let s = line_steps(p1, p2);
    assert(line_steps(p2, p1) == s);
    if s > 0 {
        assert(p2.0 * s + (s - k) * (p1.0 - p2.0) == p1.0 * s + k * (p2.0 - p1.0) && p2.1 * s + (s
            - k) * (p1.1 - p2.1) == p1.1 * s + k * (p2.1 - p1.1)) by (nonlinear_arith);
    }
}

/// Rasterizing a segment from either end touches the same set of pixel
/// positions, whatever the two colors: the two passes visit the same exact
/// rational positions, in opposite orders.
pub proof fn lemma_line_symmetry(p1: Point, p2: Point, c1: Color, c2: Color)
    ensures
        positions_of(line_writes(p1, p2, c1)) == positions_of(line_writes(p2, p1, c2)),
{
    let s = line_steps(p1, p2);
    assert(line_steps(p2, p1) == s);
    let w1 = line_writes(p1, p2, c1);
    let w2 = line_writes(p2, p1, c2);
    assert forall|q: (int, int)| positions_of(w1).contains(q) implies positions_of(
        w2,
    ).contains(q) by {
        let i = choose|i: int| 0 <= i < w1.len() && (#[trigger] w1[i]).x == q.0 && w1[i].y == q.1;
        lemma_line_point_reverse(p1, p2, i);
        assert((w2[s - i]).x == q.0 && w2[s - i].y == q.1);
    }
    assert forall|q: (int, int)| positions_of(w2).contains(q) implies positions_of(
        w1,
    ).contains(q) by {
        let j = choose|j: int| 0 <= j < w2.len() && (#[trigger] w2[j]).x == q.0 && w2[j].y == q.1;
        lemma_line_point_reverse(p1, p2, s - j);
        assert((w1[s - j]).x == q.0 && w1[s - j].y == q.1);
    }
    assert(positions_of(w1) =~= positions_of(w2));
}

/// The pixel writes of a rectangle in color `c`: its four sides, drawn as
/// lines in the cyclic order bottom, right, top, left (as derived from the
/// two given corners).
pub open spec fn rect_writes(r: Rectangle, c: Color) -> Seq<PixelWrite> {
    let corner_1 = r.0;
    let corner_2 = Point(r.0.0, r.1.1);
    let corner_3 = r.1;
    let corner_4 = Point(r.1.0, r.0.1);
    line_writes(corner_1, corner_4, c) + line_writes(corner_4, corner_3, c) + line_writes(
        corner_3,
        corner_2,
        c,
    ) + line_writes(corner_2, corner_1, c)
}

/// An axis-aligned rectangle given by two opposite corners, in either order.
pub struct Rectangle(pub Point, pub Point);

impl Rectangle {
    pub fn new(p1: &Point, p2: &Point) -> (r: Self)
        ensures
            r.0 == *p1,
            r.1 == *p2,
    {
        Self(*p1, *p2)
    }
}

impl Drawable for Rectangle {
    open spec fn draw_req(&self) -> bool {
        true
    }

    /// Derives the four corners `(x1,y1)`, `(x1,y2)`, `(x2,y2)`, `(x2,y1)`
    /// and draws the four connecting sides in one shared random color.
    fn draw(&self, image: &mut Canvas)
        ensures
            exists|c: Color|
                visible_color(c) && final(image).writes() == old(image).writes() + rect_writes(
                    *self,
                    c,
                ),
    {
        let corner_1 = Point::new(self.0.0, self.0.1);
        let corner_2 = Point::new(self.0.0, self.1.1);
        let corner_3 = Point::new(self.1.0, self.1.1);
        let corner_4 = Point::new(self.1.0, self.0.1);
        let color = Self::color();
        let line_hb = Line::new(&corner_1, &corner_4, color);
        let line_vr = Line::new(&corner_4, &corner_3, color);
        let line_ht = Line::new(&corner_3, &corner_2, color);
        let line_vl = Line::new(&corner_2, &corner_1, color);
        let ghost ow = image.writes();
        line_hb.draw(image);
        line_vr.draw(image);
        line_ht.draw(image);
        line_vl.draw(image);
        proof {
            assert(image.writes() =~= ow + rect_writes(*self, color));
        }
    }

    fn color() -> (c: Color) {
        random_color()
    }
}

/// The pixel writes of a triangle in color `c`: its three edges, drawn as
/// lines between the vertices in the order given.
pub open spec fn triangle_writes(t: Triangle, c: Color) -> Seq<PixelWrite> {
    line_writes(t.0, t.1, c) + line_writes(t.1, t.2, c) + line_writes(t.2, t.0, c)
}

/// A triangle given by three vertices, in any order; a collinear triangle
/// simply rasterizes as overlapping lines.
pub struct Triangle(pub Point, pub Point, pub Point);

impl Triangle {
    pub fn new(p1: &Point, p2: &Point, p3: &Point) -> (t: Self)
        ensures
            t.0 == *p1,
            t.1 == *p2,
            t.2 == *p3,
    {
        Self(*p1, *p2, *p3)
    }
}

impl Drawable for Triangle {
    open spec fn draw_req(&self) -> bool {
        true
    }

    /// Draws the three edges `(v1,v2)`, `(v2,v3)`, `(v3,v1)` in one shared
    /// random color.
    fn draw(&self, image: &mut Canvas)
        ensures
            exists|c: Color|
                visible_color(c) && final(image).writes() == old(image).writes()
                    + triangle_writes(*self, c),
    {
        let color = Self::color();
        let line_1 = Line::new(&self.0, &self.1, color);
        let line_2 = Line::new(&self.1, &self.2, color);
        let line_3 = Line::new(&self.2, &self.0, color);
        let ghost ow = image.writes();
        line_1.draw(image);
        line_2.draw(image);
        line_3.draw(image);
        proof {
            assert(image.writes() =~= ow + triangle_writes(*self, color));
        }
    }

    fn color() -> (c: Color) {
        random_color()
    }
}

/// Whether the midpoint decision test moves `y` one step toward the center:
/// true when the point half a pixel below the current `y` lies outside the
/// circle, i.e. `x^2 + (y + 1/2)^2 > r^2`, stated exactly over integers as
/// `4x^2 + (2y + 1)^2 > 4r^2`.
pub open spec fn circle_step_up(r: int, x: int, y: int) -> bool {
    4 * x * x + (2 * y + 1) * (2 * y + 1) > 4 * r * r
}

/// The eight symmetric writes emitted for octant position `(x, y)` around
/// the center `(cx, cy)`, in the emission order of `draw`. Positions that
/// coincide at octant boundaries are emitted anyway, once per symmetry.
pub open spec fn ring_writes(cx: int, cy: int, x: int, y: int, c: Color) -> Seq<PixelWrite> {
    seq![
        PixelWrite { x: (cx + x) as i32, y: (cy + y) as i32, color: c },
        PixelWrite { x: (cx - x) as i32, y: (cy + y) as i32, color: c },
        PixelWrite { x: (cx + x) as i32, y: (cy - y) as i32, color: c },
        PixelWrite { x: (cx - x) as i32, y: (cy - y) as i32, color: c },
        PixelWrite { x: (cx + y) as i32, y: (cy + x) as i32, color: c },
        PixelWrite { x: (cx - y) as i32, y: (cy + x) as i32, color: c },
        PixelWrite { x: (cx + y) as i32, y: (cy - x) as i32, color: c },
        PixelWrite { x: (cx - y) as i32, y: (cy - x) as i32, color: c },
    ]
}

/// The writes of the octant walk from state `(x, y)` on: while `x < -y`,
/// apply the decision test to `y`, emit the eight symmetric pixels for the
/// (possibly moved) `y`, and advance `x`.
pub open spec fn octant_writes(cx: int, cy: int, r: int, x: int, y: int, c: Color) -> Seq<
    PixelWrite,
>
    decreases max_of(0, -y - x),
{
    if x >= -y {
        Seq::empty()
    } else {
        let y_next = if circle_step_up(r, x, y) {
            y + 1
        } else {
            y
        };
        ring_writes(cx, cy, x, y_next, c) + octant_writes(cx, cy, r, x + 1, y_next, c)
    }
}

/// All pixel writes of `circle` in color `c`: the octant walk started at
/// `x = 0`, `y = -radius`.
pub open spec fn circle_writes(circle: Circle, c: Color) -> Seq<PixelWrite> {
    octant_writes(
        circle.center.0 as int,
        circle.center.1 as int,
        circle.radius as int,
        0,
        -(circle.radius as int),
        c,
    )
}

/// A circle given by its center and a non-negative radius.
pub struct Circle {
    pub center: Point,
    pub radius: i32,
}

impl Circle {
    pub fn new(center: &Point, radius: i32) -> (c: Self)
        requires
            radius >= 0,
        ensures
            c.center == *center,
            c.radius == radius,
    {
        Self { center: *center, radius }
    }

    /// A circle at a random center (per the point placement policy), with a
    /// radius uniform in `[1, height / 2]`, both bounds inclusive.
    pub fn random(width: i32, height: i32) -> (c: Self)
        requires
            width >= 2,
            height >= 2,
        ensures
            1 <= c.center.0 < width,
            1 <= c.center.1 < height,
            1 <= c.radius <= height / 2,
    {
        let center = Point::random(width, height);
        let radius: i32 = random_in_range(1, height / 2);
        Self::new(&center, radius)
    }
}

impl Drawable for Circle {
    /// The circle's bounding box must stay within `i32` coordinates.
    open spec fn draw_req(&self) -> bool {
        &&& self.radius >= 0
        &&& i32::MIN <= self.center.0 - self.radius
        &&& self.center.0 + self.radius <= i32::MAX
        &&& i32::MIN <= self.center.1 - self.radius
        &&& self.center.1 + self.radius <= i32::MAX
    }

    /// Midpoint circle rasterization with 8-way symmetry: walks one octant
    /// and emits eight mirrored pixels per step, all sharing one random
    /// color.
    fn draw(&self, image: &mut Canvas)
        ensures
            exists|c: Color|
                visible_color(c) && final(image).writes() == old(image).writes() + circle_writes(
                    *self,
                    c,
                ),
    {
        let cx: i32 = self.center.0;
        let cy: i32 = self.center.1;
        let r: i32 = self.radius;
        let color = Self::color();
        let ghost ow = image.writes();
        let mut x: i32 = 0;
        let mut y: i32 = -r;
        while x < -y
            invariant
                cx == self.center.0,
                cy == self.center.1,
                r == self.radius,
                self.draw_req(),
                0 <= x,
                -(r as int) <= y <= 0,
                image.writes() + octant_writes(
                    cx as int,
                    cy as int,
                    r as int,
                    x as int,
                    y as int,
                    color,
                ) == ow + circle_writes(*self, color),
            decreases max_of(0, -(y as int) - x as int),
        {
            let ghost x0: int = x as int;
            let ghost y0: int = y as int;
            let ghost w0 = image.writes();
            let xi: i128 = x as i128;
            let yi: i128 = y as i128;
            let ri: i128 = r as i128;
            proof {
                assert((4 * (x as int)) * (x as int) <= 0x1_0000_0000_0000_0000 && (4 * (
                x as int)) * (x as int) >= 0) by (nonlinear_arith)
                    requires
                        -0x1_0000_0000 <= x as int <= 0x1_0000_0000,
                ;
                assert((2 * (y as int) + 1) * (2 * (y as int) + 1) <= 0x1_0000_0000_0000_0002 && (2
                    * (y as int) + 1) * (2 * (y as int) + 1) >= 0) by (nonlinear_arith)
                    requires
                        -0x1_0000_0000 <= y as int <= 0x1_0000_0000,
                ;
                assert((4 * (r as int)) * (r as int) <= 0x1_0000_0000_0000_0000 && (4 * (
                r as int)) * (r as int) >= 0) by (nonlinear_arith)
                    requires
                        -0x1_0000_0000 <= r as int <= 0x1_0000_0000,
                ;
            }
            if 4 * xi * xi + (2 * yi + 1) * (2 * yi + 1) > 4 * ri * ri {
                y = y + 1;
            }
            proof {
                assert(y as int == if circle_step_up(r as int, x0, y0) {
                    y0 + 1
                } else {
                    y0
                });
            }
            image.display(cx + x, cy + y, color);
            image.display(cx - x, cy + y, color);
            image.display(cx + x, cy - y, color);
            image.display(cx - x, cy - y, color);
            image.display(cx + y, cy + x, color);
            image.display(cx - y, cy + x, color);
            image.display(cx + y, cy - x, color);
            image.display(cx - y, cy - x, color);
            proof {
                assert(image.writes() =~= w0 + ring_writes(
                    cx as int,
                    cy as int,
                    x0,
                    y as int,
                    color,
                ));
                assert(octant_writes(cx as int, cy as int, r as int, x0, y0, color) == ring_writes(
                    cx as int,
                    cy as int,
                    x0,
                    y as int,
                    color,
                ) + octant_writes(cx as int, cy as int, r as int, x0 + 1, y as int, color));
                assert(image.writes() + octant_writes(
                    cx as int,
                    cy as int,
                    r as int,
                    x0 + 1,
                    y as int,
                    color,
                ) =~= w0 + octant_writes(cx as int, cy as int, r as int, x0, y0, color));
            }
            x = x + 1;
        }
        proof {
            assert(octant_writes(cx as int, cy as int, r as int, x as int, y as int, color)
                =~= Seq::<PixelWrite>::empty());
            assert(image.writes() + Seq::<PixelWrite>::empty() =~= image.writes());
            assert(image.writes() == ow + circle_writes(*self, color));
        }
    }

    fn color() -> (c: Color) {
        random_color()
    }
}

proof fn lemma_octant_symmetry(r: int, x: int, y: int, c: Color, a: int, b: int)
    requires
        0 <= x <= 0x7fff_ffff,
        -0x7fff_ffff <= y <= 0,
        positions_of(octant_writes(0, 0, r, x, y, c)).contains((a, b)),
    ensures
        positions_of(octant_writes(0, 0, r, x, y, c)).contains((-a, b)),
        positions_of(octant_writes(0, 0, r, x, y, c)).contains((a, -b)),
        positions_of(octant_writes(0, 0, r, x, y, c)).contains((-a, -b)),
        positions_of(octant_writes(0, 0, r, x, y, c)).contains((b, a)),
        positions_of(octant_writes(0, 0, r, x, y, c)).contains((-b, a)),
        positions_of(octant_writes(0, 0, r, x, y, c)).contains((b, -a)),
        positions_of(octant_writes(0, 0, r, x, y, c)).contains((-b, -a)),
    decreases max_of(0, -y - x),
{
    let w = octant_writes(0, 0, r, x, y, c);
    if x >= -y {
        assert(false);
    } else {
        let y2 = if circle_step_up(r, x, y) {
            y + 1
        } else {
            y
        };
        let ring = ring_writes(0, 0, x, y2, c);
        let rest = octant_writes(0, 0, r, x + 1, y2, c);
        assert(w == ring + rest);
        lemma_positions_concat(ring, rest, (a, b));
        if positions_of(ring).contains((a, b)) {
            // The eight entries of one ring are exactly the orbit of
            // `(x, y2)` under the eight symmetries, so the orbit of any of
            // them stays inside the ring.
            assert(ring[0].x == x && ring[0].y == y2);
            assert(ring[1].x == -x && ring[1].y == y2);
            assert(ring[2].x == x && ring[2].y == -y2);
            assert(ring[3].x == -x && ring[3].y == -y2);
            assert(ring[4].x == y2 && ring[4].y == x);
            assert(ring[5].x == -y2 && ring[5].y == x);
            assert(ring[6].x == y2 && ring[6].y == -x);
            assert(ring[7].x == -y2 && ring[7].y == -x);
            assert(positions_of(ring).contains((x, y2)));
            assert(positions_of(ring).contains((-x, y2)));
            assert(positions_of(ring).contains((x, -y2)));
            assert(positions_of(ring).contains((-x, -y2)));
            assert(positions_of(ring).contains((y2, x)));
            assert(positions_of(ring).contains((-y2, x)));
            assert(positions_of(ring).contains((y2, -x)));
            assert(positions_of(ring).contains((-y2, -x)));
        } else {
            lemma_octant_symmetry(r, x + 1, y2, c, a, b);
        }
        lemma_positions_concat(ring, rest, (-a, b));
        lemma_positions_concat(ring, rest, (a, -b));
        lemma_positions_concat(ring, rest, (-a, -b));
        lemma_positions_concat(ring, rest, (b, a));
        lemma_positions_concat(ring, rest, (-b, a));
        lemma_positions_concat(ring, rest, (b, -a));
        lemma_positions_concat(ring, rest, (-b, -a));
    }
}

/// The pixel offsets of a circle centered at the origin are invariant under
/// the eight sign/swap symmetries of the plane: whenever `(a, b)` is drawn,
/// so are all of `(±a, ±b)` and `(±b, ±a)`.
pub proof fn lemma_circle_symmetry(circle: Circle, c: Color, a: int, b: int)
    requires
        circle.center == (Point(0, 0)),
        circle.radius >= 0,
        positions_of(circle_writes(circle, c)).contains((a, b)),
    ensures
        positions_of(circle_writes(circle, c)).contains((-a, b)),
        positions_of(circle_writes(circle, c)).contains((a, -b)),
        positions_of(circle_writes(circle, c)).contains((-a, -b)),
        positions_of(circle_writes(circle, c)).contains((b, a)),
        positions_of(circle_writes(circle, c)).contains((-b, a)),
        positions_of(circle_writes(circle, c)).contains((b, -a)),
        positions_of(circle_writes(circle, c)).contains((-b, -a)),
{
    lemma_octant_symmetry(circle.radius as int, 0, -(circle.radius as int), c, a, b);
}

/// A circle of radius zero writes no pixels at all: the octant walk starts
/// at `x = 0`, `y = 0` and exits at once, without faulting.
pub proof fn lemma_circle_radius_zero(circle: Circle, c: Color)
    requires
        circle.radius == 0,
    ensures
        circle_writes(circle, c) == Seq::<PixelWrite>::empty(),
{
}

} // verus!
