use drawing::canvas::{Canvas, Color, PixelWrite};
use drawing::geometrical_shapes::{Circle, Drawable, Line, Point, Rectangle, Triangle};

fn positions(canvas: &Canvas) -> Vec<(i32, i32)> {
    canvas.pixels.iter().map(|w| (w.x, w.y)).collect()
}

fn has_position(canvas: &Canvas, x: i32, y: i32) -> bool {
    canvas.pixels.iter().any(|w| w.x == x && w.y == y)
}

fn single_color(canvas: &Canvas) -> Color {
    let c = canvas.pixels[0].color;
    for w in canvas.pixels.iter() {
        assert_eq!(w.color, c, "all writes must share one color");
    }
    c
}

fn gray(level: u8) -> Color {
    Color { r: level, g: level, b: level, a: 255 }
}

#[test]
fn point_new_keeps_coordinates() {
    let p = Point::new(3, -7);
    assert_eq!(p.0, 3);
    assert_eq!(p.1, -7);
}

#[test]
fn point_draw_writes_one_pixel() {
    let mut canvas = Canvas::new();
    Point::new(3, 4).draw(&mut canvas);
    assert_eq!(canvas.pixels.len(), 1);
    let w: PixelWrite = canvas.pixels[0];
    assert_eq!((w.x, w.y), (3, 4));
    assert_eq!(w.color.a, 255);
    assert!(w.color.r != 0 || w.color.g != 0 || w.color.b != 0);
}

#[test]
fn line_degenerate_single_pixel() {
    let mut canvas = Canvas::new();
    let p = Point::new(5, 5);
    Line::new(&p, &p, gray(9)).draw(&mut canvas);
    assert_eq!(positions(&canvas), vec![(5, 5)]);
}

#[test]
fn line_pixel_count_is_dominant_extent_plus_one() {
    let mut canvas = Canvas::new();
    Line::new(&Point::new(0, 0), &Point::new(7, 3), gray(9)).draw(&mut canvas);
    assert_eq!(canvas.pixels.len(), 8);

    let mut canvas = Canvas::new();
    Line::new(&Point::new(2, 9), &Point::new(2, -1), gray(9)).draw(&mut canvas);
    assert_eq!(canvas.pixels.len(), 11);
}

#[test]
fn line_includes_both_endpoints() {
    let mut canvas = Canvas::new();
    Line::new(&Point::new(2, 3), &Point::new(9, 6), gray(9)).draw(&mut canvas);
    let first = canvas.pixels.first().unwrap();
    let last = canvas.pixels.last().unwrap();
    assert_eq!((first.x, first.y), (2, 3));
    assert_eq!((last.x, last.y), (9, 6));
}

#[test]
fn line_axis_aligned_and_diagonal_are_exact() {
    let mut canvas = Canvas::new();
    Line::new(&Point::new(0, 0), &Point::new(3, 0), gray(1)).draw(&mut canvas);
    assert_eq!(positions(&canvas), vec![(0, 0), (1, 0), (2, 0), (3, 0)]);

    let mut canvas = Canvas::new();
    Line::new(&Point::new(0, 0), &Point::new(3, 3), gray(2)).draw(&mut canvas);
    assert_eq!(positions(&canvas), vec![(0, 0), (1, 1), (2, 2), (3, 3)]);
}

#[test]
fn line_rounds_halves_away_from_zero() {
    // At step 1 the exact position is (1, 0.5); the half rounds up (away
    // from zero), so the middle pixel is (1, 1).
    let mut canvas = Canvas::new();
    Line::new(&Point::new(0, 0), &Point::new(2, 1), gray(3)).draw(&mut canvas);
    assert_eq!(positions(&canvas), vec![(0, 0), (1, 1), (2, 1)]);
}

#[test]
fn line_rounds_half_ties_on_the_position_not_the_offset() {
    // A leftward line: at step 1 the exact position is (1.5, 1). The
    // position's half rounds away from zero to x == 2 — even though the
    // offset from the start point is -0.5, which would round to x == 1.
    let mut canvas = Canvas::new();
    Line::new(&Point::new(2, 0), &Point::new(1, 2), gray(6)).draw(&mut canvas);
    assert_eq!(positions(&canvas), vec![(2, 0), (2, 1), (1, 2)]);

    // The reversed direction meets the same tie at the same position and
    // resolves it the same way: identical pixel set.
    let mut canvas = Canvas::new();
    Line::new(&Point::new(1, 2), &Point::new(2, 0), gray(7)).draw(&mut canvas);
    assert_eq!(positions(&canvas), vec![(1, 2), (2, 1), (2, 0)]);
}

#[test]
fn line_same_pixels_in_both_directions() {
    // Both passes visit the same exact rational positions, in opposite
    // orders, so they touch the same pixel set.
    let a = Point::new(1, 1);
    let b = Point::new(4, 2);
    let mut forward = Canvas::new();
    Line::new(&a, &b, gray(4)).draw(&mut forward);
    let mut backward = Canvas::new();
    Line::new(&b, &a, gray(5)).draw(&mut backward);
    let mut fw = positions(&forward);
    let mut bw = positions(&backward);
    fw.sort();
    bw.sort();
    assert_eq!(fw, bw);
}

#[test]
fn line_uses_its_own_color_everywhere() {
    let mut canvas = Canvas::new();
    let color = Color { r: 10, g: 20, b: 30, a: 255 };
    Line::new(&Point::new(0, 0), &Point::new(5, 2), color).draw(&mut canvas);
    assert_eq!(single_color(&canvas), color);
}

#[test]
fn rectangle_covers_all_four_corners_in_one_color() {
    let mut canvas = Canvas::new();
    Rectangle::new(&Point::new(0, 0), &Point::new(4, 4)).draw(&mut canvas);
    // Four sides of 5 pixels each, shared corners written by both sides.
    assert_eq!(canvas.pixels.len(), 20);
    for (x, y) in [(0, 0), (0, 4), (4, 4), (4, 0)] {
        assert!(has_position(&canvas, x, y), "missing corner ({x}, {y})");
    }
    let c = single_color(&canvas);
    assert_eq!(c.a, 255);
    assert!(c.r != 0 || c.g != 0 || c.b != 0);
}

#[test]
fn rectangle_corners_independent_of_corner_order() {
    let mut canvas = Canvas::new();
    Rectangle::new(&Point::new(4, 0), &Point::new(0, 4)).draw(&mut canvas);
    for (x, y) in [(0, 0), (0, 4), (4, 4), (4, 0)] {
        assert!(has_position(&canvas, x, y), "missing corner ({x}, {y})");
    }
}

#[test]
fn triangle_draws_three_edges_in_one_color() {
    let mut canvas = Canvas::new();
    Triangle::new(&Point::new(0, 0), &Point::new(4, 0), &Point::new(0, 4)).draw(&mut canvas);
    // Edges of 5, 5 and 5 pixels (the hypotenuse spans 4 steps as well).
    assert_eq!(canvas.pixels.len(), 15);
    for (x, y) in [(0, 0), (4, 0), (0, 4)] {
        assert!(has_position(&canvas, x, y), "missing vertex ({x}, {y})");
    }
    let c = single_color(&canvas);
    assert!(c.r != 0 || c.g != 0 || c.b != 0);
}

#[test]
fn circle_radius_zero_draws_nothing_and_does_not_crash() {
    let mut canvas = Canvas::new();
    Circle::new(&Point::new(10, 10), 0).draw(&mut canvas);
    assert!(canvas.pixels.is_empty());
}

#[test]
fn circle_offsets_have_eightfold_symmetry() {
    let mut canvas = Canvas::new();
    Circle::new(&Point::new(0, 0), 5).draw(&mut canvas);
    let offsets: Vec<(i32, i32)> = positions(&canvas);
    let contains = |x: i32, y: i32| offsets.iter().any(|&(a, b)| a == x && b == y);
    for &(x, y) in offsets.iter() {
        for (mx, my) in [
            (x, y),
            (-x, y),
            (x, -y),
            (-x, -y),
            (y, x),
            (-y, x),
            (y, -x),
            (-y, -x),
        ] {
            assert!(contains(mx, my), "missing mirror ({mx}, {my}) of ({x}, {y})");
        }
    }
    // The four axis extremes are drawn.
    for (x, y) in [(0, -5), (0, 5), (-5, 0), (5, 0)] {
        assert!(contains(x, y), "missing extreme ({x}, {y})");
    }
}

#[test]
fn circle_writes_eight_pixels_per_octant_step_in_one_color() {
    let mut canvas = Canvas::new();
    Circle::new(&Point::new(7, -3), 6).draw(&mut canvas);
    assert!(!canvas.pixels.is_empty());
    assert_eq!(canvas.pixels.len() % 8, 0);
    let c = single_color(&canvas);
    assert_eq!(c.a, 255);
    assert!(c.r != 0 || c.g != 0 || c.b != 0);
}

#[test]
fn draws_accumulate_on_one_canvas() {
    let mut canvas = Canvas::new();
    Line::new(&Point::new(0, 0), &Point::new(3, 0), gray(1)).draw(&mut canvas);
    Line::new(&Point::new(0, 1), &Point::new(3, 1), gray(2)).draw(&mut canvas);
    assert_eq!(canvas.pixels.len(), 8);
    assert_eq!(canvas.pixels[0].color, gray(1));
    assert_eq!(canvas.pixels[7].color, gray(2));
}
