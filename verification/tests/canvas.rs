use gravity::canvas::{clear_screen, draw_circle, draw_line, Canvas};

const BLACK: [u8; 4] = [0, 0, 0, 0];
const RED: [u8; 4] = [255, 0, 0, 255];

fn painted(canvas: &Canvas, color: [u8; 4]) -> Vec<(u32, u32)> {
    let mut out = Vec::new();
    for y in 0..canvas.height {
        for x in 0..canvas.width {
            if canvas.pixel_at(x, y) == color {
                out.push((x, y));
            }
        }
    }
    out
}

fn blank(width: u32, height: u32) -> Canvas {
    let mut canvas = Canvas::new(width, height);
    clear_screen(&mut canvas);
    canvas
}

#[test]
fn new_canvas_is_zeroed() {
    let canvas = Canvas::new(3, 2);
    assert_eq!(canvas.pixels.len(), 6);
    assert!(canvas.pixels.iter().all(|p| *p == [0, 0, 0, 0]));
}

#[test]
fn clear_screen_zeroes_the_frame() {
    let mut canvas = Canvas::new(5, 4);
    canvas.pixels[7] = RED;
    clear_screen(&mut canvas);
    assert_eq!(canvas.pixels.len(), 20);
    assert!(canvas.pixels.iter().all(|p| *p == BLACK));
    let bytes: Vec<u8> = canvas.pixels.iter().flatten().copied().collect();
    assert!(bytes.iter().all(|b| *b == 0));
}

#[test]
fn circle_of_radius_one_is_a_plus() {
    let mut canvas = blank(5, 5);
    draw_circle(&mut canvas, 2, 2, 1, RED);
    assert_eq!(painted(&canvas, RED), vec![(2, 1), (1, 2), (2, 2), (3, 2), (2, 3)]);
}

#[test]
fn circle_of_radius_two() {
    let mut canvas = blank(7, 7);
    draw_circle(&mut canvas, 3, 3, 2, RED);
    let mut expected = Vec::new();
    for y in 0..7i32 {
        for x in 0..7i32 {
            if (x - 3) * (x - 3) + (y - 3) * (y - 3) <= 4 {
                expected.push((x as u32, y as u32));
            }
        }
    }
    assert_eq!(expected.len(), 13);
    assert_eq!(painted(&canvas, RED), expected);
}

#[test]
fn circle_with_nonpositive_radius_draws_nothing() {
    let mut canvas = blank(4, 4);
    draw_circle(&mut canvas, 1, 1, 0, RED);
    draw_circle(&mut canvas, 1, 1, -3, RED);
    assert!(painted(&canvas, RED).is_empty());
}

#[test]
fn circle_is_clipped_at_the_frame() {
    let mut canvas = blank(3, 3);
    draw_circle(&mut canvas, 0, 0, 1, RED);
    assert_eq!(painted(&canvas, RED), vec![(0, 0), (1, 0), (0, 1)]);
    let mut far = blank(3, 3);
    draw_circle(&mut far, -100, 50, 4, RED);
    assert!(painted(&far, RED).is_empty());
}

#[test]
fn shallow_line_pixels() {
    let mut canvas = blank(5, 3);
    draw_line(&mut canvas, 0, 0, 3, 1, RED);
    assert_eq!(painted(&canvas, RED), vec![(0, 0), (1, 0), (2, 1), (3, 1)]);
}

#[test]
fn steep_line_pixels() {
    let mut canvas = blank(3, 5);
    draw_line(&mut canvas, 1, 4, 0, 0, RED);
    let mut pts = painted(&canvas, RED);
    pts.sort();
    assert_eq!(pts, vec![(0, 0), (0, 1), (1, 2), (1, 3), (1, 4)]);
}

#[test]
fn diagonal_line_pixels() {
    let mut canvas = blank(4, 4);
    draw_line(&mut canvas, 3, 0, 0, 3, RED);
    let mut pts = painted(&canvas, RED);
    pts.sort();
    assert_eq!(pts, vec![(0, 3), (1, 2), (2, 1), (3, 0)]);
}

#[test]
fn horizontal_and_point_lines() {
    let mut canvas = blank(6, 2);
    draw_line(&mut canvas, 1, 1, 4, 1, RED);
    assert_eq!(painted(&canvas, RED), vec![(1, 1), (2, 1), (3, 1), (4, 1)]);
    let mut dot = blank(3, 3);
    draw_line(&mut dot, 2, 2, 2, 2, RED);
    assert_eq!(painted(&dot, RED), vec![(2, 2)]);
}

#[test]
fn line_is_clipped_at_the_frame() {
    let mut canvas = blank(3, 3);
    draw_line(&mut canvas, -2, 1, 5, 1, RED);
    assert_eq!(painted(&canvas, RED), vec![(0, 1), (1, 1), (2, 1)]);
}

#[test]
fn drawing_leaves_other_pixels_alone() {
    let mut canvas = blank(4, 4);
    canvas.pixels[15] = [1, 2, 3, 4];
    draw_line(&mut canvas, 0, 0, 1, 0, RED);
    draw_circle(&mut canvas, 0, 3, 1, RED);
    assert_eq!(canvas.pixel_at(3, 3), [1, 2, 3, 4]);
    assert_eq!(canvas.pixel_at(2, 2), BLACK);
}

#[test]
fn far_away_shapes_are_clipped() {
    let mut canvas = blank(4, 2);
    draw_line(&mut canvas, -100_000, 0, 2, 0, RED);
    assert_eq!(painted(&canvas, RED), vec![(0, 0), (1, 0), (2, 0)]);
    let mut other = blank(4, 2);
    draw_circle(&mut other, i32::MAX, i32::MIN, 3, RED);
    assert!(painted(&other, RED).is_empty());
}

#[test]
fn lines_have_one_pixel_per_major_step_near_the_ideal_line() {
    let ends = [(0, 0, 9, 4), (9, 4, 0, 0), (2, 9, 5, 0), (0, 5, 9, 5), (3, 3, 7, 8), (8, 1, 1, 6)];
    for (x0, y0, x1, y1) in ends {
        let mut canvas = blank(10, 10);
        draw_line(&mut canvas, x0, y0, x1, y1, RED);
        let pts = painted(&canvas, RED);
        let dx = (x1 - x0).abs() as i64;
        let dy = (y1 - y0).abs() as i64;
        let major = dx.max(dy);
        assert_eq!(pts.len() as i64, major + 1);
        assert!(pts.contains(&(x0 as u32, y0 as u32)));
        assert!(pts.contains(&(x1 as u32, y1 as u32)));
        for (px, py) in pts {
            let kx = (px as i64 - x0 as i64).abs();
            let ky = (py as i64 - y0 as i64).abs();
            let deviation = dx * ky - dy * kx;
            assert!(2 * deviation.abs() <= major);
        }
    }
}

#[test]
fn lines_match_the_closed_form() {
    let ends = [(0, 0, 9, 4), (9, 4, 0, 0), (2, 9, 5, 0), (0, 0, 9, 1), (3, 3, 7, 8), (8, 1, 1, 6), (4, 4, 4, 4)];
    for (x0, y0, x1, y1) in ends {
        let mut canvas = blank(10, 10);
        draw_line(&mut canvas, x0, y0, x1, y1, RED);
        let dx = (x1 - x0).abs();
        let dy = (y1 - y0).abs();
        let sx = if x0 < x1 { 1 } else { -1 };
        let sy = if y0 < y1 { 1 } else { -1 };
        let minor = |major: i32, minor: i32, k: i32| if major == 0 { 0 } else { (2 * minor * k + major - 1) / (2 * major) };
        let mut expected: Vec<(u32, u32)> = Vec::new();
        for k in 0..=dx.max(dy) {
            let (kx, ky) = if dx >= dy { (k, minor(dx, dy, k)) } else { (minor(dy, dx, k), k) };
            expected.push(((x0 + sx * kx) as u32, (y0 + sy * ky) as u32));
        }
        expected.sort_by_key(|&(x, y)| (y, x));
        assert_eq!(painted(&canvas, RED), expected);
    }
}
