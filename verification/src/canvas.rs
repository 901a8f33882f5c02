use vstd::prelude::*;

verus! {

/// An RGBA frame of `width` x `height` pixels stored row by row: the pixel at column
/// `x` and row `y` is `pixels[y * width + x]`.
pub struct Canvas {
    pub width: u32,
    pub height: u32,
    pub pixels: Vec<[u8; 4]>,
}

/// Row-major position of column `x`, row `y` in a frame `w` pixels wide.
pub open spec fn pixel_index(w: int, x: int, y: int) -> int {
    y * w + x
}

proof fn lemma_pixel_index_in_range(w: int, h: int, x: int, y: int)
    requires
        0 <= x < w,
        0 <= y < h,
    ensures
        0 <= pixel_index(w, x, y) < w * h,
{
    assert(0 <= y * w + x < w * h) by (nonlinear_arith)
        requires
            0 <= x < w,
            0 <= y < h,
    ;
}

proof fn lemma_pixel_index_injective(w: int, x1: int, y1: int, x2: int, y2: int)
    requires
        0 <= x1 < w,
        0 <= x2 < w,
        0 <= y1,
        0 <= y2,
        pixel_index(w, x1, y1) == pixel_index(w, x2, y2),
    ensures
        x1 == x2,
        y1 == y2,
{
    if y1 < y2 {
        assert(y1 * w + x1 < y2 * w + x2) by (nonlinear_arith)
            requires
                0 <= x1 < w,
                0 <= x2,
                y1 < y2,
        ;
    } else if y2 < y1 {
        assert(y2 * w + x2 < y1 * w + x1) by (nonlinear_arith)
            requires
                0 <= x2 < w,
                0 <= x1,
                y2 < y1,
        ;
    }
}

impl Canvas {
    /// The pixel buffer holds exactly one entry per pixel.
    pub open spec fn wf(&self) -> bool {
        self.pixels@.len() == self.width as int * self.height as int
    }

    pub open spec fn in_bounds(&self, x: int, y: int) -> bool {
        0 <= x < self.width && 0 <= y < self.height
    }

    /// The color of the pixel at column `x`, row `y`.
    pub open spec fn pixel(&self, x: int, y: int) -> [u8; 4] {
        self.pixels@[pixel_index(self.width as int, x, y)]
    }

    /// Same dimensions and buffer length as `other`.
    pub open spec fn same_shape(&self, other: &Canvas) -> bool {
        &&& self.width == other.width
        &&& self.height == other.height
        &&& self.pixels@.len() == other.pixels@.len()
    }

    /// A frame of the given size with every pixel `[0, 0, 0, 0]`.
    pub fn new(width: u32, height: u32) -> (c: Canvas)
        requires
            width as int * height as int <= usize::MAX,
        ensures
            c.width == width,
            c.height == height,
            c.wf(),
            forall|i: int| 0 <= i < c.pixels@.len() ==> #[trigger] c.pixels@[i] == [0u8, 0u8, 0u8, 0u8],
    {
        let n = (width as usize) * (height as usize);
        let mut pixels: Vec<[u8; 4]> = Vec::new();
        let mut i: usize = 0;
        while i < n
            invariant
                i <= n,
                pixels@.len() == i,
                forall|j: int| 0 <= j < i ==> #[trigger] pixels@[j] == [0u8, 0u8, 0u8, 0u8],
            decreases n - i,
        {
            pixels.push([0u8, 0u8, 0u8, 0u8]);
            i += 1;
        }
        Canvas { width, height, pixels }
    }

    /// The color of the pixel at column `x`, row `y`.
    pub fn pixel_at(&self, x: u32, y: u32) -> (c: [u8; 4])
        requires
            self.wf(),
            self.in_bounds(x as int, y as int),
        ensures
            c == self.pixel(x as int, y as int),
            c == self.pixels@[y as int * self.width as int + x as int],
    {
        let n = self.pixels.len();
        proof {
            lemma_pixel_index_in_range(self.width as int, self.height as int, x as int, y as int);
            assert((y as int) * (self.width as int) <= pixel_index(self.width as int, x as int, y as int) < n);
        }
        self.pixels[(y as usize) * (self.width as usize) + (x as usize)]
    }
}

/// Paint the pixel at (`px`, `py`) when it lies on the frame; do nothing otherwise.
fn plot(canvas: &mut Canvas, px: i64, py: i64, color: [u8; 4])
    requires
        old(canvas).wf(),
    ensures
        final(canvas).same_shape(old(canvas)),
        final(canvas).wf(),
        forall|x: int, y: int|
            final(canvas).in_bounds(x, y) ==> #[trigger] final(canvas).pixel(x, y) == (if x == px
                && y == py {
                color
            } else {
                old(canvas).pixel(x, y)
            }),
{
    if px >= 0 && px < canvas.width as i64 && py >= 0 && py < canvas.height as i64 {
        let n = canvas.pixels.len();
        proof {
            lemma_pixel_index_in_range(canvas.width as int, canvas.height as int, px as int, py as int);
            assert((py as int) * (canvas.width as int) <= pixel_index(canvas.width as int, px as int, py as int) < n);
        }
        let index = (py as usize) * (canvas.width as usize) + (px as usize);
        canvas.pixels.set(index, color);
        proof {
            assert forall|x: int, y: int| canvas.in_bounds(x, y) implies #[trigger] canvas.pixel(x, y) == (
            if x == px && y == py {
                color
            } else {
                old(canvas).pixel(x, y)
            }) by {
                lemma_pixel_index_in_range(canvas.width as int, canvas.height as int, x, y);
                if pixel_index(canvas.width as int, x, y) == index {
                    lemma_pixel_index_injective(canvas.width as int, x, y, px as int, py as int);
                }
            }
        }
    }
}

/// Clear the frame by zeroing it: every byte of every pixel becomes 0 (a black screen).
pub fn clear_screen(canvas: &mut Canvas)
    requires
        old(canvas).wf(),
    ensures
        final(canvas).same_shape(old(canvas)),
        final(canvas).wf(),
        forall|i: int| 0 <= i < final(canvas).pixels@.len() ==> #[trigger] final(canvas).pixels@[i] == [0u8, 0u8, 0u8, 0u8],
{
    let n = canvas.pixels.len();
    let mut i: usize = 0;
    while i < n
        invariant
            i <= n,
            canvas.same_shape(old(canvas)),
            n == canvas.pixels@.len(),
            forall|j: int| 0 <= j < i ==> #[trigger] canvas.pixels@[j] == [0u8, 0u8, 0u8, 0u8],
        decreases n - i,
    {
        canvas.pixels.set(i, [0u8, 0u8, 0u8, 0u8]);
        i += 1;
    }
}

/// Whether the pixel (`x`, `y`) lies in the filled circle of radius `r` about
/// (`cx`, `cy`): a circle of radius zero or less covers nothing.
pub open spec fn in_disk(cx: int, cy: int, r: int, x: int, y: int) -> bool {
    r > 0 && (x - cx) * (x - cx) + (y - cy) * (y - cy) <= r * r
}

/// The coordinates of a point of the disk differ from the center by at most the radius.
pub proof fn lemma_disk_within_box(cx: int, cy: int, r: int, x: int, y: int)
    requires
        in_disk(cx, cy, r, x, y),
    ensures
        cx - r <= x <= cx + r,
        cy - r <= y <= cy + r,
{
    let dx = x - cx;
    let dy = y - cy;
    assert(-r <= dx <= r && -r <= dy <= r) by (nonlinear_arith)
        requires
            r > 0,
            dx * dx + dy * dy <= r * r,
    ;
}

/// A pixel is in the disk exactly when its squared distance from the center is at most
/// the squared radius, for a positive radius; in particular it contains every pixel on
/// the center's row or column within `r` of the center.
pub proof fn lemma_in_disk(cx: int, cy: int, r: int, x: int, y: int)
    ensures
        in_disk(cx, cy, r, x, y) <==> (r > 0 && (x - cx) * (x - cx) + (y - cy) * (y - cy) <= r * r),
        r > 0 && x == cx && -r <= y - cy <= r ==> in_disk(cx, cy, r, x, y),
        r > 0 && y == cy && -r <= x - cx <= r ==> in_disk(cx, cy, r, x, y),
{
    if r > 0 && x == cx && -r <= y - cy <= r {
        assert((y - cy) * (y - cy) <= r * r) by (nonlinear_arith)
            requires
                -r <= y - cy <= r,
        ;
    }
    if r > 0 && y == cy && -r <= x - cx <= r {
        assert((x - cx) * (x - cx) <= r * r) by (nonlinear_arith)
            requires
                -r <= x - cx <= r,
        ;
    }
}

/// Fill the circle of radius `radius` about (`center_x`, `center_y`) with `color`:
/// exactly the pixels of the frame within the circle change. A radius of zero or
/// less draws nothing.
pub fn draw_circle(canvas: &mut Canvas, center_x: i32, center_y: i32, radius: i32, color: [u8; 4])
    requires
        old(canvas).wf(),
    ensures
        final(canvas).same_shape(old(canvas)),
        final(canvas).wf(),
        forall|x: int, y: int|
            final(canvas).in_bounds(x, y) ==> #[trigger] final(canvas).pixel(x, y) == (if in_disk(
                center_x as int,
                center_y as int,
                radius as int,
                x,
                y,
            ) {
                color
            } else {
                old(canvas).pixel(x, y)
            }),
        forall|x: int, y: int|
            final(canvas).in_bounds(x, y) ==> #[trigger] final(canvas).pixel(x, y) == (if radius > 0 && (x
                - center_x) * (x - center_x) + (y - center_y) * (y - center_y) <= radius * radius {
                color
            } else {
                old(canvas).pixel(x, y)
            }),
{
    if radius <= 0 {
        return;
    }
    let ghost cx = center_x as int;
    let ghost cy = center_y as int;
    let ghost r = radius as int;
    let rad = radius as i64;
    let cx64 = center_x as i64;
    let cy64 = center_y as i64;
    let mut y: i64 = -rad;
    assert forall|qx: int, qy: int| in_disk(cx, cy, r, qx, qy) implies !(qy - cy < y) by {
        lemma_disk_within_box(cx, cy, r, qx, qy);
    }
    while y <= rad
        invariant
            0 < rad <= i32::MAX,
            cx == cx64,
            cy == cy64,
            r == rad,
            i32::MIN <= cx64 <= i32::MAX,
            i32::MIN <= cy64 <= i32::MAX,
            -rad <= y <= rad + 1,
            canvas.same_shape(old(canvas)),
            canvas.wf(),
            forall|px: int, py: int|
                canvas.in_bounds(px, py) ==> #[trigger] canvas.pixel(px, py) == (if in_disk(
                    cx,
                    cy,
                    r,
                    px,
                    py,
                ) && py - cy < y {
                    color
                } else {
                    old(canvas).pixel(px, py)
                }),
        decreases rad + 1 - y,
    {
        let mut x: i64 = -rad;
        assert forall|qx: int, qy: int| in_disk(cx, cy, r, qx, qy) implies !(qx - cx < x) by {
            lemma_disk_within_box(cx, cy, r, qx, qy);
        }
        while x <= rad
            invariant
                0 < rad <= i32::MAX,
                cx == cx64,
                cy == cy64,
                r == rad,
                i32::MIN <= cx64 <= i32::MAX,
                i32::MIN <= cy64 <= i32::MAX,
                -rad <= y <= rad,
                -rad <= x <= rad + 1,
                canvas.same_shape(old(canvas)),
                canvas.wf(),
                forall|px: int, py: int|
                    canvas.in_bounds(px, py) ==> #[trigger] canvas.pixel(px, py) == (if in_disk(
                        cx,
                        cy,
                        r,
                        px,
                        py,
                    ) && (py - cy < y || (py - cy == y && px - cx < x)) {
                        color
                    } else {
                        old(canvas).pixel(px, py)
                    }),
            decreases rad + 1 - x,
        {
            assert(0 <= x * x <= rad * rad && 0 <= y * y <= rad * rad) by (nonlinear_arith)
                requires
                    -rad <= x <= rad,
                    -rad <= y <= rad,
            ;
            assert(rad * rad <= 0x7fff_ffff * 0x7fff_ffff) by (nonlinear_arith)
                requires
                    0 < rad <= 0x7fff_ffff,
            ;
            if x * x + y * y <= rad * rad {
                let px = cx64 + x;
                let py = cy64 + y;
                plot(canvas, px, py, color);
            } else {
                proof {
                    assert forall|qx: int, qy: int| canvas.in_bounds(qx, qy) implies #[trigger] canvas.pixel(qx, qy) == (
                    if in_disk(cx, cy, r, qx, qy) && (qy - cy < y || (qy - cy == y && qx - cx < x + 1)) {
                        color
                    } else {
                        old(canvas).pixel(qx, qy)
                    }) by {
                        if qy - cy == y && qx - cx == x {
                            assert(!in_disk(cx, cy, r, qx, qy));
                        }
                    }
                }
            }
            x += 1;
        }
        proof {
            assert forall|qx: int, qy: int| canvas.in_bounds(qx, qy) implies #[trigger] canvas.pixel(qx, qy) == (
            if in_disk(cx, cy, r, qx, qy) && qy - cy < y + 1 {
                color
            } else {
                old(canvas).pixel(qx, qy)
            }) by {
                if in_disk(cx, cy, r, qx, qy) {
                    lemma_disk_within_box(cx, cy, r, qx, qy);
                }
            }
        }
        y += 1;
    }
    proof {
        assert forall|qx: int, qy: int| canvas.in_bounds(qx, qy) implies #[trigger] canvas.pixel(qx, qy) == (
        if in_disk(cx, cy, r, qx, qy) {
            color
        } else {
            old(canvas).pixel(qx, qy)
        }) by {
            if in_disk(cx, cy, r, qx, qy) {
                lemma_disk_within_box(cx, cy, r, qx, qy);
            }
        }
    }
}

pub open spec fn abs_diff(a: int, b: int) -> int {
    if a <= b {
        b - a
    } else {
        a - b
    }
}

/// The unit step that moves from `a` towards `b` (`-1` when they are equal).
pub open spec fn step_toward(a: int, b: int) -> int {
    if a < b {
        1
    } else {
        -1
    }
}

/// One iteration of the integer line algorithm from pixel (`x`, `y`) with error term
/// `err`: it moves horizontally when `2 * err > -dy` and vertically when `2 * err < dx`,
/// and returns the next pixel and error term.
pub open spec fn line_step(x: int, y: int, err: int, dx: int, dy: int, sx: int, sy: int) -> (int, int, int) {
    let e2 = 2 * err;
    let x2 = if e2 > -dy { x + sx } else { x };
    let err1 = if e2 > -dy { err - dy } else { err };
    let y2 = if e2 < dx { y + sy } else { y };
    let err2 = if e2 < dx { err1 + dx } else { err1 };
    (x2, y2, err2)
}

/// The pixels that the line algorithm visits from state (`x`, `y`, `err`) until it
/// reaches (`x1`, `y1`), taking at most `fuel` steps.
pub open spec fn line_path_from(
    x: int,
    y: int,
    err: int,
    x1: int,
    y1: int,
    dx: int,
    dy: int,
    sx: int,
    sy: int,
    fuel: nat,
) -> Seq<(int, int)>
    decreases fuel,
{
    if (x == x1 && y == y1) || fuel == 0 {
        seq![(x, y)]
    } else {
        let next = line_step(x, y, err, dx, dy, sx, sy);
        seq![(x, y)] + line_path_from(next.0, next.1, next.2, x1, y1, dx, dy, sx, sy, (fuel - 1) as nat)
    }
}

/// The pixels of the line from (`x0`, `y0`) to (`x1`, `y1`), in drawing order,
/// as the integer (Bresenham) line algorithm visits them.
pub open spec fn line_path(x0: int, y0: int, x1: int, y1: int) -> Seq<(int, int)> {
    let dx = abs_diff(x0, x1);
    let dy = abs_diff(y0, y1);
    line_path_from(
        x0,
        y0,
        dx - dy,
        x1,
        y1,
        dx,
        dy,
        step_toward(x0, x1),
        step_toward(y0, y1),
        (dx + dy) as nat,
    )
}

/// The state of the line algorithm after `kx` horizontal and `ky` vertical steps.
pub open spec fn line_state(x0: int, y0: int, x1: int, y1: int, x: int, y: int, err: int, kx: int, ky: int) -> bool {
    let dx = abs_diff(x0, x1);
    let dy = abs_diff(y0, y1);
    &&& 0 <= kx <= dx
    &&& 0 <= ky <= dy
    &&& x == (if x0 < x1 { x0 + kx } else { x0 - kx })
    &&& y == (if y0 < y1 { y0 + ky } else { y0 - ky })
    &&& err == dx + dx * ky - dy - dy * kx
    &&& -2 * dy <= err <= 2 * dx
    &&& (dx >= dy && dx > 0 ==> 2 * err > -dy && (dx == dy ==> err == 0))
    &&& (dx < dy ==> 2 * err < dx)
    &&& (dx >= dy && dx > 0 ==> -dx <= 2 * (err - dx + dy) < dx)
    &&& (dx < dy ==> -dy < 2 * (err - dx + dy) <= dy)
}

/// How far pixel `q` lies off the ideal line from (`x0`, `y0`) to (`x1`, `y1`), scaled:
/// divided by the extent of the major axis it is the distance, in pixels along the minor
/// axis, between `q` and the point of the ideal line at `q`'s major coordinate.
pub open spec fn line_deviation(x0: int, y0: int, x1: int, y1: int, q: (int, int)) -> int {
    abs_diff(x0, x1) * abs_diff(y0, q.1) - abs_diff(y0, y1) * abs_diff(x0, q.0)
}

/// Whether pixel `q` lies within half a pixel, along the minor axis, of the ideal line
/// from (`x0`, `y0`) to (`x1`, `y1`).
pub open spec fn near_ideal_line(x0: int, y0: int, x1: int, y1: int, q: (int, int)) -> bool {
    let major = if abs_diff(x0, x1) >= abs_diff(y0, y1) {
        abs_diff(x0, x1)
    } else {
        abs_diff(y0, y1)
    };
    -major <= 2 * line_deviation(x0, y0, x1, y1, q) <= major
}

/// Distance of pixel `q` from the first end point along the major axis.
pub open spec fn major_offset(x0: int, y0: int, x1: int, y1: int, q: (int, int)) -> int {
    if abs_diff(x0, x1) >= abs_diff(y0, y1) {
        abs_diff(x0, q.0)
    } else {
        abs_diff(y0, q.1)
    }
}

/// The offset along the minor axis of the `k`-th pixel of a line whose axes extend
/// `major` and `minor` pixels: `minor * k / major` rounded to the nearest integer, with
/// halves rounded down.
pub open spec fn minor_offset(major: int, minor: int, k: int) -> int {
    if major == 0 {
        0
    } else {
        (2 * minor * k + major - 1) / (2 * major)
    }
}

/// The `k`-th pixel of the line from (`x0`, `y0`) to (`x1`, `y1`): `k` pixels from the
/// start along the major axis, and the nearest pixel to the ideal line along the minor
/// axis.
pub open spec fn line_pixel(x0: int, y0: int, x1: int, y1: int, k: int) -> (int, int) {
    let dx = abs_diff(x0, x1);
    let dy = abs_diff(y0, y1);
    let kx = if dx >= dy { k } else { minor_offset(dy, dx, k) };
    let ky = if dx >= dy { minor_offset(dx, dy, k) } else { k };
    (if x0 < x1 { x0 + kx } else { x0 - kx }, if y0 < y1 { y0 + ky } else { y0 - ky })
}

/// The pixels of the line from (`x0`, `y0`) to (`x1`, `y1`), one per pixel of the
/// major axis, in order from the start.
pub open spec fn line_pixels(x0: int, y0: int, x1: int, y1: int) -> Seq<(int, int)> {
    let dx = abs_diff(x0, x1);
    let dy = abs_diff(y0, y1);
    let major = if dx >= dy { dx } else { dy };
    Seq::new((major + 1) as nat, |k: int| line_pixel(x0, y0, x1, y1, k))
}

/// An integer division whose quotient is known: `q * d <= n < q * d + d`.
proof fn lemma_div_exact_range(n: int, d: int, q: int)
    requires
        d > 0,
        q * d <= n < q * d + d,
    ensures
        n / d == q,
{
    vstd::arithmetic::div_mod::lemma_fundamental_div_mod(n, d);
    let r = n / d;
    assert(r == q) by (nonlinear_arith)
        requires
            d > 0,
            q * d <= n < q * d + d,
            n == d * r + n % d,
            0 <= n % d < d,
    ;
}

/// Whether `b` is one step of the line algorithm after `a`: it moves by at most one
/// pixel on each axis, towards the end point, and does move.
pub open spec fn line_neighbors(a: (int, int), b: (int, int), sx: int, sy: int) -> bool {
    &&& (b.0 == a.0 || b.0 == a.0 + sx)
    &&& (b.1 == a.1 || b.1 == a.1 + sy)
    &&& b != a
}

/// Whether `v` lies between `a` and `b`, both included.
pub open spec fn between(a: int, b: int, v: int) -> bool {
    (a <= v <= b) || (b <= v <= a)
}

/// One iteration keeps the algorithm's state invariant, and moves one pixel on the
/// major axis.
proof fn lemma_line_step(x0: int, y0: int, x1: int, y1: int, x: int, y: int, err: int, kx: int, ky: int)
    requires
        line_state(x0, y0, x1, y1, x, y, err, kx, ky),
        !(x == x1 && y == y1),
    ensures
        ({
            let dx = abs_diff(x0, x1);
            let dy = abs_diff(y0, y1);
            let next = line_step(x, y, err, dx, dy, step_toward(x0, x1), step_toward(y0, y1));
            let e2 = 2 * err;
            let kx2 = if e2 > -dy { kx + 1 } else { kx };
            let ky2 = if e2 < dx { ky + 1 } else { ky };
            &&& line_state(x0, y0, x1, y1, next.0, next.1, next.2, kx2, ky2)
            &&& kx2 + ky2 > kx + ky
            &&& (dx >= dy ==> kx2 == kx + 1)
            &&& (dx < dy ==> ky2 == ky + 1)
        }),
{
    let dx = abs_diff(x0, x1);
    let dy = abs_diff(y0, y1);
    let e2 = 2 * err;
    // A finished axis takes no further step.
    if kx == dx && ky < dy {
        assert(dx * (1 + ky - dy) <= 0) by (nonlinear_arith)
            requires
                dx >= 0,
                1 + ky - dy <= 0,
        ;
        assert(dx + dx * ky - dy * dx == dx * (1 + ky - dy)) by (nonlinear_arith);
        assert(dy * kx == dy * dx) by (nonlinear_arith)
            requires
                kx == dx,
        ;
    }
    if ky == dy && kx < dx {
        assert(dy * (dx - 1 - kx) >= 0) by (nonlinear_arith)
            requires
                dy >= 0,
                dx - 1 - kx >= 0,
        ;
        assert(dx * dy - dy * kx - dy == dy * (dx - 1 - kx)) by (nonlinear_arith);
        assert(dx * ky == dx * dy) by (nonlinear_arith)
            requires
                ky == dy,
        ;
    }
    assert(dy * (kx + 1) == dy * kx + dy) by (nonlinear_arith);
    assert(dx * (ky + 1) == dx * ky + dx) by (nonlinear_arith);
}

/// The path of the line algorithm from any of its states, given enough steps: it
/// starts at the current pixel, ends at the end point, moves one pixel at a time
/// towards it, stays in the bounding box of the line, and takes one step per pixel of
/// the major axis.
proof fn lemma_line_path_from(
    x0: int,
    y0: int,
    x1: int,
    y1: int,
    x: int,
    y: int,
    err: int,
    kx: int,
    ky: int,
    fuel: nat,
)
    requires
        line_state(x0, y0, x1, y1, x, y, err, kx, ky),
        fuel >= abs_diff(x0, x1) + abs_diff(y0, y1) - kx - ky,
    ensures
        ({
            let dx = abs_diff(x0, x1);
            let dy = abs_diff(y0, y1);
            let sx = step_toward(x0, x1);
            let sy = step_toward(y0, y1);
            let p = line_path_from(x, y, err, x1, y1, dx, dy, sx, sy, fuel);
            &&& p.len() >= 1
            &&& p[0] == (x, y)
            &&& p.last() == (x1, y1)
            &&& p.len() == (if dx >= dy { dx - kx } else { dy - ky }) + 1
            &&& forall|k: int| 0 <= k < p.len() - 1 ==> #[trigger] line_neighbors(p[k], p[k + 1], sx, sy)
            &&& forall|k: int| 0 <= k < p.len() ==> between(x0, x1, (#[trigger] p[k]).0) && between(y0, y1, p[k].1)
            &&& forall|k: int|
                0 <= k < p.len() ==> near_ideal_line(x0, y0, x1, y1, #[trigger] p[k]) && major_offset(
                    x0,
                    y0,
                    x1,
                    y1,
                    p[k],
                ) == (if dx >= dy { kx } else { ky }) + k
            &&& forall|k: int|
                0 <= k < p.len() ==> #[trigger] p[k] == line_pixel(
                    x0,
                    y0,
                    x1,
                    y1,
                    (if dx >= dy { kx } else { ky }) + k,
                )
        }),
    decreases fuel,
{
    let dx = abs_diff(x0, x1);
    let dy = abs_diff(y0, y1);
    let sx = step_toward(x0, x1);
    let sy = step_toward(y0, y1);
    let p = line_path_from(x, y, err, x1, y1, dx, dy, sx, sy, fuel);
    if x == x1 && y == y1 {
        assert(p == seq![(x, y)]);
        lemma_line_state_point(x0, y0, x1, y1, x, y, err, kx, ky);
        if dx >= dy {
            assert(kx == dx);
        } else {
            assert(ky == dy);
        }
    } else {
        lemma_line_step(x0, y0, x1, y1, x, y, err, kx, ky);
        let e2 = 2 * err;
        let next = line_step(x, y, err, dx, dy, sx, sy);
        let kx2 = if e2 > -dy { kx + 1 } else { kx };
        let ky2 = if e2 < dx { ky + 1 } else { ky };
        assert(fuel > 0);
        lemma_line_path_from(x0, y0, x1, y1, next.0, next.1, next.2, kx2, ky2, (fuel - 1) as nat);
        let rest = line_path_from(next.0, next.1, next.2, x1, y1, dx, dy, sx, sy, (fuel - 1) as nat);
        assert(p == seq![(x, y)] + rest);
        assert forall|k: int| 0 <= k < p.len() - 1 implies #[trigger] line_neighbors(p[k], p[k + 1], sx, sy) by {
            if k > 0 {
                assert(p[k] == rest[k - 1]);
                assert(p[k + 1] == rest[k]);
                let j = k - 1;
                assert(line_neighbors(rest[j], rest[j + 1], sx, sy));
            } else {
                assert(p[1] == rest[0]);
                assert(rest[0] == (next.0, next.1));
                assert(e2 > -dy || e2 < dx);
                assert(line_neighbors((x, y), (next.0, next.1), sx, sy));
            }
        }
        assert forall|k: int| 0 <= k < p.len() implies between(x0, x1, (#[trigger] p[k]).0) && between(y0, y1, p[k].1) by {
            if k > 0 {
                assert(p[k] == rest[k - 1]);
            }
        }
        assert forall|k: int| 0 <= k < p.len() implies near_ideal_line(x0, y0, x1, y1, #[trigger] p[k]) && major_offset(
            x0,
            y0,
            x1,
            y1,
            p[k],
        ) == (if dx >= dy { kx } else { ky }) + k by {
            if k > 0 {
                assert(p[k] == rest[k - 1]);
                assert(near_ideal_line(x0, y0, x1, y1, rest[k - 1]));
            } else {
                lemma_line_state_point(x0, y0, x1, y1, x, y, err, kx, ky);
            }
        }
        assert forall|k: int| 0 <= k < p.len() implies #[trigger] p[k] == line_pixel(
            x0,
            y0,
            x1,
            y1,
            (if dx >= dy { kx } else { ky }) + k,
        ) by {
            if k > 0 {
                assert(p[k] == rest[k - 1]);
            } else {
                lemma_line_state_point(x0, y0, x1, y1, x, y, err, kx, ky);
            }
        }
    }
}

/// The current pixel of any state of the line algorithm is within half a pixel of the
/// ideal line, and its major offset counts the steps taken on the major axis.
proof fn lemma_line_state_point(x0: int, y0: int, x1: int, y1: int, x: int, y: int, err: int, kx: int, ky: int)
    requires
        line_state(x0, y0, x1, y1, x, y, err, kx, ky),
    ensures
        near_ideal_line(x0, y0, x1, y1, (x, y)),
        major_offset(x0, y0, x1, y1, (x, y)) == (if abs_diff(x0, x1) >= abs_diff(y0, y1) {
            kx
        } else {
            ky
        }),
        (x, y) == line_pixel(x0, y0, x1, y1, if abs_diff(x0, x1) >= abs_diff(y0, y1) {
            kx
        } else {
            ky
        }),
{
    let dx = abs_diff(x0, x1);
    let dy = abs_diff(y0, y1);
    assert(abs_diff(x0, x) == kx);
    assert(abs_diff(y0, y) == ky);
    if dx >= dy && dx > 0 {
        assert(ky * (2 * dx) <= 2 * dy * kx + dx - 1 < ky * (2 * dx) + 2 * dx) by (nonlinear_arith)
            requires
                err == dx + dx * ky - dy - dy * kx,
                -dx <= 2 * (err - dx + dy) < dx,
        ;
        lemma_div_exact_range(2 * dy * kx + dx - 1, 2 * dx, ky);
    } else if dx < dy {
        assert(kx * (2 * dy) <= 2 * dx * ky + dy - 1 < kx * (2 * dy) + 2 * dy) by (nonlinear_arith)
            requires
                err == dx + dx * ky - dy - dy * kx,
                -dy < 2 * (err - dx + dy) <= dy,
        ;
        lemma_div_exact_range(2 * dx * ky + dy - 1, 2 * dy, kx);
    }
}

/// The integer line algorithm visits exactly the closed-form pixels of the line: the
/// `k`-th pixel it visits is `line_pixel(x0, y0, x1, y1, k)`, and it visits one pixel per
/// pixel of the major axis.
pub proof fn lemma_line_path_closed_form(x0: int, y0: int, x1: int, y1: int)
    ensures
        line_path(x0, y0, x1, y1) == line_pixels(x0, y0, x1, y1),
{
    let dx = abs_diff(x0, x1);
    let dy = abs_diff(y0, y1);
    assert(line_state(x0, y0, x1, y1, x0, y0, dx - dy, 0, 0));
    lemma_line_path_from(x0, y0, x1, y1, x0, y0, dx - dy, 0, 0, (dx + dy) as nat);
    assert(line_path(x0, y0, x1, y1) =~= line_pixels(x0, y0, x1, y1));
}

/// The drawn line from (`x0`, `y0`) to (`x1`, `y1`) starts at (`x0`, `y0`) and ends at
/// (`x1`, `y1`); each of its pixels is a neighbour of the previous one, one pixel further
/// on at least one axis and never moving away from the end point; every pixel lies in
/// the box spanned by the two end points; it has exactly `max(|x1 - x0|, |y1 - y0|) + 1`
/// pixels, the `k`-th one `k` pixels along the major axis from the start, so it never
/// visits a pixel twice; and every pixel lies within half a pixel, along the minor axis,
/// of the ideal straight line between the end points.
pub proof fn lemma_line_shape(x0: int, y0: int, x1: int, y1: int)
    ensures
        ({
            let p = line_pixels(x0, y0, x1, y1);
            let dx = abs_diff(x0, x1);
            let dy = abs_diff(y0, y1);
            &&& p.len() == (if dx >= dy { dx } else { dy }) + 1
            &&& p[0] == (x0, y0)
            &&& p.last() == (x1, y1)
            &&& forall|k: int|
                0 <= k < p.len() - 1 ==> #[trigger] line_neighbors(
                    p[k],
                    p[k + 1],
                    step_toward(x0, x1),
                    step_toward(y0, y1),
                )
            &&& forall|k: int| 0 <= k < p.len() ==> between(x0, x1, (#[trigger] p[k]).0) && between(y0, y1, p[k].1)
            &&& forall|k: int|
                0 <= k < p.len() ==> near_ideal_line(x0, y0, x1, y1, #[trigger] p[k]) && major_offset(
                    x0,
                    y0,
                    x1,
                    y1,
                    p[k],
                ) == k
        }),
{
    let dx = abs_diff(x0, x1);
    let dy = abs_diff(y0, y1);
    assert(line_state(x0, y0, x1, y1, x0, y0, dx - dy, 0, 0));
    lemma_line_path_from(x0, y0, x1, y1, x0, y0, dx - dy, 0, 0, (dx + dy) as nat);
    lemma_line_path_closed_form(x0, y0, x1, y1);
}

/// A pixel lies on the line from (`x0`, `y0`) to (`x1`, `y1`) exactly when it lies in the
/// box spanned by the end points and, measured from the first end point, its offsets
/// `kx`, `ky` put it within half a pixel of the ideal line along the minor axis:
/// `-dx <= 2 * (dx * ky - dy * kx) < dx` when the line is at least as wide as it is tall,
/// and `-dy < 2 * (dx * ky - dy * kx) <= dy` otherwise (a line of one pixel is its start).
pub proof fn lemma_line_pixels_geometry(x0: int, y0: int, x1: int, y1: int, x: int, y: int)
    ensures
        line_pixels(x0, y0, x1, y1).contains((x, y)) <==> ({
            let dx = if x0 <= x1 { x1 - x0 } else { x0 - x1 };
            let dy = if y0 <= y1 { y1 - y0 } else { y0 - y1 };
            let kx = if x0 <= x { x - x0 } else { x0 - x };
            let ky = if y0 <= y { y - y0 } else { y0 - y };
            &&& (x0 <= x <= x1 || x1 <= x <= x0)
            &&& (y0 <= y <= y1 || y1 <= y <= y0)
            &&& if dx >= dy {
                -dx <= 2 * (dx * ky - dy * kx) && (2 * (dx * ky - dy * kx) < dx || dx == 0)
            } else {
                -dy < 2 * (dx * ky - dy * kx) <= dy
            }
        }),
{
    let dx = abs_diff(x0, x1);
    let dy = abs_diff(y0, y1);
    let kx = abs_diff(x0, x);
    let ky = abs_diff(y0, y);
    let p = line_pixels(x0, y0, x1, y1);
    let major = if dx >= dy { dx } else { dy };
    let in_box = (x0 <= x <= x1 || x1 <= x <= x0) && (y0 <= y <= y1 || y1 <= y <= y0);
    let near = if dx >= dy {
        -dx <= 2 * (dx * ky - dy * kx) && (2 * (dx * ky - dy * kx) < dx || dx == 0)
    } else {
        -dy < 2 * (dx * ky - dy * kx) <= dy
    };
    if p.contains((x, y)) {
        let k = choose|k: int| 0 <= k < p.len() && p[k] == (x, y);
        assert(p[k] == line_pixel(x0, y0, x1, y1, k));
        if dx >= dy {
            if dx > 0 {
                let m = minor_offset(dx, dy, k);
                vstd::arithmetic::div_mod::lemma_fundamental_div_mod(2 * dy * k + dx - 1, 2 * dx);
                assert(0 <= m <= dy && -dx <= 2 * (dx * m - dy * k) < dx) by (nonlinear_arith)
                    requires
                        dx > 0,
                        0 <= dy <= dx,
                        0 <= k <= dx,
                        2 * dy * k + dx - 1 == (2 * dx) * m + (2 * dy * k + dx - 1) % (2 * dx),
                        0 <= (2 * dy * k + dx - 1) % (2 * dx) < 2 * dx,
                ;
                assert(kx == k && ky == m);
            }
        } else {
            let m = minor_offset(dy, dx, k);
            vstd::arithmetic::div_mod::lemma_fundamental_div_mod(2 * dx * k + dy - 1, 2 * dy);
            assert(0 <= m <= dx && -dy < 2 * (dx * k - dy * m) <= dy) by (nonlinear_arith)
                requires
                    dy > 0,
                    0 <= dx < dy,
                    0 <= k <= dy,
                    2 * dx * k + dy - 1 == (2 * dy) * m + (2 * dx * k + dy - 1) % (2 * dy),
                    0 <= (2 * dx * k + dy - 1) % (2 * dy) < 2 * dy,
            ;
            assert(kx == m && ky == k);
        }
        assert(in_box && near);
    }
    if in_box && near {
        if dx >= dy {
            let k = kx;
            assert(0 <= k <= dx);
            if dx > 0 {
                assert(ky * (2 * dx) <= 2 * dy * k + dx - 1 < ky * (2 * dx) + 2 * dx) by (nonlinear_arith)
                    requires
                        -dx <= 2 * (dx * ky - dy * k) < dx,
                ;
                lemma_div_exact_range(2 * dy * k + dx - 1, 2 * dx, ky);
            } else {
                assert(ky == 0);
            }
            assert(p[k] == (x, y));
        } else {
            let k = ky;
            assert(0 <= k <= dy);
            assert(kx * (2 * dy) <= 2 * dx * k + dy - 1 < kx * (2 * dy) + 2 * dy) by (nonlinear_arith)
                requires
                    -dy < 2 * (dx * k - dy * kx) <= dy,
            ;
            lemma_div_exact_range(2 * dx * k + dy - 1, 2 * dy, kx);
            assert(p[k] == (x, y));
        }
    }
}

/// Draw the line from (`x0`, `y0`) to (`x1`, `y1`) in `color` with the integer
/// (Bresenham) line algorithm: exactly the pixels of `line_pixels` that lie on the frame
/// change.
pub fn draw_line(canvas: &mut Canvas, x0: i32, y0: i32, x1: i32, y1: i32, color: [u8; 4])
    requires
        old(canvas).wf(),
    ensures
        final(canvas).same_shape(old(canvas)),
        final(canvas).wf(),
        forall|x: int, y: int|
            final(canvas).in_bounds(x, y) ==> #[trigger] final(canvas).pixel(x, y) == (if line_pixels(
                x0 as int,
                y0 as int,
                x1 as int,
                y1 as int,
            ).contains((x, y)) {
                color
            } else {
                old(canvas).pixel(x, y)
            }),
        forall|x: int, y: int|
            final(canvas).in_bounds(x, y) ==> #[trigger] final(canvas).pixel(x, y) == (if ({
                let dx = if x0 <= x1 { x1 - x0 } else { x0 - x1 };
                let dy = if y0 <= y1 { y1 - y0 } else { y0 - y1 };
                let kx = if x0 <= x { x - x0 } else { x0 - x };
                let ky = if y0 <= y { y - y0 } else { y0 - y };
                &&& (x0 <= x <= x1 || x1 <= x <= x0)
                &&& (y0 <= y <= y1 || y1 <= y <= y0)
                &&& if dx >= dy {
                    -dx <= 2 * (dx * ky - dy * kx) && (2 * (dx * ky - dy * kx) < dx || dx == 0)
                } else {
                    -dy < 2 * (dx * ky - dy * kx) <= dy
                }
            }) {
                color
            } else {
                old(canvas).pixel(x, y)
            }),
{
    let (ax, ay, ex, ey) = (x0 as i64, y0 as i64, x1 as i64, y1 as i64);
    let dx: i64 = if ax <= ex { ex - ax } else { ax - ex };
    let dy: i64 = if ay <= ey { ey - ay } else { ay - ey };
    let sx: i64 = if ax < ex { 1 } else { -1 };
    let sy: i64 = if ay < ey { 1 } else { -1 };
    let mut err: i64 = dx - dy;
    let mut x: i64 = ax;
    let mut y: i64 = ay;
    let ghost path = line_path(x0 as int, y0 as int, x1 as int, y1 as int);
    let ghost mut kx: int = 0;
    let ghost mut ky: int = 0;
    let ghost mut visited: Seq<(int, int)> = Seq::empty();
    let ghost mut fuel: nat = (dx + dy) as nat;
    assert(line_state(x0 as int, y0 as int, x1 as int, y1 as int, x as int, y as int, err as int, kx, ky));
    assert(path == visited + line_path_from(
        x as int,
        y as int,
        err as int,
        x1 as int,
        y1 as int,
        dx as int,
        dy as int,
        sx as int,
        sy as int,
        fuel,
    ));
    loop
        invariant_except_break
            line_state(x0 as int, y0 as int, x1 as int, y1 as int, x as int, y as int, err as int, kx, ky),
            path == visited + line_path_from(
                x as int,
                y as int,
                err as int,
                x1 as int,
                y1 as int,
                dx as int,
                dy as int,
                sx as int,
                sy as int,
                fuel,
            ),
            fuel >= dx + dy - kx - ky,
        invariant
            0 <= dx <= 0xffff_ffff,
            0 <= dy <= 0xffff_ffff,
            ex == x1,
            ey == y1,
            dx == abs_diff(x0 as int, x1 as int),
            dy == abs_diff(y0 as int, y1 as int),
            sx == step_toward(x0 as int, x1 as int),
            sy == step_toward(y0 as int, y1 as int),
            path == line_path(x0 as int, y0 as int, x1 as int, y1 as int),
            canvas.same_shape(old(canvas)),
            canvas.wf(),
            forall|px: int, py: int|
                canvas.in_bounds(px, py) ==> #[trigger] canvas.pixel(px, py) == (if visited.contains((px, py)) {
                    color
                } else {
                    old(canvas).pixel(px, py)
                }),
        ensures
            visited == path,
        decreases fuel,
    {
        let ghost old_visited = visited;
        plot(canvas, x, y, color);
        proof {
            visited = visited.push((x as int, y as int));
            assert forall|px: int, py: int| canvas.in_bounds(px, py) implies #[trigger] canvas.pixel(px, py) == (
            if visited.contains((px, py)) {
                color
            } else {
                old(canvas).pixel(px, py)
            }) by {
                if (px, py) == (x as int, y as int) {
                    assert(visited[visited.len() - 1] == (px, py));
                } else {
                    if old_visited.contains((px, py)) {
                        let j = choose|j: int| 0 <= j < old_visited.len() && old_visited[j] == (px, py);
                        assert(visited[j] == (px, py));
                    }
                    if visited.contains((px, py)) {
                        let j = choose|j: int| 0 <= j < visited.len() && visited[j] == (px, py);
                        assert(j < old_visited.len());
                        assert(old_visited[j] == (px, py));
                    }
                }
            }
        }
        if x == ex && y == ey {
            proof {
                assert(visited =~= path);
            }
            break;
        }
        proof {
            lemma_line_step(x0 as int, y0 as int, x1 as int, y1 as int, x as int, y as int, err as int, kx, ky);
            assert(path == visited + line_path_from(
                line_step(x as int, y as int, err as int, dx as int, dy as int, sx as int, sy as int).0,
                line_step(x as int, y as int, err as int, dx as int, dy as int, sx as int, sy as int).1,
                line_step(x as int, y as int, err as int, dx as int, dy as int, sx as int, sy as int).2,
                x1 as int,
                y1 as int,
                dx as int,
                dy as int,
                sx as int,
                sy as int,
                (fuel - 1) as nat,
            ));
            fuel = (fuel - 1) as nat;
        }
        let e2 = 2 * err;
        if e2 > -dy {
            err -= dy;
            x += sx;
            proof { kx = kx + 1; }
        }
        if e2 < dx {
            err += dx;
            y += sy;
            proof { ky = ky + 1; }
        }
    }
    proof {
        lemma_line_path_closed_form(x0 as int, y0 as int, x1 as int, y1 as int);
        assert forall|x: int, y: int| canvas.in_bounds(x, y) implies line_pixels(
            x0 as int,
            y0 as int,
            x1 as int,
            y1 as int,
        ).contains((x, y)) == ({
            let dx = if x0 <= x1 { x1 - x0 } else { x0 - x1 };
            let dy = if y0 <= y1 { y1 - y0 } else { y0 - y1 };
            let kx = if x0 <= x { x - x0 } else { x0 - x };
            let ky = if y0 <= y { y - y0 } else { y0 - y };
            &&& (x0 <= x <= x1 || x1 <= x <= x0)
            &&& (y0 <= y <= y1 || y1 <= y <= y0)
            &&& if dx >= dy {
                -dx <= 2 * (dx * ky - dy * kx) && (2 * (dx * ky - dy * kx) < dx || dx == 0)
            } else {
                -dy < 2 * (dx * ky - dy * kx) <= dy
            }
        }) by {
            lemma_line_pixels_geometry(x0 as int, y0 as int, x1 as int, y1 as int, x, y);
        }
    }
}

} // verus!
