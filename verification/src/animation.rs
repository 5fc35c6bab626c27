//! The drawing animation: the lines of the picture are drawn a slice at a
//! time, each point revealing a small square of the picture on a white
//! canvas, one frame per slice.

use vstd::prelude::*;

use crate::lines::{are_image_lines, extract_lines_from_image, lines_view};
use crate::lines_laws::{lemma_lines_dark_and_distinct, lemma_lines_depend_only_on_dark_pixels, same_dark_pixels};
use crate::raster::{
    is_lines_mask_of, lemma_index_order, lemma_pixel_index, lines_mask, GrayImage, Point, RgbaImage,
};

verus! {

/// How long the drawing lasts.
pub const DURATION_IN_MS: usize = 10000;

/// Frames shown per second.
pub const FRAME_PER_SECOND: usize = 30;

/// Frames of the drawing.
pub const FRAMES: usize = DURATION_IN_MS / FRAME_PER_SECOND;

/// Frames of the fade from the drawing to the picture.
pub const FADE_IN_FRAMES: usize = FRAME_PER_SECOND;

/// Width of the canvas.
pub const IMAGE_WIDTH: u32 = 480;

/// Height of the canvas.
pub const IMAGE_HEIGHT: u32 = 800;

/// Side of the square each point reveals.
pub const CONTOUR_SIZE: u32 = 3;

/// Where the square around coordinate `v` starts: `c / 2` before it, but not
/// before 0.
pub open spec fn square_start(v: u32, c: u32) -> int {
    if v >= c / 2 {
        v - c / 2
    } else {
        0
    }
}

/// `(x, y)` lies in the square of side `c` around `p`.
pub open spec fn in_square(p: Point, c: u32, x: int, y: int) -> bool {
    &&& square_start(p.0, c) <= x < square_start(p.0, c) + c
    &&& square_start(p.1, c) <= y < square_start(p.1, c) + c
}

/// Some point among `points[lo..hi]` reveals `(x, y)`.
pub open spec fn painted(points: Seq<Point>, c: u32, lo: int, hi: int, x: int, y: int) -> bool {
    exists|t: int| lo <= t < hi && #[trigger] in_square(points[t], c, x, y)
}

/// The square around `p` stays within the coordinates a `u32` can hold.
pub open spec fn fits(p: Point, c: u32) -> bool {
    &&& square_start(p.0, c) + c <= u32::MAX + 1
    &&& square_start(p.1, c) + c <= u32::MAX + 1
}

/// Every canvas pixel that the points `points[0..hi]` reveal lies in the
/// picture, so the picture can be read wherever the drawing reveals it.
pub open spec fn reveals_within(
    original: RgbaImage,
    points: Seq<Point>,
    c: u32,
    hi: int,
    width: u32,
    height: u32,
) -> bool {
    forall|x: int, y: int|
        0 <= x < width && 0 <= y < height && #[trigger] painted(points, c, 0, hi, x, y) ==> original.contains(
            x,
            y,
        )
}

/// The value a revealed pixel takes: the picture's, except that the first
/// frame is drawn on an RGB canvas, so what it reveals is opaque.
pub open spec fn revealed(original: RgbaImage, opaque: bool, x: int, y: int, ch: int) -> u8 {
    if opaque && ch == 3 {
        255
    } else {
        original.at(x, y, ch)
    }
}

/// Channel `ch` of pixel `(x, y)` of frame `i`, when each frame reveals the
/// next `per_frame` points: white until revealed; revealed by the first frame
/// only, the picture's colour made opaque; revealed by a later frame, the
/// picture's pixel.
pub open spec fn frame_value(
    original: RgbaImage,
    points: Seq<Point>,
    c: u32,
    per_frame: int,
    i: int,
    x: int,
    y: int,
    ch: int,
) -> u8 {
    if painted(points, c, per_frame, (i + 1) * per_frame, x, y) {
        original.at(x, y, ch)
    } else if painted(points, c, 0, per_frame, x, y) {
        revealed(original, true, x, y, ch)
    } else {
        255
    }
}

/// `frames` are the `n` frames of drawing `points` on a `width` by `height`
/// canvas with squares of side `c`.
pub open spec fn is_drawing(
    original: RgbaImage,
    points: Seq<Point>,
    width: u32,
    height: u32,
    c: u32,
    n: int,
    frames: Seq<RgbaImage>,
) -> bool {
    &&& frames.len() == n
    &&& forall|k: int| 0 <= k < n ==> {
        &&& (#[trigger] frames[k]).wf()
        &&& frames[k].width == width
        &&& frames[k].height == height
        &&& forall|x: int, y: int, ch: int|
            0 <= x < width && 0 <= y < height && 0 <= ch < 4 ==> #[trigger] frames[k].at(x, y, ch)
                == frame_value(original, points, c, points.len() as int / n, k, x, y, ch)
    }
}

/// Channel `ch` of pixel `(x, y)` of a `width`-wide RGBA buffer.
pub open spec fn canvas_at(buf: Seq<u8>, width: u32, x: int, y: int, ch: int) -> u8 {
    buf[(y * width as int + x) * 4 + ch]
}

// ---------------------------------------------------------------------------
// Painting
// ---------------------------------------------------------------------------

proof fn lemma_distinct_pixels(a: int, b: int, x: int, y: int, w: int, h: int, c1: int, c2: int)
    requires
        0 <= a < w,
        0 <= x < w,
        0 <= b < h,
        0 <= y < h,
        0 <= c1 < 4,
        0 <= c2 < 4,
        a != x || b != y,
    ensures
        (b * w + a) * 4 + c1 != (y * w + x) * 4 + c2,
        (b * w + a) * 4 + c1 < (y * w + x) * 4 || (y * w + x) * 4 + 4 <= (b * w + a) * 4 + c1,
{
    if b < y || (b == y && a < x) {
        lemma_index_order(a, b, x, y, w);
    } else {
        lemma_index_order(x, y, a, b, w);
    }
}

fn paint_pixel(
    canvas: &mut Vec<u8>,
    width: u32,
    height: u32,
    original: &RgbaImage,
    x: u32,
    y: u32,
    opaque: bool,
)
    requires
        old(canvas)@.len() == width as int * height as int * 4,
        x < width,
        y < height,
        original.wf(),
        original.contains(x as int, y as int),
    ensures
        final(canvas)@.len() == old(canvas)@.len(),
        forall|a: int, b: int, ch: int|
            0 <= a < width && 0 <= b < height && 0 <= ch < 4 ==> #[trigger] canvas_at(final(canvas)@, width, a, b, ch)
                == if a == x && b == y {
                revealed(*original, opaque, a, b, ch)
            } else {
                canvas_at(old(canvas)@, width, a, b, ch)
            },
{
    let ghost old_buf = canvas@;
    let len = canvas.len();
    proof {
        lemma_pixel_index(x as int, y as int, width as int, height as int);
    }
    let base: usize = (y as usize * width as usize + x as usize) * 4;
    let mut ch: usize = 0;
    while ch < 4
        invariant
            canvas@.len() == old_buf.len(),
            old_buf.len() == width as int * height as int * 4,
            base == (y as int * width as int + x as int) * 4,
            base + 4 <= old_buf.len(),
            x < width,
            y < height,
            original.wf(),
            original.contains(x as int, y as int),
            ch <= 4,
            forall|k: int|
                0 <= k < canvas@.len() ==> #[trigger] canvas@[k] == if base <= k < base + ch {
                    revealed(*original, opaque, x as int, y as int, k - base)
                } else {
                    old_buf[k]
                },
        decreases 4 - ch,
    {
        let v: u8 = if opaque && ch == 3 {
            255
        } else {
            original.get(x, y, ch)
        };
        canvas[base + ch] = v;
        ch += 1;
    }
    proof {
        assert forall|a: int, b: int, c: int|
            0 <= a < width && 0 <= b < height && 0 <= c < 4 implies #[trigger] canvas_at(canvas@, width, a, b, c)
                == if a == x && b == y {
                revealed(*original, opaque, a, b, c)
            } else {
                canvas_at(old_buf, width, a, b, c)
            } by {
            lemma_pixel_index(a, b, width as int, height as int);
            if a != x || b != y {
                lemma_distinct_pixels(a, b, x as int, y as int, width as int, height as int, c, 0);
            }
        }
    }
}

/// `(a, b)` lies in the part of the square around `p` painted once columns
/// before `i`, and rows before `j` of column `i`, are done.
spec fn partly_painted(p: Point, c: u32, i: int, j: int, a: int, b: int) -> bool {
    let sx = square_start(p.0, c);
    let sy = square_start(p.1, c);
    &&& sx <= a
    &&& sy <= b < sy + c
    &&& (a - sx < i || (a - sx == i && b - sy < j))
}

fn paint_square(
    canvas: &mut Vec<u8>,
    width: u32,
    height: u32,
    original: &RgbaImage,
    p: Point,
    c: u32,
    opaque: bool,
)
    requires
        old(canvas)@.len() == width as int * height as int * 4,
        original.wf(),
        forall|a: int, b: int|
            0 <= a < width && 0 <= b < height && #[trigger] in_square(p, c, a, b) ==> original.contains(a, b),
        fits(p, c),
    ensures
        final(canvas)@.len() == old(canvas)@.len(),
        forall|a: int, b: int, ch: int|
            0 <= a < width && 0 <= b < height && 0 <= ch < 4 ==> #[trigger] canvas_at(final(canvas)@, width, a, b, ch)
                == if in_square(p, c, a, b) {
                revealed(*original, opaque, a, b, ch)
            } else {
                canvas_at(old(canvas)@, width, a, b, ch)
            },
{
    let ghost old_buf = canvas@;
    let half = c / 2;
    let sx: u32 = if p.0 >= half { p.0 - half } else { 0 };
    let sy: u32 = if p.1 >= half { p.1 - half } else { 0 };
    assert(sx == square_start(p.0, c) && sy == square_start(p.1, c));
    let mut i: u32 = 0;
    while i < c
        invariant
            canvas@.len() == old_buf.len(),
            old_buf.len() == width as int * height as int * 4,
            original.wf(),
            forall|a: int, b: int|
                0 <= a < width && 0 <= b < height && #[trigger] in_square(p, c, a, b) ==> original.contains(a, b),
            fits(p, c),
            sx == square_start(p.0, c),
            sy == square_start(p.1, c),
            i <= c,
            forall|a: int, b: int, ch: int|
                0 <= a < width && 0 <= b < height && 0 <= ch < 4 ==> #[trigger] canvas_at(canvas@, width, a, b, ch)
                    == if partly_painted(p, c, i as int, 0, a, b) {
                    revealed(*original, opaque, a, b, ch)
                } else {
                    canvas_at(old_buf, width, a, b, ch)
                },
        decreases c - i,
    {
        let mut j: u32 = 0;
        while j < c
            invariant
                canvas@.len() == old_buf.len(),
                old_buf.len() == width as int * height as int * 4,
                original.wf(),
                forall|a: int, b: int|
                    0 <= a < width && 0 <= b < height && #[trigger] in_square(p, c, a, b) ==> original.contains(a, b),
                fits(p, c),
                sx == square_start(p.0, c),
                sy == square_start(p.1, c),
                i < c,
                j <= c,
                forall|a: int, b: int, ch: int|
                    0 <= a < width && 0 <= b < height && 0 <= ch < 4 ==> #[trigger] canvas_at(canvas@, width, a, b, ch)
                        == if partly_painted(p, c, i as int, j as int, a, b) {
                        revealed(*original, opaque, a, b, ch)
                    } else {
                        canvas_at(old_buf, width, a, b, ch)
                    },
            decreases c - j,
        {
            let current_x = sx + i;
            let current_y = sy + j;
            if current_x < width && current_y < height {
                assert(in_square(p, c, current_x as int, current_y as int));
                paint_pixel(canvas, width, height, original, current_x, current_y, opaque);
            }
            j += 1;
        }
        i += 1;
    }
}

proof fn lemma_painted_split(points: Seq<Point>, c: u32, lo: int, mid: int, hi: int, x: int, y: int)
    requires
        lo <= mid <= hi,
    ensures
        painted(points, c, lo, hi, x, y) == (painted(points, c, lo, mid, x, y) || painted(
            points,
            c,
            mid,
            hi,
            x,
            y,
        )),
{
    if painted(points, c, lo, hi, x, y) {
        let t = choose|t: int| lo <= t < hi && #[trigger] in_square(points[t], c, x, y);
        if t < mid {
            assert(lo <= t < mid && in_square(points[t], c, x, y));
        } else {
            assert(mid <= t < hi && in_square(points[t], c, x, y));
        }
    }
    if painted(points, c, lo, mid, x, y) {
        let t = choose|t: int| lo <= t < mid && #[trigger] in_square(points[t], c, x, y);
        assert(lo <= t < hi && in_square(points[t], c, x, y));
    }
    if painted(points, c, mid, hi, x, y) {
        let t = choose|t: int| mid <= t < hi && #[trigger] in_square(points[t], c, x, y);
        assert(lo <= t < hi && in_square(points[t], c, x, y));
    }
}

fn paint_points(
    canvas: &mut Vec<u8>,
    width: u32,
    height: u32,
    original: &RgbaImage,
    points: &Vec<Point>,
    lo: usize,
    hi: usize,
    c: u32,
    opaque: bool,
)
    requires
        old(canvas)@.len() == width as int * height as int * 4,
        original.wf(),
        forall|t: int, a: int, b: int|
            lo <= t < hi && 0 <= a < width && 0 <= b < height && #[trigger] in_square(points@[t], c, a, b)
                ==> original.contains(a, b),
        lo <= hi <= points@.len(),
        forall|t: int| 0 <= t < points@.len() ==> fits(#[trigger] points@[t], c),
    ensures
        final(canvas)@.len() == old(canvas)@.len(),
        forall|a: int, b: int, ch: int|
            0 <= a < width && 0 <= b < height && 0 <= ch < 4 ==> #[trigger] canvas_at(final(canvas)@, width, a, b, ch)
                == if painted(points@, c, lo as int, hi as int, a, b) {
                revealed(*original, opaque, a, b, ch)
            } else {
                canvas_at(old(canvas)@, width, a, b, ch)
            },
{
    let ghost old_buf = canvas@;
    let mut t = lo;
    while t < hi
        invariant
            canvas@.len() == old_buf.len(),
            old_buf.len() == width as int * height as int * 4,
            original.wf(),
            forall|k: int, a: int, b: int|
                lo <= k < hi && 0 <= a < width && 0 <= b < height && #[trigger] in_square(points@[k], c, a, b)
                    ==> original.contains(a, b),
            lo <= t <= hi <= points@.len(),
            forall|k: int| 0 <= k < points@.len() ==> fits(#[trigger] points@[k], c),
            forall|a: int, b: int, ch: int|
                0 <= a < width && 0 <= b < height && 0 <= ch < 4 ==> #[trigger] canvas_at(canvas@, width, a, b, ch)
                    == if painted(points@, c, lo as int, t as int, a, b) {
                    revealed(*original, opaque, a, b, ch)
                } else {
                    canvas_at(old_buf, width, a, b, ch)
                },
        decreases hi - t,
    {
        let ghost before = canvas@;
        assert forall|a: int, b: int|
            0 <= a < width && 0 <= b < height && #[trigger] in_square(points@[t as int], c, a, b) implies original.contains(a, b) by {
            assert(lo <= t < hi);
        }
        paint_square(canvas, width, height, original, points[t], c, opaque);
        proof {
            assert forall|a: int, b: int, ch: int|
                0 <= a < width && 0 <= b < height && 0 <= ch < 4 implies #[trigger] canvas_at(canvas@, width, a, b, ch)
                    == if painted(points@, c, lo as int, t + 1, a, b) {
                    revealed(*original, opaque, a, b, ch)
                } else {
                    canvas_at(old_buf, width, a, b, ch)
                } by {
                lemma_painted_split(points@, c, lo as int, t as int, t + 1, a, b);
                if painted(points@, c, t as int, t + 1, a, b) {
                    let s = choose|s: int| t <= s < t + 1 && #[trigger] in_square(points@[s], c, a, b);
                    assert(s == t);
                } else {
                    assert(!in_square(points@[t as int], c, a, b));
                }
            }
        }
        t += 1;
    }
}

fn white_canvas(width: u32, height: u32, n: usize) -> (buf: Vec<u8>)
    requires
        n == width as int * height as int * 4,
    ensures
        buf@.len() == n,
        forall|k: int| 0 <= k < n ==> #[trigger] buf@[k] == 255,
{
    let mut buf: Vec<u8> = Vec::new();
    let mut k: usize = 0;
    while k < n
        invariant
            k <= n,
            buf@.len() == k,
            forall|i: int| 0 <= i < k ==> #[trigger] buf@[i] == 255,
        decreases n - k,
    {
        buf.push(255);
        k += 1;
    }
    buf
}

fn copy_pixels(src: &Vec<u8>) -> (buf: Vec<u8>)
    ensures
        buf@ == src@,
{
    let mut buf: Vec<u8> = Vec::new();
    let mut k: usize = 0;
    while k < src.len()
        invariant
            k <= src@.len(),
            buf@ == src@.take(k as int),
        decreases src@.len() - k,
    {
        buf.push(src[k]);
        k += 1;
        assert(buf@ =~= src@.take(k as int));
    }
    assert(src@.take(src@.len() as int) =~= src@);
    buf
}

// ---------------------------------------------------------------------------
// The frames
// ---------------------------------------------------------------------------

/// Draws `points` in `frame_count` frames on a `width` by `height` canvas:
/// each frame copies the previous one (the first starts white) and reveals
/// the next `points.len() / frame_count` points, each as the square of side
/// `c` around it, taking the pixels from `original`.
pub fn draw_line_frames(
    original: &RgbaImage,
    points: &Vec<Point>,
    width: u32,
    height: u32,
    c: u32,
    frame_count: usize,
) -> (frames: Vec<RgbaImage>)
    requires
        original.wf(),
        width as int * height as int * 4 <= usize::MAX,
        frame_count >= 1,
        reveals_within(*original, points@, c, frame_count as int * (points@.len() as int / frame_count as int), width, height),
        forall|t: int| 0 <= t < points@.len() ==> fits(#[trigger] points@[t], c),
    ensures
        is_drawing(*original, points@, width, height, c, frame_count as int, frames@),
{
    let per_frame = points.len() / frame_count;
    let ghost pf = per_frame as int;
    let ghost orig = *original;
    proof {
        assert(frame_count as int * pf <= points@.len()) by (nonlinear_arith)
            requires
                pf == points@.len() as int / frame_count as int,
                frame_count >= 1,
        ;
    }
    let n: usize = (width as usize * height as usize) * 4;
    let mut frames: Vec<RgbaImage> = Vec::new();
    let mut i: usize = 0;
    while i < frame_count
        invariant
            orig == *original,
            original.wf(),
            reveals_within(orig, points@, c, frame_count * pf, width, height),
            n == width as int * height as int * 4,
            pf == per_frame,
            per_frame == points@.len() as int / frame_count as int,
            frame_count as int * pf <= points@.len(),
            points@.len() <= usize::MAX,
            forall|t: int| 0 <= t < points@.len() ==> fits(#[trigger] points@[t], c),
            i <= frame_count,
            frames@.len() == i,
            forall|k: int| 0 <= k < i ==> {
                &&& (#[trigger] frames@[k]).wf()
                &&& frames@[k].width == width
                &&& frames@[k].height == height
                &&& forall|x: int, y: int, ch: int|
                    0 <= x < width && 0 <= y < height && 0 <= ch < 4 ==> #[trigger] frames@[k].at(x, y, ch)
                        == frame_value(orig, points@, c, pf, k, x, y, ch)
            },
        decreases frame_count - i,
    {
        proof {
            assert((i as int + 1) * pf <= frame_count as int * pf) by (nonlinear_arith)
                requires
                    i < frame_count,
                    0 <= pf,
            ;
            assert(i as int * pf <= (i as int + 1) * pf) by (nonlinear_arith)
                requires
                    0 <= pf,
            ;
            assert(i >= 1 ==> pf <= i as int * pf) by (nonlinear_arith)
                requires
                    0 <= pf,
            ;
        }
        let start = i * per_frame;
        let end = (i + 1) * per_frame;
        let mut canvas = if i == 0 {
            white_canvas(width, height, n)
        } else {
            copy_pixels(&frames[i - 1].pixels)
        };
        let ghost base = canvas@;
        assert forall|t: int, a: int, b: int|
            start <= t < end && 0 <= a < width && 0 <= b < height && #[trigger] in_square(points@[t], c, a, b)
                implies original.contains(a, b) by {
            assert(0 <= t < frame_count * pf && in_square(points@[t], c, a, b));
            assert(painted(points@, c, 0, frame_count * pf, a, b));
        }
        paint_points(&mut canvas, width, height, original, points, start, end, c, i == 0);
        let frame = RgbaImage { width, height, pixels: canvas };
        proof {
            assert forall|x: int, y: int, ch: int|
                0 <= x < width && 0 <= y < height && 0 <= ch < 4 implies #[trigger] frame.at(x, y, ch)
                    == frame_value(orig, points@, c, pf, i as int, x, y, ch) by {
                assert(frame.at(x, y, ch) == canvas_at(frame.pixels@, width, x, y, ch));
                lemma_pixel_index(x, y, width as int, height as int);
                if i == 0 {
                    assert(base[(y * width as int + x) * 4 + ch] == 255);
                    assert(!painted(points@, c, pf, pf, x, y));
                    assert((i as int + 1) * pf == pf) by (nonlinear_arith)
                        requires
                            i == 0,
                    ;
                } else {
                    let prev = frames@[i - 1];
                    assert(canvas_at(base, width, x, y, ch) == prev.at(x, y, ch));
                    assert(prev.at(x, y, ch) == frame_value(orig, points@, c, pf, i - 1, x, y, ch));
                    assert((i as int - 1 + 1) * pf == i as int * pf);
                    lemma_painted_split(points@, c, pf, i as int * pf, (i as int + 1) * pf, x, y);
                }
            }
        }
        frames.push(frame);
        proof {
            assert forall|k: int| 0 <= k < i + 1 implies {
                &&& (#[trigger] frames@[k]).wf()
                &&& frames@[k].width == width
                &&& frames@[k].height == height
                &&& forall|x: int, y: int, ch: int|
                    0 <= x < width && 0 <= y < height && 0 <= ch < 4 ==> #[trigger] frames@[k].at(x, y, ch)
                        == frame_value(orig, points@, c, pf, k, x, y, ch)
            } by {
                if k == i {
                    assert(frames@[k] == frame);
                }
            }
        }
        i += 1;
    }
    frames
}

// ---------------------------------------------------------------------------
// From the edge detection to the frames
// ---------------------------------------------------------------------------

/// Joins the lines, in order, into one sequence of points.
pub fn flatten_lines(lines: &Vec<Vec<Point>>) -> (points: Vec<Point>)
    ensures
        points@ == lines_view(lines@).flatten(),
{
    let mut points: Vec<Point> = Vec::new();
    let mut k: usize = 0;
    while k < lines.len()
        invariant
            k <= lines@.len(),
            points@ == lines_view(lines@).take(k as int).flatten(),
        decreases lines@.len() - k,
    {
        let line = &lines[k];
        let ghost before = points@;
        let mut i: usize = 0;
        while i < line.len()
            invariant
                i <= line@.len(),
                points@ == before + line@.take(i as int),
            decreases line@.len() - i,
        {
            points.push(line[i]);
            i += 1;
            assert(points@ =~= before + line@.take(i as int));
        }
        proof {
            let lv = lines_view(lines@);
            assert(line@.take(line@.len() as int) =~= line@);
            assert(lv.take(k as int + 1) =~= lv.take(k as int).push(lv[k as int]));
            lv.take(k as int).lemma_flatten_push(lv[k as int]);
        }
        k += 1;
    }
    proof {
        assert(lines_view(lines@).take(lines@.len() as int) =~= lines_view(lines@));
    }
    points
}

/// Every point of the joined lines is a point of one of the lines.
proof fn lemma_flatten_point(lines: Seq<Seq<Point>>, t: int) -> (ki: (int, int))
    requires
        0 <= t < lines.flatten().len(),
    ensures
        0 <= ki.0 < lines.len(),
        0 <= ki.1 < lines[ki.0].len(),
        lines[ki.0][ki.1] == lines.flatten()[t],
    decreases lines.len(),
{
    if lines.len() == 0 {
        assert(lines.flatten().len() == 0);
        (0, 0)
    } else {
        let first = lines.first();
        let rest = lines.drop_first();
        assert(lines.flatten() == first + rest.flatten());
        if t < first.len() {
            (0, t)
        } else {
            let (k, i) = lemma_flatten_point(rest, t - first.len());
            assert(rest[k] == lines[k + 1]);
            (k + 1, i)
        }
    }
}

/// `frames` draw the lines that `detection` marks onto the canvas, revealing
/// `original`: the lines of the edge mask of `detection`, longest first,
/// joined, drawn in `FRAMES` frames with squares of side `CONTOUR_SIZE` on an
/// `IMAGE_WIDTH` by `IMAGE_HEIGHT` canvas.
pub open spec fn is_line_drawing_of(original: RgbaImage, detection: RgbaImage, frames: Seq<RgbaImage>) -> bool {
    exists|mask: GrayImage, lines: Seq<Seq<Point>>|
        is_lines_mask_of(detection, mask) && are_image_lines(mask, lines) && is_drawing(
            original,
            lines.flatten(),
            IMAGE_WIDTH,
            IMAGE_HEIGHT,
            CONTOUR_SIZE,
            FRAMES as int,
            frames,
        )
}

/// The points the animation draws for `detection`: the lines of its edge
/// mask, longest first, joined.
pub open spec fn drawing_points(detection: RgbaImage) -> Seq<Point> {
    let found = choose|mask: GrayImage, lines: Seq<Seq<Point>>|
        is_lines_mask_of(detection, mask) && #[trigger] are_image_lines(mask, lines);
    found.1.flatten()
}

/// How many of the drawing points the `FRAMES` frames draw: the same number
/// in each frame, the remainder left out.
pub open spec fn drawn_count(points: Seq<Point>) -> int {
    FRAMES as int * (points.len() as int / FRAMES as int)
}

/// The drawing of `detection` reads the picture only inside it.
pub open spec fn drawing_stays_in(original: RgbaImage, detection: RgbaImage) -> bool {
    let points = drawing_points(detection);
    reveals_within(original, points, CONTOUR_SIZE, drawn_count(points), IMAGE_WIDTH, IMAGE_HEIGHT)
}

proof fn lemma_drawing_points(detection: RgbaImage, mask: GrayImage, lines: Seq<Seq<Point>>)
    requires
        is_lines_mask_of(detection, mask),
        are_image_lines(mask, lines),
    ensures
        drawing_points(detection) == lines.flatten(),
{
    let found = choose|m: GrayImage, l: Seq<Seq<Point>>|
        is_lines_mask_of(detection, m) && #[trigger] are_image_lines(m, l);
    assert(is_lines_mask_of(detection, mask) && are_image_lines(mask, lines));
    let m = found.0;
    assert forall|x: int, y: int| m.contains(x, y) implies (m.at(x, y) == 0) == (mask.at(x, y) == 0) by {
        assert(detection.contains(x, y));
    }
    assert(same_dark_pixels(m, mask));
    lemma_lines_depend_only_on_dark_pixels(m, mask, found.1, lines);
}

/// The joined lines of `detection`'s edge mask, the points the animation
/// draws, each of whose squares stays within `u32` coordinates.
fn detection_points(detection: &RgbaImage) -> (points: Vec<Point>)
    requires
        detection.wf(),
    ensures
        points@ == drawing_points(*detection),
        forall|t: int| 0 <= t < points@.len() ==> fits(#[trigger] points@[t], CONTOUR_SIZE),
{
    let mask = lines_mask(detection);
    let lines = extract_lines_from_image(&mask);
    let points = flatten_lines(&lines);
    proof {
        let lv = lines_view(lines@);
        lemma_lines_dark_and_distinct(mask, lv);
        assert forall|t: int| 0 <= t < points@.len() implies fits(#[trigger] points@[t], CONTOUR_SIZE) by {
            let (k, i) = lemma_flatten_point(lv, t);
            assert(crate::lines::is_dark_point(mask, lv[k][i]));
        }
        lemma_drawing_points(*detection, mask, lv);
    }
    points
}

/// Whether the drawing of `detection` reads the picture only inside it: the
/// drawing reads the picture wherever a square reveals the canvas, and
/// reading outside the picture fails.
pub fn drawing_stays_in_picture(original: &RgbaImage, detection: &RgbaImage) -> (ok: bool)
    requires
        original.wf(),
        detection.wf(),
    ensures
        ok == drawing_stays_in(*original, *detection),
{
    let points = detection_points(detection);
    let per_frame = points.len() / FRAMES;
    let hi = FRAMES * per_frame;
    let c = CONTOUR_SIZE;
    let half = c / 2;
    let mut t: usize = 0;
    while t < hi
        invariant
            points@ == drawing_points(*detection),
            hi == drawn_count(points@),
            hi <= points@.len(),
            t <= hi,
            c == CONTOUR_SIZE,
            half == c / 2,
            forall|k: int| 0 <= k < points@.len() ==> fits(#[trigger] points@[k], CONTOUR_SIZE),
            forall|k: int, a: int, b: int|
                0 <= k < t && 0 <= a < IMAGE_WIDTH && 0 <= b < IMAGE_HEIGHT && #[trigger] in_square(
                    points@[k],
                    c,
                    a,
                    b,
                ) ==> original.contains(a, b),
        decreases hi - t,
    {
        let p = points[t];
        let sx: u64 = if p.0 >= half { (p.0 - half) as u64 } else { 0 };
        let sy: u64 = if p.1 >= half { (p.1 - half) as u64 } else { 0 };
        let ex: u64 = if sx + (c as u64) < IMAGE_WIDTH as u64 { sx + c as u64 } else { IMAGE_WIDTH as u64 };
        let ey: u64 = if sy + (c as u64) < IMAGE_HEIGHT as u64 { sy + c as u64 } else { IMAGE_HEIGHT as u64 };
        if sx < ex && sy < ey && (ex > original.width as u64 || ey > original.height as u64) {
            proof {
                let (a, b) = if ex > original.width as u64 { (ex - 1, sy as int) } else { (sx as int, ey - 1) };
                assert(sx == square_start(p.0, c) && sy == square_start(p.1, c));
                assert(in_square(points@[t as int], c, a, b));
                assert(painted(points@, c, 0, hi as int, a, b));
                assert(0 <= a < IMAGE_WIDTH && 0 <= b < IMAGE_HEIGHT && !original.contains(a, b));
                assert(!reveals_within(*original, points@, c, hi as int, IMAGE_WIDTH, IMAGE_HEIGHT));
            }
            return false;
        }
        t += 1;
    }
    proof {
        assert forall|x: int, y: int|
            0 <= x < IMAGE_WIDTH && 0 <= y < IMAGE_HEIGHT && #[trigger] painted(points@, c, 0, hi as int, x, y)
                implies original.contains(x, y) by {
            let k = choose|k: int| 0 <= k < hi && #[trigger] in_square(points@[k], c, x, y);
        }
    }
    true
}

/// The frames of the drawing animation: marks the edges of `detection`,
/// traces their lines, joins them longest first and draws them slice by
/// slice, revealing `original`. The picture must hold every canvas pixel that
/// the drawing reveals (`drawing_stays_in_picture` tells).
pub fn line_drawing_frames(original: &RgbaImage, detection: &RgbaImage) -> (frames: Vec<RgbaImage>)
    requires
        original.wf(),
        detection.wf(),
        drawing_stays_in(*original, *detection),
    ensures
        is_line_drawing_of(*original, *detection, frames@),
{
    let mask = lines_mask(detection);
    let lines = extract_lines_from_image(&mask);
    let points = flatten_lines(&lines);
    proof {
        let lv = lines_view(lines@);
        lemma_lines_dark_and_distinct(mask, lv);
        assert forall|t: int| 0 <= t < points@.len() implies fits(#[trigger] points@[t], CONTOUR_SIZE) by {
            let (k, i) = lemma_flatten_point(lv, t);
            assert(crate::lines::is_dark_point(mask, lv[k][i]));
        }
        lemma_drawing_points(*detection, mask, lv);
    }
    let frames = draw_line_frames(original, &points, IMAGE_WIDTH, IMAGE_HEIGHT, CONTOUR_SIZE, FRAMES);
    proof {
        let lv = lines_view(lines@);
        assert(is_lines_mask_of(*detection, mask) && are_image_lines(mask, lv) && is_drawing(
            *original,
            lv.flatten(),
            IMAGE_WIDTH,
            IMAGE_HEIGHT,
            CONTOUR_SIZE,
            FRAMES as int,
            frames@,
        ));
    }
    frames
}

// ---------------------------------------------------------------------------
// Laws of the drawing
// ---------------------------------------------------------------------------

/// A pixel that some frame has revealed shows the picture's colour in that
/// frame and in every later one: the drawing only ever adds to itself.
pub proof fn lemma_drawing_keeps_revealed(
    original: RgbaImage,
    points: Seq<Point>,
    width: u32,
    height: u32,
    c: u32,
    n: int,
    frames: Seq<RgbaImage>,
    j: int,
    k: int,
    x: int,
    y: int,
    ch: int,
)
    requires
        is_drawing(original, points, width, height, c, n, frames),
        0 <= j <= k < n,
        0 <= x < width,
        0 <= y < height,
        0 <= ch < 3,
        painted(points, c, 0, (j + 1) * (points.len() as int / n), x, y),
    ensures
        frames[k].at(x, y, ch) == original.at(x, y, ch),
{
    let pf = points.len() as int / n;
    assert(0 <= pf) by (nonlinear_arith)
        requires
            n >= 1,
            pf == points.len() as int / n,
    ;
    assert(pf <= (j + 1) * pf <= (k + 1) * pf) by (nonlinear_arith)
        requires
            0 <= pf,
            0 <= j <= k,
    ;
    lemma_painted_split(points, c, 0, (j + 1) * pf, (k + 1) * pf, x, y);
    lemma_painted_split(points, c, 0, pf, (k + 1) * pf, x, y);
    assert(frames[k].at(x, y, ch) == frame_value(original, points, c, pf, k, x, y, ch));
}

/// A pixel that no frame up to `k` has revealed is still white in frame `k`.
pub proof fn lemma_drawing_white_until_revealed(
    original: RgbaImage,
    points: Seq<Point>,
    width: u32,
    height: u32,
    c: u32,
    n: int,
    frames: Seq<RgbaImage>,
    k: int,
    x: int,
    y: int,
    ch: int,
)
    requires
        is_drawing(original, points, width, height, c, n, frames),
        0 <= k < n,
        0 <= x < width,
        0 <= y < height,
        0 <= ch < 4,
        !painted(points, c, 0, (k + 1) * (points.len() as int / n), x, y),
    ensures
        frames[k].at(x, y, ch) == 255,
{
    let pf = points.len() as int / n;
    assert(0 <= pf) by (nonlinear_arith)
        requires
            n >= 1,
            pf == points.len() as int / n,
    ;
    assert(pf <= (k + 1) * pf) by (nonlinear_arith)
        requires
            0 <= pf,
            0 <= k,
    ;
    lemma_painted_split(points, c, 0, pf, (k + 1) * pf, x, y);
    assert(frames[k].at(x, y, ch) == frame_value(original, points, c, pf, k, x, y, ch));
}

} // verus!
