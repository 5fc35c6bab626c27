//! Tracing the lines of an edge mask.
//!
//! A line is a set of dark (value 0) pixels that touch each other through any
//! of the eight neighbouring positions. The image is scanned row by row; every
//! dark pixel that no earlier line holds starts a new line, which is traced
//! depth first, trying the neighbours in a fixed order. The lines are then
//! ordered longest first, keeping the scan order among lines of equal length.

use std::collections::HashSet;
use vstd::prelude::*;

use crate::raster::{GrayImage, Point};

verus! {

// ---------------------------------------------------------------------------
// The model
// ---------------------------------------------------------------------------

/// Column offset of the `d`-th neighbour, in the order the tracer tries them:
/// (0, 1), (1, 1), (1, 0), (1, -1), (0, -1), (-1, -1), (-1, 0), (-1, 1).
pub open spec fn dir_dx(d: int) -> int {
    if d == 0 {
        0
    } else if d == 1 || d == 2 || d == 3 {
        1
    } else if d == 4 {
        0
    } else {
        -1
    }
}

/// Row offset of the `d`-th neighbour (see `dir_dx`).
pub open spec fn dir_dy(d: int) -> int {
    if d == 0 || d == 1 || d == 7 {
        1
    } else if d == 2 || d == 6 {
        0
    } else {
        -1
    }
}

/// The `d`-th neighbour of `p`.
pub open spec fn step(p: Point, d: int) -> Point {
    ((p.0 + dir_dx(d)) as u32, (p.1 + dir_dy(d)) as u32)
}

/// `(x, y)` lies in the image and its value is 0.
pub open spec fn is_dark(img: GrayImage, x: int, y: int) -> bool {
    img.contains(x, y) && img.at(x, y) == 0
}

pub open spec fn is_dark_point(img: GrayImage, p: Point) -> bool {
    is_dark(img, p.0 as int, p.1 as int)
}

/// `(x, y)` is dark and not yet taken.
pub open spec fn is_fresh(img: GrayImage, seen: Set<Point>, x: int, y: int) -> bool {
    is_dark(img, x, y) && !seen.contains((x as u32, y as u32))
}

/// The first direction `d' >= d` whose neighbour of `p` is fresh; 8 when none is.
pub open spec fn first_fresh_dir(img: GrayImage, seen: Set<Point>, p: Point, d: int) -> int
    decreases 8 - d,
{
    if d >= 8 {
        8
    } else if is_fresh(img, seen, p.0 + dir_dx(d), p.1 + dir_dy(d)) {
        d
    } else {
        first_fresh_dir(img, seen, p, d + 1)
    }
}

/// No neighbour of `p` is fresh.
pub open spec fn is_closed(img: GrayImage, seen: Set<Point>, p: Point) -> bool {
    first_fresh_dir(img, seen, p, 0) >= 8
}

/// The largest index `j < i` whose point of `line` still has a fresh
/// neighbour; -1 when there is none.
pub open spec fn latest_open(img: GrayImage, seen: Set<Point>, line: Seq<Point>, i: int) -> int
    decreases i,
{
    if i <= 0 {
        -1
    } else if !is_closed(img, seen, line[i - 1]) {
        i - 1
    } else {
        latest_open(img, seen, line, i - 1)
    }
}

/// `p` is one of the first `i` points of `line`.
pub open spec fn in_prefix(line: Seq<Point>, i: int, p: Point) -> bool {
    exists|k: int| 0 <= k < i && line[k] == p
}

/// The points taken once the first `i` points of `line` are traced.
pub open spec fn seen_after(before: Set<Point>, line: Seq<Point>, i: int) -> Set<Point> {
    Set::new(|p: Point| before.contains(p) || in_prefix(line, i, p))
}

/// `line[i]` is the first fresh neighbour of the most recent point of the
/// line that still has one.
pub open spec fn continues_at(img: GrayImage, before: Set<Point>, line: Seq<Point>, i: int) -> bool {
    let seen = seen_after(before, line, i);
    let j = latest_open(img, seen, line, i);
    &&& 0 <= j
    &&& line[i] == step(line[j], first_fresh_dir(img, seen, line[j], 0))
}

/// `line[k]` continues the trace from one of the points at index `from` or
/// later: the latest point before it that still has a fresh neighbour lies
/// there.
pub open spec fn continues_within(img: GrayImage, before: Set<Point>, line: Seq<Point>, k: int, from: int) -> bool {
    latest_open(img, seen_after(before, line, k), line, k) >= from
}

/// `line` is the depth-first trace that starts at `line[0]` when the points
/// of `before` are already taken: each later point continues the trace, and
/// the trace stops only when no point of it has a fresh neighbour.
pub open spec fn is_trace(img: GrayImage, before: Set<Point>, line: Seq<Point>) -> bool {
    &&& line.len() >= 1
    &&& forall|i: int| 1 <= i < line.len() ==> #[trigger] continues_at(img, before, line, i)
    &&& latest_open(img, seen_after(before, line, line.len() as int), line, line.len() as int) < 0
}

/// `a` comes before `b` when the image is read row by row.
pub open spec fn scan_before(a: Point, b: Point) -> bool {
    a.1 < b.1 || (a.1 == b.1 && a.0 < b.0)
}

/// The points of the first `k` lines.
pub open spec fn lines_points(lines: Seq<Seq<Point>>, k: int) -> Set<Point> {
    Set::new(|p: Point| exists|j: int, i: int| 0 <= j < k && 0 <= i < lines[j].len() && lines[j][i] == p)
}

/// Line `k` starts at the first dark pixel, in reading order, that no earlier
/// line holds, and is its trace.
pub open spec fn is_scan_line(img: GrayImage, lines: Seq<Seq<Point>>, k: int) -> bool {
    let before = lines_points(lines, k);
    &&& is_trace(img, before, lines[k])
    &&& is_fresh(img, before, lines[k][0].0 as int, lines[k][0].1 as int)
    &&& forall|p: Point| #[trigger] is_dark_point(img, p) && scan_before(p, lines[k][0]) ==> before.contains(p)
}

/// `lines` are the traces of the image, in the order the scan starts them,
/// and together they hold every dark pixel.
pub open spec fn is_line_scan(img: GrayImage, lines: Seq<Seq<Point>>) -> bool {
    &&& forall|k: int| 0 <= k < lines.len() ==> #[trigger] is_scan_line(img, lines, k)
    &&& forall|p: Point| #[trigger] is_dark_point(img, p) ==> lines_points(lines, lines.len() as int).contains(p)
}

/// The plain view of a vector of lines.
pub open spec fn lines_view(lines: Seq<Vec<Point>>) -> Seq<Seq<Point>> {
    lines.map_values(|l: Vec<Point>| l@)
}

// ---------------------------------------------------------------------------
// Keys of the set of taken pixels
// ---------------------------------------------------------------------------

/// The key under which a pixel is recorded as taken.
pub open spec fn point_key(p: Point) -> u64 {
    (p.1 as int * 4294967296 + p.0 as int) as u64
}

/// `keys` records exactly the points of `pts`.
pub open spec fn keys_match(keys: Set<u64>, pts: Set<Point>) -> bool {
    forall|p: Point|
        #![trigger pts.contains(p)]
        #![trigger keys.contains(point_key(p))]
        pts.contains(p) <==> keys.contains(point_key(p))
}

fn key_of(x: u32, y: u32) -> (k: u64)
    ensures
        k == point_key((x, y)),
{
    y as u64 * 4294967296u64 + x as u64
}

proof fn lemma_point_key_injective(p: Point, q: Point)
    requires
        point_key(p) == point_key(q),
    ensures
        p == q,
{
    assert(p.1 as int * 4294967296 + p.0 as int <= u64::MAX);
    assert(q.1 as int * 4294967296 + q.0 as int <= u64::MAX);
}

// ---------------------------------------------------------------------------
// How many dark pixels are not taken yet (the measure of the trace)
// ---------------------------------------------------------------------------

spec fn fresh_key(img: GrayImage, keys: Set<u64>, x: int, y: int) -> bool {
    is_dark(img, x, y) && !keys.contains(point_key((x as u32, y as u32)))
}

spec fn row_unvisited(img: GrayImage, keys: Set<u64>, y: int, n: int) -> nat
    decreases n,
{
    if n <= 0 {
        0
    } else {
        row_unvisited(img, keys, y, n - 1) + (if fresh_key(img, keys, n - 1, y) {
            1nat
        } else {
            0nat
        })
    }
}

spec fn grid_unvisited(img: GrayImage, keys: Set<u64>, m: int) -> nat
    decreases m,
{
    if m <= 0 {
        0
    } else {
        grid_unvisited(img, keys, m - 1) + row_unvisited(img, keys, m - 1, img.width as int)
    }
}

spec fn unvisited(img: GrayImage, keys: Set<u64>) -> nat {
    grid_unvisited(img, keys, img.height as int)
}

proof fn lemma_row_mono(img: GrayImage, k1: Set<u64>, k2: Set<u64>, y: int, n: int)
    requires
        k1.subset_of(k2),
    ensures
        row_unvisited(img, k2, y, n) <= row_unvisited(img, k1, y, n),
    decreases n,
{
    if n > 0 {
        lemma_row_mono(img, k1, k2, y, n - 1);
    }
}

proof fn lemma_grid_mono(img: GrayImage, k1: Set<u64>, k2: Set<u64>, m: int)
    requires
        k1.subset_of(k2),
    ensures
        grid_unvisited(img, k2, m) <= grid_unvisited(img, k1, m),
    decreases m,
{
    if m > 0 {
        lemma_grid_mono(img, k1, k2, m - 1);
        lemma_row_mono(img, k1, k2, m - 1, img.width as int);
    }
}

proof fn lemma_row_take(img: GrayImage, k1: Set<u64>, p: Point, y: int, n: int)
    requires
        fresh_key(img, k1, p.0 as int, p.1 as int),
        n <= img.width,
    ensures
        row_unvisited(img, k1.insert(point_key(p)), y, n) + (if y == p.1 && p.0 < n {
            1nat
        } else {
            0nat
        }) == row_unvisited(img, k1, y, n),
    decreases n,
{
    if n > 0 {
        lemma_row_take(img, k1, p, y, n - 1);
        let x = n - 1;
        if 0 <= y < img.height && 0 <= x {
            let q: Point = (x as u32, y as u32);
            if point_key(q) == point_key(p) {
                lemma_point_key_injective(q, p);
            }
        }
    }
}

proof fn lemma_grid_take(img: GrayImage, k1: Set<u64>, p: Point, m: int)
    requires
        fresh_key(img, k1, p.0 as int, p.1 as int),
        m <= img.height,
    ensures
        grid_unvisited(img, k1.insert(point_key(p)), m) + (if p.1 < m {
            1nat
        } else {
            0nat
        }) == grid_unvisited(img, k1, m),
    decreases m,
{
    if m > 0 {
        lemma_grid_take(img, k1, p, m - 1);
        lemma_row_take(img, k1, p, m - 1, img.width as int);
    }
}

/// Taking a fresh pixel lowers the count of untaken dark pixels.
proof fn lemma_unvisited_take(img: GrayImage, k1: Set<u64>, k2: Set<u64>, p: Point)
    requires
        fresh_key(img, k1, p.0 as int, p.1 as int),
        k1.insert(point_key(p)).subset_of(k2),
    ensures
        unvisited(img, k2) < unvisited(img, k1),
{
    lemma_grid_take(img, k1, p, img.height as int);
    lemma_grid_mono(img, k1.insert(point_key(p)), k2, img.height as int);
}

// ---------------------------------------------------------------------------
// Facts about the model
// ---------------------------------------------------------------------------

/// Directions before `d` that are not fresh do not change the first fresh one.
pub(crate) proof fn lemma_first_fresh_skip(img: GrayImage, seen: Set<Point>, p: Point, k: int, d: int)
    requires
        0 <= k <= d <= 8,
        forall|dd: int| k <= dd < d ==> !is_fresh(img, seen, p.0 + dir_dx(dd), p.1 + dir_dy(dd)),
    ensures
        first_fresh_dir(img, seen, p, k) == first_fresh_dir(img, seen, p, d),
    decreases d - k,
{
    if k < d {
        lemma_first_fresh_skip(img, seen, p, k + 1, d);
    }
}

/// A closed point stays closed when more points are taken.
proof fn lemma_closed_mono(img: GrayImage, s1: Set<Point>, s2: Set<Point>, p: Point, k: int)
    requires
        s1.subset_of(s2),
        first_fresh_dir(img, s1, p, k) >= 8,
    ensures
        first_fresh_dir(img, s2, p, k) >= 8,
    decreases 8 - k,
{
    if k < 8 {
        lemma_closed_mono(img, s1, s2, p, k + 1);
    }
}

/// `latest_open` only looks at the first `i` points.
pub(crate) proof fn lemma_latest_open_prefix(img: GrayImage, seen: Set<Point>, a: Seq<Point>, b: Seq<Point>, i: int)
    requires
        0 <= i <= a.len(),
        i <= b.len(),
        a.take(i) == b.take(i),
    ensures
        latest_open(img, seen, a, i) == latest_open(img, seen, b, i),
    decreases i,
{
    if i > 0 {
        assert(a[i - 1] == a.take(i)[i - 1]);
        assert(b[i - 1] == b.take(i)[i - 1]);
        assert(a.take(i - 1) =~= a.take(i).take(i - 1));
        assert(b.take(i - 1) =~= b.take(i).take(i - 1));
        lemma_latest_open_prefix(img, seen, a, b, i - 1);
    }
}

pub(crate) proof fn lemma_latest_open_range(img: GrayImage, seen: Set<Point>, line: Seq<Point>, i: int)
    ensures
        -1 <= latest_open(img, seen, line, i) < if i <= 0 { 0 } else { i },
    decreases i,
{
    if i > 0 {
        lemma_latest_open_range(img, seen, line, i - 1);
    }
}

/// When every point from index `i` on is closed, the latest open point
/// comes before `i`.
proof fn lemma_latest_open_skip_closed(img: GrayImage, seen: Set<Point>, line: Seq<Point>, i: int, n: int)
    requires
        0 <= i <= n <= line.len(),
        forall|k: int| i <= k < n ==> is_closed(img, seen, #[trigger] line[k]),
    ensures
        latest_open(img, seen, line, n) == latest_open(img, seen, line, i),
    decreases n - i,
{
    if i < n {
        lemma_latest_open_skip_closed(img, seen, line, i, n - 1);
    }
}

/// `seen_after` only looks at the first `i` points.
pub(crate) proof fn lemma_seen_after_prefix(before: Set<Point>, a: Seq<Point>, b: Seq<Point>, i: int)
    requires
        0 <= i <= a.len(),
        i <= b.len(),
        a.take(i) == b.take(i),
    ensures
        seen_after(before, a, i) == seen_after(before, b, i),
{
    assert forall|p: Point| in_prefix(a, i, p) implies in_prefix(b, i, p) by {
        let k = choose|k: int| 0 <= k < i && a[k] == p;
        assert(a.take(i)[k] == b.take(i)[k]);
    }
    assert forall|p: Point| in_prefix(b, i, p) implies in_prefix(a, i, p) by {
        let k = choose|k: int| 0 <= k < i && b[k] == p;
        assert(a.take(i)[k] == b.take(i)[k]);
    }
    assert(seen_after(before, a, i) =~= seen_after(before, b, i));
}

/// One more point of the line is one more taken point.
pub(crate) proof fn lemma_seen_after_next(before: Set<Point>, line: Seq<Point>, i: int)
    requires
        0 <= i < line.len(),
    ensures
        seen_after(before, line, i + 1) == seen_after(before, line, i).insert(line[i]),
{
    assert forall|p: Point| in_prefix(line, i + 1, p) implies in_prefix(line, i, p) || p == line[i] by {
        let k = choose|k: int| 0 <= k < i + 1 && line[k] == p;
        if k < i {
            assert(in_prefix(line, i, p));
        }
    }
    assert forall|p: Point| in_prefix(line, i, p) || p == line[i] implies in_prefix(line, i + 1, p) by {
        if p == line[i] {
            assert(line[i] == p);
        } else {
            let k = choose|k: int| 0 <= k < i && line[k] == p;
            assert(0 <= k < i + 1 && line[k] == p);
        }
    }
    assert(seen_after(before, line, i + 1) =~= seen_after(before, line, i).insert(line[i]));
}

/// Extending a line keeps the earlier steps of the trace valid.
proof fn lemma_continues_prefix(img: GrayImage, before: Set<Point>, a: Seq<Point>, b: Seq<Point>, i: int)
    requires
        0 <= i < a.len(),
        a.len() <= b.len(),
        a == b.take(a.len() as int),
        continues_at(img, before, a, i),
    ensures
        continues_at(img, before, b, i),
{
    assert(a.take(i) =~= b.take(i));
    lemma_seen_after_prefix(before, a, b, i);
    let seen = seen_after(before, a, i);
    lemma_latest_open_prefix(img, seen, a, b, i);
    let j = latest_open(img, seen, a, i);
    lemma_latest_open_range(img, seen, a, i);
    assert(b.take(a.len() as int)[j] == b[j]);
    assert(b.take(a.len() as int)[i] == b[i]);
    assert(a[j] == b[j]);
    assert(a[i] == b[i]);
}

// ---------------------------------------------------------------------------
// The trace
// ---------------------------------------------------------------------------

fn direction(d: usize) -> (off: (i64, i64))
    requires
        d < 8,
    ensures
        off.0 == dir_dx(d as int),
        off.1 == dir_dy(d as int),
{
    if d == 0 {
        (0, 1)
    } else if d == 1 {
        (1, 1)
    } else if d == 2 {
        (1, 0)
    } else if d == 3 {
        (1, -1)
    } else if d == 4 {
        (0, -1)
    } else if d == 5 {
        (-1, -1)
    } else if d == 6 {
        (-1, 0)
    } else {
        (-1, 1)
    }
}

/// Traces from `point` onward, appending to `line` and taking each point.
fn dfs(
    point: Point,
    image: &GrayImage,
    visited: &mut HashSet<u64>,
    line: &mut Vec<Point>,
    Ghost(before): Ghost<Set<Point>>,
)
    requires
        image.wf(),
        keys_match(old(visited)@, seen_after(before, old(line)@, old(line)@.len() as int)),
        is_fresh(
            *image,
            seen_after(before, old(line)@, old(line)@.len() as int),
            point.0 as int,
            point.1 as int,
        ),
        forall|i: int| 1 <= i < old(line)@.len() ==> #[trigger] continues_at(*image, before, old(line)@, i),
        old(line)@.len() > 0 ==> continues_at(*image, before, old(line)@.push(point), old(line)@.len() as int),
    ensures
        final(line)@.len() > old(line)@.len(),
        final(line)@.take(old(line)@.len() as int) == old(line)@,
        final(line)@[old(line)@.len() as int] == point,
        forall|i: int| 1 <= i < final(line)@.len() ==> #[trigger] continues_at(*image, before, final(line)@, i),
        keys_match(final(visited)@, seen_after(before, final(line)@, final(line)@.len() as int)),
        old(visited)@.subset_of(final(visited)@),
        forall|k: int|
            old(line)@.len() < k < final(line)@.len() ==> #[trigger] continues_within(
                *image,
                before,
                final(line)@,
                k,
                old(line)@.len() as int,
            ),
        forall|k: int|
            old(line)@.len() <= k < final(line)@.len() ==> is_closed(
                *image,
                seen_after(before, final(line)@, final(line)@.len() as int),
                #[trigger] final(line)@[k],
            ),
    decreases unvisited(*image, old(visited)@),
{
    let ghost img = *image;
    let ghost start = line@.len() as int;
    let ghost line0 = line@;
    let ghost keys0 = visited@;
    let (x, y) = point;
    let width = image.width;
    let height = image.height;

    let k = key_of(x, y);
    visited.insert(k);
    line.push(point);
    proof {
        lemma_seen_after_next(before, line@, start);
        assert(line@.take(start) =~= line0);
        assert(line0.take(start) =~= line0);
        lemma_seen_after_prefix(before, line@, line0, start);
        assert forall|i: int| 1 <= i < line@.len() implies #[trigger] continues_at(img, before, line@, i) by {
            if i < start {
                lemma_continues_prefix(img, before, line0, line@, i);
            } else {
                assert(line@ =~= line0.push(point));
            }
        }
        lemma_unvisited_take(img, keys0, visited@, point);
    }

    let mut d: usize = 0;
    while d < 8
        invariant
            img == *image,
            image.wf(),
            width == image.width,
            height == image.height,
            point == (x, y),
            d <= 8,
            0 <= start,
            line@.len() > start,
            line@.take(start) == line0,
            line@[start] == point,
            forall|i: int| 1 <= i < line@.len() ==> #[trigger] continues_at(img, before, line@, i),
            keys_match(visited@, seen_after(before, line@, line@.len() as int)),
            keys0.subset_of(visited@),
            keys0 == old(visited)@,
            unvisited(img, visited@) < unvisited(img, keys0),
            forall|k: int| start < k < line@.len() ==> #[trigger] continues_within(img, before, line@, k, start),
            forall|k: int|
                start < k < line@.len() ==> is_closed(
                    img,
                    seen_after(before, line@, line@.len() as int),
                    #[trigger] line@[k],
                ),
            forall|dd: int|
                0 <= dd < d ==> !is_fresh(
                    img,
                    seen_after(before, line@, line@.len() as int),
                    x + dir_dx(dd),
                    y + dir_dy(dd),
                ),
        decreases 8 - d,
    {
        let (dx, dy) = direction(d);
        let nx: i64 = x as i64 + dx;
        let ny: i64 = y as i64 + dy;
        if 0 <= nx && nx < width as i64 && 0 <= ny && ny < height as i64 {
            let np: Point = (nx as u32, ny as u32);
            let nk = key_of(np.0, np.1);
            if !visited.contains(&nk) && image.get(np.0, np.1) == 0 {
                let ghost line1 = line@;
                let ghost keys1 = visited@;
                let ghost seen1 = seen_after(before, line1, line1.len() as int);
                proof {
                    assert(line1[start] == point);
                    assert(start < line1.len());
                    assert(in_prefix(line1, line1.len() as int, point));
                    assert(seen1.contains(point));
                    lemma_first_fresh_skip(img, seen1, point, 0, d as int);
                    assert(first_fresh_dir(img, seen1, point, 0) == d);
                    lemma_latest_open_skip_closed(img, seen1, line1, start + 1, line1.len() as int);
                    assert(latest_open(img, seen1, line1.push(np), line1.len() as int) == start) by {
                        assert(line1.push(np).take(line1.len() as int) =~= line1.take(line1.len() as int));
                        lemma_latest_open_prefix(img, seen1, line1.push(np), line1, line1.len() as int);
                    }
                    assert(line1.push(np).take(line1.len() as int) =~= line1);
                    assert(line1.take(line1.len() as int) =~= line1);
                    lemma_seen_after_prefix(before, line1.push(np), line1, line1.len() as int);
                    assert(line1.push(np)[start] == point);
                }
                assert(forall|k: int| start < k < line1.len() ==> #[trigger] continues_within(img, before, line1, k, start));
                dfs(np, image, visited, line, Ghost(before));
                proof {
                    let seen2 = seen_after(before, line@, line@.len() as int);
                    assert(line@.take(line1.len() as int) == line1);
                    let l1 = line1.len() as int;
                    assert forall|k: int| start < k < line@.len() implies #[trigger] continues_within(
                        img,
                        before,
                        line@,
                        k,
                        start,
                    ) by {
                        if k <= l1 {
                            assert(line@.take(k) =~= line1.push(np).take(k));
                            lemma_seen_after_prefix(before, line@, line1.push(np), k);
                            lemma_latest_open_prefix(img, seen_after(before, line@, k), line@, line1.push(np), k);
                            if k < l1 {
                                assert(line1.push(np).take(k) =~= line1.take(k));
                                lemma_seen_after_prefix(before, line1.push(np), line1, k);
                                lemma_latest_open_prefix(img, seen_after(before, line1, k), line1.push(np), line1, k);
                                assert(continues_within(img, before, line1, k, start));
                            } else {
                                assert(seen_after(before, line1.push(np), l1) == seen1);
                            }
                        } else {
                            assert(continues_within(img, before, line@, k, l1));
                        }
                    }
                    assert forall|p: Point| seen1.contains(p) implies seen2.contains(p) by {
                        if !before.contains(p) {
                            let k = choose|k: int| 0 <= k < line1.len() && line1[k] == p;
                            assert(line@.take(line1.len() as int)[k] == p);
                            assert(line@[k] == p);
                        }
                    }
                    assert(seen1.subset_of(seen2));
                    assert(line@.take(start) =~= line1.take(start));
                    assert(line@[line1.len() as int] == np);
                    assert(seen2.contains(np));
                    assert forall|k: int| start < k < line@.len() implies is_closed(
                        img,
                        seen2,
                        #[trigger] line@[k],
                    ) by {
                        if k < line1.len() {
                            assert(line@.take(line1.len() as int)[k] == line1[k]);
                            lemma_closed_mono(img, seen1, seen2, line1[k], 0);
                        }
                    }
                    lemma_grid_mono(img, keys1, visited@, img.height as int);
                }
            }
        }
        d += 1;
    }
    proof {
        let seen = seen_after(before, line@, line@.len() as int);
        lemma_first_fresh_skip(img, seen, point, 0, 8);
        assert(is_closed(img, seen, line@[start]));
    }
}

// ---------------------------------------------------------------------------
// The scan
// ---------------------------------------------------------------------------

/// Adding a line leaves the points of the earlier lines as they were.
pub(crate) proof fn lemma_lines_points_push(lines: Seq<Seq<Point>>, l: Seq<Point>, k: int)
    requires
        0 <= k <= lines.len(),
    ensures
        lines_points(lines.push(l), k) == lines_points(lines, k),
        lines_points(lines.push(l), lines.len() as int + 1) == seen_after(
            lines_points(lines, lines.len() as int),
            l,
            l.len() as int,
        ),
{
    let ext = lines.push(l);
    assert forall|p: Point| lines_points(ext, k).contains(p) <==> lines_points(lines, k).contains(p) by {
        if lines_points(ext, k).contains(p) {
            let (j, i) = choose|j: int, i: int| 0 <= j < k && 0 <= i < ext[j].len() && ext[j][i] == p;
            assert(ext[j] == lines[j]);
        }
        if lines_points(lines, k).contains(p) {
            let (j, i) = choose|j: int, i: int| 0 <= j < k && 0 <= i < lines[j].len() && lines[j][i] == p;
            assert(ext[j] == lines[j]);
        }
    }
    assert(lines_points(ext, k) =~= lines_points(lines, k));
    let n = lines.len() as int;
    let before = lines_points(lines, n);
    assert forall|p: Point| lines_points(ext, n + 1).contains(p) <==> seen_after(before, l, l.len() as int).contains(p) by {
        if lines_points(ext, n + 1).contains(p) {
            let (j, i) = choose|j: int, i: int| 0 <= j < n + 1 && 0 <= i < ext[j].len() && ext[j][i] == p;
            if j < n {
                assert(ext[j] == lines[j]);
                assert(before.contains(p));
            } else {
                assert(ext[j] == l);
                assert(in_prefix(l, l.len() as int, p));
            }
        }
        if seen_after(before, l, l.len() as int).contains(p) {
            if before.contains(p) {
                let (j, i) = choose|j: int, i: int| 0 <= j < n && 0 <= i < lines[j].len() && lines[j][i] == p;
                assert(ext[j] == lines[j]);
                assert(0 <= j < n + 1 && 0 <= i < ext[j].len() && ext[j][i] == p);
            } else {
                let i = choose|i: int| 0 <= i < l.len() && l[i] == p;
                assert(ext[n] == l);
                assert(0 <= n < n + 1 && 0 <= i < ext[n].len() && ext[n][i] == p);
            }
        }
    }
    assert(lines_points(ext, n + 1) =~= seen_after(before, l, l.len() as int));
}

/// Traces every line of the image, in the order the row-by-row scan starts
/// them.
pub fn trace_lines(image: &GrayImage) -> (lines: Vec<Vec<Point>>)
    requires
        image.wf(),
    ensures
        is_line_scan(*image, lines_view(lines@)),
{
    let ghost img = *image;
    let width = image.width;
    let height = image.height;
    let mut visited: HashSet<u64> = HashSet::new();
    let mut lines: Vec<Vec<Point>> = Vec::new();
    proof {
        assert(lines_points(lines_view(lines@), 0) =~= Set::<Point>::empty());
    }
    let mut y: u32 = 0;
    while y < height
        invariant
            img == *image,
            image.wf(),
            width == image.width,
            height == image.height,
            y <= height,
            keys_match(visited@, lines_points(lines_view(lines@), lines@.len() as int)),
            forall|k: int| 0 <= k < lines@.len() ==> #[trigger] is_scan_line(img, lines_view(lines@), k),
            forall|p: Point|
                #[trigger] is_dark_point(img, p) && p.1 < y ==> lines_points(
                    lines_view(lines@),
                    lines@.len() as int,
                ).contains(p),
        decreases height - y,
    {
        let mut x: u32 = 0;
        while x < width
            invariant
                img == *image,
                image.wf(),
                width == image.width,
                height == image.height,
                y < height,
                x <= width,
                keys_match(visited@, lines_points(lines_view(lines@), lines@.len() as int)),
                forall|k: int| 0 <= k < lines@.len() ==> #[trigger] is_scan_line(img, lines_view(lines@), k),
                forall|p: Point|
                    #[trigger] is_dark_point(img, p) && (p.1 < y || (p.1 == y && p.0 < x))
                        ==> lines_points(lines_view(lines@), lines@.len() as int).contains(p),
            decreases width - x,
        {
            let k = key_of(x, y);
            if !visited.contains(&k) && image.get(x, y) == 0 {
                let ghost lv0 = lines_view(lines@);
                let ghost n0 = lines@.len() as int;
                let ghost before = lines_points(lv0, n0);
                let mut line: Vec<Point> = Vec::new();
                proof {
                    assert(seen_after(before, line@, 0) =~= before);
                    assert(!before.contains((x, y)));
                }
                dfs((x, y), image, &mut visited, &mut line, Ghost(before));
                let ghost l = line@;
                lines.push(line);
                proof {
                    let lv1 = lines_view(lines@);
                    assert(lv1 =~= lv0.push(l));
                    lemma_lines_points_push(lv0, l, n0);
                    lemma_latest_open_skip_closed(img, seen_after(before, l, l.len() as int), l, 0, l.len() as int);
                    assert(is_trace(img, before, l));
                    assert(l[0] == (x, y));
                    assert forall|kk: int| 0 <= kk < lines@.len() implies #[trigger] is_scan_line(img, lv1, kk) by {
                        lemma_lines_points_push(lv0, l, kk);
                        if kk < n0 {
                            assert(is_scan_line(img, lv0, kk));
                            assert(lv1[kk] == lv0[kk]);
                        } else {
                            assert(lv1[kk] == l);
                        }
                    }
                    assert(in_prefix(l, l.len() as int, (x, y)));
                }
            }
            x += 1;
        }
        y += 1;
    }
    lines
}

// ---------------------------------------------------------------------------
// Longest first
// ---------------------------------------------------------------------------

/// `output` is `input` reordered so that longer lines come first and lines of
/// equal length keep their order; `perm[k]` is the position in `input` of
/// `output[k]`.
pub open spec fn is_length_order(input: Seq<Seq<Point>>, output: Seq<Seq<Point>>, perm: Seq<int>) -> bool {
    &&& perm.len() == input.len()
    &&& output.len() == input.len()
    &&& forall|k: int| 0 <= k < perm.len() ==> 0 <= #[trigger] perm[k] < input.len() && output[k] == input[perm[k]]
    &&& forall|a: int, b: int| 0 <= a < b < perm.len() ==> perm[a] != perm[b]
    &&& forall|j: int| 0 <= j < input.len() ==> #[trigger] perm.contains(j)
    &&& forall|a: int, b: int| 0 <= a < b < output.len() ==> output[a].len() >= output[b].len()
    &&& forall|a: int, b: int|
        0 <= a < b < output.len() && output[a].len() == output[b].len() ==> perm[a] < perm[b]
}

/// `output` is `input` sorted longest first, stably.
pub open spec fn is_longest_first(input: Seq<Seq<Point>>, output: Seq<Seq<Point>>) -> bool {
    exists|perm: Seq<int>| is_length_order(input, output, perm)
}

/// Reorders the lines longest first; lines of equal length keep their order.
pub fn sort_longest_first(lines: Vec<Vec<Point>>) -> (sorted: Vec<Vec<Point>>)
    ensures
        is_longest_first(lines_view(lines@), lines_view(sorted@)),
{
    let ghost orig = lines_view(lines@);
    let ghost n = lines@.len() as int;
    let mut rest = lines;
    let mut out: Vec<Vec<Point>> = Vec::new();
    let ghost mut perm: Seq<int> = Seq::empty();
    while rest.len() > 0
        invariant
            n == orig.len(),
            lines_view(rest@) == orig.take(rest@.len() as int),
            rest@.len() <= n,
            perm.len() == out@.len(),
            out@.len() + rest@.len() == n,
            forall|k: int|
                0 <= k < perm.len() ==> rest@.len() <= #[trigger] perm[k] < n && lines_view(out@)[k]
                    == orig[perm[k]],
            forall|a: int, b: int| 0 <= a < b < perm.len() ==> perm[a] != perm[b],
            forall|j: int| rest@.len() <= j < n ==> #[trigger] perm.contains(j),
            forall|a: int, b: int| 0 <= a < b < out@.len() ==> out@[a]@.len() >= out@[b]@.len(),
            forall|a: int, b: int|
                0 <= a < b < out@.len() && out@[a]@.len() == out@[b]@.len() ==> perm[a] < perm[b],
        decreases rest@.len(),
    {
        let ghost r = rest@.len() as int;
        let ghost out0 = out@;
        let ghost perm0 = perm;
        let e = rest.pop().unwrap();
        proof {
            assert(orig.take(r)[r - 1] == orig[r - 1]);
            assert(lines_view(rest@) =~= orig.take(r - 1)) by {
                assert forall|i: int| 0 <= i < r - 1 implies lines_view(rest@)[i] == orig.take(r - 1)[i] by {
                    assert(orig.take(r)[i] == orig[i]);
                }
            }
        }
        let elen = e.len();
        let mut pos: usize = 0;
        while pos < out.len() && out[pos].len() > elen
            invariant
                pos <= out@.len(),
                out@ == out0,
                forall|a: int| 0 <= a < pos ==> out@[a]@.len() > elen,
            decreases out@.len() - pos,
        {
            pos += 1;
        }
        out.insert(pos, e);
        proof {
            perm = perm0.insert(pos as int, r - 1);
            let o = out@;
            assert(o == out0.insert(pos as int, e));
            assert forall|a: int| pos <= a < out0.len() implies out0[a]@.len() <= elen by {
                assert(out0[pos as int]@.len() <= elen);
            }
            assert forall|k: int| 0 <= k < perm.len() implies r - 1 <= #[trigger] perm[k] < n
                && lines_view(out@)[k] == orig[perm[k]] by {
                if k < pos {
                    assert(perm[k] == perm0[k]);
                    assert(o[k] == out0[k]);
                } else if k == pos {
                    assert(o[k] == e);
                } else {
                    assert(perm[k] == perm0[k - 1]);
                    assert(o[k] == out0[k - 1]);
                }
            }
            assert forall|a: int, b: int| 0 <= a < b < perm.len() implies perm[a] != perm[b] by {
                if a < pos && b < pos {
                } else if a < pos && b == pos {
                    assert(perm[a] == perm0[a]);
                } else if a < pos {
                    assert(perm[a] == perm0[a] && perm[b] == perm0[b - 1]);
                } else if a == pos {
                    assert(perm[b] == perm0[b - 1]);
                } else {
                    assert(perm[a] == perm0[a - 1] && perm[b] == perm0[b - 1]);
                }
            }
            assert forall|j: int| r - 1 <= j < n implies #[trigger] perm.contains(j) by {
                if j == r - 1 {
                    assert(perm[pos as int] == j);
                } else {
                    assert(perm0.contains(j));
                    let k0 = choose|k: int| 0 <= k < perm0.len() && #[trigger] perm0[k] == j;
                    if k0 < pos {
                        assert(perm[k0] == j);
                    } else {
                        assert(perm[k0 + 1] == j);
                    }
                }
            }
            assert forall|a: int, b: int| 0 <= a < b < o.len() implies o[a]@.len() >= o[b]@.len()
                && (o[a]@.len() == o[b]@.len() ==> perm[a] < perm[b]) by {
                if b < pos {
                    assert(o[a] == out0[a] && o[b] == out0[b]);
                    assert(perm[a] == perm0[a] && perm[b] == perm0[b]);
                } else if b == pos {
                    assert(o[a] == out0[a]);
                } else if a < pos {
                    assert(o[a] == out0[a] && o[b] == out0[b - 1]);
                    assert(perm[a] == perm0[a] && perm[b] == perm0[b - 1]);
                } else if a == pos {
                    assert(o[b] == out0[b - 1]);
                    assert(perm[b] == perm0[b - 1]);
                } else {
                    assert(o[a] == out0[a - 1] && o[b] == out0[b - 1]);
                    assert(perm[a] == perm0[a - 1] && perm[b] == perm0[b - 1]);
                }
            }
        }
    }
    proof {
        assert(is_length_order(orig, lines_view(out@), perm));
    }
    out
}

/// `lines` are the lines of `img`: its traces, longest first.
pub open spec fn are_image_lines(img: GrayImage, lines: Seq<Seq<Point>>) -> bool {
    exists|scan: Seq<Seq<Point>>| is_line_scan(img, scan) && is_longest_first(scan, lines)
}

/// Finds the lines of dark pixels in `image`: each line is traced depth first
/// from the first of its pixels in reading order, and the lines come longest
/// first.
pub fn extract_lines_from_image(image: &GrayImage) -> (lines: Vec<Vec<Point>>)
    requires
        image.wf(),
    ensures
        are_image_lines(*image, lines_view(lines@)),
{
    let traced = trace_lines(image);
    let ghost scan = lines_view(traced@);
    let lines = sort_longest_first(traced);
    proof {
        assert(is_line_scan(*image, scan) && is_longest_first(scan, lines_view(lines@)));
    }
    lines
}

} // verus!
