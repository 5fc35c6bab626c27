//! What holds of the lines that `extract_lines_from_image` finds.

use vstd::prelude::*;

use crate::lines::{
    continues_at, dir_dx, dir_dy, first_fresh_dir, in_prefix, is_closed, is_dark, is_dark_point, is_fresh,
    are_image_lines, is_length_order, is_longest_first, is_line_scan, is_scan_line, is_trace, latest_open, lemma_latest_open_prefix,
    lemma_latest_open_range, lemma_seen_after_prefix, lines_points, scan_before, seen_after, step,
};
use crate::raster::{GrayImage, Point};

verus! {

/// Two pixels touch: they differ and lie at most one step apart in each
/// direction.
pub open spec fn touches(p: Point, q: Point) -> bool {
    p != q && -1 <= p.0 - q.0 <= 1 && -1 <= p.1 - q.1 <= 1
}

/// `line[i]` touches one of the points before it.
pub open spec fn touches_earlier(line: Seq<Point>, i: int) -> bool {
    exists|j: int| 0 <= j < i && touches(line[j], line[i])
}

// ---------------------------------------------------------------------------
// Steps of a trace
// ---------------------------------------------------------------------------

proof fn lemma_latest_open_is_open(img: GrayImage, seen: Set<Point>, line: Seq<Point>, i: int)
    requires
        latest_open(img, seen, line, i) >= 0,
    ensures
        latest_open(img, seen, line, i) < i,
        !is_closed(img, seen, line[latest_open(img, seen, line, i)]),
    decreases i,
{
    if i > 0 && is_closed(img, seen, line[i - 1]) {
        lemma_latest_open_is_open(img, seen, line, i - 1);
    }
}

proof fn lemma_all_closed(img: GrayImage, seen: Set<Point>, line: Seq<Point>, i: int)
    requires
        latest_open(img, seen, line, i) < 0,
    ensures
        forall|k: int| 0 <= k < i ==> is_closed(img, seen, #[trigger] line[k]),
    decreases i,
{
    if i > 0 {
        lemma_all_closed(img, seen, line, i - 1);
    }
}

proof fn lemma_first_fresh_found(img: GrayImage, seen: Set<Point>, p: Point, k: int)
    requires
        0 <= k,
        first_fresh_dir(img, seen, p, k) < 8,
    ensures
        k <= first_fresh_dir(img, seen, p, k),
        is_fresh(
            img,
            seen,
            p.0 + dir_dx(first_fresh_dir(img, seen, p, k)),
            p.1 + dir_dy(first_fresh_dir(img, seen, p, k)),
        ),
    decreases 8 - k,
{
    if k < 8 && !is_fresh(img, seen, p.0 + dir_dx(k), p.1 + dir_dy(k)) {
        lemma_first_fresh_found(img, seen, p, k + 1);
    }
}

proof fn lemma_closed_has_no_fresh(img: GrayImage, seen: Set<Point>, p: Point, k: int, d: int)
    requires
        0 <= k <= d < 8,
        first_fresh_dir(img, seen, p, k) >= 8,
    ensures
        !is_fresh(img, seen, p.0 + dir_dx(d), p.1 + dir_dy(d)),
    decreases d - k,
{
    if k < d {
        lemma_closed_has_no_fresh(img, seen, p, k + 1, d);
    }
}

/// A fresh neighbour is a dark, untaken pixel that touches `p`.
proof fn lemma_fresh_step(img: GrayImage, seen: Set<Point>, p: Point, d: int)
    requires
        0 <= d < 8,
        is_fresh(img, seen, p.0 + dir_dx(d), p.1 + dir_dy(d)),
    ensures
        step(p, d).0 == p.0 + dir_dx(d),
        step(p, d).1 == p.1 + dir_dy(d),
        is_dark_point(img, step(p, d)),
        !seen.contains(step(p, d)),
        touches(p, step(p, d)),
{
}

/// Every pixel that touches `p` is one of its eight neighbours.
proof fn lemma_touch_direction(p: Point, q: Point) -> (d: int)
    requires
        touches(p, q),
    ensures
        0 <= d < 8,
        q.0 == p.0 + dir_dx(d),
        q.1 == p.1 + dir_dy(d),
{
    let ex = q.0 - p.0;
    let ey = q.1 - p.1;
    if ex == 0 && ey == 1 {
        0
    } else if ex == 1 && ey == 1 {
        1
    } else if ex == 1 && ey == 0 {
        2
    } else if ex == 1 && ey == -1 {
        3
    } else if ex == 0 && ey == -1 {
        4
    } else if ex == -1 && ey == -1 {
        5
    } else if ex == -1 && ey == 0 {
        6
    } else {
        7
    }
}

/// Each later point of a trace is a fresh neighbour of an earlier one.
proof fn lemma_trace_step(img: GrayImage, before: Set<Point>, line: Seq<Point>, i: int) -> (j: int)
    requires
        1 <= i < line.len(),
        continues_at(img, before, line, i),
    ensures
        0 <= j < i,
        touches(line[j], line[i]),
        is_dark_point(img, line[i]),
        !seen_after(before, line, i).contains(line[i]),
{
    let seen = seen_after(before, line, i);
    let j = latest_open(img, seen, line, i);
    lemma_latest_open_is_open(img, seen, line, i);
    lemma_first_fresh_found(img, seen, line[j], 0);
    let d = first_fresh_dir(img, seen, line[j], 0);
    lemma_fresh_step(img, seen, line[j], d);
    j
}

/// Every point of a scan line is dark and new when it is reached.
proof fn lemma_scan_point_fresh(img: GrayImage, lines: Seq<Seq<Point>>, k: int, i: int)
    requires
        is_line_scan(img, lines),
        0 <= k < lines.len(),
        0 <= i < lines[k].len(),
    ensures
        is_dark_point(img, lines[k][i]),
        !seen_after(lines_points(lines, k), lines[k], i).contains(lines[k][i]),
{
    let before = lines_points(lines, k);
    assert(is_scan_line(img, lines, k));
    if i == 0 {
        if seen_after(before, lines[k], 0).contains(lines[k][0]) {
            assert(!in_prefix(lines[k], 0, lines[k][0]));
        }
    } else {
        assert(continues_at(img, before, lines[k], i));
        lemma_trace_step(img, before, lines[k], i);
    }
}

// ---------------------------------------------------------------------------
// The scan: dark, distinct, complete, separated, connected
// ---------------------------------------------------------------------------

proof fn lemma_scan_distinct(img: GrayImage, lines: Seq<Seq<Point>>, k1: int, i1: int, k2: int, i2: int)
    requires
        is_line_scan(img, lines),
        0 <= k1 < lines.len(),
        0 <= i1 < lines[k1].len(),
        0 <= k2 < lines.len(),
        0 <= i2 < lines[k2].len(),
        k1 < k2 || (k1 == k2 && i1 < i2),
    ensures
        lines[k1][i1] != lines[k2][i2],
{
    lemma_scan_point_fresh(img, lines, k2, i2);
    let seen = seen_after(lines_points(lines, k2), lines[k2], i2);
    if k1 < k2 {
        assert(lines_points(lines, k2).contains(lines[k1][i1]));
        assert(seen.contains(lines[k1][i1]));
    } else {
        assert(in_prefix(lines[k2], i2, lines[k1][i1]));
        assert(seen.contains(lines[k1][i1]));
    }
}

proof fn lemma_scan_separated(img: GrayImage, lines: Seq<Seq<Point>>, k1: int, i1: int, k2: int, i2: int)
    requires
        is_line_scan(img, lines),
        0 <= k1 < k2 < lines.len(),
        0 <= i1 < lines[k1].len(),
        0 <= i2 < lines[k2].len(),
    ensures
        !touches(lines[k1][i1], lines[k2][i2]),
{
    let p = lines[k1][i1];
    let q = lines[k2][i2];
    if touches(p, q) {
        let before = lines_points(lines, k1);
        let l = lines[k1];
        let seen = seen_after(before, l, l.len() as int);
        assert(is_scan_line(img, lines, k1));
        lemma_all_closed(img, seen, l, l.len() as int);
        assert(is_closed(img, seen, l[i1]));
        let d = lemma_touch_direction(p, q);
        lemma_closed_has_no_fresh(img, seen, p, 0, d);
        lemma_scan_point_fresh(img, lines, k2, i2);
        assert(q == (q.0 as int as u32, q.1 as int as u32));
        assert(seen.contains(q));
        if before.contains(q) {
            let (j, i) = choose|j: int, i: int| 0 <= j < k1 && 0 <= i < lines[j].len() && lines[j][i] == q;
            lemma_scan_distinct(img, lines, j, i, k2, i2);
        } else {
            let i = choose|i: int| 0 <= i < l.len() && l[i] == q;
            lemma_scan_distinct(img, lines, k1, i, k2, i2);
        }
    }
}

// ---------------------------------------------------------------------------
// The scan is unique
// ---------------------------------------------------------------------------

proof fn lemma_trace_prefix(img: GrayImage, before: Set<Point>, a: Seq<Point>, b: Seq<Point>, i: int)
    requires
        is_trace(img, before, a),
        is_trace(img, before, b),
        a[0] == b[0],
        1 <= i <= a.len(),
        i <= b.len(),
    ensures
        a.take(i) == b.take(i),
    decreases i,
{
    if i == 1 {
        assert(a.take(1) =~= b.take(1));
    } else {
        let h = i - 1;
        lemma_trace_prefix(img, before, a, b, h);
        assert(continues_at(img, before, a, h));
        assert(continues_at(img, before, b, h));
        lemma_seen_after_prefix(before, a, b, h);
        let seen = seen_after(before, a, h);
        lemma_latest_open_prefix(img, seen, a, b, h);
        let j = latest_open(img, seen, a, h);
        lemma_latest_open_range(img, seen, a, h);
        assert(a.take(h)[j] == b.take(h)[j]);
        assert(a[h] == b[h]);
        assert(a.take(i) =~= a.take(h).push(a[h]));
        assert(b.take(i) =~= b.take(h).push(b[h]));
    }
}

proof fn lemma_trace_unique(img: GrayImage, before: Set<Point>, a: Seq<Point>, b: Seq<Point>)
    requires
        is_trace(img, before, a),
        is_trace(img, before, b),
        a[0] == b[0],
    ensures
        a == b,
{
    let m = if a.len() <= b.len() { a.len() as int } else { b.len() as int };
    lemma_trace_prefix(img, before, a, b, m);
    if a.len() < b.len() {
        assert(continues_at(img, before, b, m));
        lemma_seen_after_prefix(before, a, b, m);
        lemma_latest_open_prefix(img, seen_after(before, a, m), a, b, m);
    } else if b.len() < a.len() {
        assert(continues_at(img, before, a, m));
        lemma_seen_after_prefix(before, a, b, m);
        lemma_latest_open_prefix(img, seen_after(before, a, m), a, b, m);
    }
    assert(a =~= a.take(m));
    assert(b =~= b.take(m));
}

proof fn lemma_lines_points_prefix(a: Seq<Seq<Point>>, b: Seq<Seq<Point>>, k: int)
    requires
        0 <= k <= a.len(),
        k <= b.len(),
        a.take(k) == b.take(k),
    ensures
        lines_points(a, k) == lines_points(b, k),
{
    assert forall|p: Point| lines_points(a, k).contains(p) implies lines_points(b, k).contains(p) by {
        let (j, i) = choose|j: int, i: int| 0 <= j < k && 0 <= i < a[j].len() && a[j][i] == p;
        assert(a.take(k)[j] == b.take(k)[j]);
    }
    assert forall|p: Point| lines_points(b, k).contains(p) implies lines_points(a, k).contains(p) by {
        let (j, i) = choose|j: int, i: int| 0 <= j < k && 0 <= i < b[j].len() && b[j][i] == p;
        assert(a.take(k)[j] == b.take(k)[j]);
    }
    assert(lines_points(a, k) =~= lines_points(b, k));
}

proof fn lemma_scan_prefix(img: GrayImage, a: Seq<Seq<Point>>, b: Seq<Seq<Point>>, k: int)
    requires
        is_line_scan(img, a),
        is_line_scan(img, b),
        0 <= k <= a.len(),
        k <= b.len(),
    ensures
        a.take(k) == b.take(k),
    decreases k,
{
    if k == 0 {
        assert(a.take(0) =~= b.take(0));
    } else {
        let h = k - 1;
        lemma_scan_prefix(img, a, b, h);
        lemma_lines_points_prefix(a, b, h);
        let before = lines_points(a, h);
        assert(is_scan_line(img, a, h));
        assert(is_scan_line(img, b, h));
        let p = a[h][0];
        let q = b[h][0];
        if p != q {
            assert(is_dark_point(img, p));
            assert(is_dark_point(img, q));
            if scan_before(p, q) {
                assert(before.contains(p));
            } else {
                assert(scan_before(q, p));
                assert(before.contains(q));
            }
        }
        lemma_trace_unique(img, before, a[h], b[h]);
        assert(a.take(k) =~= a.take(h).push(a[h]));
        assert(b.take(k) =~= b.take(h).push(b[h]));
    }
}

/// An image has exactly one line scan: the scan order and the trace rule
/// leave no choice.
pub proof fn lemma_line_scan_unique(img: GrayImage, a: Seq<Seq<Point>>, b: Seq<Seq<Point>>)
    requires
        is_line_scan(img, a),
        is_line_scan(img, b),
    ensures
        a == b,
{
    let m = if a.len() <= b.len() { a.len() as int } else { b.len() as int };
    lemma_scan_prefix(img, a, b, m);
    if a.len() != b.len() {
        lemma_lines_points_prefix(a, b, m);
        if a.len() < b.len() {
            assert(is_scan_line(img, b, m));
            assert(is_dark_point(img, b[m][0]));
            assert(lines_points(a, a.len() as int).contains(b[m][0]));
        } else {
            assert(is_scan_line(img, a, m));
            assert(is_dark_point(img, a[m][0]));
            assert(lines_points(b, b.len() as int).contains(a[m][0]));
        }
    }
    assert(a =~= a.take(m));
    assert(b =~= b.take(m));
}

// ---------------------------------------------------------------------------
// Longest first is unique
// ---------------------------------------------------------------------------

/// Line `i` goes before line `j` in a stable longest-first order.
spec fn goes_before(input: Seq<Seq<Point>>, i: int, j: int) -> bool {
    input[i].len() > input[j].len() || (input[i].len() == input[j].len() && i < j)
}

proof fn lemma_order_goes_before(input: Seq<Seq<Point>>, output: Seq<Seq<Point>>, perm: Seq<int>, a: int, b: int)
    requires
        is_length_order(input, output, perm),
        0 <= a < b < perm.len(),
    ensures
        goes_before(input, perm[a], perm[b]),
{
    assert(output[a] == input[perm[a]]);
    assert(output[b] == input[perm[b]]);
}

proof fn lemma_order_prefix(
    input: Seq<Seq<Point>>,
    o1: Seq<Seq<Point>>,
    p1: Seq<int>,
    o2: Seq<Seq<Point>>,
    p2: Seq<int>,
    k: int,
)
    requires
        is_length_order(input, o1, p1),
        is_length_order(input, o2, p2),
        0 <= k <= p1.len(),
    ensures
        p1.take(k) == p2.take(k),
    decreases k,
{
    if k == 0 {
        assert(p1.take(0) =~= p2.take(0));
    } else {
        let h = k - 1;
        lemma_order_prefix(input, o1, p1, o2, p2, h);
        let u = p1[h];
        let v = p2[h];
        if u != v {
            assert(0 <= u < input.len());
            assert(0 <= v < input.len());
            assert(p2.contains(u));
            let m = choose|m: int| 0 <= m < p2.len() && p2[m] == u;
            if m < h {
                assert(p1.take(h)[m] == p2.take(h)[m]);
                assert(p1[m] == u);
            }
            assert(m > h);
            lemma_order_goes_before(input, o2, p2, h, m);
            assert(p1.contains(v));
            let m2 = choose|m2: int| 0 <= m2 < p1.len() && p1[m2] == v;
            if m2 < h {
                assert(p1.take(h)[m2] == p2.take(h)[m2]);
                assert(p2[m2] == v);
            }
            assert(m2 > h);
            lemma_order_goes_before(input, o1, p1, h, m2);
        }
        assert(p1.take(k) =~= p1.take(h).push(p1[h]));
        assert(p2.take(k) =~= p2.take(h).push(p2[h]));
    }
}

/// Sorting longest first, keeping the order of equal lengths, has one
/// outcome.
pub proof fn lemma_longest_first_unique(input: Seq<Seq<Point>>, a: Seq<Seq<Point>>, b: Seq<Seq<Point>>)
    requires
        is_longest_first(input, a),
        is_longest_first(input, b),
    ensures
        a == b,
{
    let p1 = choose|p: Seq<int>| is_length_order(input, a, p);
    let p2 = choose|p: Seq<int>| is_length_order(input, b, p);
    lemma_order_prefix(input, a, p1, b, p2, p1.len() as int);
    assert(p1 =~= p1.take(p1.len() as int));
    assert(p2 =~= p2.take(p2.len() as int));
    assert forall|k: int| 0 <= k < a.len() implies a[k] == b[k] by {
        assert(a[k] == input[p1[k]]);
        assert(b[k] == input[p2[k]]);
    }
    assert(a =~= b);
}

// ---------------------------------------------------------------------------
// The laws of the extracted lines
// ---------------------------------------------------------------------------

/// An image has one list of lines: what `extract_lines_from_image` returns is
/// determined by the image.
pub proof fn lemma_image_lines_unique(img: GrayImage, a: Seq<Seq<Point>>, b: Seq<Seq<Point>>)
    requires
        are_image_lines(img, a),
        are_image_lines(img, b),
    ensures
        a == b,
{
    let sa = choose|s: Seq<Seq<Point>>| is_line_scan(img, s) && is_longest_first(s, a);
    let sb = choose|s: Seq<Seq<Point>>| is_line_scan(img, s) && is_longest_first(s, b);
    lemma_line_scan_unique(img, sa, sb);
    lemma_longest_first_unique(sa, a, b);
}

/// Every line is non-empty, every point of a line is a dark pixel of the
/// image, and no pixel occurs twice among all the lines.
pub proof fn lemma_lines_dark_and_distinct(img: GrayImage, lines: Seq<Seq<Point>>)
    requires
        are_image_lines(img, lines),
    ensures
        forall|k: int| 0 <= k < lines.len() ==> #[trigger] lines[k].len() >= 1,
        forall|k: int, i: int|
            0 <= k < lines.len() && 0 <= i < lines[k].len() ==> is_dark_point(img, #[trigger] lines[k][i]),
        forall|k1: int, i1: int, k2: int, i2: int|
            0 <= k1 < lines.len() && 0 <= i1 < lines[k1].len() && 0 <= k2 < lines.len() && 0 <= i2
                < lines[k2].len() && (k1 != k2 || i1 != i2) ==> #[trigger] lines[k1][i1]
                != #[trigger] lines[k2][i2],
{
    let scan = choose|s: Seq<Seq<Point>>| is_line_scan(img, s) && is_longest_first(s, lines);
    let perm = choose|p: Seq<int>| is_length_order(scan, lines, p);
    assert forall|k: int| 0 <= k < lines.len() implies #[trigger] lines[k].len() >= 1 by {
        assert(lines[k] == scan[perm[k]]);
        assert(is_scan_line(img, scan, perm[k]));
    }
    assert forall|k: int, i: int| 0 <= k < lines.len() && 0 <= i < lines[k].len() implies is_dark_point(
        img,
        #[trigger] lines[k][i],
    ) by {
        assert(lines[k] == scan[perm[k]]);
        lemma_scan_point_fresh(img, scan, perm[k], i);
    }
    assert forall|k1: int, i1: int, k2: int, i2: int|
        0 <= k1 < lines.len() && 0 <= i1 < lines[k1].len() && 0 <= k2 < lines.len() && 0 <= i2
            < lines[k2].len() && (k1 != k2 || i1 != i2) implies #[trigger] lines[k1][i1]
            != #[trigger] lines[k2][i2] by {
        assert(lines[k1] == scan[perm[k1]]);
        assert(lines[k2] == scan[perm[k2]]);
        let j1 = perm[k1];
        let j2 = perm[k2];
        if k1 != k2 {
            if k1 < k2 {
                assert(j1 != j2);
            } else {
                assert(perm[k2] != perm[k1]);
            }
        }
        if j1 < j2 || (j1 == j2 && i1 < i2) {
            lemma_scan_distinct(img, scan, j1, i1, j2, i2);
        } else {
            lemma_scan_distinct(img, scan, j2, i2, j1, i1);
        }
    }
}

/// Every dark pixel of the image lies on one of the lines.
pub proof fn lemma_lines_cover_dark_pixels(img: GrayImage, lines: Seq<Seq<Point>>, p: Point)
    requires
        are_image_lines(img, lines),
        is_dark_point(img, p),
    ensures
        exists|k: int, i: int| 0 <= k < lines.len() && 0 <= i < lines[k].len() && lines[k][i] == p,
{
    let scan = choose|s: Seq<Seq<Point>>| is_line_scan(img, s) && is_longest_first(s, lines);
    let perm = choose|q: Seq<int>| is_length_order(scan, lines, q);
    assert(lines_points(scan, scan.len() as int).contains(p));
    let (j, i) = choose|j: int, i: int| 0 <= j < scan.len() && 0 <= i < scan[j].len() && scan[j][i] == p;
    assert(perm.contains(j));
    let k = choose|k: int| 0 <= k < perm.len() && perm[k] == j;
    assert(lines[k] == scan[j]);
    assert(0 <= k < lines.len() && 0 <= i < lines[k].len() && lines[k][i] == p);
}

/// Pixels of different lines never touch: each line is a whole connected
/// group of dark pixels.
pub proof fn lemma_lines_separated(img: GrayImage, lines: Seq<Seq<Point>>)
    requires
        are_image_lines(img, lines),
    ensures
        forall|k1: int, i1: int, k2: int, i2: int|
            0 <= k1 < lines.len() && 0 <= i1 < lines[k1].len() && 0 <= k2 < lines.len() && 0 <= i2
                < lines[k2].len() && k1 != k2 ==> !touches(#[trigger] lines[k1][i1], #[trigger] lines[k2][i2]),
{
    let scan = choose|s: Seq<Seq<Point>>| is_line_scan(img, s) && is_longest_first(s, lines);
    let perm = choose|p: Seq<int>| is_length_order(scan, lines, p);
    assert forall|k1: int, i1: int, k2: int, i2: int|
        0 <= k1 < lines.len() && 0 <= i1 < lines[k1].len() && 0 <= k2 < lines.len() && 0 <= i2
            < lines[k2].len() && k1 != k2 implies !touches(#[trigger] lines[k1][i1], #[trigger] lines[k2][i2]) by {
        assert(lines[k1] == scan[perm[k1]]);
        assert(lines[k2] == scan[perm[k2]]);
        let j1 = perm[k1];
        let j2 = perm[k2];
        if k1 < k2 {
            assert(j1 != j2);
        } else {
            assert(perm[k2] != perm[k1]);
        }
        if j1 < j2 {
            lemma_scan_separated(img, scan, j1, i1, j2, i2);
        } else {
            lemma_scan_separated(img, scan, j2, i2, j1, i1);
        }
    }
}

/// Within a line, every pixel after the first touches an earlier pixel of the
/// same line.
pub proof fn lemma_lines_connected(img: GrayImage, lines: Seq<Seq<Point>>)
    requires
        are_image_lines(img, lines),
    ensures
        forall|k: int, i: int|
            0 <= k < lines.len() && 1 <= i < lines[k].len() ==> #[trigger] touches_earlier(lines[k], i),
{
    let scan = choose|s: Seq<Seq<Point>>| is_line_scan(img, s) && is_longest_first(s, lines);
    let perm = choose|p: Seq<int>| is_length_order(scan, lines, p);
    assert forall|k: int, i: int| 0 <= k < lines.len() && 1 <= i < lines[k].len() implies #[trigger] touches_earlier(
        lines[k],
        i,
    ) by {
        assert(lines[k] == scan[perm[k]]);
        let l = scan[perm[k]];
        assert(is_scan_line(img, scan, perm[k]));
        assert(continues_at(img, lines_points(scan, perm[k]), l, i));
        let j = lemma_trace_step(img, lines_points(scan, perm[k]), l, i);
        assert(touches(lines[k][j], lines[k][i]));
    }
}

/// The lines come longest first.
pub proof fn lemma_lines_longest_first(img: GrayImage, lines: Seq<Seq<Point>>)
    requires
        are_image_lines(img, lines),
    ensures
        forall|a: int, b: int| 0 <= a < b < lines.len() ==> #[trigger] lines[a].len() >= #[trigger] lines[b].len(),
{
    let scan = choose|s: Seq<Seq<Point>>| is_line_scan(img, s) && is_longest_first(s, lines);
    let perm = choose|p: Seq<int>| is_length_order(scan, lines, p);
}

// ---------------------------------------------------------------------------
// Where lines start
// ---------------------------------------------------------------------------

/// A line of the scan starts at its first pixel in reading order.
proof fn lemma_scan_starts_first(img: GrayImage, scan: Seq<Seq<Point>>, j: int, i: int)
    requires
        is_line_scan(img, scan),
        0 <= j < scan.len(),
        0 < i < scan[j].len(),
    ensures
        scan_before(scan[j][0], scan[j][i]),
{
    let q = scan[j][i];
    assert(is_scan_line(img, scan, j));
    lemma_scan_point_fresh(img, scan, j, i);
    lemma_scan_distinct(img, scan, j, 0, j, i);
    if scan_before(q, scan[j][0]) {
        assert(lines_points(scan, j).contains(q));
        let (j2, i2) = choose|j2: int, i2: int| 0 <= j2 < j && 0 <= i2 < scan[j2].len() && scan[j2][i2] == q;
        lemma_scan_distinct(img, scan, j2, i2, j, i);
    }
}

/// The lines of the scan start in reading order.
proof fn lemma_scan_starts_ordered(img: GrayImage, scan: Seq<Seq<Point>>, j1: int, j2: int)
    requires
        is_line_scan(img, scan),
        0 <= j1 < j2 < scan.len(),
    ensures
        scan_before(scan[j1][0], scan[j2][0]),
{
    let p = scan[j2][0];
    assert(is_scan_line(img, scan, j1));
    assert(is_scan_line(img, scan, j2));
    lemma_scan_point_fresh(img, scan, j2, 0);
    lemma_scan_distinct(img, scan, j1, 0, j2, 0);
    if scan_before(p, scan[j1][0]) {
        assert(lines_points(scan, j1).contains(p));
        let (j3, i3) = choose|j3: int, i3: int| 0 <= j3 < j1 && 0 <= i3 < scan[j3].len() && scan[j3][i3] == p;
        lemma_scan_distinct(img, scan, j3, i3, j2, 0);
    }
}

/// Each line starts at its first pixel in reading order: every other pixel
/// of the line comes after it, row by row.
pub proof fn lemma_lines_start_at_first_pixel(img: GrayImage, lines: Seq<Seq<Point>>)
    requires
        are_image_lines(img, lines),
    ensures
        forall|k: int, i: int|
            0 <= k < lines.len() && 0 < i < lines[k].len() ==> #[trigger] scan_before(lines[k][0], lines[k][i]),
{
    let scan = choose|s: Seq<Seq<Point>>| is_line_scan(img, s) && is_longest_first(s, lines);
    let perm = choose|p: Seq<int>| is_length_order(scan, lines, p);
    assert forall|k: int, i: int| 0 <= k < lines.len() && 0 < i < lines[k].len() implies #[trigger] scan_before(
        lines[k][0],
        lines[k][i],
    ) by {
        assert(lines[k] == scan[perm[k]]);
        lemma_scan_starts_first(img, scan, perm[k], i);
    }
}

/// Lines of equal length come in the reading order of their first pixels.
pub proof fn lemma_lines_ties_by_first_pixel(img: GrayImage, lines: Seq<Seq<Point>>)
    requires
        are_image_lines(img, lines),
    ensures
        forall|a: int, b: int|
            0 <= a < b < lines.len() && lines[a].len() == lines[b].len() ==> #[trigger] scan_before(
                lines[a][0],
                lines[b][0],
            ),
{
    let scan = choose|s: Seq<Seq<Point>>| is_line_scan(img, s) && is_longest_first(s, lines);
    let perm = choose|p: Seq<int>| is_length_order(scan, lines, p);
    assert forall|a: int, b: int| 0 <= a < b < lines.len() && lines[a].len() == lines[b].len() implies #[trigger] scan_before(
        lines[a][0],
        lines[b][0],
    ) by {
        assert(lines[a] == scan[perm[a]]);
        assert(lines[b] == scan[perm[b]]);
        assert(perm[a] < perm[b]);
        lemma_scan_starts_ordered(img, scan, perm[a], perm[b]);
    }
}

// ---------------------------------------------------------------------------
// Where a line goes first
// ---------------------------------------------------------------------------

/// The first dark pixel among the eight around `(x, y)`, trying them in the
/// order below, below right, right, above right, above, above left, left,
/// below left (rows grow downwards); `None` when none of them is dark.
pub open spec fn first_dark_neighbour(img: GrayImage, x: int, y: int) -> Option<Point> {
    if is_dark(img, x, y + 1) {
        Some((x as u32, (y + 1) as u32))
    } else if is_dark(img, x + 1, y + 1) {
        Some(((x + 1) as u32, (y + 1) as u32))
    } else if is_dark(img, x + 1, y) {
        Some(((x + 1) as u32, y as u32))
    } else if is_dark(img, x + 1, y - 1) {
        Some(((x + 1) as u32, (y - 1) as u32))
    } else if is_dark(img, x, y - 1) {
        Some((x as u32, (y - 1) as u32))
    } else if is_dark(img, x - 1, y - 1) {
        Some(((x - 1) as u32, (y - 1) as u32))
    } else if is_dark(img, x - 1, y) {
        Some(((x - 1) as u32, y as u32))
    } else if is_dark(img, x - 1, y + 1) {
        Some(((x - 1) as u32, (y + 1) as u32))
    } else {
        None
    }
}

proof fn lemma_scan_second_pixel(img: GrayImage, scan: Seq<Seq<Point>>, j: int)
    requires
        is_line_scan(img, scan),
        0 <= j < scan.len(),
    ensures
        match first_dark_neighbour(img, scan[j][0].0 as int, scan[j][0].1 as int) {
            None => scan[j].len() == 1,
            Some(q) => scan[j].len() >= 2 && scan[j][1] == q,
        },
{
    assert(is_scan_line(img, scan, j));
    let before = lines_points(scan, j);
    let line = scan[j];
    let p = line[0];
    let seen = seen_after(before, line, 1);
    assert forall|d: int| 0 <= d < 8 implies #[trigger] is_fresh(img, seen, p.0 + dir_dx(d), p.1 + dir_dy(d))
        == is_dark(img, p.0 + dir_dx(d), p.1 + dir_dy(d)) by {
        let x = p.0 + dir_dx(d);
        let y = p.1 + dir_dy(d);
        if is_dark(img, x, y) {
            let q = (x as u32, y as u32);
            assert(q.0 as int == x && q.1 as int == y);
            assert(q != p);
            if seen.contains(q) {
                if before.contains(q) {
                    let (j2, i2) = choose|j2: int, i2: int|
                        0 <= j2 < j && 0 <= i2 < scan[j2].len() && scan[j2][i2] == q;
                    lemma_scan_separated(img, scan, j2, i2, j, 0);
                    assert(touches(q, p));
                } else {
                    let i = choose|i: int| 0 <= i < 1 && line[i] == q;
                    assert(i == 0);
                }
            }
        }
    }
    assert(is_fresh(img, seen, p.0 + dir_dx(0), p.1 + dir_dy(0)) == is_dark(img, p.0 + dir_dx(0), p.1 + dir_dy(0)));
    assert(is_fresh(img, seen, p.0 + dir_dx(1), p.1 + dir_dy(1)) == is_dark(img, p.0 + dir_dx(1), p.1 + dir_dy(1)));
    assert(is_fresh(img, seen, p.0 + dir_dx(2), p.1 + dir_dy(2)) == is_dark(img, p.0 + dir_dx(2), p.1 + dir_dy(2)));
    assert(is_fresh(img, seen, p.0 + dir_dx(3), p.1 + dir_dy(3)) == is_dark(img, p.0 + dir_dx(3), p.1 + dir_dy(3)));
    assert(is_fresh(img, seen, p.0 + dir_dx(4), p.1 + dir_dy(4)) == is_dark(img, p.0 + dir_dx(4), p.1 + dir_dy(4)));
    assert(is_fresh(img, seen, p.0 + dir_dx(5), p.1 + dir_dy(5)) == is_dark(img, p.0 + dir_dx(5), p.1 + dir_dy(5)));
    assert(is_fresh(img, seen, p.0 + dir_dx(6), p.1 + dir_dy(6)) == is_dark(img, p.0 + dir_dx(6), p.1 + dir_dy(6)));
    assert(is_fresh(img, seen, p.0 + dir_dx(7), p.1 + dir_dy(7)) == is_dark(img, p.0 + dir_dx(7), p.1 + dir_dy(7)));
    reveal_with_fuel(first_fresh_dir, 9);
    let d = first_fresh_dir(img, seen, p, 0);
    lemma_latest_open_range(img, seen, line, 1);
    if line.len() >= 2 {
        assert(continues_at(img, before, line, 1));
        assert(latest_open(img, seen, line, 1) == 0);
        reveal_with_fuel(latest_open, 2);
        assert(!is_closed(img, seen, line[0]));
        assert(line[1] == step(p, d));
    } else {
        assert(line.len() == 1);
        assert(latest_open(img, seen_after(before, line, line.len() as int), line, line.len() as int) < 0);
        reveal_with_fuel(latest_open, 2);
        assert(is_closed(img, seen, line[0]));
    }
}

/// A line goes from its first pixel to the first of that pixel's dark
/// neighbours, tried in the order of `first_dark_neighbour`; a first pixel
/// with no dark neighbour is a line of its own.
pub proof fn lemma_lines_second_pixel(img: GrayImage, lines: Seq<Seq<Point>>)
    requires
        are_image_lines(img, lines),
    ensures
        forall|k: int|
            0 <= k < lines.len() ==> match first_dark_neighbour(
                img,
                (#[trigger] lines[k])[0].0 as int,
                lines[k][0].1 as int,
            ) {
                None => lines[k].len() == 1,
                Some(q) => lines[k].len() >= 2 && lines[k][1] == q,
            },
{
    let scan = choose|s: Seq<Seq<Point>>| is_line_scan(img, s) && is_longest_first(s, lines);
    let perm = choose|p: Seq<int>| is_length_order(scan, lines, p);
    assert forall|k: int| 0 <= k < lines.len() implies match first_dark_neighbour(
        img,
        (#[trigger] lines[k])[0].0 as int,
        lines[k][0].1 as int,
    ) {
        None => lines[k].len() == 1,
        Some(q) => lines[k].len() >= 2 && lines[k][1] == q,
    } by {
        assert(lines[k] == scan[perm[k]]);
        lemma_scan_second_pixel(img, scan, perm[k]);
    }
}

// ---------------------------------------------------------------------------
// Every step of a line
// ---------------------------------------------------------------------------

/// `(x, y)` is a dark pixel that `taken` does not hold.
pub open spec fn untaken_dark(img: GrayImage, taken: Seq<Point>, x: int, y: int) -> bool {
    is_dark(img, x, y) && !taken.contains((x as u32, y as u32))
}

/// The first dark pixel around `p` that `taken` does not hold, trying the
/// eight neighbours in the order below, below right, right, above right,
/// above, above left, left, below left; `None` when there is none.
pub open spec fn next_neighbour(img: GrayImage, taken: Seq<Point>, p: Point) -> Option<Point> {
    let x = p.0 as int;
    let y = p.1 as int;
    if untaken_dark(img, taken, x, y + 1) {
        Some((x as u32, (y + 1) as u32))
    } else if untaken_dark(img, taken, x + 1, y + 1) {
        Some(((x + 1) as u32, (y + 1) as u32))
    } else if untaken_dark(img, taken, x + 1, y) {
        Some(((x + 1) as u32, y as u32))
    } else if untaken_dark(img, taken, x + 1, y - 1) {
        Some(((x + 1) as u32, (y - 1) as u32))
    } else if untaken_dark(img, taken, x, y - 1) {
        Some((x as u32, (y - 1) as u32))
    } else if untaken_dark(img, taken, x - 1, y - 1) {
        Some(((x - 1) as u32, (y - 1) as u32))
    } else if untaken_dark(img, taken, x - 1, y) {
        Some(((x - 1) as u32, y as u32))
    } else if untaken_dark(img, taken, x - 1, y + 1) {
        Some(((x - 1) as u32, (y + 1) as u32))
    } else {
        None
    }
}

/// `line[i]` is the next neighbour of the latest earlier point of `line`
/// that still has one, once the points before `i` are taken.
pub open spec fn steps_to(img: GrayImage, line: Seq<Point>, i: int) -> bool {
    exists|j: int|
        0 <= j < i && next_neighbour(img, line.take(i), line[j]) == Some(line[i]) && forall|m: int|
            j < m < i ==> #[trigger] next_neighbour(img, line.take(i), line[m]) is None
}

proof fn lemma_latest_open_rest_closed(img: GrayImage, seen: Set<Point>, line: Seq<Point>, i: int)
    ensures
        forall|m: int| latest_open(img, seen, line, i) < m < i ==> is_closed(img, seen, #[trigger] line[m]),
    decreases i,
{
    if i > 0 && is_closed(img, seen, line[i - 1]) {
        lemma_latest_open_rest_closed(img, seen, line, i - 1);
    }
}

/// The neighbour the trace takes from `p`, in `dir_dx`/`dir_dy` order, is the
/// one `next_neighbour` names, when freshness and being untaken agree.
proof fn lemma_first_fresh_is_next(img: GrayImage, seen: Set<Point>, taken: Seq<Point>, p: Point)
    requires
        forall|d: int|
            0 <= d < 8 ==> #[trigger] is_fresh(img, seen, p.0 + dir_dx(d), p.1 + dir_dy(d)) == untaken_dark(
                img,
                taken,
                p.0 + dir_dx(d),
                p.1 + dir_dy(d),
            ),
    ensures
        match next_neighbour(img, taken, p) {
            None => is_closed(img, seen, p),
            Some(q) => !is_closed(img, seen, p) && step(p, first_fresh_dir(img, seen, p, 0)) == q,
        },
{
    assert(is_fresh(img, seen, p.0 + dir_dx(0), p.1 + dir_dy(0)) == untaken_dark(img, taken, p.0 + dir_dx(0), p.1 + dir_dy(0)));
    assert(is_fresh(img, seen, p.0 + dir_dx(1), p.1 + dir_dy(1)) == untaken_dark(img, taken, p.0 + dir_dx(1), p.1 + dir_dy(1)));
    assert(is_fresh(img, seen, p.0 + dir_dx(2), p.1 + dir_dy(2)) == untaken_dark(img, taken, p.0 + dir_dx(2), p.1 + dir_dy(2)));
    assert(is_fresh(img, seen, p.0 + dir_dx(3), p.1 + dir_dy(3)) == untaken_dark(img, taken, p.0 + dir_dx(3), p.1 + dir_dy(3)));
    assert(is_fresh(img, seen, p.0 + dir_dx(4), p.1 + dir_dy(4)) == untaken_dark(img, taken, p.0 + dir_dx(4), p.1 + dir_dy(4)));
    assert(is_fresh(img, seen, p.0 + dir_dx(5), p.1 + dir_dy(5)) == untaken_dark(img, taken, p.0 + dir_dx(5), p.1 + dir_dy(5)));
    assert(is_fresh(img, seen, p.0 + dir_dx(6), p.1 + dir_dy(6)) == untaken_dark(img, taken, p.0 + dir_dx(6), p.1 + dir_dy(6)));
    assert(is_fresh(img, seen, p.0 + dir_dx(7), p.1 + dir_dy(7)) == untaken_dark(img, taken, p.0 + dir_dx(7), p.1 + dir_dy(7)));
    reveal_with_fuel(first_fresh_dir, 9);
}

/// Around a point of a line of the scan, a pixel is fresh once the first `i`
/// points are traced exactly when it is dark and not among those points:
/// no earlier line holds a pixel touching this line.
proof fn lemma_scan_fresh_is_untaken(img: GrayImage, scan: Seq<Seq<Point>>, j: int, i: int, m: int)
    requires
        is_line_scan(img, scan),
        0 <= j < scan.len(),
        0 <= i <= scan[j].len(),
        0 <= m < scan[j].len(),
    ensures
        forall|d: int|
            0 <= d < 8 ==> #[trigger] is_fresh(
                img,
                seen_after(lines_points(scan, j), scan[j], i),
                scan[j][m].0 + dir_dx(d),
                scan[j][m].1 + dir_dy(d),
            ) == untaken_dark(img, scan[j].take(i), scan[j][m].0 + dir_dx(d), scan[j][m].1 + dir_dy(d)),
{
    let before = lines_points(scan, j);
    let line = scan[j];
    let seen = seen_after(before, line, i);
    let p = line[m];
    assert forall|d: int| 0 <= d < 8 implies #[trigger] is_fresh(img, seen, p.0 + dir_dx(d), p.1 + dir_dy(d))
        == untaken_dark(img, line.take(i), p.0 + dir_dx(d), p.1 + dir_dy(d)) by {
        let x = p.0 + dir_dx(d);
        let y = p.1 + dir_dy(d);
        if is_dark(img, x, y) {
            let q = (x as u32, y as u32);
            assert(q.0 as int == x && q.1 as int == y);
            assert(q != p);
            if before.contains(q) {
                let (j2, i2) = choose|j2: int, i2: int| 0 <= j2 < j && 0 <= i2 < scan[j2].len() && scan[j2][i2] == q;
                lemma_scan_separated(img, scan, j2, i2, j, m);
                assert(touches(q, p));
            }
            if in_prefix(line, i, q) {
                let k = choose|k: int| 0 <= k < i && line[k] == q;
                assert(line.take(i)[k] == q);
            }
            if line.take(i).contains(q) {
                let k = choose|k: int| 0 <= k < line.take(i).len() && line.take(i)[k] == q;
                assert(line[k] == q);
                assert(in_prefix(line, i, q));
            }
        }
    }
}

proof fn lemma_scan_steps(img: GrayImage, scan: Seq<Seq<Point>>, j: int)
    requires
        is_line_scan(img, scan),
        0 <= j < scan.len(),
    ensures
        forall|i: int| 1 <= i < scan[j].len() ==> #[trigger] steps_to(img, scan[j], i),
        forall|m: int| 0 <= m < scan[j].len() ==> #[trigger] next_neighbour(img, scan[j], scan[j][m]) is None,
{
    assert(is_scan_line(img, scan, j));
    let before = lines_points(scan, j);
    let line = scan[j];
    assert forall|i: int| 1 <= i < line.len() implies #[trigger] steps_to(img, line, i) by {
        let seen = seen_after(before, line, i);
        let taken = line.take(i);
        assert(continues_at(img, before, line, i));
        let j0 = latest_open(img, seen, line, i);
        lemma_latest_open_is_open(img, seen, line, i);
        lemma_latest_open_rest_closed(img, seen, line, i);
        lemma_scan_fresh_is_untaken(img, scan, j, i, j0);
        lemma_first_fresh_is_next(img, seen, taken, line[j0]);
        assert forall|m: int| j0 < m < i implies #[trigger] next_neighbour(img, taken, line[m]) is None by {
            lemma_scan_fresh_is_untaken(img, scan, j, i, m);
            lemma_first_fresh_is_next(img, seen, taken, line[m]);
            assert(is_closed(img, seen, line[m]));
        }
        assert(0 <= j0 < i && next_neighbour(img, taken, line[j0]) == Some(line[i]));
    }
    let n = line.len() as int;
    let seen = seen_after(before, line, n);
    lemma_all_closed(img, seen, line, n);
    assert(line.take(n) =~= line);
    assert forall|m: int| 0 <= m < n implies #[trigger] next_neighbour(img, line, line[m]) is None by {
        lemma_scan_fresh_is_untaken(img, scan, j, n, m);
        lemma_first_fresh_is_next(img, seen, line, line[m]);
        assert(is_closed(img, seen, line[m]));
    }
}

/// Every line is traced depth first in the fixed neighbour order of
/// `next_neighbour`: each point after the first is the next neighbour of
/// the latest earlier point of its line that still has one, and the line
/// ends when none of its points has one left.
pub proof fn lemma_lines_follow_neighbour_order(img: GrayImage, lines: Seq<Seq<Point>>)
    requires
        are_image_lines(img, lines),
    ensures
        forall|k: int, i: int| 0 <= k < lines.len() && 1 <= i < lines[k].len() ==> #[trigger] steps_to(img, lines[k], i),
        forall|k: int, m: int|
            0 <= k < lines.len() && 0 <= m < lines[k].len() ==> #[trigger] next_neighbour(img, lines[k], lines[k][m]) is None,
{
    let scan = choose|s: Seq<Seq<Point>>| is_line_scan(img, s) && is_longest_first(s, lines);
    let perm = choose|p: Seq<int>| is_length_order(scan, lines, p);
    assert forall|k: int, i: int| 0 <= k < lines.len() && 1 <= i < lines[k].len() implies #[trigger] steps_to(img, lines[k], i) by {
        assert(lines[k] == scan[perm[k]]);
        lemma_scan_steps(img, scan, perm[k]);
    }
    assert forall|k: int, m: int| 0 <= k < lines.len() && 0 <= m < lines[k].len() implies #[trigger] next_neighbour(
        img,
        lines[k],
        lines[k][m],
    ) is None by {
        assert(lines[k] == scan[perm[k]]);
        lemma_scan_steps(img, scan, perm[k]);
    }
}

// ---------------------------------------------------------------------------
// Only the dark pixels matter
// ---------------------------------------------------------------------------

/// Two images have the same size and the same dark (value 0) pixels.
pub open spec fn same_dark_pixels(a: GrayImage, b: GrayImage) -> bool {
    &&& a.width == b.width
    &&& a.height == b.height
    &&& forall|x: int, y: int|
        #![trigger a.at(x, y)]
        #![trigger b.at(x, y)]
        a.contains(x, y) ==> (a.at(x, y) == 0) == (b.at(x, y) == 0)
}

proof fn lemma_same_dark(a: GrayImage, b: GrayImage, x: int, y: int)
    requires
        same_dark_pixels(a, b),
    ensures
        is_dark(a, x, y) == is_dark(b, x, y),
{
    if a.contains(x, y) {
        assert((a.at(x, y) == 0) == (b.at(x, y) == 0));
    }
}

proof fn lemma_same_first_fresh(a: GrayImage, b: GrayImage, seen: Set<Point>, p: Point, d: int)
    requires
        same_dark_pixels(a, b),
    ensures
        first_fresh_dir(a, seen, p, d) == first_fresh_dir(b, seen, p, d),
    decreases 8 - d,
{
    if d < 8 {
        lemma_same_dark(a, b, p.0 + dir_dx(d), p.1 + dir_dy(d));
        lemma_same_first_fresh(a, b, seen, p, d + 1);
    }
}

proof fn lemma_same_latest_open(a: GrayImage, b: GrayImage, seen: Set<Point>, line: Seq<Point>, i: int)
    requires
        same_dark_pixels(a, b),
    ensures
        latest_open(a, seen, line, i) == latest_open(b, seen, line, i),
    decreases i,
{
    if i > 0 {
        lemma_same_first_fresh(a, b, seen, line[i - 1], 0);
        lemma_same_latest_open(a, b, seen, line, i - 1);
    }
}

proof fn lemma_same_trace(a: GrayImage, b: GrayImage, before: Set<Point>, line: Seq<Point>)
    requires
        same_dark_pixels(a, b),
    ensures
        is_trace(a, before, line) == is_trace(b, before, line),
{
    assert forall|i: int|
        #![trigger continues_at(a, before, line, i)]
        #![trigger continues_at(b, before, line, i)]
        1 <= i < line.len() implies continues_at(a, before, line, i) == continues_at(b, before, line, i) by {
        let seen = seen_after(before, line, i);
        lemma_same_latest_open(a, b, seen, line, i);
        lemma_latest_open_range(a, seen, line, i);
        let j = latest_open(a, seen, line, i);
        if 0 <= j < line.len() {
            lemma_same_first_fresh(a, b, seen, line[j], 0);
        }
    }
    lemma_same_latest_open(a, b, seen_after(before, line, line.len() as int), line, line.len() as int);
}

proof fn lemma_same_line_scan(a: GrayImage, b: GrayImage, lines: Seq<Seq<Point>>)
    requires
        same_dark_pixels(a, b),
    ensures
        is_line_scan(a, lines) == is_line_scan(b, lines),
{
    assert forall|p: Point|
        #![trigger is_dark_point(a, p)]
        #![trigger is_dark_point(b, p)]
        is_dark_point(a, p) == is_dark_point(b, p) by {
        lemma_same_dark(a, b, p.0 as int, p.1 as int);
    }
    assert forall|k: int|
        #![trigger is_scan_line(a, lines, k)]
        #![trigger is_scan_line(b, lines, k)]
        0 <= k < lines.len() implies is_scan_line(a, lines, k) == is_scan_line(b, lines, k) by {
        let before = lines_points(lines, k);
        lemma_same_trace(a, b, before, lines[k]);
        lemma_same_dark(a, b, lines[k][0].0 as int, lines[k][0].1 as int);
        assert(is_fresh(a, before, lines[k][0].0 as int, lines[k][0].1 as int) == is_fresh(
            b,
            before,
            lines[k][0].0 as int,
            lines[k][0].1 as int,
        ));
    }
}

/// The lines depend only on which pixels are dark: two images of the same
/// size with the same dark pixels have the same lines.
pub proof fn lemma_lines_depend_only_on_dark_pixels(
    a: GrayImage,
    b: GrayImage,
    lines_a: Seq<Seq<Point>>,
    lines_b: Seq<Seq<Point>>,
)
    requires
        same_dark_pixels(a, b),
        are_image_lines(a, lines_a),
        are_image_lines(b, lines_b),
    ensures
        lines_a == lines_b,
{
    let sa = choose|s: Seq<Seq<Point>>| is_line_scan(a, s) && is_longest_first(s, lines_a);
    let sb = choose|s: Seq<Seq<Point>>| is_line_scan(b, s) && is_longest_first(s, lines_b);
    lemma_same_line_scan(a, b, sa);
    lemma_line_scan_unique(b, sa, sb);
    lemma_longest_first_unique(sa, lines_a, lines_b);
}

} // verus!
