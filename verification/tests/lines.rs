use magiframe::lines::{extract_lines_from_image, sort_longest_first, trace_lines};
use magiframe::raster::GrayImage;

fn gray(width: u32, height: u32, pixels: Vec<u8>) -> GrayImage {
    GrayImage::from_raw(width, height, pixels).unwrap()
}

#[test]
fn diagonal_pixels_form_one_line_in_trace_order() {
    let img = gray(3, 3, vec![0, 255, 0, 255, 0, 255, 0, 255, 255]);
    let lines = extract_lines_from_image(&img);
    assert_eq!(lines, vec![vec![(0, 0), (1, 1), (2, 0), (0, 2)]]);
}

#[test]
fn lines_come_longest_first_and_keep_scan_order_on_ties() {
    let img = gray(
        5,
        4,
        vec![
            0, 0, 255, 255, 0, //
            255, 255, 255, 255, 0, //
            0, 255, 255, 255, 0, //
            0, 0, 255, 255, 255,
        ],
    );
    let lines = extract_lines_from_image(&img);
    assert_eq!(
        lines,
        vec![vec![(4, 0), (4, 1), (4, 2)], vec![(0, 2), (0, 3), (1, 3)], vec![(0, 0), (1, 0)]]
    );
}

#[test]
fn scan_order_before_sorting() {
    let img = gray(
        5,
        4,
        vec![
            0, 0, 255, 255, 0, //
            255, 255, 255, 255, 0, //
            0, 255, 255, 255, 0, //
            0, 0, 255, 255, 255,
        ],
    );
    let lines = trace_lines(&img);
    assert_eq!(
        lines,
        vec![vec![(0, 0), (1, 0)], vec![(4, 0), (4, 1), (4, 2)], vec![(0, 2), (0, 3), (1, 3)]]
    );
}

#[test]
fn full_block_is_traced_depth_first() {
    let img = gray(3, 2, vec![0; 6]);
    let lines = extract_lines_from_image(&img);
    assert_eq!(lines, vec![vec![(0, 0), (0, 1), (1, 1), (2, 1), (2, 0), (1, 0)]]);
}

#[test]
fn image_without_dark_pixels_has_no_lines() {
    let img = gray(4, 3, vec![255; 12]);
    assert!(extract_lines_from_image(&img).is_empty());
    let empty = gray(0, 0, vec![]);
    assert!(extract_lines_from_image(&empty).is_empty());
}

#[test]
fn only_value_zero_is_dark() {
    let img = gray(3, 1, vec![1, 0, 254]);
    assert_eq!(extract_lines_from_image(&img), vec![vec![(1, 0)]]);
}

#[test]
fn every_dark_pixel_lies_on_exactly_one_line() {
    let mut pixels = vec![255u8; 8 * 6];
    for (x, y) in [(0, 0), (1, 1), (5, 0), (6, 0), (7, 1), (3, 4), (3, 5), (0, 5)] {
        pixels[y * 8 + x] = 0;
    }
    let img = gray(8, 6, pixels.clone());
    let lines = extract_lines_from_image(&img);
    let mut all: Vec<(u32, u32)> = lines.iter().flatten().copied().collect();
    all.sort();
    let mut expected: Vec<(u32, u32)> = (0..6u32)
        .flat_map(|y| (0..8u32).map(move |x| (x, y)))
        .filter(|&(x, y)| pixels[(y * 8 + x) as usize] == 0)
        .collect();
    expected.sort();
    assert_eq!(all, expected);
    for w in lines.windows(2) {
        assert!(w[0].len() >= w[1].len());
    }
    assert_eq!(lines.len(), 4);
}

#[test]
fn sorting_is_stable_longest_first() {
    let lines = vec![
        vec![(0, 0)],
        vec![(1, 0), (2, 0)],
        vec![(3, 0)],
        vec![(4, 0), (5, 0), (6, 0)],
        vec![(7, 0), (8, 0)],
    ];
    let sorted = sort_longest_first(lines);
    assert_eq!(
        sorted,
        vec![
            vec![(4, 0), (5, 0), (6, 0)],
            vec![(1, 0), (2, 0)],
            vec![(7, 0), (8, 0)],
            vec![(0, 0)],
            vec![(3, 0)],
        ]
    );
}

fn sample() -> GrayImage {
    let mut pixels = vec![255u8; 9 * 7];
    for (x, y) in [(0, 0), (1, 1), (2, 2), (5, 0), (6, 1), (6, 2), (8, 6), (3, 5), (4, 6), (0, 6)] {
        pixels[y * 9 + x] = 0;
    }
    gray(9, 7, pixels)
}

fn touch(p: (u32, u32), q: (u32, u32)) -> bool {
    p != q && (p.0 as i64 - q.0 as i64).abs() <= 1 && (p.1 as i64 - q.1 as i64).abs() <= 1
}

#[test]
fn pixels_of_different_lines_never_touch() {
    let lines = extract_lines_from_image(&sample());
    assert_eq!(lines.len(), 5);
    for (a, la) in lines.iter().enumerate() {
        for (b, lb) in lines.iter().enumerate() {
            if a != b {
                for &p in la {
                    for &q in lb {
                        assert!(!touch(p, q));
                    }
                }
            }
        }
    }
}

#[test]
fn each_pixel_touches_an_earlier_one_of_its_line() {
    let lines = extract_lines_from_image(&sample());
    for line in &lines {
        assert!(!line.is_empty());
        for i in 1..line.len() {
            assert!(line[..i].iter().any(|&p| touch(p, line[i])));
        }
    }
}

#[test]
fn extraction_depends_only_on_the_image() {
    assert_eq!(extract_lines_from_image(&sample()), extract_lines_from_image(&sample()));
    assert_eq!(
        extract_lines_from_image(&sample()),
        vec![
            vec![(0, 0), (1, 1), (2, 2)],
            vec![(5, 0), (6, 1), (6, 2)],
            vec![(3, 5), (4, 6)],
            vec![(0, 6)],
            vec![(8, 6)],
        ]
    );
}

#[test]
fn only_which_pixels_are_dark_matters() {
    let a = gray(4, 3, vec![0, 255, 17, 0, 9, 0, 200, 0, 0, 1, 0, 255]);
    let b = gray(4, 3, vec![0, 3, 250, 0, 128, 0, 1, 0, 0, 77, 0, 64]);
    assert_eq!(extract_lines_from_image(&a), extract_lines_from_image(&b));
}
