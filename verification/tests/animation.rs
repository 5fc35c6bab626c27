use magiframe::animation::{
    draw_line_frames, drawing_stays_in_picture, flatten_lines, line_drawing_frames, FADE_IN_FRAMES, FRAMES,
    IMAGE_HEIGHT, IMAGE_WIDTH,
};
use magiframe::raster::RgbaImage;

fn original() -> RgbaImage {
    let mut pixels = Vec::new();
    for y in 0..3u8 {
        for x in 0..4u8 {
            pixels.extend_from_slice(&[10 * x + y, 50 + x, 100 + y, 100]);
        }
    }
    RgbaImage::from_raw(4, 3, pixels).unwrap()
}

fn pixel(img: &RgbaImage, x: u32, y: u32) -> [u8; 4] {
    [img.get(x, y, 0), img.get(x, y, 1), img.get(x, y, 2), img.get(x, y, 3)]
}

#[test]
fn frame_counts_follow_the_timing() {
    assert_eq!(FRAMES, 333);
    assert_eq!(FADE_IN_FRAMES, 30);
}

#[test]
fn each_frame_reveals_the_next_slice_of_points() {
    let points = vec![(0, 0), (3, 2), (1, 1)];
    let frames = draw_line_frames(&original(), &points, 4, 3, 1, 2);
    assert_eq!(frames.len(), 2);
    // first frame: only (0, 0), made opaque
    for y in 0..3 {
        for x in 0..4 {
            let expected = if (x, y) == (0, 0) { [0, 50, 100, 255] } else { [255; 4] };
            assert_eq!(pixel(&frames[0], x, y), expected);
        }
    }
    // second frame keeps the first and reveals (3, 2) with its own alpha;
    // (1, 1) is left out: 3 points in 2 frames draw one point each
    for y in 0..3 {
        for x in 0..4 {
            let expected = if (x, y) == (0, 0) {
                [0, 50, 100, 255]
            } else if (x, y) == (3, 2) {
                [32, 53, 102, 100]
            } else {
                [255; 4]
            };
            assert_eq!(pixel(&frames[1], x, y), expected);
        }
    }
}

#[test]
fn squares_start_half_a_side_before_the_point_and_are_clipped() {
    let points = vec![(0, 0)];
    let frames = draw_line_frames(&original(), &points, 4, 3, 3, 1);
    assert_eq!(frames.len(), 1);
    for y in 0..3u32 {
        for x in 0..4u32 {
            let expected = if x < 3 {
                [10 * x as u8 + y as u8, 50 + x as u8, 100 + y as u8, 255]
            } else {
                [255; 4]
            };
            assert_eq!(pixel(&frames[0], x, y), expected);
        }
    }
    let frames = draw_line_frames(&original(), &vec![(2, 1)], 4, 3, 3, 1);
    for y in 0..3u32 {
        for x in 0..4u32 {
            let inside = (1..4).contains(&x) && y < 3;
            let expected = if inside {
                [10 * x as u8 + y as u8, 50 + x as u8, 100 + y as u8, 255]
            } else {
                [255; 4]
            };
            assert_eq!(pixel(&frames[0], x, y), expected);
        }
    }
}

#[test]
fn too_few_points_leave_every_frame_white() {
    let frames = draw_line_frames(&original(), &vec![(0, 0)], 4, 3, 1, 3);
    assert_eq!(frames.len(), 3);
    for f in &frames {
        assert!(f.pixels.iter().all(|&v| v == 255));
    }
}

#[test]
fn lines_are_joined_in_order() {
    let lines = vec![vec![(4, 0), (4, 1)], vec![], vec![(0, 2)]];
    assert_eq!(flatten_lines(&lines), vec![(4, 0), (4, 1), (0, 2)]);
}

#[test]
fn revealed_pixels_stay_revealed_and_the_rest_stays_white() {
    let points = vec![(0, 0), (1, 1), (2, 2), (3, 0), (0, 2), (3, 2)];
    let orig = original();
    let frames = draw_line_frames(&orig, &points, 4, 3, 1, 3);
    for k in 0..3 {
        for y in 0..3u32 {
            for x in 0..4u32 {
                let revealed = points[..(k + 1) * 2].contains(&(x, y));
                let p = pixel(&frames[k], x, y);
                if revealed {
                    for ch in 0..3 {
                        assert_eq!(p[ch], orig.get(x, y, ch));
                    }
                } else {
                    assert_eq!(p, [255; 4]);
                }
            }
        }
    }
}

fn filled(width: u32, height: u32, value: u8) -> RgbaImage {
    RgbaImage::from_raw(width, height, vec![value; (width * height * 4) as usize]).unwrap()
}

#[test]
fn drawing_inside_the_canvas_sized_picture_is_fine() {
    let original = filled(IMAGE_WIDTH, IMAGE_HEIGHT, 9);
    let detection = filled(20, 20, 255);
    assert!(drawing_stays_in_picture(&original, &detection));
}

#[test]
fn too_few_points_draw_nothing_so_any_picture_is_fine() {
    // 100 points are fewer than one per frame: nothing is drawn
    let original = filled(10, 10, 9);
    let detection = filled(10, 10, 255);
    assert!(drawing_stays_in_picture(&original, &detection));
    let frames = line_drawing_frames(&original, &detection);
    assert_eq!(frames.len(), FRAMES);
    assert!(frames[FRAMES - 1].pixels.iter().all(|&v| v == 255));
}

#[test]
fn squares_reaching_past_a_small_picture_are_caught() {
    // a row of 333 dark points, one drawn per frame; the square around
    // (332, 0) reaches column 333, and the squares on row 0 start at row 0,
    // so they reach row 2
    let detection = filled(333, 1, 255);
    assert!(!drawing_stays_in_picture(&filled(333, 3, 9), &detection));
    assert!(!drawing_stays_in_picture(&filled(334, 2, 9), &detection));
    assert!(drawing_stays_in_picture(&filled(334, 3, 9), &detection));
}

#[test]
fn a_small_picture_is_drawn_where_it_reaches() {
    let original = filled(334, 3, 9);
    let detection = filled(333, 1, 255);
    let frames = line_drawing_frames(&original, &detection);
    let last = &frames[FRAMES - 1];
    assert_eq!((last.width, last.height), (IMAGE_WIDTH, IMAGE_HEIGHT));
    assert_eq!(pixel(last, 333, 2), [9; 4]);
    assert_eq!(pixel(last, 334, 0), [255; 4]);
    assert_eq!(pixel(last, 0, 3), [255; 4]);
}
