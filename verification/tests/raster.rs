use magiframe::raster::{crop, lines_mask, GrayImage, RgbaImage};

#[test]
fn from_raw_checks_the_buffer_size() {
    assert!(GrayImage::from_raw(2, 3, vec![0; 6]).is_some());
    assert!(GrayImage::from_raw(2, 3, vec![0; 5]).is_none());
    assert!(RgbaImage::from_raw(2, 3, vec![0; 24]).is_some());
    assert!(RgbaImage::from_raw(2, 3, vec![0; 6]).is_none());
}

#[test]
fn pixels_are_read_row_by_row() {
    let g = GrayImage::from_raw(3, 2, vec![1, 2, 3, 4, 5, 6]).unwrap();
    assert_eq!(g.get(2, 0), 3);
    assert_eq!(g.get(0, 1), 4);
    let c = RgbaImage::from_raw(2, 1, vec![1, 2, 3, 4, 5, 6, 7, 8]).unwrap();
    assert_eq!(c.get(1, 0, 2), 7);
}

#[test]
fn mask_is_white_where_red_is_zero() {
    let det = RgbaImage::from_raw(3, 1, vec![0, 9, 9, 255, 7, 0, 0, 255, 0, 0, 0, 0]).unwrap();
    let mask = lines_mask(&det);
    assert_eq!((mask.width, mask.height), (3, 1));
    assert_eq!(mask.pixels, vec![255, 0, 255]);
}

#[test]
fn crop_copies_the_rectangle() {
    let pixels: Vec<u8> = (0..4 * 3 * 4).map(|v| v as u8).collect();
    let img = RgbaImage::from_raw(4, 3, pixels).unwrap();
    let out = crop(&img, 1, 1, 2, 2);
    assert_eq!((out.width, out.height), (2, 2));
    // pixel (1,1) is index 5, (2,1) index 6, (1,2) index 9, (2,2) index 10
    let mut expected = Vec::new();
    for p in [5u8, 6, 9, 10] {
        for c in 0..4 {
            expected.push(p * 4 + c);
        }
    }
    assert_eq!(out.pixels, expected);
}

#[test]
fn crop_is_clamped_to_the_image() {
    let pixels: Vec<u8> = (0..4 * 3 * 4).map(|v| v as u8).collect();
    let img = RgbaImage::from_raw(4, 3, pixels).unwrap();
    let out = crop(&img, 3, 2, 10, 10);
    assert_eq!((out.width, out.height), (1, 1));
    assert_eq!(out.pixels, vec![44, 45, 46, 47]);
    let none = crop(&img, 9, 9, 2, 2);
    assert_eq!((none.width, none.height), (0, 0));
    assert!(none.pixels.is_empty());
}
