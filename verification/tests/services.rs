use magiframe::ai::AIService;
use magiframe::config::ConfigService;
use magiframe::image_service::{dithered_frame, encode_frame_png, open_png, ImageService, ImageServiceError};
use magiframe::raster::{GrayImage, Picture, Rgba16Image, RgbaImage};
use magiframe::state::{create_app_state, AppState, BootError};
use std::sync::Arc;

#[test]
fn services_are_wired_together() {
    let config_service = Arc::new(ConfigService::new());
    let ai_service = Arc::new(AIService::new(Arc::clone(&config_service)));
    let _image_service = ImageService::new(Arc::clone(&ai_service));
    let state = AppState { config_service, ai_service };
    let _copy = state.clone();
}

#[test]
fn boot_errors_carry_their_reason() {
    let e = BootError::Bind { address: "0.0.0.0:8080".to_string(), error: "in use".to_string() };
    assert!(format!("{:?}", e).contains("in use"));
    assert_eq!(ImageServiceError::InternalError, ImageServiceError::InternalError);
}

#[test]
fn white_picture_dithers_to_white() {
    let img = RgbaImage::from_raw(3, 2, vec![255; 24]).unwrap();
    let out = dithered_frame(&Picture::Rgba8(img));
    assert_eq!(out.pixels, vec![255; 6]);
}

#[test]
fn mid_gray_dithers_to_a_pattern() {
    let img = RgbaImage::from_raw(4, 4, vec![128; 64]).unwrap();
    let out = dithered_frame(&Picture::Rgba8(img));
    assert_eq!((out.width, out.height), (4, 4));
    assert!(out.pixels.iter().all(|&v| v == 0 || v == 255));
    assert!(out.pixels.iter().any(|&v| v == 0));
    assert!(out.pixels.iter().any(|&v| v == 255));
}

#[test]
fn app_state_shares_one_configuration() {
    let state = create_app_state().unwrap();
    let _ai = state.ai_service.config_service();
}

#[test]
fn sixteen_bit_picture_dithers_from_its_own_gray() {
    // gray 8 at 16-bit depth: every pixel of a 2 x 1 image is below the threshold
    let img = Rgba16Image { width: 2, height: 1, pixels: vec![0, 2723, 0, 65535, 0, 2723, 0, 65535] };
    let out = dithered_frame(&Picture::Rgba16(img));
    assert_eq!(out.pixels, vec![0, 0]);
    let white = Rgba16Image { width: 2, height: 1, pixels: vec![65535; 8] };
    assert_eq!(dithered_frame(&Picture::Rgba16(white)).pixels, vec![255, 255]);
}

#[test]
fn saved_png_opens_at_its_depth() {
    let img8 = image::RgbaImage::from_pixel(3, 2, image::Rgba([1, 2, 3, 4]));
    let mut bytes = Vec::new();
    img8.write_to(&mut std::io::Cursor::new(&mut bytes), image::ImageOutputFormat::Png).unwrap();
    match open_png(&bytes) {
        Some(Picture::Rgba8(p)) => {
            assert_eq!((p.width, p.height), (3, 2));
            assert_eq!(&p.pixels[0..4], &[1, 2, 3, 4]);
        }
        _ => panic!("expected an 8-bit picture"),
    }
    let img16: image::ImageBuffer<image::Rgb<u16>, Vec<u16>> =
        image::ImageBuffer::from_pixel(2, 2, image::Rgb([1000, 2000, 3000]));
    let mut bytes = Vec::new();
    img16.write_to(&mut std::io::Cursor::new(&mut bytes), image::ImageOutputFormat::Png).unwrap();
    match open_png(&bytes) {
        Some(Picture::Rgba16(p)) => {
            assert_eq!((p.width, p.height), (2, 2));
            assert_eq!(&p.pixels[0..4], &[1000, 2000, 3000, 65535]);
        }
        _ => panic!("expected a 16-bit picture"),
    }
    assert!(open_png(&[0, 1, 2, 3]).is_none());
}

#[test]
fn frame_png_decodes_back_to_the_frame() {
    let frame = GrayImage::from_raw(3, 2, vec![0, 255, 0, 255, 255, 0]).unwrap();
    let bytes = encode_frame_png(&frame).unwrap();
    assert_eq!(&bytes[1..4], b"PNG");
    let back = image::load_from_memory(&bytes).unwrap().to_luma8();
    assert_eq!(back.dimensions(), (3, 2));
    assert_eq!(back.into_raw(), vec![0, 255, 0, 255, 255, 0]);
}
