use magiframe::ai::{
    bearer_authorization, first_image_url, generation_request_body, prepare_generated_image,
    stages_from_fitted, AIError, AIResponse, AIResponseData, AIService, CROPPED_HEIGHT,
    CROPPED_WIDTH,
};
use magiframe::config::ConfigService;
use magiframe::raster::{Picture, RgbaImage};
use std::sync::Arc;

fn png(width: u32, height: u32, color: [u8; 4]) -> Vec<u8> {
    let img = image::RgbaImage::from_pixel(width, height, image::Rgba(color));
    let mut bytes = Vec::new();
    img.write_to(&mut std::io::Cursor::new(&mut bytes), image::ImageOutputFormat::Png).unwrap();
    bytes
}

fn png16(width: u32, height: u32, color: [u16; 3]) -> Vec<u8> {
    let img: image::ImageBuffer<image::Rgb<u16>, Vec<u16>> =
        image::ImageBuffer::from_pixel(width, height, image::Rgb(color));
    let mut bytes = Vec::new();
    img.write_to(&mut std::io::Cursor::new(&mut bytes), image::ImageOutputFormat::Png).unwrap();
    bytes
}

fn rgba8(picture: &Picture) -> &RgbaImage {
    match picture {
        Picture::Rgba8(img) => img,
        Picture::Rgba16(_) => panic!("expected an 8-bit picture"),
    }
}

#[test]
fn request_body_holds_the_prompt() {
    let body = generation_request_body("a cat");
    assert_eq!(
        body,
        "{\n    \"model\": \"dall-e-3\",\n    \"prompt\": \"a cat\",\n    \"n\": 1,\n    \"size\": \"1024x1024\"\n}"
    );
}

#[test]
fn authorization_is_a_bearer_token() {
    assert_eq!(bearer_authorization("abc"), "Bearer abc");
}

#[test]
fn first_url_is_taken() {
    let resp = AIResponse {
        data: vec![
            AIResponseData { url: "https://a/1.png".to_string() },
            AIResponseData { url: "https://a/2.png".to_string() },
        ],
    };
    assert_eq!(first_image_url(&resp), Ok("https://a/1.png".to_string()));
    let empty = AIResponse { data: vec![] };
    assert_eq!(first_image_url(&empty), Err(AIError::InternalError));
}

#[test]
fn service_is_built_from_its_config() {
    let _service = AIService::new(Arc::new(ConfigService::new()));
}

#[test]
fn stages_cut_the_middle_and_dither() {
    let mut pixels = Vec::new();
    for y in 0..CROPPED_HEIGHT + 2 {
        for x in 0..CROPPED_WIDTH + 4 {
            pixels.extend_from_slice(&[(x % 256) as u8, (y % 256) as u8, 128, 255]);
        }
    }
    let fitted = RgbaImage::from_raw(CROPPED_WIDTH + 4, CROPPED_HEIGHT + 2, pixels).unwrap();
    let stages = stages_from_fitted(&Picture::Rgba8(fitted)).unwrap();
    let cropped = rgba8(&stages.cropped);
    assert_eq!((cropped.width, cropped.height), (CROPPED_WIDTH, CROPPED_HEIGHT));
    // the cut starts at (2, 1)
    assert_eq!(cropped.get(0, 0, 0), 2);
    assert_eq!(cropped.get(0, 0, 1), 1);
    assert_eq!(cropped.get(10, 20, 0), 12);
    assert_eq!(cropped.get(10, 20, 1), 21);
    let (r, g, b) = (12u32, 21u32, 128u32);
    assert_eq!(stages.grayscale.get(10, 20) as u32, (2126 * r + 7152 * g + 722 * b) / 10000);
    assert!(stages.dithered.pixels.iter().all(|&v| v == 0 || v == 255));
    assert!(stages.dithered.pixels.iter().any(|&v| v == 0));
    assert!(stages.dithered.pixels.iter().any(|&v| v == 255));
}

#[test]
fn too_small_pictures_are_refused() {
    let fitted = RgbaImage::from_raw(CROPPED_WIDTH - 1, CROPPED_HEIGHT, vec![0; ((CROPPED_WIDTH - 1) * CROPPED_HEIGHT * 4) as usize]).unwrap();
    assert!(matches!(stages_from_fitted(&Picture::Rgba8(fitted)), Err(AIError::InternalError)));
}

#[test]
fn generated_png_is_fitted_cut_and_dithered() {
    let stages = prepare_generated_image(&png(100, 100, [200, 40, 10, 255])).unwrap();
    let cropped = rgba8(&stages.cropped);
    assert_eq!((cropped.width, cropped.height), (CROPPED_WIDTH, CROPPED_HEIGHT));
    assert_eq!((stages.grayscale.width, stages.grayscale.height), (CROPPED_WIDTH, CROPPED_HEIGHT));
    assert_eq!((stages.dithered.width, stages.dithered.height), (CROPPED_WIDTH, CROPPED_HEIGHT));
    let (r, g, b) = (
        cropped.get(5, 5, 0) as u32,
        cropped.get(5, 5, 1) as u32,
        cropped.get(5, 5, 2) as u32,
    );
    assert_eq!(stages.grayscale.get(5, 5) as u32, (2126 * r + 7152 * g + 722 * b) / 10000);
    assert!(stages.dithered.pixels.iter().all(|&v| v == 0 || v == 255));
}

#[test]
fn wide_png_does_not_fill_the_frame() {
    // 100 x 200 fits as 400 x 800, narrower than the frame
    assert!(matches!(prepare_generated_image(&png(100, 200, [1, 2, 3, 255])), Err(AIError::InternalError)));
}

#[test]
fn bytes_that_are_no_png_are_refused() {
    assert!(matches!(prepare_generated_image(&[1, 2, 3, 4]), Err(AIError::InternalError)));
}

#[test]
fn sixteen_bit_png_is_grayed_at_its_own_depth() {
    // 800 x 800 needs no resizing; gray at 16 bits is 7152 * 2723 / 10000 = 1947,
    // which becomes (1947 + 128) / 257 = 8 at 8 bits
    let stages = prepare_generated_image(&png16(800, 800, [0, 2723, 0])).unwrap();
    match &stages.cropped {
        Picture::Rgba16(img) => {
            assert_eq!((img.width, img.height), (CROPPED_WIDTH, CROPPED_HEIGHT));
            assert_eq!(&img.pixels[0..4], &[0, 2723, 0, 65535]);
        }
        Picture::Rgba8(_) => panic!("the picture lost its depth"),
    }
    assert!(stages.grayscale.pixels.iter().all(|&v| v == 8));
    assert!(stages.dithered.pixels.iter().all(|&v| v == 0 || v == 255));
}

#[test]
fn eight_bit_png_of_the_rounded_colour_grays_differently() {
    // the same green narrowed to 8 bits first, (2723 + 128) / 257 = 11, gives 7152 * 11 / 10000 = 7
    let stages = prepare_generated_image(&png(800, 800, [0, 11, 0, 255])).unwrap();
    assert!(stages.grayscale.pixels.iter().all(|&v| v == 7));
}

#[test]
fn square_png_always_fills_the_frame() {
    let stages = prepare_generated_image(&png(300, 300, [90, 90, 90, 255])).unwrap();
    assert_eq!((stages.dithered.width, stages.dithered.height), (CROPPED_WIDTH, CROPPED_HEIGHT));
}

#[test]
fn sixteen_bit_stages_cut_the_middle() {
    let (w, h) = (CROPPED_WIDTH + 2, CROPPED_HEIGHT + 4);
    let mut pixels = Vec::new();
    for y in 0..h {
        for x in 0..w {
            pixels.extend_from_slice(&[(x * 100) as u16, (y * 50) as u16, 0, 65535]);
        }
    }
    let fitted = Picture::Rgba16(magiframe::raster::Rgba16Image { width: w, height: h, pixels });
    let stages = stages_from_fitted(&fitted).unwrap();
    match &stages.cropped {
        Picture::Rgba16(img) => {
            // the cut starts at (1, 2)
            assert_eq!(&img.pixels[0..4], &[100, 100, 0, 65535]);
        }
        Picture::Rgba8(_) => panic!("the picture lost its depth"),
    }
    // (2126 * 100 + 7152 * 100) / 10000 = 92, then (92 + 128) / 257 = 0
    assert_eq!(stages.grayscale.get(0, 0), 0);
}

#[test]
fn portrait_at_the_frame_ratio_fills_the_frame() {
    // 300 x 500 fits as 480 x 800, exactly the frame
    let stages = prepare_generated_image(&png(300, 500, [10, 200, 30, 255])).unwrap();
    assert_eq!((stages.dithered.width, stages.dithered.height), (CROPPED_WIDTH, CROPPED_HEIGHT));
    assert!(stages.dithered.pixels.iter().all(|&v| v == 0 || v == 255));
}

#[test]
fn portrait_narrower_than_the_frame_is_refused() {
    // 290 x 500 fits as 464 x 800
    assert!(matches!(prepare_generated_image(&png(290, 500, [10, 200, 30, 255])), Err(AIError::InternalError)));
}

#[test]
fn landscape_is_refused() {
    // 500 x 300 fits as 800 x 480, too low for the frame
    assert!(matches!(prepare_generated_image(&png(500, 300, [10, 200, 30, 255])), Err(AIError::InternalError)));
}
