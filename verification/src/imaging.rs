//! The picture steps: PNG decoding and encoding, Lanczos resizing and
//! two-level dithering, which the `image` crate computes, and the grayscale
//! conversion, computed here as that crate defines it.

use image::{DynamicImage, ImageBuffer, Luma, Rgba};
use std::io::Cursor;
use vstd::prelude::*;

use crate::raster::{GrayImage, Picture, PictureView, Rgba16Image, RgbaImage};

verus! {

/// The picture that `image` decodes from PNG bytes, as RGBA at the depth of
/// the PNG (16 bits per channel for 16-bit PNGs, 8 otherwise); `None` when
/// the bytes are not a PNG it can read.
pub uninterp spec fn png_picture(bytes: Seq<u8>) -> Option<PictureView>;

/// `out` is one of the pictures `image` can return when it resizes `src` to
/// fit in `nwidth` by `nheight` with the Lanczos3 filter. This names the set
/// of possible outcomes, not one result: the filter's weights come from
/// `f32::sin`, whose precision the standard library leaves open.
pub uninterp spec fn lanczos_outcome(src: PictureView, nwidth: u32, nheight: u32, out: PictureView) -> bool;

/// `ow` by `oh` is a size that `image` can pick when it fits a `w` by `h`
/// image into `nwidth` by `nheight`, keeping its aspect ratio: the side whose
/// ratio is the smaller one gets its target length exactly, and the other
/// side is at least one pixel and less than one pixel away from its exact
/// proportional length.
pub open spec fn is_fitted_size(w: u32, h: u32, nwidth: u32, nheight: u32, ow: u32, oh: u32) -> bool {
    &&& ow >= 1
    &&& oh >= 1
    &&& if nheight * w <= nwidth * h {
        &&& oh == nheight
        &&& (ow - 1) * h < w * nheight < (ow + 1) * h
    } else {
        &&& ow == nwidth
        &&& (oh - 1) * w < h * nwidth < (oh + 1) * w
    }
}

/// The PNG file that `image` writes for a grayscale image; `None` when it
/// reports an error.
pub uninterp spec fn png_encoding(width: u32, height: u32, pixels: Seq<u8>) -> Option<Seq<u8>>;

/// The image that `image` computes when it dithers a grayscale image to black
/// and white (Floyd-Steinberg error diffusion with the `BiLevel` map).
pub uninterp spec fn bilevel_dither(width: u32, height: u32, pixels: Seq<u8>) -> Seq<u8>;

/// The grayscale buffer `image` computes from an RGBA image: one `luma_of`
/// value per pixel.
pub open spec fn luma_pixels(img: RgbaImage) -> Seq<u8> {
    Seq::new(
        (img.width as int * img.height as int) as nat,
        |i: int| luma_of(img.pixels@[4 * i], img.pixels@[4 * i + 1], img.pixels@[4 * i + 2]),
    )
}

/// The 8-bit gray value `image` gives a 16-bit RGB colour: the luminance at
/// 16 bits, then scaled to 8 bits with rounding.
pub open spec fn luma16_of(r: u16, g: u16, b: u16) -> u8 {
    ((((2126 * r + 7152 * g + 722 * b) / 10000) + 128) / 257) as u8
}

/// The grayscale buffer `image` computes from a 16-bit RGBA image.
pub open spec fn luma16_pixels(img: Rgba16Image) -> Seq<u8> {
    Seq::new(
        (img.width as int * img.height as int) as nat,
        |i: int| luma16_of(img.pixels@[4 * i], img.pixels@[4 * i + 1], img.pixels@[4 * i + 2]),
    )
}

/// The grayscale buffer of a picture, at its own depth.
pub open spec fn picture_luma(v: PictureView) -> Seq<u8> {
    match v {
        PictureView::Rgba8(w, h, p) => Seq::new(
            (w as int * h as int) as nat,
            |i: int| luma_of(p[4 * i], p[4 * i + 1], p[4 * i + 2]),
        ),
        PictureView::Rgba16(w, h, p) => Seq::new(
            (w as int * h as int) as nat,
            |i: int| luma16_of(p[4 * i], p[4 * i + 1], p[4 * i + 2]),
        ),
    }
}

/// The luminance `image` gives an RGB colour: the sRGB weights
/// 0.2126, 0.7152, 0.0722, in integer arithmetic, rounded down.
pub open spec fn luma_of(r: u8, g: u8, b: u8) -> u8 {
    ((2126 * r + 7152 * g + 722 * b) / 10000) as u8
}

/// Calls `image::load_from_memory_with_format` with the PNG format and keeps
/// the picture's depth: images with 16-bit channels become 16-bit RGBA with
/// `DynamicImage::to_rgba16`, all others 8-bit RGBA with
/// `DynamicImage::to_rgba8`. Claimed: the result is `png_picture` of the
/// bytes, and an RGBA buffer holds four values per pixel.
#[verifier::external_body]
pub(crate) fn decode_png_picture(bytes: &[u8]) -> (res: Option<Picture>)
    ensures
        match res {
            Some(p) => p.wf() && png_picture(bytes@) == Some(p@),
            None => png_picture(bytes@) is None,
        },
{
    match image::load_from_memory_with_format(bytes, image::ImageFormat::Png) {
        Ok(img @ DynamicImage::ImageLuma16(_)) | Ok(img @ DynamicImage::ImageLumaA16(_))
        | Ok(img @ DynamicImage::ImageRgb16(_)) | Ok(img @ DynamicImage::ImageRgba16(_)) => {
            let rgba = img.to_rgba16();
            Some(Picture::Rgba16(Rgba16Image { width: rgba.width(), height: rgba.height(), pixels: rgba.into_raw() }))
        },
        Ok(img) => {
            let rgba = img.to_rgba8();
            Some(Picture::Rgba8(RgbaImage { width: rgba.width(), height: rgba.height(), pixels: rgba.into_raw() }))
        },
        Err(_) => None,
    }
}

/// Calls `DynamicImage::resize` with `FilterType::Lanczos3` on an RGBA
/// image. Claimed, only what holds of every outcome: the result is one of
/// the outcomes of resizing this image to this size (`lanczos_outcome`); it
/// is a well-formed RGBA image; its size is one that `is_fitted_size` allows (the
/// source picks it in `resize_dimensions` from `f64` ratios; IEEE division
/// and multiplication are correctly rounded, so for sizes below 2^32 the
/// constrained side rounds back to its target exactly and the other side is
/// its proportional length, rounded, give or take far less than half a
/// pixel); and the image comes back unchanged when it already has the asked
/// size (the source returns a copy in that case). Left unsaid: the resampled
/// pixels, which the source computes with `f32` weights from `f32::sin`,
/// whose precision the standard library does not fix.
#[verifier::external_body]
pub(crate) fn resize_lanczos3(img: &RgbaImage, nwidth: u32, nheight: u32) -> (out: RgbaImage)
    requires
        img.wf(),
        img.width >= 1,
        img.height >= 1,
        nwidth >= 1,
        nheight >= 1,
    ensures
        out.wf(),
        lanczos_outcome(
            PictureView::Rgba8(img.width, img.height, img.pixels@),
            nwidth,
            nheight,
            PictureView::Rgba8(out.width, out.height, out.pixels@),
        ),
        is_fitted_size(img.width, img.height, nwidth, nheight, out.width, out.height),
        (nwidth, nheight) == (img.width, img.height) ==> out.width == img.width && out.height
            == img.height && out.pixels@ == img.pixels@,
{
    let buf: ImageBuffer<Rgba<u8>, Vec<u8>> = ImageBuffer::from_raw(img.width, img.height, img.pixels.clone()).unwrap();
    let out = DynamicImage::ImageRgba8(buf).resize(nwidth, nheight, image::imageops::FilterType::Lanczos3).to_rgba8();
    RgbaImage { width: out.width(), height: out.height(), pixels: out.into_raw() }
}

/// The grayscale version of an RGBA image, as `DynamicImage::to_luma8`
/// computes it: each gray pixel is `luma_of` the red, green and blue of the
/// pixel, and alpha plays no part.
pub fn rgba_to_luma8(img: &RgbaImage) -> (out: GrayImage)
    requires
        img.wf(),
    ensures
        out.wf(),
        out.width == img.width,
        out.height == img.height,
        out.pixels@ == luma_pixels(*img),
{
    let n: usize = img.pixels.len() / 4;
    let mut pixels: Vec<u8> = Vec::new();
    let mut i: usize = 0;
    while i < n
        invariant
            img.wf(),
            n == img.width as int * img.height as int,
            img.pixels.len() == 4 * n,
            i <= n,
            pixels@.len() == i,
            forall|k: int|
                0 <= k < i ==> #[trigger] pixels@[k] == luma_of(
                    img.pixels@[4 * k],
                    img.pixels@[4 * k + 1],
                    img.pixels@[4 * k + 2],
                ),
        decreases n - i,
    {
        let r: u32 = img.pixels[4 * i] as u32;
        let g: u32 = img.pixels[4 * i + 1] as u32;
        let b: u32 = img.pixels[4 * i + 2] as u32;
        let l: u32 = (2126 * r + 7152 * g + 722 * b) / 10000;
        pixels.push(l as u8);
        i = i + 1;
    }
    let out = GrayImage { width: img.width, height: img.height, pixels };
    assert(out.pixels@ =~= luma_pixels(*img));
    out
}

/// Calls `image::imageops::colorops::dither` with `BiLevel` on a copy of a
/// grayscale image. Claimed: the result is `bilevel_dither` of the image, of
/// the same size, and, as the source shows (every pixel goes through the
/// `BiLevel` map once, after all the error that reaches it), every pixel is 0
/// or 255. The source reads the right neighbour of the first column, so the
/// image must be at least two pixels wide, and one high.
#[verifier::external_body]
pub(crate) fn dither_bilevel(img: &GrayImage) -> (out: GrayImage)
    requires
        img.wf(),
        img.width >= 2,
        img.height >= 1,
    ensures
        out.wf(),
        out.width == img.width,
        out.height == img.height,
        out.pixels@ == bilevel_dither(img.width, img.height, img.pixels@),
        forall|i: int| 0 <= i < out.pixels@.len() ==> #[trigger] out.pixels@[i] == 0 || out.pixels@[i] == 255,
{
    let mut buf: ImageBuffer<Luma<u8>, Vec<u8>> = ImageBuffer::from_raw(img.width, img.height, img.pixels.clone()).unwrap();
    image::imageops::colorops::dither(&mut buf, &image::imageops::colorops::BiLevel);
    GrayImage { width: img.width, height: img.height, pixels: buf.into_raw() }
}

/// Calls `DynamicImage::resize` with `FilterType::Lanczos3` on a 16-bit
/// RGBA image. Claimed, as for `resize_lanczos3`: one of the outcomes of
/// resizing this image to this size, a well-formed result, a size that
/// `is_fitted_size` allows, and a copy when the size is already right.
/// Left unsaid: the resampled pixels.
#[verifier::external_body]
pub(crate) fn resize_lanczos3_16(img: &Rgba16Image, nwidth: u32, nheight: u32) -> (out: Rgba16Image)
    requires
        img.wf(),
        img.width >= 1,
        img.height >= 1,
        nwidth >= 1,
        nheight >= 1,
    ensures
        out.wf(),
        lanczos_outcome(
            PictureView::Rgba16(img.width, img.height, img.pixels@),
            nwidth,
            nheight,
            PictureView::Rgba16(out.width, out.height, out.pixels@),
        ),
        is_fitted_size(img.width, img.height, nwidth, nheight, out.width, out.height),
        (nwidth, nheight) == (img.width, img.height) ==> out.width == img.width && out.height
            == img.height && out.pixels@ == img.pixels@,
{
    let buf: ImageBuffer<Rgba<u16>, Vec<u16>> = ImageBuffer::from_raw(img.width, img.height, img.pixels.clone()).unwrap();
    let out = DynamicImage::ImageRgba16(buf).resize(nwidth, nheight, image::imageops::FilterType::Lanczos3).to_rgba16();
    Rgba16Image { width: out.width(), height: out.height(), pixels: out.into_raw() }
}

/// The grayscale version of a 16-bit RGBA image, as `DynamicImage::to_luma8`
/// computes it: each gray pixel is `luma16_of` the red, green and blue of the
/// pixel, and alpha plays no part.
pub fn rgba16_to_luma8(img: &Rgba16Image) -> (out: GrayImage)
    requires
        img.wf(),
    ensures
        out.wf(),
        out.width == img.width,
        out.height == img.height,
        out.pixels@ == luma16_pixels(*img),
{
    let n: usize = img.pixels.len() / 4;
    let mut pixels: Vec<u8> = Vec::new();
    let mut i: usize = 0;
    while i < n
        invariant
            img.wf(),
            n == img.width as int * img.height as int,
            img.pixels.len() == 4 * n,
            i <= n,
            pixels@.len() == i,
            forall|k: int|
                0 <= k < i ==> #[trigger] pixels@[k] == luma16_of(
                    img.pixels@[4 * k],
                    img.pixels@[4 * k + 1],
                    img.pixels@[4 * k + 2],
                ),
        decreases n - i,
    {
        let r: u32 = img.pixels[4 * i] as u32;
        let g: u32 = img.pixels[4 * i + 1] as u32;
        let b: u32 = img.pixels[4 * i + 2] as u32;
        let l: u32 = ((2126 * r + 7152 * g + 722 * b) / 10000 + 128) / 257;
        pixels.push(l as u8);
        i = i + 1;
    }
    let out = GrayImage { width: img.width, height: img.height, pixels };
    assert(out.pixels@ =~= luma16_pixels(*img));
    out
}

/// Calls `ImageBuffer::write_to` with `ImageOutputFormat::Png` on a grayscale
/// image, into a buffer in memory. Claimed: the result is `png_encoding` of
/// the image.
#[verifier::external_body]
pub(crate) fn encode_png_gray(img: &GrayImage) -> (res: Option<Vec<u8>>)
    requires
        img.wf(),
    ensures
        match res {
            Some(bytes) => png_encoding(img.width, img.height, img.pixels@) == Some(bytes@),
            None => png_encoding(img.width, img.height, img.pixels@) is None,
        },
{
    let buf: ImageBuffer<Luma<u8>, Vec<u8>> = ImageBuffer::from_raw(img.width, img.height, img.pixels.clone()).unwrap();
    let mut out = Cursor::new(Vec::new());
    match buf.write_to(&mut out, image::ImageOutputFormat::Png) {
        Ok(()) => Some(out.into_inner()),
        Err(_) => None,
    }
}

} // verus!
