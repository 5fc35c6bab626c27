//! The picture service: the dithered bitmap of a picture.

use std::sync::Arc;
use vstd::prelude::*;

use crate::ai::AIService;
use crate::imaging::{
    bilevel_dither, decode_png_picture, dither_bilevel, encode_png_gray, picture_luma, png_encoding,
    png_picture, rgba16_to_luma8, rgba_to_luma8,
};
use crate::raster::{GrayImage, Picture};

verus! {

/// Why the picture service failed.
#[derive(Debug, Clone, Copy, PartialEq, Eq, Structural)]
pub enum ImageServiceError {
    InternalError,
}

/// Produces the frame's pictures and their drawing animation.
pub struct ImageService {
    ai_service: Arc<AIService>,
}

impl ImageService {
    /// The generator this service asks for new pictures.
    pub closed spec fn ai(&self) -> Arc<AIService> {
        self.ai_service
    }

    pub fn new(ai_service: Arc<AIService>) -> (service: Self)
        ensures
            service.ai() == ai_service,
    {
        Self { ai_service }
    }

    /// The generator this service asks for new pictures.
    pub fn ai_service(&self) -> (ai: &Arc<AIService>)
        ensures
            *ai == self.ai(),
    {
        &self.ai_service
    }
}

/// Decodes a saved PNG picture at its own depth; `None` when the bytes are
/// not a PNG.
pub fn open_png(bytes: &[u8]) -> (res: Option<Picture>)
    ensures
        match res {
            Some(p) => p.wf() && png_picture(bytes@) == Some(p@),
            None => png_picture(bytes@) is None,
        },
{
    decode_png_picture(bytes)
}

/// The bitmap the frame shows for a picture: its grayscale version, taken at
/// the picture's depth, dithered to black and white.
pub fn dithered_frame(picture: &Picture) -> (out: GrayImage)
    requires
        picture.wf(),
        picture@.width() >= 2,
        picture@.height() >= 1,
    ensures
        out.wf(),
        out.width == picture@.width(),
        out.height == picture@.height(),
        out.pixels@ == bilevel_dither(out.width, out.height, picture_luma(picture@)),
        forall|i: int| 0 <= i < out.pixels@.len() ==> #[trigger] out.pixels@[i] == 0 || out.pixels@[i] == 255,
{
    let grayscale = match picture {
        Picture::Rgba8(img) => {
            let g = rgba_to_luma8(img);
            assert(g.pixels@ =~= picture_luma(picture@));
            g
        },
        Picture::Rgba16(img) => {
            let g = rgba16_to_luma8(img);
            assert(g.pixels@ =~= picture_luma(picture@));
            g
        },
    };
    dither_bilevel(&grayscale)
}

/// The PNG file of a frame's bitmap; `None` when the encoder fails.
pub fn encode_frame_png(frame: &GrayImage) -> (res: Option<Vec<u8>>)
    requires
        frame.wf(),
    ensures
        match res {
            Some(bytes) => png_encoding(frame.width, frame.height, frame.pixels@) == Some(bytes@),
            None => png_encoding(frame.width, frame.height, frame.pixels@) is None,
        },
{
    encode_png_gray(frame)
}

} // verus!
