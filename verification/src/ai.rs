//! The picture generator: the request the server sends, how it reads the
//! reply, and how the generated picture becomes the dithered bitmap the frame
//! shows.

use std::sync::Arc;
use vstd::prelude::*;
use vstd::string::*;

use crate::config::ConfigService;
use crate::imaging::{
    bilevel_dither, decode_png_picture, dither_bilevel, is_fitted_size, lanczos_outcome, picture_luma, png_picture,
    resize_lanczos3, resize_lanczos3_16, rgba16_to_luma8, rgba_to_luma8,
};
use crate::raster::{chan, crop, crop16, crop_rect, GrayImage, Picture, PictureView};

verus! {

/// Width of the picture the frame shows.
pub const CROPPED_WIDTH: u32 = 480;

/// Height of the picture the frame shows.
pub const CROPPED_HEIGHT: u32 = 800;

/// Why a picture could not be produced.
#[derive(Debug, Clone, Copy, PartialEq, Eq, Structural)]
pub enum AIError {
    InternalError,
}

/// One generated picture in the generator's reply.
pub struct AIResponseData {
    pub url: String,
}

/// The generator's reply.
pub struct AIResponse {
    pub data: Vec<AIResponseData>,
}

/// Talks to the picture generator.
pub struct AIService {
    config_service: Arc<ConfigService>,
}

impl AIService {
    /// The configuration this service reads its token from.
    pub closed spec fn config(&self) -> Arc<ConfigService> {
        self.config_service
    }

    pub fn new(config_service: Arc<ConfigService>) -> (service: Self)
        ensures
            service.config() == config_service,
    {
        Self { config_service }
    }

    /// The configuration this service reads its token from.
    pub fn config_service(&self) -> (config: &Arc<ConfigService>)
        ensures
            *config == self.config(),
    {
        &self.config_service
    }
}

/// The body of the generation request: one 1024x1024 picture from the
/// `dall-e-3` model for the prompt `query`, inserted as it is.
pub fn generation_request_body(query: &str) -> (body: String)
    ensures
        body@ == "{\n    \"model\": \"dall-e-3\",\n    \"prompt\": \""@ + query@
            + "\",\n    \"n\": 1,\n    \"size\": \"1024x1024\"\n}"@,
{
    let mut body = String::from_str("{\n    \"model\": \"dall-e-3\",\n    \"prompt\": \"");
    body.append(query);
    body.append("\",\n    \"n\": 1,\n    \"size\": \"1024x1024\"\n}");
    body
}

/// The value of the `Authorization` header for a token.
pub fn bearer_authorization(token: &str) -> (value: String)
    ensures
        value@ == "Bearer "@ + token@,
{
    let mut value = String::from_str("Bearer ");
    value.append(token);
    value
}

/// The address of the first picture of the reply.
pub fn first_image_url(response: &AIResponse) -> (res: Result<String, AIError>)
    ensures
        response.data@.len() > 0 ==> (res matches Ok(url) && url@ == response.data@[0].url@),
        response.data@.len() == 0 ==> res == Err::<String, AIError>(AIError::InternalError),
{
    if response.data.len() > 0 {
        Ok(response.data[0].url.clone())
    } else {
        Err(AIError::InternalError)
    }
}

/// The stages of turning a picture into what the frame shows.
pub struct DitherStages {
    /// The middle `CROPPED_WIDTH` by `CROPPED_HEIGHT` part of the fitted
    /// picture, at the picture's depth.
    pub cropped: Picture,
    /// Its grayscale version.
    pub grayscale: GrayImage,
    /// The black-and-white dithering of the grayscale version.
    pub dithered: GrayImage,
}

/// `q` (`cw` by `ch`) is the `CROPPED_WIDTH` by `CROPPED_HEIGHT` part of `p`
/// (`w` wide) whose corner is `(ox, oy)`.
pub open spec fn is_cut<T>(w: u32, p: Seq<T>, cw: u32, ch: u32, q: Seq<T>, ox: int, oy: int) -> bool {
    &&& cw == CROPPED_WIDTH
    &&& ch == CROPPED_HEIGHT
    &&& q.len() == cw as int * ch as int * 4
    &&& forall|x: int, y: int, c: int|
        0 <= x < cw && 0 <= y < ch && 0 <= c < 4 ==> #[trigger] chan(q, cw as int, x, y, c) == chan(
            p,
            w as int,
            ox + x,
            oy + y,
            c,
        )
}

/// `cut` is the middle part of `fitted` that the frame shows, cut where the
/// picture is centred, at the same depth.
pub open spec fn is_center_cut(fitted: PictureView, cut: PictureView) -> bool {
    let ox = (fitted.width() - CROPPED_WIDTH) / 2;
    let oy = (fitted.height() - CROPPED_HEIGHT) / 2;
    match (fitted, cut) {
        (PictureView::Rgba8(w, _, p), PictureView::Rgba8(cw, ch, q)) => is_cut(w, p, cw, ch, q, ox, oy),
        (PictureView::Rgba16(w, _, p), PictureView::Rgba16(cw, ch, q)) => is_cut(w, p, cw, ch, q, ox, oy),
        _ => false,
    }
}

/// `stages` come from the fitted picture: its middle part, then its grayscale
/// version at the picture's depth, then that dithered to black and white.
pub open spec fn is_stages_of(fitted: PictureView, stages: DitherStages) -> bool {
    &&& stages.cropped.wf()
    &&& is_center_cut(fitted, stages.cropped@)
    &&& stages.grayscale.wf()
    &&& stages.grayscale.width == CROPPED_WIDTH
    &&& stages.grayscale.height == CROPPED_HEIGHT
    &&& stages.grayscale.pixels@ == picture_luma(stages.cropped@)
    &&& stages.dithered.wf()
    &&& stages.dithered.width == CROPPED_WIDTH
    &&& stages.dithered.height == CROPPED_HEIGHT
    &&& stages.dithered.pixels@ == bilevel_dither(CROPPED_WIDTH, CROPPED_HEIGHT, stages.grayscale.pixels@)
    &&& forall|i: int|
        0 <= i < stages.dithered.pixels@.len() ==> #[trigger] stages.dithered.pixels@[i] == 0
            || stages.dithered.pixels@[i] == 255
}

/// The frame shows the middle of the fitted picture: when `ox` columns are
/// left out on the left and `ox` or `ox + 1` on the right, and likewise `oy`
/// rows above and `oy` or `oy + 1` below, the cut picture, at the fitted
/// picture's depth, is the fitted picture shifted by `(ox, oy)`.
pub proof fn lemma_stages_show_the_middle(fitted: PictureView, stages: DitherStages, ox: int, oy: int)
    requires
        is_stages_of(fitted, stages),
        2 * ox + CROPPED_WIDTH <= fitted.width() <= 2 * ox + CROPPED_WIDTH + 1,
        2 * oy + CROPPED_HEIGHT <= fitted.height() <= 2 * oy + CROPPED_HEIGHT + 1,
    ensures
        stages.cropped@.width() == CROPPED_WIDTH,
        stages.cropped@.height() == CROPPED_HEIGHT,
        (stages.cropped@ is Rgba8) == (fitted is Rgba8),
        forall|a: int, b: int, c: int|
            0 <= a < CROPPED_WIDTH && 0 <= b < CROPPED_HEIGHT && 0 <= c < 4 ==> #[trigger] stages.cropped@.channel(
                a,
                b,
                c,
            ) == fitted.channel(ox + a, oy + b, c),
{
    assert(ox == (fitted.width() - CROPPED_WIDTH) / 2);
    assert(oy == (fitted.height() - CROPPED_HEIGHT) / 2);
    assert forall|a: int, b: int, c: int|
        0 <= a < CROPPED_WIDTH && 0 <= b < CROPPED_HEIGHT && 0 <= c < 4 implies #[trigger] stages.cropped@.channel(
            a,
            b,
            c,
        ) == fitted.channel(ox + a, oy + b, c) by {
        match (fitted, stages.cropped@) {
            (PictureView::Rgba8(w, _, p), PictureView::Rgba8(cw, _, q)) => {
                assert(chan(q, cw as int, a, b, c) == chan(p, w as int, ox + a, oy + b, c));
            },
            (PictureView::Rgba16(w, _, p), PictureView::Rgba16(cw, _, q)) => {
                assert(chan(q, cw as int, a, b, c) == chan(p, w as int, ox + a, oy + b, c));
            },
            _ => {},
        }
    }
}

/// Cuts the middle of a fitted picture, turns it gray and dithers it. Fails
/// when the picture is smaller than what the frame shows.
pub fn stages_from_fitted(fitted: &Picture) -> (res: Result<DitherStages, AIError>)
    requires
        fitted.wf(),
    ensures
        res is Ok <==> fitted@.width() >= CROPPED_WIDTH && fitted@.height() >= CROPPED_HEIGHT,
        res matches Ok(stages) ==> is_stages_of(fitted@, stages),
        res matches Err(e) ==> e == AIError::InternalError,
{
    let width = fitted.width();
    let height = fitted.height();
    if width < CROPPED_WIDTH || height < CROPPED_HEIGHT {
        return Err(AIError::InternalError);
    }
    let x = (width - CROPPED_WIDTH) / 2;
    let y = (height - CROPPED_HEIGHT) / 2;
    assert(crop_rect(width, height, x, y, CROPPED_WIDTH, CROPPED_HEIGHT) == (
        x,
        y,
        CROPPED_WIDTH,
        CROPPED_HEIGHT,
    ));
    let (cropped, grayscale) = match fitted {
        Picture::Rgba8(img) => {
            let cut = crop(img, x, y, CROPPED_WIDTH, CROPPED_HEIGHT);
            let gray = rgba_to_luma8(&cut);
            let ghost cv = Picture::Rgba8(cut)@;
            assert(gray.pixels@ =~= picture_luma(cv));
            assert forall|a: int, b: int, c: int|
                0 <= a < CROPPED_WIDTH && 0 <= b < CROPPED_HEIGHT && 0 <= c < 4 implies #[trigger] chan(
                    cut.pixels@,
                    CROPPED_WIDTH as int,
                    a,
                    b,
                    c,
                ) == chan(img.pixels@, img.width as int, x + a, y + b, c) by {
                assert(cut.at(a, b, c) == img.at(x + a, y + b, c));
            }
            (Picture::Rgba8(cut), gray)
        },
        Picture::Rgba16(img) => {
            let cut = crop16(img, x, y, CROPPED_WIDTH, CROPPED_HEIGHT);
            let gray = rgba16_to_luma8(&cut);
            let ghost cv = Picture::Rgba16(cut)@;
            assert(gray.pixels@ =~= picture_luma(cv));
            assert forall|a: int, b: int, c: int|
                0 <= a < CROPPED_WIDTH && 0 <= b < CROPPED_HEIGHT && 0 <= c < 4 implies #[trigger] chan(
                    cut.pixels@,
                    CROPPED_WIDTH as int,
                    a,
                    b,
                    c,
                ) == chan(img.pixels@, img.width as int, x + a, y + b, c) by {
                assert(cut.at(a, b, c) == img.at(x + a, y + b, c));
            }
            (Picture::Rgba16(cut), gray)
        },
    };
    let dithered = dither_bilevel(&grayscale);
    Ok(DitherStages { cropped, grayscale, dithered })
}

/// The generated picture is first fitted into a square whose side is the
/// larger side of what the frame shows.
pub open spec fn fit_side() -> u32 {
    if CROPPED_WIDTH >= CROPPED_HEIGHT {
        CROPPED_WIDTH
    } else {
        CROPPED_HEIGHT
    }
}

/// `fitted` is a possible outcome of fitting the decoded picture into the
/// `fit_side()` square: an outcome of resizing the decoded picture itself,
/// a well-formed picture of the same depth, of a size that `is_fitted_size`
/// allows, and the decoded picture unchanged when that already has the
/// square's size.
pub open spec fn is_fitting_of(decoded: PictureView, fitted: PictureView) -> bool {
    &&& lanczos_outcome(decoded, fit_side(), fit_side(), fitted)
    &&& fitted.wf()
    &&& (fitted is Rgba8) == (decoded is Rgba8)
    &&& is_fitted_size(
        decoded.width(),
        decoded.height(),
        fit_side(),
        fit_side(),
        fitted.width(),
        fitted.height(),
    )
    &&& decoded.width() == fit_side() && decoded.height() == fit_side() ==> fitted == decoded
}

/// Decodes the generated PNG at its own depth, fits it into a `fit_side()`
/// square and makes the frame's stages from the fitted picture. Fails when
/// the bytes are no PNG, the picture is empty, or the fitted picture is
/// smaller than what the frame shows. A picture at least as tall as wide and
/// at least `CROPPED_WIDTH / fit_side()` as wide as tall always gets through
/// (a square one in particular); one that is narrower by a pixel's worth, or
/// wider than tall by a pixel's worth, never does.
pub fn prepare_generated_image(png: &[u8]) -> (res: Result<DitherStages, AIError>)
    ensures
        res matches Err(e) ==> e == AIError::InternalError,
        match png_picture(png@) {
            None => res is Err,
            Some(decoded) => {
                let w = decoded.width();
                let h = decoded.height();
                if w == 0 || h == 0 {
                    res is Err
                } else {
                    &&& exists|fitted: PictureView|
                        #[trigger] is_fitting_of(decoded, fitted) && (res is Ok <==> fitted.width()
                            >= CROPPED_WIDTH && fitted.height() >= CROPPED_HEIGHT) && (res matches Ok(
                            stages,
                        ) ==> is_stages_of(fitted, stages))
                    &&& h >= w && fit_side() * w >= CROPPED_WIDTH * h ==> res is Ok
                    &&& w == h ==> res is Ok
                    &&& res is Ok ==> (CROPPED_WIDTH - 1) * h < fit_side() * w && (fit_side() - 1) * w
                        < fit_side() * h
                }
            },
        },
{
    let decoded = match decode_png_picture(png) {
        Some(p) => p,
        None => return Err(AIError::InternalError),
    };
    if decoded.width() == 0 || decoded.height() == 0 {
        return Err(AIError::InternalError);
    }
    let max_dimension: u32 = if CROPPED_WIDTH >= CROPPED_HEIGHT {
        CROPPED_WIDTH
    } else {
        CROPPED_HEIGHT
    };
    let fitted = match &decoded {
        Picture::Rgba8(img) => Picture::Rgba8(resize_lanczos3(img, max_dimension, max_dimension)),
        Picture::Rgba16(img) => Picture::Rgba16(resize_lanczos3_16(img, max_dimension, max_dimension)),
    };
    let res = stages_from_fitted(&fitted);
    proof {
        let w = decoded@.width();
        let h = decoded@.height();
        let fw = fitted@.width();
        let fh = fitted@.height();
        let n = fit_side();
        assert(is_fitting_of(decoded@, fitted@));
        if h >= w {
            assert(n * w <= n * h) by (nonlinear_arith)
                requires
                    h >= w,
            ;
            assert(fh == n && (fw - 1) * h < w * n < (fw + 1) * h);
            if n * w >= CROPPED_WIDTH * h {
                assert(fw >= CROPPED_WIDTH) by (nonlinear_arith)
                    requires
                        (fw + 1) * h > w * n,
                        n * w >= CROPPED_WIDTH * h,
                        h >= 1,
                ;
            }
            if fw >= CROPPED_WIDTH {
                assert((CROPPED_WIDTH - 1) * h < n * w) by (nonlinear_arith)
                    requires
                        (fw - 1) * h < w * n,
                        fw >= CROPPED_WIDTH,
                        h >= 1,
                ;
            }
            assert((n - 1) * w < n * h) by (nonlinear_arith)
                requires
                    h >= w,
                    w >= 1,
                    n >= 1,
            ;
        } else {
            assert(!(n * w <= n * h)) by (nonlinear_arith)
                requires
                    h < w,
                    n >= 1,
            ;
            assert(fw == n && (fh - 1) * w < h * n < (fh + 1) * w);
            if fh >= CROPPED_HEIGHT {
                assert((n - 1) * w < n * h) by (nonlinear_arith)
                    requires
                        (fh - 1) * w < h * n,
                        fh >= n,
                        w >= 1,
                ;
            }
            assert((CROPPED_WIDTH - 1) * h < n * w) by (nonlinear_arith)
                requires
                    h < w,
                    h >= 1,
                    n == 800,
            ;
        }
    }
    res
}

} // verus!
