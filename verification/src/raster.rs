//! Plain-value images: an 8-bit grayscale image and an 8-bit RGBA image,
//! both stored row by row.

use vstd::prelude::*;

verus! {

/// A pixel position: `(x, y)`, column first.
pub type Point = (u32, u32);

/// An 8-bit grayscale image; pixel `(x, y)` is `pixels[y * width + x]`.
pub struct GrayImage {
    pub width: u32,
    pub height: u32,
    pub pixels: Vec<u8>,
}

impl GrayImage {
    /// The buffer holds exactly one byte per pixel.
    pub open spec fn wf(&self) -> bool {
        self.pixels@.len() == self.width as int * self.height as int
    }

    /// The value of pixel `(x, y)`.
    pub open spec fn at(&self, x: int, y: int) -> u8 {
        self.pixels@[y * self.width as int + x]
    }

    pub open spec fn contains(&self, x: int, y: int) -> bool {
        0 <= x < self.width && 0 <= y < self.height
    }

    /// Builds an image from a row-major buffer; `None` when the buffer does not
    /// hold exactly `width * height` bytes.
    pub fn from_raw(width: u32, height: u32, pixels: Vec<u8>) -> (res: Option<GrayImage>)
        ensures
            res is Some <==> pixels@.len() == width as int * height as int,
            res matches Some(img) ==> img.wf() && img.width == width && img.height == height
                && img.pixels@ == pixels@,
    {
        assert(width as u64 * height as u64 <= u64::MAX) by (nonlinear_arith)
            requires
                width <= u32::MAX,
                height <= u32::MAX,
        ;
        let n: u64 = width as u64 * height as u64;
        if pixels.len() as u64 == n {
            Some(GrayImage { width, height, pixels })
        } else {
            None
        }
    }

    /// Reads pixel `(x, y)`.
    pub fn get(&self, x: u32, y: u32) -> (v: u8)
        requires
            self.wf(),
            x < self.width,
            y < self.height,
        ensures
            v == self.at(x as int, y as int),
    {
        // the buffer's length is a `usize`, which bounds every index below
        let len = self.pixels.len();
        proof {
            lemma_index_in_grid(x as int, y as int, self.width as int, self.height as int);
            assert(y as int * self.width as int + x < len);
            assert(y as int * self.width as int <= y as int * self.width as int + x as int);
        }
        let row: usize = y as usize * self.width as usize;
        self.pixels[row + x as usize]
    }
}

/// Row-major indexing stays inside the grid.
pub proof fn lemma_index_in_grid(x: int, y: int, w: int, h: int)
    requires
        0 <= x < w,
        0 <= y < h,
    ensures
        0 <= y * w + x < w * h,
        y * w + x + 1 <= w * h,
{
    assert(y * w + x < w * h) by (nonlinear_arith)
        requires
            0 <= x < w,
            0 <= y < h,
    ;
    assert(0 <= y * w) by (nonlinear_arith)
        requires
            0 <= y,
            0 <= w,
    ;
}

/// An 8-bit RGBA image; channel `c` of pixel `(x, y)` is
/// `pixels[(y * width + x) * 4 + c]`.
pub struct RgbaImage {
    pub width: u32,
    pub height: u32,
    pub pixels: Vec<u8>,
}

impl RgbaImage {
    /// The buffer holds exactly four bytes per pixel.
    pub open spec fn wf(&self) -> bool {
        self.pixels@.len() == self.width as int * self.height as int * 4
    }

    /// Channel `c` (0 red, 1 green, 2 blue, 3 alpha) of pixel `(x, y)`.
    pub open spec fn at(&self, x: int, y: int, c: int) -> u8 {
        self.pixels@[(y * self.width as int + x) * 4 + c]
    }

    pub open spec fn contains(&self, x: int, y: int) -> bool {
        0 <= x < self.width && 0 <= y < self.height
    }

    /// Builds an image from a row-major RGBA buffer; `None` when the buffer
    /// does not hold exactly `width * height * 4` bytes.
    pub fn from_raw(width: u32, height: u32, pixels: Vec<u8>) -> (res: Option<RgbaImage>)
        ensures
            res is Some <==> pixels@.len() == width as int * height as int * 4,
            res matches Some(img) ==> img.wf() && img.width == width && img.height == height
                && img.pixels@ == pixels@,
    {
        assert(width as u128 * height as u128 * 4 <= u128::MAX) by (nonlinear_arith)
            requires
                width <= u32::MAX,
                height <= u32::MAX,
        ;
        let n: u128 = width as u128 * height as u128 * 4;
        if pixels.len() as u128 == n {
            Some(RgbaImage { width, height, pixels })
        } else {
            None
        }
    }

    /// Reads channel `c` of pixel `(x, y)`.
    pub fn get(&self, x: u32, y: u32, c: usize) -> (v: u8)
        requires
            self.wf(),
            x < self.width,
            y < self.height,
            c < 4,
        ensures
            v == self.at(x as int, y as int, c as int),
    {
        // the buffer's length is a `usize`, which bounds every index below
        let len = self.pixels.len();
        proof {
            lemma_pixel_index(x as int, y as int, self.width as int, self.height as int);
            assert((y as int * self.width as int + x) * 4 + c < len);
        }
        let row: usize = y as usize * self.width as usize;
        self.pixels[(row + x as usize) * 4 + c]
    }
}

/// The four channels of pixel `(x, y)` lie inside the buffer.
pub proof fn lemma_pixel_index(x: int, y: int, w: int, h: int)
    requires
        0 <= x < w,
        0 <= y < h,
    ensures
        0 <= y * w,
        y * w <= y * w + x,
        0 <= (y * w + x) * 4,
        (y * w + x) * 4 + 4 <= w * h * 4,
{
    lemma_index_in_grid(x, y, w, h);
    assert(w * h * 4 == (w * h) * 4) by (nonlinear_arith);
}

/// Pixels earlier in reading order have smaller indices.
pub proof fn lemma_index_order(x1: int, y1: int, x2: int, y2: int, w: int)
    requires
        0 <= x1 < w,
        0 <= x2 < w,
        0 <= y1,
        0 <= y2,
        y1 < y2 || (y1 == y2 && x1 < x2),
    ensures
        y1 * w + x1 < y2 * w + x2,
{
    if y1 < y2 {
        assert(y1 * w + w <= y2 * w) by (nonlinear_arith)
            requires
                y1 < y2,
                0 <= w,
        ;
    }
}

/// `mask` marks the edges of `detection`: white (255) where the detection's
/// red channel is 0, black (0) elsewhere.
pub open spec fn is_lines_mask_of(detection: RgbaImage, mask: GrayImage) -> bool {
    &&& mask.wf()
    &&& mask.width == detection.width
    &&& mask.height == detection.height
    &&& forall|x: int, y: int|
        detection.contains(x, y) ==> #[trigger] mask.at(x, y) == (if detection.at(x, y, 0) == 0 {
            255u8
        } else {
            0u8
        })
}

/// Marks the edges of a detection image: pixels whose red channel is 0
/// become white (255), all others black (0).
pub fn lines_mask(detection: &RgbaImage) -> (mask: GrayImage)
    requires
        detection.wf(),
    ensures
        is_lines_mask_of(*detection, mask),
{
    let len = detection.pixels.len();
    proof {
        assert(detection.width as int * detection.height as int * 4 == (detection.width as int
            * detection.height as int) * 4) by (nonlinear_arith);
    }
    let n = len / 4;
    let mut pixels: Vec<u8> = Vec::new();
    let mut i: usize = 0;
    while i < n
        invariant
            detection.wf(),
            n * 4 == detection.pixels@.len(),
            n * 4 <= usize::MAX,
            i <= n,
            pixels@.len() == i,
            forall|k: int| 0 <= k < i ==> #[trigger] pixels@[k] == (if detection.pixels@[k * 4] == 0 {
                255u8
            } else {
                0u8
            }),
        decreases n - i,
    {
        let v: u8 = if detection.pixels[i * 4] == 0 {
            255
        } else {
            0
        };
        pixels.push(v);
        i += 1;
    }
    let mask = GrayImage { width: detection.width, height: detection.height, pixels };
    proof {
        assert(detection.width as int * detection.height as int * 4 == (detection.width as int
            * detection.height as int) * 4) by (nonlinear_arith);
        assert forall|x: int, y: int| detection.contains(x, y) implies #[trigger] mask.at(x, y) == (
        if detection.at(x, y, 0) == 0 {
            255u8
        } else {
            0u8
        }) by {
            lemma_index_in_grid(x, y, detection.width as int, detection.height as int);
            let k = y * detection.width as int + x;
            assert(pixels@[k] == (if detection.pixels@[k * 4] == 0 { 255u8 } else { 0u8 }));
        }
    }
    mask
}

/// The rectangle that cropping keeps: the corner is clamped into the image
/// and the size to what remains of it.
pub open spec fn crop_rect(img_w: u32, img_h: u32, x: u32, y: u32, w: u32, h: u32) -> (u32, u32, u32, u32) {
    let cx = if x < img_w { x } else { img_w };
    let cy = if y < img_h { y } else { img_h };
    let cw = if w < img_w - cx { w } else { (img_w - cx) as u32 };
    let ch = if h < img_h - cy { h } else { (img_h - cy) as u32 };
    (cx, cy, cw, ch)
}

/// Channel `c` of pixel `(x, y)` of a `width`-wide four-channel buffer.
pub open spec fn chan<T>(px: Seq<T>, width: int, x: int, y: int, c: int) -> T {
    px[(y * width + x) * 4 + c]
}

/// Copies the `cw` by `ch` rectangle at `(cx, cy)` of a four-channel buffer
/// `iw` pixels wide and `ih` high.
fn copy_rect<T: Copy>(pixels: &Vec<T>, iw: u32, ih: u32, cx: u32, cy: u32, cw: u32, ch: u32) -> (out: Vec<T>)
    requires
        pixels@.len() == iw as int * ih as int * 4,
        cx as int + cw as int <= iw,
        cy as int + ch as int <= ih,
    ensures
        out@.len() == cw as int * ch as int * 4,
        forall|a: int, b: int, c: int|
            0 <= a < cw && 0 <= b < ch && 0 <= c < 4 ==> #[trigger] chan(out@, cw as int, a, b, c) == chan(
                pixels@,
                iw as int,
                cx + a,
                cy + b,
                c,
            ),
{
    let len = pixels.len();
    let mut out: Vec<T> = Vec::new();
    let mut j: u32 = 0;
    while j < ch
        invariant
            pixels@.len() == iw as int * ih as int * 4,
            len == pixels@.len(),
            cx as int + cw as int <= iw,
            cy as int + ch as int <= ih,
            j <= ch,
            out@.len() == (j as int * cw as int) * 4,
            forall|a: int, b: int, c: int|
                0 <= a < cw && 0 <= b < j && 0 <= c < 4 ==> #[trigger] out@[(b * cw as int + a) * 4 + c]
                    == chan(pixels@, iw as int, cx + a, cy + b, c),
        decreases ch - j,
    {
        let mut i: u32 = 0;
        while i < cw
            invariant
                pixels@.len() == iw as int * ih as int * 4,
                len == pixels@.len(),
                cx as int + cw as int <= iw,
                cy as int + ch as int <= ih,
                j < ch,
                i <= cw,
                out@.len() == (j as int * cw as int + i as int) * 4,
                forall|a: int, b: int, c: int|
                    0 <= a < cw && 0 <= b < ch && (b < j || (b == j && a < i)) && 0 <= c < 4
                        ==> #[trigger] out@[(b * cw as int + a) * 4 + c] == chan(pixels@, iw as int, cx + a, cy + b, c),
            decreases cw - i,
        {
            let ghost before = out@;
            let ghost base = (j as int * cw as int + i as int) * 4;
            proof {
                lemma_pixel_index((cx + i) as int, (cy + j) as int, iw as int, ih as int);
            }
            let src: usize = ((cy + j) as usize * iw as usize + (cx + i) as usize) * 4;
            let mut c: usize = 0;
            while c < 4
                invariant
                    pixels@.len() == iw as int * ih as int * 4,
                    len == pixels@.len(),
                    cx as int + cw as int <= iw,
                    cy as int + ch as int <= ih,
                    j < ch,
                    i < cw,
                    c <= 4,
                    src == ((cy + j) as int * iw as int + (cx + i) as int) * 4,
                    src + 4 <= pixels@.len(),
                    base == (j as int * cw as int + i as int) * 4,
                    out@.len() == base + c,
                    forall|k: int| 0 <= k < base ==> out@[k] == before[k],
                    forall|cc: int| 0 <= cc < c ==> #[trigger] out@[base + cc] == pixels@[src + cc],
                decreases 4 - c,
            {
                out.push(pixels[src + c]);
                c += 1;
            }
            proof {
                assert forall|a: int, b: int, cc: int|
                    0 <= a < cw && 0 <= b < ch && (b < j || (b == j && a < i + 1)) && 0 <= cc < 4
                        implies #[trigger] out@[(b * cw as int + a) * 4 + cc] == chan(pixels@, iw as int, cx + a, cy + b, cc) by {
                    if b == j && a == i {
                        assert((b * cw as int + a) * 4 + cc == base + cc);
                        assert(out@[base + cc] == pixels@[src + cc]);
                    } else {
                        lemma_index_order(a, b, i as int, j as int, cw as int);
                        let idx = (b * cw as int + a) * 4 + cc;
                        assert(idx < base);
                        assert(0 <= b * cw as int) by (nonlinear_arith)
                            requires
                                0 <= b,
                                0 <= cw,
                        ;
                        assert(0 <= idx);
                        assert(out@[idx] == before[idx]);
                    }
                }
            }
            i += 1;
        }
        proof {
            assert(j as int * cw as int + cw as int == (j as int + 1) * cw as int) by (nonlinear_arith);
        }
        j += 1;
    }
    proof {
        assert(cw as int * ch as int * 4 == (ch as int * cw as int) * 4) by (nonlinear_arith);
    }
    out
}

/// Copies the part of `img` in the rectangle at `(x, y)` of size `w` by `h`,
/// clamped to the image.
pub fn crop(img: &RgbaImage, x: u32, y: u32, w: u32, h: u32) -> (out: RgbaImage)
    requires
        img.wf(),
    ensures
        out.wf(),
        (out.width, out.height) == (crop_rect(img.width, img.height, x, y, w, h).2, crop_rect(
            img.width,
            img.height,
            x,
            y,
            w,
            h,
        ).3),
        forall|i: int, j: int, c: int|
            out.contains(i, j) && 0 <= c < 4 ==> #[trigger] out.at(i, j, c) == img.at(
                crop_rect(img.width, img.height, x, y, w, h).0 + i,
                crop_rect(img.width, img.height, x, y, w, h).1 + j,
                c,
            ),
{
    let cx: u32 = if x < img.width { x } else { img.width };
    let cy: u32 = if y < img.height { y } else { img.height };
    let cw: u32 = if w < img.width - cx { w } else { img.width - cx };
    let ch: u32 = if h < img.height - cy { h } else { img.height - cy };
    let pixels = copy_rect(&img.pixels, img.width, img.height, cx, cy, cw, ch);
    let out = RgbaImage { width: cw, height: ch, pixels };
    assert forall|i: int, j: int, c: int| out.contains(i, j) && 0 <= c < 4 implies #[trigger] out.at(i, j, c)
        == img.at(cx + i, cy + j, c) by {
        assert(out.at(i, j, c) == chan(out.pixels@, cw as int, i, j, c));
    }
    out
}

/// Copies the part of `img` in the rectangle at `(x, y)` of size `w` by `h`,
/// clamped to the image.
pub fn crop16(img: &Rgba16Image, x: u32, y: u32, w: u32, h: u32) -> (out: Rgba16Image)
    requires
        img.wf(),
    ensures
        out.wf(),
        (out.width, out.height) == (crop_rect(img.width, img.height, x, y, w, h).2, crop_rect(
            img.width,
            img.height,
            x,
            y,
            w,
            h,
        ).3),
        forall|i: int, j: int, c: int|
            out.contains(i, j) && 0 <= c < 4 ==> #[trigger] out.at(i, j, c) == img.at(
                crop_rect(img.width, img.height, x, y, w, h).0 + i,
                crop_rect(img.width, img.height, x, y, w, h).1 + j,
                c,
            ),
{
    let cx: u32 = if x < img.width { x } else { img.width };
    let cy: u32 = if y < img.height { y } else { img.height };
    let cw: u32 = if w < img.width - cx { w } else { img.width - cx };
    let ch: u32 = if h < img.height - cy { h } else { img.height - cy };
    let pixels = copy_rect(&img.pixels, img.width, img.height, cx, cy, cw, ch);
    let out = Rgba16Image { width: cw, height: ch, pixels };
    assert forall|i: int, j: int, c: int| out.contains(i, j) && 0 <= c < 4 implies #[trigger] out.at(i, j, c)
        == img.at(cx + i, cy + j, c) by {
        assert(out.at(i, j, c) == chan(out.pixels@, cw as int, i, j, c));
    }
    out
}

/// An RGBA image with 16 bits per channel; channel `c` of pixel `(x, y)` is
/// `pixels[(y * width + x) * 4 + c]`.
pub struct Rgba16Image {
    pub width: u32,
    pub height: u32,
    pub pixels: Vec<u16>,
}

impl Rgba16Image {
    /// The buffer holds exactly four values per pixel.
    pub open spec fn wf(&self) -> bool {
        self.pixels@.len() == self.width as int * self.height as int * 4
    }

    /// Channel `c` (0 red, 1 green, 2 blue, 3 alpha) of pixel `(x, y)`.
    pub open spec fn at(&self, x: int, y: int, c: int) -> u16 {
        self.pixels@[(y * self.width as int + x) * 4 + c]
    }

    pub open spec fn contains(&self, x: int, y: int) -> bool {
        0 <= x < self.width && 0 <= y < self.height
    }
}

/// A picture at the depth it was decoded with.
pub enum Picture {
    /// 8 bits per channel.
    Rgba8(RgbaImage),
    /// 16 bits per channel.
    Rgba16(Rgba16Image),
}

/// The plain value of a picture: its depth, width, height and channels.
pub enum PictureView {
    Rgba8(u32, u32, Seq<u8>),
    Rgba16(u32, u32, Seq<u16>),
}

impl PictureView {
    /// The buffer holds exactly four channels per pixel.
    pub open spec fn wf(self) -> bool {
        match self {
            PictureView::Rgba8(w, h, p) => p.len() == w as int * h as int * 4,
            PictureView::Rgba16(w, h, p) => p.len() == w as int * h as int * 4,
        }
    }

    /// Channel `c` of pixel `(x, y)`, as a number.
    pub open spec fn channel(self, x: int, y: int, c: int) -> int {
        match self {
            PictureView::Rgba8(w, _, p) => p[(y * w as int + x) * 4 + c] as int,
            PictureView::Rgba16(w, _, p) => p[(y * w as int + x) * 4 + c] as int,
        }
    }

    pub open spec fn width(self) -> u32 {
        match self {
            PictureView::Rgba8(w, _, _) => w,
            PictureView::Rgba16(w, _, _) => w,
        }
    }

    pub open spec fn height(self) -> u32 {
        match self {
            PictureView::Rgba8(_, h, _) => h,
            PictureView::Rgba16(_, h, _) => h,
        }
    }
}

impl View for Picture {
    type V = PictureView;

    open spec fn view(&self) -> PictureView {
        match self {
            Picture::Rgba8(img) => PictureView::Rgba8(img.width, img.height, img.pixels@),
            Picture::Rgba16(img) => PictureView::Rgba16(img.width, img.height, img.pixels@),
        }
    }
}

impl Picture {
    pub open spec fn wf(&self) -> bool {
        match self {
            Picture::Rgba8(img) => img.wf(),
            Picture::Rgba16(img) => img.wf(),
        }
    }

    pub fn width(&self) -> (w: u32)
        ensures
            w == self@.width(),
    {
        match self {
            Picture::Rgba8(img) => img.width,
            Picture::Rgba16(img) => img.width,
        }
    }

    pub fn height(&self) -> (h: u32)
        ensures
            h == self@.height(),
    {
        match self {
            Picture::Rgba8(img) => img.height,
            Picture::Rgba16(img) => img.height,
        }
    }
}

} // verus!
