//! Image preparation and line sampling.
//!
//! The pipeline consumes a normalized multi-channel image, converts it once
//! to a centered grayscale image, and cuts one fixed-height strip per text
//! line out of it, rescaling with nearest-neighbour sampling so that the
//! strip preserves the aspect ratio of the line region.

use vstd::prelude::*;

use vstd::arithmetic::mul::lemma_mul_inequality;

use crate::errors::OcrError;
use crate::geom::RotatedRect;
use crate::surface::{MAX_DIM, PROB_SCALE};

verus! {

/// Fixed height of a rectified line strip, matching the recognition
/// model's input contract.
pub const REC_HEIGHT: usize = 64;

/// Half of the probability scale: the grayscale shift that centers pixel
/// values around zero.
pub const GRAY_HALF: i32 = 500_000;

/// Largest pixel count of an image buffer, so that even a four-channel
/// buffer length fits comfortably in `usize` on every target.
pub const MAX_PIXELS: usize = 0x1000_0000;

/// A normalized multi-channel image: CHW layout, fixed-point intensities
/// in `[0, PROB_SCALE]`. One, three (RGB) or four (RGBA) channels.
pub struct ImageBuffer {
    pub channels: usize,
    pub width: usize,
    pub height: usize,
    pub data: Vec<u32>,
}

impl ImageBuffer {
    pub open spec fn wf(self) -> bool {
        &&& (self.channels == 1 || self.channels == 3 || self.channels == 4)
        &&& self.width <= MAX_DIM
        &&& self.height <= MAX_DIM
        &&& self.width * self.height <= MAX_PIXELS
        &&& self.data@.len() == self.channels * (self.width * self.height)
        &&& forall|i: int| 0 <= i < self.data@.len() ==> #[trigger] self.data@[i] <= PROB_SCALE
    }

    /// The intensity of channel `c` at row `y`, column `x`.
    pub open spec fn at(self, c: int, y: int, x: int) -> u32 {
        self.data@[(c * self.height + y) * self.width + x]
    }

    /// Build an image from a row-major CHW buffer.
    ///
    /// Returns `MalformedInputError` exactly when the channel count is not
    /// 1, 3 or 4, a dimension is out of range, the pixel count exceeds the
    /// supported maximum, the buffer length does not match, or some value
    /// exceeds `PROB_SCALE`.
    pub fn new(channels: usize, width: usize, height: usize, data: Vec<u32>) -> (r: Result<
        ImageBuffer,
        OcrError,
    >)
        ensures
            r is Ok <==> ((channels == 1 || channels == 3 || channels == 4) && width <= MAX_DIM
                && height <= MAX_DIM && width * height <= MAX_PIXELS && data@.len() == channels
                * (width * height) && forall|i: int|
                0 <= i < data@.len() ==> #[trigger] data@[i] <= PROB_SCALE),
            r is Ok ==> r->Ok_0 == (ImageBuffer { channels, width, height, data }),
            r is Ok ==> r->Ok_0.wf(),
            r is Err ==> r->Err_0 == OcrError::MalformedInputError,
    {
        if !(channels == 1 || channels == 3 || channels == 4) {
            return Err(OcrError::MalformedInputError);
        }
        if width > MAX_DIM || height > MAX_DIM {
            return Err(OcrError::MalformedInputError);
        }
        proof {
            assert(width * height <= MAX_DIM * MAX_DIM) by (nonlinear_arith)
                requires width <= MAX_DIM && height <= MAX_DIM;
        }
        let wh = width * height;
        if wh > MAX_PIXELS {
            return Err(OcrError::MalformedInputError);
        }
        if data.len() != channels * wh {
            return Err(OcrError::MalformedInputError);
        }
        let mut i: usize = 0;
        while i < data.len()
            invariant
                i <= data@.len(),
                forall|j: int| 0 <= j < i ==> #[trigger] data@[j] <= PROB_SCALE,
            decreases data@.len() - i,
        {
            if data[i] > PROB_SCALE {
                return Err(OcrError::MalformedInputError);
            }
            i += 1;
        }
        Ok(ImageBuffer { channels, width, height, data })
    }
}

/// A single-channel image with fixed-point intensities centered on zero:
/// every value lies in `[-GRAY_HALF, GRAY_HALF]`.
pub struct GrayImage {
    pub width: usize,
    pub height: usize,
    pub data: Vec<i32>,
}

impl GrayImage {
    pub open spec fn wf(self) -> bool {
        &&& self.width <= MAX_DIM
        &&& self.height <= MAX_DIM
        &&& self.width * self.height <= MAX_PIXELS
        &&& self.data@.len() == self.width * self.height
        &&& forall|i: int|
            0 <= i < self.data@.len() ==> -GRAY_HALF <= #[trigger] self.data@[i] <= GRAY_HALF
    }

    /// The intensity at row `y`, column `x`.
    pub open spec fn at(self, y: int, x: int) -> i32 {
        self.data@[y * self.width + x]
    }

    /// Read one pixel.
    pub fn get(&self, y: usize, x: usize) -> (v: i32)
        requires
            self.wf(),
            y < self.height,
            x < self.width,
        ensures
            v == self.at(y as int, x as int),
    {
        proof {
            lemma_row_major_bound(y as int, x as int, self.height as int, self.width as int);
        }
        self.data[y * self.width + x]
    }
}

/// Proof that a row-major index of an in-range pixel is in range.
proof fn lemma_row_major_bound(y: int, x: int, h: int, w: int)
    requires
        0 <= y < h,
        0 <= x < w,
    ensures
        0 <= y * w + x < h * w,
        y * w + x < w * h,
{
    lemma_mul_inequality(y + 1, h, w);
    assert(y * w + w == (y + 1) * w) by (nonlinear_arith);
    assert(y * w >= 0) by (nonlinear_arith)
        requires y >= 0 && w >= 0;
    assert(h * w == w * h) by (nonlinear_arith);
}

/// Proof that the row-major index of an earlier pixel is smaller.
proof fn lemma_row_major_lt(yy: int, xx: int, y: int, x: int, w: int)
    requires
        0 <= xx < w,
        0 <= yy,
        0 <= x,
        yy < y || (yy == y && xx < x),
    ensures
        yy * w + xx < y * w + x,
{
    if yy < y {
        lemma_mul_inequality(yy + 1, y, w);
        assert(yy * w + w == (yy + 1) * w) by (nonlinear_arith);
    }
}

/// The grayscale intensity of the pixel of `img` at `(y, x)`, before
/// centering: the single channel itself, or the weighted sum of the red,
/// green and blue channels.
pub open spec fn luma_of(img: ImageBuffer, y: int, x: int) -> int {
    if img.channels == 1 {
        img.at(0, y, x) as int
    } else {
        (299 * img.at(0, y, x) + 587 * img.at(1, y, x) + 114 * img.at(2, y, x)) as int / 1000
    }
}

/// Convert a normalized image to centered grayscale: each pixel becomes
/// its grayscale intensity shifted down by half the scale, so black maps
/// to `-GRAY_HALF` and white to `GRAY_HALF`. An alpha channel is ignored.
pub fn prepare_image(img: &ImageBuffer) -> (gray: GrayImage)
    requires
        img.wf(),
    ensures
        gray.wf(),
        gray.width == img.width,
        gray.height == img.height,
        forall|y: int, x: int|
            #![trigger gray.at(y, x)]
            0 <= y < img.height && 0 <= x < img.width ==> gray.at(y, x) == luma_of(*img, y, x)
                - GRAY_HALF,
{
    let w = img.width;
    let h = img.height;
    let mut data: Vec<i32> = Vec::new();
    let mut y: usize = 0;
    while y < h
        invariant
            img.wf(),
            w == img.width,
            h == img.height,
            y <= h,
            data@.len() == y * w,
            forall|yy: int, xx: int|
                #![trigger data@[yy * w + xx]]
                0 <= yy < y && 0 <= xx < w ==> data@[yy * w + xx] == luma_of(*img, yy, xx)
                    - GRAY_HALF,
            forall|i: int| 0 <= i < data@.len() ==> -GRAY_HALF <= #[trigger] data@[i] <= GRAY_HALF,
        decreases h - y,
    {
        let mut x: usize = 0;
        while x < w
            invariant
                img.wf(),
                w == img.width,
                h == img.height,
                y < h,
                x <= w,
                data@.len() == y * w + x,
                forall|yy: int, xx: int|
                    #![trigger data@[yy * w + xx]]
                    0 <= yy < h && 0 <= xx < w && (yy < y || (yy == y && xx < x)) ==> data@[yy * w
                        + xx] == luma_of(*img, yy, xx) - GRAY_HALF,
                forall|i: int|
                    0 <= i < data@.len() ==> -GRAY_HALF <= #[trigger] data@[i] <= GRAY_HALF,
            decreases w - x,
        {
            let luma: u32 = if img.channels == 1 {
                image_sample(img, 0, y, x)
            } else {
                let red: u64 = image_sample(img, 0, y, x) as u64;
                let green: u64 = image_sample(img, 1, y, x) as u64;
                let blue: u64 = image_sample(img, 2, y, x) as u64;
                ((299 * red + 587 * green + 114 * blue) / 1000) as u32
            };
            let ghost before = data@;
            data.push(luma as i32 - GRAY_HALF);
            proof {
                assert(before.len() == y * w + x);
                assert(data@[y as int * w + x] == luma_of(*img, y as int, x as int) - GRAY_HALF);
                assert forall|yy: int, xx: int|
                    #![trigger data@[yy * w + xx]]
                    0 <= yy < h && 0 <= xx < w && (yy < y || (yy == y && xx < x + 1)) implies data@[
                    yy * w + xx] == luma_of(*img, yy, xx) - GRAY_HALF by {
                    if yy < y || xx < x {
                        lemma_row_major_lt(yy, xx, y as int, x as int, w as int);
                        assert(data@[yy * w + xx] == before[yy * w + xx]);
                    }
                }
            }
            x += 1;
        }
        proof {
            assert((y + 1) * w == y * w + w) by (nonlinear_arith);
        }
        y += 1;
    }
    proof {
        assert(h * w == w * h) by (nonlinear_arith);
    }
    GrayImage { width: w, height: h, data }
}

/// Read the intensity of channel `c` at row `y`, column `x`.
fn image_sample(img: &ImageBuffer, c: usize, y: usize, x: usize) -> (v: u32)
    requires
        img.wf(),
        c < img.channels,
        y < img.height,
        x < img.width,
    ensures
        v == img.at(c as int, y as int, x as int),
        v <= PROB_SCALE,
{
    proof {
        lemma_pixel_index_bound(*img, c as int, y as int, x as int);
    }
    let row: usize = c * img.height + y;
    proof {
        assert(img.data@.len() <= 4 * MAX_PIXELS) by (nonlinear_arith)
            requires
                img.channels <= 4,
                img.width * img.height <= MAX_PIXELS,
                img.data@.len() == img.channels * (img.width * img.height),
        ;
        assert((row as int) * (img.width as int) + (x as int) < img.data@.len()) by {
            assert((row as int) * (img.width as int) == (c as int * img.height as int
                + y as int) * (img.width as int)) by (nonlinear_arith)
                requires row as int == c as int * img.height as int + y as int;
        }
    }
    let idx: usize = row * img.width + x;
    img.data[idx]
}

/// Proof that a CHW index of an in-range sample is inside the buffer.
proof fn lemma_pixel_index_bound(img: ImageBuffer, c: int, y: int, x: int)
    requires
        img.wf(),
        0 <= c < img.channels,
        0 <= y < img.height,
        0 <= x < img.width,
    ensures
        0 <= c * img.height <= 3 * MAX_DIM,
        0 <= (c * img.height + y) * img.width + x < img.data@.len(),
        img.at(c, y, x) <= PROB_SCALE,
{
    assert(0 <= c * img.height <= 3 * MAX_DIM) by (nonlinear_arith)
        requires 0 <= c <= 3 && 0 <= img.height <= MAX_DIM;
    let ch = img.channels as int;
    let h = img.height as int;
    let w = img.width as int;
    assert((c * h + y) * w + x < ch * (w * h)) by (nonlinear_arith)
        requires
            0 <= c < ch,
            0 <= y < h,
            0 <= x < w,
    ;
    assert((c * h + y) * w + x >= 0) by (nonlinear_arith)
        requires
            0 <= c,
            0 <= y,
            0 <= x,
            0 <= w,
            0 <= h,
    ;
}

/// The width of the rectified strip of a source region `wsrc` wide and
/// `hsrc` high: proportional to the aspect ratio at the fixed strip
/// height, and at least one column.
pub open spec fn strip_width(wsrc: int, hsrc: int) -> int {
    let scaled = (wsrc * REC_HEIGHT) / hsrc;
    if scaled < 1 {
        1
    } else if scaled > MAX_DIM {
        MAX_DIM as int
    } else {
        scaled
    }
}

/// Sample the rectified strip of one text line out of `img`.
///
/// The union of the line's member footprints, clamped to the image, is
/// mapped to a strip of height `REC_HEIGHT` whose width preserves the
/// region's aspect ratio. Each strip pixel is taken from the source pixel
/// found by scaling its coordinates back by the common factor
/// `hsrc / REC_HEIGHT` (nearest-neighbour, rounding down); positions that
/// fall outside the clamped region are black. A line whose clamped region
/// is empty yields an empty strip.
pub fn sample_line(img: &GrayImage, line: &Vec<RotatedRect>) -> (strip: GrayImage)
    requires
        img.wf(),
        line@.len() > 0,
        forall|k: int| 0 <= k < line@.len() ==> (#[trigger] line@[k]).wf(),
    ensures
        strip.wf(),
        sample_line_post(*img, line@, strip),
{
    // Union of the member footprints, in doubled coordinates.
    let mut left2: i64 = line[0].cx2 - line[0].width;
    let mut right2: i64 = line[0].cx2 + line[0].width;
    let mut top2: i64 = line[0].cy2 - line[0].height;
    let mut bottom2: i64 = line[0].cy2 + line[0].height;
    let mut k: usize = 1;
    while k < line.len()
        invariant
            1 <= k <= line@.len(),
            forall|j: int| 0 <= j < line@.len() ==> (#[trigger] line@[j]).wf(),
            left2 == min_left2(line@.take(k as int)),
            right2 == max_right2(line@.take(k as int)),
            top2 == min_top2(line@.take(k as int)),
            bottom2 == max_bottom2(line@.take(k as int)),
            -0x8000_0000 <= left2 <= 0x8000_0000,
            -0x8000_0000 <= right2 <= 0x8000_0000,
            -0x8000_0000 <= top2 <= 0x8000_0000,
            -0x8000_0000 <= bottom2 <= 0x8000_0000,
        decreases line@.len() - k,
    {
        let r = &line[k];
        let rl = r.cx2 - r.width;
        let rr = r.cx2 + r.width;
        let rt = r.cy2 - r.height;
        let rb = r.cy2 + r.height;
        if rl < left2 {
            left2 = rl;
        }
        if rr > right2 {
            right2 = rr;
        }
        if rt < top2 {
            top2 = rt;
        }
        if rb > bottom2 {
            bottom2 = rb;
        }
        proof {
            assert(line@.take(k + 1).drop_last() =~= line@.take(k as int));
            assert(line@.take(k + 1).last() == line@[k as int]);
        }
        k += 1;
    }
    proof {
        assert(line@.take(line@.len() as int) =~= line@);
    }
    // Clamp to the image, in whole pixels.
    let l: usize = clamp_coord_low(left2, img.width);
    let t: usize = clamp_coord_low(top2, img.height);
    let r: usize = clamp_coord_high(right2, img.width);
    let b: usize = clamp_coord_high(bottom2, img.height);
    proof {
        assert(l == clamp_left(*img, line@));
        assert(t == clamp_top(*img, line@));
        assert(r == clamp_right(*img, line@));
        assert(b == clamp_bottom(*img, line@));
    }
    if l >= r || t >= b {
        let empty = GrayImage { width: 0, height: 0, data: Vec::new() };
        proof {
            assert(empty.data@.len() == 0);
            assert(sample_line_post(*img, line@, empty));
        }
        return empty;
    }
    let wsrc: usize = r - l;
    let hsrc: usize = b - t;
    proof {
        assert(wsrc * REC_HEIGHT <= MAX_DIM * REC_HEIGHT) by (nonlinear_arith)
            requires wsrc <= MAX_DIM;
    }
    let scaled: usize = (wsrc * REC_HEIGHT) / hsrc;
    let wout: usize = if scaled < 1 {
        1
    } else if scaled > MAX_DIM {
        MAX_DIM
    } else {
        scaled
    };
    let mut data: Vec<i32> = Vec::new();
    let mut y: usize = 0;
    while y < REC_HEIGHT
        invariant
            img.wf(),
            y <= REC_HEIGHT,
            l < r <= img.width,
            t < b <= img.height,
            wsrc == r - l,
            hsrc == b - t,
            1 <= wout <= MAX_DIM,
            wout == strip_width(wsrc as int, hsrc as int),
            data@.len() == y * wout,
            forall|yy: int, xx: int|
                #![trigger data@[yy * wout + xx]]
                0 <= yy < y && 0 <= xx < wout ==> data@[yy * wout + xx] == sample_value(
                    *img,
                    l as int,
                    t as int,
                    r as int,
                    b as int,
                    yy,
                    xx,
                ),
            forall|i: int| 0 <= i < data@.len() ==> -GRAY_HALF <= #[trigger] data@[i] <= GRAY_HALF,
        decreases REC_HEIGHT - y,
    {
        proof {
            assert(y * hsrc <= 64 * 0x8000) by (nonlinear_arith)
                requires y <= 64 && hsrc <= 0x8000;
        }
        let sy_off: usize = (y * hsrc) / REC_HEIGHT;
        let sy: usize = t + sy_off;
        let mut x: usize = 0;
        while x < wout
            invariant
                img.wf(),
                y < REC_HEIGHT,
                x <= wout,
                l < r <= img.width,
                t < b <= img.height,
                wsrc == r - l,
                hsrc == b - t,
                1 <= wout <= MAX_DIM,
                wout == strip_width(wsrc as int, hsrc as int),
                sy == t + (y as int * hsrc as int) / (REC_HEIGHT as int),
                data@.len() == y * wout + x,
                forall|yy: int, xx: int|
                    #![trigger data@[yy * wout + xx]]
                    0 <= yy < REC_HEIGHT && 0 <= xx < wout && (yy < y || (yy == y && xx < x))
                        ==> data@[yy * wout + xx] == sample_value(
                        *img,
                        l as int,
                        t as int,
                        r as int,
                        b as int,
                        yy,
                        xx,
                    ),
                forall|i: int|
                    0 <= i < data@.len() ==> -GRAY_HALF <= #[trigger] data@[i] <= GRAY_HALF,
            decreases wout - x,
        {
            proof {
                assert((x as int) * (hsrc as int) <= 0x8000 * 0x8000) by (nonlinear_arith)
                    requires x <= 0x8000 && hsrc <= 0x8000;
            }
            let sx_off_wide: u64 = (x as u64 * hsrc as u64) / (REC_HEIGHT as u64);
            let v: i32 = if sy < b && sx_off_wide < (r - l) as u64 {
                let sx: usize = l + sx_off_wide as usize;
                let got = img.get(sy, sx);
                proof {
                    lemma_row_major_bound(sy as int, sx as int, img.height as int, img.width as int);
                    assert(-GRAY_HALF <= img.data@[sy as int * img.width + sx as int] <= GRAY_HALF);
                }
                got
            } else {
                -GRAY_HALF
            };
            let ghost before = data@;
            data.push(v);
            proof {
                assert(v == sample_value(
                    *img,
                    l as int,
                    t as int,
                    r as int,
                    b as int,
                    y as int,
                    x as int,
                ));
                assert forall|yy: int, xx: int|
                    #![trigger data@[yy * wout + xx]]
                    0 <= yy < REC_HEIGHT && 0 <= xx < wout && (yy < y || (yy == y && xx < x + 1))
                    implies data@[yy * wout + xx] == sample_value(
                    *img,
                    l as int,
                    t as int,
                    r as int,
                    b as int,
                    yy,
                    xx,
                ) by {
                    if yy < y || xx < x {
                        lemma_row_major_lt(yy, xx, y as int, x as int, wout as int);
                        assert(data@[yy * wout + xx] == before[yy * wout + xx]);
                    }
                }
            }
            x += 1;
        }
        proof {
            assert((y + 1) * wout == y * wout + wout) by (nonlinear_arith);
        }
        y += 1;
    }
    let strip = GrayImage { width: wout, height: REC_HEIGHT, data };
    proof {
        assert(strip.width * strip.height == (REC_HEIGHT as int) * wout) by (nonlinear_arith)
            requires strip.width == wout && strip.height == REC_HEIGHT;
        lemma_mul_inequality(wout as int, MAX_DIM as int, REC_HEIGHT as int);
        assert(sample_line_post(*img, line@, strip));
    }
    strip
}

/// The byte a centered grayscale intensity maps back to: shifted up by
/// half the scale and rescaled to the byte range.
pub open spec fn gray_byte_of(v: i32) -> u8 {
    (((v + GRAY_HALF) * 255) / (PROB_SCALE as int)) as u8
}

/// Convert a centered grayscale image back into row-major bytes, the
/// inverse direction of the input normalization: `-GRAY_HALF` maps to 0
/// and `GRAY_HALF` to 255.
pub fn gray_to_bytes(img: &GrayImage) -> (out: Vec<u8>)
    requires
        img.wf(),
    ensures
        out@.len() == img.width * img.height,
        forall|y: int, x: int|
            #![trigger out@[y * img.width + x]]
            0 <= y < img.height && 0 <= x < img.width ==> out@[y * img.width + x] == gray_byte_of(
                img.at(y, x),
            ),
{
    let w = img.width;
    let h = img.height;
    let mut out: Vec<u8> = Vec::new();
    let mut y: usize = 0;
    while y < h
        invariant
            img.wf(),
            w == img.width,
            h == img.height,
            y <= h,
            out@.len() == y * w,
            forall|yy: int, xx: int|
                #![trigger out@[yy * w + xx]]
                0 <= yy < y && 0 <= xx < w ==> out@[yy * w + xx] == gray_byte_of(img.at(yy, xx)),
        decreases h - y,
    {
        let mut x: usize = 0;
        while x < w
            invariant
                img.wf(),
                w == img.width,
                h == img.height,
                y < h,
                x <= w,
                out@.len() == y * w + x,
                forall|yy: int, xx: int|
                    #![trigger out@[yy * w + xx]]
                    0 <= yy < h && 0 <= xx < w && (yy < y || (yy == y && xx < x)) ==> out@[yy * w
                        + xx] == gray_byte_of(img.at(yy, xx)),
            decreases w - x,
        {
            let v = img.get(y, x);
            proof {
                lemma_row_major_bound(y as int, x as int, h as int, w as int);
                assert(-GRAY_HALF <= img.data@[y as int * w + x as int] <= GRAY_HALF);
            }
            let byte: u8 = (((v + GRAY_HALF) as i64 * 255) / (PROB_SCALE as i64)) as u8;
            let ghost before = out@;
            out.push(byte);
            proof {
                assert(byte == gray_byte_of(img.at(y as int, x as int)));
                assert forall|yy: int, xx: int|
                    #![trigger out@[yy * w + xx]]
                    0 <= yy < h && 0 <= xx < w && (yy < y || (yy == y && xx < x + 1)) implies out@[
                    yy * w + xx] == gray_byte_of(img.at(yy, xx)) by {
                    if yy < y || xx < x {
                        lemma_row_major_lt(yy, xx, y as int, x as int, w as int);
                        assert(out@[yy * w + xx] == before[yy * w + xx]);
                    }
                }
            }
            x += 1;
        }
        proof {
            assert((y + 1) * w == y * w + w) by (nonlinear_arith);
        }
        y += 1;
    }
    proof {
        assert(h * w == w * h) by (nonlinear_arith);
    }
    out
}

/// What `sample_line` returns: with a nonempty clamped source region, a
/// strip of the fixed height whose every pixel is the sample value of its
/// scaled position; with an empty region, an empty image.
pub open spec fn sample_line_post(img: GrayImage, line: Seq<RotatedRect>, strip: GrayImage) -> bool {
    let l = clamp_left(img, line);
    let t = clamp_top(img, line);
    let r = clamp_right(img, line);
    let b = clamp_bottom(img, line);
    if l < r && t < b {
        &&& strip.height == REC_HEIGHT
        &&& strip.width == strip_width(r - l, b - t)
        &&& forall|y: int, x: int|
            #![trigger strip.at(y, x)]
            0 <= y < strip.height && 0 <= x < strip.width ==> strip.at(y, x) == sample_value(
                img,
                l,
                t,
                r,
                b,
                y,
                x,
            )
    } else {
        strip.width == 0 && strip.height == 0
    }
}

/// The value of one strip pixel: the nearest source pixel of the clamped
/// region, or black where the scaled position leaves the region.
pub open spec fn sample_value(
    img: GrayImage,
    l: int,
    t: int,
    r: int,
    b: int,
    y: int,
    x: int,
) -> i32 {
    let sy = t + (y * (b - t)) / (REC_HEIGHT as int);
    let sx = l + (x * (b - t)) / (REC_HEIGHT as int);
    if sy < b && sx < r {
        img.at(sy, sx)
    } else {
        (-GRAY_HALF) as i32
    }
}

/// The smallest left footprint edge of the line, doubled coordinates.
pub open spec fn min_left2(s: Seq<RotatedRect>) -> int
    decreases s.len(),
{
    if s.len() <= 1 {
        s[0].left2()
    } else {
        let rest = min_left2(s.drop_last());
        if s.last().left2() < rest {
            s.last().left2()
        } else {
            rest
        }
    }
}

/// The largest right footprint edge of the line, doubled coordinates.
pub open spec fn max_right2(s: Seq<RotatedRect>) -> int
    decreases s.len(),
{
    if s.len() <= 1 {
        s[0].right2()
    } else {
        let rest = max_right2(s.drop_last());
        if s.last().right2() > rest {
            s.last().right2()
        } else {
            rest
        }
    }
}

/// The smallest top footprint edge of the line, doubled coordinates.
pub open spec fn min_top2(s: Seq<RotatedRect>) -> int
    decreases s.len(),
{
    if s.len() <= 1 {
        s[0].top2()
    } else {
        let rest = min_top2(s.drop_last());
        if s.last().top2() < rest {
            s.last().top2()
        } else {
            rest
        }
    }
}

/// The largest bottom footprint edge of the line, doubled coordinates.
pub open spec fn max_bottom2(s: Seq<RotatedRect>) -> int
    decreases s.len(),
{
    if s.len() <= 1 {
        s[0].bottom2()
    } else {
        let rest = max_bottom2(s.drop_last());
        if s.last().bottom2() > rest {
            s.last().bottom2()
        } else {
            rest
        }
    }
}

/// A doubled coordinate clamped to `[0, limit]` whole pixels, rounding
/// down (used for the left and top edges).
pub open spec fn spec_clamp_low(c2: int, limit: int) -> int {
    let px = c2 / 2;
    if px < 0 {
        0
    } else if px > limit {
        limit
    } else {
        px
    }
}

/// A doubled coordinate clamped to `[0, limit]` whole pixels, rounding
/// up (used for the right and bottom edges).
pub open spec fn spec_clamp_high(c2: int, limit: int) -> int {
    let px = (c2 + 1) / 2;
    if px < 0 {
        0
    } else if px > limit {
        limit
    } else {
        px
    }
}

/// Left edge of the clamped source region of a line in `img`.
pub open spec fn clamp_left(img: GrayImage, line: Seq<RotatedRect>) -> int {
    spec_clamp_low(min_left2(line), img.width as int)
}

/// Top edge of the clamped source region of a line in `img`.
pub open spec fn clamp_top(img: GrayImage, line: Seq<RotatedRect>) -> int {
    spec_clamp_low(min_top2(line), img.height as int)
}

/// Right edge of the clamped source region of a line in `img`.
pub open spec fn clamp_right(img: GrayImage, line: Seq<RotatedRect>) -> int {
    spec_clamp_high(max_right2(line), img.width as int)
}

/// Bottom edge of the clamped source region of a line in `img`.
pub open spec fn clamp_bottom(img: GrayImage, line: Seq<RotatedRect>) -> int {
    spec_clamp_high(max_bottom2(line), img.height as int)
}

/// Clamp a doubled coordinate to `[0, limit]` whole pixels, rounding down.
fn clamp_coord_low(c2: i64, limit: usize) -> (r: usize)
    requires
        -0x8000_0000 <= c2 <= 0x8000_0000,
        limit <= MAX_DIM,
    ensures
        r == spec_clamp_low(c2 as int, limit as int),
{
    let px: i64 = crate::geom::half_floor(c2);
    if px < 0 {
        0
    } else if px > limit as i64 {
        limit
    } else {
        px as usize
    }
}

/// Clamp a doubled coordinate to `[0, limit]` whole pixels, rounding up.
fn clamp_coord_high(c2: i64, limit: usize) -> (r: usize)
    requires
        -0x8000_0000 <= c2 <= 0x8000_0000,
        limit <= MAX_DIM,
    ensures
        r == spec_clamp_high(c2 as int, limit as int),
{
    let px: i64 = crate::geom::half_ceil(c2);
    if px < 0 {
        0
    } else if px > limit as i64 {
        limit
    } else {
        px as usize
    }
}

} // verus!
