//! Sharpness of a live-view frame, and its brightest point.
//!
//! Light is counted in thousandths of a grey level, so that the weights of red, green and
//! blue are whole numbers; fractions of the frame are counted in billionths. Sharpness is
//! the variance of the Laplacian over a rectangle, in millionths, rounded down: it is the
//! greater the better the focus.
use vstd::prelude::*;

use crate::grid::{
    lemma_box_agrees, lemma_box_bounds, lemma_row_bounds, lemma_spread, lemma_variance_nonnegative,
    squared, sum_box, sum_row,
};
use crate::jpeg::{decoding, read_jpeg, DecodedJpeg, JpegImage, PixelFormat};

verus! {

/// One, in billionths.
pub const UNIT: i64 = 1_000_000_000;

/// The luminance of an RGB pixel, in thousandths of a grey level.
pub open spec fn luma_of(r: u8, g: u8, b: u8) -> int {
    299 * r + 587 * g + 114 * b
}

/// The luminance of pixel `(x, y)`, in thousandths of a grey level.
pub open spec fn lum(img: JpegImage, x: int, y: int) -> int {
    let k = y * img.width + x;
    if img.format == PixelFormat::L8 {
        1000 * img.pixels[k]
    } else {
        luma_of(img.pixels[3 * k], img.pixels[3 * k + 1], img.pixels[3 * k + 2])
    }
}

/// [`lum`] as a function on the grid.
pub open spec fn lum_on(img: JpegImage) -> spec_fn(int, int) -> int {
    |x: int, y: int| lum(img, x, y)
}

/// The four-neighbour Laplacian of the luminance at `(x, y)`.
pub open spec fn laplacian(img: JpegImage, x: int, y: int) -> int {
    -4 * lum(img, x, y) + lum(img, x - 1, y) + lum(img, x + 1, y) + lum(img, x, y - 1) + lum(
        img,
        x,
        y + 1,
    )
}

/// [`laplacian`] as a function on the grid.
pub open spec fn laplacian_on(img: JpegImage) -> spec_fn(int, int) -> int {
    |x: int, y: int| laplacian(img, x, y)
}

/// `v`, or the nearer end of `lo..=hi`.
pub open spec fn clamped(v: int, lo: int, hi: int) -> int {
    if v < lo {
        lo
    } else if v > hi {
        hi
    } else {
        v
    }
}

/// [`clamped`], as code.
pub fn clamp_i64(v: i64, lo: i64, hi: i64) -> (r: i64)
    requires
        lo <= hi,
    ensures
        r == clamped(v as int, lo as int, hi as int),
{
    if v < lo {
        lo
    } else if v > hi {
        hi
    } else {
        v
    }
}

/// The pixel at a fraction of a length.
pub open spec fn pixel_at(frac: int, len: int) -> int {
    clamped(frac, 0, UNIT as int) * len / UNIT as int
}

/// Half a fraction of a length in pixels: the fraction at least a fiftieth and at most
/// one, the result at least two pixels.
pub open spec fn half_extent(frac: int, len: int) -> int {
    let h = clamped(frac, 20_000_000, UNIT as int) * len / (2 * UNIT);
    if h < 2 {
        2
    } else {
        h
    }
}

/// First and last pixel of a span around `center`, kept one pixel off the edge.
pub open spec fn span(center: int, half: int, len: int) -> (int, int) {
    (clamped(center - half, 1, len - 2), clamped(center + half, 1, len - 2))
}

/// The variance of `g` over the `n` points of a rectangle (last column and row included).
pub open spec fn variance(g: spec_fn(int, int) -> int, x0: int, x1: int, y0: int, y1: int) -> int {
    let n = (x1 + 1 - x0) * (y1 + 1 - y0);
    let s = sum_box(g, x0, x1 + 1, y0, y1 + 1);
    let ss = sum_box(squared(g), x0, x1 + 1, y0, y1 + 1);
    (n * ss - s * s) / (n * n)
}

/// The sharpness around pixel `(cx, cy)`: nothing for a frame without an inside, or where
/// the region is less than two pixels wide or high.
pub open spec fn sharpness_at(
    img: JpegImage,
    cx: int,
    cy: int,
    half_w: int,
    half_h: int,
) -> Option<int> {
    if img.width < 3 || img.height < 3 || !img.is_plain() {
        None
    } else {
        let (x0, x1) = span(cx, half_w, img.width as int);
        let (y0, y1) = span(cy, half_h, img.height as int);
        if x1 <= x0 || y1 <= y0 {
            None
        } else {
            Some(variance(laplacian_on(img), x0, x1, y0, y1))
        }
    }
}

/// The sharpness of the region of `roi_w` by `roi_h` around `(cx, cy)`, all four fractions
/// of the frame.
pub open spec fn sharpness(
    img: JpegImage,
    cx: int,
    cy: int,
    roi_w: int,
    roi_h: int,
) -> Option<int> {
    sharpness_at(
        img,
        pixel_at(cx, img.width as int),
        pixel_at(cy, img.height as int),
        half_extent(roi_w, img.width as int),
        half_extent(roi_h, img.height as int),
    )
}

/// `res` is the optional number `want`.
pub open spec fn same_number(res: Option<u64>, want: Option<int>) -> bool {
    match (res, want) {
        (Some(a), Some(b)) => a == b,
        (None, None) => true,
        _ => false,
    }
}

/// The luminance of a pixel of a plain image, in thousandths of a grey level.
fn luma_at(img: &DecodedJpeg, x: usize, y: usize) -> (r: u32)
    requires
        img@.is_plain(),
        x < img.width,
        y < img.height,
    ensures
        r == lum(img@, x as int, y as int),
        r <= 255_000,
{
    let w: usize = img.width as usize;
    let h: usize = img.height as usize;
    assert(y * w + x < w * h && 0 <= y * w) by (nonlinear_arith)
        requires
            0 <= x < w,
            0 <= y < h,
    ;
    assert(w * h <= img.pixels.len());
    let i: usize = y * w + x;
    match img.format {
        PixelFormat::L8 => 1000 * (img.pixels[i] as u32),
        _ => {
            assert(3 * i + 2 < img.pixels@.len());
            299 * (img.pixels[3 * i] as u32) + 587 * (img.pixels[3 * i + 1] as u32) + 114 * (
            img.pixels[3 * i + 2] as u32)
        },
    }
}

/// The Laplacian at a pixel off the edge.
fn laplacian_at(img: &DecodedJpeg, x: usize, y: usize) -> (r: i64)
    requires
        img@.is_plain(),
        1 <= x < img.width - 1,
        1 <= y < img.height - 1,
    ensures
        r == laplacian(img@, x as int, y as int),
        -1_020_000 <= r <= 1_020_000,
{
    let c = luma_at(img, x, y) as i64;
    let l = luma_at(img, x - 1, y) as i64;
    let r = luma_at(img, x + 1, y) as i64;
    let u = luma_at(img, x, y - 1) as i64;
    let d = luma_at(img, x, y + 1) as i64;
    -4 * c + l + r + u + d
}

proof fn lemma_lum_range(img: JpegImage, x: int, y: int)
    requires
        img.is_plain(),
        0 <= x < img.width,
        0 <= y < img.height,
    ensures
        0 <= lum(img, x, y) <= 255_000,
{
}

proof fn lemma_laplacian_range(img: JpegImage, x: int, y: int)
    requires
        img.is_plain(),
        1 <= x < img.width - 1,
        1 <= y < img.height - 1,
    ensures
        -1_020_000 <= laplacian(img, x, y) <= 1_020_000,
        0 <= squared(laplacian_on(img))(x, y) <= 1_040_400_000_000,
{
    lemma_lum_range(img, x, y);
    lemma_lum_range(img, x - 1, y);
    lemma_lum_range(img, x + 1, y);
    lemma_lum_range(img, x, y - 1);
    lemma_lum_range(img, x, y + 1);
    let v = laplacian(img, x, y);
    assert(0 <= v * v <= 1_040_400_000_000) by (nonlinear_arith)
        requires
            -1_020_000 <= v <= 1_020_000,
    ;
}

/// Partial sums of the Laplacian and of its square over whole rows stay in range.
proof fn lemma_partial(img: JpegImage, x0: int, x1: int, y0: int, y: int)
    requires
        img.is_plain(),
        1 <= x0 <= x1 < img.width - 1,
        1 <= y0 <= y < img.height,
    ensures
        -1_020_000 * 0x1_0000_0000 <= sum_box(laplacian_on(img), x0, x1 + 1, y0, y) <= 1_020_000
            * 0x1_0000_0000,
        0 <= sum_box(squared(laplacian_on(img)), x0, x1 + 1, y0, y) <= 1_040_400_000_000
            * 0x1_0000_0000,
{
    let g = laplacian_on(img);
    assert forall|x: int, yy: int| x0 <= x < x1 + 1 && y0 <= yy < y implies -1_020_000
        <= #[trigger] g(x, yy) <= 1_020_000 by {
        lemma_laplacian_range(img, x, yy);
    }
    assert forall|x: int, yy: int| x0 <= x < x1 + 1 && y0 <= yy < y implies 0 <= #[trigger] squared(
        g,
    )(x, yy) <= 1_040_400_000_000 by {
        lemma_laplacian_range(img, x, yy);
    }
    lemma_box_bounds(g, x0, x1 + 1, y0, y, -1_020_000, 1_020_000);
    lemma_box_bounds(squared(g), x0, x1 + 1, y0, y, 0, 1_040_400_000_000);
    let n = (x1 + 1 - x0) * (y - y0);
    assert(0 <= n <= 0x1_0000_0000) by (nonlinear_arith)
        requires
            n == (x1 + 1 - x0) * (y - y0),
            0 <= x1 + 1 - x0 <= 0x1_0000,
            0 <= y - y0 <= 0x1_0000,
    ;
}

/// Partial sums over part of a row stay in range.
proof fn lemma_partial_row(img: JpegImage, y: int, x0: int, x: int)
    requires
        img.is_plain(),
        1 <= x0 <= x < img.width,
        1 <= y < img.height - 1,
    ensures
        -1_020_000 * 0x1_0000 <= sum_row(laplacian_on(img), y, x0, x) <= 1_020_000 * 0x1_0000,
        0 <= sum_row(squared(laplacian_on(img)), y, x0, x) <= 1_040_400_000_000 * 0x1_0000,
{
    let g = laplacian_on(img);
    assert forall|xx: int| x0 <= xx < x implies -1_020_000 <= #[trigger] g(xx, y) <= 1_020_000 by {
        lemma_laplacian_range(img, xx, y);
    }
    assert forall|xx: int| x0 <= xx < x implies 0 <= #[trigger] squared(g)(xx, y)
        <= 1_040_400_000_000 by {
        lemma_laplacian_range(img, xx, y);
    }
    lemma_row_bounds(g, y, x0, x, -1_020_000, 1_020_000);
    lemma_row_bounds(squared(g), y, x0, x, 0, 1_040_400_000_000);
}

/// The variance of the Laplacian is between zero and the square of its greatest value.
proof fn lemma_variance_range(img: JpegImage, x0: int, x1: int, y0: int, y1: int)
    requires
        img.is_plain(),
        1 <= x0 <= x1 < img.width - 1,
        1 <= y0 <= y1 < img.height - 1,
    ensures
        0 <= variance(laplacian_on(img), x0, x1, y0, y1) <= 1_040_400_000_000,
{
    let g = laplacian_on(img);
    let n = (x1 + 1 - x0) * (y1 + 1 - y0);
    let s = sum_box(g, x0, x1 + 1, y0, y1 + 1);
    let ss = sum_box(squared(g), x0, x1 + 1, y0, y1 + 1);
    lemma_variance_nonnegative(g, x0, x1 + 1, y0, y1 + 1);
    assert forall|x: int, y: int| x0 <= x < x1 + 1 && y0 <= y < y1 + 1 implies 0
        <= #[trigger] squared(g)(x, y) <= 1_040_400_000_000 by {
        lemma_laplacian_range(img, x, y);
    }
    lemma_box_bounds(squared(g), x0, x1 + 1, y0, y1 + 1, 0, 1_040_400_000_000);
    assert(n > 0) by (nonlinear_arith)
        requires
            n == (x1 + 1 - x0) * (y1 + 1 - y0),
            x0 <= x1,
            y0 <= y1,
    ;
    assert(0 <= (n * ss - s * s) / (n * n) <= 1_040_400_000_000) by (nonlinear_arith)
        requires
            n > 0,
            s * s <= n * ss,
            ss <= 1_040_400_000_000 * n,
    ;
}

/// The variance of the Laplacian over a rectangle off the edge.
fn laplacian_variance(img: &DecodedJpeg, x0: usize, x1: usize, y0: usize, y1: usize) -> (r: u64)
    requires
        img@.is_plain(),
        1 <= x0 <= x1 < img.width - 1,
        1 <= y0 <= y1 < img.height - 1,
    ensures
        r == variance(laplacian_on(img@), x0 as int, x1 as int, y0 as int, y1 as int),
{
    let ghost g = laplacian_on(img@);
    let mut sum: i64 = 0;
    let mut sumsq: u128 = 0;
    let mut y: usize = y0;
    while y <= y1
        invariant
            img@.is_plain(),
            1 <= x0 <= x1 < img.width - 1,
            1 <= y0 <= y <= y1 + 1,
            y1 < img.height - 1,
            g == laplacian_on(img@),
            sum == sum_box(g, x0 as int, x1 + 1, y0 as int, y as int),
            sumsq == sum_box(squared(g), x0 as int, x1 + 1, y0 as int, y as int),
        decreases y1 + 1 - y,
    {
        proof {
            lemma_partial(img@, x0 as int, x1 as int, y0 as int, y as int);
        }
        let ghost sum0 = sum as int;
        let ghost sumsq0 = sumsq as int;
        let mut x: usize = x0;
        while x <= x1
            invariant
                img@.is_plain(),
                1 <= x0 <= x <= x1 + 1,
                x1 < img.width - 1,
                1 <= y < img.height - 1,
                g == laplacian_on(img@),
                -1_020_000 * 0x1_0000_0000 <= sum0 <= 1_020_000 * 0x1_0000_0000,
                0 <= sumsq0 <= 1_040_400_000_000 * 0x1_0000_0000,
                sum == sum0 + sum_row(g, y as int, x0 as int, x as int),
                sumsq == sumsq0 + sum_row(squared(g), y as int, x0 as int, x as int),
            decreases x1 + 1 - x,
        {
            proof {
                lemma_partial_row(img@, y as int, x0 as int, x as int);
            }
            let v = laplacian_at(img, x, y);
            assert(0 <= v * v <= 1_040_400_000_000) by (nonlinear_arith)
                requires
                    -1_020_000 <= v <= 1_020_000,
            ;
            assert(squared(g)(x as int, y as int) == v * v);
            sum = sum + v;
            sumsq = sumsq + (v * v) as u128;
            x = x + 1;
        }
        y = y + 1;
    }
    proof {
        lemma_partial(img@, x0 as int, x1 as int, y0 as int, y as int);
        lemma_variance_range(img@, x0 as int, x1 as int, y0 as int, y1 as int);
        lemma_variance_nonnegative(g, x0 as int, x1 + 1, y0 as int, y1 + 1);
    }
    let bw: u64 = (x1 - x0) as u64 + 1;
    let bh: u64 = (y1 - y0) as u64 + 1;
    assert(0 < bw * bh <= 0x1_0000_0000) by (nonlinear_arith)
        requires
            0 < bw <= 0x1_0000,
            0 < bh <= 0x1_0000,
    ;
    let n: u128 = (bw * bh) as u128;
    let s: u128 = if sum < 0 {
        (-sum) as u128
    } else {
        sum as u128
    };
    let ghost si = sum as int;
    assert(s * s == si * si) by (nonlinear_arith)
        requires
            s == si || s == -si,
    ;
    assert(s * s <= 0xFFFF_FFFF_FFFF_FFFF_FFFF_FFFF_FFFF_FFFF) by (nonlinear_arith)
        requires
            0 <= s <= 1_020_000 * 0x1_0000_0000,
    ;
    assert(0 < n * n <= 0xFFFF_FFFF_FFFF_FFFF_FFFF_FFFF_FFFF_FFFF && 0 <= n * sumsq
        <= 0xFFFF_FFFF_FFFF_FFFF_FFFF_FFFF_FFFF_FFFF) by (nonlinear_arith)
        requires
            0 < n <= 0x1_0000_0000,
            0 <= sumsq <= 1_040_400_000_000 * 0x1_0000_0000,
    ;
    let v: u128 = (n * sumsq - s * s) / (n * n);
    v as u64
}

/// The sharpness around a pixel of a decoded frame.
fn measure_at(img: &DecodedJpeg, cx: i64, cy: i64, half_w: i64, half_h: i64) -> (r: Option<u64>)
    requires
        0 <= cx <= 0xFFFF,
        0 <= cy <= 0xFFFF,
        0 <= half_w <= 0xFFFF,
        0 <= half_h <= 0xFFFF,
    ensures
        same_number(r, sharpness_at(img@, cx as int, cy as int, half_w as int, half_h as int)),
{
    if img.width < 3 || img.height < 3 || !is_plain(img) {
        return None;
    }
    let w = img.width as i64;
    let h = img.height as i64;
    let x0 = clamp_i64(cx - half_w, 1, w - 2);
    let x1 = clamp_i64(cx + half_w, 1, w - 2);
    let y0 = clamp_i64(cy - half_h, 1, h - 2);
    let y1 = clamp_i64(cy + half_h, 1, h - 2);
    if x1 <= x0 || y1 <= y0 {
        return None;
    }
    Some(laplacian_variance(img, x0 as usize, x1 as usize, y0 as usize, y1 as usize))
}

/// Whether a decoded image is eight-bit grey or RGB with all its samples.
pub fn is_plain(img: &DecodedJpeg) -> (r: bool)
    ensures
        r == img@.is_plain(),
{
    assert(img.width * img.height <= 0xFFFF * 0xFFFF) by (nonlinear_arith)
        requires
            img.width <= 0xFFFF,
            img.height <= 0xFFFF,
    ;
    let area: u64 = (img.width as u64) * (img.height as u64);
    match img.format {
        PixelFormat::L8 => img.pixels.len() as u64 == area,
        PixelFormat::Rgb24 => img.pixels.len() as u64 == area * 3,
        _ => false,
    }
}

/// [`pixel_at`], as code.
fn pixel_index(frac: i64, len: u16) -> (r: i64)
    ensures
        r == pixel_at(frac as int, len as int),
        0 <= r <= len,
{
    let f = clamp_i64(frac, 0, UNIT);
    assert(0 <= f * len <= UNIT * len) by (nonlinear_arith)
        requires
            0 <= f <= UNIT,
            0 <= len,
    ;
    f * (len as i64) / UNIT
}

/// [`half_extent`], as code.
fn half_pixels(frac: i64, len: u16) -> (r: i64)
    ensures
        r == half_extent(frac as int, len as int),
        0 <= r <= 0xFFFF,
{
    let f = clamp_i64(frac, 20_000_000, UNIT);
    assert(0 <= f * len <= UNIT * len) by (nonlinear_arith)
        requires
            0 <= f <= UNIT,
            0 <= len,
    ;
    let h: i64 = f * (len as i64) / (2 * UNIT);
    if h < 2 {
        2
    } else {
        h
    }
}

/// The sharpness of a region of a decoded frame, the region given in fractions.
pub fn measure(img: &DecodedJpeg, cx: i64, cy: i64, roi_w: i64, roi_h: i64) -> (r: Option<u64>)
    ensures
        same_number(r, sharpness(img@, cx as int, cy as int, roi_w as int, roi_h as int)),
{
    measure_at(
        img,
        pixel_index(cx, img.width),
        pixel_index(cy, img.height),
        half_pixels(roi_w, img.width),
        half_pixels(roi_h, img.height),
    )
}

/// The sharpness of the square region of side `roi` around a pixel.
pub open spec fn sharpness_around(img: JpegImage, x: int, y: int, roi: int) -> Option<int> {
    sharpness_at(
        img,
        x,
        y,
        half_extent(roi, img.width as int),
        half_extent(roi, img.height as int),
    )
}

/// The sharpness of the square region of side `roi` around a pixel of a decoded frame.
pub fn measure_around(img: &DecodedJpeg, x: u16, y: u16, roi: i64) -> (r: Option<u64>)
    ensures
        same_number(r, sharpness_around(img@, x as int, y as int, roi as int)),
{
    measure_at(
        img,
        x as i64,
        y as i64,
        half_pixels(roi, img.width),
        half_pixels(roi, img.height),
    )
}

/// The sharpness of a region of a live-view frame: the variance of the Laplacian over the
/// rectangle of `roi_w` by `roi_h` around `(cx, cy)`, in fractions of the frame. Nothing
/// where the frame does not decode or the region cannot be measured.
pub fn focus_measure(jpeg: &[u8], cx: i64, cy: i64, roi_w: i64, roi_h: i64) -> (r: Option<u64>)
    ensures
        same_number(
            r,
            match decoding(jpeg@) {
                Ok(img) => sharpness(img, cx as int, cy as int, roi_w as int, roi_h as int),
                Err(_) => None,
            },
        ),
{
    match read_jpeg(jpeg) {
        Ok(img) => measure(&img, cx, cy, roi_w, roi_h),
        Err(_) => None,
    }
}

/// The light of the five by five pixels around `(x, y)`.
pub open spec fn glow(img: JpegImage, x: int, y: int) -> int {
    sum_box(lum_on(img), x - 2, x + 3, y - 2, y + 3)
}

/// Whether pixel `(a, b)` comes before `(x, y)`, row by row.
pub open spec fn before(a: int, b: int, x: int, y: int) -> bool {
    b < y || (b == y && a < x)
}

/// Whether a five by five square fits around `(x, y)`.
pub open spec fn inside(img: JpegImage, x: int, y: int) -> bool {
    2 <= x < img.width - 2 && 2 <= y < img.height - 2
}

/// Whether `(x, y)` is the brightest place of the frame: no square of five by five holds
/// more light, and none before it as much.
pub open spec fn is_brightest(img: JpegImage, x: int, y: int) -> bool {
    &&& inside(img, x, y)
    &&& forall|a: int, b: int| #![trigger glow(img, a, b)]
        inside(img, a, b) ==> glow(img, a, b) <= glow(img, x, y) && (before(a, b, x, y) ==> glow(
            img,
            a,
            b,
        ) < glow(img, x, y))
}

/// The light of a five by five square at the noise floor: an average of twelve grey levels.
pub const NOISE_FLOOR: u32 = 300_000;

/// A pixel of a frame.
#[derive(Clone, Copy, Debug, PartialEq, Eq, Structural)]
pub struct BrightPoint {
    /// Column.
    pub x: u16,
    /// Row.
    pub y: u16,
    /// Width of the frame.
    pub width: u16,
    /// Height of the frame.
    pub height: u16,
}

/// What is to be found in a frame: its brightest place, unless that is no brighter than
/// the noise floor.
pub open spec fn brightest_in(img: JpegImage, r: Option<BrightPoint>) -> bool {
    let measurable = img.is_plain() && img.width >= 5 && img.height >= 5;
    match r {
        Some(p) => {
            &&& measurable
            &&& p.width == img.width
            &&& p.height == img.height
            &&& is_brightest(img, p.x as int, p.y as int)
            &&& glow(img, p.x as int, p.y as int) >= NOISE_FLOOR
        },
        None => measurable ==> forall|a: int, b: int| #![trigger glow(img, a, b)]
            inside(img, a, b) ==> glow(img, a, b) < NOISE_FLOOR,
    }
}

/// The light of a five by five square.
fn glow_at(img: &DecodedJpeg, x: usize, y: usize) -> (r: u32)
    requires
        img@.is_plain(),
        inside(img@, x as int, y as int),
    ensures
        r == glow(img@, x as int, y as int),
{
    let ghost g = lum_on(img@);
    let mut acc: u32 = 0;
    let mut b: usize = y - 2;
    while b < y + 3
        invariant
            img@.is_plain(),
            inside(img@, x as int, y as int),
            g == lum_on(img@),
            y - 2 <= b <= y + 3,
            acc == sum_box(g, x - 2, x + 3, y - 2, b as int),
            acc <= 1_275_000 * (b - (y - 2)),
        decreases y + 3 - b,
    {
        let ghost acc0 = acc;
        let mut a: usize = x - 2;
        while a < x + 3
            invariant
                img@.is_plain(),
                inside(img@, x as int, y as int),
                g == lum_on(img@),
                y - 2 <= b < y + 3,
                x - 2 <= a <= x + 3,
                acc0 <= 1_275_000 * 4,
                acc == acc0 + sum_row(g, b as int, x - 2, a as int),
                acc <= acc0 + 255_000 * (a - (x - 2)),
            decreases x + 3 - a,
        {
            let v = luma_at(img, a, b);
            acc = acc + v;
            a = a + 1;
        }
        b = b + 1;
    }
    acc
}

/// The brightest place of a decoded frame, unless it is too dark to hold one.
pub fn find_brightest(img: &DecodedJpeg) -> (r: Option<BrightPoint>)
    ensures
        brightest_in(img@, r),
{
    if img.width < 5 || img.height < 5 || !is_plain(img) {
        return None;
    }
    let w = img.width as usize;
    let h = img.height as usize;
    let mut best: u32 = glow_at(img, 2, 2);
    let mut bx: usize = 2;
    let mut by: usize = 2;
    let mut y: usize = 2;
    while y < h - 2
        invariant
            img@.is_plain(),
            w == img.width,
            h == img.height,
            5 <= w,
            5 <= h,
            2 <= y <= h - 2,
            inside(img@, bx as int, by as int),
            best == glow(img@, bx as int, by as int),
            forall|a: int, b: int| #![trigger glow(img@, a, b)]
                inside(img@, a, b) && b < y ==> glow(img@, a, b) <= best,
            forall|a: int, b: int| #![trigger glow(img@, a, b)]
                inside(img@, a, b) && before(a, b, bx as int, by as int) ==> glow(img@, a, b) < best,
            by < y || (by == 2 && bx == 2 && y == 2),
        decreases h - y,
    {
        let mut x: usize = 2;
        while x < w - 2
            invariant
                img@.is_plain(),
                w == img.width,
                h == img.height,
                5 <= w,
                5 <= h,
                2 <= y < h - 2,
                2 <= x <= w - 2,
                inside(img@, bx as int, by as int),
                best == glow(img@, bx as int, by as int),
                forall|a: int, b: int| #![trigger glow(img@, a, b)]
                    inside(img@, a, b) && before(a, b, x as int, y as int) ==> glow(img@, a, b)
                        <= best,
                forall|a: int, b: int| #![trigger glow(img@, a, b)]
                    inside(img@, a, b) && before(a, b, bx as int, by as int) ==> glow(img@, a, b)
                        < best,
                by <= y,
            decreases w - x,
        {
            let v = glow_at(img, x, y);
            if v > best {
                best = v;
                bx = x;
                by = y;
            }
            x = x + 1;
        }
        y = y + 1;
    }
    if best < NOISE_FLOOR {
        return None;
    }
    Some(BrightPoint { x: bx as u16, y: by as u16, width: img.width, height: img.height })
}

/// The brightest place of a live-view frame, for a star or the moon to focus on. Nothing
/// where the frame does not decode or is dark all over.
pub fn brightest_point(jpeg: &[u8]) -> (r: Option<BrightPoint>)
    ensures
        match decoding(jpeg@) {
            Ok(img) => brightest_in(img, r),
            Err(_) => r is None,
        },
{
    match read_jpeg(jpeg) {
        Ok(img) => find_brightest(&img),
        Err(_) => None,
    }
}

/// A frame of one brightness, such as one behind a lens cap, has sharpness zero wherever it
/// can be measured.
pub proof fn law_flat_frame_scores_zero(
    img: JpegImage,
    level: int,
    cx: int,
    cy: int,
    half_w: int,
    half_h: int,
)
    requires
        forall|x: int, y: int|
            0 <= x < img.width && 0 <= y < img.height ==> #[trigger] lum(img, x, y) == level,
    ensures
        sharpness_at(img, cx, cy, half_w, half_h) matches Some(v) ==> v == 0,
{
    if let Some(v) = sharpness_at(img, cx, cy, half_w, half_h) {
        let g = laplacian_on(img);
        let (x0, x1) = span(cx, half_w, img.width as int);
        let (y0, y1) = span(cy, half_h, img.height as int);
        assert forall|x: int, y: int| x0 <= x < x1 + 1 && y0 <= y < y1 + 1 implies 0 <= #[trigger] g(
            x,
            y,
        ) <= 0 by {}
        assert forall|x: int, y: int| x0 <= x < x1 + 1 && y0 <= y < y1 + 1 implies 0
            <= #[trigger] squared(g)(x, y) <= 0 by {
            assert(g(x, y) == 0);
        }
        lemma_box_bounds(g, x0, x1 + 1, y0, y1 + 1, 0, 0);
        lemma_box_bounds(squared(g), x0, x1 + 1, y0, y1 + 1, 0, 0);
        let n = (x1 + 1 - x0) * (y1 + 1 - y0);
        assert(n > 0) by (nonlinear_arith)
            requires
                n == (x1 + 1 - x0) * (y1 + 1 - y0),
                x0 <= x1,
                y0 <= y1,
        ;
        assert((n * 0 - 0 * 0) / (n * n) == 0) by (nonlinear_arith)
            requires
                n > 0,
        ;
    }
}

/// How bright a pixel is, in thousandths of a grey level: its level in a grey frame, else so
/// much of its red, green and blue.
pub open spec fn brightness(img: JpegImage, x: int, y: int) -> int {
    let w = img.width as int;
    if img.format == PixelFormat::L8 {
        img.pixels[y * w + x] * 1000
    } else {
        img.pixels[3 * (y * w + x)] * 299 + img.pixels[3 * (y * w + x) + 1] * 587 + img.pixels[3 * (
        y * w + x) + 2] * 114
    }
}

/// By how much the four neighbours of a pixel outshine it.
pub open spec fn contrast(img: JpegImage) -> spec_fn(int, int) -> int {
    |x: int, y: int|
        (brightness(img, x - 1, y) - brightness(img, x, y)) + (brightness(img, x + 1, y)
            - brightness(img, x, y)) + (brightness(img, x, y - 1) - brightness(img, x, y)) + (
        brightness(img, x, y + 1) - brightness(img, x, y))
}

/// Whether `v` is the variance of `g` over a rectangle, rounded down: the mean of the squares of
/// the distances from the mean.
pub open spec fn is_variance(
    g: spec_fn(int, int) -> int,
    x0: int,
    x1: int,
    y0: int,
    y1: int,
    v: int,
) -> bool {
    let n = (x1 + 1 - x0) * (y1 + 1 - y0);
    let s = sum_box(g, x0, x1 + 1, y0, y1 + 1);
    let d = sum_box(
        |x: int, y: int| (n * g(x, y) - s) * (n * g(x, y) - s),
        x0,
        x1 + 1,
        y0,
        y1 + 1,
    );
    v * (n * n * n) <= d < (v + 1) * (n * n * n)
}

proof fn lemma_is_variance(img: JpegImage, x0: int, x1: int, y0: int, y1: int)
    requires
        x0 <= x1,
        y0 <= y1,
    ensures
        is_variance(
            contrast(img),
            x0,
            x1,
            y0,
            y1,
            variance(laplacian_on(img), x0, x1, y0, y1),
        ),
{
    let g = laplacian_on(img);
    assert forall|x: int, y: int| #[trigger] contrast(img)(x, y) == g(x, y) by {
        assert forall|a: int, b: int| #[trigger] brightness(img, a, b) == lum(img, a, b) by {}
    }
    assert(contrast(img) =~= g);
    let n = (x1 + 1 - x0) * (y1 + 1 - y0);
    let s = sum_box(g, x0, x1 + 1, y0, y1 + 1);
    let ss = sum_box(squared(g), x0, x1 + 1, y0, y1 + 1);
    lemma_spread(g, x0, x1 + 1, y0, y1 + 1);
    assert(n > 0) by (nonlinear_arith)
        requires
            n == (x1 + 1 - x0) * (y1 + 1 - y0),
            x0 <= x1,
            y0 <= y1,
    ;
    let e = n * ss - s * s;
    let v = e / (n * n);
    assert(v * (n * n * n) <= n * e < (v + 1) * (n * n * n)) by (nonlinear_arith)
        requires
            n > 0,
            v == e / (n * n),
    ;
}

/// Half of a part of a length, in whole pixels: the part is taken as a fiftieth at least and the
/// whole at most, and the half as two pixels at least.
pub open spec fn reach(part: int, len: int) -> int {
    let p = if part < 20_000_000 {
        20_000_000
    } else if part > 1_000_000_000 {
        1_000_000_000
    } else {
        part
    };
    if p * len / 2_000_000_000 >= 2 {
        p * len / 2_000_000_000
    } else {
        2
    }
}

/// Whether `v` is measured in a frame around column `x` and row `y`, `rx` columns and `ry` rows to
/// either side: the variance of the contrast there. The outermost pixels of the frame are left
/// out, having no neighbours; and nothing is measured where less than two columns or rows are
/// left, or in a frame that is not plain.
pub open spec fn is_measured(
    img: JpegImage,
    x: int,
    y: int,
    rx: int,
    ry: int,
    r: Option<u64>,
) -> bool {
    let (w, h) = (img.width as int, img.height as int);
    let x0 = if x - rx > 1 {
        x - rx
    } else {
        1
    };
    let y0 = if y - ry > 1 {
        y - ry
    } else {
        1
    };
    let x1 = if x + rx < w - 2 {
        x + rx
    } else {
        w - 2
    };
    let y1 = if y + ry < h - 2 {
        y + ry
    } else {
        h - 2
    };
    match r {
        Some(v) => img.is_plain() && x0 < x1 && y0 < y1 && is_variance(
            contrast(img),
            x0,
            x1,
            y0,
            y1,
            v as int,
        ),
        None => !img.is_plain() || x0 >= x1 || y0 >= y1,
    }
}

proof fn lemma_measured(img: JpegImage, x: int, y: int, rx: int, ry: int, r: Option<u64>)
    requires
        0 <= x,
        0 <= y,
        2 <= rx,
        2 <= ry,
        same_number(r, sharpness_at(img, x, y, rx, ry)),
    ensures
        is_measured(img, x, y, rx, ry, r),
{
    let (x0, x1) = span(x, rx, img.width as int);
    let (y0, y1) = span(y, ry, img.height as int);
    if r is Some {
        lemma_is_variance(img, x0, x1, y0, y1);
    }
}

proof fn lemma_reach(part: int, len: int)
    ensures
        half_extent(part, len) == reach(part, len),
        reach(part, len) >= 2,
{
}

/// The sharpness of a region is the variance of the contrast around the point asked for: its
/// column is so much of the width, and its row so much of the height.
pub proof fn law_sharpness_is_measured_around_the_point(
    img: JpegImage,
    cx: int,
    cy: int,
    roi_w: int,
    roi_h: int,
    r: Option<u64>,
)
    requires
        0 <= cx <= 1_000_000_000,
        0 <= cy <= 1_000_000_000,
        same_number(r, sharpness(img, cx, cy, roi_w, roi_h)),
    ensures
        is_measured(
            img,
            cx * img.width / 1_000_000_000,
            cy * img.height / 1_000_000_000,
            reach(roi_w, img.width as int),
            reach(roi_h, img.height as int),
            r,
        ),
{
    let (x, y) = (cx * img.width / 1_000_000_000, cy * img.height / 1_000_000_000);
    assert(0 <= cx * img.width && 0 <= cy * img.height) by (nonlinear_arith)
        requires
            0 <= cx,
            0 <= cy,
            0 <= img.width,
            0 <= img.height,
    ;
    lemma_reach(roi_w, img.width as int);
    lemma_reach(roi_h, img.height as int);
    lemma_measured(
        img,
        x,
        y,
        reach(roi_w, img.width as int),
        reach(roi_h, img.height as int),
        r,
    );
}

/// A point outside of the frame counts as the nearest one on its edge.
pub proof fn law_point_is_kept_in_the_frame(
    img: JpegImage,
    cx: int,
    cy: int,
    roi_w: int,
    roi_h: int,
)
    ensures
        cx <= 0 ==> sharpness(img, cx, cy, roi_w, roi_h) == sharpness(img, 0, cy, roi_w, roi_h),
        cy <= 0 ==> sharpness(img, cx, cy, roi_w, roi_h) == sharpness(img, cx, 0, roi_w, roi_h),
        cx >= 1_000_000_000 ==> sharpness(img, cx, cy, roi_w, roi_h) == sharpness(
            img,
            1_000_000_000,
            cy,
            roi_w,
            roi_h,
        ),
        cy >= 1_000_000_000 ==> sharpness(img, cx, cy, roi_w, roi_h) == sharpness(
            img,
            cx,
            1_000_000_000,
            roi_w,
            roi_h,
        ),
{
}

/// The sharpness around a pixel is the variance of the contrast there.
pub proof fn law_sharpness_is_measured_around_the_pixel(
    img: JpegImage,
    x: int,
    y: int,
    roi: int,
    r: Option<u64>,
)
    requires
        0 <= x,
        0 <= y,
        same_number(r, sharpness_around(img, x, y, roi)),
    ensures
        is_measured(img, x, y, reach(roi, img.width as int), reach(roi, img.height as int), r),
{
    lemma_reach(roi, img.width as int);
    lemma_reach(roi, img.height as int);
    lemma_measured(
        img,
        x,
        y,
        reach(roi, img.width as int),
        reach(roi, img.height as int),
        r,
    );
}

/// The sharpness around a point depends on the pixels near it alone: two frames of one size that
/// are as bright there have the same sharpness, whatever they hold elsewhere. Near are the
/// pixels at most one farther than the region reaches, in either direction.
pub proof fn law_only_the_region_counts(
    a: JpegImage,
    b: JpegImage,
    cx: int,
    cy: int,
    roi_w: int,
    roi_h: int,
)
    requires
        a.is_plain(),
        b.is_plain(),
        a.width == b.width,
        a.height == b.height,
        0 <= cx <= 1_000_000_000,
        0 <= cy <= 1_000_000_000,
        forall|x: int, y: int| #![trigger brightness(a, x, y)]
            {
                let (px, py) = (cx * a.width / 1_000_000_000, cy * a.height / 1_000_000_000);
                let (rx, ry) = (reach(roi_w, a.width as int), reach(roi_h, a.height as int));
                &&& 0 <= x < a.width && px - rx - 1 <= x <= px + rx + 1
                &&& 0 <= y < a.height && py - ry - 1 <= y <= py + ry + 1
            } ==> brightness(a, x, y) == brightness(b, x, y),
    ensures
        sharpness(a, cx, cy, roi_w, roi_h) == sharpness(b, cx, cy, roi_w, roi_h),
{
    let (px, py) = (cx * a.width / 1_000_000_000, cy * a.height / 1_000_000_000);
    let (rx, ry) = (reach(roi_w, a.width as int), reach(roi_h, a.height as int));
    lemma_pixel_in_frame(cx, a.width as int);
    lemma_pixel_in_frame(cy, a.height as int);
    lemma_reach(roi_w, a.width as int);
    lemma_reach(roi_h, a.height as int);
    let (x0, x1) = span(px, rx, a.width as int);
    let (y0, y1) = span(py, ry, a.height as int);
    if a.width >= 3 && a.height >= 3 && x0 < x1 && y0 < y1 {
        let (f, g) = (laplacian_on(a), laplacian_on(b));
        assert forall|x: int, y: int| x0 <= x < x1 + 1 && y0 <= y < y1 + 1 implies #[trigger] f(x, y)
            == g(x, y) by {
            assert(brightness(a, x, y) == brightness(b, x, y));
            assert(brightness(a, x - 1, y) == brightness(b, x - 1, y));
            assert(brightness(a, x + 1, y) == brightness(b, x + 1, y));
            assert(brightness(a, x, y - 1) == brightness(b, x, y - 1));
            assert(brightness(a, x, y + 1) == brightness(b, x, y + 1));
        }
        assert forall|x: int, y: int| x0 <= x < x1 + 1 && y0 <= y < y1 + 1 implies #[trigger] squared(
            f,
        )(x, y) == squared(g)(x, y) by {
            assert(f(x, y) == g(x, y));
        }
        lemma_box_agrees(f, g, x0, x1 + 1, y0, y1 + 1);
        lemma_box_agrees(squared(f), squared(g), x0, x1 + 1, y0, y1 + 1);
    }
}

proof fn lemma_pixel_in_frame(frac: int, len: int)
    requires
        0 <= frac <= 1_000_000_000,
        0 <= len,
    ensures
        0 <= frac * len / 1_000_000_000 <= len,
{
    assert(0 <= frac * len <= 1_000_000_000 * len) by (nonlinear_arith)
        requires
            0 <= frac <= 1_000_000_000,
            0 <= len,
    ;
}

/// A frame that is of one brightness near the point has sharpness nought there, whatever it
/// holds elsewhere.
pub proof fn law_flat_region_scores_zero(
    img: JpegImage,
    level: int,
    cx: int,
    cy: int,
    roi_w: int,
    roi_h: int,
)
    requires
        0 <= cx <= 1_000_000_000,
        0 <= cy <= 1_000_000_000,
        forall|x: int, y: int| #![trigger brightness(img, x, y)]
            {
                let (px, py) = (cx * img.width / 1_000_000_000, cy * img.height / 1_000_000_000);
                let (rx, ry) = (reach(roi_w, img.width as int), reach(roi_h, img.height as int));
                &&& 0 <= x < img.width && px - rx - 1 <= x <= px + rx + 1
                &&& 0 <= y < img.height && py - ry - 1 <= y <= py + ry + 1
            } ==> brightness(img, x, y) == level,
    ensures
        sharpness(img, cx, cy, roi_w, roi_h) matches Some(v) ==> v == 0,
{
    let (px, py) = (cx * img.width / 1_000_000_000, cy * img.height / 1_000_000_000);
    let (rx, ry) = (reach(roi_w, img.width as int), reach(roi_h, img.height as int));
    lemma_pixel_in_frame(cx, img.width as int);
    lemma_pixel_in_frame(cy, img.height as int);
    lemma_reach(roi_w, img.width as int);
    lemma_reach(roi_h, img.height as int);
    let (x0, x1) = span(px, rx, img.width as int);
    let (y0, y1) = span(py, ry, img.height as int);
    if sharpness(img, cx, cy, roi_w, roi_h) is Some {
        let g = laplacian_on(img);
        assert forall|x: int, y: int| x0 <= x < x1 + 1 && y0 <= y < y1 + 1 implies 0 <= #[trigger] g(
            x,
            y,
        ) <= 0 by {
            assert(brightness(img, x, y) == level);
            assert(brightness(img, x - 1, y) == level);
            assert(brightness(img, x + 1, y) == level);
            assert(brightness(img, x, y - 1) == level);
            assert(brightness(img, x, y + 1) == level);
        }
        lemma_flat_box(g, x0, x1, y0, y1);
    }
}

proof fn lemma_flat_box(g: spec_fn(int, int) -> int, x0: int, x1: int, y0: int, y1: int)
    requires
        x0 <= x1,
        y0 <= y1,
        forall|x: int, y: int|
            x0 <= x < x1 + 1 && y0 <= y < y1 + 1 ==> 0 <= #[trigger] g(x, y) <= 0,
    ensures
        variance(g, x0, x1, y0, y1) == 0,
{
    assert forall|x: int, y: int| x0 <= x < x1 + 1 && y0 <= y < y1 + 1 implies 0
        <= #[trigger] squared(g)(x, y) <= 0 by {
        assert(g(x, y) == 0);
    }
    lemma_box_bounds(g, x0, x1 + 1, y0, y1 + 1, 0, 0);
    lemma_box_bounds(squared(g), x0, x1 + 1, y0, y1 + 1, 0, 0);
    let n = (x1 + 1 - x0) * (y1 + 1 - y0);
    assert(n > 0) by (nonlinear_arith)
        requires
            n == (x1 + 1 - x0) * (y1 + 1 - y0),
            x0 <= x1,
            y0 <= y1,
    ;
    assert((n * 0 - 0 * 0) / (n * n) == 0) by (nonlinear_arith)
        requires
            n > 0,
    ;
}

/// The light of the five by five pixels around one.
pub open spec fn light_around(img: JpegImage, x: int, y: int) -> int {
    sum_box(|a: int, b: int| brightness(img, a, b), x - 2, x + 3, y - 2, y + 3)
}

/// The point found holds the most light on the five by five pixels around it, of all pixels that
/// have so many around them: none of these holds more, and none that comes before it, row by
/// row, holds as much. Nothing is found where none of them reaches an average of twelve grey
/// levels, or in a frame too small or not plain; else something is.
pub proof fn law_brightest_point_holds_the_most_light(img: JpegImage, r: Option<BrightPoint>)
    requires
        brightest_in(img, r),
    ensures
        ({
            let (w, h) = (img.width as int, img.height as int);
            match r {
                Some(p) => {
                    let most = light_around(img, p.x as int, p.y as int);
                    &&& img.is_plain()
                    &&& p.width == w && p.height == h
                    &&& 2 <= p.x <= w - 3 && 2 <= p.y <= h - 3
                    &&& most >= 25 * 12 * 1000
                    &&& forall|x: int, y: int| #![trigger light_around(img, x, y)]
                        2 <= x <= w - 3 && 2 <= y <= h - 3 ==> light_around(img, x, y) <= most && ((y
                            < p.y || (y == p.y && x < p.x)) ==> light_around(img, x, y) < most)
                },
                None => img.is_plain() ==> forall|x: int, y: int|
                    #![trigger light_around(img, x, y)]
                    2 <= x <= w - 3 && 2 <= y <= h - 3 ==> light_around(img, x, y) < 25 * 12 * 1000,
            }
        }),
{
    assert forall|x: int, y: int| #![trigger light_around(img, x, y)] light_around(img, x, y) == glow(
        img,
        x,
        y,
    ) by {
        let f = |a: int, b: int| brightness(img, a, b);
        assert(f =~= lum_on(img));
    }
}

/// No star is found in a frame whose pixels are all darker than twelve grey levels.
pub proof fn law_dark_frame_has_no_star(img: JpegImage, r: Option<BrightPoint>)
    requires
        forall|x: int, y: int|
            0 <= x < img.width && 0 <= y < img.height ==> 0 <= #[trigger] lum(img, x, y) < 12_000,
        brightest_in(img, r),
    ensures
        r is None,
{
    if let Some(p) = r {
        lemma_box_bounds(lum_on(img), p.x - 2, p.x + 3, p.y - 2, p.y + 3, 0, 11_999);
        assert((p.x + 3 - (p.x - 2)) * (p.y + 3 - (p.y - 2)) == 25) by (nonlinear_arith);
    }
}

/// The brightest place of a frame is one place: two answers for one frame are the same.
pub proof fn law_brightest_is_unique(
    img: JpegImage,
    r: Option<BrightPoint>,
    q: Option<BrightPoint>,
)
    requires
        brightest_in(img, r),
        brightest_in(img, q),
    ensures
        r == q,
{
    if r is Some && q is Some {
        let a = r->0;
        let b = q->0;
        let ga = glow(img, a.x as int, a.y as int);
        let gb = glow(img, b.x as int, b.y as int);
        assert(ga == gb);
        assert(!before(a.x as int, a.y as int, b.x as int, b.y as int));
        assert(!before(b.x as int, b.y as int, a.x as int, a.y as int));
    }
    if r is Some {
        assert(glow(img, r->0.x as int, r->0.y as int) >= NOISE_FLOOR);
    }
    if q is Some {
        assert(glow(img, q->0.x as int, q->0.y as int) >= NOISE_FLOOR);
    }
}

/// A number is kept within bounds: as it is where it lies between them, else at the nearer one.
pub proof fn law_clamped_lies_within(v: int, lo: int, hi: int)
    requires
        lo <= hi,
    ensures
        lo <= clamped(v, lo, hi) <= hi,
        lo <= v <= hi ==> clamped(v, lo, hi) == v,
        v < lo ==> clamped(v, lo, hi) == lo,
        v > hi ==> clamped(v, lo, hi) == hi,
{
}

/// A frame can be measured where it is grey with a byte for each pixel, or in colour with three.
pub proof fn law_plain_frames(img: JpegImage)
    ensures
        img.is_plain() <==> {
            ||| img.format == PixelFormat::L8 && img.pixels.len() == img.width * img.height
            ||| img.format == PixelFormat::Rgb24 && img.pixels.len() == 3 * (img.width * img.height)
        },
{
}

} // verus!
