//! Finding things in a frame: what the detector is fed, and what it hands back.
use vstd::prelude::*;

use crate::jpeg::{
    decoding, format_name, read_jpeg, DecodedJpeg, JpegImage, PixelFormat, RgbFrame, RgbView,
};

verus! {

/// Something that was found. `F` is the type of the detector's numbers.
#[derive(Clone, Copy, Debug)]
pub struct Detection<F> {
    /// What it is.
    pub class: i32,
    /// How sure that is.
    pub score: F,
    /// Left, top, right and bottom, in pixels.
    pub bbox: [F; 4],
}

/// Whether a buffer holds an RGB frame of the given size.
pub open spec fn holds_frame(len: int, width: i32, height: i32) -> bool {
    0 <= width && 0 <= height && len >= width * height * 3
}

/// Whether a buffer of `len` bytes holds an RGB frame of the given size.
pub fn fits(len: usize, width: i32, height: i32) -> (r: bool)
    ensures
        r == holds_frame(len as int, width, height),
{
    if width < 0 || height < 0 {
        return false;
    }
    assert(0 <= width * height <= 0x7FFF_FFFF * 0x7FFF_FFFF) by (nonlinear_arith)
        requires
            0 <= width <= 0x7FFF_FFFF,
            0 <= height <= 0x7FFF_FFFF,
    ;
    len as u128 >= (width as u128) * (height as u128) * 3
}

/// Whether a detection is number `i` of what the detector wrote.
pub open spec fn is_detection<F>(
    d: Detection<F>,
    boxes: Seq<F>,
    scores: Seq<F>,
    classes: Seq<i32>,
    i: int,
) -> bool {
    &&& d.class == classes[i]
    &&& d.score == scores[i]
    &&& d.bbox@ == seq![boxes[4 * i], boxes[4 * i + 1], boxes[4 * i + 2], boxes[4 * i + 3]]
}

/// What the detector found, out of the lists that it wrote. A negative number means that it
/// failed: then there is nothing.
pub fn detections<F: Copy>(n: i32, boxes: &Vec<F>, scores: &Vec<F>, classes: &Vec<i32>) -> (r: Vec<
    Detection<F>,
>)
    requires
        n <= scores@.len(),
        n <= classes@.len(),
        4 * n <= boxes@.len(),
    ensures
        r@.len() == (if n < 0 {
            0
        } else {
            n as int
        }),
        forall|i: int|
            0 <= i < r@.len() ==> is_detection(#[trigger] r@[i], boxes@, scores@, classes@, i),
{
    let mut r: Vec<Detection<F>> = Vec::new();
    if n < 0 {
        return r;
    }
    let k: usize = n as usize;
    let mut i: usize = 0;
    while i < k
        invariant
            i <= k <= scores@.len(),
            k <= classes@.len(),
            4 * k <= boxes@.len(),
            boxes@.len() == boxes.len(),
            r@.len() == i,
            forall|j: int|
                0 <= j < i ==> is_detection(#[trigger] r@[j], boxes@, scores@, classes@, j),
        decreases k - i,
    {
        let d = Detection {
            class: classes[i],
            score: scores[i],
            bbox: [boxes[4 * i], boxes[4 * i + 1], boxes[4 * i + 2], boxes[4 * i + 3]],
        };
        assert(d.bbox@ =~= seq![
            boxes@[4 * i],
            boxes@[4 * i + 1],
            boxes@[4 * i + 2],
            boxes@[4 * i + 3],
        ]);
        r.push(d);
        i = i + 1;
    }
    r
}

/// The frame that the detector is fed: in colour, three bytes a pixel, or why there is none.
pub open spec fn colour_frame(decoded: Result<JpegImage, Seq<char>>) -> Result<
    RgbView,
    Seq<char>,
> {
    match decoded {
        Err(e) => Err("decode: "@ + e),
        Ok(img) => if img.format == PixelFormat::Rgb24 && img.is_plain() {
            Ok(RgbView { w: img.width as int, h: img.height as int, rgb: img.pixels })
        } else {
            Err("lv not RGB24: "@ + format_name(img.format))
        },
    }
}

/// The frame that the detector is fed, out of what the decoder made of it.
pub fn as_colour(decoded: Result<DecodedJpeg, String>) -> (r: Result<RgbFrame, String>)
    ensures
        match (
            r,
            colour_frame(
                match decoded {
                    Ok(d) => Ok(d@),
                    Err(e) => Err(e@),
                },
            ),
        ) {
            (Ok(f), Ok(v)) => f@ == v && f@.wf(),
            (Err(e), Err(v)) => e@ == v,
            _ => false,
        },
{
    match decoded {
        Err(e) => {
            let mut t = String::new();
            t.append("decode: ");
            t.append(e.as_str());
            assert(t@ =~= "decode: "@ + e@);
            Err(t)
        },
        Ok(d) => {
            if crate::autofocus::is_plain(&d) && d.format == PixelFormat::Rgb24 {
                return Ok(
                    RgbFrame { w: d.width as usize, h: d.height as usize, rgb: d.pixels },
                );
            }
            let mut t = String::new();
            t.append("lv not RGB24: ");
            match d.format {
                PixelFormat::L8 => t.append("L8"),
                PixelFormat::L16 => t.append("L16"),
                PixelFormat::Rgb24 => t.append("RGB24"),
                PixelFormat::Cmyk32 => t.append("CMYK32"),
            }
            assert(t@ =~= "lv not RGB24: "@ + format_name(d.format));
            Err(t)
        },
    }
}

/// The frame that the detector is fed, out of a live-view frame.
pub fn detector_input(jpeg: &[u8]) -> (r: Result<RgbFrame, String>)
    ensures
        match (r, colour_frame(decoding(jpeg@))) {
            (Ok(f), Ok(v)) => f@ == v && f@.wf(),
            (Err(e), Err(v)) => e@ == v,
            _ => false,
        },
{
    as_colour(read_jpeg(jpeg))
}

/// Detections are looked for in colour frames with three bytes for each pixel, which are taken as
/// they are; any other frame is refused.
pub proof fn law_only_colour_is_looked_at(decoded: Result<JpegImage, Seq<char>>)
    ensures
        colour_frame(decoded) is Ok <==> {
            &&& decoded matches Ok(img)
            &&& img.format == PixelFormat::Rgb24
            &&& img.pixels.len() == 3 * (img.width * img.height)
        },
        colour_frame(decoded) matches Ok(f) ==> {
            &&& f.w == decoded->Ok_0.width
            &&& f.h == decoded->Ok_0.height
            &&& f.rgb == decoded->Ok_0.pixels
        },
{
}

/// A buffer holds a frame where no side is negative and there are three bytes for each pixel.
pub proof fn law_buffer_holds_the_frame(len: int, width: i32, height: i32)
    ensures
        holds_frame(len, width, height) <==> width >= 0 && height >= 0 && 3 * (width * height) <= len,
{
}

/// A detection is made of its own class, its own score and its own four sides, in their order.
pub proof fn law_detection_has_its_own_entries<F>(
    d: Detection<F>,
    boxes: Seq<F>,
    scores: Seq<F>,
    classes: Seq<i32>,
    i: int,
    k: int,
)
    requires
        is_detection(d, boxes, scores, classes, i),
        0 <= k < 4,
    ensures
        d.class == classes[i],
        d.score == scores[i],
        d.bbox@.len() == 4,
        d.bbox@[k] == boxes[4 * i + k],
{
}

} // verus!
