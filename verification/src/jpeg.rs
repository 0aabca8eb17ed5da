//! The JPEG codec as the rest of the library sees it.
//!
//! `jpeg_decoder` and `jpeg_encoder` do the work. What they return is named by
//! three functions without a body; the functions here turn the raw result into an
//! RGB frame, or into an error, and say exactly when. The few files in which the decoder's
//! count of blocks would run over are not handed to it.
use vstd::prelude::*;

use crate::markers::{may_overrun, overruns};
use crate::text::{decimal, push_decimal};

verus! {

/// How the decoder lays out one pixel.
#[derive(Clone, Copy, Debug, PartialEq, Eq, Structural)]
pub enum PixelFormat {
    /// Grey, one byte.
    L8,
    /// Grey, two bytes.
    L16,
    /// Red, green, blue, one byte each.
    Rgb24,
    /// Cyan, magenta, yellow, key, one byte each.
    Cmyk32,
}

/// A decoded JPEG.
#[derive(Debug)]
pub struct DecodedJpeg {
    /// Width in pixels.
    pub width: u16,
    /// Height in pixels.
    pub height: u16,
    /// Layout of `pixels`.
    pub format: PixelFormat,
    /// The samples, row by row.
    pub pixels: Vec<u8>,
}

/// What a [`DecodedJpeg`] holds.
#[verifier::ext_equal]
pub struct JpegImage {
    /// Width in pixels.
    pub width: u16,
    /// Height in pixels.
    pub height: u16,
    /// Layout of `pixels`.
    pub format: PixelFormat,
    /// The samples, row by row.
    pub pixels: Seq<u8>,
}

impl View for DecodedJpeg {
    type V = JpegImage;

    open spec fn view(&self) -> JpegImage {
        JpegImage {
            width: self.width,
            height: self.height,
            format: self.format,
            pixels: self.pixels@,
        }
    }
}

impl JpegImage {
    /// One byte for every channel of every pixel, in a layout of eight bits per channel.
    pub open spec fn is_plain(self) -> bool {
        match self.format {
            PixelFormat::L8 => self.pixels.len() == self.width * self.height,
            PixelFormat::Rgb24 => self.pixels.len() == self.width * self.height * 3,
            _ => false,
        }
    }
}

/// What `jpeg_decoder::Decoder` makes of `bytes`: the image, or the text of its error.
pub uninterp spec fn jpeg_decoding(bytes: Seq<u8>) -> Result<JpegImage, Seq<char>>;

/// The width and height that `jpeg_decoder::Decoder::read_info` finds in the header of `bytes`,
/// if it accepts the header.
pub uninterp spec fn jpeg_header_size(bytes: Seq<u8>) -> Option<(u16, u16)>;

/// Whether the header of `bytes` can be read.
pub open spec fn jpeg_header_reads(bytes: Seq<u8>) -> bool {
    jpeg_header_size(bytes) is Some
}

/// Whether the decoder's count of blocks runs over in `bytes`: the header reads, and says a
/// size at which some scan is too much for it.
pub open spec fn is_beyond_decoder(bytes: Seq<u8>) -> bool {
    match jpeg_header_size(bytes) {
        Some((w, h)) => may_overrun(bytes, w as int, h as int),
        None => false,
    }
}

/// What `jpeg_encoder::Encoder` makes of `width * height` RGB pixels at `quality`: the
/// file, or the text of its error.
pub uninterp spec fn jpeg_encoding(rgb: Seq<u8>, width: u16, height: u16, quality: u8) -> Result<
    Seq<u8>,
    Seq<char>,
>;

/// Calls `jpeg_decoder::Decoder::decode` and `info`. The outcome is a function of the
/// bytes alone: the crate is built with `platform_independent`, under which it promises
/// the same output on all platforms. Lossless frames of more than eight bits are the
/// exception, their samples come in the byte order of the machine: of an image that is
/// not plain, what the pixels are is left unsaid. It must not be handed a file in which its
/// count of blocks runs over: where overflow is checked, it panics there. That count is of
/// sixteen bits, eight to a block, and it runs over only in a scan of one component, in a
/// picture with a side of over 65528 pixels. A file whose header does not read fails before
/// any scan.
#[verifier::external_body]
pub(crate) fn decode_jpeg(jpeg: &[u8]) -> (res: Result<DecodedJpeg, String>)
    requires
        !is_beyond_decoder(jpeg@),
    ensures
        decoded_as(res, jpeg_decoding(jpeg@)),
{
    let mut dec = jpeg_decoder::Decoder::new(std::io::Cursor::new(jpeg));
    let pixels = dec.decode().map_err(|e| e.to_string())?;
    let info = dec.info().ok_or("no image info".to_string())?;
    let format = match info.pixel_format {
        jpeg_decoder::PixelFormat::L8 => PixelFormat::L8,
        jpeg_decoder::PixelFormat::L16 => PixelFormat::L16,
        jpeg_decoder::PixelFormat::RGB24 => PixelFormat::Rgb24,
        jpeg_decoder::PixelFormat::CMYK32 => PixelFormat::Cmyk32,
    };
    Ok(DecodedJpeg { width: info.width, height: info.height, format, pixels })
}

/// Calls `jpeg_decoder::Decoder::read_info`, which reads markers up to the frame header, and
/// `info`, which then has the width and height that stand there.
#[verifier::external_body]
pub(crate) fn header_size(jpeg: &[u8]) -> (res: Option<(u16, u16)>)
    ensures
        res == jpeg_header_size(jpeg@),
{
    let mut dec = jpeg_decoder::Decoder::new(std::io::Cursor::new(jpeg));
    dec.read_info().ok()?;
    dec.info().map(|info| (info.width, info.height))
}

/// Whether the header of a file can be read.
pub fn header_reads(jpeg: &[u8]) -> (res: bool)
    ensures
        res == jpeg_header_reads(jpeg@),
{
    header_size(jpeg).is_some()
}

/// What comes of decoding `bytes`: what the decoder makes of them, the image or the text of an
/// error. Where its count of blocks would run over, there is no image.
pub open spec fn decoding(bytes: Seq<u8>) -> Result<JpegImage, Seq<char>> {
    if is_beyond_decoder(bytes) {
        Err("picture too large for the decoder"@)
    } else {
        jpeg_decoding(bytes)
    }
}

/// `res` is the outcome `want` of decoding. Of an image that is not plain only the size, the
/// layout and the number of samples are said.
pub open spec fn decoded_as(
    res: Result<DecodedJpeg, String>,
    want: Result<JpegImage, Seq<char>>,
) -> bool {
    match (res, want) {
        (Ok(d), Ok(v)) => {
            &&& d.width == v.width
            &&& d.height == v.height
            &&& d.format == v.format
            &&& d.pixels@.len() == v.pixels.len()
            &&& v.is_plain() ==> d@ == v
        },
        (Err(e), Err(v)) => e@ == v,
        _ => false,
    }
}

/// Decodes a file, unless the decoder's count of blocks would run over.
pub fn read_jpeg(jpeg: &[u8]) -> (res: Result<DecodedJpeg, String>)
    ensures
        decoded_as(res, decoding(jpeg@)),
{
    if let Some((w, h)) = header_size(jpeg) {
        if overruns(jpeg, w, h) {
            return Err("picture too large for the decoder".to_string());
        }
    }
    decode_jpeg(jpeg)
}

/// Calls `jpeg_encoder::Encoder::encode` on RGB samples, writing into a vector. It fails
/// where there are fewer than `width * height * 3` samples or where a dimension is zero,
/// and, as a vector takes every write, nowhere else. That product has to fit into a `usize`,
/// in which the encoder computes it.
#[verifier::external_body]
pub(crate) fn encode_rgb(rgb: &[u8], width: u16, height: u16, quality: u8) -> (res: Result<
    Vec<u8>,
    String,
>)
    requires
        width * height * 3 <= usize::MAX,
    ensures
        match (res, jpeg_encoding(rgb@, width, height, quality)) {
            (Ok(f), Ok(v)) => f@ == v,
            (Err(e), Err(v)) => e@ == v,
            _ => false,
        },
        res is Err <==> rgb@.len() < width * height * 3 || width == 0 || height == 0,
{
    let mut out = Vec::new();
    jpeg_encoder::Encoder::new(&mut out, quality)
        .encode(rgb, width, height, jpeg_encoder::ColorType::Rgb)
        .map_err(|e| e.to_string())?;
    Ok(out)
}

/// Why an image could not be read, combined or written.
#[derive(Debug)]
pub enum ImageError {
    /// There was nothing to combine.
    NoFrames,
    /// The decoder gave up, with this text.
    Decode(String),
    /// The pixels are neither eight-bit grey nor eight-bit RGB.
    Unsupported(PixelFormat),
    /// A frame's dimensions differ from those of the first.
    SizeMismatch {
        /// Position of the frame in the request.
        index: usize,
        /// Its width.
        width: usize,
        /// Its height.
        height: usize,
        /// Width of the first frame.
        want_width: usize,
        /// Height of the first frame.
        want_height: usize,
    },
    /// The encoder gave up, with this text.
    Encode(String),
}

/// What an [`ImageError`] says.
pub enum ImageErrorView {
    /// There was nothing to combine.
    NoFrames,
    /// The decoder gave up, with this text.
    Decode(Seq<char>),
    /// The pixels are neither eight-bit grey nor eight-bit RGB.
    Unsupported(PixelFormat),
    /// A frame's dimensions differ from those of the first.
    SizeMismatch {
        /// Position of the frame in the request.
        index: int,
        /// Its width.
        width: int,
        /// Its height.
        height: int,
        /// Width of the first frame.
        want_width: int,
        /// Height of the first frame.
        want_height: int,
    },
    /// The encoder gave up, with this text.
    Encode(Seq<char>),
}

impl View for ImageError {
    type V = ImageErrorView;

    open spec fn view(&self) -> ImageErrorView {
        match self {
            ImageError::NoFrames => ImageErrorView::NoFrames,
            ImageError::Decode(t) => ImageErrorView::Decode(t@),
            ImageError::Unsupported(f) => ImageErrorView::Unsupported(*f),
            ImageError::SizeMismatch { index, width, height, want_width, want_height } =>
                ImageErrorView::SizeMismatch {
                    index: *index as int,
                    width: *width as int,
                    height: *height as int,
                    want_width: *want_width as int,
                    want_height: *want_height as int,
                },
            ImageError::Encode(t) => ImageErrorView::Encode(t@),
        }
    }
}

/// The name of a pixel format.
pub open spec fn format_name(f: PixelFormat) -> Seq<char> {
    match f {
        PixelFormat::L8 => "L8"@,
        PixelFormat::L16 => "L16"@,
        PixelFormat::Rgb24 => "RGB24"@,
        PixelFormat::Cmyk32 => "CMYK32"@,
    }
}

impl ImageErrorView {
    /// The text shown to the user.
    pub open spec fn text(self) -> Seq<char> {
        match self {
            ImageErrorView::NoFrames => "no frames"@,
            ImageErrorView::Decode(t) => "decode: "@ + t,
            ImageErrorView::Unsupported(f) => "unsupported pixel format: "@ + format_name(f),
            ImageErrorView::SizeMismatch { index, width, height, want_width, want_height } =>
                "frame "@ + decimal(index as nat) + " size "@ + decimal(width as nat) + "x"@
                    + decimal(height as nat) + " != "@ + decimal(want_width as nat) + "x"@
                    + decimal(want_height as nat) + " (정렬/동일촬영 필요)"@,
            ImageErrorView::Encode(t) => "encode: "@ + t,
        }
    }
}

impl ImageError {
    /// The text shown to the user.
    pub fn message(&self) -> (r: String)
        ensures
            r@ == self@.text(),
    {
        let mut r = String::new();
        match self {
            ImageError::NoFrames => {
                r.append("no frames");
            },
            ImageError::Decode(t) => {
                r.append("decode: ");
                r.append(t.as_str());
            },
            ImageError::Unsupported(f) => {
                r.append("unsupported pixel format: ");
                match f {
                    PixelFormat::L8 => r.append("L8"),
                    PixelFormat::L16 => r.append("L16"),
                    PixelFormat::Rgb24 => r.append("RGB24"),
                    PixelFormat::Cmyk32 => r.append("CMYK32"),
                }
            },
            ImageError::SizeMismatch { index, width, height, want_width, want_height } => {
                r.append("frame ");
                push_decimal(&mut r, *index as u64);
                r.append(" size ");
                push_decimal(&mut r, *width as u64);
                r.append("x");
                push_decimal(&mut r, *height as u64);
                r.append(" != ");
                push_decimal(&mut r, *want_width as u64);
                r.append("x");
                push_decimal(&mut r, *want_height as u64);
                r.append(" (정렬/동일촬영 필요)");
            },
            ImageError::Encode(t) => {
                r.append("encode: ");
                r.append(t.as_str());
            },
        }
        assert(r@ =~= self@.text());
        r
    }
}

/// An image of `w * h` RGB pixels.
#[derive(Debug)]
pub struct RgbFrame {
    /// Width in pixels.
    pub w: usize,
    /// Height in pixels.
    pub h: usize,
    /// The samples, three to a pixel, row by row.
    pub rgb: Vec<u8>,
}

/// What an [`RgbFrame`] holds.
#[verifier::ext_equal]
pub struct RgbView {
    /// Width in pixels.
    pub w: int,
    /// Height in pixels.
    pub h: int,
    /// The samples, three to a pixel, row by row.
    pub rgb: Seq<u8>,
}

impl View for RgbFrame {
    type V = RgbView;

    open spec fn view(&self) -> RgbView {
        RgbView { w: self.w as int, h: self.h as int, rgb: self.rgb@ }
    }
}

impl RgbView {
    /// Three samples for every pixel.
    pub open spec fn wf(self) -> bool {
        0 <= self.w && 0 <= self.h && self.rgb.len() == self.w * self.h * 3
    }
}

/// Every grey sample three times over.
pub open spec fn gray_as_rgb(px: Seq<u8>) -> Seq<u8> {
    Seq::new(px.len() * 3, |i: int| px[i / 3])
}

/// A decoded image as an RGB frame: RGB as it is, grey spread over the three channels,
/// anything else refused.
pub open spec fn as_rgb(img: JpegImage) -> Result<RgbView, ImageErrorView> {
    if !img.is_plain() {
        Err(ImageErrorView::Unsupported(img.format))
    } else if img.format == PixelFormat::Rgb24 {
        Ok(RgbView { w: img.width as int, h: img.height as int, rgb: img.pixels })
    } else {
        Ok(RgbView { w: img.width as int, h: img.height as int, rgb: gray_as_rgb(img.pixels) })
    }
}

/// The RGB frame that `decoded`, the decoder's outcome, stands for.
pub open spec fn rgb_outcome(decoded: Result<JpegImage, Seq<char>>) -> Result<
    RgbView,
    ImageErrorView,
> {
    match decoded {
        Ok(img) => as_rgb(img),
        Err(t) => Err(ImageErrorView::Decode(t)),
    }
}

/// `res` is the outcome `want`.
pub open spec fn frame_outcome(
    res: Result<RgbFrame, ImageError>,
    want: Result<RgbView, ImageErrorView>,
) -> bool {
    match (res, want) {
        (Ok(f), Ok(v)) => f@ == v,
        (Err(e), Err(v)) => e@ == v,
        _ => false,
    }
}

/// Turns a decoded image into an RGB frame.
pub fn to_rgb(img: DecodedJpeg) -> (res: Result<RgbFrame, ImageError>)
    ensures
        frame_outcome(res, as_rgb(img@)),
        res matches Ok(f) ==> f@.wf(),
{
    assert(img.width * img.height <= 0xFFFF * 0xFFFF) by (nonlinear_arith)
        requires
            img.width <= 0xFFFF,
            img.height <= 0xFFFF,
    ;
    let area: u64 = (img.width as u64) * (img.height as u64);
    match img.format {
        PixelFormat::Rgb24 => {
            if img.pixels.len() as u64 == area * 3 {
                return Ok(
                    RgbFrame { w: img.width as usize, h: img.height as usize, rgb: img.pixels },
                );
            }
        },
        PixelFormat::L8 => {
            if img.pixels.len() as u64 == area {
                let mut rgb: Vec<u8> = Vec::new();
                for i in 0..img.pixels.len()
                    invariant
                        rgb@ =~= gray_as_rgb(img.pixels@.take(i as int)),
                {
                    let v: u8 = img.pixels[i];
                    rgb.push(v);
                    rgb.push(v);
                    rgb.push(v);
                }
                assert(img.pixels@.take(img.pixels@.len() as int) =~= img.pixels@);
                return Ok(RgbFrame { w: img.width as usize, h: img.height as usize, rgb });
            }
        },
        _ => {},
    }
    Err(ImageError::Unsupported(img.format))
}

/// Decodes one JPEG into an RGB frame.
pub fn decode_rgb(jpeg: &[u8]) -> (res: Result<RgbFrame, ImageError>)
    ensures
        frame_outcome(res, rgb_outcome(decoding(jpeg@))),
        res matches Ok(f) ==> f@.wf(),
{
    match read_jpeg(jpeg) {
        Ok(d) => to_rgb(d),
        Err(e) => Err(ImageError::Decode(e)),
    }
}

/// `res` is the outcome `want` of the encoder.
pub open spec fn file_outcome(
    res: Result<Vec<u8>, ImageError>,
    want: Result<Seq<u8>, Seq<char>>,
) -> bool {
    match (res, want) {
        (Ok(f), Ok(v)) => f@ == v,
        (Err(e), Err(t)) => e@ == ImageErrorView::Encode(t),
        _ => false,
    }
}

/// Whether the encoder can count the samples of a picture, its dimensions taken as sixteen bits
/// each.
pub open spec fn is_countable(w: usize, h: usize) -> bool {
    (w as u16) * (h as u16) * 3 <= usize::MAX
}

/// Samples that are there can be counted.
pub proof fn lemma_countable(w: usize, h: usize)
    requires
        w * h * 3 <= usize::MAX,
    ensures
        is_countable(w, h),
{
    let (x, y) = (w as u16, h as u16);
    assert(w as u16 <= w) by (bit_vector);
    assert(h as u16 <= h) by (bit_vector);
    assert(x * y <= w * h) by (nonlinear_arith)
        requires
            0 <= x <= w,
            0 <= y <= h,
    ;
}

/// Encodes RGB samples at the given quality. The dimensions go to the encoder as sixteen
/// bits each.
pub fn encode_with(w: usize, h: usize, rgb: &[u8], quality: u8) -> (res: Result<
    Vec<u8>,
    ImageError,
>)
    requires
        is_countable(w, h),
    ensures
        file_outcome(res, jpeg_encoding(rgb@, w as u16, h as u16, quality)),
        w <= u16::MAX && h <= u16::MAX ==> (res is Ok <==> 0 < w && 0 < h && rgb@.len() >= w * h
            * 3),
{
    match encode_rgb(rgb, #[verifier::truncate] (w as u16), #[verifier::truncate] (h as u16), quality) {
        Ok(f) => Ok(f),
        Err(e) => Err(ImageError::Encode(e)),
    }
}

/// Encodes RGB samples at quality 92.
pub fn encode_jpeg(w: usize, h: usize, rgb: &[u8]) -> (res: Result<Vec<u8>, ImageError>)
    requires
        is_countable(w, h),
    ensures
        file_outcome(res, jpeg_encoding(rgb@, w as u16, h as u16, 92)),
        w <= u16::MAX && h <= u16::MAX ==> (res is Ok <==> 0 < w && 0 < h && rgb@.len() >= w * h
            * 3),
{
    encode_with(w, h, rgb, 92)
}

/// A decoded frame in colour is taken as it is; in a grey one each level stands for red, green and
/// blue alike. Anything else is refused with its layout, and what does not decode with the
/// decoder's text.
pub proof fn law_frames_become_rgb(
    res: Result<RgbFrame, ImageError>,
    decoded: Result<JpegImage, Seq<char>>,
)
    requires
        frame_outcome(res, rgb_outcome(decoded)),
    ensures
        match decoded {
            Err(t) => res matches Err(ImageError::Decode(s)) && s@ == t,
            Ok(img) => {
                let n = img.width * img.height;
                if img.format == PixelFormat::Rgb24 && img.pixels.len() == 3 * n {
                    &&& res matches Ok(f)
                    &&& f.w == img.width
                    &&& f.h == img.height
                    &&& f.rgb@ == img.pixels
                } else if img.format == PixelFormat::L8 && img.pixels.len() == n {
                    &&& res matches Ok(f)
                    &&& f.w == img.width
                    &&& f.h == img.height
                    &&& f.rgb@.len() == 3 * n
                    &&& forall|k: int|
                        0 <= k < n ==> f.rgb@[3 * k] == #[trigger] img.pixels[k] && f.rgb@[3 * k + 1]
                            == img.pixels[k] && f.rgb@[3 * k + 2] == img.pixels[k]
                } else {
                    res matches Err(ImageError::Unsupported(p)) && p == img.format
                }
            },
        },
{
}

/// Files are handed to the decoder as they are; what it makes of them is what is read, but for
/// files that are too large for it.
pub proof fn law_decoder_has_the_last_word(bytes: Seq<u8>, res: Result<DecodedJpeg, String>)
    requires
        decoded_as(res, decoding(bytes)),
    ensures
        (jpeg_header_size(bytes) matches Some((w, h)) ==> !may_overrun(bytes, w as int, h as int))
            ==> match jpeg_decoding(bytes) {
            Ok(img) => {
                &&& res matches Ok(d)
                &&& d.width == img.width && d.height == img.height && d.format == img.format
                &&& img.is_plain() ==> d.pixels@ == img.pixels
            },
            Err(t) => res matches Err(e) && e@ == t,
        },
        (jpeg_header_size(bytes) matches Some((w, h)) && may_overrun(bytes, w as int, h as int))
            ==> (res matches Err(e) && e@ == "picture too large for the decoder"@),
{
}

/// A file that is written holds what the encoder made; its error is passed on.
pub proof fn law_encoder_has_the_last_word(
    res: Result<Vec<u8>, ImageError>,
    want: Result<Seq<u8>, Seq<char>>,
)
    requires
        file_outcome(res, want),
    ensures
        match want {
            Ok(v) => res matches Ok(f) && f@ == v,
            Err(t) => res matches Err(ImageError::Encode(s)) && s@ == t,
        },
{
}

} // verus!
