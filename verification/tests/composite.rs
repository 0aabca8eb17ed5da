use jpeg_encoder::{ColorType, Encoder};
use tethermoon::composite::{blend_frames, blend_jpegs, Blend};
use tethermoon::jpeg::{
    decode_rgb, encode_jpeg, encode_with, header_reads, to_rgb, DecodedJpeg, ImageError, PixelFormat,
    RgbFrame,
};
use tethermoon::markers::overruns;

fn solid(w: usize, h: usize, rgb: [u8; 3]) -> Vec<u8> {
    let mut buf = Vec::with_capacity(w * h * 3);
    for _ in 0..w * h {
        buf.extend_from_slice(&rgb);
    }
    encode_jpeg(w, h, &buf).unwrap()
}

fn center_px(jpeg: &[u8]) -> [u8; 3] {
    let f = decode_rgb(jpeg).unwrap();
    let i = (f.h / 2 * f.w + f.w / 2) * 3;
    [f.rgb[i], f.rgb[i + 1], f.rgb[i + 2]]
}

fn close(a: u8, b: u8) -> bool {
    (a as i16 - b as i16).abs() <= 6
}

#[test]
fn average_blends_to_mean() {
    let a = solid(16, 16, [0, 100, 200]);
    let b = solid(16, 16, [100, 100, 0]);
    let out = blend_jpegs(&[a, b], Blend::Average).unwrap();
    let [r, g, bl] = center_px(&out);
    assert!(close(r, 50), "r={r}");
    assert!(close(g, 100), "g={g}");
    assert!(close(bl, 100), "b={bl}");
}

#[test]
fn lighten_takes_max_per_channel() {
    let a = solid(16, 16, [200, 10, 50]);
    let b = solid(16, 16, [30, 150, 50]);
    let out = blend_jpegs(&[a, b], Blend::Lighten).unwrap();
    let [r, g, bl] = center_px(&out);
    assert!(close(r, 200) && close(g, 150) && close(bl, 50), "{r},{g},{bl}");
}

#[test]
fn add_sums_and_clamps() {
    let a = solid(16, 16, [200, 10, 0]);
    let b = solid(16, 16, [100, 20, 0]);
    let out = blend_jpegs(&[a, b], Blend::Add).unwrap();
    let [r, g, _] = center_px(&out);
    assert!(r >= 249, "r clamps to 255-ish, got {r}");
    assert!(close(g, 30), "g={g}");
}

#[test]
fn size_mismatch_errors() {
    let a = solid(16, 16, [10, 10, 10]);
    let b = solid(8, 8, [10, 10, 10]);
    assert!(blend_jpegs(&[a, b], Blend::Average).is_err());
}

#[test]
fn single_frame_passthrough() {
    let a = solid(16, 16, [123, 45, 67]);
    let out = blend_jpegs(&[a], Blend::Average).unwrap();
    let [r, g, b] = center_px(&out);
    assert!(close(r, 123) && close(g, 45) && close(b, 67));
}

fn frame(rgb: &[u8]) -> RgbFrame {
    RgbFrame { w: rgb.len() / 3, h: 1, rgb: rgb.to_vec() }
}

#[test]
fn blends_exactly() {
    let fs = vec![frame(&[0, 100, 201]), frame(&[101, 100, 0]), frame(&[1, 255, 100])];
    assert_eq!(blend_frames(&fs, Blend::Average).unwrap().rgb, vec![34, 151, 100]);
    assert_eq!(blend_frames(&fs, Blend::Lighten).unwrap().rgb, vec![101, 255, 201]);
    assert_eq!(blend_frames(&fs, Blend::Add).unwrap().rgb, vec![102, 255, 255]);
}

#[test]
fn order_of_frames_does_not_matter() {
    let a = frame(&[3, 250, 77]);
    let b = frame(&[90, 8, 77]);
    let c = frame(&[1, 2, 255]);
    let abc = vec![frame(&a.rgb), frame(&b.rgb), frame(&c.rgb)];
    let cab = vec![c, a, b];
    for mode in [Blend::Average, Blend::Lighten, Blend::Add] {
        assert_eq!(
            blend_frames(&abc, mode).unwrap().rgb,
            blend_frames(&cab, mode).unwrap().rgb
        );
    }
}

#[test]
fn names_of_modes() {
    assert_eq!(Blend::from_str("lighten"), Blend::Lighten);
    assert_eq!(Blend::from_str("add"), Blend::Add);
    assert_eq!(Blend::from_str("average"), Blend::Average);
    assert_eq!(Blend::from_str("Add"), Blend::Average);
    assert_eq!(Blend::from_str(""), Blend::Average);
}

#[test]
fn errors_say_what_happened() {
    let none: Vec<Vec<u8>> = Vec::new();
    assert_eq!(blend_jpegs(&none, Blend::Add).unwrap_err().message(), "no frames");

    let bad = blend_jpegs(&[vec![1, 2, 3]], Blend::Add).unwrap_err();
    assert!(matches!(bad, ImageError::Decode(_)));
    assert!(bad.message().starts_with("decode: "));

    let two = [solid(16, 16, [0, 0, 0]), solid(24, 8, [0, 0, 0])];
    assert_eq!(
        blend_jpegs(&two, Blend::Average).unwrap_err().message(),
        "frame 1 size 24x8 != 16x16 (정렬/동일촬영 필요)"
    );

    let cmyk = DecodedJpeg { width: 1, height: 1, format: PixelFormat::Cmyk32, pixels: vec![0; 4] };
    assert_eq!(to_rgb(cmyk).unwrap_err().message(), "unsupported pixel format: CMYK32");

    let short = encode_jpeg(4, 4, &[0; 47]).unwrap_err();
    assert!(matches!(short, ImageError::Encode(_)));
    assert!(short.message().starts_with("encode: "));
    assert!(encode_jpeg(0, 4, &[]).is_err());
}

#[test]
fn grey_spreads_over_three_channels() {
    let img = DecodedJpeg { width: 2, height: 1, format: PixelFormat::L8, pixels: vec![7, 200] };
    let f = to_rgb(img).unwrap();
    assert_eq!((f.w, f.h), (2, 1));
    assert_eq!(f.rgb, vec![7, 7, 7, 200, 200, 200]);
}

#[test]
fn quality_matters_to_the_encoder() {
    let rgb: Vec<u8> = (0..64 * 64 * 3).map(|i| (i * 37 % 251) as u8).collect();
    let fine = encode_with(64, 64, &rgb, 95).unwrap();
    let coarse = encode_with(64, 64, &rgb, 20).unwrap();
    assert!(coarse.len() < fine.len());
    let f = decode_rgb(&fine).unwrap();
    assert_eq!((f.w, f.h), (64, 64));
    assert_eq!(f.rgb.len(), rgb.len());
}

#[test]
fn the_tallest_pictures_are_decoded() {
    for quality in [50, 95] {
        for (w, h) in [(8, 65528), (8, 65529), (8, 65535), (65529, 8), (65535, 8)] {
            let jpeg = encode_with(w, h, &vec![9u8; w * h * 3], quality).unwrap();
            assert!(header_reads(&jpeg));
            assert!(!overruns(&jpeg, w as u16, h as u16));
            let f = decode_rgb(&jpeg).unwrap();
            assert_eq!((f.w, f.h, f.rgb.len()), (w, h, w * h * 3));
        }
    }
    assert!(!header_reads(b"no jpeg"));
}

/// A grey picture has a single component, so its scan is counted block by block.
fn grey(w: u16, h: u16, progressive: bool) -> Vec<u8> {
    let mut out = Vec::new();
    let mut encoder = Encoder::new(&mut out, 50);
    encoder.set_progressive(progressive);
    encoder.encode(&vec![9u8; w as usize * h as usize], w, h, ColorType::Luma).unwrap();
    out
}

#[test]
fn too_tall_a_grey_picture_is_not_decoded() {
    for progressive in [false, true] {
        for (w, h) in [(8, 65528), (65529, 8), (65535, 8)] {
            let jpeg = grey(w, h, progressive);
            assert!(!overruns(&jpeg, w, h));
            let f = decode_rgb(&jpeg).unwrap();
            assert_eq!((f.w, f.h), (w as usize, h as usize));
        }
        for h in [65529, 65535] {
            let jpeg = grey(8, h, progressive);
            assert!(header_reads(&jpeg));
            assert!(overruns(&jpeg, 8, h));
            let e = decode_rgb(&jpeg).unwrap_err();
            assert_eq!(e.message(), "decode: picture too large for the decoder");
        }
    }
}

#[test]
fn too_tall_a_progressive_picture_is_not_decoded() {
    let mut out = Vec::new();
    let mut encoder = Encoder::new(&mut out, 50);
    encoder.set_progressive(true);
    encoder.encode(&vec![9u8; 8 * 65535 * 3], 8, 65535, ColorType::Rgb).unwrap();
    assert!(overruns(&out, 8, 65535));
    assert!(!overruns(&out, 8, 65528));
    let e = decode_rgb(&out).unwrap_err();
    assert_eq!(e.message(), "decode: picture too large for the decoder");
}

#[test]
fn markers_are_walked_segment_by_segment() {
    // One component, sampled once each way, and one scan of it.
    let frame = [0xFF, 0xC0, 0, 11, 8, 0xFF, 0xFF, 0, 8, 1, 1, 0x11, 0];
    let scan = [0xFF, 0xDA, 0, 8, 1, 1, 0, 0, 63, 0];
    let file = |parts: &[&[u8]]| parts.concat();
    let soi: &[u8] = &[0xFF, 0xD8];
    assert!(overruns(&file(&[soi, &frame, &scan]), 8, 65535));
    assert!(!overruns(&file(&[soi, &frame, &scan]), 65535, 8));
    // What a comment holds is not a marker; fill bytes and stray bytes are passed over.
    assert!(!overruns(&file(&[soi, &frame, &[0xFF, 0xFE, 0, 12], &scan]), 8, 65535));
    assert!(overruns(&file(&[soi, &[7, 0xFF, 0xFF], &frame, &[3, 0xFF, 0], &scan]), 8, 65535));
    // Nothing behind the end of the image counts, nor a scan that is cut off.
    assert!(!overruns(&file(&[soi, &frame, &[0xFF, 0xD9], &scan]), 8, 65535));
    assert!(!overruns(&file(&[soi, &frame, &scan[..9]]), 8, 65535));
    assert!(!overruns(&file(&[soi, &scan]), 8, 65535));
    assert!(!overruns(&[], 8, 65535));
    // A component that is sampled three times has one block too many in either direction.
    let mut wide = frame;
    wide[11] = 0x31;
    assert!(overruns(&file(&[soi, &wide, &scan]), 65529, 8));
    // A lossless frame is not counted in blocks.
    let mut lossless = frame;
    lossless[1] = 0xC3;
    assert!(!overruns(&file(&[soi, &lossless, &scan]), 8, 65535));
}

#[test]
fn equal_frames_blend_to_the_frame() {
    let frames: Vec<RgbFrame> =
        (0..5).map(|_| RgbFrame { w: 2, h: 1, rgb: vec![0, 7, 255, 100, 33, 1] }).collect();
    for mode in [Blend::Average, Blend::Lighten] {
        assert_eq!(blend_frames(&frames, mode).unwrap().rgb, frames[0].rgb);
    }
}
