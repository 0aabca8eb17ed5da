use tethermoon::autofocus::{
    brightest_point, find_brightest, focus_measure, is_plain, measure, measure_around, BrightPoint,
    UNIT,
};
use tethermoon::jpeg::{DecodedJpeg, PixelFormat};

fn synth_jpeg(w: usize, h: usize, star_x: usize, star_y: usize) -> Vec<u8> {
    let mut rgb = vec![0u8; w * h * 3];
    for p in rgb.iter_mut() {
        *p = 4;
    }
    for dy in -1i32..=1 {
        for dx in -1i32..=1 {
            let x = star_x as i32 + dx;
            let y = star_y as i32 + dy;
            if x >= 0 && y >= 0 && (x as usize) < w && (y as usize) < h {
                let i = ((y as usize) * w + x as usize) * 3;
                rgb[i] = 250;
                rgb[i + 1] = 250;
                rgb[i + 2] = 250;
            }
        }
    }
    let mut out = Vec::new();
    let enc = jpeg_encoder::Encoder::new(&mut out, 95);
    enc.encode(&rgb, w as u16, h as u16, jpeg_encoder::ColorType::Rgb).unwrap();
    out
}

fn grey(w: u16, h: u16, pixels: Vec<u8>) -> DecodedJpeg {
    DecodedJpeg { width: w, height: h, format: PixelFormat::L8, pixels }
}

#[test]
fn finds_the_star() {
    let jpeg = synth_jpeg(320, 240, 220, 60);
    let p = brightest_point(&jpeg).expect("should find the star");
    let x = p.x as f64 / p.width as f64;
    let y = p.y as f64 / p.height as f64;
    assert!((x - 220.0 / 320.0).abs() < 0.05, "x={x}");
    assert!((y - 60.0 / 240.0).abs() < 0.05, "y={y}");
}

#[test]
fn dark_scene_returns_none() {
    let mut rgb = vec![5u8; 320 * 240 * 3];
    rgb.iter_mut().for_each(|p| *p = 5);
    let mut jpeg = Vec::new();
    jpeg_encoder::Encoder::new(&mut jpeg, 95)
        .encode(&rgb, 320, 240, jpeg_encoder::ColorType::Rgb)
        .unwrap();
    assert!(brightest_point(&jpeg).is_none());
}

#[test]
fn brightest_is_the_first_of_equals() {
    // Two stars of one brightness: the upper one is found.
    let mut px = vec![0u8; 20 * 20];
    px[5 * 20 + 12] = 255;
    px[14 * 20 + 4] = 255;
    // One bright pixel alone stays under the noise floor of the square.
    assert_eq!(find_brightest(&grey(20, 20, px.clone())), None);
    for (x, y) in [(12, 5), (4, 14)] {
        for dy in 0..3 {
            for dx in 0..3 {
                px[(y + dy - 1) * 20 + x + dx - 1] = 255;
            }
        }
    }
    let p = find_brightest(&grey(20, 20, px)).unwrap();
    // The first square that holds all nine pixels.
    assert_eq!(p, BrightPoint { x: 11, y: 4, width: 20, height: 20 });
}

#[test]
fn brightest_needs_the_noise_floor() {
    // A flat frame of twelve grey levels is just bright enough, eleven is not.
    assert_eq!(
        find_brightest(&grey(5, 5, vec![12; 25])),
        Some(BrightPoint { x: 2, y: 2, width: 5, height: 5 })
    );
    assert_eq!(find_brightest(&grey(5, 5, vec![11; 25])), None);
    assert_eq!(find_brightest(&grey(4, 9, vec![255; 36])), None);
}

#[test]
fn flat_frame_scores_zero() {
    let img = grey(9, 9, vec![77; 81]);
    assert_eq!(measure(&img, UNIT / 2, UNIT / 2, UNIT, UNIT), Some(0));
}

#[test]
fn sharpness_of_one_bright_pixel() {
    // A single pixel of level one in the middle of a five by five frame. Over the nine
    // inner pixels the Laplacian is -4000 once, 1000 four times and 0 four times: its sum
    // is zero and its variance (16 + 4) / 9 millions, rounded down.
    let mut px = vec![0u8; 25];
    px[12] = 1;
    let img = grey(5, 5, px);
    assert_eq!(measure(&img, UNIT / 2, UNIT / 2, UNIT, UNIT), Some(20_000_000 / 9));
    assert_eq!(measure_around(&img, 2, 2, UNIT), Some(20_000_000 / 9));
}

#[test]
fn weights_of_red_green_and_blue() {
    // The same pixel in pure green weighs 587 thousandths of it.
    let mut px = vec![0u8; 75];
    px[12 * 3 + 1] = 1;
    let img = DecodedJpeg { width: 5, height: 5, format: PixelFormat::Rgb24, pixels: px };
    assert_eq!(
        measure(&img, UNIT / 2, UNIT / 2, UNIT, UNIT),
        Some(587 * 587 * 20 / 9)
    );
}

#[test]
fn frames_that_cannot_be_measured() {
    assert_eq!(measure(&grey(2, 9, vec![0; 18]), 0, 0, UNIT, UNIT), None);
    let four = DecodedJpeg { width: 5, height: 5, format: PixelFormat::Cmyk32, pixels: vec![0; 100] };
    assert!(!is_plain(&four));
    assert_eq!(measure(&four, 0, 0, UNIT, UNIT), None);
    let short = grey(5, 5, vec![0; 24]);
    assert!(!is_plain(&short));
    assert_eq!(measure(&short, 0, 0, UNIT, UNIT), None);
    // A frame of three by three has a single inner pixel.
    assert_eq!(measure(&grey(3, 3, vec![0; 9]), UNIT / 2, UNIT / 2, UNIT, UNIT), None);
    assert_eq!(focus_measure(b"no jpeg", 0, 0, UNIT, UNIT), None);
}

#[test]
fn blurred_edge_is_less_sharp() {
    let sharp: Vec<u8> = (0..32 * 32).map(|i| if i % 32 < 16 { 20 } else { 220 }).collect();
    let soft: Vec<u8> = (0..32 * 32).map(|i| (20 + (i % 32) * 6) as u8).collect();
    let a = measure(&grey(32, 32, sharp), UNIT / 2, UNIT / 2, UNIT, UNIT).unwrap();
    let b = measure(&grey(32, 32, soft), UNIT / 2, UNIT / 2, UNIT, UNIT).unwrap();
    assert!(a > b);
}

#[test]
fn focus_measure_reads_the_jpeg() {
    let jpeg = synth_jpeg(64, 64, 32, 32);
    let at_star = focus_measure(&jpeg, UNIT / 2, UNIT / 2, UNIT / 10, UNIT / 10).unwrap();
    let away = focus_measure(&jpeg, UNIT / 8, UNIT / 8, UNIT / 10, UNIT / 10).unwrap();
    assert!(at_star > 1_000_000_000);
    assert!(away < at_star / 100);
}
