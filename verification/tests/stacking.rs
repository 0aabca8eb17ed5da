use tethermoon::align::estimate_translation;
use tethermoon::order::rank;
use tethermoon::stacker::{Mode, Stacker};
use tethermoon::stars::{detect_stars, luma_from_rgb, Star, PIXEL};
use tethermoon::wide::Wide;

fn frame(w: usize, h: usize, stars: &[(usize, usize)]) -> Vec<u8> {
    let mut rgb = vec![3u8; w * h * 3];
    for &(sx, sy) in stars {
        for dy in -1i32..=1 {
            for dx in -1i32..=1 {
                let x = sx as i32 + dx;
                let y = sy as i32 + dy;
                if x >= 0 && y >= 0 && (x as usize) < w && (y as usize) < h {
                    let i = ((y as usize) * w + x as usize) * 3;
                    rgb[i] = 240;
                    rgb[i + 1] = 240;
                    rgb[i + 2] = 240;
                }
            }
        }
    }
    rgb
}

fn px(v: i64) -> f64 {
    v as f64 / PIXEL as f64
}

#[test]
fn detects_injected_stars() {
    let f = frame(64, 48, &[(10, 10), (40, 30), (55, 8)]);
    let luma = luma_from_rgb(&f, 64, 48);
    let s = detect_stars(&luma, 64, 48, 12, 4_000_000);
    assert_eq!(s.len(), 3, "별 3개를 찾아야 함");
    assert!(s.iter().any(|st| (px(st.x) - 10.0).abs() < 1.0 && (px(st.y) - 10.0).abs() < 1.0));
}

#[test]
fn recovers_known_shift() {
    let a = frame(64, 48, &[(10, 10), (40, 30), (55, 8)]);
    let b = frame(64, 48, &[(15, 7), (45, 27), (60, 5)]);
    let sa = detect_stars(&luma_from_rgb(&a, 64, 48), 64, 48, 12, 4_000_000);
    let sb = detect_stars(&luma_from_rgb(&b, 64, 48), 64, 48, 12, 4_000_000);
    let t = estimate_translation(&sa, &sb, 3_000_000).expect("정합 성공해야");
    let t = (px(t.0), px(t.1));
    assert!((t.0 - 5.0).abs() < 0.6, "tx={}", t.0);
    assert!((t.1 - (-3.0)).abs() < 0.6, "ty={}", t.1);
}

#[test]
fn average_aligns_star_not_smeared() {
    let a = frame(64, 48, &[(20, 20), (45, 30), (10, 8)]);
    let b = frame(64, 48, &[(24, 18), (49, 28), (14, 6)]);
    let mut st = Stacker::new(64, 48, Mode::Average);
    assert!(st.add(&a));
    assert!(st.add(&b));
    assert_eq!(st.count(), 2);
    let out = st.render();
    let at = |x: usize, y: usize| out[(y * 64 + x) * 3] as i32;
    assert!(at(20, 20) > 180, "정렬된 별 밝아야: {}", at(20, 20));
    assert!(at(24, 18) < 80, "정렬됐으면 이 위치는 어두워야: {}", at(24, 18));
}

#[test]
fn lighten_keeps_brightest_of_two() {
    let a = frame(48, 48, &[(12, 12), (36, 30)]);
    let b = frame(48, 48, &[(12, 12), (36, 30), (24, 40)]);
    let mut st = Stacker::new(48, 48, Mode::Lighten);
    assert!(st.add(&a));
    assert!(st.add(&b));
    assert_eq!(st.count(), 2);
    let out = st.render();
    assert!(out[(12 * 48 + 12) * 3] > 180, "공통 별 유지");
    assert!(out[(40 * 48 + 24) * 3] > 180, "lighten이 b의 별도 살려야");
}

#[test]
fn rejects_starless_frame() {
    let blank = vec![5u8; 64 * 48 * 3];
    let mut st = Stacker::new(64, 48, Mode::Average);
    assert!(!st.add(&blank), "별 없는 프레임은 기준으로 시작 안 함");
    assert_eq!(st.count(), 0);
}

#[test]
fn luma_weights() {
    assert_eq!(luma_from_rgb(&[1, 0, 0, 0, 1, 0, 0, 0, 1, 255, 255, 255], 2, 2), vec![
        299, 587, 114, 255_000
    ]);
}

#[test]
fn star_sits_at_its_centre_of_light() {
    let f = frame(64, 48, &[(20, 20)]);
    let s = detect_stars(&luma_from_rgb(&f, 64, 48), 64, 48, 1, 0);
    assert_eq!(s.len(), 1);
    // The peak is the first of nine equal pixels; the window around it is centred one pixel
    // up and left, and still holds the whole star.
    assert_eq!((s[0].x, s[0].y), (20 * PIXEL, 20 * PIXEL));
    assert!(s[0].flux > 0);
}

#[test]
fn no_more_stars_than_asked_for() {
    let f = frame(64, 48, &[(10, 10), (40, 30), (55, 8)]);
    let luma = luma_from_rgb(&f, 64, 48);
    assert_eq!(detect_stars(&luma, 64, 48, 2, 4_000_000).len(), 2);
    assert_eq!(detect_stars(&luma, 64, 48, 0, 4_000_000).len(), 0);
    // Too small a frame, or too short a list, has none.
    assert_eq!(detect_stars(&luma, 7, 48, 5, 0).len(), 0);
    assert_eq!(detect_stars(&luma, 65, 48, 5, 0).len(), 0);
    // A flat sky has none.
    assert_eq!(detect_stars(&vec![900; 64 * 48], 64, 48, 5, 0).len(), 0);
}

#[test]
fn stars_come_brightest_first_and_apart() {
    let mut f = frame(64, 48, &[(10, 10), (40, 30), (20, 10)]);
    // Dim the first one.
    for y in 9..12 {
        for x in 9..12 {
            for c in 0..3 {
                f[(y * 64 + x) * 3 + c] = 200;
            }
        }
    }
    let luma = luma_from_rgb(&f, 64, 48);
    let s = detect_stars(&luma, 64, 48, 12, 4_000_000);
    assert_eq!(s.len(), 3);
    assert!(s[0].flux >= s[1].flux && s[1].flux > s[2].flux);
    assert_eq!((s[2].x, s[2].y), (10 * PIXEL, 10 * PIXEL));
    // Ten pixels apart is not enough for eleven.
    let t = detect_stars(&luma, 64, 48, 12, 11_000_000);
    assert_eq!(t.len(), 2);
}

fn star(x: i64, y: i64) -> Star {
    Star { x: x * PIXEL, y: y * PIXEL, flux: 1 }
}

#[test]
fn translation_is_exact_for_a_moved_field() {
    let a = [star(10, 10), star(40, 30), star(55, 8)];
    let b = [star(7, 21), star(37, 41), star(52, 19)];
    assert_eq!(estimate_translation(&a, &b, 0), Some((-3 * PIXEL, 11 * PIXEL)));
    assert_eq!(estimate_translation(&a[..1], &b, 9_000_000), None);
    assert_eq!(estimate_translation(&a, &b[..1], 9_000_000), None);
    // Two pairs of different lengths share no shift.
    let c = [star(0, 0), star(10, 0)];
    let d = [star(0, 0), star(90, 90)];
    assert_eq!(estimate_translation(&c, &d, 1_000_000), None);
}

#[test]
fn translation_is_the_mean_of_the_offsets() {
    let a = [star(0, 0), star(100, 0), star(0, 100)];
    let b = [
        star(10, 0),
        Star { x: 110 * PIXEL + 3, y: 0, flux: 1 },
        Star { x: 10 * PIXEL - 9, y: 100 * PIXEL + 1, flux: 1 },
    ];
    // (0 + 3 - 9) / 3 and (0 + 0 + 1) / 3, towards zero.
    assert_eq!(estimate_translation(&a, &b, 1_000_000), Some((10 * PIXEL - 2, 0)));
}

#[test]
fn average_rounds_to_the_nearest_level() {
    let a = frame(64, 48, &[(20, 20), (45, 30)]);
    let mut b = a.clone();
    // One pixel of the background differs by one.
    b[0] = 4;
    let mut st = Stacker::new(64, 48, Mode::Average);
    assert!(st.add(&a));
    assert_eq!(st.render(), a);
    assert!(st.add(&b));
    let out = st.render();
    // (3 + 4) / 2 = 3.5 becomes 4.
    assert_eq!(out[0], 4);
    assert_eq!(out[1..], a[1..]);
}

#[test]
fn moved_frame_leaves_the_uncovered_edge_alone() {
    let a = frame(64, 48, &[(20, 20), (45, 30), (10, 8)]);
    let mut b = frame(64, 48, &[(24, 18), (49, 28), (14, 6)]);
    // The corner of the second frame that lies on pixel (0, 2) of the stack.
    b[(0 * 64 + 4) * 3] = 9;
    let mut st = Stacker::new(64, 48, Mode::Average);
    assert!(st.add(&a) && st.add(&b));
    let out = st.render();
    assert_eq!(out[(2 * 64) * 3], 6);
    // Pixel (0, 0) shows the first frame alone.
    assert_eq!(out[0], 3);
}

#[test]
fn short_frame_is_refused() {
    let mut st = Stacker::new(64, 48, Mode::Lighten);
    assert!(!st.add(&vec![0; 64 * 48 * 3 - 1]));
    assert_eq!(st.count(), 0);
    assert_eq!((st.width(), st.height()), (64, 48));
    assert_eq!(st.render(), vec![0; 64 * 48 * 3]);
}

#[test]
fn frame_of_another_sky_is_refused() {
    let a = frame(64, 48, &[(20, 20), (45, 30), (10, 8)]);
    let b = frame(64, 48, &[(50, 10), (12, 40)]);
    let mut st = Stacker::new(64, 48, Mode::Average);
    assert!(st.add(&a));
    let before = st.render();
    assert!(!st.add(&b));
    assert_eq!(st.count(), 1);
    assert_eq!(st.render(), before);
}

#[test]
fn ranking_is_stable() {
    assert_eq!(rank(&vec![3, 9, 3, 12, 9, 0]), vec![3, 1, 4, 0, 2, 5]);
    assert_eq!(rank(&vec![]), Vec::<usize>::new());
}

#[test]
fn samples_behind_the_frame_count_for_the_mean() {
    let f = frame(64, 48, &[(10, 10), (40, 30), (55, 8)]);
    let mut luma = luma_from_rgb(&f, 64, 48);
    assert_eq!(detect_stars(&luma, 64, 48, 12, 4 * PIXEL as u64).len(), 3);
    luma.extend(vec![0; 3072]);
    assert_eq!(detect_stars(&luma, 64, 48, 12, 4 * PIXEL as u64).len(), 3);
    luma.extend(vec![240_000; 3072]);
    assert_eq!(detect_stars(&luma, 64, 48, 12, 4 * PIXEL as u64).len(), 0);
}

#[test]
fn greatest_luminances_do_not_overflow() {
    let mut luma = vec![0u32; 64 * 48];
    for (x, y) in [(10, 10), (40, 30)] {
        luma[y * 64 + x] = u32::MAX;
    }
    let s = detect_stars(&luma, 64, 48, 12, 4 * PIXEL as u64);
    assert_eq!(s.len(), 2);
    assert_eq!((s[0].x, s[0].y), (10 * PIXEL, 10 * PIXEL));
}

#[test]
fn same_frame_twice_changes_nothing() {
    for mode in [Mode::Average, Mode::Lighten] {
        let f = frame(64, 48, &[(10, 10), (40, 30), (55, 8)]);
        let mut st = Stacker::new(64, 48, mode);
        assert!(st.add(&f));
        let once = st.render();
        assert!(st.add(&f));
        assert_eq!((st.count(), st.render()), (2, once));
    }
}

#[test]
fn wide_numbers() {
    let a = Wide::product(u128::MAX, 3);
    let b = Wide::product(u128::MAX, 2).plus(&Wide::product(u128::MAX, 1));
    assert!(a.at_least(&b) && b.at_least(&a));
    let c = b.plus(&Wide::product(1, 1));
    assert!(c.at_least(&a) && !a.at_least(&c));
    let d = Wide::product(0, 9);
    assert!(a.at_least(&d) && !d.at_least(&a));
}
