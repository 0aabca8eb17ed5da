use tethermoon::jpeg::{decode_rgb, encode_with, RgbFrame};
use tethermoon::stack::{
    choose_folder, decode_to_rgb8, is_stackable, order_files, parse_align, parse_mode,
    preview_is_due, recent_files, score_picture, stamped_name, wants_scores, Align, StackSession,
};
use tethermoon::stacker::Mode;

fn sky(w: usize, h: usize, stars: &[(usize, usize)]) -> RgbFrame {
    let mut rgb = vec![3u8; w * h * 3];
    for &(sx, sy) in stars {
        for y in sy - 1..=sy + 1 {
            for x in sx - 1..=sx + 1 {
                for c in 0..3 {
                    rgb[(y * w + x) * 3 + c] = 240;
                }
            }
        }
    }
    RgbFrame { w, h, rgb }
}

fn jpeg(f: &RgbFrame) -> Vec<u8> {
    encode_with(f.w, f.h, &f.rgb, 95).unwrap()
}

#[test]
fn names_are_read() {
    assert_eq!(parse_mode(Some("lighten")), Mode::Lighten);
    assert_eq!(parse_mode(Some("average")), Mode::Average);
    assert_eq!(parse_mode(None), Mode::Average);
    assert_eq!(parse_align(Some("centroid"), None), Align::Centroid);
    assert_eq!(parse_align(Some("roi"), Some((1, 2, 3))), Align::Roi { cx: 1, cy: 2, half: 3 });
    assert_eq!(parse_align(Some("roi"), None), Align::Stars);
    assert_eq!(parse_align(Some("stars"), Some((1, 2, 3))), Align::Stars);
    assert_eq!(parse_align(None, None), Align::Stars);
}

#[test]
fn folder_is_the_asked_one_or_the_saved_one() {
    assert_eq!(choose_folder(Some(" a "), "s").unwrap(), " a ");
    assert_eq!(choose_folder(Some("  "), "s").unwrap(), "s");
    assert_eq!(choose_folder(None, "s").unwrap(), "s");
    let e = choose_folder(Some(""), "").unwrap_err();
    assert_eq!((e.status, e.text.as_str()), (400, "no folder (set save path or pass dir)"));
    assert_eq!(stamped_name("STACK_", 1700000000), "STACK_1700000000.jpg");
    assert_eq!(stamped_name("ME_", 0), "ME_0.jpg");
}

#[test]
fn session_takes_what_fits() {
    let mut s = StackSession::new(Mode::Average);
    assert_eq!(s.count(), 0);
    assert!(s.preview(88).is_none());
    assert!(!s.offer(b"no jpeg"));
    // The first frame that can be read fixes the size, even where it has no stars.
    assert!(!s.offer_frame(&sky(64, 48, &[])));
    assert!(!s.offer_frame(&sky(48, 64, &[(10, 10), (30, 30)])));
    assert!(s.offer_frame(&sky(64, 48, &[(10, 10), (30, 30)])));
    assert!(s.offer(&jpeg(&sky(64, 48, &[(12, 11), (32, 31)]))));
    assert_eq!(s.count(), 2);
    let p = decode_rgb(&s.preview(92).unwrap()).unwrap();
    assert_eq!((p.w, p.h), (64, 48));
    assert!(p.rgb[(10 * 64 + 10) * 3] > 180);
}

#[test]
fn preview_is_drawn_now_and_then() {
    assert!(preview_is_due(true, 400));
    assert!(!preview_is_due(true, 399));
    assert!(!preview_is_due(false, 9999));
}

#[test]
fn files_to_stack() {
    assert!(is_stackable("JPG") && is_stackable("jpeg") && is_stackable("Arw"));
    assert!(!is_stackable("png") && !is_stackable("") && !is_stackable("jpgx"));
    // The latest first, at most as many as asked for and never fewer than two.
    let times = vec![5, 9, 1, 9, 7];
    assert_eq!(recent_files(&times, None), vec![1, 3, 4, 0, 2]);
    assert_eq!(recent_files(&times, Some(3)), vec![1, 3, 4]);
    assert_eq!(recent_files(&times, Some(0)), vec![1, 3]);
    assert_eq!(recent_files(&(0..250).collect(), Some(1000)).len(), 200);
    assert_eq!(recent_files(&(0..250).collect(), None).len(), 30);
}

#[test]
fn order_of_stacking() {
    let recent = vec![4, 2, 7, 5];
    // The oldest first, unless only the sharpest are asked for.
    let none: Vec<Option<u64>> = Vec::new();
    assert_eq!(order_files(&recent, &none, None), vec![5, 7, 2, 4]);
    assert_eq!(order_files(&recent, &none, Some(1_000_000_000)), vec![5, 7, 2, 4]);
    assert_eq!(order_files(&recent, &none, Some(0)), vec![5, 7, 2, 4]);
    assert!(wants_scores(Some(500_000_000)) && !wants_scores(None));
    assert!(!wants_scores(Some(1_000_000_000)) && !wants_scores(Some(-1)));
    let scores = vec![Some(10), None, Some(30), Some(20)];
    // A tenth of three is one, but two are kept.
    assert_eq!(order_files(&recent, &scores, Some(100_000_000)), vec![7, 5]);
    assert_eq!(order_files(&recent, &scores, Some(700_000_000)), vec![7, 5, 4]);
}

#[test]
fn pictures_of_a_folder() {
    let f = sky(64, 48, &[(20, 20)]);
    let j = jpeg(&f);
    let direct = decode_to_rgb8("jpg", &j).unwrap();
    assert_eq!((direct.w, direct.h), (64, 48));
    // A raw file stands for the preview inside.
    let mut raw = vec![1, 2, 3];
    raw.extend_from_slice(&j);
    raw.extend_from_slice(&[7; 20]);
    assert_eq!(decode_to_rgb8("ARW", &raw).unwrap().rgb, direct.rgb);
    assert!(decode_to_rgb8("arw", &[0; 40]).is_none());
    assert!(decode_to_rgb8("jpg", &[0; 40]).is_none());
    let flat = jpeg(&sky(64, 48, &[]));
    assert!(score_picture("jpg", &j).unwrap() > score_picture("jpg", &flat).unwrap());
    assert_eq!(score_picture("ARW", &raw), score_picture("jpg", &j));
    assert_eq!(score_picture("arw", &[0; 40]), None);
    // A picture without an inside scores nought.
    assert_eq!(score_picture("jpg", &encode_with(2, 2, &[9; 12], 90).unwrap()), Some(0));
}
