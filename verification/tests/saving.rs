use tethermoon::storage::{
    choose_segment, classify, extract_embedded_jpeg, find_segments, last_image, picked_folder,
    save_path_set, save_target, ImageKind,
};

fn real_jpeg(w: u16, h: u16) -> Vec<u8> {
    let rgb = vec![128u8; (w as usize) * (h as usize) * 3];
    let mut out = Vec::new();
    jpeg_encoder::Encoder::new(&mut out, 90)
        .encode(&rgb, w, h, jpeg_encoder::ColorType::Rgb)
        .unwrap();
    out
}

#[test]
fn extracts_the_real_preview_over_bogus() {
    let jpeg = real_jpeg(32, 24);
    let mut buf = vec![0x49, 0x49, 0x2A, 0x00];
    buf.extend_from_slice(&jpeg);
    let mut bogus = vec![0xFF, 0xD8, 0xFF];
    bogus.extend(std::iter::repeat(0x5A).take(jpeg.len() + 100));
    bogus.extend_from_slice(&[0xFF, 0xD9]);
    buf.extend_from_slice(&bogus);
    let out = extract_embedded_jpeg(&buf).expect("should find the real jpeg");
    assert_eq!(out, jpeg, "가짜(더 큰) 세그먼트가 아니라 진짜 JPEG을 뽑아야 함");
}

#[test]
fn none_when_no_jpeg() {
    assert!(extract_embedded_jpeg(&[0x49, 0x49, 0x2A, 0x00, 1, 2, 3, 4, 5]).is_none());
}

#[test]
fn none_on_unclosed_soi() {
    assert!(extract_embedded_jpeg(&[0x00, 0xFF, 0xD8, 0xFF, 0x11, 0x22]).is_none());
}

#[test]
fn largest_of_two_previews() {
    let (small, large) = (real_jpeg(16, 16), real_jpeg(160, 120));
    assert!(small.len() < large.len());
    let mut buf = small.clone();
    buf.extend_from_slice(&large);
    buf.extend_from_slice(&small);
    assert_eq!(extract_embedded_jpeg(&buf), Some(large));
}

#[test]
fn segments_follow_one_another() {
    let b = [0, 0xFF, 0xD8, 0xFF, 0xD9, 0xFF, 0xD9, 0xFF, 0xD8, 0xFF, 1, 0xFF, 0xD9, 0xFF, 0xD8, 0xFF];
    assert_eq!(find_segments(&b), vec![(1, 5), (7, 13)]);
    assert_eq!(find_segments(&[]), vec![]);
}

#[test]
fn choice_goes_by_header_then_length_then_place() {
    let segs = vec![(0, 10), (10, 30), (30, 50), (50, 90)];
    assert_eq!(choose_segment(&segs, &vec![true, true, true, false]), Some(1));
    assert_eq!(choose_segment(&segs, &vec![true, false, false, false]), Some(0));
    assert_eq!(choose_segment(&segs, &vec![false; 4]), None);
}

#[test]
fn pictures_are_shown_by_kind() {
    assert_eq!(classify("/a/B.HEIF"), ImageKind::Heif);
    assert_eq!(classify("c.heic"), ImageKind::Heif);
    assert_eq!(classify("c.JPG"), ImageKind::Jpeg);
    assert_eq!(classify("c.jpeg"), ImageKind::Jpeg);
    assert_eq!(classify("c.arw"), ImageKind::Opaque);
    assert_eq!(classify("jpg"), ImageKind::Opaque);

    let heif = last_image("a.heic", vec![1, 2]);
    assert_eq!((heif.kind.content_type().as_str(), heif.bytes), ("image/heif", vec![1, 2]));
    let jpg = last_image("a.jpg", vec![3]);
    assert_eq!((jpg.kind.content_type().as_str(), jpg.bytes), ("image/jpeg", vec![3]));
    let odd = last_image("a.arw", vec![4]);
    assert_eq!((odd.kind.content_type().as_str(), odd.bytes), ("application/octet-stream", vec![4]));
    let jpeg = real_jpeg(16, 16);
    let mut raw = vec![9; 50];
    raw.extend_from_slice(&jpeg);
    let shown = last_image("a.arw", raw);
    assert_eq!((shown.kind, shown.bytes), (ImageKind::Jpeg, jpeg));
}

#[test]
fn folder_has_to_have_a_name() {
    let t = save_target(true, "  /data/x \n", " MOON_ ").unwrap();
    assert_eq!((t.dir.as_str(), t.prefix.as_str()), ("/data/x", "MOON_"));
    let e = save_target(true, " \t ", "").unwrap_err();
    assert_eq!((e.status, e.text.as_str()), (400, "empty path"));
    let e = save_target(false, " \t ", "").unwrap_err();
    assert_eq!((e.status, e.text.as_str()), (503, "not connected"));
}

#[test]
fn folder_changes_only_if_set() {
    let mut path = "old".to_string();
    let r = save_path_set(&mut path, Err("mkdir: no".to_string()));
    assert_eq!((r.status, r.text.as_str(), path.as_str()), (500, "mkdir: no", "old"));
    let r = save_path_set(&mut path, Ok("new".to_string()));
    assert_eq!((r.status, r.text.as_str(), path.as_str()), (200, "new", "new"));
}

#[test]
fn picked_folders() {
    let r = picked_folder(Some(" /home/me/\n"));
    assert_eq!((r.status, r.text.as_str()), (200, "/home/me/"));
    let r = picked_folder(Some("\n"));
    assert_eq!((r.status, r.text.as_str()), (204, ""));
    let r = picked_folder(None);
    assert_eq!((r.status, r.text.as_str()), (204, ""));
}
