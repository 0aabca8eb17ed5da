use tethermoon::body::BulbEncoding;
use tethermoon::capture::{
    after_bulb, bracket_indices, bracket_progress, bracket_size, bracket_text, bulb_seconds,
    bulb_speed, bulb_text, capture_kind, exposure_count, exposure_reply, exposure_saved, heard_download,
    note_last_image, pick_download, shot_timeout, wait_download, BracketRun, BracketStep, BulbStep, CaptureKind, ExposureStep,
    Heard, IntervalRun, IntervalStep, MultiExposure, WaitStep,
};
use tethermoon::composite::{blend_jpegs, Blend};
use tethermoon::jpeg::encode_jpeg;
use tethermoon::stream::{event_json, CameraEvent};

#[test]
fn symmetric_around_base() {
    assert_eq!(bracket_indices(5, 11, 5, 1), vec![3, 4, 5, 6, 7]);
}

#[test]
fn step_scales_offsets() {
    assert_eq!(bracket_indices(5, 11, 5, 2), vec![1, 3, 5, 7, 9]);
}

#[test]
fn clamps_at_edges() {
    assert_eq!(bracket_indices(0, 5, 5, 1), vec![0, 0, 0, 1, 2]);
    assert_eq!(bracket_indices(4, 5, 3, 1), vec![3, 4, 4]);
}

#[test]
fn empty_list() {
    assert_eq!(bracket_indices(0, 0, 3, 1), Vec::<usize>::new());
}

#[test]
fn even_bracket_leans_down() {
    assert_eq!(bracket_indices(5, 11, 4, 1), vec![3, 4, 5, 6]);
    // A step of nought counts as one.
    assert_eq!(bracket_indices(5, 11, 3, 0), vec![4, 5, 6]);
    // Far beyond the list there is only its end.
    assert_eq!(bracket_indices(usize::MAX, 4, 3, usize::MAX), vec![0, 3, 3]);
}

#[test]
fn manual_focus_shoots_at_once() {
    assert_eq!(capture_kind(Some(1), 1), CaptureKind::Direct);
    assert_eq!(capture_kind(Some(2), 1), CaptureKind::Focused);
    assert_eq!(capture_kind(None, 1), CaptureKind::Focused);
}

#[test]
fn bulb_times_and_texts() {
    assert_eq!(bulb_seconds(0), 1);
    assert_eq!(bulb_seconds(30), 30);
    assert_eq!(bulb_seconds(5000), 900);
    assert_eq!(bulb_text(30), "bulb 30s");
    assert_eq!(bulb_speed(BulbEncoding::ShutterZero), 0);
}

#[test]
fn bulb_always_closes() {
    let open = BulbStep::Open;
    assert_eq!(after_bulb(open, true, 7), BulbStep::Hold { secs: 7 });
    assert_eq!(after_bulb(open, false, 7), BulbStep::Close);
    assert_eq!(after_bulb(BulbStep::Hold { secs: 7 }, true, 7), BulbStep::Close);
    assert_eq!(after_bulb(BulbStep::Close, false, 7), BulbStep::Release);
    assert_eq!(after_bulb(BulbStep::Release, false, 7), BulbStep::Release);
}

fn run(mut r: IntervalRun, cancel_at: usize) -> Vec<IntervalStep> {
    let mut steps = Vec::new();
    loop {
        let s = r.next(steps.len() >= cancel_at);
        steps.push(s);
        if s == IntervalStep::Finish {
            return steps;
        }
    }
}

#[test]
fn interval_keeps_time() {
    let (s, w, f) = (IntervalStep::Shoot, IntervalStep::Wait, IntervalStep::Finish);
    assert_eq!(run(IntervalRun::new(2, 3), usize::MAX), vec![s, w, w, s, w, w, s, f]);
    assert_eq!(run(IntervalRun::new(2, 3), 4), vec![s, w, w, s, f]);
    assert_eq!(run(IntervalRun::new(2, 3), 0), vec![f]);
    assert_eq!(run(IntervalRun::new(0, 0), usize::MAX), vec![s, f]);
    let r = IntervalRun::new(9999, 99999);
    assert_eq!((r.interval, r.count), (3600, 10000));
    assert_eq!(IntervalRun::new(2, 3).text(), "interval 3x@2s");
}

#[test]
fn bracket_restores_the_exposure() {
    let allowed = vec![10, 20, 30, 40, 50];
    let mut b = BracketRun::new(&allowed, 30, 3, 1).unwrap();
    assert_eq!(b.next(false), BracketStep::Expose(20));
    assert_eq!(b.next(false), BracketStep::Expose(30));
    assert_eq!(b.next(false), BracketStep::Expose(40));
    assert_eq!(b.next(false), BracketStep::Restore(30));
    assert_eq!(b.next(false), BracketStep::Finish);

    let mut c = BracketRun::new(&allowed, 30, 3, 1).unwrap();
    assert_eq!(c.next(false), BracketStep::Expose(20));
    assert_eq!(c.next(true), BracketStep::Restore(30));
    assert_eq!(c.next(false), BracketStep::Finish);
}

#[test]
fn bracket_without_its_base_takes_the_middle() {
    let b = BracketRun::new(&vec![10, 20, 30, 40], 7, 3, 1).unwrap();
    assert_eq!(b.values, vec![20, 30, 40]);
    assert_eq!(b.base, 7);
    assert!(BracketRun::new(&vec![], 7, 3, 1).is_none());
}

#[test]
fn bracket_sizes_and_texts() {
    assert_eq!(bracket_size(0, 0), (2, 1));
    assert_eq!(bracket_size(5, 3), (5, 3));
    assert_eq!(bracket_size(50, 30), (9, 5));
    assert_eq!(bracket_text(5, 2), "bracket 5f step2");
    assert_eq!(bracket_progress(1, 5, false), r#"{"done":1,"total":5,"type":"bracket"}"#);
    assert_eq!(
        bracket_progress(5, 5, true),
        r#"{"done":5,"finished":true,"total":5,"type":"bracket"}"#
    );
}

#[test]
fn saved_jpeg_is_heard() {
    for name in ["/p/DSC1.JPG", "C:\\사진\\a \"b\"\n.jpeg", "x.jpg"] {
        let ev = CameraEvent::DownloadComplete { filename: name.to_string(), kind: 3 };
        let step = wait_download(&Heard::Line(event_json(&ev)));
        assert!(matches!(step, WaitStep::Got(f) if f == name));
    }
}

#[test]
fn other_lines_are_passed_over() {
    let raw = CameraEvent::DownloadComplete { filename: "a.ARW".to_string(), kind: 1 };
    for line in [
        event_json(&raw),
        event_json(&CameraEvent::PropertyChanged),
        "no json".to_string(),
        r#"{"type":"download_complete"}"#.to_string(),
        r#"{"type":"download_complete","filename":7}"#.to_string(),
        r#"{"type":"other","filename":"a.jpg"}"#.to_string(),
        r#"["download_complete","a.jpg"]"#.to_string(),
    ] {
        assert_eq!(heard_download(&line), None, "{line}");
        assert!(matches!(wait_download(&Heard::Line(line)), WaitStep::Wait));
    }
    assert_eq!(
        heard_download(r#" {"filename" : "a.jpg", "type":"download_complete"} "#),
        Some("a.jpg".to_string())
    );
    assert!(matches!(wait_download(&Heard::Missed), WaitStep::Wait));
    assert!(matches!(wait_download(&Heard::Over), WaitStep::Failed(e) if e == "다운로드 타임아웃"));
}

#[test]
fn download_is_picked_by_type_and_name() {
    let s = |t: &str| Some(t.to_string());
    assert_eq!(pick_download(s("download_complete"), s("a.JpEg")), s("a.JpEg"));
    assert_eq!(pick_download(s("download_complete"), s("a.png")), None);
    assert_eq!(pick_download(s("download_complete"), None), None);
    assert_eq!(pick_download(s("connected"), s("a.jpg")), None);
    assert_eq!(pick_download(None, s("a.jpg")), None);
}

#[test]
fn multiple_exposure_runs_to_its_blend() {
    assert_eq!(exposure_count(None), 3);
    assert_eq!(exposure_count(Some(1)), 2);
    assert_eq!(exposure_count(Some(99)), 30);
    assert_eq!(shot_timeout(None), 12_000);
    assert_eq!(shot_timeout(Some(5)), 5);

    let mut m = MultiExposure::new(2);
    assert!(matches!(m.shot(Ok(())), ExposureStep::Await));
    let p = m.saved(Ok("a.jpg".to_string()));
    assert!(matches!(p, ExposureStep::Progress(t) if t == r#"{"type":"multi_exposure","i":1,"n":2}"#));
    let b = m.saved(Ok("b.jpg".to_string()));
    assert!(matches!(b, ExposureStep::Blend(t) if t == r#"{"type":"multi_exposure","i":2,"n":2}"#));
    assert_eq!(m.files, vec!["a.jpg".to_string(), "b.jpg".to_string()]);
}

#[test]
fn multiple_exposure_fails_with_its_reason() {
    let mut m = MultiExposure::new(3);
    match m.shot(Err("sdk: 5".to_string())) {
        ExposureStep::Fail(r) => {
            assert_eq!((r.status, r.text.as_str()), (500, "capture 1/3: sdk: 5"));
        }
        other => panic!("{other:?}"),
    }
    let _ = m.saved(Ok("a.jpg".to_string()));
    match m.saved(Err("late".to_string())) {
        ExposureStep::Fail(r) => assert_eq!(
            (r.status, r.text.as_str()),
            (500, "frame 2/3: late — JPEG 저장(STILL→PC, 파일형식 JPEG) 필요")
        ),
        other => panic!("{other:?}"),
    }
    assert_eq!(m.files.len(), 1);
}

#[test]
fn saved_exposure_is_announced() {
    assert_eq!(
        exposure_saved("C:\\p\\ME_1.jpg"),
        "{\"type\":\"multi_exposure_done\",\"file\":\"C:\\\\p\\\\ME_1.jpg\"}"
    );
}

fn solid(level: u8) -> Vec<u8> {
    encode_jpeg(16, 16, &vec![level; 16 * 16 * 3]).unwrap()
}

fn taken(n: u32) -> MultiExposure {
    let mut m = MultiExposure::new(n);
    for i in 0..n {
        m.saved(Ok(format!("{i}.jpg")));
    }
    m
}

#[test]
fn multiple_exposure_is_merged_and_saved() {
    let m = taken(2);
    let merged = m.merge(vec![Ok(solid(40)), Ok(solid(200))], Blend::Lighten);
    let want = blend_jpegs(&[solid(40), solid(200)], Blend::Lighten).unwrap();
    assert_eq!(merged, Ok(want.clone()));
    let step = m.blended(merged);
    assert!(matches!(&step, ExposureStep::Write(b) if *b == want));
    let mut last = Some("before.jpg".to_string());
    note_last_image(&step, &mut last);
    assert_eq!(last.as_deref(), Some("before.jpg"));
    let step = m.written(Ok("ME_1.jpg".to_string()));
    assert!(matches!(&step, ExposureStep::Done { file, count: 2 } if file == "ME_1.jpg"));
    note_last_image(&step, &mut last);
    assert_eq!(last.as_deref(), Some("ME_1.jpg"));
    assert_eq!(exposure_reply("a\"b", 2), "{\"count\":2,\"file\":\"a\\\"b\"}");
}

#[test]
fn merging_fails_with_its_reason() {
    let m = taken(3);
    let text = |step: ExposureStep| match step {
        ExposureStep::Fail(r) => (r.status, r.text),
        other => panic!("{other:?}"),
    };
    let read = vec![Ok(b"x".to_vec()), Err("gone".to_string()), Err("too".to_string())];
    let merged = m.merge(read, Blend::Average);
    assert_eq!(merged, Err("read 1.jpg: gone".to_string()));
    assert_eq!(text(m.blended(merged)), (500, "blend: read 1.jpg: gone".to_string()));
    let bad = m.merge(vec![Ok(solid(1)), Ok(b"x".to_vec()), Ok(solid(1))], Blend::Average);
    assert!(bad.unwrap_err().starts_with("decode: "));
    assert_eq!(text(m.broken("b".to_string())), (500, "task: b".to_string()));
    let step = m.written(Err("full".to_string()));
    let mut last = Some("before.jpg".to_string());
    note_last_image(&step, &mut last);
    assert_eq!(last.as_deref(), Some("before.jpg"));
    assert_eq!(text(step), (500, "save: full".to_string()));
}
