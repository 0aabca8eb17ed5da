use tethermoon::stream::{
    after_open, event_json, mjpeg_part, on_event, CameraEvent, Fetched, LvRun, LvStep, OpenResult,
    OpenStep,
};

#[test]
fn events_as_json() {
    let cases = [
        (CameraEvent::Connected { version: 300 }, r#"{"type":"connected","version":300}"#),
        (CameraEvent::Disconnected { error: 33 }, r#"{"type":"disconnected","error":33}"#),
        (CameraEvent::PropertyChanged, r#"{"type":"property_changed"}"#),
        (CameraEvent::LvPropertyChanged, r#"{"type":"lv_property_changed"}"#),
        (CameraEvent::Warning(131_073), r#"{"type":"warning","code":131073}"#),
        (
            CameraEvent::WarningExt { code: 1, p1: -2, p2: 0, p3: i32::MIN },
            r#"{"type":"warning_ext","code":1,"p1":-2,"p2":0,"p3":-2147483648}"#,
        ),
        (CameraEvent::Error(u32::MAX), r#"{"type":"error","code":4294967295}"#),
        (
            CameraEvent::DownloadComplete { filename: "a\"b\\c\u{1}\t한.jpg".to_string(), kind: 2 },
            "{\"type\":\"download_complete\",\"filename\":\"a\\\"b\\\\c\\u0001\\t한.jpg\",\"kind\":2}",
        ),
    ];
    for (ev, want) in cases {
        assert_eq!(event_json(&ev), want);
    }
}

#[test]
fn names_are_escaped_like_json() {
    let name: String = (0u32..0x180).filter_map(char::from_u32).collect();
    let line = event_json(&CameraEvent::DownloadComplete { filename: name.clone(), kind: 0 });
    let v: serde_json::Value = serde_json::from_str(&line).unwrap();
    assert_eq!(v["filename"].as_str(), Some(name.as_str()));
    assert_eq!(v["kind"].as_u64(), Some(0));
}

#[test]
fn effects_of_events() {
    let e = on_event(&CameraEvent::DownloadComplete { filename: "x.jpg".to_string(), kind: 1 });
    assert_eq!(e.last_image.as_deref(), Some("x.jpg"));
    assert!(!e.gone);
    assert_eq!(e.line, r#"{"type":"download_complete","filename":"x.jpg","kind":1}"#);
    let e = on_event(&CameraEvent::DownloadComplete { filename: String::new(), kind: 1 });
    assert_eq!(e.last_image, None);
    let e = on_event(&CameraEvent::Disconnected { error: 0 });
    assert!(e.gone && e.last_image.is_none());
    assert!(!on_event(&CameraEvent::PropertyChanged).gone);
}

#[test]
fn parts_of_the_live_view() {
    let frame = vec![0xFF, 0xD8, 7, 0xFF, 0xD9];
    let mut want = b"--frame\r\nContent-Type: image/jpeg\r\nContent-Length: 5\r\n\r\n".to_vec();
    want.extend_from_slice(&frame);
    want.extend_from_slice(b"\r\n");
    assert_eq!(mjpeg_part(&frame), want);
    assert!(mjpeg_part(&vec![0; 1234])
        .starts_with(b"--frame\r\nContent-Type: image/jpeg\r\nContent-Length: 1234\r\n\r\n"));
}

#[test]
fn live_view_is_tried_twenty_times() {
    assert_eq!(after_open(1, OpenResult::Opened), OpenStep::Stream);
    assert_eq!(after_open(1, OpenResult::NotReady), OpenStep::Retry);
    assert_eq!(after_open(19, OpenResult::NotReady), OpenStep::Retry);
    assert_eq!(after_open(20, OpenResult::NotReady), OpenStep::GiveUp);
    assert_eq!(after_open(1, OpenResult::Failed), OpenStep::GiveUp);
}

#[test]
fn lost_live_view_clears_its_own_session() {
    let mut r = LvRun::new(77);
    assert_eq!(r.step(Fetched::Nothing, Some(77)), LvStep::Wait);
    assert_eq!(r.step(Fetched::Failed, Some(77)), LvStep::Stop { clear: false });
    for _ in 0..10 {
        assert_eq!(r.step(Fetched::Frame, Some(77)), LvStep::Send);
    }
    assert_eq!(r.step(Fetched::Failed, Some(77)), LvStep::Stop { clear: false });
    assert_eq!(r.step(Fetched::Frame, Some(77)), LvStep::Send);
    assert_eq!(r.sent, 11);
    assert_eq!(r.step(Fetched::Failed, Some(77)), LvStep::Stop { clear: true });
    assert_eq!(r.step(Fetched::Failed, Some(78)), LvStep::Stop { clear: false });
    assert_eq!(r.step(Fetched::Failed, None), LvStep::Stop { clear: false });
}
