use tethermoon::connection::{
    after_teardown, await_connected, check_save_info, connect_args, first_teardown, holds_nul, opened,
    save_info_result, Camera, ConnectError, ConnectHeard, ConnectMode, ConnectStep, SaveInfoError, Teardown,
};
use tethermoon::detector::{as_colour, detections, detector_input, fits};
use tethermoon::jpeg::{encode_with, DecodedJpeg, PixelFormat};
use tethermoon::lifecycle::{
    after_poll, connect_gate, connect_reply, connect_result, gate_result, handle_text, other_pids,
    parse_u32, settle, status, ConnectGate, ConnectRun, ConnectTask, Status, StopStep,
};
use tethermoon::props::{
    code_rows, control_values, current_value, find, properties, signext, supported, type_bits,
    Property, PropertyCodes,
};
use tethermoon::reply::{answer, start_sequence, Outcome, RunFlag};
use tethermoon::stream::CameraEvent;

#[test]
fn widths_of_types() {
    assert_eq!(type_bits(0x0001), 8);
    assert_eq!(type_bits(0x1002), 16);
    assert_eq!(type_bits(0x4003), 32);
    assert_eq!(type_bits(0x0004), 64);
    assert_eq!(type_bits(0x0005), 128);
    assert_eq!(type_bits(0x0000), 64);
    assert_eq!(type_bits(0xFFFF), 64);
}

#[test]
fn signs_are_extended() {
    assert_eq!(signext(0xFF, 8), -1);
    assert_eq!(signext(0x7F, 8), 127);
    assert_eq!(signext(0x80, 8), -128);
    assert_eq!(signext(0xABCD_FF80, 8), -128);
    assert_eq!(signext(0x8000, 16), -32768);
    assert_eq!(signext(1, 1), -1);
    assert_eq!(signext(1 << 62, 63), -(1 << 62));
    assert_eq!(signext(u64::MAX, 64), -1);
    assert_eq!(signext(u64::MAX, 128), -1);
    assert_eq!(signext(1 << 63, 64), i64::MIN);
    assert_eq!(signext(5, 64), 5);
    assert_eq!(control_values(0x1002, true, &vec![1, 0xFFFF, 0x8000]), vec![1, -1, -32768]);
    assert_eq!(control_values(0x0002, false, &vec![1, 0xFFFF, u64::MAX]), vec![1, 65535, -1]);
}

fn prop(code: u32, current: u64) -> Property {
    Property { code, current, editable: code % 2 == 0, allowed: vec![current, 9], value_type: 3 }
}

fn codes() -> PropertyCodes {
    PropertyCodes {
        focus_mode: 1,
        save_dest: 2,
        exposure_mode: 3,
        iso: 4,
        shutter_speed: 5,
        f_number: 6,
        ev: 7,
        white_balance: 8,
        drive_mode: 9,
        metering: 10,
        flash_mode: 11,
        file_type: 12,
        recording_state: 13,
        shutter_type: 14,
        silent_mode: 15,
        battery: 16,
        remain_shots: 17,
        jpeg_quality: 18,
        picture_profile: 19,
        color_temp: 20,
        focus_area: 21,
        focus_indication: 22,
    }
}

#[test]
fn settings_are_found_by_code() {
    let props = vec![prop(4, 100), prop(6, 560), prop(4, 200), prop(22, 7)];
    let r = properties(&props, &codes());
    let iso = r.iso.unwrap();
    assert_eq!((iso.value, iso.editable, iso.allowed, iso.value_type), (100, true, vec![100, 9], 3));
    assert_eq!(r.f_number.unwrap().value, 560);
    assert_eq!(r.focus_indication.unwrap().value, 7);
    assert!(r.focus_mode.is_none() && r.color_temp.is_none());
    assert!(find(&props, 99).is_none());
    assert_eq!(current_value(&props, 6), Some(560));
    assert_eq!(current_value(&props, 5), None);
}

#[test]
fn settings_are_listed_by_text() {
    let props = vec![prop(0x0200, 1), prop(0x1_0000, 2), prop(0x0100, 3), prop(0x0100, 4)];
    let rows = code_rows(&props);
    let listed: Vec<&str> = rows.iter().map(|r| r.code.as_str()).collect();
    assert_eq!(listed, vec!["0x0100", "0x0100", "0x0200", "0x10000"]);
    assert_eq!(rows[0].kind, "0x0003");
    assert_eq!((rows[2].editable, rows[2].allowed_n), (true, 2));
    assert_eq!(supported(&vec![0xAB, 0x12345]), vec!["0x00AB", "0x12345"]);
}

#[test]
fn answers_of_the_camera() {
    let r = answer(&Outcome::Done, "captured");
    assert_eq!((r.status, r.text.as_str()), (200, "captured"));
    let r = answer(&Outcome::Refused("Busy".to_string()), "captured");
    assert_eq!((r.status, r.text.as_str()), (500, "sdk: Busy"));
    let r = answer(&Outcome::Broken("gone".to_string()), "captured");
    assert_eq!((r.status, r.text.as_str()), (500, "task: gone"));
}

#[test]
fn one_sequence_at_a_time() {
    let mut flag = RunFlag::new();
    let e = start_sequence(false, &mut flag, "busy").unwrap_err();
    assert_eq!((e.status, e.text.as_str()), (503, "not connected"));
    assert!(!flag.is_running());
    assert!(start_sequence(true, &mut flag, "busy").is_ok());
    let e = start_sequence(true, &mut flag, "busy").unwrap_err();
    assert_eq!((e.status, e.text.as_str()), (409, "busy"));
    assert!(flag.is_running());
    assert!(!flag.try_start());
    flag.finish();
    assert!(start_sequence(true, &mut flag, "busy").is_ok());
}

#[test]
fn arguments_of_a_connection() {
    let a = connect_args(&ConnectMode::Usb);
    assert_eq!((a.user.as_str(), a.password.as_str(), a.pairing.as_str()), ("admin", "", ""));
    assert!(a.fingerprint.is_empty());
    let w = ConnectMode::Wifi { password: "pw", fingerprint: &[1, 2, 3], pairing_name: "TM" };
    let a = connect_args(&w);
    assert_eq!((a.user.as_str(), a.password.as_str(), a.pairing.as_str()), ("admin", "pw", "TM"));
    assert_eq!(a.fingerprint, vec![1, 2, 3]);
    assert!(holds_nul("a\0b") && !holds_nul("ab") && !holds_nul(""));
}

#[test]
fn connection_waits_for_its_word() {
    let ev = |e| ConnectHeard::Event(e);
    assert_eq!(await_connected(&ev(CameraEvent::PropertyChanged)), ConnectStep::Wait);
    assert_eq!(await_connected(&ev(CameraEvent::Warning(7))), ConnectStep::Wait);
    assert_eq!(await_connected(&ev(CameraEvent::Connected { version: 1 })), ConnectStep::Ready);
    assert_eq!(
        await_connected(&ev(CameraEvent::Error(0x8208))),
        ConnectStep::Stop(ConnectError::Failed(0x8208))
    );
    assert_eq!(
        await_connected(&ev(CameraEvent::Error(u32::MAX))),
        ConnectStep::Stop(ConnectError::Failed(-1))
    );
    assert_eq!(await_connected(&ConnectHeard::Over), ConnectStep::Stop(ConnectError::Timeout));
}

#[test]
fn events_are_taken_once() {
    let mut c = Camera::new(42, vec![1]);
    assert_eq!(c.device_handle(), 42);
    c.events().push(2);
    assert_eq!(c.take_events(), Some(vec![1, 2]));
    assert_eq!(c.take_events(), None);
    assert_eq!(c.device_handle(), 42);
}

#[test]
fn teardown_silences_first_and_frees_last() {
    let mut steps = vec![Teardown::Silence];
    while let Some(next) = after_teardown(*steps.last().unwrap()) {
        steps.push(next);
    }
    assert_eq!(
        steps,
        vec![Teardown::Silence, Teardown::Disconnect, Teardown::Release, Teardown::Free]
    );
}

#[test]
fn save_info_is_checked() {
    assert_eq!(check_save_info("/d", ""), Ok(()));
    assert_eq!(check_save_info("/d\0", ""), Err(SaveInfoError::StringConversion));
    assert_eq!(check_save_info("/d", "\0"), Err(SaveInfoError::StringConversion));
    assert_eq!(save_info_result(5, true, false), Err(SaveInfoError::Sdk(5)));
    assert_eq!(save_info_result(5, true, true), Ok(()));
    assert_eq!(save_info_result(0, false, false), Ok(()));
}

#[test]
fn connecting_is_tried_once() {
    let mut flag = RunFlag::new();
    assert_eq!(connect_gate(true, &mut flag), ConnectGate::Already);
    assert!(!flag.is_running());
    assert_eq!(connect_gate(false, &mut flag), ConnectGate::Go);
    assert!(flag.is_running());
    assert_eq!(connect_gate(false, &mut flag), ConnectGate::Busy);
    assert_eq!(connect_gate(true, &mut flag), ConnectGate::Already);
    assert!(flag.is_running());
    flag.finish();
    assert_eq!(connect_gate(false, &mut flag), ConnectGate::Go);
    assert_eq!(gate_result(ConnectGate::Already), Some(Ok(())));
    assert_eq!(gate_result(ConnectGate::Busy), Some(Err("already connecting".to_string())));
    assert_eq!(gate_result(ConnectGate::Go), None);
    let r = connect_reply(&Ok(()));
    assert_eq!((r.status, r.text.as_str()), (200, "connected"));
    let r = connect_reply(&Err("no".to_string()));
    assert_eq!((r.status, r.text.as_str()), (503, "no"));
}

#[test]
fn failed_connection_changes_nothing() {
    let (mut camera, mut path, mut flag) = (None, "old".to_string(), RunFlag::new());
    assert_eq!(connect_gate(false, &mut flag), ConnectGate::Go);
    let run = ConnectRun::broken("task join: x");
    assert_eq!(connect_result(&run), Err("task join: x".to_string()));
    let r = settle(run, Some(7), &mut camera, &mut path, &mut flag);
    assert_eq!(r, Err("task join: x".to_string()));
    assert_eq!((camera, path.as_str(), flag.is_running()), (None, "old", false));

    let mut run = ConnectRun::new("/x", None);
    run.enumerated(&Ok(vec!["m".to_string()]));
    for _ in 0..5 {
        run.worked(&Ok(()));
    }
    run.lens_read(None);
    assert_eq!(connect_result(&run), Ok(()));
    assert_eq!(connect_gate(false, &mut flag), ConnectGate::Go);
    assert_eq!(settle(run, Some(7), &mut camera, &mut path, &mut flag), Ok(()));
    assert_eq!((camera, path.as_str(), flag.is_running()), (Some(7), "/x", false));
}

#[test]
fn only_an_opened_camera_is_let_go_of() {
    assert_eq!(opened(5, true), Err(ConnectError::Failed(5)));
    assert_eq!(opened(5, false), Ok(()));
    let steps = |live: bool| {
        let mut all = vec![first_teardown(live)];
        while let Some(next) = after_teardown(all[all.len() - 1]) {
            all.push(next);
        }
        all
    };
    assert_eq!(
        steps(true),
        vec![Teardown::Silence, Teardown::Disconnect, Teardown::Release, Teardown::Free]
    );
    assert_eq!(steps(false), vec![Teardown::Free]);
}

#[test]
fn connecting_step_by_step() {
    let mut c = ConnectRun::new("", Some("/here/captures".to_string()));
    c.enumerated(&Ok(vec!["ILCE-7C".to_string(), "other".to_string()]));
    assert_eq!(c.task, ConnectTask::Locate);
    c.worked(&Ok(()));
    assert_eq!(c.task, ConnectTask::Open);
    c.worked(&Ok(()));
    assert_eq!(c.task, ConnectTask::Claim);
    for task in [ConnectTask::MakeFolder, ConnectTask::SetFolder, ConnectTask::ReadLens] {
        c.worked(&Err("never mind".to_string()));
        assert_eq!(c.task, task);
    }
    c.lens_read(None);
    assert_eq!(c.task, ConnectTask::Done);
    assert_eq!((c.model.as_str(), c.lens.as_str(), c.dir.as_str()), ("ILCE-7C", "", "/here/captures"));
    assert_eq!(ConnectRun::new("/x", None).dir, "/x");
    assert_eq!(ConnectRun::new("", None).dir, "captures");
}

#[test]
fn connecting_fails_with_its_reason() {
    let fresh = || ConnectRun::new("", None);
    let mut c = fresh();
    c.enumerated(&Err("E".to_string()));
    assert_eq!((c.task, c.error.as_str()), (ConnectTask::Failed, "enumerate: E"));
    let mut c = fresh();
    c.enumerated(&Ok(vec![]));
    assert_eq!(
        (c.task, c.error.as_str()),
        (ConnectTask::Failed, "no cameras detected (check USB / PC Remote mode)")
    );
    let mut c = fresh();
    c.enumerated(&Ok(vec!["m".to_string()]));
    c.worked(&Err("P".to_string()));
    assert_eq!((c.task, c.error.as_str()), (ConnectTask::Failed, "camera_ptr: P"));
    let mut c = fresh();
    c.enumerated(&Ok(vec!["m".to_string()]));
    c.worked(&Ok(()));
    c.worked(&Err("C".to_string()));
    assert_eq!((c.task, c.error.as_str()), (ConnectTask::Failed, "connect: C"));
}

#[test]
fn status_of_the_connection() {
    match status(Some((0xAB12, "m".to_string(), "l".to_string())), "/p") {
        Status::Connected { model, handle, save_path, lens_model } => {
            assert_eq!(
                (model.as_str(), handle.as_str(), save_path.as_str(), lens_model.as_str()),
                ("m", "0x0000AB12", "/p", "l")
            );
        }
        other => panic!("{other:?}"),
    }
    assert!(matches!(status(None, "/p"), Status::Disconnected));
    assert_eq!(handle_text(-1), "0xFFFFFFFFFFFFFFFF");
}

#[test]
fn other_instances() {
    assert_eq!(other_pids("12\n 7\t+9 x9 -3 4294967295 4294967296 7\n", 7), vec![12, 9, 4294967295]);
    assert_eq!(other_pids("", 7), Vec::<u32>::new());
    assert_eq!(other_pids("5", 7), vec![5]);
    let word = |s: &str| s.chars().collect::<Vec<char>>();
    assert_eq!(parse_u32(&word("0042")), Some(42));
    assert_eq!(parse_u32(&word("+")), None);
    assert_eq!(parse_u32(&word("")), None);
    assert_eq!(parse_u32(&word("99999999999999999999999")), None);
    assert_eq!(after_poll(1, 0), StopStep::Clear);
    assert_eq!(after_poll(29, 2), StopStep::Wait);
    assert_eq!(after_poll(30, 2), StopStep::Force);
    assert_eq!(after_poll(30, 0), StopStep::Clear);
}

#[test]
fn detections_are_put_together() {
    let boxes = vec![1.0f32, 2.0, 3.0, 4.0, 5.0, 6.0, 7.0, 8.0, 0.0, 0.0, 0.0, 0.0];
    let d = detections(2, &boxes, &vec![0.9, 0.5, 0.0], &vec![7, 1, 0]);
    assert_eq!(d.len(), 2);
    assert_eq!((d[1].class, d[1].score, d[1].bbox), (1, 0.5, [5.0, 6.0, 7.0, 8.0]));
    assert!(detections(-1, &boxes, &vec![0.9], &vec![7]).is_empty());
    assert!(fits(36, 4, 3) && !fits(35, 4, 3) && !fits(35, -4, 3));
}

#[test]
fn detector_wants_colour() {
    let jpeg = encode_with(8, 8, &[100; 192], 90).unwrap();
    let f = detector_input(&jpeg).unwrap();
    assert_eq!((f.w, f.h, f.rgb.len()), (8, 8, 192));
    assert!(detector_input(b"x").unwrap_err().starts_with("decode: "));
    let grey = DecodedJpeg { width: 1, height: 1, format: PixelFormat::L8, pixels: vec![1] };
    assert_eq!(as_colour(Ok(grey)).unwrap_err(), "lv not RGB24: L8");
    assert_eq!(as_colour(Err("bad".to_string())).unwrap_err(), "decode: bad");
}
