use tethermoon::autofocus::UNIT;
use tethermoon::lock::{AfLock, LockStep};
use tethermoon::swaf::{
    aperture_roi, apply_aperture_defaults, debug_sharpness, focus_score, keeps_watching, meter,
    progress_line, state_line, waits_again, AfTarget, FrameEvent, Grab, MeterPlace, SwAfParams,
    SwAfReq, Watch, WatchParams,
};
use tethermoon::sweep::{Motion, Sweep};
use tethermoon::jpeg::{encode_with, DecodedJpeg, PixelFormat};

fn nothing() -> SwAfReq {
    SwAfReq {
        x: None,
        y: None,
        roi: None,
        roi_w: None,
        roi_h: None,
        step: None,
        count: None,
        fine_step: None,
        settle_ms: None,
        move_ms: None,
        frames: None,
        threshold: None,
        check_ms: None,
        debounce: None,
        cooldown: None,
    }
}

fn steps_of(step: i32) -> SwAfReq {
    let mut b = nothing();
    b.step = Some(step);
    b
}

#[test]
fn defaults_of_a_request() {
    let p = SwAfParams::from_req(&nothing());
    assert_eq!((p.cx, p.cy, p.roi_w, p.roi_h), (UNIT / 2, UNIT / 2, UNIT / 4, UNIT / 4));
    assert_eq!((p.step, p.n, p.fine_step), (5, 24, 1));
    assert_eq!((p.settle_ms, p.fine_settle_ms, p.move_ms, p.frames), (250, 125, 120, 2));
    let w = WatchParams::from_req(&nothing());
    assert_eq!((w.threshold, w.check_ms, w.debounce, w.cooldown), (450_000_000, 900, 3, 4));
}

#[test]
fn limits_of_a_request() {
    let mut b = nothing();
    b.roi = Some(7);
    b.roi_h = Some(9);
    b.step = Some(-5);
    b.count = Some(1);
    b.fine_step = Some(-40);
    b.settle_ms = Some(0);
    b.move_ms = Some(5);
    b.frames = Some(50);
    b.threshold = Some(0);
    b.check_ms = Some(9_999_999);
    b.debounce = Some(0);
    b.cooldown = Some(99);
    let p = SwAfParams::from_req(&b);
    assert_eq!((p.roi_w, p.roi_h), (7, 9));
    assert_eq!((p.step, p.n, p.fine_step), (5, 4, 5));
    assert_eq!((p.settle_ms, p.fine_settle_ms, p.move_ms, p.frames), (0, 100, 20, 5));
    let w = WatchParams::from_req(&b);
    assert_eq!((w.threshold, w.check_ms, w.debounce, w.cooldown), (300_000_000, 5000, 1, 20));
    b.step = Some(0);
    assert_eq!(SwAfParams::from_req(&b).step, 1);
}

#[test]
fn focusing_again_is_narrow() {
    let p = SwAfParams::from_req(&nothing()).relock();
    assert_eq!((p.step, p.n, p.fine_step), (2, 10, 1));
    let q = p.relock().relock().relock().relock();
    assert_eq!((q.step, q.n), (1, 10));
}

#[test]
fn target_is_followed() {
    let p = SwAfParams::from_req(&nothing());
    let mut t = p.target();
    t.retarget(-4, 2 * UNIT, Some(UNIT), None);
    assert_eq!(t, AfTarget { cx: 0, cy: UNIT, roi_w: 900_000_000, roi_h: UNIT / 4 });
    t.retarget(5, 6, None, Some(0));
    assert_eq!(t, AfTarget { cx: 5, cy: 6, roi_w: 900_000_000, roi_h: 50_000_000 });
    let q = p.aimed(&t);
    assert_eq!((q.cx, q.cy, q.roi_w, q.roi_h, q.n), (5, 6, 900_000_000, 50_000_000, 24));
}

#[test]
fn open_lens_has_a_small_region() {
    assert_eq!(aperture_roi(560), UNIT / 4);
    assert_eq!(aperture_roi(180), 100_000_000);
    assert_eq!(aperture_roi(280), 125_000_000);
    assert_eq!(aperture_roi(2200), 400_000_000);
    let mut b = nothing();
    apply_aperture_defaults(&mut b, Some(560));
    assert_eq!(b.roi, Some(UNIT / 4));
    let mut c = nothing();
    apply_aperture_defaults(&mut c, Some(99));
    assert_eq!(c.roi, None);
    apply_aperture_defaults(&mut c, Some(10_000));
    assert_eq!(c.roi, None);
    apply_aperture_defaults(&mut c, None);
    assert_eq!(c.roi, None);
    c.roi_w = Some(1);
    apply_aperture_defaults(&mut c, Some(560));
    assert_eq!(c.roi, None);
}

#[test]
fn measurement_is_a_mean() {
    let mut g = Grab::new(4);
    assert!(g.wants_more());
    assert_eq!(g.result(), None);
    g.take(FrameEvent::Frame(Some(10)));
    g.take(FrameEvent::Missed);
    g.take(FrameEvent::Frame(None));
    assert!(g.wants_more());
    g.take(FrameEvent::Frame(Some(15)));
    assert!(!g.wants_more());
    assert_eq!(g.result(), Some(12));
    let mut h = Grab::new(3);
    h.take(FrameEvent::Frame(Some(u64::MAX)));
    h.take(FrameEvent::Over);
    assert!(!h.wants_more());
    assert_eq!(h.result(), Some(u64::MAX));
}

#[test]
fn lines_for_the_page() {
    assert_eq!(
        progress_line("coarse", 3, 24, 1_500_000),
        r#"{"type":"af_progress","phase":"coarse","i":3,"n":24,"score":2}"#
    );
    assert_eq!(
        state_line("locked", 2_500_000),
        r#"{"type":"af_continuous","state":"locked","score":2}"#
    );
    assert_eq!(
        state_line("hold", 2_500_001),
        r#"{"type":"af_continuous","state":"hold","score":3}"#
    );
}

#[test]
fn watch_does_not_hunt() {
    let params = WatchParams { threshold: 500_000_000, check_ms: 900, debounce: 2, cooldown: 3 };
    let mut w = Watch::new(params, 100);
    assert!(!w.look(49));
    assert!(!w.look(50));
    assert!(!w.look(49));
    assert!(w.look(49));
    w.refocused(80);
    // Three looks have to pass, lost or not.
    assert!(!w.look(0));
    assert!(!w.look(0));
    assert!(w.look(0));
    // Nothing is lost where nothing was found.
    let mut z = Watch::new(params, 0);
    for _ in 0..9 {
        assert!(!z.look(0));
    }
}

#[test]
fn watching_ends_with_the_camera() {
    assert!(keeps_watching(false, Some(3), 3));
    assert!(!keeps_watching(true, Some(3), 3));
    assert!(!keeps_watching(false, Some(4), 3));
    assert!(!keeps_watching(false, None, 3));
    assert!(waits_again(1, FrameEvent::Missed) && waits_again(2, FrameEvent::Missed));
    assert!(!waits_again(3, FrameEvent::Missed) && !waits_again(1, FrameEvent::Over));
}

// A lens at a place on a line, whose sharpness falls off around a peak.
struct Lens {
    at: i64,
    peak: i64,
    width: i64,
}

impl Lens {
    fn sharpness(&self) -> u64 {
        let d = (self.at - self.peak).abs();
        (1_000_000 - (d * 1_000_000 / self.width)).max(1_000) as u64
    }
}

fn sweep_with(lens: &mut Lens, step: i32, m: u32, cancel_at: usize) -> (Vec<u64>, usize, bool) {
    let mut s = Sweep::new(step, m, 250, 120);
    let mut measured = None;
    let mut measures = 0;
    loop {
        match s.next(measures >= cancel_at, measured) {
            Motion::Drive { by, .. } => {
                lens.at += by as i64;
                measured = None;
            }
            Motion::Measure => {
                assert!(s.awaits_score());
                measured = Some(lens.sharpness());
                measures += 1;
            }
            Motion::Done => return (s.scores(), s.best(), s.bracketed()),
        }
    }
}

#[test]
fn sweep_lands_on_its_peak() {
    let mut lens = Lens { at: 100, peak: 112, width: 500 };
    let (scores, best, bracketed) = sweep_with(&mut lens, 4, 10, usize::MAX);
    // Eleven places from 80 to 120.
    assert_eq!(scores.len(), 11);
    assert_eq!(best, 8);
    assert!(!bracketed);
    assert_eq!(lens.at, 112);
}

#[test]
fn sweep_stops_behind_its_peak() {
    let mut lens = Lens { at: 100, peak: 92, width: 20 };
    let (scores, best, bracketed) = sweep_with(&mut lens, 4, 10, usize::MAX);
    assert!(bracketed);
    assert_eq!(best, 3);
    // 80 84 88 92 96 100 104 108 112: the last three, under six tenths of the peak, end it.
    assert_eq!(scores.len(), 9);
    assert_eq!(lens.at, 92);
}

#[test]
fn cancelled_sweep_lands_too() {
    let mut lens = Lens { at: 100, peak: 84, width: 500 };
    let (scores, best, _) = sweep_with(&mut lens, 4, 10, 3);
    assert_eq!(scores.len(), 3);
    assert_eq!(best, 1);
    assert_eq!(lens.at, 84);
    let mut other = Lens { at: 100, peak: 84, width: 500 };
    let (none, _, _) = sweep_with(&mut other, 4, 10, 0);
    assert!(none.is_empty());
    assert_eq!(other.at, 80);
}

fn search(lens: &mut Lens, p: &SwAfParams, cancel: bool) -> (AfLock, usize, Vec<String>) {
    let mut lock = AfLock::new(p);
    let mut measured = None;
    let mut steps = 0;
    let mut lines = Vec::new();
    loop {
        steps += 1;
        assert!(steps < 10_000);
        if let Some(v) = measured {
            if let Some(line) = lock.progress(v) {
                lines.push(line);
            }
        }
        match lock.next(cancel, measured) {
            LockStep::Drive { by, .. } => {
                lens.at += by as i64;
                measured = None;
            }
            LockStep::Measure => measured = Some(lens.sharpness()),
            LockStep::Pause { ms } => {
                assert_eq!(ms, p.settle_ms);
                measured = None;
            }
            LockStep::Finish => return (lock, steps, lines),
        }
    }
}

#[test]
fn search_finds_the_focus() {
    for peak in [-90i64, -31, 0, 7, 64, 95] {
        let mut lens = Lens { at: 0, peak, width: 60 };
        let p = SwAfParams::from_req(&steps_of(8));
        let (lock, _, lines) = search(&mut lens, &p, false);
        assert!((lens.at - peak).abs() <= 1, "peak {peak} at {}", lens.at);
        let r = lock.result();
        assert_eq!(r.best_score, lens.sharpness());
        assert_eq!(lock.score(), r.best_score);
        assert_eq!(r.points, r.fine_scores.len());
        assert!(lines[0].starts_with(r#"{"type":"af_progress","phase":"coarse","i":0,"n":24,"#));
        assert!(lines.last().unwrap().contains(r#""phase":"fine""#));
    }
}

#[test]
fn far_focus_needs_a_wider_window() {
    // The first window reaches from -96 to 96, the second twice as far.
    let mut lens = Lens { at: 0, peak: 150, width: 2000 };
    let p = SwAfParams::from_req(&steps_of(8));
    let (lock, _, lines) = search(&mut lens, &p, false);
    assert!((lens.at - 150).abs() <= 1, "at {}", lens.at);
    assert!(lines.iter().any(|l| l.contains(r#""n":48,"#)));
    assert_eq!(lock.result().best_score, lens.sharpness());
}

#[test]
fn cancelled_search_ends_with_the_wide_sweep() {
    let mut lens = Lens { at: 0, peak: 8, width: 60 };
    let p = SwAfParams::from_req(&nothing());
    let (lock, _, lines) = search(&mut lens, &p, true);
    assert!(lines.is_empty());
    let r = lock.result();
    assert_eq!((r.best_index, r.points, r.best_score), (0, 0, 0));
    assert!(r.coarse_scores.is_empty() && r.fine_scores.is_empty());
}

fn dot(w: usize, h: usize, x: usize, y: usize) -> Vec<u8> {
    let mut px = vec![0u8; w * h];
    for b in y - 1..=y + 1 {
        for a in x - 1..=x + 1 {
            px[b * w + a] = 250;
        }
    }
    px
}

#[test]
fn meter_looks_where_asked_or_at_the_star() {
    let img = DecodedJpeg { width: 60, height: 40, format: PixelFormat::L8, pixels: dot(60, 40, 45, 10) };
    let (auto, place) = meter(&img, None, None).unwrap();
    match place {
        MeterPlace::Brightest(p) => assert_eq!((p.x, p.y), (44, 9)),
        other => panic!("{other:?}"),
    }
    assert!(auto > 0);
    let (off, place) = meter(&img, Some((UNIT / 6, UNIT / 2)), None).unwrap();
    assert_eq!(place, MeterPlace::Asked { x: UNIT / 6, y: UNIT / 2 });
    assert_eq!(off, 0);
    let dark = DecodedJpeg { width: 60, height: 40, format: PixelFormat::L8, pixels: vec![0; 2400] };
    assert!(meter(&dark, None, None).is_none());
    assert!(meter(&dark, Some((0, 0)), Some(0)).is_some());
}

#[test]
fn meter_reads_the_live_view() {
    let rgb: Vec<u8> = dot(64, 48, 20, 20).iter().flat_map(|&v| [v, v, v]).collect();
    let jpeg = encode_with(64, 48, &rgb, 95).unwrap();
    let (score, _) = focus_score(&jpeg, None, None).unwrap();
    assert!(score > 1_000_000);
    assert!(focus_score(b"none", None, None).is_none());
    assert!(debug_sharpness(&jpeg, Some(UNIT / 3), Some(UNIT / 2), None) > 0);
    assert_eq!(debug_sharpness(b"none", None, None, None), 0);
}
