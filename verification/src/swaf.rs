//! Autofocus in software: what is asked for, where it looks, and when it looks again.
//!
//! Places and sizes are fractions of the frame, in billionths.
use vstd::prelude::*;

use crate::autofocus::{
    brightest_in, clamp_i64, clamped, find_brightest, focus_measure, is_measured,
    law_sharpness_is_measured_around_the_pixel, law_sharpness_is_measured_around_the_point,
    measure, measure_around, reach, same_number, sharpness, sharpness_around, BrightPoint, UNIT,
};
use crate::jpeg::{decoding, read_jpeg, DecodedJpeg, JpegImage};
use crate::text::{decimal, push_decimal};

verus! {

/// A request to focus. What is not given is chosen.
#[derive(Clone, Copy, Debug)]
pub struct SwAfReq {
    /// Column of the place.
    pub x: Option<i64>,
    /// Row of the place.
    pub y: Option<i64>,
    /// Side of the region.
    pub roi: Option<i64>,
    /// Width of the region, where it differs from the side.
    pub roi_w: Option<i64>,
    /// Height of the region, where it differs from the side.
    pub roi_h: Option<i64>,
    /// Size of the first moves.
    pub step: Option<i32>,
    /// Number of moves across the first window.
    pub count: Option<u32>,
    /// Size of the last moves.
    pub fine_step: Option<i32>,
    /// Pause before a measurement, in milliseconds.
    pub settle_ms: Option<u64>,
    /// Pause between other moves, in milliseconds.
    pub move_ms: Option<u64>,
    /// Frames per measurement.
    pub frames: Option<u32>,
    /// Below which part of its best the sharpness counts as lost.
    pub threshold: Option<i64>,
    /// How often to look, in milliseconds.
    pub check_ms: Option<u64>,
    /// How often it has to be lost in a row.
    pub debounce: Option<u32>,
    /// How many looks to wait after focusing again.
    pub cooldown: Option<u32>,
}

/// A value, or the given one where there is none.
pub open spec fn given<T>(v: Option<T>, otherwise: T) -> T {
    match v {
        Some(x) => x,
        None => otherwise,
    }
}

/// How to focus.
#[derive(Clone, Copy, Debug, PartialEq, Eq, Structural)]
pub struct SwAfParams {
    /// Column of the place.
    pub cx: i64,
    /// Row of the place.
    pub cy: i64,
    /// Width of the region.
    pub roi_w: i64,
    /// Height of the region.
    pub roi_h: i64,
    /// Size of the first moves.
    pub step: i32,
    /// Number of moves across the first window.
    pub n: u32,
    /// Size of the last moves.
    pub fine_step: i32,
    /// Pause before a measurement, in milliseconds.
    pub settle_ms: u64,
    /// The same once the moves are small.
    pub fine_settle_ms: u64,
    /// Pause between other moves, in milliseconds.
    pub move_ms: u64,
    /// Frames per measurement.
    pub frames: u32,
}

impl SwAfParams {
    /// Sizes and numbers are in range.
    pub open spec fn wf(self) -> bool {
        &&& 1 <= self.fine_step <= self.step
        &&& 4 <= self.n <= 200
        &&& 1 <= self.frames <= 5
    }
}

/// The size of a number.
pub open spec fn size(v: int) -> int {
    if v < 0 {
        -v
    } else {
        v
    }
}

/// Whether the sizes of moves that a request gives can be turned round.
pub open spec fn has_sizes(b: SwAfReq) -> bool {
    b.step != Some(i32::MIN) && b.fine_step != Some(i32::MIN)
}

fn size_of_move(v: i32) -> (r: i32)
    requires
        v != i32::MIN,
    ensures
        r == size(v as int),
{
    if v < 0 {
        -v
    } else {
        v
    }
}

fn clamp_u32(v: u32, lo: u32, hi: u32) -> (r: u32)
    requires
        lo <= hi,
    ensures
        r == clamped(v as int, lo as int, hi as int),
{
    if v < lo {
        lo
    } else if v > hi {
        hi
    } else {
        v
    }
}

fn clamp_u64(v: u64, lo: u64, hi: u64) -> (r: u64)
    requires
        lo <= hi,
    ensures
        r == clamped(v as int, lo as int, hi as int),
{
    if v < lo {
        lo
    } else if v > hi {
        hi
    } else {
        v
    }
}

/// The side of a region: its own, else the common one, else a quarter of the frame.
fn side(own: Option<i64>, common: Option<i64>) -> (r: i64)
    ensures
        r == given(own, given(common, (UNIT / 4) as i64)),
{
    match own {
        Some(v) => v,
        None => match common {
            Some(v) => v,
            None => UNIT / 4,
        },
    }
}

impl SwAfParams {
    /// Reads a request. Without a place it is the middle, without a size a quarter of the
    /// frame; the size of a move is its number without the sign, and at least one.
    pub fn from_req(b: &SwAfReq) -> (r: SwAfParams)
        requires
            has_sizes(*b),
        ensures
            r.wf(),
            r.cx == given(b.x, (UNIT / 2) as i64),
            r.cy == given(b.y, (UNIT / 2) as i64),
            r.roi_w == given(b.roi_w, given(b.roi, (UNIT / 4) as i64)),
            r.roi_h == given(b.roi_h, given(b.roi, (UNIT / 4) as i64)),
            r.step == clamped(size(given(b.step, 5i32) as int), 1, i32::MAX as int),
            r.n == clamped(given(b.count, 24u32) as int, 4, 200),
            r.fine_step == clamped(size(given(b.fine_step, 1i32) as int), 1, r.step as int),
            r.settle_ms == given(b.settle_ms, 250u64),
            r.fine_settle_ms == clamped(given(b.settle_ms, 250u64) as int / 2, 100, u64::MAX as int),
            r.move_ms == clamped(given(b.move_ms, 120u64) as int, 20, 1000),
            r.frames == clamped(given(b.frames, 2u32) as int, 1, 5),
    {
        let raw: i32 = match b.step {
            Some(v) => size_of_move(v),
            None => 5,
        };
        let step: i32 = if raw < 1 {
            1
        } else {
            raw
        };
        let raw_fine: i32 = match b.fine_step {
            Some(v) => size_of_move(v),
            None => 1,
        };
        let fine_step: i32 = if raw_fine < 1 {
            1
        } else if raw_fine > step {
            step
        } else {
            raw_fine
        };
        let settle_ms: u64 = match b.settle_ms {
            Some(v) => v,
            None => 250,
        };
        SwAfParams {
            cx: match b.x {
                Some(v) => v,
                None => UNIT / 2,
            },
            cy: match b.y {
                Some(v) => v,
                None => UNIT / 2,
            },
            roi_w: side(b.roi_w, b.roi),
            roi_h: side(b.roi_h, b.roi),
            step,
            n: clamp_u32(
                match b.count {
                    Some(v) => v,
                    None => 24,
                },
                4,
                200,
            ),
            fine_step,
            settle_ms,
            fine_settle_ms: if settle_ms / 2 < 100 {
                100
            } else {
                settle_ms / 2
            },
            move_ms: clamp_u64(
                match b.move_ms {
                    Some(v) => v,
                    None => 120,
                },
                20,
                1000,
            ),
            frames: clamp_u32(
                match b.frames {
                    Some(v) => v,
                    None => 2,
                },
                1,
                5,
            ),
        }
    }

    /// How to focus again on something that has moved a little: a smaller window and smaller
    /// moves, so that it is not lost from sight.
    pub fn relock(&self) -> (r: SwAfParams)
        requires
            self.wf(),
        ensures
            r.wf(),
            r == (SwAfParams {
                n: clamped(self.n as int, 0, 10) as u32,
                step: clamped(self.step as int / 2, self.fine_step as int, i32::MAX as int) as i32,
                ..*self
            }),
    {
        let half: i32 = self.step / 2;
        SwAfParams {
            cx: self.cx,
            cy: self.cy,
            roi_w: self.roi_w,
            roi_h: self.roi_h,
            step: if half < self.fine_step {
                self.fine_step
            } else {
                half
            },
            n: if self.n > 10 {
                10
            } else {
                self.n
            },
            fine_step: self.fine_step,
            settle_ms: self.settle_ms,
            fine_settle_ms: self.fine_settle_ms,
            move_ms: self.move_ms,
            frames: self.frames,
        }
    }

    /// The same, looking elsewhere.
    pub fn aimed(&self, t: &AfTarget) -> (r: SwAfParams)
        requires
            self.wf(),
        ensures
            r.wf(),
            r == (SwAfParams { cx: t.cx, cy: t.cy, roi_w: t.roi_w, roi_h: t.roi_h, ..*self }),
    {
        SwAfParams {
            cx: t.cx,
            cy: t.cy,
            roi_w: t.roi_w,
            roi_h: t.roi_h,
            step: self.step,
            n: self.n,
            fine_step: self.fine_step,
            settle_ms: self.settle_ms,
            fine_settle_ms: self.fine_settle_ms,
            move_ms: self.move_ms,
            frames: self.frames,
        }
    }

    /// Where these parameters look.
    pub fn target(&self) -> (r: AfTarget)
        ensures
            r == (AfTarget { cx: self.cx, cy: self.cy, roi_w: self.roi_w, roi_h: self.roi_h }),
    {
        AfTarget { cx: self.cx, cy: self.cy, roi_w: self.roi_w, roi_h: self.roi_h }
    }
}

/// Where a running autofocus looks.
#[derive(Clone, Copy, Debug, PartialEq, Eq, Structural)]
pub struct AfTarget {
    /// Column of the place.
    pub cx: i64,
    /// Row of the place.
    pub cy: i64,
    /// Width of the region.
    pub roi_w: i64,
    /// Height of the region.
    pub roi_h: i64,
}

impl AfTarget {
    /// Follows what it looks at: the place stays inside the frame, a size that is given
    /// between a twentieth and nine tenths of it, and one that is not given as it was.
    pub fn retarget(&mut self, x: i64, y: i64, w: Option<i64>, h: Option<i64>)
        ensures
            final(self).cx == clamped(x as int, 0, UNIT as int),
            final(self).cy == clamped(y as int, 0, UNIT as int),
            final(self).roi_w == (match w {
                Some(w) => clamped(w as int, 50_000_000, 900_000_000),
                None => old(self).roi_w as int,
            }),
            final(self).roi_h == (match h {
                Some(h) => clamped(h as int, 50_000_000, 900_000_000),
                None => old(self).roi_h as int,
            }),
    {
        self.cx = clamp_i64(x, 0, UNIT);
        self.cy = clamp_i64(y, 0, UNIT);
        if let Some(w) = w {
            self.roi_w = clamp_i64(w, 50_000_000, 900_000_000);
        }
        if let Some(h) = h {
            self.roi_h = clamp_i64(h, 50_000_000, 900_000_000);
        }
    }
}

/// Whether a raw aperture is one: hundredths of the f-number, from one to just under a
/// hundred.
pub open spec fn is_aperture(raw: u64) -> bool {
    100 <= raw <= 9999
}

/// The side of the region for an aperture: in proportion to the f-number, a quarter of the
/// frame at f/5.6, between a tenth and four tenths.
pub open spec fn aperture_side(raw: int) -> int {
    clamped(raw * UNIT / 2240, 100_000_000, 400_000_000)
}

/// The side of the region for an aperture, in hundredths of the f-number: an open lens has
/// little depth, so the region is small and does not mix distances.
pub fn aperture_roi(raw: u64) -> (r: i64)
    requires
        is_aperture(raw),
    ensures
        r == aperture_side(raw as int),
{
    clamp_i64((raw as i64) * UNIT / 2240, 100_000_000, 400_000_000)
}

/// Fills in the region by the aperture, unless the request gives one or the aperture could
/// not be read.
pub fn apply_aperture_defaults(b: &mut SwAfReq, raw: Option<u64>)
    ensures
        *final(b) == (if old(b).roi is None && old(b).roi_w is None && old(b).roi_h is None && raw
            is Some && is_aperture(raw->0) {
            SwAfReq { roi: Some(aperture_side(raw->0 as int) as i64), ..*old(b) }
        } else {
            *old(b)
        }),
{
    if b.roi.is_none() && b.roi_w.is_none() && b.roi_h.is_none() {
        if let Some(raw) = raw {
            if 100 <= raw && raw <= 9999 {
                b.roi = Some(aperture_roi(raw));
            }
        }
    }
}

/// The sum of a list.
pub open spec fn total(s: Seq<u64>) -> int
    decreases s.len(),
{
    if s.len() == 0 {
        0
    } else {
        total(s.drop_last()) + s.last()
    }
}

/// The mean of a list, rounded down; nothing for an empty one.
pub open spec fn mean(s: Seq<u64>) -> Option<int> {
    if s.len() == 0 {
        None
    } else {
        Some(total(s) / s.len() as int)
    }
}

/// What comes while frames are waited for.
#[derive(Clone, Copy, Debug, PartialEq, Eq, Structural)]
pub enum FrameEvent {
    /// A frame, with its sharpness where that could be measured.
    Frame(Option<u64>),
    /// Some frames were missed.
    Missed,
    /// None came in time, or none will come.
    Over,
}

/// A measurement over a number of frames.
#[derive(Debug)]
pub struct Grab {
    left: u32,
    measures: Vec<u64>,
}

/// What a measurement stands for: the frames still to come, and what was measured.
pub struct GrabModel {
    pub left: int,
    pub measures: Seq<u64>,
}

impl View for Grab {
    type V = GrabModel;

    closed spec fn view(&self) -> GrabModel {
        GrabModel { left: self.left as int, measures: self.measures@ }
    }
}

impl Grab {
    /// A measurement over so many frames.
    pub fn new(frames: u32) -> (r: Grab)
        ensures
            r@.left == frames,
            r@.measures == Seq::<u64>::empty(),
    {
        Grab { left: frames, measures: Vec::new() }
    }

    /// Whether another frame is waited for.
    pub fn wants_more(&self) -> (r: bool)
        ensures
            r == (self@.left > 0),
    {
        self.left > 0
    }

    /// Takes in what came. A missed frame uses up a turn; the end of the frames ends the
    /// measurement.
    pub fn take(&mut self, ev: FrameEvent)
        requires
            old(self)@.left > 0,
        ensures
            final(self)@.left == (match ev {
                FrameEvent::Over => 0,
                _ => old(self)@.left - 1,
            }),
            final(self)@.measures == (match ev {
                FrameEvent::Frame(Some(m)) => old(self)@.measures.push(m),
                _ => old(self)@.measures,
            }),
    {
        match ev {
            FrameEvent::Frame(Some(m)) => {
                self.measures.push(m);
                self.left = self.left - 1;
            },
            FrameEvent::Over => {
                self.left = 0;
            },
            _ => {
                self.left = self.left - 1;
            },
        }
    }

    /// The mean of what was measured.
    pub fn result(&self) -> (r: Option<u64>)
        ensures
            same_number(r, mean(self@.measures)),
    {
        let n = self.measures.len();
        if n == 0 {
            return None;
        }
        let mut sum: u128 = 0;
        let mut i: usize = 0;
        while i < n
            invariant
                i <= n,
                n == self.measures@.len(),
                sum == total(self.measures@.take(i as int)),
                sum <= i * 0xFFFF_FFFF_FFFF_FFFF,
            decreases n - i,
        {
            assert(self.measures@.take(i + 1).drop_last() =~= self.measures@.take(i as int));
            sum = sum + self.measures[i] as u128;
            i = i + 1;
        }
        assert(self.measures@.take(n as int) =~= self.measures@);
        let k: u128 = n as u128;
        assert(sum as int / k as int <= 0xFFFF_FFFF_FFFF_FFFF) by (nonlinear_arith)
            requires
                0 <= sum <= k * 0xFFFF_FFFF_FFFF_FFFF,
                0 < k,
        ;
        Some((sum / k) as u64)
    }
}

/// A score in whole units, a half to the even side.
pub open spec fn whole_score(score: int) -> int {
    let q = score / 1_000_000;
    let r = score % 1_000_000;
    if r > 500_000 || (r == 500_000 && q % 2 == 1) {
        q + 1
    } else {
        q
    }
}

fn push_score(s: &mut String, score: u64)
    ensures
        final(s)@ == old(s)@ + decimal(whole_score(score as int) as nat),
{
    let q = score / 1_000_000;
    let r = score % 1_000_000;
    if r > 500_000 || (r == 500_000 && q % 2 == 1) {
        push_decimal(s, q + 1);
    } else {
        push_decimal(s, q);
    }
}

/// How far a sweep is, as one line of JSON.
pub fn progress_line(phase: &str, i: usize, n: u32, score: u64) -> (r: String)
    ensures
        r@ == "{\"type\":\"af_progress\",\"phase\":\""@ + phase@ + "\",\"i\":"@ + decimal(i as nat)
            + ",\"n\":"@ + decimal(n as nat) + ",\"score\":"@ + decimal(
            whole_score(score as int) as nat,
        ) + "}"@,
{
    let mut r = String::new();
    r.append("{\"type\":\"af_progress\",\"phase\":\"");
    r.append(phase);
    r.append("\",\"i\":");
    push_decimal(&mut r, i as u64);
    r.append(",\"n\":");
    push_decimal(&mut r, n as u64);
    r.append(",\"score\":");
    push_score(&mut r, score);
    r.append("}");
    assert(r@ =~= "{\"type\":\"af_progress\",\"phase\":\""@ + phase@ + "\",\"i\":"@ + decimal(
        i as nat,
    ) + ",\"n\":"@ + decimal(n as nat) + ",\"score\":"@ + decimal(
        whole_score(score as int) as nat,
    ) + "}"@);
    r
}

/// What the continuous autofocus is at, as one line of JSON.
pub fn state_line(state: &str, score: u64) -> (r: String)
    ensures
        r@ == "{\"type\":\"af_continuous\",\"state\":\""@ + state@ + "\",\"score\":"@ + decimal(
            whole_score(score as int) as nat,
        ) + "}"@,
{
    let mut r = String::new();
    r.append("{\"type\":\"af_continuous\",\"state\":\"");
    r.append(state);
    r.append("\",\"score\":");
    push_score(&mut r, score);
    r.append("}");
    assert(r@ =~= "{\"type\":\"af_continuous\",\"state\":\""@ + state@ + "\",\"score\":"@ + decimal(
        whole_score(score as int) as nat,
    ) + "}"@);
    r
}

/// When the continuous autofocus looks, and when it focuses again.
#[derive(Clone, Copy, Debug, PartialEq, Eq, Structural)]
pub struct WatchParams {
    /// Below which part of its best the sharpness counts as lost, in billionths.
    pub threshold: i64,
    /// How often to look, in milliseconds.
    pub check_ms: u64,
    /// How often it has to be lost in a row.
    pub debounce: u32,
    /// How many looks to wait after focusing again.
    pub cooldown: u32,
}

impl WatchParams {
    /// Reads a request.
    pub fn from_req(b: &SwAfReq) -> (r: WatchParams)
        ensures
            r.threshold == clamped(
                given(b.threshold, 450_000_000i64) as int,
                300_000_000,
                950_000_000,
            ),
            r.check_ms == clamped(given(b.check_ms, 900u64) as int, 150, 5000),
            r.debounce == clamped(given(b.debounce, 3u32) as int, 1, 10),
            r.cooldown == clamped(given(b.cooldown, 4u32) as int, 0, 20),
    {
        WatchParams {
            threshold: clamp_i64(
                match b.threshold {
                    Some(v) => v,
                    None => 450_000_000,
                },
                300_000_000,
                950_000_000,
            ),
            check_ms: clamp_u64(
                match b.check_ms {
                    Some(v) => v,
                    None => 900,
                },
                150,
                5000,
            ),
            debounce: clamp_u32(
                match b.debounce {
                    Some(v) => v,
                    None => 3,
                },
                1,
                10,
            ),
            cooldown: clamp_u32(
                match b.cooldown {
                    Some(v) => v,
                    None => 4,
                },
                0,
                20,
            ),
        }
    }
}

/// The watch over a focus that was found.
#[derive(Clone, Copy, Debug, PartialEq, Eq, Structural)]
pub struct Watch {
    /// How it is kept.
    pub params: WatchParams,
    /// The sharpness that was found.
    pub baseline: u64,
    /// How often in a row it was lost.
    pub lost: u32,
    /// How many looks are still to be waited.
    pub cooldown: u32,
}

impl Watch {
    /// Whether a sharpness counts as lost.
    pub open spec fn is_lost(self, score: int) -> bool {
        self.baseline > 0 && score * UNIT < self.baseline * self.params.threshold
    }

    /// The watch after a look.
    pub open spec fn looked(self, score: int) -> Watch {
        Watch {
            lost: if self.is_lost(score) {
                (self.lost + 1) as u32
            } else {
                0
            },
            cooldown: if self.cooldown > 0 {
                (self.cooldown - 1) as u32
            } else {
                0
            },
            ..self
        }
    }

    /// Whether it is time to focus again.
    pub open spec fn is_due(self) -> bool {
        self.lost >= self.params.debounce && self.cooldown == 0
    }

    /// The watch over the first focus: nothing to wait for.
    pub fn new(params: WatchParams, baseline: u64) -> (r: Watch)
        ensures
            r == (Watch { params, baseline, lost: 0, cooldown: 0 }),
    {
        Watch { params, baseline, lost: 0, cooldown: 0 }
    }

    /// Looks: whether to focus again. Only a sharpness that was lost several times in a row
    /// counts, and none shortly after focusing.
    pub fn look(&mut self, score: u64) -> (r: bool)
        requires
            old(self).lost < u32::MAX,
            0 <= old(self).params.threshold <= UNIT,
        ensures
            *final(self) == old(self).looked(score as int),
            r == final(self).is_due(),
    {
        if self.cooldown > 0 {
            self.cooldown = self.cooldown - 1;
        }
        assert(0 <= self.baseline * self.params.threshold <= 0xFFFF_FFFF_FFFF_FFFF * 1_000_000_000)
            by (nonlinear_arith)
            requires
                0 <= self.baseline <= 0xFFFF_FFFF_FFFF_FFFF,
                0 <= self.params.threshold <= 1_000_000_000,
        ;
        let lost = self.baseline > 0 && (score as u128) * (UNIT as u128) < (self.baseline as u128)
            * (self.params.threshold as u128);
        if lost {
            self.lost = self.lost + 1;
        } else {
            self.lost = 0;
        }
        self.lost >= self.params.debounce && self.cooldown == 0
    }

    /// Takes in the sharpness of a focus that was found again.
    pub fn refocused(&mut self, baseline: u64)
        ensures
            *final(self) == (Watch {
                params: old(self).params,
                baseline,
                lost: 0,
                cooldown: old(self).params.cooldown,
            }),
    {
        self.baseline = baseline;
        self.lost = 0;
        self.cooldown = self.params.cooldown;
    }
}

/// The watch after a number of looks.
pub open spec fn watch_after(w: Watch, scores: Seq<u64>) -> Watch
    decreases scores.len(),
{
    if scores.len() == 0 {
        w
    } else {
        watch_after(w, scores.drop_last()).looked(scores.last() as int)
    }
}

/// The autofocus does not hunt: from one focus to the next there are at least as many looks
/// as it has to wait, and at each of the last ones the sharpness was lost.
pub proof fn law_no_hunting(w: Watch, scores: Seq<u64>)
    requires
        w.lost == 0,
        scores.len() < u32::MAX,
    ensures
        ({
            let v = watch_after(w, scores);
            &&& v.params == w.params
            &&& v.baseline == w.baseline
            &&& v.lost <= scores.len()
            &&& v.cooldown + scores.len() >= w.cooldown
            &&& forall|i: int|
                scores.len() - v.lost <= i < scores.len() ==> w.is_lost(#[trigger] scores[i] as int)
            &&& v.is_due() ==> {
                &&& scores.len() >= w.cooldown
                &&& scores.len() >= w.params.debounce
                &&& forall|i: int|
                    scores.len() - w.params.debounce <= i < scores.len() ==> w.is_lost(
                        #[trigger] scores[i] as int,
                    )
            }
        }),
    decreases scores.len(),
{
    if scores.len() > 0 {
        let before = scores.drop_last();
        law_no_hunting(w, before);
        let u = watch_after(w, before);
        let v = watch_after(w, scores);
        assert forall|i: int| scores.len() - v.lost <= i < scores.len() implies w.is_lost(
            #[trigger] scores[i] as int,
        ) by {
            if i < scores.len() - 1 {
                assert(before[i] == scores[i]);
            }
        }
    }
}

/// After a run of `k` looks at which the sharpness was lost, it counts as lost at least `k`
/// times; and each look shortens the wait.
proof fn lemma_lost_run(w: Watch, scores: Seq<u64>, k: int)
    requires
        w.lost == 0,
        0 <= k <= scores.len() < u32::MAX,
        forall|i: int| scores.len() - k <= i < scores.len() ==> w.is_lost(#[trigger] scores[i] as int),
    ensures
        watch_after(w, scores).lost >= k,
        watch_after(w, scores).cooldown == if w.cooldown > scores.len() {
            w.cooldown - scores.len()
        } else {
            0
        },
    decreases scores.len(),
{
    if scores.len() > 0 {
        let before = scores.drop_last();
        let shorter = if k > 0 {
            k - 1
        } else {
            0
        };
        assert forall|i: int| before.len() - shorter <= i < before.len() implies w.is_lost(
            #[trigger] before[i] as int,
        ) by {
            assert(before[i] == scores[i]);
        }
        lemma_lost_run(w, before, shorter);
        law_no_hunting(w, before);
    }
}

/// The autofocus does focus again: as soon as it has waited, and the sharpness was lost as
/// often in a row as it has to be.
pub proof fn law_lost_focus_is_found_again(w: Watch, scores: Seq<u64>)
    requires
        w.lost == 0,
        w.cooldown <= scores.len() < u32::MAX,
        w.params.debounce <= scores.len(),
        forall|i: int|
            scores.len() - w.params.debounce <= i < scores.len() ==> w.is_lost(
                #[trigger] scores[i] as int,
            ),
    ensures
        watch_after(w, scores).is_due(),
{
    lemma_lost_run(w, scores, w.params.debounce as int);
    law_no_hunting(w, scores);
}

/// Whether the continuous autofocus goes on: nobody has cancelled it, and the camera is
/// still the one that it drives.
pub fn keeps_watching(cancelled: bool, connected: Option<i64>, handle: i64) -> (r: bool)
    ensures
        r == (!cancelled && connected == Some(handle)),
{
    match connected {
        Some(h) => !cancelled && h == handle,
        None => false,
    }
}

/// Whether a frame is waited for once more: after one was missed, twice at most.
pub fn waits_again(tries: u32, ev: FrameEvent) -> (r: bool)
    ensures
        r == (ev is Missed && tries < 3),
{
    match ev {
        FrameEvent::Missed => tries < 3,
        _ => false,
    }
}

/// Where the focus meter looks.
#[derive(Clone, Copy, Debug, PartialEq, Eq, Structural)]
pub enum MeterPlace {
    /// At a place that was asked for, in billionths of the frame.
    Asked {
        /// Column.
        x: i64,
        /// Row.
        y: i64,
    },
    /// At the brightest pixel.
    Brightest(BrightPoint),
}

/// The side of the meter's region: fifteen hundredths of the frame, or what is asked for
/// between a twentieth and a half.
pub open spec fn meter_side(asked: Option<i64>) -> int {
    clamped(given(asked, 150_000_000i64) as int, 50_000_000, 500_000_000)
}

/// Whether `r` is what the meter shows: the sharpness at the place asked for, else at the
/// brightest pixel, and nothing where there is none or it cannot be measured.
pub open spec fn meter_shows(
    img: JpegImage,
    asked: Option<(i64, i64)>,
    roi: Option<i64>,
    r: Option<(u64, MeterPlace)>,
) -> bool {
    let side = meter_side(roi);
    match asked {
        Some((x, y)) => match r {
            Some((score, p)) => {
                &&& p == MeterPlace::Asked { x, y }
                &&& sharpness(img, x as int, y as int, side, side) == Some(score as int)
            },
            None => sharpness(img, x as int, y as int, side, side) is None,
        },
        None => match r {
            Some((score, MeterPlace::Brightest(b))) => {
                &&& brightest_in(img, Some(b))
                &&& sharpness_around(img, b.x as int, b.y as int, side) == Some(score as int)
            },
            Some(_) => false,
            None => brightest_in(img, None) || exists|b: BrightPoint| #[trigger]
                brightest_in(img, Some(b)) && sharpness_around(img, b.x as int, b.y as int, side)
                    is None,
        },
    }
}

/// What the focus meter shows of a decoded frame.
pub fn meter(img: &DecodedJpeg, asked: Option<(i64, i64)>, roi: Option<i64>) -> (r: Option<
    (u64, MeterPlace),
>)
    ensures
        meter_shows(img@, asked, roi, r),
{
    let side: i64 = clamp_i64(
        match roi {
            Some(v) => v,
            None => 150_000_000,
        },
        50_000_000,
        500_000_000,
    );
    match asked {
        Some((x, y)) => match measure(img, x, y, side, side) {
            Some(score) => Some((score, MeterPlace::Asked { x, y })),
            None => None,
        },
        None => {
            let found = find_brightest(img);
            assert(brightest_in(img@, found));
            match found {
                Some(b) => match measure_around(img, b.x, b.y, side) {
                    Some(score) => Some((score, MeterPlace::Brightest(b))),
                    None => None,
                },
                None => None,
            }
        },
    }
}

/// What the focus meter shows of a live-view frame.
pub fn focus_score(jpeg: &[u8], asked: Option<(i64, i64)>, roi: Option<i64>) -> (r: Option<
    (u64, MeterPlace),
>)
    ensures
        match decoding(jpeg@) {
            Ok(img) => meter_shows(img, asked, roi, r),
            Err(_) => r is None,
        },
{
    match read_jpeg(jpeg) {
        Ok(img) => meter(&img, asked, roi),
        Err(_) => None,
    }
}

/// The sharpness that the diagnosis shows: in the middle of the frame and over a quarter of
/// it unless asked for otherwise, and nought where it cannot be measured.
pub fn debug_sharpness(jpeg: &[u8], x: Option<i64>, y: Option<i64>, roi: Option<i64>) -> (r: u64)
    ensures
        r == (match decoding(jpeg@) {
            Ok(img) => match sharpness(
                img,
                given(x, (UNIT / 2) as i64) as int,
                given(y, (UNIT / 2) as i64) as int,
                given(roi, (UNIT / 4) as i64) as int,
                given(roi, (UNIT / 4) as i64) as int,
            ) {
                Some(v) => v,
                None => 0,
            },
            Err(_) => 0,
        }),
{
    let cx: i64 = match x {
        Some(v) => v,
        None => UNIT / 2,
    };
    let cy: i64 = match y {
        Some(v) => v,
        None => UNIT / 2,
    };
    let side: i64 = match roi {
        Some(v) => v,
        None => UNIT / 4,
    };
    match focus_measure(jpeg, cx, cy, side, side) {
        Some(v) => v,
        None => 0,
    }
}

/// What is asked for counts, else what is usual; and a move is as great to one side as to the
/// other.
pub proof fn law_given_and_size<T>(v: T, otherwise: T, n: int)
    ensures
        given(Some(v), otherwise) == v,
        given(None::<T>, otherwise) == otherwise,
        size(n) == size(-n),
        size(n) >= 0,
        size(n) == n || size(n) == -n,
{
}

/// What several frames were measured at is averaged, rounded down; nothing comes of none.
pub proof fn law_measures_are_averaged(s: Seq<u64>)
    ensures
        s.len() == 0 ==> mean(s) is None,
        s.len() > 0 ==> ({
            let t = crate::grid::total(Seq::new(s.len(), |i: int| s[i] as int));
            let n = s.len() as int;
            mean(s) matches Some(m) && m * n <= t < m * n + n
        }),
{
    lemma_totals_agree(s);
    if s.len() > 0 {
        let (t, n) = (total(s), s.len() as int);
        assert((t / n) * n <= t < (t / n) * n + n) by (nonlinear_arith)
            requires
                n > 0,
        ;
    }
}

proof fn lemma_totals_agree(s: Seq<u64>)
    ensures
        crate::grid::total(Seq::new(s.len(), |i: int| s[i] as int)) == total(s),
    decreases s.len(),
{
    let ints = Seq::new(s.len(), |i: int| s[i] as int);
    if s.len() > 0 {
        let before = s.drop_last();
        lemma_totals_agree(before);
        assert(ints.drop_last() =~= Seq::new(before.len(), |i: int| before[i] as int));
    }
}

/// A score is shown in whole units, to the nearest, a half to the even one.
pub proof fn law_shown_score_is_the_nearest(score: int)
    requires
        0 <= score,
    ensures
        -500_000 <= score - whole_score(score) * 1_000_000 <= 500_000,
        score % 1_000_000 == 500_000 ==> whole_score(score) % 2 == 0,
{
}

/// The region follows the aperture: a quarter of the frame at f/5.6, in proportion to the number,
/// but a tenth at least and four tenths at most.
pub proof fn law_region_follows_the_aperture(raw: int, other: int)
    requires
        100 <= raw <= other <= 9999,
    ensures
        aperture_side(raw) <= aperture_side(other),
        100_000_000 <= aperture_side(raw) <= 400_000_000,
        100_000_000 < aperture_side(raw) < 400_000_000 ==> ({
            let d = aperture_side(raw) * 4 * 560 - raw * 1_000_000_000;
            -4 * 560 < d <= 0
        }),
        aperture_side(raw) == 100_000_000 ==> raw <= 224,
        aperture_side(raw) == 400_000_000 ==> raw >= 896,
        aperture_side(560) == 250_000_000,
{
}

/// An aperture is known where its number is between one and ninety-nine.
pub proof fn law_known_apertures(raw: u64)
    ensures
        is_aperture(raw) <==> 100 <= raw && raw < 10_000,
{
}

/// At a look the sharpness is lost where it is under the set part of what was found, unless
/// nothing was found. Losses are counted as long as they follow one another, and the wait
/// gets shorter with each look.
pub proof fn law_look_counts_losses(w: Watch, score: int)
    requires
        0 <= score,
        w.lost < u32::MAX,
    ensures
        ({
            let v = w.looked(score);
            let lost = w.baseline > 0 && score * 1_000_000_000 < w.params.threshold * w.baseline;
            &&& v.params == w.params
            &&& v.baseline == w.baseline
            &&& lost ==> v.lost == w.lost + 1
            &&& !lost ==> v.lost == 0
            &&& w.cooldown > 0 ==> v.cooldown == w.cooldown - 1
            &&& w.cooldown == 0 ==> v.cooldown == 0
            &&& v.is_due() <==> v.cooldown == 0 && v.lost >= w.params.debounce
        }),
{
    assert(w.params.threshold * w.baseline == w.baseline * w.params.threshold) by (nonlinear_arith);
}

/// What the meter shows is measured around the place asked for, or else around the brightest
/// pixel: over fifteen hundredths of the frame, or over what is asked for between a twentieth and
/// a half. It shows nothing only where there is nothing to measure.
pub proof fn law_meter_measures_where_asked(
    img: JpegImage,
    asked: Option<(i64, i64)>,
    roi: Option<i64>,
    r: Option<(u64, MeterPlace)>,
)
    requires
        meter_shows(img, asked, roi, r),
        asked matches Some((x, y)) ==> 0 <= x <= 1_000_000_000 && 0 <= y <= 1_000_000_000,
    ensures
        ({
            let side = match roi {
                None => 150_000_000,
                Some(v) => if v < 50_000_000 {
                    50_000_000
                } else if v > 500_000_000 {
                    500_000_000
                } else {
                    v as int
                },
            };
            let (rx, ry) = (reach(side, img.width as int), reach(side, img.height as int));
            let score = match r {
                Some((v, _)) => Some(v),
                None => None,
            };
            match asked {
                Some((x, y)) => {
                    &&& r matches Some((_, p)) ==> p == (MeterPlace::Asked { x, y })
                    &&& is_measured(
                        img,
                        x * img.width / 1_000_000_000,
                        y * img.height / 1_000_000_000,
                        rx,
                        ry,
                        score,
                    )
                },
                None => match r {
                    Some((_, MeterPlace::Brightest(b))) => {
                        &&& brightest_in(img, Some(b))
                        &&& is_measured(img, b.x as int, b.y as int, rx, ry, score)
                    },
                    Some(_) => false,
                    None => brightest_in(img, None) || exists|b: BrightPoint| #[trigger]
                        brightest_in(img, Some(b)) && is_measured(
                            img,
                            b.x as int,
                            b.y as int,
                            rx,
                            ry,
                            None,
                        ),
                },
            }
        }),
{
    let side = meter_side(roi);
    match asked {
        Some((x, y)) => {
            law_sharpness_is_measured_around_the_point(
                img,
                x as int,
                y as int,
                side,
                side,
                match r {
                    Some((v, _)) => Some(v),
                    None => None,
                },
            );
        },
        None => match r {
            Some((v, MeterPlace::Brightest(b))) => {
                law_sharpness_is_measured_around_the_pixel(
                    img,
                    b.x as int,
                    b.y as int,
                    side,
                    Some(v),
                );
            },
            Some(_) => {},
            None => {
                if !brightest_in(img, None) {
                    let b = choose|b: BrightPoint| #[trigger]
                        brightest_in(img, Some(b)) && sharpness_around(
                            img,
                            b.x as int,
                            b.y as int,
                            side,
                        ) is None;
                    law_sharpness_is_measured_around_the_pixel(
                        img,
                        b.x as int,
                        b.y as int,
                        side,
                        None,
                    );
                }
            },
        },
    }
}

} // verus!
