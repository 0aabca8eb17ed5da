//! Focusing by contrast, with a lens that only knows "a bit nearer" and "a bit farther".
//!
//! A sweep measures the sharpness at a row of places and then puts the lens back where it
//! was sharpest. A lens has play: a step lands elsewhere when it comes from the other side.
//! So the way back is the way there: nearer past the first place, then farther, step by
//! step, just as it was measured.
use vstd::prelude::*;

verus! {

/// The place of the greatest score, the first where several are as great.
pub open spec fn peak(s: Seq<u64>) -> int
    decreases s.len(),
{
    if s.len() <= 1 {
        0
    } else {
        let p = peak(s.drop_last());
        if s.last() > s[p] {
            s.len() - 1
        } else {
            p
        }
    }
}

/// Whether the peak lies behind: the last three scores are each under six tenths of the
/// greatest.
pub open spec fn has_fallen(s: Seq<u64>) -> bool {
    s.len() >= 4 && forall|i: int| s.len() - 3 <= i < s.len() ==> 5 * #[trigger] s[i] < 3 * s[peak(s)]
}

proof fn lemma_peak(s: Seq<u64>)
    requires
        s.len() > 0,
    ensures
        0 <= peak(s) < s.len(),
        forall|i: int| 0 <= i < s.len() ==> #[trigger] s[i] <= s[peak(s)],
        forall|i: int| 0 <= i < peak(s) ==> #[trigger] s[i] < s[peak(s)],
    decreases s.len(),
{
    if s.len() > 1 {
        let t = s.drop_last();
        lemma_peak(t);
        assert forall|i: int| 0 <= i < s.len() implies #[trigger] s[i] <= s[peak(s)] by {
            if i < s.len() - 1 {
                assert(t[i] <= t[peak(t)]);
            }
        }
        assert forall|i: int| 0 <= i < peak(s) implies #[trigger] s[i] < s[peak(s)] by {
            if i < s.len() - 1 {
                assert(t[i] <= t[peak(t)]);
            }
        }
    }
}

/// The peak is the greatest score, and the first of its size.
pub proof fn law_peak_is_the_greatest(s: Seq<u64>)
    requires
        s.len() > 0,
    ensures
        0 <= peak(s) < s.len(),
        forall|i: int| 0 <= i < s.len() ==> #[trigger] s[i] <= s[peak(s)],
        forall|i: int| 0 <= i < peak(s) ==> #[trigger] s[i] < s[peak(s)],
{
    lemma_peak(s);
}

/// Where a sweep stands. A number says how many moves are left.
#[derive(Clone, Copy, Debug, PartialEq, Eq, Structural)]
pub enum Stage {
    /// Going nearer, past the first place.
    Overshoot {
        /// Moves left.
        left: u32,
    },
    /// At a place that is to be measured.
    Ready,
    /// Waiting for its score.
    Scoring,
    /// Going nearer again, back to the first place.
    Return {
        /// Moves left.
        left: u32,
    },
    /// Going farther to the peak.
    Land {
        /// Moves left.
        left: u32,
    },
    /// At the peak.
    Over,
}

/// What a sweep asks for.
#[derive(Clone, Copy, Debug, PartialEq, Eq, Structural)]
pub enum Motion {
    /// Move the lens, farther where positive, and pause so many milliseconds.
    Drive {
        /// How far.
        by: i32,
        /// The pause.
        pause_ms: u64,
    },
    /// Measure the sharpness.
    Measure,
    /// It is over.
    Done,
}

/// What a sweep stands for.
pub struct SweepModel {
    /// The size of a move.
    pub step: i32,
    /// The number of moves across the window.
    pub m: u32,
    /// Pause before a measurement.
    pub settle_ms: u64,
    /// Pause between other moves.
    pub move_ms: u64,
    pub stage: Stage,
    pub scores: Seq<u64>,
    /// Whether the sweep ended because the peak lies behind.
    pub bracketed: bool,
}

/// A sweep.
#[derive(Debug)]
pub struct Sweep {
    step: i32,
    m: u32,
    settle_ms: u64,
    move_ms: u64,
    stage: Stage,
    scores: Vec<u64>,
    best: usize,
    bracketed: bool,
}

impl View for Sweep {
    type V = SweepModel;

    closed spec fn view(&self) -> SweepModel {
        SweepModel {
            step: self.step,
            m: self.m,
            settle_ms: self.settle_ms,
            move_ms: self.move_ms,
            stage: self.stage,
            scores: self.scores@,
            bracketed: self.bracketed,
        }
    }
}

/// The stage before `left` moves to the peak.
pub open spec fn landing(left: int) -> Stage {
    if left > 0 {
        Stage::Land { left: left as u32 }
    } else {
        Stage::Over
    }
}

/// The stage before `driven` moves back to the first place.
pub open spec fn returning(driven: int, s: Seq<u64>) -> Stage {
    if driven > 0 {
        Stage::Return { left: driven as u32 }
    } else {
        landing(peak(s))
    }
}

impl SweepModel {
    /// Moves and scores fit together.
    pub open spec fn wf(self) -> bool {
        &&& 1 <= self.step
        &&& 2 <= self.m < u32::MAX
        &&& self.scores.len() <= self.m + 1
        &&& match self.stage {
            Stage::Overshoot { left } => {
                1 <= left <= self.m / 2 && self.scores.len() == 0 && !self.bracketed
            },
            Stage::Ready => self.scores.len() <= self.m && !self.bracketed,
            Stage::Scoring => self.scores.len() <= self.m && !self.bracketed,
            Stage::Return { left } => 1 <= left <= self.m && 1 <= self.scores.len(),
            Stage::Land { left } => 1 <= left <= peak(self.scores) < self.scores.len(),
            Stage::Over => true,
        }
    }

    /// The motion that a stage begins with, and the stage behind it.
    pub open spec fn moved(self, stage: Stage) -> (Motion, Stage) {
        let nearer = Motion::Drive { by: (-self.step) as i32, pause_ms: self.move_ms };
        let farther = Motion::Drive { by: self.step, pause_ms: self.move_ms };
        match stage {
            Stage::Overshoot { left } => (
                nearer,
                if left > 1 {
                    Stage::Overshoot { left: (left - 1) as u32 }
                } else {
                    Stage::Ready
                },
            ),
            Stage::Return { left } => (
                nearer,
                if left > 1 {
                    Stage::Return { left: (left - 1) as u32 }
                } else {
                    landing(peak(self.scores))
                },
            ),
            Stage::Land { left } => (farther, landing(left - 1)),
            _ => (Motion::Done, Stage::Over),
        }
    }

    /// What the sweep asks for next, and the sweep behind it. A cancelled sweep measures no
    /// further place, but lands like any other. A score that is missing counts as nought.
    pub open spec fn advanced(self, cancelled: bool, measured: Option<u64>) -> (Motion, SweepModel) {
        match self.stage {
            Stage::Ready => if cancelled {
                let (motion, stage) = self.moved(
                    returning(self.scores.len() as int, self.scores),
                );
                (motion, SweepModel { stage, ..self })
            } else {
                (Motion::Measure, SweepModel { stage: Stage::Scoring, ..self })
            },
            Stage::Scoring => {
                let scores = self.scores.push(
                    match measured {
                        Some(v) => v,
                        None => 0,
                    },
                );
                let after = SweepModel { scores, bracketed: has_fallen(scores), ..self };
                if !has_fallen(scores) && scores.len() <= self.m {
                    (
                        Motion::Drive { by: self.step, pause_ms: self.settle_ms },
                        SweepModel { stage: Stage::Ready, ..after },
                    )
                } else {
                    let (motion, stage) = after.moved(returning(scores.len() - 1, scores));
                    (motion, SweepModel { stage, ..after })
                }
            },
            _ => {
                let (motion, stage) = self.moved(self.stage);
                (motion, SweepModel { stage, ..self })
            },
        }
    }
}

/// The sweep of a window of `m` moves around where the lens is.
pub open spec fn new_sweep(step: i32, m: u32, settle_ms: u64, move_ms: u64) -> SweepModel {
    SweepModel {
        step,
        m,
        settle_ms,
        move_ms,
        stage: Stage::Overshoot { left: m / 2 },
        scores: Seq::empty(),
        bracketed: false,
    }
}

fn land_stage(left: usize) -> (r: Stage)
    requires
        left <= u32::MAX,
    ensures
        r == landing(left as int),
{
    if left > 0 {
        Stage::Land { left: left as u32 }
    } else {
        Stage::Over
    }
}

impl Sweep {
    /// The sweep is sound.
    pub closed spec fn wf(self) -> bool {
        self@.wf() && self.best == peak(self.scores@)
    }

    /// A sweep of a window of `m` moves around where the lens is.
    pub fn new(step: i32, m: u32, settle_ms: u64, move_ms: u64) -> (r: Sweep)
        requires
            1 <= step,
            2 <= m < u32::MAX,
        ensures
            r.wf(),
            r@.wf(),
            r@ == new_sweep(step, m, settle_ms, move_ms),
    {
        let r = Sweep {
            step,
            m,
            settle_ms,
            move_ms,
            stage: Stage::Overshoot { left: m / 2 },
            scores: Vec::new(),
            best: 0,
            bracketed: false,
        };
        assert(r@.scores =~= Seq::empty());
        r
    }

    /// The motion that a stage begins with; the sweep goes on to the stage behind it.
    fn go(&mut self, stage: Stage) -> (r: Motion)
        requires
            1 <= old(self).step,
            old(self).best == peak(old(self).scores@),
            old(self).best <= u32::MAX,
            match stage {
                Stage::Overshoot { left } => left >= 1,
                Stage::Return { left } => left >= 1,
                Stage::Land { left } => left >= 1,
                _ => true,
            },
        ensures
            r == old(self)@.moved(stage).0,
            final(self)@ == (SweepModel { stage: old(self)@.moved(stage).1, ..old(self)@ }),
            final(self).best == old(self).best,
    {
        let nearer = Motion::Drive { by: -self.step, pause_ms: self.move_ms };
        let farther = Motion::Drive { by: self.step, pause_ms: self.move_ms };
        match stage {
            Stage::Overshoot { left } => {
                self.stage = if left > 1 {
                    Stage::Overshoot { left: left - 1 }
                } else {
                    Stage::Ready
                };
                nearer
            },
            Stage::Return { left } => {
                self.stage = if left > 1 {
                    Stage::Return { left: left - 1 }
                } else {
                    land_stage(self.best)
                };
                nearer
            },
            Stage::Land { left } => {
                self.stage = if left > 1 {
                    Stage::Land { left: left - 1 }
                } else {
                    Stage::Over
                };
                farther
            },
            _ => {
                self.stage = Stage::Over;
                Motion::Done
            },
        }
    }

    /// The stage before `driven` moves back to the first place.
    fn return_stage(&self, driven: usize) -> (r: Stage)
        requires
            driven <= u32::MAX,
            self.best == peak(self.scores@),
            self.best <= u32::MAX,
        ensures
            r == returning(driven as int, self.scores@),
    {
        if driven > 0 {
            Stage::Return { left: driven as u32 }
        } else {
            land_stage(self.best)
        }
    }

    /// What to do next. `measured` is the score, right after a measurement.
    pub fn next(&mut self, cancelled: bool, measured: Option<u64>) -> (r: Motion)
        requires
            old(self).wf(),
        ensures
            final(self).wf(),
            r == old(self)@.advanced(cancelled, measured).0,
            final(self)@ == old(self)@.advanced(cancelled, measured).1,
            final(self)@.wf(),
    {
        proof {
            if self.scores@.len() > 0 {
                lemma_peak(self.scores@);
            }
        }
        match self.stage {
            Stage::Ready => {
                if cancelled {
                    let stage = self.return_stage(self.scores.len());
                    self.go(stage)
                } else {
                    self.stage = Stage::Scoring;
                    Motion::Measure
                }
            },
            Stage::Scoring => {
                let v: u64 = match measured {
                    Some(v) => v,
                    None => 0,
                };
                let ghost before = self.scores@;
                if self.scores.len() > 0 && v > self.scores[self.best] {
                    self.best = self.scores.len();
                }
                self.scores.push(v);
                assert(self.scores@.drop_last() =~= before);
                proof {
                    lemma_peak(self.scores@);
                }
                let n = self.scores.len();
                let top = self.scores[self.best] as u128;
                let fallen = n >= 4 && 5 * (self.scores[n - 1] as u128) < 3 * top && 5 * (
                self.scores[n - 2] as u128) < 3 * top && 5 * (self.scores[n - 3] as u128) < 3 * top;
                proof {
                    let s = self.scores@;
                    if n >= 4 {
                        assert(s[n - 1] == s[n - 1] && s[n - 2] == s[n - 2] && s[n - 3] == s[n
                            - 3]);
                    }
                    assert(fallen == has_fallen(s));
                }
                self.bracketed = fallen;
                if !fallen && n as u64 <= self.m as u64 {
                    self.stage = Stage::Ready;
                    Motion::Drive { by: self.step, pause_ms: self.settle_ms }
                } else {
                    let stage = self.return_stage(n - 1);
                    self.go(stage)
                }
            },
            stage => self.go(stage),
        }
    }

    /// The scores so far.
    pub fn scores(&self) -> (r: Vec<u64>)
        ensures
            r@ == self@.scores,
    {
        let mut r: Vec<u64> = Vec::new();
        let mut i: usize = 0;
        while i < self.scores.len()
            invariant
                i <= self.scores@.len(),
                r@ == self.scores@.take(i as int),
            decreases self.scores.len() - i,
        {
            r.push(self.scores[i]);
            assert(self.scores@.take(i + 1) =~= self.scores@.take(i as int).push(
                self.scores@[i as int],
            ));
            i = i + 1;
        }
        assert(self.scores@.take(self.scores@.len() as int) =~= self.scores@);
        r
    }

    /// The place of the greatest score.
    pub fn best(&self) -> (r: usize)
        requires
            self.wf(),
        ensures
            r == peak(self@.scores),
            self@.scores.len() > 0 ==> r < self@.scores.len(),
    {
        proof {
            if self.scores@.len() > 0 {
                lemma_peak(self.scores@);
            }
        }
        self.best
    }

    /// The number of scores so far.
    pub fn count(&self) -> (r: usize)
        ensures
            r == self@.scores.len(),
    {
        self.scores.len()
    }

    /// The number of moves across the window.
    pub fn window(&self) -> (r: u32)
        ensures
            r == self@.m,
    {
        self.m
    }

    /// Whether the sweep ended because the peak lies behind.
    pub fn bracketed(&self) -> (r: bool)
        ensures
            r == self@.bracketed,
    {
        self.bracketed
    }

    /// Whether the next call of [`Sweep::next`] takes a score.
    pub fn awaits_score(&self) -> (r: bool)
        ensures
            r == (self@.stage is Scoring),
    {
        match self.stage {
            Stage::Scoring => true,
            _ => false,
        }
    }
}

/// How far a motion takes the lens.
pub open spec fn displacement(motion: Motion) -> int {
    match motion {
        Motion::Drive { by, .. } => by as int,
        _ => 0,
    }
}

/// The sweep after the given calls of [`Sweep::next`].
pub open spec fn sweep_after(s: SweepModel, calls: Seq<(bool, Option<u64>)>) -> SweepModel
    decreases calls.len(),
{
    if calls.len() == 0 {
        s
    } else {
        sweep_after(s, calls.drop_last()).advanced(calls.last().0, calls.last().1).1
    }
}

/// Where the lens is after them, from where it was.
pub open spec fn lens_after(s: SweepModel, calls: Seq<(bool, Option<u64>)>) -> int
    decreases calls.len(),
{
    if calls.len() == 0 {
        0
    } else {
        lens_after(s, calls.drop_last()) + displacement(
            sweep_after(s, calls.drop_last()).advanced(calls.last().0, calls.last().1).0,
        )
    }
}

/// Where place `i` of a window lies, from its middle.
pub open spec fn place(s: SweepModel, i: int) -> int {
    (i - s.m / 2) * s.step
}

/// Where the lens has to be, by what the sweep knows.
spec fn expected(s: SweepModel) -> int {
    match s.stage {
        Stage::Overshoot { left } => (left - s.m / 2) * s.step,
        Stage::Ready => place(s, s.scores.len() as int),
        Stage::Scoring => place(s, s.scores.len() as int),
        Stage::Return { left } => place(s, left as int),
        Stage::Land { left } => place(s, peak(s.scores) - left),
        Stage::Over => place(s, peak(s.scores)),
    }
}

proof fn lemma_place_step(s: SweepModel, i: int)
    ensures
        place(s, i + 1) == place(s, i) + s.step,
        place(s, i - 1) == place(s, i) - s.step,
{
    let (h, d) = ((s.m / 2) as int, s.step as int);
    assert((i + 1 - h) * d == (i - h) * d + d && (i - 1 - h) * d == (i - h) * d - d)
        by (nonlinear_arith);
}

proof fn lemma_lens_moves_as_expected(s: SweepModel, cancelled: bool, measured: Option<u64>)
    requires
        s.wf(),
    ensures
        ({
            let (motion, t) = s.advanced(cancelled, measured);
            &&& t.wf()
            &&& t.step == s.step
            &&& t.m == s.m
            &&& expected(t) == expected(s) + displacement(motion)
        }),
{
    let (motion, t) = s.advanced(cancelled, measured);
    if s.scores.len() > 0 {
        lemma_peak(s.scores);
    }
    let pushed = s.scores.push(
        match measured {
            Some(v) => v,
            None => 0,
        },
    );
    lemma_peak(pushed);
    let k = s.scores.len() as int;
    lemma_place_step(s, k);
    match s.stage {
        Stage::Overshoot { left } => {
            lemma_place_step(s, left as int);
            assert(place(s, left as int) == (left - s.m / 2) * s.step);
            assert(place(s, 0) == (0 - s.m / 2) * s.step);
        },
        Stage::Return { left } => {
            lemma_place_step(s, left as int);
        },
        Stage::Land { left } => {
            lemma_place_step(s, peak(s.scores) - left);
        },
        Stage::Ready => {
            if cancelled {
                lemma_place_step(s, peak(s.scores));
                if k == 0 {
                    assert(peak(s.scores) == 0);
                }
            }
        },
        Stage::Scoring => {
            lemma_place_step(s, peak(pushed));
            lemma_place_step(s, 0);
        },
        Stage::Over => {},
    }
}

proof fn lemma_lens_is_where_expected(
    step: i32,
    m: u32,
    settle_ms: u64,
    move_ms: u64,
    calls: Seq<(bool, Option<u64>)>,
)
    requires
        1 <= step,
        2 <= m < u32::MAX,
    ensures
        ({
            let s = new_sweep(step, m, settle_ms, move_ms);
            let t = sweep_after(s, calls);
            &&& t.wf()
            &&& t.step == step
            &&& t.m == m
            &&& lens_after(s, calls) == expected(t)
        }),
    decreases calls.len(),
{
    let s = new_sweep(step, m, settle_ms, move_ms);
    if calls.len() == 0 {
        assert((m / 2 - m / 2) * step == 0) by (nonlinear_arith);
    } else {
        lemma_lens_is_where_expected(step, m, settle_ms, move_ms, calls.drop_last());
        lemma_lens_moves_as_expected(
            sweep_after(s, calls.drop_last()),
            calls.last().0,
            calls.last().1,
        );
    }
}

/// Whatever the scores are, and whether the sweep ends early or is cancelled: score `i` is
/// measured at place `i` of the window, and at the end the lens stands at the place where
/// the greatest score was measured.
pub proof fn law_lens_lands_on_the_peak(
    step: i32,
    m: u32,
    settle_ms: u64,
    move_ms: u64,
    calls: Seq<(bool, Option<u64>)>,
)
    requires
        1 <= step,
        2 <= m < u32::MAX,
    ensures
        ({
            let s = new_sweep(step, m, settle_ms, move_ms);
            let t = sweep_after(s, calls);
            &&& t.stage is Scoring ==> lens_after(s, calls) == place(s, t.scores.len() as int)
            &&& t.stage is Over ==> lens_after(s, calls) == place(s, peak(t.scores))
        }),
{
    lemma_lens_is_where_expected(step, m, settle_ms, move_ms, calls);
}

impl SweepModel {
    /// How many calls the sweep can still take.
    pub open spec fn calls_left(self) -> int {
        let k = self.scores.len();
        match self.stage {
            Stage::Overshoot { left } => left + 4 * self.m + 6,
            Stage::Ready => 2 * (self.m + 1 - k) + 2 * self.m + 3,
            Stage::Scoring => 2 * (self.m + 1 - k) + 2 * self.m + 2,
            Stage::Return { left } => left + self.m + 1,
            Stage::Land { left } => left as int,
            Stage::Over => 0,
        }
    }
}

/// A sweep comes to an end: every call leaves fewer.
pub proof fn law_sweep_ends(s: SweepModel, cancelled: bool, measured: Option<u64>)
    requires
        s.wf(),
        !(s.stage is Over),
    ensures
        s.advanced(cancelled, measured).1.wf(),
        0 <= s.advanced(cancelled, measured).1.calls_left() < s.calls_left(),
        s.advanced(cancelled, measured).0 is Done ==> s.advanced(cancelled, measured).1.stage is Over,
{
    lemma_lens_moves_as_expected(s, cancelled, measured);
    if s.scores.len() > 0 {
        lemma_peak(s.scores);
    }
    lemma_peak(
        s.scores.push(
            match measured {
                Some(v) => v,
                None => 0,
            },
        ),
    );
}

/// A sweep goes on to the next place after each score, until it has one more score than the
/// window has moves, or until the peak is past: until there are four scores and each of the
/// last three is under six tenths of some score. A score that is missing counts as nought.
pub proof fn law_sweep_goes_on_until_the_peak_is_past(s: SweepModel, cancelled: bool, v: u64)
    requires
        s.wf(),
        s.stage is Scoring,
    ensures
        ({
            let (motion, t) = s.advanced(cancelled, Some(v));
            let sc = s.scores.push(v);
            let n = sc.len() as int;
            let past = n >= 4 && exists|j: int|
                0 <= j < n && 5 * sc[n - 3] < 3 * #[trigger] sc[j] && 5 * sc[n - 2] < 3 * sc[j] && 5
                    * sc[n - 1] < 3 * sc[j];
            &&& t.scores == sc
            &&& t.bracketed == past
            &&& t.step == s.step && t.m == s.m && t.settle_ms == s.settle_ms && t.move_ms == s.move_ms
            &&& if !past && n <= s.m {
                &&& t.stage is Ready
                &&& motion == (Motion::Drive { by: s.step, pause_ms: s.settle_ms })
            } else {
                &&& t.stage is Return || t.stage is Land || t.stage is Over
                &&& !(motion is Measure)
            }
        }),
        s.advanced(cancelled, None) == s.advanced(cancelled, Some(0)),
{
    let sc = s.scores.push(v);
    let n = sc.len() as int;
    lemma_peak(sc);
    let k = peak(sc);
    assert(0 <= k < n);
    if n >= 4 {
        assert(sc[n - 1] == sc[n - 1] && sc[n - 2] == sc[n - 2] && sc[n - 3] == sc[n - 3]);
        if has_fallen(sc) {
            assert(5 * sc[n - 3] < 3 * sc[k] && 5 * sc[n - 2] < 3 * sc[k] && 5 * sc[n - 1] < 3
                * sc[k]);
        }
        if exists|j: int|
            0 <= j < n && 5 * sc[n - 3] < 3 * #[trigger] sc[j] && 5 * sc[n - 2] < 3 * sc[j] && 5 * sc[n
                - 1] < 3 * sc[j] {
            let j = choose|j: int|
                0 <= j < n && 5 * sc[n - 3] < 3 * #[trigger] sc[j] && 5 * sc[n - 2] < 3 * sc[j] && 5
                    * sc[n - 1] < 3 * sc[j];
            assert(sc[j] <= sc[k]);
            assert forall|i: int| n - 3 <= i < n implies 5 * #[trigger] sc[i] < 3 * sc[k] by {}
        }
    }
}

/// Elsewhere a sweep keeps its scores. It measures at every place that it reaches, unless it is
/// cancelled there; then it measures no more. Whatever else it asks for is a move of its own
/// size: nearer before the first place and on the way back, farther on the way to the peak.
pub proof fn law_sweep_moves_by_its_step(s: SweepModel, cancelled: bool, measured: Option<u64>)
    requires
        s.wf(),
        !(s.stage is Scoring),
    ensures
        ({
            let (motion, t) = s.advanced(cancelled, measured);
            &&& t == (SweepModel { stage: t.stage, ..s })
            &&& match s.stage {
                Stage::Overshoot { .. } => {
                    motion == (Motion::Drive { by: (-s.step) as i32, pause_ms: s.move_ms })
                },
                Stage::Ready => if cancelled {
                    !(motion is Measure) && (t.stage is Return || t.stage is Land || t.stage is Over)
                } else {
                    motion is Measure && t.stage is Scoring
                },
                Stage::Scoring => true,
                Stage::Return { .. } => {
                    &&& motion == (Motion::Drive { by: (-s.step) as i32, pause_ms: s.move_ms })
                    &&& t.stage is Return || t.stage is Land || t.stage is Over
                },
                Stage::Land { .. } => {
                    &&& motion == (Motion::Drive { by: s.step, pause_ms: s.move_ms })
                    &&& t.stage is Land || t.stage is Over
                },
                Stage::Over => motion is Done && t.stage is Over,
            }
        }),
{
}

/// The window of a sweep lies around where the lens was: it begins half of its moves nearer, and
/// nothing is measured before that.
pub proof fn law_sweep_begins_half_a_window_nearer(
    step: i32,
    m: u32,
    settle_ms: u64,
    move_ms: u64,
    calls: Seq<(bool, Option<u64>)>,
)
    requires
        1 <= step,
        2 <= m < u32::MAX,
        ({
            let t = sweep_after(new_sweep(step, m, settle_ms, move_ms), calls);
            (t.stage is Ready || t.stage is Scoring) && t.scores.len() == 0
        }),
    ensures
        lens_after(new_sweep(step, m, settle_ms, move_ms), calls) == -(m / 2) * step,
{
    lemma_lens_is_where_expected(step, m, settle_ms, move_ms, calls);
}

} // verus!
