//! Finding the focus: wide sweeps with great moves first, then ever finer ones around the
//! peak, and a second try where the lens did not come to rest on it.
use vstd::prelude::*;

use crate::swaf::{progress_line, whole_score, SwAfParams};
use crate::sweep::{
    law_peak_is_the_greatest, law_sweep_ends, new_sweep, peak, Motion, Sweep, SweepModel,
};
use crate::text::decimal;

verus! {

/// Where the search stands.
#[derive(Clone, Copy, Debug, PartialEq, Eq, Structural)]
pub enum LockStage {
    /// A wide sweep over `n` moves.
    Coarse {
        /// How many.
        n: u32,
    },
    /// A finer sweep.
    Zoom {
        /// The size of its moves.
        step: i32,
    },
    /// Letting the lens settle.
    Settle,
    /// Measuring where it came to rest.
    Check,
    /// The search is over.
    Over,
}

/// What the search asks for.
#[derive(Clone, Copy, Debug, PartialEq, Eq, Structural)]
pub enum LockStep {
    /// Move the lens, farther where positive, and pause so many milliseconds.
    Drive {
        /// How far.
        by: i32,
        /// The pause.
        pause_ms: u64,
    },
    /// Measure the sharpness.
    Measure,
    /// Pause so many milliseconds.
    Pause {
        /// How many.
        ms: u64,
    },
    /// It is over.
    Finish,
}

/// What a search stands for.
pub struct LockModel {
    pub p: SwAfParams,
    /// Which try it is.
    pub pass: u32,
    pub stage: LockStage,
    pub sweep: SweepModel,
    /// The scores of the wide sweep.
    pub coarse: Seq<u64>,
    /// The scores of the finest sweep.
    pub fine: Seq<u64>,
    /// The sharpness where the lens came to rest.
    pub score: u64,
}

/// The score at a place of a list, nought where there is none.
pub open spec fn score_at(s: Seq<u64>, i: int) -> u64 {
    if 0 <= i < s.len() {
        s[i]
    } else {
        0
    }
}

/// The greatest score of a list, nought for an empty one.
pub open spec fn top(s: Seq<u64>) -> u64 {
    score_at(s, peak(s))
}

/// The greater of two.
pub open spec fn greater(a: u64, b: u64) -> u64 {
    if a > b {
        a
    } else {
        b
    }
}

/// Whether a peak lies well inside its window: a quarter of it away from either end.
pub open spec fn is_inside(len: int, k: int) -> bool {
    let end = if len > 0 {
        len - 1
    } else {
        0
    };
    let margin = if end / 4 < 1 {
        1
    } else {
        end / 4
    };
    margin <= k && k + margin <= end
}

/// The size of the moves behind moves of the given size: half, but not under the finest.
pub open spec fn finer(step: int, fine: int) -> int {
    if step / 2 < fine {
        fine
    } else {
        step / 2
    }
}

/// How many moves of size `next` cover the last move both ways, with some to spare.
pub open spec fn zoom_moves(step: int, next: int) -> int {
    let m = 2 * step / next;
    if m < 4 {
        6
    } else {
        m + 2
    }
}

impl LockModel {
    /// The size of the moves of the wide sweep.
    pub open spec fn first_step(self) -> i32 {
        self.p.step
    }

    /// A new sweep, and its first motion.
    pub open spec fn swept(self, stage: LockStage, step: i32, m: u32, settle_ms: u64) -> (
        LockStep,
        LockModel,
    ) {
        let (motion, sweep) = new_sweep(step, m, settle_ms, self.p.move_ms).advanced(false, None);
        (as_step(motion), LockModel { stage, sweep, ..self })
    }

    /// The finer sweep behind moves of the given size, until they are the finest or the
    /// search is cancelled; then the lens settles.
    pub open spec fn zoomed(self, step: i32, cancelled: bool) -> (LockStep, LockModel) {
        if step > self.p.fine_step && !cancelled {
            let next = finer(step as int, self.p.fine_step as int);
            self.swept(
                LockStage::Zoom { step: next as i32 },
                next as i32,
                zoom_moves(step as int, next) as u32,
                self.p.fine_settle_ms,
            )
        } else {
            (
                LockStep::Pause { ms: self.p.settle_ms },
                LockModel { stage: LockStage::Settle, ..self },
            )
        }
    }

    /// Whether the wide sweep has caught the peak, or is not to be widened.
    pub open spec fn is_caught(self, n: int, cancelled: bool) -> bool {
        let s = self.sweep.scores;
        ||| self.sweep.bracketed
        ||| is_inside(s.len() as int, peak(s))
        ||| n >= 2 * self.p.n
        ||| cancelled
    }

    /// The search behind a sweep that is over.
    pub open spec fn sweep_over(self, cancelled: bool) -> (LockStep, LockModel) {
        match self.stage {
            LockStage::Coarse { n } => {
                let s = self.sweep.scores;
                if !self.is_caught(n as int, cancelled) {
                    let wider = if 2 * n > 2 * self.p.n {
                        2 * self.p.n
                    } else {
                        2 * n
                    };
                    self.swept(
                        LockStage::Coarse { n: wider as u32 },
                        self.first_step(),
                        wider as u32,
                        self.p.settle_ms,
                    )
                } else if cancelled {
                    (
                        LockStep::Finish,
                        LockModel {
                            stage: LockStage::Over,
                            coarse: s,
                            fine: Seq::empty(),
                            score: top(s),
                            ..self
                        },
                    )
                } else {
                    (LockModel { coarse: s, fine: s, ..self }).zoomed(self.first_step(), cancelled)
                }
            },
            LockStage::Zoom { step } => (LockModel { fine: self.sweep.scores, ..self }).zoomed(
                step,
                cancelled,
            ),
            _ => (LockStep::Finish, self),
        }
    }

    /// The search behind the last measurement. It is over where the lens came to rest on at
    /// least six tenths of the best that was seen, on the second try, or where it is
    /// cancelled.
    pub open spec fn checked(self, cancelled: bool, measured: Option<u64>) -> (LockStep, LockModel) {
        let score = match measured {
            Some(v) => v,
            None => top(self.fine),
        };
        let best = greater(top(self.coarse), top(self.fine));
        if self.pass >= 2 || 5 * score >= 3 * best || cancelled {
            (LockStep::Finish, LockModel { stage: LockStage::Over, score, ..self })
        } else {
            (LockModel { pass: (self.pass + 1) as u32, ..self }).swept(
                LockStage::Coarse { n: self.p.n },
                self.first_step(),
                self.p.n,
                self.p.settle_ms,
            )
        }
    }

    /// What the search asks for next, and the search behind it.
    pub open spec fn advanced(self, cancelled: bool, measured: Option<u64>) -> (LockStep, LockModel) {
        match self.stage {
            LockStage::Coarse { .. } | LockStage::Zoom { .. } => {
                let (motion, sweep) = self.sweep.advanced(cancelled, measured);
                let after = LockModel { sweep, ..self };
                if motion is Done {
                    after.sweep_over(cancelled)
                } else {
                    (as_step(motion), after)
                }
            },
            LockStage::Settle => (LockStep::Measure, LockModel { stage: LockStage::Check, ..self }),
            LockStage::Check => self.checked(cancelled, measured),
            LockStage::Over => (LockStep::Finish, self),
        }
    }

    /// The search is sound.
    pub open spec fn wf(self) -> bool {
        &&& self.p.wf()
        &&& 1 <= self.pass <= 2
        &&& self.sweep.wf()
        &&& match self.stage {
            LockStage::Coarse { n } => self.p.n <= n <= 2 * self.p.n,
            LockStage::Zoom { step } => self.p.fine_step <= step < self.first_step(),
            _ => true,
        }
    }
}

/// A motion of a sweep as a step of the search.
pub open spec fn as_step(motion: Motion) -> LockStep {
    match motion {
        Motion::Drive { by, pause_ms } => LockStep::Drive { by, pause_ms },
        Motion::Measure => LockStep::Measure,
        Motion::Done => LockStep::Finish,
    }
}

fn step_of(motion: Motion) -> (r: LockStep)
    ensures
        r == as_step(motion),
{
    match motion {
        Motion::Drive { by, pause_ms } => LockStep::Drive { by, pause_ms },
        Motion::Measure => LockStep::Measure,
        Motion::Done => LockStep::Finish,
    }
}

/// A search for the focus.
#[derive(Debug)]
pub struct AfLock {
    p: SwAfParams,
    pass: u32,
    stage: LockStage,
    sweep: Sweep,
    coarse: Vec<u64>,
    coarse_best: usize,
    fine: Vec<u64>,
    fine_best: usize,
    score: u64,
}

impl View for AfLock {
    type V = LockModel;

    closed spec fn view(&self) -> LockModel {
        LockModel {
            p: self.p,
            pass: self.pass,
            stage: self.stage,
            sweep: self.sweep@,
            coarse: self.coarse@,
            fine: self.fine@,
            score: self.score,
        }
    }
}

/// A search that has not begun.
pub open spec fn new_lock(p: SwAfParams) -> LockModel {
    LockModel {
        p,
        pass: 1,
        stage: LockStage::Coarse { n: p.n },
        sweep: new_sweep(p.step, p.n, p.settle_ms, p.move_ms),
        coarse: Seq::empty(),
        fine: Seq::empty(),
        score: 0,
    }
}

proof fn lemma_zoom_size(step: int, fine: int)
    requires
        1 <= fine < step,
    ensures
        fine <= finer(step, fine) < step,
        6 <= zoom_moves(step, finer(step, fine)) <= 8,
{
    let next = finer(step, fine);
    assert(2 * step / next <= 6) by (nonlinear_arith)
        requires
            1 <= next,
            3 * next >= step,
    ;
}

/// The score at a place of a list, nought where there is none.
fn pick_score(s: &Vec<u64>, i: usize) -> (r: u64)
    ensures
        r == score_at(s@, i as int),
{
    if i < s.len() {
        s[i]
    } else {
        0
    }
}

/// A copy of a list of scores.
fn copy(s: &Vec<u64>) -> (r: Vec<u64>)
    ensures
        r@ == s@,
{
    let mut r: Vec<u64> = Vec::new();
    r.extend_from_slice(s.as_slice());
    assert(r@ =~= s@);
    r
}

impl AfLock {
    /// The search is sound.
    pub closed spec fn wf(self) -> bool {
        &&& self@.wf()
        &&& self.sweep.wf()
        &&& self.coarse_best == peak(self.coarse@)
        &&& self.fine_best == peak(self.fine@)
    }

    /// A search that has not begun.
    pub fn new(p: &SwAfParams) -> (r: AfLock)
        requires
            p.wf(),
        ensures
            r.wf(),
            r@ == new_lock(*p),
    {
        let r = AfLock {
            p: *p,
            pass: 1,
            stage: LockStage::Coarse { n: p.n },
            sweep: Sweep::new(p.step, p.n, p.settle_ms, p.move_ms),
            coarse: Vec::new(),
            coarse_best: 0,
            fine: Vec::new(),
            fine_best: 0,
            score: 0,
        };
        assert(r@.coarse =~= Seq::empty() && r@.fine =~= Seq::empty());
        r
    }

    fn start(&mut self, stage: LockStage, step: i32, m: u32, settle_ms: u64) -> (r: LockStep)
        requires
            old(self).wf(),
            1 <= step,
            2 <= m < u32::MAX,
            match stage {
                LockStage::Coarse { n } => old(self)@.p.n <= n <= 2 * old(self)@.p.n,
                LockStage::Zoom { step } => {
                    old(self)@.p.fine_step <= step < old(self)@.first_step()
                },
                _ => true,
            },
        ensures
            final(self).wf(),
            r == old(self)@.swept(stage, step, m, settle_ms).0,
            final(self)@ == old(self)@.swept(stage, step, m, settle_ms).1,
    {
        let mut sweep = Sweep::new(step, m, settle_ms, self.p.move_ms);
        let motion = sweep.next(false, None);
        self.sweep = sweep;
        self.stage = stage;
        step_of(motion)
    }

    fn zoom(&mut self, step: i32, cancelled: bool) -> (r: LockStep)
        requires
            old(self).wf(),
            old(self)@.p.fine_step <= step <= old(self)@.first_step(),
        ensures
            final(self).wf(),
            r == old(self)@.zoomed(step, cancelled).0,
            final(self)@ == old(self)@.zoomed(step, cancelled).1,
    {
        if step > self.p.fine_step && !cancelled {
            proof {
                lemma_zoom_size(step as int, self.p.fine_step as int);
            }
            let half = step / 2;
            let next = if half < self.p.fine_step {
                self.p.fine_step
            } else {
                half
            };
            let k: i64 = 2 * (step as i64) / (next as i64);
            let m: u32 = if k < 4 {
                6
            } else {
                (k + 2) as u32
            };
            let settle_ms = self.p.fine_settle_ms;
            self.start(LockStage::Zoom { step: next }, next, m, settle_ms)
        } else {
            self.stage = LockStage::Settle;
            LockStep::Pause { ms: self.p.settle_ms }
        }
    }

    fn after_sweep(&mut self, cancelled: bool) -> (r: LockStep)
        requires
            old(self).wf(),
            old(self)@.stage is Coarse || old(self)@.stage is Zoom,
        ensures
            final(self).wf(),
            r == old(self)@.sweep_over(cancelled).0,
            final(self)@ == old(self)@.sweep_over(cancelled).1,
    {
        let scores = self.sweep.scores();
        let best = self.sweep.best();
        match self.stage {
            LockStage::Coarse { n } => {
                let end: usize = if scores.len() > 0 {
                    scores.len() - 1
                } else {
                    0
                };
                let margin: usize = if end / 4 < 1 {
                    1
                } else {
                    end / 4
                };
                proof {
                    if scores@.len() > 0 {
                        law_peak_is_the_greatest(scores@);
                    }
                }
                let inside = margin <= best && best <= end && end - best >= margin;
                assert(inside == is_inside(scores@.len() as int, best as int));
                if !(self.sweep.bracketed() || inside || n >= 2 * self.p.n || cancelled) {
                    let wider: u32 = if 2 * n > 2 * self.p.n {
                        2 * self.p.n
                    } else {
                        2 * n
                    };
                    let (step, settle_ms) = (self.p.step, self.p.settle_ms);
                    self.start(LockStage::Coarse { n: wider }, step, wider, settle_ms)
                } else if cancelled {
                    self.score = pick_score(&scores, best);
                    self.coarse = scores;
                    self.coarse_best = best;
                    self.fine = Vec::new();
                    self.fine_best = 0;
                    self.stage = LockStage::Over;
                    assert(self.fine@ =~= Seq::empty());
                    LockStep::Finish
                } else {
                    self.fine = copy(&scores);
                    self.fine_best = best;
                    self.coarse = scores;
                    self.coarse_best = best;
                    let step = self.p.step;
                    self.zoom(step, cancelled)
                }
            },
            LockStage::Zoom { step } => {
                self.fine = scores;
                self.fine_best = best;
                self.zoom(step, cancelled)
            },
            _ => LockStep::Finish,
        }
    }

    /// What to do next. `measured` is the score, right after a measurement.
    pub fn next(&mut self, cancelled: bool, measured: Option<u64>) -> (r: LockStep)
        requires
            old(self).wf(),
        ensures
            final(self).wf(),
            r == old(self)@.advanced(cancelled, measured).0,
            final(self)@ == old(self)@.advanced(cancelled, measured).1,
    {
        match self.stage {
            LockStage::Settle => {
                self.stage = LockStage::Check;
                LockStep::Measure
            },
            LockStage::Check => {
                let coarse_top = pick_score(&self.coarse, self.coarse_best);
                let fine_top = pick_score(&self.fine, self.fine_best);
                let score: u64 = match measured {
                    Some(v) => v,
                    None => fine_top,
                };
                let best: u64 = if coarse_top > fine_top {
                    coarse_top
                } else {
                    fine_top
                };
                if self.pass >= 2 || 5 * (score as u128) >= 3 * (best as u128) || cancelled {
                    self.score = score;
                    self.stage = LockStage::Over;
                    LockStep::Finish
                } else {
                    self.pass = self.pass + 1;
                    let (step, n, settle_ms) = (self.p.step, self.p.n, self.p.settle_ms);
                    self.start(LockStage::Coarse { n }, step, n, settle_ms)
                }
            },
            LockStage::Over => LockStep::Finish,
            _ => {
                let mut sweep = Sweep::new(1, 2, 0, 0);
                std::mem::swap(&mut sweep, &mut self.sweep);
                let motion = sweep.next(cancelled, measured);
                self.sweep = sweep;
                match motion {
                    Motion::Done => self.after_sweep(cancelled),
                    other => step_of(other),
                }
            },
        }
    }
}

/// What a search has found.
#[derive(Debug)]
pub struct AfResult {
    /// The place of the greatest score in the last sweep.
    pub best_index: usize,
    /// The sharpness where the lens came to rest.
    pub best_score: u64,
    /// The number of places in the last sweep.
    pub points: usize,
    /// The scores of the wide sweep.
    pub coarse_scores: Vec<u64>,
    /// The scores of the finest sweep; none where the search was cancelled before.
    pub fine_scores: Vec<u64>,
}

impl LockModel {
    /// The scores of the last sweep.
    pub open spec fn last_scores(self) -> Seq<u64> {
        if self.fine.len() == 0 {
            self.coarse
        } else {
            self.fine
        }
    }

    /// What the sweep that runs is called.
    pub open spec fn phase(self) -> Seq<char> {
        match self.stage {
            LockStage::Zoom { step } => if step == self.p.fine_step {
                "fine"@
            } else {
                "zoom"@
            },
            _ => "coarse"@,
        }
    }
}

impl AfLock {
    /// What was found.
    pub fn result(&self) -> (r: AfResult)
        requires
            self.wf(),
        ensures
            r.coarse_scores@ == self@.coarse,
            r.fine_scores@ == self@.fine,
            r.best_score == self@.score,
            r.best_index == peak(self@.last_scores()),
            r.points == self@.last_scores().len(),
    {
        let (best_index, points) = if self.fine.len() == 0 {
            (self.coarse_best, self.coarse.len())
        } else {
            (self.fine_best, self.fine.len())
        };
        AfResult {
            best_index,
            best_score: self.score,
            points,
            coarse_scores: copy(&self.coarse),
            fine_scores: copy(&self.fine),
        }
    }

    /// The sharpness where the lens came to rest.
    pub fn score(&self) -> (r: u64)
        ensures
            r == self@.score,
    {
        self.score
    }

    /// How far the sweep is that is about to take a score, as one line of JSON. Nothing where
    /// the score is that of the last measurement.
    pub fn progress(&self, score: u64) -> (r: Option<String>)
        ensures
            match r {
                Some(line) => {
                    &&& self@.stage is Coarse || self@.stage is Zoom
                    &&& self@.sweep.stage is Scoring
                    &&& line@ == "{\"type\":\"af_progress\",\"phase\":\""@ + self@.phase()
                        + "\",\"i\":"@ + decimal(self@.sweep.scores.len()) + ",\"n\":"@ + decimal(
                        self@.sweep.m as nat,
                    ) + ",\"score\":"@ + decimal(whole_score(score as int) as nat) + "}"@
                },
                None => !((self@.stage is Coarse || self@.stage is Zoom) && self@.sweep.stage
                    is Scoring),
            },
    {
        let phase = match self.stage {
            LockStage::Coarse { .. } => "coarse",
            LockStage::Zoom { step } => if step == self.p.fine_step {
                "fine"
            } else {
                "zoom"
            },
            _ => {
                return None;
            },
        };
        if self.sweep.awaits_score() {
            Some(progress_line(phase, self.sweep.count(), self.sweep.window(), score))
        } else {
            None
        }
    }
}

impl LockModel {
    /// How many sweeps, and other things to do, this try can still take.
    pub open spec fn rounds_left(self) -> int {
        match self.stage {
            LockStage::Coarse { n } => 3 + self.first_step() + 2 * self.p.n - n,
            LockStage::Zoom { step } => 2 + step,
            LockStage::Settle => 2,
            LockStage::Check => 1,
            LockStage::Over => 0,
        }
    }

    /// How many calls the sweep that runs can still take.
    pub open spec fn calls_left(self) -> int {
        match self.stage {
            LockStage::Coarse { .. } | LockStage::Zoom { .. } => self.sweep.calls_left(),
            _ => 0,
        }
    }
}

/// A search comes to an end, whatever is measured: every call leaves fewer tries, or as many
/// with fewer rounds, or as many of these with fewer calls.
pub proof fn law_search_ends(s: LockModel, cancelled: bool, measured: Option<u64>)
    requires
        s.wf(),
        !(s.stage is Over),
    ensures
        ({
            let t = s.advanced(cancelled, measured).1;
            &&& t.wf()
            &&& 0 <= t.rounds_left()
            &&& 0 <= t.calls_left()
            &&& t.pass <= 2
            &&& {
                ||| t.pass > s.pass
                ||| t.pass == s.pass && t.rounds_left() < s.rounds_left()
                ||| t.pass == s.pass && t.rounds_left() == s.rounds_left() && t.calls_left()
                    < s.calls_left()
            }
        }),
{
    lemma_sweep_step(s.sweep, cancelled, measured);
    if s.sweep.stage is Over {
        assert(s.sweep.advanced(cancelled, measured).0 is Done);
    }
    match s.stage {
        LockStage::Coarse { n } => {
            lemma_new_sweep(s.p.step, s.p.n, s.p.settle_ms, s.p.move_ms);
            let wider = if 2 * n > 2 * s.p.n {
                2 * s.p.n
            } else {
                2 * n
            };
            lemma_new_sweep(s.p.step, wider as u32, s.p.settle_ms, s.p.move_ms);
            if s.p.step > s.p.fine_step {
                lemma_zoom_size(s.p.step as int, s.p.fine_step as int);
                let next = finer(s.p.step as int, s.p.fine_step as int);
                lemma_new_sweep(
                    next as i32,
                    zoom_moves(s.p.step as int, next) as u32,
                    s.p.fine_settle_ms,
                    s.p.move_ms,
                );
            }
        },
        LockStage::Zoom { step } => {
            if step > s.p.fine_step {
                lemma_zoom_size(step as int, s.p.fine_step as int);
                let next = finer(step as int, s.p.fine_step as int);
                lemma_new_sweep(
                    next as i32,
                    zoom_moves(step as int, next) as u32,
                    s.p.fine_settle_ms,
                    s.p.move_ms,
                );
            }
        },
        _ => {
            lemma_new_sweep(s.p.step, s.p.n, s.p.settle_ms, s.p.move_ms);
        },
    }
}

proof fn lemma_sweep_step(s: SweepModel, cancelled: bool, measured: Option<u64>)
    requires
        s.wf(),
    ensures
        s.advanced(cancelled, measured).1.wf(),
        !(s.stage is Over) ==> 0 <= s.advanced(cancelled, measured).1.calls_left() < s.calls_left(),
        s.advanced(cancelled, measured).0 is Done ==> s.advanced(cancelled, measured).1.stage is Over,
{
    if !(s.stage is Over) {
        law_sweep_ends(s, cancelled, measured);
    }
}

proof fn lemma_new_sweep(step: i32, m: u32, settle_ms: u64, move_ms: u64)
    requires
        1 <= step,
        2 <= m < u32::MAX,
    ensures
        ({
            let (motion, t) = new_sweep(step, m, settle_ms, move_ms).advanced(false, None);
            &&& t.wf()
            &&& 0 <= t.calls_left()
            &&& motion is Drive
        }),
{
    let s = new_sweep(step, m, settle_ms, move_ms);
    law_sweep_ends(s, false, None);
}

/// The greatest score of a list is in it, and no score is greater.
proof fn lemma_top(s: Seq<u64>)
    ensures
        s.len() == 0 ==> top(s) == 0,
        s.len() > 0 ==> s.contains(top(s)),
        forall|i: int| 0 <= i < s.len() ==> #[trigger] s[i] <= top(s),
{
    if s.len() > 0 {
        law_peak_is_the_greatest(s);
    }
}

/// A search that ends on its first try without being cancelled has come to rest on at least six
/// tenths of every score that its last wide sweep and its finest sweep have seen.
pub proof fn law_no_score_was_much_better(s: LockModel, measured: Option<u64>)
    requires
        s.wf(),
        s.pass == 1,
        !(s.stage is Over),
        s.advanced(false, measured).1.stage is Over,
    ensures
        ({
            let t = s.advanced(false, measured).1;
            &&& s.advanced(false, measured).0 is Finish
            &&& s.stage is Check
            &&& t.coarse == s.coarse
            &&& t.fine == s.fine
            &&& forall|i: int| 0 <= i < s.coarse.len() ==> 5 * t.score >= 3 * #[trigger] s.coarse[i]
            &&& forall|i: int| 0 <= i < s.fine.len() ==> 5 * t.score >= 3 * #[trigger] s.fine[i]
        }),
{
    lemma_top(s.coarse);
    lemma_top(s.fine);
}

/// Where the lens came to rest is what the last measurement says; where that failed, it is
/// the greatest score of the finest sweep.
pub proof fn law_last_measurement_counts(s: LockModel, cancelled: bool, measured: Option<u64>)
    requires
        s.stage is Check,
        s.advanced(cancelled, measured).1.stage is Over,
    ensures
        ({
            let t = s.advanced(cancelled, measured).1;
            &&& measured matches Some(v) ==> t.score == v
            &&& measured is None ==> {
                &&& forall|i: int| 0 <= i < s.fine.len() ==> #[trigger] s.fine[i] <= t.score
                &&& if s.fine.len() == 0 {
                    t.score == 0
                } else {
                    s.fine.contains(t.score)
                }
            }
        }),
{
    lemma_top(s.fine);
}

/// Where the lens comes to rest on less than six tenths of some score that was seen, on the
/// first try, the search begins anew with a wide sweep: it drives the lens. Where it rests on
/// six tenths of every score, on the second try, or where it is cancelled, it is over.
pub proof fn law_second_try(s: LockModel, cancelled: bool, score: u64)
    requires
        s.wf(),
        s.stage is Check,
    ensures
        ({
            let (step, t) = s.advanced(cancelled, Some(score));
            let missed = {
                ||| exists|i: int| 0 <= i < s.coarse.len() && 5 * score < 3 * #[trigger] s.coarse[i]
                ||| exists|i: int| 0 <= i < s.fine.len() && 5 * score < 3 * #[trigger] s.fine[i]
            };
            if missed && s.pass == 1 && !cancelled {
                &&& step is Drive
                &&& t.pass == 2
                &&& t.stage == (LockStage::Coarse { n: s.p.n })
                &&& t.p == s.p
                &&& t.sweep.scores.len() == 0
                &&& t.sweep.step == s.p.step
                &&& t.sweep.m == s.p.n
            } else {
                step is Finish && t.stage is Over && t.score == score && t.pass == s.pass
            }
        }),
{
    lemma_top(s.coarse);
    lemma_top(s.fine);
    lemma_new_sweep(s.p.step, s.p.n, s.p.settle_ms, s.p.move_ms);
    if s.coarse.len() > 0 {
        let i = choose|i: int| 0 <= i < s.coarse.len() && s.coarse[i] == top(s.coarse);
        assert(s.coarse[i] == top(s.coarse));
    }
    if s.fine.len() > 0 {
        let i = choose|i: int| 0 <= i < s.fine.len() && s.fine[i] == top(s.fine);
        assert(s.fine[i] == top(s.fine));
    }
}

/// A search that ends without being cancelled has come to rest on at least six tenths of the
/// best that it saw, or was on its second try.
pub proof fn law_rest_is_near_the_best(s: LockModel, measured: Option<u64>)
    requires
        s.wf(),
        !(s.stage is Over),
        s.advanced(false, measured).1.stage is Over,
    ensures
        ({
            let t = s.advanced(false, measured).1;
            t.pass == 2 || 5 * t.score >= 3 * greater(top(t.coarse), top(t.fine))
        }),
{
}

/// Whether the search has begun a sweep: it drives the lens, with no scores yet.
pub open spec fn has_begun(s: LockModel, step: LockStep, by: int, m: int, settle_ms: u64) -> bool {
    &&& step == (LockStep::Drive { by: (-by) as i32, pause_ms: s.p.move_ms })
    &&& s.sweep.step == by
    &&& s.sweep.m == m
    &&& s.sweep.settle_ms == settle_ms
    &&& s.sweep.move_ms == s.p.move_ms
    &&& s.sweep.scores.len() == 0
    &&& !s.sweep.bracketed
}

/// Whether the search lets the lens settle.
pub open spec fn is_settling(s: LockModel, step: LockStep) -> bool {
    step == (LockStep::Pause { ms: s.p.settle_ms }) && s.stage is Settle
}

/// A wide sweep whose peak `k` lies within a quarter of the window from its end, and that did not
/// run past it, is made once more over twice as many moves, but over no more than twice the
/// number asked for. Otherwise its scores are kept. The search goes on with moves half as
/// great, or of the finest size where that is greater; where they are the finest already, the
/// lens settles. A search that is cancelled is over, with the greatest score.
pub proof fn law_wide_sweep_catches_the_peak(
    s: LockModel,
    cancelled: bool,
    measured: Option<u64>,
    n: u32,
    k: int,
)
    requires
        s.wf(),
        s.stage == (LockStage::Coarse { n }),
        s.sweep.advanced(cancelled, measured).0 is Done,
        ({
            let sc = s.sweep.advanced(cancelled, measured).1.scores;
            &&& 0 <= k < sc.len()
            &&& forall|i: int| 0 <= i < sc.len() ==> #[trigger] sc[i] <= sc[k]
            &&& forall|i: int| 0 <= i < k ==> #[trigger] sc[i] < sc[k]
        }),
    ensures
        ({
            let (step, t) = s.advanced(cancelled, measured);
            let sc = s.sweep.advanced(cancelled, measured).1.scores;
            let margin = if (sc.len() - 1) / 4 > 1 {
                (sc.len() - 1) / 4
            } else {
                1
            };
            let inside = margin <= k && k <= sc.len() - 1 - margin;
            let past = s.sweep.advanced(cancelled, measured).1.bracketed;
            let fine = s.p.fine_step as int;
            &&& t.p == s.p && t.pass == s.pass
            &&& if cancelled {
                &&& step is Finish
                &&& t.stage is Over
                &&& t.coarse == sc
                &&& t.fine.len() == 0
                &&& t.score == sc[k]
            } else if !past && !inside && n < 2 * s.p.n {
                let wider = if n <= s.p.n {
                    2 * n
                } else {
                    2 * s.p.n
                };
                &&& t.stage == (LockStage::Coarse { n: wider as u32 })
                &&& has_begun(t, step, s.p.step as int, wider as int, s.p.settle_ms)
            } else {
                &&& t.coarse == sc
                &&& t.fine == sc
                &&& if s.p.step > fine {
                    let next = if s.p.step / 2 > fine {
                        s.p.step / 2
                    } else {
                        fine
                    };
                    &&& t.stage == (LockStage::Zoom { step: next as i32 })
                    &&& has_begun(
                        t,
                        step,
                        next,
                        2 + if 2 * s.p.step / next > 4 {
                            2 * s.p.step / next
                        } else {
                            4
                        },
                        s.p.fine_settle_ms,
                    )
                } else {
                    is_settling(t, step)
                }
            }
        }),
{
    let sc = s.sweep.advanced(cancelled, measured).1.scores;
    law_peak_is_the_greatest(sc);
    assert(sc[k] <= sc[peak(sc)] && sc[peak(sc)] <= sc[k]);
    assert(peak(sc) == k);
    lemma_new_sweep(s.p.step, s.p.n, s.p.settle_ms, s.p.move_ms);
    if s.p.step > s.p.fine_step {
        lemma_zoom_size(s.p.step as int, s.p.fine_step as int);
    }
}

/// A finer sweep leaves its scores behind; then comes one with moves half as great, or of the
/// finest size where that is greater. Behind the finest, or where the search is cancelled, the
/// lens settles, is measured, and the search is decided.
pub proof fn law_finer_sweeps_follow(
    s: LockModel,
    cancelled: bool,
    measured: Option<u64>,
    last: i32,
)
    requires
        s.wf(),
        s.stage == (LockStage::Zoom { step: last }),
        s.sweep.advanced(cancelled, measured).0 is Done,
    ensures
        ({
            let (step, t) = s.advanced(cancelled, measured);
            let fine = s.p.fine_step as int;
            &&& t.p == s.p && t.pass == s.pass
            &&& t.coarse == s.coarse
            &&& t.fine == s.sweep.advanced(cancelled, measured).1.scores
            &&& if last > fine && !cancelled {
                let next = if last / 2 > fine {
                    last / 2
                } else {
                    fine
                };
                &&& t.stage == (LockStage::Zoom { step: next as i32 })
                &&& has_begun(
                    t,
                    step,
                    next,
                    2 + if 2 * last / next > 4 {
                        2 * last / next
                    } else {
                        4
                    },
                    s.p.fine_settle_ms,
                )
            } else {
                is_settling(t, step)
            }
        }),
{
    if last > s.p.fine_step {
        lemma_zoom_size(last as int, s.p.fine_step as int);
    }
}

/// While a sweep runs, the search asks for what the sweep asks for. Once the lens has settled it
/// is measured. A search that is over stays so.
pub proof fn law_search_follows_its_sweep(s: LockModel, cancelled: bool, measured: Option<u64>)
    requires
        s.wf(),
    ensures
        ({
            let (step, t) = s.advanced(cancelled, measured);
            let (motion, sweep) = s.sweep.advanced(cancelled, measured);
            match s.stage {
                LockStage::Settle => {
                    step is Measure && t == (LockModel { stage: LockStage::Check, ..s })
                },
                LockStage::Check => true,
                LockStage::Over => step is Finish && t == s,
                _ => match motion {
                    Motion::Drive { by, pause_ms } => {
                        step == (LockStep::Drive { by, pause_ms }) && t == (LockModel { sweep, ..s })
                    },
                    Motion::Measure => step is Measure && t == (LockModel { sweep, ..s }),
                    Motion::Done => true,
                },
            }
        }),
{
}

/// The window of a finer sweep covers the last move to both sides, and its moves are smaller.
pub proof fn law_finer_window_covers_the_last_move(step: int, fine: int)
    requires
        1 <= fine < step,
    ensures
        ({
            let next = finer(step, fine);
            let m = zoom_moves(step, next);
            &&& fine <= next < step
            &&& (m / 2) * next >= step
            &&& (m - m / 2) * next >= step
        }),
{
    let next = finer(step, fine);
    let q = 2 * step / next;
    lemma_zoom_size(step, fine);
    assert(q * next > 2 * step - next && q <= 6) by (nonlinear_arith)
        requires
            q == 2 * step / next,
            1 <= next,
            3 * next >= step,
    ;
    let m = zoom_moves(step, next);
    let h = m / 2;
    assert(2 * h >= q + 1 && 2 * h * next > 2 * step - next) by (nonlinear_arith)
        requires
            q * next > 2 * step - next,
            1 <= next,
            m >= q + 2,
            h == m / 2,
    ;
    assert(h * next >= step) by (nonlinear_arith)
        requires
            2 * h >= q + 1,
            q * next > 2 * step - next,
            1 <= next,
    ;
    assert((m - h) * next >= h * next) by (nonlinear_arith)
        requires
            m - h >= h,
            1 <= next,
    ;
}

/// The last sweep is the finest one, or the wide one where there was none finer.
pub proof fn law_last_scores(s: LockModel)
    ensures
        s.fine.len() > 0 ==> s.last_scores() == s.fine,
        s.fine.len() == 0 ==> s.last_scores() == s.coarse,
{
}

/// The wide sweep, the ones behind it and the finest are told apart by name.
pub proof fn law_sweeps_are_named(s: LockModel)
    ensures
        s.stage is Coarse ==> s.phase() == "coarse"@,
        s.stage matches LockStage::Zoom { step } ==> s.phase() == (if step == s.p.fine_step {
            "fine"@
        } else {
            "zoom"@
        }),
{
}

} // verus!
