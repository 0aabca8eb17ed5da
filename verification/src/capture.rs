//! Taking pictures: single shots, timed exposures, intervals, brackets and multiple
//! exposures. The camera is worked from outside; what to do next is decided here.
use vstd::prelude::*;

use crate::autofocus::clamped;
use crate::body::BulbEncoding;
use crate::composite::{addable, blend_jpegs, blend_outcome, decodings, Blend};
use crate::jpeg::{decoding, jpeg_encoding, rgb_outcome};
use crate::json::{download_event, json_text_at, quote, quoted, string_of, text_at};
use crate::reply::{reply_with, Answer, Reply, INTERNAL_SERVER_ERROR};
use crate::text::{decimal, ends_with_any_case, ends_with_ignore_case, push_decimal, same_text};

verus! {

/// How a single picture is taken.
#[derive(Clone, Copy, Debug, PartialEq, Eq, Structural)]
pub enum CaptureKind {
    /// At once.
    Direct,
    /// After focusing.
    Focused,
}

/// How a picture is taken in the given focus mode, if it could be read: at once where the
/// focus is manual.
pub fn capture_kind(focus_mode: Option<u64>, manual: u64) -> (r: CaptureKind)
    ensures
        r == (if focus_mode == Some(manual) {
            CaptureKind::Direct
        } else {
            CaptureKind::Focused
        }),
{
    match focus_mode {
        Some(m) => if m == manual {
            CaptureKind::Direct
        } else {
            CaptureKind::Focused
        },
        None => CaptureKind::Focused,
    }
}

/// How long the shutter stays open for the seconds asked for: a second to a quarter of an
/// hour.
pub fn bulb_seconds(asked: u64) -> (r: u64)
    ensures
        r == clamped(asked as int, 1, 900),
{
    if asked < 1 {
        1
    } else if asked > 900 {
        900
    } else {
        asked
    }
}

/// The answer to a request for a timed exposure.
pub fn bulb_text(secs: u64) -> (r: String)
    ensures
        r@ == "bulb "@ + decimal(secs as nat) + "s"@,
{
    let mut r = String::new();
    r.append("bulb ");
    push_decimal(&mut r, secs);
    r.append("s");
    assert(r@ =~= "bulb "@ + decimal(secs as nat) + "s"@);
    r
}

/// The shutter speed that stands for a timed exposure.
pub fn bulb_speed(encoding: BulbEncoding) -> (r: u64)
    ensures
        r == match encoding {
            BulbEncoding::ShutterZero => 0int,
        },
{
    match encoding {
        BulbEncoding::ShutterZero => 0,
    }
}

/// A step of a timed exposure.
#[derive(Clone, Copy, Debug, PartialEq, Eq, Structural)]
pub enum BulbStep {
    /// Set the shutter speed and open the shutter.
    Open,
    /// Wait for so many seconds.
    Hold {
        /// How many.
        secs: u64,
    },
    /// Close the shutter.
    Close,
    /// Give the flag back.
    Release,
}

/// The step behind a step.
pub open spec fn bulb_next(step: BulbStep, ok: bool, secs: u64) -> BulbStep {
    match step {
        BulbStep::Open => if ok {
            BulbStep::Hold { secs }
        } else {
            BulbStep::Close
        },
        BulbStep::Hold { .. } => BulbStep::Close,
        BulbStep::Close => BulbStep::Release,
        BulbStep::Release => BulbStep::Release,
    }
}

/// The step behind a step, given whether it worked: a shutter that did not open is not
/// waited for, but closed all the same.
pub fn after_bulb(step: BulbStep, ok: bool, secs: u64) -> (r: BulbStep)
    ensures
        r == bulb_next(step, ok, secs),
{
    match step {
        BulbStep::Open => if ok {
            BulbStep::Hold { secs }
        } else {
            BulbStep::Close
        },
        BulbStep::Hold { .. } => BulbStep::Close,
        BulbStep::Close => BulbStep::Release,
        BulbStep::Release => BulbStep::Release,
    }
}

/// The step of a timed exposure after the given outcomes.
pub open spec fn bulb_after(oks: Seq<bool>, secs: u64) -> BulbStep
    decreases oks.len(),
{
    if oks.len() == 0 {
        BulbStep::Open
    } else {
        bulb_next(bulb_after(oks.drop_last(), secs), oks.last(), secs)
    }
}

/// However the camera answers, the shutter of a timed exposure is closed and the flag given
/// back: the flag never before the shutter was told to close, and both after three steps.
pub proof fn law_bulb_always_closes(oks: Seq<bool>, secs: u64)
    ensures
        bulb_after(oks, secs) is Release ==> exists|n: int|
            0 <= n < oks.len() && bulb_after(#[trigger] oks.take(n), secs) is Close,
        oks.len() >= 3 ==> bulb_after(oks, secs) is Release,
    decreases oks.len(),
{
    if oks.len() > 0 {
        let before = oks.drop_last();
        law_bulb_always_closes(before, secs);
        assert(oks.take(before.len() as int) =~= before);
        if bulb_after(before, secs) is Release {
            let n = choose|n: int|
                0 <= n < before.len() && bulb_after(#[trigger] before.take(n), secs) is Close;
            assert(oks.take(n) =~= before.take(n));
        }
        reveal_with_fuel(bulb_after, 4);
        if oks.len() == 3 {
            assert(before.drop_last().drop_last().len() == 0);
        }
    }
}

/// What an interval run asks for.
#[derive(Clone, Copy, Debug, PartialEq, Eq, Structural)]
pub enum IntervalStep {
    /// Take a picture.
    Shoot,
    /// Wait for a second.
    Wait,
    /// It is over.
    Finish,
}

/// Pictures at a fixed distance in time.
#[derive(Debug)]
pub struct IntervalRun {
    /// Seconds between two pictures.
    pub interval: u64,
    /// How many pictures.
    pub count: u32,
    /// How many were taken.
    pub shots: u32,
    /// Seconds waited since the last one.
    pub waited: u64,
}

impl IntervalRun {
    /// What comes next, unless the run is cancelled.
    pub open spec fn upcoming(self) -> IntervalStep {
        if self.shots >= self.count {
            IntervalStep::Finish
        } else if self.shots == 0 || self.waited >= self.interval {
            IntervalStep::Shoot
        } else {
            IntervalStep::Wait
        }
    }

    /// The run after that.
    pub open spec fn advanced(self) -> IntervalRun {
        match self.upcoming() {
            IntervalStep::Finish => self,
            IntervalStep::Shoot => IntervalRun { shots: (self.shots + 1) as u32, waited: 0, ..self },
            IntervalStep::Wait => IntervalRun { waited: (self.waited + 1) as u64, ..self },
        }
    }

    /// A run: a second to an hour between the pictures, one to ten thousand of them.
    pub fn new(interval: u64, count: u32) -> (r: IntervalRun)
        ensures
            r.interval == clamped(interval as int, 1, 3600),
            r.count == clamped(count as int, 1, 10000),
            r.shots == 0,
            r.waited == 0,
    {
        IntervalRun {
            interval: if interval < 1 {
                1
            } else if interval > 3600 {
                3600
            } else {
                interval
            },
            count: if count < 1 {
                1
            } else if count > 10000 {
                10000
            } else {
                count
            },
            shots: 0,
            waited: 0,
        }
    }

    /// What to do next. A cancelled run is over.
    pub fn next(&mut self, cancelled: bool) -> (r: IntervalStep)
        ensures
            r == (if cancelled {
                IntervalStep::Finish
            } else {
                old(self).upcoming()
            }),
            *final(self) == (if cancelled {
                *old(self)
            } else {
                old(self).advanced()
            }),
    {
        if cancelled || self.shots >= self.count {
            IntervalStep::Finish
        } else if self.shots == 0 || self.waited >= self.interval {
            self.shots = self.shots + 1;
            self.waited = 0;
            IntervalStep::Shoot
        } else {
            self.waited = self.waited + 1;
            IntervalStep::Wait
        }
    }

    /// The answer to the request for the run.
    pub fn text(&self) -> (r: String)
        ensures
            r@ == "interval "@ + decimal(self.count as nat) + "x@"@ + decimal(self.interval as nat)
                + "s"@,
    {
        let mut r = String::new();
        r.append("interval ");
        push_decimal(&mut r, self.count as u64);
        r.append("x@");
        push_decimal(&mut r, self.interval);
        r.append("s");
        assert(r@ =~= "interval "@ + decimal(self.count as nat) + "x@"@ + decimal(
            self.interval as nat,
        ) + "s"@);
        r
    }
}

/// A run after `n` steps that nobody cancelled.
pub open spec fn interval_after(run: IntervalRun, n: nat) -> IntervalRun
    decreases n,
{
    if n == 0 {
        run
    } else {
        interval_after(run, (n - 1) as nat).advanced()
    }
}

/// A run that nobody cancels takes as many pictures as asked for, the first at once, each
/// further one after waiting the whole interval, and is over behind the last: with `k`
/// pictures taken and `w` seconds waited since, it has made `(k - 1) * (interval + 1) + 1 + w`
/// steps.
pub proof fn law_interval_keeps_time(run: IntervalRun, k: int, w: int)
    requires
        run.shots == 0,
        run.waited == 0,
        1 <= run.interval,
        1 <= k <= run.count,
        0 <= w <= run.interval,
        k == run.count ==> w == 0,
    ensures
        ({
            let n = ((k - 1) * (run.interval + 1) + 1 + w) as nat;
            let s = interval_after(run, n);
            &&& s.shots == k
            &&& s.waited == w
            &&& s.interval == run.interval
            &&& s.count == run.count
            &&& s.upcoming() == (if k == run.count {
                IntervalStep::Finish
            } else if w < run.interval {
                IntervalStep::Wait
            } else {
                IntervalStep::Shoot
            })
        }),
    decreases k, w,
{
    let i = run.interval as int;
    let n = (k - 1) * (i + 1) + 1 + w;
    assert(n >= 1 && (k >= 2 ==> n - 1 == (k - 2) * (i + 1) + 1 + i + w)) by (nonlinear_arith)
        requires
            n == (k - 1) * (i + 1) + 1 + w,
            1 <= k,
            1 <= i,
            0 <= w,
    ;
    if w > 0 {
        law_interval_keeps_time(run, k, w - 1);
    } else if k > 1 {
        law_interval_keeps_time(run, k - 1, i);
    } else {
        assert(n == 1) by (nonlinear_arith)
            requires
                n == (k - 1) * (i + 1) + 1 + w,
                k == 1,
                w == 0,
        ;
        assert(interval_after(run, 0) == run);
    }
}

/// The places in a list of exposures that a bracket takes: evenly around `base`, kept
/// inside the list, one more below than above where their number is even.
pub open spec fn bracket_places(base: int, len: int, frames: int, step: int) -> Seq<int> {
    if len == 0 {
        Seq::empty()
    } else {
        let d = if step < 1 {
            1
        } else {
            step
        };
        Seq::new(frames as nat, |k: int| clamped(base + (k - frames / 2) * d, 0, len - 1))
    }
}

/// The places in a list of exposures that a bracket takes.
pub fn bracket_indices(base: usize, len: usize, frames: usize, step: usize) -> (r: Vec<usize>)
    ensures
        r@.len() == bracket_places(base as int, len as int, frames as int, step as int).len(),
        forall|k: int|
            0 <= k < r@.len() ==> #[trigger] r@[k] == bracket_places(
                base as int,
                len as int,
                frames as int,
                step as int,
            )[k],
        forall|k: int| 0 <= k < r@.len() ==> #[trigger] r@[k] < len,
{
    let mut r: Vec<usize> = Vec::new();
    if len == 0 {
        return r;
    }
    let d: usize = if step < 1 {
        1
    } else {
        step
    };
    let half: usize = frames / 2;
    let mut k: usize = 0;
    while k < frames
        invariant
            k <= frames,
            0 < len,
            half == frames / 2,
            1 <= d,
            d == (if step < 1 {
                1
            } else {
                step as int
            }),
            r@.len() == k,
            forall|j: int|
                0 <= j < k ==> #[trigger] r@[j] == bracket_places(
                    base as int,
                    len as int,
                    frames as int,
                    step as int,
                )[j],
            forall|j: int| 0 <= j < k ==> #[trigger] r@[j] < len,
        decreases frames - k,
    {
        let o: i128 = k as i128 - half as i128;
        let e: i128 = d as i128;
        assert(-0x8000_0000_0000_0000 * 0xFFFF_FFFF_FFFF_FFFF <= o * e <= 0x7FFF_FFFF_FFFF_FFFF
            * 0xFFFF_FFFF_FFFF_FFFF) by (nonlinear_arith)
            requires
                -0x8000_0000_0000_0000 <= o <= 0x7FFF_FFFF_FFFF_FFFF,
                0 <= e <= 0xFFFF_FFFF_FFFF_FFFF,
        ;
        let p: i128 = base as i128 + o * e;
        let top: i128 = len as i128 - 1;
        let q: i128 = if p < 0 {
            0
        } else if p > top {
            top
        } else {
            p
        };
        r.push(q as usize);
        k = k + 1;
    }
    r
}

/// The first place of a value in a list, or the middle of the list where it is not there.
pub open spec fn base_place(allowed: Seq<u64>, current: u64, i: int) -> int
    decreases allowed.len() - i,
{
    if i >= allowed.len() {
        allowed.len() as int / 2
    } else if allowed[i] == current {
        i
    } else {
        base_place(allowed, current, i + 1)
    }
}

/// The exposures of a bracket, in their order.
pub open spec fn bracket_values(allowed: Seq<u64>, current: u64, frames: int, step: int) -> Seq<u64> {
    let places = bracket_places(
        base_place(allowed, current, 0),
        allowed.len() as int,
        frames,
        step,
    );
    Seq::new(places.len(), |k: int| allowed[places[k]])
}

/// What a bracket asks for.
#[derive(Clone, Copy, Debug, PartialEq, Eq, Structural)]
pub enum BracketStep {
    /// Set this exposure, take a picture, and wait until it is saved.
    Expose(u64),
    /// Set the exposure from before.
    Restore(u64),
    /// It is over.
    Finish,
}

/// A bracket of exposures.
#[derive(Debug)]
pub struct BracketRun {
    /// The exposures, in their order.
    pub values: Vec<u64>,
    /// The exposure from before.
    pub base: u64,
    /// How many pictures were taken.
    pub done: usize,
    /// Whether the exposure from before was set again.
    pub restored: bool,
}

/// How many pictures a bracket has, and how far apart they lie.
pub fn bracket_size(frames: usize, step: usize) -> (r: (usize, usize))
    ensures
        r.0 == clamped(frames as int, 2, 9),
        r.1 == clamped(step as int, 1, 5),
{
    (
        if frames < 2 {
            2
        } else if frames > 9 {
            9
        } else {
            frames
        },
        if step < 1 {
            1
        } else if step > 5 {
            5
        } else {
            step
        },
    )
}

/// The place of the exposure that a bracket is laid around.
fn find_base(allowed: &Vec<u64>, current: u64) -> (r: usize)
    ensures
        r == base_place(allowed@, current, 0),
        allowed@.len() > 0 ==> r < allowed@.len(),
{
    let mut i: usize = 0;
    while i < allowed.len()
        invariant
            i <= allowed@.len(),
            base_place(allowed@, current, i as int) == base_place(allowed@, current, 0),
        decreases allowed.len() - i,
    {
        if allowed[i] == current {
            return i;
        }
        i = i + 1;
    }
    allowed.len() / 2
}

/// What a bracket stands for.
pub struct Bracket {
    pub values: Seq<u64>,
    pub base: u64,
    pub done: int,
    pub restored: bool,
}

impl View for BracketRun {
    type V = Bracket;

    open spec fn view(&self) -> Bracket {
        Bracket {
            values: self.values@,
            base: self.base,
            done: self.done as int,
            restored: self.restored,
        }
    }
}

impl Bracket {
    /// Progress is within bounds.
    pub open spec fn wf(self) -> bool {
        0 <= self.done <= self.values.len()
    }

    /// What comes next. A cancelled bracket takes no further picture, but sets the exposure
    /// from before again like any other.
    pub open spec fn upcoming(self, cancelled: bool) -> BracketStep {
        if self.restored {
            BracketStep::Finish
        } else if cancelled || self.done >= self.values.len() {
            BracketStep::Restore(self.base)
        } else {
            BracketStep::Expose(self.values[self.done])
        }
    }

    /// The bracket after that.
    pub open spec fn advanced(self, cancelled: bool) -> Bracket {
        match self.upcoming(cancelled) {
            BracketStep::Expose(_) => Bracket { done: self.done + 1, ..self },
            _ => Bracket { restored: true, ..self },
        }
    }
}

/// A bracket around the exposure `current`, none taken yet.
pub open spec fn planned(allowed: Seq<u64>, current: u64, frames: int, step: int) -> Bracket {
    Bracket {
        values: bracket_values(allowed, current, frames, step),
        base: current,
        done: 0,
        restored: false,
    }
}

impl BracketRun {
    /// A bracket around the current exposure. Nothing where the camera has none to choose
    /// from.
    pub fn new(allowed: &Vec<u64>, current: u64, frames: usize, step: usize) -> (r: Option<BracketRun>)
        ensures
            match r {
                Some(run) => {
                    &&& allowed@.len() > 0
                    &&& run@ == planned(allowed@, current, frames as int, step as int)
                    &&& run@.wf()
                },
                None => allowed@.len() == 0,
            },
    {
        if allowed.len() == 0 {
            return None;
        }
        let base = find_base(allowed, current);
        let places = bracket_indices(base, allowed.len(), frames, step);
        let mut values: Vec<u64> = Vec::new();
        let mut k: usize = 0;
        while k < places.len()
            invariant
                k <= places@.len(),
                forall|j: int| 0 <= j < places@.len() ==> #[trigger] places@[j] < allowed@.len(),
                values@.len() == k,
                forall|j: int| 0 <= j < k ==> #[trigger] values@[j] == allowed@[places@[j] as int],
            decreases places.len() - k,
        {
            assert(places@[k as int] < allowed@.len());
            values.push(allowed[places[k]]);
            k = k + 1;
        }
        assert(values@ =~= bracket_values(allowed@, current, frames as int, step as int));
        Some(BracketRun { values, base: current, done: 0, restored: false })
    }

    /// What to do next.
    pub fn next(&mut self, cancelled: bool) -> (r: BracketStep)
        requires
            old(self)@.wf(),
        ensures
            final(self)@.wf(),
            r == old(self)@.upcoming(cancelled),
            final(self)@ == old(self)@.advanced(cancelled),
    {
        if self.restored {
            BracketStep::Finish
        } else if cancelled || self.done >= self.values.len() {
            self.restored = true;
            BracketStep::Restore(self.base)
        } else {
            let v = self.values[self.done];
            self.done = self.done + 1;
            BracketStep::Expose(v)
        }
    }
}

/// The bracket after a number of steps, each with the word whether it was cancelled.
pub open spec fn bracket_after(b: Bracket, cancels: Seq<bool>) -> Bracket
    decreases cancels.len(),
{
    if cancels.len() == 0 {
        b
    } else {
        bracket_after(b, cancels.drop_last()).advanced(cancels.last())
    }
}

/// The exposure that the camera is left with after those steps.
pub open spec fn exposure_after(b: Bracket, cancels: Seq<bool>) -> u64
    decreases cancels.len(),
{
    if cancels.len() == 0 {
        b.base
    } else {
        match bracket_after(b, cancels.drop_last()).upcoming(cancels.last()) {
            BracketStep::Expose(v) => v,
            BracketStep::Restore(v) => v,
            BracketStep::Finish => exposure_after(b, cancels.drop_last()),
        }
    }
}

/// Whether it runs to its end or is cancelled at any point, a bracket leaves the camera with
/// the exposure that it found, after at most one step more than it has pictures.
pub proof fn law_bracket_restores_the_exposure(b: Bracket, cancels: Seq<bool>)
    requires
        b.wf(),
        b.done == 0,
        !b.restored,
    ensures
        ({
            let s = bracket_after(b, cancels);
            &&& s.wf()
            &&& s.base == b.base
            &&& s.values == b.values
            &&& s.restored ==> exposure_after(b, cancels) == b.base
            &&& !s.restored ==> s.done == cancels.len()
            &&& cancels.len() > b.values.len() ==> s.restored
        }),
    decreases cancels.len(),
{
    if cancels.len() > 0 {
        law_bracket_restores_the_exposure(b, cancels.drop_last());
    }
}

/// A bracket of an odd number of pictures that does not touch the ends of the list lies
/// evenly around the exposure that it starts from, which is its middle.
pub proof fn law_bracket_is_even(base: int, len: int, half: int, step: int, k: int)
    requires
        1 <= step,
        0 <= half,
        half * step <= base,
        base + half * step < len,
        0 <= k <= 2 * half,
    ensures
        ({
            let places = bracket_places(base, len, 2 * half + 1, step);
            &&& places.len() == 2 * half + 1
            &&& places[half] == base
            &&& places[k] - base == base - places[2 * half - k]
            &&& places[k] == base + (k - half) * step
        }),
{
    assert(-(half * step) <= (k - half) * step <= half * step && (2 * half - k - half) * step == -((
    k - half) * step) && (half - half) * step == 0) by (nonlinear_arith)
        requires
            1 <= step,
            0 <= half,
            0 <= k <= 2 * half,
    ;
    assert(len > 0) by (nonlinear_arith)
        requires
            half * step <= base,
            base + half * step < len,
            0 <= half,
            1 <= step,
    ;
    assert((2 * half + 1) / 2 == half);
}

proof fn lemma_base_place(allowed: Seq<u64>, current: u64, i: int)
    requires
        0 <= i <= allowed.len(),
        forall|j: int| 0 <= j < i ==> allowed[j] != current,
    ensures
        ({
            let base = base_place(allowed, current, i);
            if allowed.contains(current) {
                &&& 0 <= base < allowed.len()
                &&& allowed[base] == current
                &&& forall|j: int| 0 <= j < base ==> allowed[j] != current
            } else {
                base == allowed.len() / 2
            }
        }),
    decreases allowed.len() - i,
{
    if i < allowed.len() && allowed[i] != current {
        lemma_base_place(allowed, current, i + 1);
    }
}

/// A bracket is laid around one place of the list, `at`: the first that holds the current
/// exposure, or the middle one where none does. It has as many exposures as asked for. Each
/// lies one step behind the one before it, and half of them lie before that place; where the
/// list ends, its end is taken instead.
pub proof fn law_bracket_is_laid_around_the_current(
    allowed: Seq<u64>,
    current: u64,
    frames: int,
    step: int,
) -> (at: int)
    requires
        allowed.len() > 0,
        0 <= frames,
    ensures
        0 <= at < allowed.len(),
        allowed.contains(current) ==> allowed[at] == current,
        allowed.contains(current) ==> forall|j: int| 0 <= j < at ==> allowed[j] != current,
        !allowed.contains(current) ==> at == allowed.len() / 2,
        planned(allowed, current, frames, step).base == current,
        planned(allowed, current, frames, step).done == 0,
        !planned(allowed, current, frames, step).restored,
        planned(allowed, current, frames, step).values.len() == frames,
        forall|k: int| #![trigger planned(allowed, current, frames, step).values[k]]
            0 <= k < frames ==> {
                let v = planned(allowed, current, frames, step).values[k];
                let p = at + (k - frames / 2) * (if step > 1 {
                    step
                } else {
                    1
                });
                &&& 0 <= p < allowed.len() ==> v == allowed[p]
                &&& p < 0 ==> v == allowed.first()
                &&& p >= allowed.len() ==> v == allowed.last()
            },
{
    lemma_base_place(allowed, current, 0);
    base_place(allowed, current, 0)
}

/// The current exposure is in every bracket around it, behind half of its pictures. In a bracket
/// of an odd number of pictures that does not touch the ends of the list it is the middle one,
/// and the others lie evenly on both sides of its place.
pub proof fn law_bracket_holds_the_current(
    allowed: Seq<u64>,
    current: u64,
    frames: int,
    step: int,
    at: int,
    k: int,
)
    requires
        1 <= frames,
        1 <= step,
        0 <= at < allowed.len(),
        allowed[at] == current,
        forall|j: int| 0 <= j < at ==> allowed[j] != current,
        0 <= k <= frames / 2,
        0 <= at - k * step,
        at + k * step < allowed.len(),
    ensures
        ({
            let v = planned(allowed, current, frames, step).values;
            &&& v[frames / 2] == current
            &&& v[frames / 2 - k] == allowed[at - k * step]
            &&& frames / 2 + k < frames ==> v[frames / 2 + k] == allowed[at + k * step]
        }),
{
    assert(allowed.contains(current));
    lemma_base_place(allowed, current, 0);
    let base = base_place(allowed, current, 0);
    assert(base == at);
    assert((frames / 2 - k - frames / 2) * step == -(k * step) && (frames / 2 + k - frames / 2)
        * step == k * step && (frames / 2 - frames / 2) * step == 0 && 0 <= k * step)
        by (nonlinear_arith)
        requires
            0 <= k,
            1 <= step,
    ;
}

/// A bracket that nobody cancels takes its exposures one after the other, each once, and none
/// behind the last.
pub proof fn law_bracket_takes_each_exposure(b: Bracket, n: nat)
    requires
        b.wf(),
        b.done == 0,
        !b.restored,
        n <= b.values.len(),
    ensures
        ({
            let s = bracket_after(b, Seq::new(n, |i: int| false));
            &&& n < b.values.len() ==> s.upcoming(false) == BracketStep::Expose(b.values[n as int])
            &&& n == b.values.len() ==> s.upcoming(false) == BracketStep::Restore(b.base)
            &&& s.upcoming(true) == BracketStep::Restore(b.base)
            &&& s == (Bracket { done: n as int, ..b })
        }),
    decreases n,
{
    let cancels = Seq::new(n, |i: int| false);
    if n > 0 {
        let m = (n - 1) as nat;
        law_bracket_takes_each_exposure(b, m);
        assert(cancels.drop_last() =~= Seq::new(m, |i: int| false));
    }
}

/// The answer to the request for a bracket.
pub fn bracket_text(frames: usize, step: usize) -> (r: String)
    ensures
        r@ == "bracket "@ + decimal(frames as nat) + "f step"@ + decimal(step as nat),
{
    let mut r = String::new();
    r.append("bracket ");
    push_decimal(&mut r, frames as u64);
    r.append("f step");
    push_decimal(&mut r, step as u64);
    assert(r@ =~= "bracket "@ + decimal(frames as nat) + "f step"@ + decimal(step as nat));
    r
}

/// How far a bracket is, as one line of JSON.
pub fn bracket_progress(done: usize, total: usize, finished: bool) -> (r: String)
    ensures
        r@ == "{\"done\":"@ + decimal(done as nat) + (if finished {
            ",\"finished\":true"@
        } else {
            Seq::empty()
        }) + ",\"total\":"@ + decimal(total as nat) + ",\"type\":\"bracket\"}"@,
{
    let mut r = String::new();
    r.append("{\"done\":");
    push_decimal(&mut r, done as u64);
    if finished {
        r.append(",\"finished\":true");
    }
    r.append(",\"total\":");
    push_decimal(&mut r, total as u64);
    r.append(",\"type\":\"bracket\"}");
    assert(r@ =~= "{\"done\":"@ + decimal(done as nat) + (if finished {
        ",\"finished\":true"@
    } else {
        Seq::empty()
    }) + ",\"total\":"@ + decimal(total as nat) + ",\"type\":\"bracket\"}"@);
    r
}

/// Whether a file name is that of a JPEG.
pub open spec fn is_jpeg_name(f: Seq<char>) -> bool {
    ends_with_any_case(f, ".jpg"@) || ends_with_any_case(f, ".jpeg"@)
}

/// The file that an event announces: a JPEG whose download is complete.
pub open spec fn announced(kind: Option<Seq<char>>, filename: Option<Seq<char>>) -> Option<Seq<char>> {
    if kind != Some("download_complete"@) {
        None
    } else {
        match filename {
            Some(f) => if is_jpeg_name(f) {
                Some(f)
            } else {
                None
            },
            None => None,
        }
    }
}

/// The file that an event announces, given what it says under `type` and `filename`.
pub fn pick_download(kind: Option<String>, filename: Option<String>) -> (r: Option<String>)
    ensures
        string_of(r) == announced(string_of(kind), string_of(filename)),
{
    match kind {
        Some(k) => {
            if !same_text(k.as_str(), "download_complete") {
                return None;
            }
        },
        None => {
            return None;
        },
    }
    match filename {
        Some(f) => if ends_with_ignore_case(f.as_str(), ".jpg") || ends_with_ignore_case(
            f.as_str(),
            ".jpeg",
        ) {
            Some(f)
        } else {
            None
        },
        None => None,
    }
}

/// The file that a line of JSON announces.
pub fn heard_download(line: &str) -> (r: Option<String>)
    ensures
        string_of(r) == announced(
            json_text_at(line@, "type"@),
            json_text_at(line@, "filename"@),
        ),
        forall|filename: Seq<char>, kind: nat|
            line@ == #[trigger] download_event(filename, kind) && kind <= u32::MAX ==> string_of(r)
                == announced(Some("download_complete"@), Some(filename)),
{
    let kind = text_at(line, "type");
    let filename = text_at(line, "filename");
    pick_download(kind, filename)
}

/// What comes while a download is waited for.
#[derive(Debug)]
pub enum Heard {
    /// A line of the event stream.
    Line(String),
    /// Some lines were missed.
    Missed,
    /// The time is up, or the stream has ended.
    Over,
}

/// What to make of it.
#[derive(Debug)]
pub enum WaitStep {
    /// Wait on.
    Wait,
    /// The picture is here.
    Got(String),
    /// It will not come.
    Failed(String),
}

/// Waits for the next JPEG to be saved: other files and other events are passed over. The
/// line that announces a saved JPEG ends the wait with that file.
pub fn wait_download(heard: &Heard) -> (r: WaitStep)
    ensures
        match *heard {
            Heard::Line(line) => match r {
                WaitStep::Got(f) => announced(
                    json_text_at(line@, "type"@),
                    json_text_at(line@, "filename"@),
                ) == Some(f@),
                WaitStep::Wait => announced(
                    json_text_at(line@, "type"@),
                    json_text_at(line@, "filename"@),
                ) is None,
                WaitStep::Failed(_) => false,
            },
            Heard::Missed => r is Wait,
            Heard::Over => r matches WaitStep::Failed(e) && e@ == "다운로드 타임아웃"@,
        },
        forall|filename: Seq<char>, kind: nat|
            *heard matches Heard::Line(line) && line@ == #[trigger] download_event(filename, kind)
                && kind <= u32::MAX && is_jpeg_name(filename) ==> (r matches WaitStep::Got(f) && f@
                == filename),
{
    match heard {
        Heard::Line(line) => match heard_download(line.as_str()) {
            Some(f) => WaitStep::Got(f),
            None => WaitStep::Wait,
        },
        Heard::Missed => WaitStep::Wait,
        Heard::Over => WaitStep::Failed("다운로드 타임아웃".to_string()),
    }
}

/// How many pictures a multiple exposure has: three, or as many as asked for between two and
/// thirty.
pub fn exposure_count(asked: Option<u32>) -> (r: u32)
    ensures
        r == (match asked {
            None => 3,
            Some(n) => clamped(n as int, 2, 30),
        }),
{
    match asked {
        None => 3,
        Some(n) => if n < 2 {
            2
        } else if n > 30 {
            30
        } else {
            n
        },
    }
}

/// How long a picture may take to be saved, in milliseconds.
pub fn shot_timeout(asked: Option<u64>) -> (r: u64)
    ensures
        r == (match asked {
            None => 12_000u64,
            Some(ms) => ms,
        }),
{
    match asked {
        None => 12_000,
        Some(ms) => ms,
    }
}

/// What a multiple exposure asks for.
#[derive(Debug)]
pub enum ExposureStep {
    /// Take a picture.
    Shoot,
    /// Wait until it is saved.
    Await,
    /// Tell how far it is, then take the next picture.
    Progress(String),
    /// Tell how far it is, then merge the pictures.
    Blend(String),
    /// Save this picture.
    Write(Vec<u8>),
    /// Answer with the file where it is saved, and the number of pictures.
    Done {
        /// The file.
        file: String,
        /// How many pictures.
        count: u32,
    },
    /// Answer with a failure.
    Fail(Reply),
}

/// A multiple exposure: pictures are taken one after the other and then merged.
#[derive(Debug)]
pub struct MultiExposure {
    /// How many pictures.
    pub count: u32,
    /// Those that were saved.
    pub files: Vec<String>,
}

/// `i` of `n`.
pub open spec fn of_count(i: nat, n: nat) -> Seq<char> {
    decimal(i) + "/"@ + decimal(n)
}

/// How far a multiple exposure is, as one line of JSON.
pub open spec fn exposure_progress(i: nat, n: nat) -> Seq<char> {
    "{\"type\":\"multi_exposure\",\"i\":"@ + decimal(i) + ",\"n\":"@ + decimal(n) + "}"@
}

fn push_of_count(s: &mut String, i: usize, n: u32)
    ensures
        final(s)@ == old(s)@ + of_count(i as nat, n as nat),
{
    push_decimal(s, i as u64);
    s.append("/");
    push_decimal(s, n as u64);
    assert(s@ =~= old(s)@ + of_count(i as nat, n as nat));
}

impl MultiExposure {
    /// A multiple exposure of `count` pictures, none taken yet.
    pub fn new(count: u32) -> (r: MultiExposure)
        ensures
            r.count == count,
            r.files@.len() == 0,
    {
        MultiExposure { count, files: Vec::new() }
    }

    /// Takes in how taking a picture went: it is waited for, or the whole fails.
    pub fn shot(&self, result: Result<(), String>) -> (r: ExposureStep)
        requires
            self.files@.len() < self.count,
        ensures
            match result {
                Ok(_) => r is Await,
                Err(e) => r matches ExposureStep::Fail(a) && a@ == (Answer {
                    status: INTERNAL_SERVER_ERROR,
                    text: "capture "@ + of_count(self.files@.len() + 1, self.count as nat) + ": "@
                        + e@,
                }),
            },
    {
        match result {
            Ok(_) => ExposureStep::Await,
            Err(e) => {
                let mut t = String::new();
                t.append("capture ");
                push_of_count(&mut t, self.files.len() + 1, self.count);
                t.append(": ");
                t.append(e.as_str());
                assert(t@ =~= "capture "@ + of_count(self.files@.len() + 1, self.count as nat)
                    + ": "@ + e@);
                ExposureStep::Fail(Reply { status: INTERNAL_SERVER_ERROR, text: t })
            },
        }
    }

    /// Takes in how saving a picture went: the next one is taken, the pictures are merged
    /// once all of them are there, or the whole fails.
    pub fn saved(&mut self, result: Result<String, String>) -> (r: ExposureStep)
        requires
            old(self).files@.len() < old(self).count,
        ensures
            final(self).count == old(self).count,
            match result {
                Ok(f) => {
                    let i = old(self).files@.len() + 1;
                    let n = old(self).count as nat;
                    &&& final(self).files@ == old(self).files@.push(f)
                    &&& if i == n {
                        r matches ExposureStep::Blend(p) && p@ == exposure_progress(i, n)
                    } else {
                        r matches ExposureStep::Progress(p) && p@ == exposure_progress(i, n)
                    }
                },
                Err(e) => {
                    &&& final(self).files@ == old(self).files@
                    &&& r matches ExposureStep::Fail(a) && a@ == (Answer {
                        status: INTERNAL_SERVER_ERROR,
                        text: "frame "@ + of_count(
                            old(self).files@.len() + 1,
                            old(self).count as nat,
                        ) + ": "@ + e@ + " — JPEG 저장(STILL→PC, 파일형식 JPEG) 필요"@,
                    })
                },
            },
    {
        match result {
            Ok(f) => {
                self.files.push(f);
                let mut p = String::new();
                p.append("{\"type\":\"multi_exposure\",\"i\":");
                push_decimal(&mut p, self.files.len() as u64);
                p.append(",\"n\":");
                push_decimal(&mut p, self.count as u64);
                p.append("}");
                assert(p@ =~= exposure_progress(
                    self.files@.len(),
                    self.count as nat,
                ));
                if self.files.len() == self.count as usize {
                    ExposureStep::Blend(p)
                } else {
                    ExposureStep::Progress(p)
                }
            },
            Err(e) => {
                let mut t = String::new();
                t.append("frame ");
                push_of_count(&mut t, self.files.len() + 1, self.count);
                t.append(": ");
                t.append(e.as_str());
                t.append(" — JPEG 저장(STILL→PC, 파일형식 JPEG) 필요");
                assert(t@ =~= "frame "@ + of_count(self.files@.len() + 1, self.count as nat)
                    + ": "@ + e@ + " — JPEG 저장(STILL→PC, 파일형식 JPEG) 필요"@);
                ExposureStep::Fail(Reply { status: INTERNAL_SERVER_ERROR, text: t })
            },
        }
    }
}

/// What was read of a picture.
pub open spec fn bytes_read(r: Result<Vec<u8>, String>) -> Result<Seq<u8>, Seq<char>> {
    match r {
        Ok(b) => Ok(b@),
        Err(e) => Err(e@),
    }
}

/// The first place, from `i` on, where reading a picture failed; the end where it never did.
pub open spec fn first_unread(read: Seq<Result<Vec<u8>, String>>, i: int) -> int
    decreases read.len() - i,
{
    if i >= read.len() {
        read.len() as int
    } else if read[i] is Err {
        i
    } else {
        first_unread(read, i + 1)
    }
}

/// The pictures that were read.
pub open spec fn all_read(read: Seq<Result<Vec<u8>, String>>) -> Seq<Vec<u8>> {
    read.map_values(|r: Result<Vec<u8>, String>| r->Ok_0)
}

/// What the merged picture comes to: its bytes, or why there is none.
pub open spec fn merged(
    files: Seq<String>,
    read: Seq<Result<Vec<u8>, String>>,
    mode: Blend,
) -> Result<Seq<u8>, Seq<char>> {
    let k = first_unread(read, 0);
    if k < read.len() {
        Err("read "@ + files[k]@ + ": "@ + read[k]->Err_0@)
    } else {
        match blend_outcome(decodings(all_read(read)), mode) {
            Err(e) => Err(e.text()),
            Ok(img) => match jpeg_encoding(img.rgb, img.w as u16, img.h as u16, 92) {
                Ok(b) => Ok(b),
                Err(t) => Err("encode: "@ + t),
            },
        }
    }
}

impl MultiExposure {
    /// Merges the pictures, in the order in which they were taken, given what was read of
    /// each. The first that could not be read decides the failure; otherwise merging does.
    pub fn merge(&self, read: Vec<Result<Vec<u8>, String>>, mode: Blend) -> (r: Result<
        Vec<u8>,
        String,
    >)
        requires
            read@.len() == self.files@.len(),
            addable(read@.len(), mode),
        ensures
            bytes_read(r) == merged(self.files@, read@, mode),
    {
        let ghost all = read@;
        let mut jpegs: Vec<Vec<u8>> = Vec::new();
        let mut i: usize = 0;
        for r in it: read
            invariant
                it.seq() == all,
                i == it.index(),
                all.len() == self.files@.len(),
                first_unread(all, i as int) == first_unread(all, 0),
                jpegs@ == all_read(all.take(i as int)),
        {
            assert(i < self.files.len());
            match r {
                Ok(b) => {
                    jpegs.push(b);
                    assert(jpegs@ =~= all_read(all.take(i + 1)));
                },
                Err(e) => {
                    let mut t = String::new();
                    t.append("read ");
                    t.append(self.files[i].as_str());
                    t.append(": ");
                    t.append(e.as_str());
                    assert(t@ =~= "read "@ + self.files@[i as int]@ + ": "@ + e@);
                    return Err(t);
                },
            }
            i = i + 1;
        }
        assert(all.take(all.len() as int) =~= all);
        match blend_jpegs(jpegs.as_slice(), mode) {
            Ok(b) => Ok(b),
            Err(e) => Err(e.message()),
        }
    }

    /// Takes in the merged picture: it is saved, or the whole fails.
    pub fn blended(&self, result: Result<Vec<u8>, String>) -> (r: ExposureStep)
        ensures
            match result {
                Ok(b) => r matches ExposureStep::Write(v) && v@ == b@,
                Err(e) => r matches ExposureStep::Fail(a) && a@ == (Answer {
                    status: INTERNAL_SERVER_ERROR,
                    text: "blend: "@ + e@,
                }),
            },
    {
        match result {
            Ok(b) => ExposureStep::Write(b),
            Err(e) => ExposureStep::Fail(reply_with(INTERNAL_SERVER_ERROR, "blend: ", e.as_str())),
        }
    }

    /// Takes in that merging broke down: the whole fails.
    pub fn broken(&self, error: String) -> (r: ExposureStep)
        ensures
            r matches ExposureStep::Fail(a) && a@ == (Answer {
                status: INTERNAL_SERVER_ERROR,
                text: "task: "@ + error@,
            }),
    {
        ExposureStep::Fail(reply_with(INTERNAL_SERVER_ERROR, "task: ", error.as_str()))
    }

    /// Takes in how saving the merged picture went, by the file where it is: the whole is
    /// done, or it fails.
    pub fn written(&self, result: Result<String, String>) -> (r: ExposureStep)
        ensures
            match result {
                Ok(f) => r matches ExposureStep::Done { file, count } && file@ == f@ && count
                    == self.count,
                Err(e) => r matches ExposureStep::Fail(a) && a@ == (Answer {
                    status: INTERNAL_SERVER_ERROR,
                    text: "save: "@ + e@,
                }),
            },
    {
        match result {
            Ok(f) => ExposureStep::Done { file: f, count: self.count },
            Err(e) => ExposureStep::Fail(reply_with(INTERNAL_SERVER_ERROR, "save: ", e.as_str())),
        }
    }
}

/// The last picture after a step: the merged one once it is saved, and the one from before
/// until then and after a failure.
pub fn note_last_image(step: &ExposureStep, last: &mut Option<String>)
    ensures
        match *step {
            ExposureStep::Done { file, count } => string_of(*final(last)) == Some(file@),
            _ => *final(last) == *old(last),
        },
{
    match step {
        ExposureStep::Done { file, count } => {
            *last = Some(file.clone());
        },
        _ => {},
    }
}

/// The answer to a multiple exposure that was saved, as JSON.
pub fn exposure_reply(file: &str, count: u32) -> (r: String)
    ensures
        r@ == "{\"count\":"@ + decimal(count as nat) + ",\"file\":"@ + quoted(file@) + "}"@,
{
    let mut r = String::new();
    r.append("{\"count\":");
    push_decimal(&mut r, count as u64);
    r.append(",\"file\":");
    match quote(file) {
        Some(q) => r.append(q.as_str()),
        None => {},
    }
    r.append("}");
    assert(r@ =~= "{\"count\":"@ + decimal(count as nat) + ",\"file\":"@ + quoted(file@) + "}"@);
    r
}

/// The event of a multiple exposure that was saved, as one line of JSON.
pub fn exposure_saved(path: &str) -> (r: String)
    ensures
        r@ == "{\"type\":\"multi_exposure_done\",\"file\":"@ + quoted(path@) + "}"@,
{
    let mut r = String::new();
    r.append("{\"type\":\"multi_exposure_done\",\"file\":");
    match quote(path) {
        Some(q) => r.append(q.as_str()),
        None => {},
    }
    r.append("}");
    assert(r@ =~= "{\"type\":\"multi_exposure_done\",\"file\":"@ + quoted(path@) + "}"@);
    r
}

/// A timed exposure opens the shutter, holds it as long as it was asked to, closes it and gives the
/// flag back. One that does not open is closed at once.
pub proof fn law_bulb_holds_as_long_as_asked(a: bool, b: bool, c: bool, secs: u64)
    ensures
        bulb_after(Seq::empty(), secs) is Open,
        bulb_after(seq![true], secs) == (BulbStep::Hold { secs }),
        bulb_after(seq![true, b], secs) is Close,
        bulb_after(seq![true, b, c], secs) is Release,
        bulb_after(seq![false], secs) is Close,
        bulb_after(seq![false, b], secs) is Release,
{
    reveal_with_fuel(bulb_after, 4);
    assert(seq![a].drop_last() =~= Seq::empty());
    assert(seq![true].drop_last() =~= Seq::empty());
    assert(seq![false].drop_last() =~= Seq::empty());
    assert(seq![true, b].drop_last() =~= seq![true]);
    assert(seq![false, b].drop_last() =~= seq![false]);
    assert(seq![true, b, c].drop_last() =~= seq![true, b]);
}

/// A run waits before a picture while less than the interval has passed since the last, takes the
/// picture then, and is over once it has as many as asked for. The first picture is taken at
/// once.
pub proof fn law_interval_step(run: IntervalRun)
    ensures
        run.shots >= run.count ==> run.upcoming() is Finish && run.advanced() == run,
        run.shots < run.count && (run.shots == 0 || run.waited >= run.interval) ==> {
            &&& run.upcoming() is Shoot
            &&& run.advanced().shots == run.shots + 1
            &&& run.advanced().waited == 0
        },
        0 < run.shots < run.count && run.waited < run.interval ==> {
            &&& run.upcoming() is Wait
            &&& run.advanced().shots == run.shots
            &&& run.advanced().waited == run.waited + 1
        },
        run.advanced().interval == run.interval,
        run.advanced().count == run.count,
{
}

/// A file is waited for that an event announces as downloaded, and that has the name of a JPEG;
/// no other event counts.
pub proof fn law_only_downloaded_jpegs_count(kind: Option<Seq<char>>, filename: Option<Seq<char>>)
    ensures
        announced(kind, filename) is Some <==> {
            &&& kind == Some("download_complete"@)
            &&& filename matches Some(f)
            &&& ends_with_any_case(f, ".jpg"@) || ends_with_any_case(f, ".jpeg"@)
        },
        announced(kind, filename) is Some ==> announced(kind, filename) == filename,
{
}

proof fn lemma_first_unread(read: Seq<Result<Vec<u8>, String>>, i: int)
    requires
        0 <= i <= read.len(),
        forall|j: int| 0 <= j < i ==> (#[trigger] read[j]) is Ok,
    ensures
        ({
            let k = first_unread(read, i);
            &&& i <= k <= read.len()
            &&& forall|j: int| 0 <= j < k ==> (#[trigger] read[j]) is Ok
            &&& k < read.len() ==> read[k] is Err
        }),
    decreases read.len() - i,
{
    if i < read.len() && !(read[i] is Err) {
        lemma_first_unread(read, i + 1);
    }
}

/// Pictures are merged where all could be read: in the order in which they were taken, and written
/// with a quality of ninety-two. Otherwise the first that could not be read is named, with the
/// reason.
pub proof fn law_first_unread_picture_is_named(
    files: Seq<String>,
    read: Seq<Result<Vec<u8>, String>>,
    mode: Blend,
    k: int,
)
    requires
        files.len() == read.len(),
        0 <= k <= read.len(),
        forall|j: int| 0 <= j < k ==> (#[trigger] read[j]) is Ok,
        k < read.len() ==> read[k] is Err,
    ensures
        k < read.len() ==> merged(files, read, mode) == Err::<Seq<u8>, Seq<char>>(
            "read "@ + files[k]@ + ": "@ + read[k]->Err_0@,
        ),
        k == read.len() ==> ({
            let outs = Seq::new(read.len(), |j: int| rgb_outcome(decoding(read[j]->Ok_0@)));
            match blend_outcome(outs, mode) {
                Err(e) => merged(files, read, mode) == Err::<Seq<u8>, Seq<char>>(e.text()),
                Ok(img) => match jpeg_encoding(img.rgb, img.w as u16, img.h as u16, 92) {
                    Ok(b) => merged(files, read, mode) == Ok::<Seq<u8>, Seq<char>>(b),
                    Err(t) => merged(files, read, mode) == Err::<Seq<u8>, Seq<char>>(
                        "encode: "@ + t,
                    ),
                },
            }
        }),
{
    lemma_first_unread(read, 0);
    let f = first_unread(read, 0);
    if f < k {
        assert(read[f] is Ok);
    } else if k < f {
        assert(read[k] is Ok);
    }
    if k == read.len() {
        let outs = Seq::new(read.len(), |j: int| rgb_outcome(decoding(read[j]->Ok_0@)));
        assert(decodings(all_read(read)) =~= outs);
    }
}

} // verus!
