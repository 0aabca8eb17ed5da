//! Answers to requests, and who may start a sequence.
use vstd::prelude::*;

verus! {

/// Done.
pub const OK: u16 = 200;

/// Done, nothing to say.
pub const NO_CONTENT: u16 = 204;

/// The request makes no sense.
pub const BAD_REQUEST: u16 = 400;

/// There is no such thing.
pub const NOT_FOUND: u16 = 404;

/// Something else is running.
pub const CONFLICT: u16 = 409;

/// The live view has to run first.
pub const PRECONDITION_REQUIRED: u16 = 428;

/// The camera or the machine failed.
pub const INTERNAL_SERVER_ERROR: u16 = 500;

/// There is no camera.
pub const SERVICE_UNAVAILABLE: u16 = 503;

/// An answer: an HTTP status and a text.
#[derive(Debug)]
pub struct Reply {
    /// HTTP status.
    pub status: u16,
    /// What is said.
    pub text: String,
}

/// What a [`Reply`] says.
pub struct Answer {
    pub status: u16,
    pub text: Seq<char>,
}

impl View for Reply {
    type V = Answer;

    open spec fn view(&self) -> Answer {
        Answer { status: self.status, text: self.text@ }
    }
}

/// An answer.
pub fn reply(status: u16, text: &str) -> (r: Reply)
    ensures
        r@ == (Answer { status, text: text@ }),
{
    Reply { status, text: text.to_string() }
}

/// An answer whose text is `prefix` and `text`.
pub fn reply_with(status: u16, prefix: &str, text: &str) -> (r: Reply)
    ensures
        r@ == (Answer { status, text: prefix@ + text@ }),
{
    let mut t = String::new();
    t.append(prefix);
    t.append(text);
    assert(t@ =~= prefix@ + text@);
    Reply { status, text: t }
}

/// The answer to every request that needs a camera when there is none.
pub open spec fn not_connected() -> Answer {
    Answer { status: SERVICE_UNAVAILABLE, text: "not connected"@ }
}

/// How work on the camera ended.
#[derive(Debug)]
pub enum Outcome {
    /// It is done.
    Done,
    /// The camera refused, with this text.
    Refused(String),
    /// The work itself broke down, with this text.
    Broken(String),
}

/// The answer to a request whose work ended so.
pub open spec fn outcome_answer(outcome: Outcome, done: Seq<char>) -> Answer {
    match outcome {
        Outcome::Done => Answer { status: OK, text: done },
        Outcome::Refused(e) => Answer { status: INTERNAL_SERVER_ERROR, text: "sdk: "@ + e@ },
        Outcome::Broken(e) => Answer { status: INTERNAL_SERVER_ERROR, text: "task: "@ + e@ },
    }
}

/// The answer to a request for work on the camera.
pub fn answer(outcome: &Outcome, done: &str) -> (r: Reply)
    ensures
        r@ == outcome_answer(*outcome, done@),
{
    match outcome {
        Outcome::Done => reply(OK, done),
        Outcome::Refused(e) => reply_with(INTERNAL_SERVER_ERROR, "sdk: ", e.as_str()),
        Outcome::Broken(e) => reply_with(INTERNAL_SERVER_ERROR, "task: ", e.as_str()),
    }
}

/// Whether a sequence is running: at most one at a time holds the flag.
#[derive(Debug)]
pub struct RunFlag {
    active: bool,
}

impl View for RunFlag {
    type V = bool;

    closed spec fn view(&self) -> bool {
        self.active
    }
}

impl RunFlag {
    /// A flag that nobody holds.
    pub fn new() -> (r: RunFlag)
        ensures
            !r@,
    {
        RunFlag { active: false }
    }

    /// Takes the flag, if nobody holds it.
    pub fn try_start(&mut self) -> (r: bool)
        ensures
            r == !old(self)@,
            final(self)@,
    {
        if self.active {
            false
        } else {
            self.active = true;
            true
        }
    }

    /// Gives the flag back.
    pub fn finish(&mut self)
        ensures
            !final(self)@,
    {
        self.active = false;
    }

    /// Whether somebody holds the flag.
    pub fn is_running(&self) -> (r: bool)
        ensures
            r == self@,
    {
        self.active
    }
}

/// Why a sequence may not start, if it may not.
pub open spec fn admission(connected: bool, running: bool, busy: Seq<char>) -> Option<Answer> {
    if !connected {
        Some(not_connected())
    } else if running {
        Some(Answer { status: CONFLICT, text: busy })
    } else {
        None
    }
}

/// Starts a sequence: takes the flag, or answers why not. Without a camera the flag is not
/// touched; a sequence that runs is left running.
pub fn start_sequence(connected: bool, flag: &mut RunFlag, busy: &str) -> (r: Result<(), Reply>)
    ensures
        match (r, admission(connected, old(flag)@, busy@)) {
            (Ok(_), None) => final(flag)@,
            (Err(e), Some(want)) => e@ == want && final(flag)@ == old(flag)@,
            _ => false,
        },
{
    if !connected {
        return Err(reply(SERVICE_UNAVAILABLE, "not connected"));
    }
    if flag.try_start() {
        Ok(())
    } else {
        Err(reply(CONFLICT, busy))
    }
}

/// A step in the life of a flag.
pub enum FlagStep {
    /// Somebody asks for it.
    Start { connected: bool },
    /// Its holder gives it back.
    Finish,
}

/// The flag after a number of steps.
pub open spec fn flag_after(steps: Seq<FlagStep>) -> bool
    decreases steps.len(),
{
    if steps.len() == 0 {
        false
    } else {
        let before = flag_after(steps.drop_last());
        match steps.last() {
            FlagStep::Start { connected } => before || admission(connected, before, ""@) is None,
            FlagStep::Finish => false,
        }
    }
}

/// Whether the step at `i` started a sequence.
pub open spec fn started(steps: Seq<FlagStep>, i: int) -> bool {
    0 <= i < steps.len() && match steps[i] {
        FlagStep::Start { connected } => admission(connected, flag_after(steps.take(i)), ""@)
            is None,
        FlagStep::Finish => false,
    }
}

proof fn lemma_held(steps: Seq<FlagStep>, i: int, j: int)
    requires
        started(steps, i),
        i < j <= steps.len(),
        forall|k: int| i < k < j ==> !(#[trigger] steps[k] is Finish),
    ensures
        flag_after(steps.take(j)),
    decreases j - i,
{
    assert(steps.take(j).drop_last() =~= steps.take(j - 1));
    assert(steps.take(j).last() == steps[j - 1]);
    if j > i + 1 {
        lemma_held(steps, i, j - 1);
    }
}

/// Never do two sequences run under one flag: between two that started, one has finished.
pub proof fn law_one_sequence_at_a_time(steps: Seq<FlagStep>, i: int, j: int)
    requires
        started(steps, i),
        started(steps, j),
        i < j,
    ensures
        exists|k: int| i < k < j && #[trigger] steps[k] is Finish,
{
    if forall|k: int| i < k < j ==> !(#[trigger] steps[k] is Finish) {
        lemma_held(steps, i, j);
    }
}

/// A request without a camera is always answered with "not connected", whatever runs.
pub proof fn law_no_camera_no_sequence(running: bool, busy: Seq<char>)
    ensures
        admission(false, running, busy) == Some(not_connected()),
{
}

/// A sequence is refused without a camera, and while another one runs; else it may start.
pub proof fn law_who_may_start(connected: bool, running: bool, busy: Seq<char>)
    ensures
        admission(connected, running, busy) is None <==> connected && !running,
        !connected ==> admission(connected, running, busy) == Some(
            Answer { status: 503, text: "not connected"@ },
        ),
        connected && running ==> admission(connected, running, busy) == Some(
            Answer { status: 409, text: busy },
        ),
{
}

/// What was done is answered with its text, what failed with the reason why.
pub proof fn law_outcomes_are_answered(outcome: Outcome, done: Seq<char>)
    ensures
        match outcome {
            Outcome::Done => outcome_answer(outcome, done) == (Answer { status: 200, text: done }),
            Outcome::Refused(e) => outcome_answer(outcome, done) == (Answer {
                status: 500,
                text: "sdk: "@ + e@,
            }),
            Outcome::Broken(e) => outcome_answer(outcome, done) == (Answer {
                status: 500,
                text: "task: "@ + e@,
            }),
        },
{
}

} // verus!
