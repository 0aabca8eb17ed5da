//! From start to stop: one instance at a time, connecting, and what to say of it.
use vstd::prelude::*;

use crate::json::string_of;
use crate::reply::{reply, Answer, Reply, RunFlag, OK, SERVICE_UNAVAILABLE};
use crate::text::{hex, hex_text, is_white, is_whitespace, to_chars, worth};

verus! {

/// What is to be done about a request to connect.
#[derive(Clone, Copy, Debug, PartialEq, Eq, Structural)]
pub enum ConnectGate {
    /// Nothing: there is a connection.
    Already,
    /// Nothing: somebody else is trying.
    Busy,
    /// Try.
    Go,
}

/// What is to be done about a request to connect.
pub open spec fn gate(connected: bool, connecting: bool) -> ConnectGate {
    if connected {
        ConnectGate::Already
    } else if connecting {
        ConnectGate::Busy
    } else {
        ConnectGate::Go
    }
}

/// What is to be done about a request to connect. Whoever is to try holds the flag from here
/// on; otherwise the flag is left as it is.
pub fn connect_gate(connected: bool, connecting: &mut RunFlag) -> (r: ConnectGate)
    ensures
        r == gate(connected, old(connecting)@),
        final(connecting)@ == (old(connecting)@ || r is Go),
{
    if connected {
        ConnectGate::Already
    } else if connecting.try_start() {
        ConnectGate::Go
    } else {
        ConnectGate::Busy
    }
}

/// What a request that is not to try comes to: it is served where there is a connection, and
/// fails while somebody else is trying.
pub open spec fn gate_outcome(g: ConnectGate) -> Option<Result<(), Seq<char>>> {
    match g {
        ConnectGate::Already => Some(Ok(())),
        ConnectGate::Busy => Some(Err("already connecting"@)),
        ConnectGate::Go => None,
    }
}

/// What a result says.
pub open spec fn result_of(r: Result<(), String>) -> Result<(), Seq<char>> {
    match r {
        Ok(_) => Ok(()),
        Err(e) => Err(e@),
    }
}

/// What a request that is not to try comes to.
pub fn gate_result(g: ConnectGate) -> (r: Option<Result<(), String>>)
    ensures
        match r {
            Some(v) => gate_outcome(g) == Some(result_of(v)),
            None => gate_outcome(g) is None,
        },
{
    match g {
        ConnectGate::Already => Some(Ok(())),
        ConnectGate::Busy => Some(Err("already connecting".to_string())),
        ConnectGate::Go => None,
    }
}

/// The answer to a request to connect.
pub fn connect_reply(result: &Result<(), String>) -> (r: Reply)
    ensures
        r@ == (match *result {
            Ok(_) => Answer { status: OK, text: "connected"@ },
            Err(e) => Answer { status: SERVICE_UNAVAILABLE, text: e@ },
        }),
{
    match result {
        Ok(_) => reply(OK, "connected"),
        Err(e) => reply(SERVICE_UNAVAILABLE, e.as_str()),
    }
}

/// What connecting asks for.
#[derive(Clone, Copy, Debug, PartialEq, Eq, Structural)]
pub enum ConnectTask {
    /// List the cameras.
    Enumerate,
    /// Take the first of them.
    Locate,
    /// Connect to it.
    Open,
    /// Claim control over its settings.
    Claim,
    /// Make the folder for pictures.
    MakeFolder,
    /// Tell the camera that folder.
    SetFolder,
    /// Read the name of the lens.
    ReadLens,
    /// The camera is connected.
    Done,
    /// It is not.
    Failed,
}

/// A connection in the making.
#[derive(Debug)]
pub struct ConnectRun {
    /// What is to be done now.
    pub task: ConnectTask,
    /// The folder for pictures.
    pub dir: String,
    /// The name of the camera.
    pub model: String,
    /// The name of the lens.
    pub lens: String,
    /// Why it failed.
    pub error: String,
}

/// What a connection in the making stands for.
pub struct Connecting {
    pub task: ConnectTask,
    pub dir: Seq<char>,
    pub model: Seq<char>,
    pub lens: Seq<char>,
    pub error: Seq<char>,
}

impl View for ConnectRun {
    type V = Connecting;

    open spec fn view(&self) -> Connecting {
        Connecting {
            task: self.task,
            dir: self.dir@,
            model: self.model@,
            lens: self.lens@,
            error: self.error@,
        }
    }
}

/// The folder for pictures: the one that was chosen, else the usual one, else one where the
/// server runs.
pub open spec fn picture_dir(want: Seq<char>, usual: Option<Seq<char>>) -> Seq<char> {
    if want.len() > 0 {
        want
    } else {
        match usual {
            Some(d) => d,
            None => "captures"@,
        }
    }
}

impl Connecting {
    /// Behind the list of cameras: the first one is taken, and there has to be one.
    pub open spec fn enumerated(self, models: Result<Vec<String>, String>) -> Connecting {
        match models {
            Err(e) => Connecting { task: ConnectTask::Failed, error: "enumerate: "@ + e@, ..self },
            Ok(list) => if list@.len() == 0 {
                Connecting {
                    task: ConnectTask::Failed,
                    error: "no cameras detected (check USB / PC Remote mode)"@,
                    ..self
                }
            } else {
                Connecting { task: ConnectTask::Locate, model: list@[0]@, ..self }
            },
        }
    }

    /// Behind any other task: without the camera or the connection there is nothing more to
    /// do; what follows may fail.
    pub open spec fn worked(self, result: Result<(), String>) -> Connecting {
        match self.task {
            ConnectTask::Locate => match result {
                Ok(_) => Connecting { task: ConnectTask::Open, ..self },
                Err(e) => Connecting {
                    task: ConnectTask::Failed,
                    error: "camera_ptr: "@ + e@,
                    ..self
                },
            },
            ConnectTask::Open => match result {
                Ok(_) => Connecting { task: ConnectTask::Claim, ..self },
                Err(e) => Connecting { task: ConnectTask::Failed, error: "connect: "@ + e@, ..self },
            },
            ConnectTask::Claim => Connecting { task: ConnectTask::MakeFolder, ..self },
            ConnectTask::MakeFolder => Connecting { task: ConnectTask::SetFolder, ..self },
            ConnectTask::SetFolder => Connecting { task: ConnectTask::ReadLens, ..self },
            _ => self,
        }
    }

    /// Behind the name of the lens: it may be missing.
    pub open spec fn lens_read(self, lens: Option<Seq<char>>) -> Connecting {
        Connecting {
            task: ConnectTask::Done,
            lens: match lens {
                Some(l) => l,
                None => Seq::empty(),
            },
            ..self
        }
    }
}

impl ConnectRun {
    /// A connection that has not begun. `want` is the folder that was chosen, if any, and
    /// `usual` the one that is used otherwise.
    pub fn new(want: &str, usual: Option<String>) -> (r: ConnectRun)
        ensures
            r@ == (Connecting {
                task: ConnectTask::Enumerate,
                dir: picture_dir(want@, string_of(usual)),
                model: Seq::empty(),
                lens: Seq::empty(),
                error: Seq::empty(),
            }),
    {
        let dir: String = if want.unicode_len() > 0 {
            want.to_string()
        } else {
            match usual {
                Some(d) => d,
                None => "captures".to_string(),
            }
        };
        let r = ConnectRun {
            task: ConnectTask::Enumerate,
            dir,
            model: String::new(),
            lens: String::new(),
            error: String::new(),
        };
        assert(r.model@ =~= Seq::<char>::empty() && r.lens@ =~= Seq::<char>::empty() && r.error@
            =~= Seq::<char>::empty());
        r
    }

    /// A run that broke down, and why.
    pub fn broken(error: &str) -> (r: ConnectRun)
        ensures
            r@ == (Connecting {
                task: ConnectTask::Failed,
                dir: Seq::empty(),
                model: Seq::empty(),
                lens: Seq::empty(),
                error: error@,
            }),
    {
        let r = ConnectRun {
            task: ConnectTask::Failed,
            dir: String::new(),
            model: String::new(),
            lens: String::new(),
            error: error.to_string(),
        };
        assert(r.dir@ =~= Seq::<char>::empty() && r.model@ =~= Seq::<char>::empty() && r.lens@
            =~= Seq::<char>::empty());
        r
    }

    fn fail(&mut self, prefix: &str, e: &str)
        ensures
            final(self)@ == (Connecting {
                task: ConnectTask::Failed,
                error: prefix@ + e@,
                ..old(self)@
            }),
    {
        let mut t = String::new();
        t.append(prefix);
        t.append(e);
        assert(t@ =~= prefix@ + e@);
        self.error = t;
        self.task = ConnectTask::Failed;
    }

    /// Takes in the cameras that were found, by their names.
    pub fn enumerated(&mut self, models: &Result<Vec<String>, String>)
        requires
            old(self).task is Enumerate,
        ensures
            final(self)@ == old(self)@.enumerated(*models),
    {
        match models {
            Err(e) => {
                self.fail("enumerate: ", e.as_str());
            },
            Ok(list) => {
                if list.len() == 0 {
                    self.error = "no cameras detected (check USB / PC Remote mode)".to_string();
                    self.task = ConnectTask::Failed;
                } else {
                    self.model = list[0].clone();
                    self.task = ConnectTask::Locate;
                }
            },
        }
    }

    /// Takes in how a task went.
    pub fn worked(&mut self, result: &Result<(), String>)
        ensures
            final(self)@ == old(self)@.worked(*result),
    {
        match self.task {
            ConnectTask::Locate => match result {
                Ok(_) => {
                    self.task = ConnectTask::Open;
                },
                Err(e) => {
                    self.fail("camera_ptr: ", e.as_str());
                },
            },
            ConnectTask::Open => match result {
                Ok(_) => {
                    self.task = ConnectTask::Claim;
                },
                Err(e) => {
                    self.fail("connect: ", e.as_str());
                },
            },
            ConnectTask::Claim => {
                self.task = ConnectTask::MakeFolder;
            },
            ConnectTask::MakeFolder => {
                self.task = ConnectTask::SetFolder;
            },
            ConnectTask::SetFolder => {
                self.task = ConnectTask::ReadLens;
            },
            _ => {},
        }
    }

    /// Takes in the name of the lens.
    pub fn lens_read(&mut self, lens: Option<String>)
        requires
            old(self).task is ReadLens,
        ensures
            final(self)@ == old(self)@.lens_read(string_of(lens)),
    {
        self.lens = match lens {
            Some(l) => l,
            None => {
                let e = String::new();
                assert(e@ =~= Seq::<char>::empty());
                e
            },
        };
        self.task = ConnectTask::Done;
    }
}

/// What a run that has ended comes to: a connection where it is done, else its error.
pub open spec fn run_outcome(c: Connecting) -> Result<(), Seq<char>> {
    if c.task is Done {
        Ok(())
    } else {
        Err(c.error)
    }
}

/// What a run that has ended comes to.
pub fn connect_result(run: &ConnectRun) -> (r: Result<(), String>)
    ensures
        result_of(r) == run_outcome(run@),
{
    match run.task {
        ConnectTask::Done => Ok(()),
        _ => Err(run.error.clone()),
    }
}

/// Takes over what a run came to, and gives the flag back. Where it is done, its camera `made`
/// is the one that is connected and its folder the one for pictures; where it failed, both
/// stay as they were.
pub fn settle<C>(
    run: ConnectRun,
    made: Option<C>,
    camera: &mut Option<C>,
    save_path: &mut String,
    connecting: &mut RunFlag,
) -> (r: Result<(), String>)
    requires
        run.task is Done ==> made is Some,
    ensures
        result_of(r) == run_outcome(run@),
        r is Ok ==> *final(camera) == made && final(save_path)@ == run@.dir,
        r is Err ==> *final(camera) == *old(camera) && final(save_path)@ == old(save_path)@,
        !final(connecting)@,
{
    let r = connect_result(&run);
    if r.is_ok() {
        *camera = made;
        *save_path = run.dir;
    }
    connecting.finish();
    r
}

/// A request to connect that succeeds leaves a camera connected, by itself or from before; one
/// that fails leaves camera and folder as they were. The flag is held afterwards exactly where
/// somebody else holds it.
pub proof fn law_success_means_connected<C>(
    before: Option<C>,
    made: Option<C>,
    connecting: bool,
    c: Connecting,
)
    requires
        c.task is Done ==> made is Some,
    ensures
        ({
            let (outcome, after, held) = attempt(before, made, connecting, c);
            &&& outcome is Ok ==> after is Some
            &&& outcome is Err ==> after == before
            &&& before is Some ==> after == before && outcome is Ok
            &&& held == connecting
        }),
{
}

/// A request to connect as a whole: what it comes to, the camera that is connected then, and
/// whether the flag is held. `c` is the run that is made, if one is, and `made` its camera.
pub open spec fn attempt<C>(
    before: Option<C>,
    made: Option<C>,
    connecting: bool,
    c: Connecting,
) -> (Result<(), Seq<char>>, Option<C>, bool) {
    match gate_outcome(gate(before is Some, connecting)) {
        Some(outcome) => (outcome, before, connecting),
        None => (
            run_outcome(c),
            if run_outcome(c) is Ok {
                made
            } else {
                before
            },
            false,
        ),
    }
}

/// Once the camera is connected nothing spoils it: whatever goes wrong with its settings,
/// the folder or the lens, the connection is reported with the camera's name and the folder.
pub proof fn law_connected_stays_connected(
    c: Connecting,
    claim: Result<(), String>,
    make: Result<(), String>,
    set: Result<(), String>,
    lens: Option<Seq<char>>,
)
    requires
        c.task is Claim,
    ensures
        ({
            let d = c.worked(claim).worked(make).worked(set).lens_read(lens);
            &&& d.task is Done
            &&& d.model == c.model
            &&& d.dir == c.dir
            &&& d.error == c.error
        }),
{
}

/// What is said of the connection.
#[derive(Debug)]
pub enum Status {
    /// There is one.
    Connected {
        /// The name of the camera.
        model: String,
        /// The number of the device, in hexadecimal.
        handle: String,
        /// The folder for pictures.
        save_path: String,
        /// The name of the lens.
        lens_model: String,
    },
    /// There is none.
    Disconnected,
}

/// A number as the bits that stand for it.
pub open spec fn as_bits(handle: i64) -> nat {
    if handle < 0 {
        (handle + 0x1_0000_0000_0000_0000) as nat
    } else {
        handle as nat
    }
}

/// The number of a device, in hexadecimal.
pub fn handle_text(handle: i64) -> (r: String)
    ensures
        r@ == hex(as_bits(handle), 8),
{
    let bits: u64 = if handle < 0 {
        (handle as i128 + 0x1_0000_0000_0000_0000) as u64
    } else {
        handle as u64
    };
    hex_text(bits, 8)
}

/// What is said of the connection, given the camera's device, name and lens.
pub fn status(camera: Option<(i64, String, String)>, save_path: &str) -> (r: Status)
    ensures
        match (camera, r) {
            (
                Some((h, name, lens)),
                Status::Connected { model, handle, save_path: dir, lens_model },
            ) => {
                &&& model@ == name@
                &&& handle@ == hex(as_bits(h), 8)
                &&& dir@ == save_path@
                &&& lens_model@ == lens@
            },
            (None, Status::Disconnected) => true,
            _ => false,
        },
{
    match camera {
        Some((h, model, lens_model)) => Status::Connected {
            model,
            handle: handle_text(h),
            save_path: save_path.to_string(),
            lens_model,
        },
        None => Status::Disconnected,
    }
}

/// The words of the first `n` characters of a text, and the word that they end in.
pub open spec fn words_upto(s: Seq<char>, n: int) -> (Seq<Seq<char>>, Seq<char>)
    decreases n,
{
    if n <= 0 {
        (Seq::empty(), Seq::empty())
    } else {
        let (done, word) = words_upto(s, n - 1);
        if is_white(s[n - 1]) {
            (
                if word.len() > 0 {
                    done.push(word)
                } else {
                    done
                },
                Seq::empty(),
            )
        } else {
            (done, word.push(s[n - 1]))
        }
    }
}

/// The words of a text, parted by space.
pub open spec fn words(s: Seq<char>) -> Seq<Seq<char>> {
    let (done, word) = words_upto(s, s.len() as int);
    if word.len() > 0 {
        done.push(word)
    } else {
        done
    }
}

/// Whether a character is a decimal digit.
pub open spec fn is_digit(c: char) -> bool {
    '0' <= c && c <= '9'
}

/// The number that the first `n` digits are.
pub open spec fn number(s: Seq<char>, n: int) -> int
    decreases n,
{
    if n <= 0 {
        0
    } else {
        10 * number(s, n - 1) + (s[n - 1] as int - '0' as int)
    }
}

/// The digits of a word: what is behind a plus sign, or all of it.
pub open spec fn digits_of(w: Seq<char>) -> Seq<char> {
    if w.len() > 0 && w[0] == '+' {
        w.skip(1)
    } else {
        w
    }
}

/// The number of thirty-two bits that a word is, if it is one.
pub open spec fn as_u32(w: Seq<char>) -> Option<u32> {
    let d = digits_of(w);
    if d.len() > 0 && (forall|i: int| 0 <= i < d.len() ==> is_digit(#[trigger] d[i])) && number(
        d,
        d.len() as int,
    ) <= u32::MAX {
        Some(number(d, d.len() as int) as u32)
    } else {
        None
    }
}

/// The numbers among words, without the given one.
pub open spec fn numbers_but(ws: Seq<Seq<char>>, me: u32) -> Seq<u32>
    decreases ws.len(),
{
    if ws.len() == 0 {
        Seq::empty()
    } else {
        let before = numbers_but(ws.drop_last(), me);
        match as_u32(ws.last()) {
            Some(n) => if n != me {
                before.push(n)
            } else {
                before
            },
            None => before,
        }
    }
}

proof fn lemma_number_grows(s: Seq<char>, n: int, m: int)
    requires
        0 <= n <= m <= s.len(),
        forall|i: int| 0 <= i < s.len() ==> is_digit(#[trigger] s[i]),
    ensures
        0 <= number(s, n) <= number(s, m),
    decreases m,
{
    if n < m {
        lemma_number_grows(s, n, m - 1);
        assert(is_digit(s[m - 1]));
    } else if n > 0 {
        lemma_number_grows(s, n - 1, n - 1);
        assert(is_digit(s[n - 1]));
    }
}

fn digit_value(c: char) -> (r: Option<u64>)
    ensures
        match r {
            Some(d) => is_digit(c) && d == c as int - '0' as int && d <= 9,
            None => !is_digit(c),
        },
{
    let n = c as u32;
    if 48 <= n && n <= 57 {
        Some((n - 48) as u64)
    } else {
        None
    }
}

/// The number of thirty-two bits that a word is, if it is one.
pub fn parse_u32(w: &Vec<char>) -> (r: Option<u32>)
    ensures
        r == as_u32(w@),
{
    let start: usize = if w.len() > 0 && w[0] == '+' {
        1
    } else {
        0
    };
    let ghost d = digits_of(w@);
    assert(d =~= w@.skip(start as int));
    if w.len() == start {
        return None;
    }
    let mut v: u64 = 0;
    let mut i: usize = start;
    while i < w.len()
        invariant
            start <= i <= w@.len(),
            start <= 1,
            d == w@.skip(start as int),
            d == digits_of(w@),
            d.len() > 0,
            forall|k: int| 0 <= k < i - start ==> is_digit(#[trigger] d[k]),
            v == number(d, i - start),
            v <= u32::MAX,
        decreases w.len() - i,
    {
        assert(d[i - start] == w@[i as int]);
        match digit_value(w[i]) {
            Some(x) => {
                v = 10 * v + x;
            },
            None => {
                assert(!is_digit(d[i - start]));
                return None;
            },
        }
        i = i + 1;
        if v > u32::MAX as u64 {
            proof {
                if forall|k: int| 0 <= k < d.len() ==> is_digit(#[trigger] d[k]) {
                    lemma_number_grows(d, i - start, d.len() as int);
                }
            }
            return None;
        }
    }
    Some(v as u32)
}

/// The other instances that run, out of a list of process numbers.
pub fn other_pids(printed: &str, me: u32) -> (r: Vec<u32>)
    ensures
        r@ == numbers_but(words(printed@), me),
{
    let s = to_chars(printed);
    let mut out: Vec<u32> = Vec::new();
    let mut word: Vec<char> = Vec::new();
    let mut i: usize = 0;
    while i < s.len()
        invariant
            i <= s@.len(),
            s@ == printed@,
            word@ == words_upto(s@, i as int).1,
            out@ == numbers_but(words_upto(s@, i as int).0, me),
        decreases s.len() - i,
    {
        if is_whitespace(s[i]) {
            if word.len() > 0 {
                let ghost done = words_upto(s@, i as int).0;
                assert(done.push(word@).drop_last() =~= done);
                if let Some(n) = parse_u32(&word) {
                    if n != me {
                        out.push(n);
                    }
                }
                word = Vec::new();
            }
            assert(word@ =~= Seq::<char>::empty());
        } else {
            word.push(s[i]);
        }
        i = i + 1;
    }
    if word.len() > 0 {
        let ghost done = words_upto(s@, s@.len() as int).0;
        assert(done.push(word@).drop_last() =~= done);
        if let Some(n) = parse_u32(&word) {
            if n != me {
                out.push(n);
            }
        }
    }
    out
}

/// What to do about other instances that were asked to stop.
#[derive(Clone, Copy, Debug, PartialEq, Eq, Structural)]
pub enum StopStep {
    /// None is left.
    Clear,
    /// Wait and look again.
    Wait,
    /// Make them stop.
    Force,
}

/// How often other instances are waited for.
pub const STOP_POLLS: u32 = 30;

/// What to do after the look that is number `polls`: an instance gets its time to let go of
/// the camera before it is made to stop.
pub fn after_poll(polls: u32, others: usize) -> (r: StopStep)
    ensures
        r == (if others == 0 {
            StopStep::Clear
        } else if polls < 30 {
            StopStep::Wait
        } else {
            StopStep::Force
        }),
{
    if others == 0 {
        StopStep::Clear
    } else if polls < STOP_POLLS {
        StopStep::Wait
    } else {
        StopStep::Force
    }
}

/// An instance never counts itself among the others.
pub proof fn law_never_one_of_the_others(ws: Seq<Seq<char>>, me: u32)
    ensures
        !numbers_but(ws, me).contains(me),
    decreases ws.len(),
{
    if ws.len() > 0 {
        law_never_one_of_the_others(ws.drop_last(), me);
        let before = numbers_but(ws.drop_last(), me);
        let after = numbers_but(ws, me);
        if after.contains(me) {
            let i = choose|i: int| 0 <= i < after.len() && after[i] == me;
            assert(i < before.len());
            assert(before[i] == me);
            assert(before.contains(me));
        }
    }
}

/// Somebody who asks for a connection that is there, or that another is making, changes nothing:
/// the one is told so, the other is refused. Otherwise the attempt decides, and the flag is
/// given back.
pub proof fn law_one_connection_at_a_time<C>(
    before: Option<C>,
    made: Option<C>,
    connecting: bool,
    c: Connecting,
)
    ensures
        ({
            let (outcome, after, held) = attempt(before, made, connecting, c);
            &&& before is Some ==> outcome is Ok && after == before && held == connecting
            &&& before is None && connecting ==> outcome == Err::<(), Seq<char>>(
                "already connecting"@,
            ) && after is None && held
            &&& before is None && !connecting && c.task is Done ==> outcome is Ok && after == made
                && !held
            &&& before is None && !connecting && !(c.task is Done) ==> outcome == Err::<
                (),
                Seq<char>,
            >(c.error) && after is None && !held
        }),
{
}

/// Connecting takes its steps in order. It fails where cameras cannot be looked for or none is
/// there, where the first one cannot be found, or cannot be opened, and says so. Once it is open
/// nothing makes it fail: what else is set up may go wrong.
pub proof fn law_connecting_takes_its_steps(c: Connecting, result: Result<(), String>)
    ensures
        c.task is Locate ==> match result {
            Ok(_) => c.worked(result) == (Connecting { task: ConnectTask::Open, ..c }),
            Err(e) => c.worked(result) == (Connecting {
                task: ConnectTask::Failed,
                error: "camera_ptr: "@ + e@,
                ..c
            }),
        },
        c.task is Open ==> match result {
            Ok(_) => c.worked(result) == (Connecting { task: ConnectTask::Claim, ..c }),
            Err(e) => c.worked(result) == (Connecting {
                task: ConnectTask::Failed,
                error: "connect: "@ + e@,
                ..c
            }),
        },
        c.task is Claim ==> c.worked(result) == (Connecting { task: ConnectTask::MakeFolder, ..c }),
        c.task is MakeFolder ==> c.worked(result) == (Connecting {
            task: ConnectTask::SetFolder,
            ..c
        }),
        c.task is SetFolder ==> c.worked(result) == (Connecting { task: ConnectTask::ReadLens, ..c }),
        c.task is Done || c.task is Failed ==> c.worked(result) == c,
{
}

/// The first camera that is found is the one that is connected.
pub proof fn law_first_camera_is_taken(
    c: Connecting,
    models: Result<Vec<String>, String>,
    lens: Option<Seq<char>>,
)
    ensures
        ({
            let d = c.enumerated(models);
            match models {
                Err(e) => d.task is Failed && d.error == "enumerate: "@ + e@,
                Ok(list) => if list@.len() > 0 {
                    &&& d.task is Locate
                    &&& d.model == list@.first()@
                    &&& d.error == c.error
                } else {
                    &&& d.task is Failed
                    &&& d.error == "no cameras detected (check USB / PC Remote mode)"@
                },
            }
        }),
        c.enumerated(models).dir == c.dir,
        c.lens_read(lens).task is Done,
        lens matches Some(l) ==> c.lens_read(lens).lens == l,
        lens is None ==> c.lens_read(lens).lens.len() == 0,
        c.lens_read(lens).dir == c.dir && c.lens_read(lens).model == c.model,
{
}

/// Pictures go to the folder asked for, else to the usual one, else to one of that name.
pub proof fn law_picture_folder(want: Seq<char>, usual: Option<Seq<char>>)
    ensures
        want.len() > 0 ==> picture_dir(want, usual) == want,
        want.len() == 0 && usual is Some ==> picture_dir(want, usual) == usual->0,
        want.len() == 0 && usual is None ==> picture_dir(want, usual) == "captures"@,
{
}

/// A handle is shown as its bits: a negative one as what it is short of two to the sixty-fourth.
pub proof fn law_handle_is_shown_as_bits(handle: i64)
    ensures
        handle >= 0 ==> as_bits(handle) == handle,
        handle < 0 ==> as_bits(handle) == handle + 0x1_0000_0000_0000_0000,
        as_bits(handle) <= u64::MAX,
{
}

/// Whether a word of a text lies from place `a` up to place `b`: it holds no white space, and has
/// white space or the end of the text on either side.
pub open spec fn is_word(s: Seq<char>, a: int, b: int) -> bool {
    &&& 0 <= a < b <= s.len()
    &&& forall|i: int| a <= i < b ==> !is_white(#[trigger] s[i])
    &&& a > 0 ==> is_white(s[a - 1])
    &&& b < s.len() ==> is_white(s[b])
}

/// Whether `at` are the places of the words that end before place `n`, in their order.
spec fn places_words(s: Seq<char>, n: int, at: Seq<(int, int)>) -> bool {
    let (done, word) = words_upto(s, n);
    let open = n - word.len();
    &&& 0 <= open
    &&& word == s.subrange(open, n)
    &&& forall|i: int| open <= i < n ==> !is_white(#[trigger] s[i])
    &&& open > 0 ==> is_white(s[open - 1])
    &&& at.len() == done.len()
    &&& forall|k: int|
        0 <= k < at.len() ==> is_word(s, (#[trigger] at[k]).0, at[k].1) && at[k].1 <= open && done[k]
            == s.subrange(at[k].0, at[k].1)
    &&& forall|k: int, m: int| 0 <= k < m < at.len() ==> (#[trigger] at[k]).1 < (#[trigger] at[m]).0
    &&& forall|i: int|
        0 <= i < open && !is_white(#[trigger] s[i]) ==> exists|k: int|
            0 <= k < at.len() && (#[trigger] at[k]).0 <= i < at[k].1
    &&& forall|k: int| 0 <= k < at.len() ==> (#[trigger] at[k]).1 < open || open == n
    &&& forall|k: int| 0 <= k < at.len() && open < n ==> (#[trigger] at[k]).1 < open
}

proof fn lemma_words(s: Seq<char>, n: int) -> (at: Seq<(int, int)>)
    requires
        0 <= n <= s.len(),
    ensures
        places_words(s, n, at),
    decreases n,
{
    if n == 0 {
        assert(words_upto(s, 0).1 =~= s.subrange(0, 0));
        Seq::empty()
    } else {
        let before = lemma_words(s, n - 1);
        let (done, word) = words_upto(s, n - 1);
        let open = n - 1 - word.len();
        if is_white(s[n - 1]) {
            assert(words_upto(s, n).1 =~= s.subrange(n, n));
            if word.len() > 0 {
                let at = before.push((open, n - 1));
                assert(is_word(s, open, n - 1));
                assert forall|i: int| 0 <= i < n && !is_white(#[trigger] s[i]) implies exists|k: int|
                    0 <= k < at.len() && (#[trigger] at[k]).0 <= i < at[k].1 by {
                    if i >= open {
                        assert(at[at.len() - 1].0 <= i < at[at.len() - 1].1);
                    } else {
                        let k = choose|k: int|
                            0 <= k < before.len() && (#[trigger] before[k]).0 <= i < before[k].1;
                        assert(at[k] == before[k]);
                    }
                }
                at
            } else {
                before
            }
        } else {
            assert(words_upto(s, n).1 =~= s.subrange(open, n));
            before
        }
    }
}

/// The words of a text are what stands between its white space, in their order: `at` are their
/// places. Every other character is white space.
pub proof fn law_words_stand_between_space(s: Seq<char>) -> (at: Seq<(int, int)>)
    ensures
        at.len() == words(s).len(),
        forall|k: int|
            0 <= k < at.len() ==> is_word(s, (#[trigger] at[k]).0, at[k].1) && words(s)[k]
                == s.subrange(at[k].0, at[k].1),
        forall|k: int, m: int|
            0 <= k < m < at.len() ==> (#[trigger] at[k]).1 < (#[trigger] at[m]).0,
        forall|i: int|
            0 <= i < s.len() && !is_white(#[trigger] s[i]) ==> exists|k: int|
                0 <= k < at.len() && (#[trigger] at[k]).0 <= i < at[k].1,
{
    let n = s.len() as int;
    let before = lemma_words(s, n);
    let (done, word) = words_upto(s, n);
    let open = n - word.len();
    if word.len() > 0 {
        let at = before.push((open, n));
        assert(is_word(s, open, n));
        assert forall|i: int| 0 <= i < n && !is_white(#[trigger] s[i]) implies exists|k: int|
            0 <= k < at.len() && (#[trigger] at[k]).0 <= i < at[k].1 by {
            if i >= open {
                assert(at[at.len() - 1].0 <= i < at[at.len() - 1].1);
            } else {
                let k = choose|k: int|
                    0 <= k < before.len() && (#[trigger] before[k]).0 <= i < before[k].1;
                assert(at[k] == before[k]);
            }
        }
        at
    } else {
        before
    }
}

proof fn lemma_number_is_worth(s: Seq<char>, n: int)
    requires
        0 <= n <= s.len(),
        forall|i: int| 0 <= i < s.len() ==> '0' <= #[trigger] s[i] && s[i] <= '9',
    ensures
        number(s, n) == worth(s.take(n), 10),
    decreases n,
{
    if n > 0 {
        lemma_number_is_worth(s, n - 1);
        assert(s.take(n).drop_last() =~= s.take(n - 1));
        assert('0' <= s[n - 1] && s[n - 1] <= '9');
    }
}

/// A word without a plus before it.
pub open spec fn behind_plus(w: Seq<char>) -> Seq<char> {
    if w.len() > 0 && w.first() == '+' {
        w.subrange(1, w.len() as int)
    } else {
        w
    }
}

/// Whether a text is a row of decimal digits.
pub open spec fn is_row_of_digits(d: Seq<char>) -> bool {
    d.len() > 0 && forall|i: int| 0 <= i < d.len() ==> '0' <= #[trigger] d[i] && d[i] <= '9'
}

/// A word is a number where it is a row of decimal digits, a plus before it or not, and stands for
/// one of thirty-two bits; it is the number that it stands for.
pub proof fn law_numbers_are_read(w: Seq<char>)
    ensures
        match as_u32(w) {
            Some(n) => is_row_of_digits(behind_plus(w)) && worth(behind_plus(w), 10) == n,
            None => !is_row_of_digits(behind_plus(w)) || worth(behind_plus(w), 10) > u32::MAX,
        },
{
    let d = digits_of(w);
    assert(d =~= behind_plus(w));
    if is_row_of_digits(d) {
        lemma_number_is_worth(d, d.len() as int);
        assert(d.take(d.len() as int) =~= d);
        assert forall|i: int| 0 <= i < d.len() implies is_digit(#[trigger] d[i]) by {}
        lemma_worth_is_positive(d);
    } else if d.len() > 0 {
        let i = choose|i: int| 0 <= i < d.len() && !('0' <= #[trigger] d[i] && d[i] <= '9');
        assert(!is_digit(d[i]));
    }
}

proof fn lemma_worth_is_positive(d: Seq<char>)
    requires
        forall|i: int| 0 <= i < d.len() ==> '0' <= #[trigger] d[i] && d[i] <= '9',
    ensures
        worth(d, 10) >= 0,
    decreases d.len(),
{
    if d.len() > 0 {
        let e = d.drop_last();
        assert forall|i: int| 0 <= i < e.len() implies '0' <= #[trigger] e[i] && e[i] <= '9' by {
            assert(e[i] == d[i]);
        }
        lemma_worth_is_positive(e);
        assert('0' <= d[d.len() - 1] && d[d.len() - 1] <= '9');
    }
}

/// The other processes are all the numbers among the words but one's own, in their order: `at` are
/// the places of their words.
pub proof fn law_others_are_listed(ws: Seq<Seq<char>>, me: u32) -> (at: Seq<int>)
    ensures
        at.len() == numbers_but(ws, me).len(),
        forall|i: int|
            0 <= i < at.len() ==> 0 <= #[trigger] at[i] < ws.len() && as_u32(ws[at[i]]) == Some(
                numbers_but(ws, me)[i],
            ) && numbers_but(ws, me)[i] != me,
        forall|i: int, j: int| 0 <= i < j < at.len() ==> #[trigger] at[i] < #[trigger] at[j],
        forall|k: int|
            0 <= k < ws.len() && !at.contains(k) ==> as_u32(#[trigger] ws[k]) is None || as_u32(
                ws[k],
            ) == Some(me),
    decreases ws.len(),
{
    if ws.len() == 0 {
        Seq::empty()
    } else {
        let before = law_others_are_listed(ws.drop_last(), me);
        let k = ws.len() - 1;
        let at = match as_u32(ws.last()) {
            Some(n) => if n != me {
                before.push(k)
            } else {
                before
            },
            None => before,
        };
        assert forall|m: int| 0 <= m < ws.len() && !at.contains(m) implies as_u32(#[trigger] ws[m])
            is None || as_u32(ws[m]) == Some(me) by {
            if m < k {
                if before.contains(m) {
                    let i = choose|i: int| 0 <= i < before.len() && before[i] == m;
                    assert(at[i] == m);
                }
                assert(ws.drop_last()[m] == ws[m]);
            } else if at.len() > before.len() {
                assert(at[at.len() - 1] == m);
            }
        }
        assert forall|i: int| 0 <= i < at.len() implies 0 <= #[trigger] at[i] < ws.len() && as_u32(
            ws[at[i]],
        ) == Some(numbers_but(ws, me)[i]) && numbers_but(ws, me)[i] != me by {
            if i < before.len() {
                assert(at[i] == before[i] && ws.drop_last()[before[i]] == ws[before[i]]);
            }
        }
        at
    }
}

} // verus!
