//! Connecting to a camera, and letting go of it in the right order.
use vstd::prelude::*;

use crate::stream::CameraEvent;
use crate::text::to_chars;

verus! {

/// How the camera is reached.
#[derive(Clone, Copy, Debug)]
pub enum ConnectMode<'a> {
    /// By cable, without a password.
    Usb,
    /// Over the network, with a password and the camera's fingerprint.
    Wifi {
        /// The password that the camera shows.
        password: &'a str,
        /// The fingerprint that was fetched from it.
        fingerprint: &'a [u8],
        /// The name that the camera shows when it is paired.
        pairing_name: &'a str,
    },
}

/// What the camera is called with.
#[derive(Debug)]
pub struct ConnectArgs {
    /// User name.
    pub user: String,
    /// Password.
    pub password: String,
    /// Fingerprint.
    pub fingerprint: Vec<u8>,
    /// Name for pairing.
    pub pairing: String,
}

/// Whether a text holds a zero character, so that it cannot be handed on.
pub open spec fn has_nul(s: Seq<char>) -> bool {
    exists|i: int| 0 <= i < s.len() && #[trigger] s[i] == '\0'
}

/// Whether a text holds a zero character.
pub fn holds_nul(s: &str) -> (r: bool)
    ensures
        r == has_nul(s@),
{
    let v = to_chars(s);
    let mut i: usize = 0;
    while i < v.len()
        invariant
            i <= v@.len(),
            v@ == s@,
            forall|k: int| 0 <= k < i ==> #[trigger] s@[k] != '\0',
        decreases v.len() - i,
    {
        if v[i] == '\0' {
            assert(s@[i as int] == '\0');
            return true;
        }
        i = i + 1;
    }
    false
}

/// What the camera is called with: by cable with the user name alone.
pub fn connect_args(mode: &ConnectMode<'_>) -> (r: ConnectArgs)
    requires
        match *mode {
            ConnectMode::Usb => true,
            ConnectMode::Wifi { password, fingerprint, pairing_name } => {
                !has_nul(password@) && !has_nul(pairing_name@)
            },
        },
    ensures
        r.user@ == "admin"@,
        match *mode {
            ConnectMode::Usb => {
                &&& r.password@ == Seq::<char>::empty()
                &&& r.fingerprint@ == Seq::<u8>::empty()
                &&& r.pairing@ == Seq::<char>::empty()
            },
            ConnectMode::Wifi { password, fingerprint, pairing_name } => {
                &&& r.password@ == password@
                &&& r.fingerprint@ == fingerprint@
                &&& r.pairing@ == pairing_name@
            },
        },
{
    match mode {
        ConnectMode::Usb => {
            let r = ConnectArgs {
                user: "admin".to_string(),
                password: String::new(),
                fingerprint: Vec::new(),
                pairing: String::new(),
            };
            assert(r.password@ =~= Seq::<char>::empty() && r.pairing@ =~= Seq::<char>::empty());
            assert(r.fingerprint@ =~= Seq::<u8>::empty());
            r
        },
        ConnectMode::Wifi { password, fingerprint, pairing_name } => {
            let mut bytes: Vec<u8> = Vec::new();
            bytes.extend_from_slice(*fingerprint);
            assert(bytes@ =~= fingerprint@);
            ConnectArgs {
                user: "admin".to_string(),
                password: (*password).to_string(),
                fingerprint: bytes,
                pairing: (*pairing_name).to_string(),
            }
        },
    }
}

/// What to make of the code that opening the camera gave: an error is passed on, and there is
/// nothing to let go of then.
pub fn opened(code: i32, is_error: bool) -> (r: Result<(), ConnectError>)
    ensures
        r == (if is_error {
            Err::<(), ConnectError>(ConnectError::Failed(code))
        } else {
            Ok(())
        }),
{
    if is_error {
        Err(ConnectError::Failed(code))
    } else {
        Ok(())
    }
}

/// What is heard while the connection is waited for.
#[derive(Debug)]
pub enum ConnectHeard {
    /// An event of the camera.
    Event(CameraEvent),
    /// The time is up, or no event can come any more.
    Over,
}

/// Why there is no connection.
#[derive(Clone, Copy, Debug, PartialEq, Eq, Structural)]
pub enum ConnectError {
    /// The camera refused, with this code.
    Failed(i32),
    /// It did not answer in time.
    Timeout,
}

/// What to make of what is heard.
#[derive(Clone, Copy, Debug, PartialEq, Eq, Structural)]
pub enum ConnectStep {
    /// Wait on.
    Wait,
    /// The connection stands.
    Ready,
    /// There is none.
    Stop(ConnectError),
}

/// A code read with its sign.
pub open spec fn signed_code(e: u32) -> int {
    if e >= 0x8000_0000 {
        e - 0x1_0000_0000
    } else {
        e as int
    }
}

/// What to make of what is heard: only the word that the connection stands, an error, or the
/// end of the time decide. The camera may report other things before.
pub open spec fn connect_decision(heard: ConnectHeard) -> ConnectStep {
    match heard {
        ConnectHeard::Event(CameraEvent::Connected { .. }) => ConnectStep::Ready,
        ConnectHeard::Event(CameraEvent::Error(e)) => ConnectStep::Stop(
            ConnectError::Failed(signed_code(e) as i32),
        ),
        ConnectHeard::Event(_) => ConnectStep::Wait,
        ConnectHeard::Over => ConnectStep::Stop(ConnectError::Timeout),
    }
}

/// What to make of what is heard while the connection is waited for.
pub fn await_connected(heard: &ConnectHeard) -> (r: ConnectStep)
    ensures
        r == connect_decision(*heard),
{
    match heard {
        ConnectHeard::Event(ev) => match ev {
            CameraEvent::Connected { .. } => ConnectStep::Ready,
            CameraEvent::Error(e) => {
                let code: i32 = (if *e >= 0x8000_0000 {
                    *e as i64 - 0x1_0000_0000
                } else {
                    *e as i64
                }) as i32;
                ConnectStep::Stop(ConnectError::Failed(code))
            },
            _ => ConnectStep::Wait,
        },
        ConnectHeard::Over => ConnectStep::Stop(ConnectError::Timeout),
    }
}

/// What the wait comes to, from `i` on.
pub open spec fn wait_outcome(heard: Seq<ConnectHeard>, i: int) -> ConnectStep
    decreases heard.len() - i,
{
    if i >= heard.len() {
        ConnectStep::Wait
    } else if connect_decision(heard[i]) is Wait {
        wait_outcome(heard, i + 1)
    } else {
        connect_decision(heard[i])
    }
}

/// Reports that come before the word that the connection stands, such as changed settings or
/// warnings, do not spoil it, however many they are.
pub proof fn law_early_reports_do_not_spoil(heard: Seq<ConnectHeard>, i: int, k: int)
    requires
        0 <= i <= k < heard.len(),
        forall|j: int| i <= j < k ==> connect_decision(#[trigger] heard[j]) is Wait,
        heard[k] matches ConnectHeard::Event(ev) && ev is Connected,
    ensures
        wait_outcome(heard, i) is Ready,
    decreases k - i,
{
    if i < k {
        assert(connect_decision(heard[i]) is Wait);
        law_early_reports_do_not_spoil(heard, i + 1, k);
    }
}

/// A connected camera: its device, and where its events come from. `R` is the receiving end.
#[derive(Debug)]
pub struct Camera<R> {
    handle: i64,
    events: Option<R>,
}

impl<R> Camera<R> {
    /// The number of the device.
    pub closed spec fn handle(self) -> i64 {
        self.handle
    }

    /// Where its events come from, until somebody takes it.
    pub closed spec fn receiver(self) -> Option<R> {
        self.events
    }

    /// A camera that has just been connected.
    pub fn new(handle: i64, events: R) -> (r: Camera<R>)
        ensures
            r.handle() == handle,
            r.receiver() == Some(events),
    {
        Camera { handle, events: Some(events) }
    }

    /// The number of the device.
    pub fn device_handle(&self) -> (r: i64)
        ensures
            r == self.handle(),
    {
        self.handle
    }

    /// Where its events come from; it must not have been taken.
    pub fn events(&mut self) -> (r: &mut R)
        requires
            old(self).receiver() is Some,
        ensures
            *r == old(self).receiver()->0,
            final(self).handle() == old(self).handle(),
            final(self).receiver() == Some(*final(r)),
    {
        self.events.as_mut().unwrap()
    }

    /// Takes the receiving end: the first call has it, later ones have nothing.
    pub fn take_events(&mut self) -> (r: Option<R>)
        ensures
            r == old(self).receiver(),
            final(self).receiver() is None,
            final(self).handle() == old(self).handle(),
    {
        self.events.take()
    }
}

/// A step of letting go of a camera.
#[derive(Clone, Copy, Debug, PartialEq, Eq, Structural)]
pub enum Teardown {
    /// Make its reports lead nowhere.
    Silence,
    /// End the connection.
    Disconnect,
    /// Give the device back.
    Release,
    /// Free what its reports went to.
    Free,
}

/// The step that letting go begins with: a camera that was opened is let go of from the
/// first; of one that was not, there is only what its reports would have gone to.
pub open spec fn teardown_start(live: bool) -> Teardown {
    if live {
        Teardown::Silence
    } else {
        Teardown::Free
    }
}

/// The step that letting go begins with, given whether the camera was opened.
pub fn first_teardown(live: bool) -> (r: Teardown)
    ensures
        r == teardown_start(live),
{
    if live {
        Teardown::Silence
    } else {
        Teardown::Free
    }
}

/// The step behind a step, if there is one.
pub fn after_teardown(step: Teardown) -> (r: Option<Teardown>)
    ensures
        r == teardown_next(step),
{
    match step {
        Teardown::Silence => Some(Teardown::Disconnect),
        Teardown::Disconnect => Some(Teardown::Release),
        Teardown::Release => Some(Teardown::Free),
        Teardown::Free => None,
    }
}

/// The step behind a step, if there is one.
pub open spec fn teardown_next(step: Teardown) -> Option<Teardown> {
    match step {
        Teardown::Silence => Some(Teardown::Disconnect),
        Teardown::Disconnect => Some(Teardown::Release),
        Teardown::Release => Some(Teardown::Free),
        Teardown::Free => None,
    }
}

/// The steps from a step on.
pub open spec fn teardown_from(step: Teardown, fuel: nat) -> Seq<Teardown>
    decreases fuel,
{
    if fuel == 0 {
        Seq::empty()
    } else {
        seq![step] + match teardown_next(step) {
            Some(next) => teardown_from(next, (fuel - 1) as nat),
            None => Seq::empty(),
        }
    }
}

/// Letting go of a camera that was opened frees what its reports went to only after they were
/// made to lead nowhere and the device was given back, each step once. Where the camera was
/// not opened, nothing is disconnected or given back.
pub proof fn law_teardown_order(fuel: nat)
    requires
        fuel >= 4,
    ensures
        teardown_from(teardown_start(true), fuel) == seq![
            Teardown::Silence,
            Teardown::Disconnect,
            Teardown::Release,
            Teardown::Free,
        ],
        teardown_from(teardown_start(false), fuel) == seq![Teardown::Free],
{
    reveal_with_fuel(teardown_from, 5);
    assert(teardown_from(Teardown::Free, fuel) =~= seq![Teardown::Free]);
    assert(teardown_from(Teardown::Silence, fuel) =~= seq![
        Teardown::Silence,
        Teardown::Disconnect,
        Teardown::Release,
        Teardown::Free,
    ]);
}

/// Why the folder for pictures could not be set.
#[derive(Clone, Copy, Debug, PartialEq, Eq, Structural)]
pub enum SaveInfoError {
    /// A text cannot be handed on.
    StringConversion,
    /// The camera refused, with this code.
    Sdk(i32),
}

/// Whether the folder and the prefix can be handed on.
pub fn check_save_info(dir: &str, prefix: &str) -> (r: Result<(), SaveInfoError>)
    ensures
        match r {
            Ok(_) => !has_nul(dir@) && !has_nul(prefix@),
            Err(e) => (has_nul(dir@) || has_nul(prefix@)) && e == SaveInfoError::StringConversion,
        },
{
    if holds_nul(dir) || holds_nul(prefix) {
        Err(SaveInfoError::StringConversion)
    } else {
        Ok(())
    }
}

/// What to make of the camera's answer: a warning is no refusal.
pub fn save_info_result(code: i32, is_error: bool, is_warning: bool) -> (r: Result<
    (),
    SaveInfoError,
>)
    ensures
        r == (if is_error && !is_warning {
            Err::<(), SaveInfoError>(SaveInfoError::Sdk(code))
        } else {
            Ok(())
        }),
{
    if is_error && !is_warning {
        Err(SaveInfoError::Sdk(code))
    } else {
        Ok(())
    }
}

/// What is heard from a camera decides the wait for it at once, or not at all: that it is connected
/// ends it well, an error ends it with the error's number as one of thirty-two bits with a sign,
/// and the end of all waiting ends it without one. Everything else is waited through.
pub proof fn law_what_ends_the_wait(heard: ConnectHeard)
    ensures
        match heard {
            ConnectHeard::Over => {
                connect_decision(heard) == ConnectStep::Stop(ConnectError::Timeout)
            },
            ConnectHeard::Event(ev) => match ev {
                CameraEvent::Connected { .. } => connect_decision(heard) is Ready,
                CameraEvent::Error(e) => {
                    &&& connect_decision(heard) matches ConnectStep::Stop(ConnectError::Failed(c))
                    &&& c == e || c == e - 0x1_0000_0000
                },
                _ => connect_decision(heard) is Wait,
            },
        },
{
}

/// The first report that ends the wait decides it, whatever follows.
pub proof fn law_first_report_decides(heard: Seq<ConnectHeard>, i: int, k: int)
    requires
        0 <= i <= k <= heard.len(),
        forall|j: int| i <= j < k ==> connect_decision(#[trigger] heard[j]) is Wait,
        k < heard.len() ==> !(connect_decision(heard[k]) is Wait),
    ensures
        k < heard.len() ==> wait_outcome(heard, i) == connect_decision(heard[k]),
        k == heard.len() ==> wait_outcome(heard, i) is Wait,
    decreases k - i,
{
    if i < k {
        assert(connect_decision(heard[i]) is Wait);
        law_first_report_decides(heard, i + 1, k);
    }
}

/// A text that holds the character nought cannot be handed to the camera.
pub proof fn law_nul_is_seen(s: Seq<char>)
    ensures
        has_nul(s) <==> s.contains('\0'),
{
}

} // verus!
