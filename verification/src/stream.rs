//! What is sent out while the camera runs: its events, and the live view.
use vstd::prelude::*;

use crate::json::{download_event, quote};
use crate::text::{
    decimal, law_decimal_reads_back, push_decimal, push_signed, signed_decimal, to_chars, worth,
};

verus! {

/// What the camera reports.
#[derive(Debug)]
pub enum CameraEvent {
    /// The connection stands.
    Connected {
        /// Version of the protocol.
        version: u32,
    },
    /// The connection is gone.
    Disconnected {
        /// Why.
        error: u32,
    },
    /// A setting has changed.
    PropertyChanged,
    /// A setting of the live view has changed.
    LvPropertyChanged,
    /// A warning.
    Warning(u32),
    /// A warning with details.
    WarningExt {
        /// Which.
        code: u32,
        /// First detail.
        p1: i32,
        /// Second detail.
        p2: i32,
        /// Third detail.
        p3: i32,
    },
    /// A failure.
    Error(u32),
    /// A picture has been saved on this machine.
    DownloadComplete {
        /// Where.
        filename: String,
        /// What it is.
        kind: u32,
    },
}

/// An event as one line of JSON.
pub open spec fn event_text(ev: CameraEvent) -> Seq<char> {
    match ev {
        CameraEvent::Connected { version } => "{\"type\":\"connected\",\"version\":"@ + decimal(
            version as nat,
        ) + "}"@,
        CameraEvent::Disconnected { error } => "{\"type\":\"disconnected\",\"error\":"@ + decimal(
            error as nat,
        ) + "}"@,
        CameraEvent::PropertyChanged => "{\"type\":\"property_changed\"}"@,
        CameraEvent::LvPropertyChanged => "{\"type\":\"lv_property_changed\"}"@,
        CameraEvent::Warning(code) => "{\"type\":\"warning\",\"code\":"@ + decimal(code as nat)
            + "}"@,
        CameraEvent::WarningExt { code, p1, p2, p3 } => "{\"type\":\"warning_ext\",\"code\":"@
            + decimal(code as nat) + ",\"p1\":"@ + signed_decimal(p1 as int) + ",\"p2\":"@
            + signed_decimal(p2 as int) + ",\"p3\":"@ + signed_decimal(p3 as int) + "}"@,
        CameraEvent::Error(code) => "{\"type\":\"error\",\"code\":"@ + decimal(code as nat) + "}"@,
        CameraEvent::DownloadComplete { filename, kind } => download_event(filename@, kind as nat),
    }
}

/// An event as one line of JSON.
pub fn event_json(ev: &CameraEvent) -> (r: String)
    ensures
        r@ == event_text(*ev),
{
    let mut r = String::new();
    match ev {
        CameraEvent::Connected { version } => {
            r.append("{\"type\":\"connected\",\"version\":");
            push_decimal(&mut r, *version as u64);
            r.append("}");
        },
        CameraEvent::Disconnected { error } => {
            r.append("{\"type\":\"disconnected\",\"error\":");
            push_decimal(&mut r, *error as u64);
            r.append("}");
        },
        CameraEvent::PropertyChanged => {
            r.append("{\"type\":\"property_changed\"}");
        },
        CameraEvent::LvPropertyChanged => {
            r.append("{\"type\":\"lv_property_changed\"}");
        },
        CameraEvent::Warning(code) => {
            r.append("{\"type\":\"warning\",\"code\":");
            push_decimal(&mut r, *code as u64);
            r.append("}");
        },
        CameraEvent::WarningExt { code, p1, p2, p3 } => {
            r.append("{\"type\":\"warning_ext\",\"code\":");
            push_decimal(&mut r, *code as u64);
            r.append(",\"p1\":");
            push_signed(&mut r, *p1 as i64);
            r.append(",\"p2\":");
            push_signed(&mut r, *p2 as i64);
            r.append(",\"p3\":");
            push_signed(&mut r, *p3 as i64);
            r.append("}");
        },
        CameraEvent::Error(code) => {
            r.append("{\"type\":\"error\",\"code\":");
            push_decimal(&mut r, *code as u64);
            r.append("}");
        },
        CameraEvent::DownloadComplete { filename, kind } => {
            r.append("{\"type\":\"download_complete\",\"filename\":");
            match quote(filename.as_str()) {
                Some(q) => r.append(q.as_str()),
                None => {},
            }
            r.append(",\"kind\":");
            push_decimal(&mut r, *kind as u64);
            r.append("}");
        },
    }
    assert(r@ =~= event_text(*ev));
    r
}

/// What the server does on an event, besides passing it on.
#[derive(Debug)]
pub struct EventEffect {
    /// The line that is passed on.
    pub line: String,
    /// The picture that is now the last one.
    pub last_image: Option<String>,
    /// Whether the camera is gone, so that the session has to be cleared.
    pub gone: bool,
}

/// Takes in an event: it is passed on; a picture that was saved under a name becomes the
/// last one; after a disconnection the session is cleared.
pub fn on_event(ev: &CameraEvent) -> (r: EventEffect)
    ensures
        r.line@ == event_text(*ev),
        r.gone == (ev is Disconnected),
        match *ev {
            CameraEvent::DownloadComplete { filename, kind } => if filename@.len() > 0 {
                r.last_image matches Some(f) && f@ == filename@
            } else {
                r.last_image is None
            },
            _ => r.last_image is None,
        },
{
    let line = event_json(ev);
    match ev {
        CameraEvent::DownloadComplete { filename, kind } => {
            let last_image = if filename.as_str().unicode_len() > 0 {
                Some(filename.clone())
            } else {
                None
            };
            EventEffect { line, last_image, gone: false }
        },
        CameraEvent::Disconnected { error } => EventEffect { line, last_image: None, gone: true },
        _ => EventEffect { line, last_image: None, gone: false },
    }
}

/// The bytes of a text of seven-bit characters.
pub open spec fn ascii(s: Seq<char>) -> Seq<u8> {
    Seq::new(s.len(), |i: int| s[i] as u8)
}

/// Appends the bytes of a text.
fn push_ascii(out: &mut Vec<u8>, s: &str)
    ensures
        final(out)@ == old(out)@ + ascii(s@),
{
    let chars = to_chars(s);
    let mut i: usize = 0;
    while i < chars.len()
        invariant
            i <= chars@.len(),
            chars@ == s@,
            out@ == old(out)@ + ascii(s@).take(i as int),
        decreases chars.len() - i,
    {
        out.push(#[verifier::truncate] (chars[i] as u8));
        assert(ascii(s@).take(i + 1) =~= ascii(s@).take(i as int).push(ascii(s@)[i as int]));
        assert(out@ =~= old(out)@ + ascii(s@).take(i + 1));
        i = i + 1;
    }
    assert(ascii(s@).take(s@.len() as int) =~= ascii(s@));
}

/// What stands before a frame in the live-view stream.
pub open spec fn part_head(len: nat) -> Seq<u8> {
    ascii("--frame\r\nContent-Type: image/jpeg\r\nContent-Length: "@) + ascii(decimal(len)) + ascii(
        "\r\n\r\n"@,
    )
}

/// A frame as one part of the live-view stream: boundary, type, length, the frame, and a
/// line end.
pub fn mjpeg_part(frame: &[u8]) -> (r: Vec<u8>)
    ensures
        r@ == part_head(frame@.len()) + frame@ + ascii("\r\n"@),
{
    let mut r: Vec<u8> = Vec::new();
    push_ascii(&mut r, "--frame\r\nContent-Type: image/jpeg\r\nContent-Length: ");
    let mut n = String::new();
    push_decimal(&mut n, frame.len() as u64);
    assert(n@ =~= decimal(frame@.len()));
    push_ascii(&mut r, n.as_str());
    push_ascii(&mut r, "\r\n\r\n");
    r.extend_from_slice(frame);
    push_ascii(&mut r, "\r\n");
    assert(r@ =~= part_head(frame@.len()) + frame@ + ascii("\r\n"@));
    r
}

/// The bytes of a part that its head announces are the frame.
pub proof fn law_part_holds_the_frame(frame: Seq<u8>)
    ensures
        ({
            let part = part_head(frame.len()) + frame + ascii("\r\n"@);
            let at = part_head(frame.len()).len() as int;
            part.subrange(at, at + frame.len()) == frame
        }),
{
    let part = part_head(frame.len()) + frame + ascii("\r\n"@);
    let at = part_head(frame.len()).len() as int;
    assert(part.subrange(at, at + frame.len()) =~= frame);
}

/// How an attempt to open the live view ended.
#[derive(Clone, Copy, Debug, PartialEq, Eq, Structural)]
pub enum OpenResult {
    /// It is open.
    Opened,
    /// The camera is not ready for it.
    NotReady,
    /// It cannot be opened.
    Failed,
}

/// What to do after an attempt to open the live view.
#[derive(Clone, Copy, Debug, PartialEq, Eq, Structural)]
pub enum OpenStep {
    /// Stream.
    Stream,
    /// Wait a moment and try again.
    Retry,
    /// Leave it.
    GiveUp,
}

/// How often the live view is tried.
pub const OPEN_TRIES: u32 = 20;

/// What to do after the attempt that is number `tries`: a camera that is not ready is tried
/// up to twenty times.
pub fn after_open(tries: u32, result: OpenResult) -> (r: OpenStep)
    ensures
        r == match result {
            OpenResult::Opened => OpenStep::Stream,
            OpenResult::Failed => OpenStep::GiveUp,
            OpenResult::NotReady => if tries < 20 {
                OpenStep::Retry
            } else {
                OpenStep::GiveUp
            },
        },
{
    match result {
        OpenResult::Opened => OpenStep::Stream,
        OpenResult::Failed => OpenStep::GiveUp,
        OpenResult::NotReady => if tries < OPEN_TRIES {
            OpenStep::Retry
        } else {
            OpenStep::GiveUp
        },
    }
}

/// What came of asking the camera for a live-view frame.
#[derive(Clone, Copy, Debug, PartialEq, Eq, Structural)]
pub enum Fetched {
    /// A frame.
    Frame,
    /// No new frame yet.
    Nothing,
    /// An error.
    Failed,
}

/// What to do with it.
#[derive(Clone, Copy, Debug, PartialEq, Eq, Structural)]
pub enum LvStep {
    /// Send the frame out.
    Send,
    /// Wait a moment.
    Wait,
    /// Stop; clear the session too, where that is said.
    Stop {
        /// Whether the session has to be cleared.
        clear: bool,
    },
}

/// A running live view.
#[derive(Debug)]
pub struct LvRun {
    /// The device whose frames are sent.
    pub handle: i64,
    /// The number of frames that were sent.
    pub sent: u64,
}

impl LvRun {
    /// A live view that has sent nothing.
    pub fn new(handle: i64) -> (r: LvRun)
        ensures
            r.handle == handle,
            r.sent == 0,
    {
        LvRun { handle, sent: 0 }
    }

    /// What to do next, given what the camera said and which device is connected now. An
    /// error ends the live view. After more than ten frames it counts as a lost connection,
    /// and the session is cleared if it is still that of this device.
    pub fn step(&mut self, fetched: Fetched, connected: Option<i64>) -> (r: LvStep)
        requires
            old(self).sent < u64::MAX,
        ensures
            final(self).handle == old(self).handle,
            final(self).sent == (if fetched is Frame {
                old(self).sent + 1
            } else {
                old(self).sent as int
            }),
            r == match fetched {
                Fetched::Frame => LvStep::Send,
                Fetched::Nothing => LvStep::Wait,
                Fetched::Failed => LvStep::Stop {
                    clear: old(self).sent > 10 && connected == Some(old(self).handle),
                },
            },
    {
        match fetched {
            Fetched::Frame => {
                self.sent = self.sent + 1;
                LvStep::Send
            },
            Fetched::Nothing => LvStep::Wait,
            Fetched::Failed => {
                let same = match connected {
                    Some(h) => h == self.handle,
                    None => false,
                };
                LvStep::Stop { clear: self.sent > 10 && same }
            },
        }
    }
}

/// A part of the stream says how long its frame is: behind the head stands the length in decimal
/// digits, then an empty line, then the frame. Every character is one byte.
pub proof fn law_part_says_its_length(frame: Seq<u8>, s: Seq<char>, i: int)
    requires
        0 <= i < s.len(),
    ensures
        ascii(s).len() == s.len(),
        ascii(s)[i] == s[i] as u8,
        part_head(frame.len()) == ascii(
            "--frame\r\nContent-Type: image/jpeg\r\nContent-Length: "@,
        ) + ascii(decimal(frame.len())) + ascii("\r\n\r\n"@),
        worth(decimal(frame.len()), 10) == frame.len(),
{
    law_decimal_reads_back(frame.len() as int);
}

} // verus!
