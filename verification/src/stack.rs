//! Stacking sessions: live-view frames as they come, or the pictures of a folder.
use vstd::prelude::*;

use crate::autofocus::{is_plain, measure, sharpness, UNIT};
use crate::grid::total;
use crate::jpeg::{
    decode_rgb, decoding, encode_with, jpeg_encoding, lemma_countable, read_jpeg, rgb_outcome, to_rgb,
    DecodedJpeg, ImageErrorView, JpegImage, RgbFrame, RgbView,
};
use crate::order::{law_ranking_falls, rank, ranking, ranks};
use crate::reply::{reply, Answer, Reply, BAD_REQUEST};
use crate::stacker::{law_frames_are_laid_on_the_first, Mode, Stack, Stacker};
use crate::stars::MAX_PIXELS;
use crate::storage::{embedded, extract_embedded_jpeg};
use crate::text::{
    decimal, eq_ignore_ascii_case, is_trimmed, is_white, lemma_trimmed_unique, lowered, push_decimal,
    same_text, trim,
};

verus! {

/// By what frames are moved onto one another.
#[derive(Clone, Copy, Debug, PartialEq, Eq, Structural)]
pub enum Align {
    /// By the stars.
    Stars,
    /// By the centre of light.
    Centroid,
    /// By a part of the frame: centre and half its side, in billionths of the frame.
    Roi {
        /// Column of the centre.
        cx: i64,
        /// Row of the centre.
        cy: i64,
        /// Half the side.
        half: i64,
    },
}

/// What is asked for by name: by the stars, unless it is the centre of light or a part that
/// is given.
pub open spec fn align_named(name: Option<Seq<char>>, roi: Option<(i64, i64, i64)>) -> Align {
    if name == Some("centroid"@) {
        Align::Centroid
    } else if name == Some("roi"@) {
        match roi {
            Some((cx, cy, half)) => Align::Roi { cx, cy, half },
            None => Align::Stars,
        }
    } else {
        Align::Stars
    }
}

/// What an optional text holds.
pub open spec fn text_of(s: Option<&str>) -> Option<Seq<char>> {
    match s {
        Some(t) => Some(t@),
        None => None,
    }
}

/// Reads by what frames are to be aligned.
pub fn parse_align(name: Option<&str>, roi: Option<(i64, i64, i64)>) -> (r: Align)
    ensures
        r == align_named(text_of(name), roi),
{
    match name {
        Some(n) => {
            if same_text(n, "centroid") {
                return Align::Centroid;
            }
            if same_text(n, "roi") {
                if let Some((cx, cy, half)) = roi {
                    return Align::Roi { cx, cy, half };
                }
            }
            Align::Stars
        },
        None => Align::Stars,
    }
}

/// What is asked for by name: the mean, unless it is the brightest.
pub open spec fn mode_named(name: Option<Seq<char>>) -> Mode {
    if name == Some("lighten"@) {
        Mode::Lighten
    } else {
        Mode::Average
    }
}

/// Reads how frames are to be merged.
pub fn parse_mode(name: Option<&str>) -> (r: Mode)
    ensures
        r == mode_named(text_of(name)),
{
    match name {
        Some(n) => if same_text(n, "lighten") {
            Mode::Lighten
        } else {
            Mode::Average
        },
        None => Mode::Average,
    }
}

/// Whether a text is all space.
pub open spec fn is_blank(s: Seq<char>) -> bool {
    is_trimmed(s, Seq::empty())
}

/// The folder that a request is about: the one it names, unless that is blank, else the one
/// where pictures are saved.
pub open spec fn folder_of(asked: Option<Seq<char>>, save_path: Seq<char>) -> Seq<char> {
    match asked {
        Some(d) => if is_blank(d) {
            save_path
        } else {
            d
        },
        None => save_path,
    }
}

/// The answer where there is no folder.
pub open spec fn no_folder() -> Answer {
    Answer { status: BAD_REQUEST, text: "no folder (set save path or pass dir)"@ }
}

/// The folder that a request is about; there has to be one.
pub fn choose_folder(asked: Option<&str>, save_path: &str) -> (r: Result<String, Reply>)
    ensures
        match r {
            Ok(d) => d@ == folder_of(text_of(asked), save_path@) && d@.len() > 0,
            Err(e) => folder_of(text_of(asked), save_path@).len() == 0 && e@ == no_folder(),
        },
{
    let mut dir: String = save_path.to_string();
    if let Some(d) = asked {
        let t = trim(d);
        if t.as_str().unicode_len() > 0 {
            proof {
                if is_blank(d@) {
                    lemma_trimmed_unique(d@, t@, Seq::empty());
                }
            }
            dir = d.to_string();
        } else {
            assert(t@ =~= Seq::<char>::empty());
        }
    }
    if dir.as_str().unicode_len() == 0 {
        Err(reply(BAD_REQUEST, "no folder (set save path or pass dir)"))
    } else {
        Ok(dir)
    }
}

/// The name of a picture that is saved at the given second.
pub fn stamped_name(prefix: &str, secs: u64) -> (r: String)
    ensures
        r@ == prefix@ + decimal(secs as nat) + ".jpg"@,
{
    let mut r = String::new();
    r.append(prefix);
    push_decimal(&mut r, secs);
    r.append(".jpg");
    assert(r@ =~= prefix@ + decimal(secs as nat) + ".jpg"@);
    r
}

/// What a session stands for.
pub struct Session {
    pub mode: Mode,
    pub stack: Option<Stack>,
}

impl Session {
    /// The stack that a frame is offered to: the first frame makes one of its size, later
    /// ones need that size.
    pub open spec fn target(self, f: RgbView) -> Option<Stack> {
        match self.stack {
            None => Some(
                Stack { w: f.w, h: f.h, mode: self.mode, reference: None, frames: Seq::empty() },
            ),
            Some(st) => if st.w == f.w && st.h == f.h {
                Some(st)
            } else {
                None
            },
        }
    }

    /// The session after a frame, or after one that could not be read.
    pub open spec fn fed(self, f: Result<RgbView, ImageErrorView>) -> Session {
        match f {
            Err(_) => self,
            Ok(f) => match self.target(f) {
                None => self,
                Some(st) => Session { stack: Some(st.offered(f.rgb)), ..self },
            },
        }
    }

    /// Whether a frame becomes part of the stack.
    pub open spec fn takes(self, f: Result<RgbView, ImageErrorView>) -> bool {
        f matches Ok(f) && (self.target(f) matches Some(st) && st.placement(f.rgb) is Some)
    }

    /// The number of frames in the stack.
    pub open spec fn count(self) -> int {
        match self.stack {
            None => 0,
            Some(st) => st.frames.len() as int,
        }
    }
}

/// A stack that grows frame by frame, its size that of the first frame that could be read.
pub struct StackSession {
    mode: Mode,
    stack: Option<Stacker>,
}

impl View for StackSession {
    type V = Session;

    closed spec fn view(&self) -> Session {
        Session {
            mode: self.mode,
            stack: match self.stack {
                None => None,
                Some(st) => Some(st@),
            },
        }
    }
}

impl StackSession {
    /// The stack inside is sound.
    pub closed spec fn wf(self) -> bool {
        self.stack matches Some(st) ==> st.wf()
    }

    /// A session without a frame.
    pub fn new(mode: Mode) -> (r: StackSession)
        ensures
            r.wf(),
            r@ == (Session { mode, stack: None }),
    {
        StackSession { mode, stack: None }
    }

    /// The number of frames in the stack.
    pub fn count(&self) -> (r: u32)
        requires
            self.wf(),
        ensures
            r == self@.count(),
    {
        match &self.stack {
            None => 0,
            Some(st) => st.count(),
        }
    }

    /// Offers a frame.
    pub fn offer_frame(&mut self, f: &RgbFrame) -> (r: bool)
        requires
            old(self).wf(),
            f@.wf(),
            f.w * f.h <= MAX_PIXELS,
            old(self)@.count() < u32::MAX,
        ensures
            final(self).wf(),
            final(self)@ == old(self)@.fed(Ok(f@)),
            r == old(self)@.takes(Ok(f@)),
    {
        assert(f.rgb@.len() == f.rgb.len());
        assert(0 <= f.w * f.h) by (nonlinear_arith)
            requires
                0 <= f.w,
                0 <= f.h,
        ;
        let mut st = match self.stack.take() {
            None => Stacker::new(f.w, f.h, self.mode),
            Some(st) => {
                if st.width() != f.w || st.height() != f.h {
                    self.stack = Some(st);
                    return false;
                }
                st
            },
        };
        let taken = st.add(f.rgb.as_slice());
        self.stack = Some(st);
        taken
    }

    /// Offers a JPEG frame. One that cannot be read is passed over.
    pub fn offer(&mut self, jpeg: &[u8]) -> (r: bool)
        requires
            old(self).wf(),
            old(self)@.count() < u32::MAX,
        ensures
            final(self).wf(),
            final(self)@ == old(self)@.fed(rgb_outcome(decoding(jpeg@))),
            r == old(self)@.takes(rgb_outcome(decoding(jpeg@))),
    {
        match decode_rgb(jpeg) {
            Ok(f) => {
                assert(f.w * f.h <= 0xFFFF * 0xFFFF) by (nonlinear_arith)
                    requires
                        0 <= f.w <= 0xFFFF,
                        0 <= f.h <= 0xFFFF,
                ;
                self.offer_frame(&f)
            },
            Err(_) => false,
        }
    }

    /// The stack as a JPEG, if there is one.
    pub fn preview(&self, quality: u8) -> (r: Option<Vec<u8>>)
        requires
            self.wf(),
        ensures
            match (self@.stack, r) {
                (None, None) => true,
                (Some(st), Some(v)) => jpeg_encoding(st.rgb(), st.w as u16, st.h as u16, quality)
                    == Ok::<Seq<u8>, Seq<char>>(v@),
                (Some(st), None) => jpeg_encoding(st.rgb(), st.w as u16, st.h as u16, quality) is Err,
                _ => false,
            },
            self@.stack matches Some(st) ==> (0 < st.w <= u16::MAX && 0 < st.h <= u16::MAX ==> r
                is Some),
    {
        match &self.stack {
            None => None,
            Some(st) => {
                let rgb = st.render();
                let (w, h) = (st.width(), st.height());
                proof {
                    assert(rgb@.len() == rgb.len());
                    lemma_countable(w, h);
                }
                match encode_with(w, h, rgb.as_slice(), quality) {
                    Ok(v) => Some(v),
                    Err(_) => None,
                }
            },
        }
    }
}

/// Whether the live preview is to be drawn anew: after a frame was taken, if the last
/// drawing is old enough.
pub fn preview_is_due(taken: bool, elapsed_ms: u64) -> (r: bool)
    ensures
        r == (taken && elapsed_ms >= 400),
{
    taken && elapsed_ms >= 400
}

/// Whether a file name extension is that of a picture that can be stacked.
pub open spec fn stackable(ext: Seq<char>) -> bool {
    lowered(ext) == lowered("jpg"@) || lowered(ext) == lowered("jpeg"@) || is_raw(ext)
}

/// Whether a file name extension is that of a raw file.
pub open spec fn is_raw(ext: Seq<char>) -> bool {
    lowered(ext) == lowered("arw"@)
}

/// Whether a file of this extension can be stacked.
pub fn is_stackable(ext: &str) -> (r: bool)
    ensures
        r == stackable(ext@),
{
    eq_ignore_ascii_case(ext, "jpg") || eq_ignore_ascii_case(ext, "jpeg") || eq_ignore_ascii_case(
        ext,
        "arw",
    )
}

/// How many files of a folder are looked at: thirty, or as many as asked for between two
/// and two hundred.
pub open spec fn file_limit(asked: Option<usize>) -> int {
    match asked {
        None => 30,
        Some(n) => if n < 2 {
            2
        } else if n > 200 {
            200
        } else {
            n as int
        },
    }
}

/// The first `n` of a list, or all of it where it is shorter.
pub open spec fn first_of(order: Seq<usize>, n: int) -> Seq<usize> {
    if order.len() <= n {
        order
    } else {
        order.take(n)
    }
}

/// The files of a folder that are looked at, the latest first, given when each was
/// modified.
pub fn recent_files(mtimes: &Vec<u128>, asked: Option<usize>) -> (r: Vec<usize>)
    ensures
        r@ == first_of(ranking(mtimes@), file_limit(asked)),
        forall|i: int| 0 <= i < r@.len() ==> #[trigger] r@[i] < mtimes@.len(),
{
    let limit: usize = match asked {
        None => 30,
        Some(n) => if n < 2 {
            2
        } else if n > 200 {
            200
        } else {
            n
        },
    };
    let mut order = rank(mtimes);
    if order.len() > limit {
        order.truncate(limit);
        assert(order@ =~= ranking(mtimes@).take(limit as int));
    }
    order
}

/// The part of the files that is asked for, if only the sharpest are: between nothing and
/// all of them, in billionths.
pub open spec fn lucky_part(best: Option<i64>) -> Option<int> {
    match best {
        Some(f) => if 0 < f < UNIT {
            Some(f as int)
        } else {
            None
        },
        None => None,
    }
}

/// How many of `n` files are kept: the part asked for, rounded up, and never less than two.
pub open spec fn lucky_count(n: int, part: int) -> int {
    let k = (n * part + UNIT - 1) / (UNIT as int);
    if k < 2 {
        2
    } else {
        k
    }
}

/// The places of the scores that are there, among the first `n`.
pub open spec fn scored(scores: Seq<Option<u64>>, n: int) -> Seq<usize>
    decreases n,
{
    if n <= 0 {
        Seq::empty()
    } else if scores[n - 1] is Some {
        scored(scores, n - 1).push((n - 1) as usize)
    } else {
        scored(scores, n - 1)
    }
}

/// The scores at the given places.
pub open spec fn keys_at(scores: Seq<Option<u64>>, places: Seq<usize>) -> Seq<u128> {
    Seq::new(places.len(), |i: int| scores[places[i] as int]->0 as u128)
}

/// The entries of `list` at the given places.
pub open spec fn pick(list: Seq<usize>, places: Seq<usize>) -> Seq<usize> {
    Seq::new(places.len(), |i: int| list[places[i] as int])
}

/// The order in which files are stacked. Where only the sharpest are asked for: those that
/// could be scored, the sharpest first, so that it is the one the others are moved onto.
/// Otherwise: the oldest first.
pub open spec fn stacking_order(
    recent: Seq<usize>,
    scores: Seq<Option<u64>>,
    best: Option<i64>,
) -> Seq<usize> {
    match lucky_part(best) {
        Some(part) => {
            let places = scored(scores, scores.len() as int);
            let sharpest = first_of(
                ranking(keys_at(scores, places)),
                lucky_count(places.len() as int, part),
            );
            pick(recent, pick(places, sharpest))
        },
        None => recent.reverse(),
    }
}

/// Whether only the sharpest files are asked for, so that each has to be scored.
pub fn wants_scores(best: Option<i64>) -> (r: bool)
    ensures
        r == (lucky_part(best) is Some),
{
    match best {
        Some(f) => 0 < f && f < UNIT,
        None => false,
    }
}

proof fn lemma_scored(scores: Seq<Option<u64>>, n: int)
    requires
        0 <= n <= scores.len(),
        n <= usize::MAX,
    ensures
        scored(scores, n).len() <= n,
        forall|i: int|
            0 <= i < scored(scores, n).len() ==> #[trigger] scored(scores, n)[i] < n && scores[scored(
                scores,
                n,
            )[i] as int] is Some,
    decreases n,
{
    if n > 0 {
        lemma_scored(scores, n - 1);
    }
}

/// How many files are kept.
fn count_lucky(n: usize, part: i64) -> (r: usize)
    requires
        0 < part < UNIT,
    ensures
        r == lucky_count(n as int, part as int),
{
    assert(0 <= n * part <= n * 1_000_000_000) by (nonlinear_arith)
        requires
            0 <= n,
            0 <= part <= 1_000_000_000,
    ;
    let k: u128 = ((n as u128) * (part as u128) + (UNIT as u128) - 1) / (UNIT as u128);
    assert(k <= n);
    if k < 2 {
        2
    } else {
        k as usize
    }
}

/// The order in which the files of a folder are stacked, given the scores of the recent ones.
pub fn order_files(recent: &Vec<usize>, scores: &Vec<Option<u64>>, best: Option<i64>) -> (r: Vec<
    usize,
>)
    requires
        lucky_part(best) is Some ==> scores@.len() == recent@.len(),
    ensures
        r@ == stacking_order(recent@, scores@, best),
{
    let mut out: Vec<usize> = Vec::new();
    if let Some(part) = best {
        if 0 < part && part < UNIT {
            let mut places: Vec<usize> = Vec::new();
            let mut keys: Vec<u128> = Vec::new();
            let mut i: usize = 0;
            while i < scores.len()
                invariant
                    i <= scores@.len(),
                    places@ == scored(scores@, i as int),
                    keys@ == keys_at(scores@, places@),
                decreases scores.len() - i,
            {
                if let Some(v) = scores[i] {
                    places.push(i);
                    keys.push(v as u128);
                    assert(keys@ =~= keys_at(scores@, places@));
                }
                i = i + 1;
            }
            proof {
                assert(scores@.len() == scores.len());
                lemma_scored(scores@, scores@.len() as int);
            }
            let order = rank(&keys);
            let keep = count_lucky(places.len(), part);
            let ghost sharpest = first_of(order@, keep as int);
            let mut j: usize = 0;
            while j < order.len() && j < keep
                invariant
                    j <= order@.len(),
                    j <= keep,
                    recent@.len() == scores@.len(),
                    ranks(keys@, 0, keys@.len() as int, order@),
                    keys@.len() == places@.len(),
                    sharpest == first_of(order@, keep as int),
                    forall|k: int| 0 <= k < places@.len() ==> #[trigger] places@[k] < recent@.len(),
                    out@ == pick(recent@, pick(places@, sharpest)).take(j as int),
                decreases order.len() - j,
            {
                let ghost want = pick(recent@, pick(places@, sharpest));
                assert(places@[order@[j as int] as int] < recent@.len());
                out.push(recent[places[order[j]]]);
                assert(want.take(j + 1) =~= want.take(j as int).push(want[j as int]));
                j = j + 1;
            }
            assert(out@ =~= pick(recent@, pick(places@, sharpest)));
            return out;
        }
    }
    let mut i: usize = recent.len();
    while i > 0
        invariant
            i <= recent@.len(),
            out@ == recent@.reverse().take(recent@.len() - i),
        decreases i,
    {
        i = i - 1;
        let ghost k = recent@.len() - i;
        out.push(recent[i]);
        assert(recent@.reverse().take(k) =~= recent@.reverse().take(k - 1).push(
            recent@.reverse()[k - 1],
        ));
    }
    assert(out@ =~= recent@.reverse());
    out
}

/// The JPEG that stands for a picture file: of a raw file the preview inside.
pub open spec fn jpeg_of(ext: Seq<char>, bytes: Seq<u8>) -> Option<Seq<u8>> {
    if is_raw(ext) {
        embedded(bytes)
    } else {
        Some(bytes)
    }
}

/// What the decoder makes of a picture file.
pub open spec fn picture(ext: Seq<char>, bytes: Seq<u8>) -> Option<JpegImage> {
    match jpeg_of(ext, bytes) {
        None => None,
        Some(j) => match decoding(j) {
            Ok(img) => Some(img),
            Err(_) => None,
        },
    }
}

/// Opens a picture file.
fn open_picture(ext: &str, bytes: &[u8]) -> (r: Option<DecodedJpeg>)
    ensures
        match (r, picture(ext@, bytes@)) {
            (Some(d), Some(img)) => {
                &&& d.format == img.format
                &&& d.width == img.width
                &&& d.height == img.height
                &&& d@.is_plain() == img.is_plain()
                &&& img.is_plain() ==> d@ == img
            },
            (None, None) => true,
            _ => false,
        },
{
    let decoded = if eq_ignore_ascii_case(ext, "arw") {
        match extract_embedded_jpeg(bytes) {
            Some(j) => read_jpeg(j.as_slice()),
            None => {
                return None;
            },
        }
    } else {
        read_jpeg(bytes)
    };
    match decoded {
        Ok(d) => Some(d),
        Err(_) => None,
    }
}

/// A picture file as an RGB frame, if it can be read: grey or colour, eight bits each.
pub open spec fn picture_rgb(ext: Seq<char>, bytes: Seq<u8>) -> Option<RgbView> {
    match picture(ext, bytes) {
        None => None,
        Some(img) => match rgb_outcome(Ok(img)) {
            Ok(f) => Some(f),
            Err(_) => None,
        },
    }
}

/// Reads a saved picture into an RGB frame. Of a raw file it is the preview inside.
pub fn decode_to_rgb8(ext: &str, bytes: &[u8]) -> (r: Option<RgbFrame>)
    ensures
        match (r, picture_rgb(ext@, bytes@)) {
            (Some(f), Some(want)) => {
                &&& f@ == want
                &&& f@.wf()
                &&& f.w * f.h <= MAX_PIXELS
            },
            (None, None) => true,
            _ => false,
        },
{
    match open_picture(ext, bytes) {
        Some(d) => match to_rgb(d) {
            Ok(f) => {
                assert(f.w * f.h <= 0xFFFF * 0xFFFF) by (nonlinear_arith)
                    requires
                        0 <= f.w <= 0xFFFF,
                        0 <= f.h <= 0xFFFF,
                ;
                Some(f)
            },
            Err(_) => None,
        },
        None => None,
    }
}

/// The sharpness by which a saved picture is picked: that of the whole frame.
pub open spec fn picture_score(ext: Seq<char>, bytes: Seq<u8>) -> Option<int> {
    match picture(ext, bytes) {
        None => None,
        Some(img) => if !img.is_plain() {
            None
        } else {
            match sharpness(img, UNIT / 2, UNIT / 2, UNIT as int, UNIT as int) {
                Some(v) => Some(v),
                None => Some(0),
            }
        },
    }
}

/// The sharpness of a saved picture, if it can be read.
pub fn score_picture(ext: &str, bytes: &[u8]) -> (r: Option<u64>)
    ensures
        match (r, picture_score(ext@, bytes@)) {
            (Some(v), Some(want)) => v == want,
            (None, None) => true,
            _ => false,
        },
{
    match open_picture(ext, bytes) {
        Some(d) => if is_plain(&d) {
            match measure(&d, UNIT / 2, UNIT / 2, UNIT, UNIT) {
                Some(v) => Some(v),
                None => Some(0),
            }
        } else {
            None
        },
        None => None,
    }
}

/// A session after a number of frames, in their order.
pub open spec fn fed_all(s: Session, frames: Seq<Result<RgbView, ImageErrorView>>) -> Session
    decreases frames.len(),
{
    if frames.len() == 0 {
        s
    } else {
        fed_all(s, frames.drop_last()).fed(frames.last())
    }
}

/// Whatever frames a session is fed, its stack keeps the size of the first and never loses
/// a frame.
pub proof fn law_session_only_grows(s: Session, frames: Seq<Result<RgbView, ImageErrorView>>)
    ensures
        fed_all(s, frames).mode == s.mode,
        fed_all(s, frames).count() >= s.count(),
        s.stack matches Some(st) ==> (fed_all(s, frames).stack matches Some(t) && t.w == st.w && t.h
            == st.h),
    decreases frames.len(),
{
    if frames.len() > 0 {
        law_session_only_grows(s, frames.drop_last());
    }
}

/// A frame that cannot be read, or whose size is not that of the stack, changes nothing.
pub proof fn law_odd_frame_is_passed_over(s: Session, f: Result<RgbView, ImageErrorView>)
    requires
        f matches Ok(v) ==> (s.stack matches Some(st) && (st.w != v.w || st.h != v.h)),
    ensures
        s.fed(f) == s,
        !s.takes(f),
{
}

/// Of the files that could be scored, at least two are kept where there are two, and never
/// more than there are.
pub proof fn law_lucky_keeps_two(n: int, part: int)
    requires
        0 <= n,
        0 < part < UNIT,
    ensures
        2 <= lucky_count(n, part),
        lucky_count(n, part) <= n || lucky_count(n, part) == 2,
        n * part <= lucky_count(n, part) * UNIT,
{
    assert(n * part <= n * 1_000_000_000 && 0 <= n * part) by (nonlinear_arith)
        requires
            0 <= n,
            0 < part < 1_000_000_000,
    ;
}

/// Whether `os` are the first `n` of the places of a list that have a key, in falling order of
/// their keys and in the order of the list where they are equal: every place with a key that
/// is not among them comes behind them all.
pub open spec fn are_first(keys: Seq<Option<int>>, os: Seq<int>, n: int) -> bool {
    &&& os.len() <= n
    &&& forall|i: int|
        0 <= i < os.len() ==> 0 <= #[trigger] os[i] < keys.len() && keys[os[i]] is Some
    &&& forall|i: int, j: int|
        0 <= i < j < os.len() ==> leads(keys, #[trigger] os[i], #[trigger] os[j])
    &&& forall|p: int|
        0 <= p < keys.len() && (#[trigger] keys[p]) is Some && !os.contains(p) ==> os.len() == n
            && forall|i: int| 0 <= i < os.len() ==> leads(keys, #[trigger] os[i], p)
}

/// Whether place `a` has the greater key, or as great a one and comes first.
pub open spec fn leads(keys: Seq<Option<int>>, a: int, b: int) -> bool {
    keys[a]->0 > keys[b]->0 || (keys[a]->0 == keys[b]->0 && a < b)
}

/// The files of a folder that are stacked are its newest, the newest first: thirty, or as many as
/// asked for between two and two hundred; fewer only where there are no more.
pub proof fn law_newest_files_are_taken(mtimes: Seq<u128>, asked: Option<usize>)
    requires
        mtimes.len() <= 0xFFFF_FFFF,
    ensures
        ({
            let r = first_of(ranking(mtimes), file_limit(asked));
            let keys = Seq::new(mtimes.len(), |i: int| Some(mtimes[i] as int));
            let n = match asked {
                None => 30,
                Some(k) => if 2 <= k <= 200 {
                    k as int
                } else if k < 2 {
                    2
                } else {
                    200
                },
            };
            are_first(keys, Seq::new(r.len(), |i: int| r[i] as int), n)
        }),
{
    law_ranking_falls(mtimes);
    let order = ranking(mtimes);
    let n = file_limit(asked);
    let r = first_of(order, n);
    let keys = Seq::new(mtimes.len(), |i: int| Some(mtimes[i] as int));
    let os = Seq::new(r.len(), |i: int| r[i] as int);
    assert forall|i: int, j: int| 0 <= i < j < os.len() implies leads(
        keys,
        #[trigger] os[i],
        #[trigger] os[j],
    ) by {
        assert(order[i] == r[i] && order[j] == r[j]);
    }
    assert forall|p: int|
        0 <= p < keys.len() && (#[trigger] keys[p]) is Some && !os.contains(p) implies os.len() == n
        && forall|i: int| 0 <= i < os.len() ==> leads(keys, #[trigger] os[i], p) by {
        assert(order.contains(p as usize));
        let m = choose|m: int| 0 <= m < order.len() && order[m] == p as usize;
        if m < os.len() {
            assert(os[m] == p);
        }
        assert forall|i: int| 0 <= i < os.len() implies leads(keys, #[trigger] os[i], p) by {
            assert(order[i] == r[i] && order[m] == p);
        }
    }
}

proof fn lemma_all_scored(scores: Seq<Option<u64>>, n: int)
    requires
        0 <= n <= scores.len() <= 0xFFFF_FFFF,
    ensures
        scored(scores, n).len() == total(Seq::new(n as nat, |i: int| one_if(scores[i] is Some))),
        forall|i: int, j: int|
            0 <= i < j < scored(scores, n).len() ==> #[trigger] scored(scores, n)[i]
                < #[trigger] scored(scores, n)[j],
        forall|p: int|
            0 <= p < n && (#[trigger] scores[p]) is Some ==> scored(scores, n).contains(p as usize),
    decreases n,
{
    let ones = Seq::new(n as nat, |i: int| one_if(scores[i] is Some));
    if n > 0 {
        lemma_all_scored(scores, n - 1);
        lemma_scored(scores, n - 1);
        let (before, now) = (scored(scores, n - 1), scored(scores, n));
        assert(ones.drop_last() =~= Seq::new((n - 1) as nat, |i: int| one_if(scores[i] is Some)));
        assert forall|p: int| 0 <= p < n && (#[trigger] scores[p]) is Some implies now.contains(
            p as usize,
        ) by {
            if p < n - 1 {
                let i = choose|i: int| 0 <= i < before.len() && before[i] == p as usize;
                assert(now[i] == p as usize);
            } else {
                assert(now[now.len() - 1] == p as usize);
            }
        }
    }
}

/// One where something holds, else nought.
pub open spec fn one_if(b: bool) -> int {
    if b {
        1
    } else {
        0
    }
}

/// Where a part of the files is asked for, the sharpest of those that could be scored are
/// stacked, the sharpest first: as many as the part comes to, rounded up, and two at least.
/// `os` are their places among the recent files.
pub proof fn law_sharpest_files_are_stacked(
    recent: Seq<usize>,
    scores: Seq<Option<u64>>,
    part: i64,
) -> (os: Seq<int>)
    requires
        0 < part < 1_000_000_000,
        recent.len() == scores.len() <= 0xFFFF_FFFF,
    ensures
        stacking_order(recent, scores, Some(part)).len() == os.len(),
        forall|i: int|
            0 <= i < os.len() ==> stacking_order(recent, scores, Some(part))[i]
                == recent[#[trigger] os[i]],
        ({
            let keys = Seq::new(
                scores.len(),
                |i: int|
                    match scores[i] {
                        Some(v) => Some(v as int),
                        None => None,
                    },
            );
            let m = total(Seq::new(scores.len(), |i: int| one_if(scores[i] is Some)));
            exists|n: int|
                #![trigger are_first(keys, os, n)]
                n >= 2 && 1_000_000_000 * n >= m * part && (n == 2 || 1_000_000_000 * (n - 1) < m
                    * part) && are_first(keys, os, n)
        }),
{
    let len = scores.len() as int;
    let places = scored(scores, len);
    let sk = keys_at(scores, places);
    let order = ranking(sk);
    let m = places.len() as int;
    let n = lucky_count(m, part as int);
    let sharpest = first_of(order, n);
    lemma_scored(scores, len);
    lemma_all_scored(scores, len);
    law_ranking_falls(sk);
    let keys = Seq::new(
        scores.len(),
        |i: int|
            match scores[i] {
                Some(v) => Some(v as int),
                None => None,
            },
    );
    let os = Seq::new(sharpest.len(), |i: int| places[sharpest[i] as int] as int);
    assert forall|i: int| 0 <= i < os.len() implies 0 <= #[trigger] os[i] < keys.len()
        && keys[os[i]] is Some by {
        assert(sharpest[i] == order[i]);
        assert(places[order[i] as int] < len);
    }
    assert forall|i: int, j: int| 0 <= i < j < os.len() implies leads(
        keys,
        #[trigger] os[i],
        #[trigger] os[j],
    ) by {
        assert(sharpest[i] == order[i] && sharpest[j] == order[j]);
        let (a, b) = (order[i] as int, order[j] as int);
        assert(places[a] < len && places[b] < len);
    }
    assert forall|p: int|
        0 <= p < keys.len() && (#[trigger] keys[p]) is Some && !os.contains(p) implies os.len() == n
        && forall|i: int| 0 <= i < os.len() ==> leads(keys, #[trigger] os[i], p) by {
        assert(scores[p] is Some);
        let q = choose|q: int| 0 <= q < places.len() && places[q] == p as usize;
        assert(order.contains(q as usize));
        let t = choose|t: int| 0 <= t < order.len() && order[t] == q as usize;
        if t < os.len() {
            assert(sharpest[t] == order[t]);
            assert(os[t] == p);
        }
        assert forall|i: int| 0 <= i < os.len() implies leads(keys, #[trigger] os[i], p) by {
            assert(sharpest[i] == order[i] && order[t] == q);
            assert(places[order[i] as int] < len && places[q] < len);
        }
    }
    assert(are_first(keys, os, n));
    let v = m * part;
    assert(0 <= v) by (nonlinear_arith)
        requires
            v == m * part,
            0 <= m,
            0 < part,
    ;
    assert(Seq::new(scores.len(), |i: int| one_if(scores[i] is Some)) =~= Seq::new(
        len as nat,
        |i: int| one_if(scores[i] is Some),
    ));
    os
}

/// Where no part of the files is asked for, or all or none of them, the files are stacked from
/// the oldest to the newest.
pub proof fn law_oldest_files_come_first(
    recent: Seq<usize>,
    scores: Seq<Option<u64>>,
    best: Option<i64>,
    i: int,
)
    requires
        best matches Some(part) ==> part <= 0 || part >= 1_000_000_000,
        0 <= i < recent.len(),
    ensures
        stacking_order(recent, scores, best).len() == recent.len(),
        stacking_order(recent, scores, best)[i] == recent[recent.len() - 1 - i],
{
}

/// A session takes its size from its first frame and passes over frames of another size and files
/// that do not decode. Any other frame is offered to its stack, and is taken where the stack
/// takes it.
pub proof fn law_session_keeps_to_one_size(s: Session, f: RgbView, e: ImageErrorView)
    ensures
        s.fed(Err(e)) == s && !s.takes(Err(e)),
        s.stack is None ==> {
            let st = Stack { w: f.w, h: f.h, mode: s.mode, reference: None, frames: Seq::empty() };
            &&& s.fed(Ok(f)) == (Session { stack: Some(st.offered(f.rgb)), ..s })
            &&& s.takes(Ok(f)) == (st.offered(f.rgb).frames.len() == 1)
            &&& s.count() == 0
        },
        s.stack matches Some(st) ==> {
            let same = st.w == f.w && st.h == f.h;
            &&& s.fed(Ok(f)) == (Session {
                stack: Some(
                    if same {
                        st.offered(f.rgb)
                    } else {
                        st
                    },
                ),
                ..s
            })
            &&& s.takes(Ok(f)) == (same && st.offered(f.rgb).frames.len() == st.frames.len() + 1)
            &&& s.count() == st.frames.len()
        },
{
    if let Some(st) = s.stack {
        law_frames_are_laid_on_the_first(st, f.rgb);
    } else {
        let st = Stack { w: f.w, h: f.h, mode: s.mode, reference: None, frames: Seq::empty() };
        law_frames_are_laid_on_the_first(st, f.rgb);
    }
}

/// Frames are aligned as their request names it: by the centre of light, or by a region where one
/// is given; by the stars in any other case. They are merged by their mean unless trails are
/// asked for.
pub proof fn law_requests_are_read(name: Option<Seq<char>>, roi: Option<(i64, i64, i64)>)
    ensures
        align_named(name, roi) is Centroid <==> name == Some("centroid"@),
        name != Some("centroid"@) ==> (align_named(name, roi) is Roi <==> name == Some("roi"@) && roi
            is Some),
        align_named(name, roi) matches Align::Roi { cx, cy, half } ==> roi == Some((cx, cy, half)),
        mode_named(name) is Lighten <==> name == Some("lighten"@),
{
}

/// The folder that is asked for is taken, unless it is blank; then it is the one that pictures are
/// saved to.
pub proof fn law_folder_asked_for_is_taken(asked: Option<Seq<char>>, save_path: Seq<char>)
    ensures
        asked matches Some(d) ==> {
            &&& (exists|i: int| 0 <= i < d.len() && !is_white(#[trigger] d[i])) ==> folder_of(
                asked,
                save_path,
            ) == d
            &&& (forall|i: int| 0 <= i < d.len() ==> is_white(#[trigger] d[i])) ==> folder_of(
                asked,
                save_path,
            ) == save_path
        },
        asked is None ==> folder_of(asked, save_path) == save_path,
{
    if let Some(d) = asked {
        if forall|i: int| 0 <= i < d.len() ==> is_white(#[trigger] d[i]) {
            let n = d.len() as int;
            assert(d.subrange(n, n) =~= Seq::empty());
            assert(is_trimmed(d, Seq::empty()));
        }
        if exists|i: int| 0 <= i < d.len() && !is_white(#[trigger] d[i]) {
            let i = choose|i: int| 0 <= i < d.len() && !is_white(#[trigger] d[i]);
            if is_trimmed(d, Seq::empty()) {
                let (a, b) = choose|a: int, b: int| #![trigger d.subrange(a, b)]
                    {
                        &&& 0 <= a <= b <= d.len()
                        &&& Seq::<char>::empty() == d.subrange(a, b)
                        &&& forall|i: int| 0 <= i < a ==> is_white(#[trigger] d[i])
                        &&& forall|i: int| b <= i < d.len() ==> is_white(#[trigger] d[i])
                        &&& a < b ==> !is_white(d[a]) && !is_white(d[b - 1])
                    };
                assert(d.subrange(a, b).len() == b - a);
                assert(is_white(d[i]));
            }
        }
    }
}

/// Of a raw file the preview inside it is stacked and scored, of any other picture the file itself;
/// the score is the sharpness of the whole picture, and nought for one too small to measure.
pub proof fn law_pictures_are_opened_and_scored(ext: Seq<char>, bytes: Seq<u8>)
    ensures
        ({
            let raw = lowered(ext) == lowered("arw"@);
            let file = if raw {
                embedded(bytes)
            } else {
                Some(bytes)
            };
            &&& stackable(ext) <==> raw || lowered(ext) == lowered("jpg"@) || lowered(ext)
                == lowered("jpeg"@)
            &&& match file {
                Some(j) => match decoding(j) {
                    Ok(img) => {
                        &&& picture(ext, bytes) == Some(img)
                        &&& picture_rgb(ext, bytes) == (match rgb_outcome(Ok(img)) {
                            Ok(f) => Some(f),
                            Err(_) => None,
                        })
                        &&& picture_score(ext, bytes) == (if !img.is_plain() {
                            None
                        } else {
                            match sharpness(
                                img,
                                500_000_000,
                                500_000_000,
                                1_000_000_000,
                                1_000_000_000,
                            ) {
                                Some(v) => Some(v),
                                None => Some(0),
                            }
                        })
                    },
                    Err(_) => picture(ext, bytes) is None && picture_rgb(ext, bytes) is None
                        && picture_score(ext, bytes) is None,
                },
                None => picture(ext, bytes) is None && picture_rgb(ext, bytes) is None
                    && picture_score(ext, bytes) is None,
            }
        }),
{
}

} // verus!
