//! Multiple exposure: several frames of one size combined into one, channel by channel.
use vstd::prelude::*;

use crate::grid::total;
use crate::jpeg::{
    decode_rgb, decoding, encode_jpeg, file_outcome, frame_outcome, jpeg_encoding, lemma_countable,
    rgb_outcome, ImageError, ImageErrorView, RgbFrame, RgbView,
};
use crate::text::same_text;

verus! {

/// How frames are combined.
#[derive(Clone, Copy, Debug, PartialEq, Eq, Structural)]
pub enum Blend {
    /// The mean of the frames, rounded down: the classic multiple exposure.
    Average,
    /// The brightest frame of each channel: light trails, stars, fireworks.
    Lighten,
    /// The sum of the frames, up to full scale.
    Add,
}

impl Blend {
    /// The mode that a request names. Anything but `lighten` and `add` is the average.
    pub fn from_str(s: &str) -> (r: Blend)
        ensures
            r == (if s@ == "lighten"@ {
                Blend::Lighten
            } else if s@ == "add"@ {
                Blend::Add
            } else {
                Blend::Average
            }),
    {
        if same_text(s, "lighten") {
            Blend::Lighten
        } else if same_text(s, "add") {
            Blend::Add
        } else {
            Blend::Average
        }
    }
}

/// The sum of channel `i` over the frames.
pub open spec fn channel_sum(fs: Seq<Seq<u8>>, i: int) -> nat
    decreases fs.len(),
{
    if fs.len() == 0 {
        0
    } else {
        channel_sum(fs.drop_last(), i) + fs.last()[i] as nat
    }
}

/// The greatest value of channel `i` over the frames, zero where there are none.
pub open spec fn channel_max(fs: Seq<Seq<u8>>, i: int) -> nat
    decreases fs.len(),
{
    if fs.len() == 0 {
        0
    } else {
        let m = channel_max(fs.drop_last(), i);
        if fs.last()[i] > m {
            fs.last()[i] as nat
        } else {
            m
        }
    }
}

/// Channel `i` of the combined image.
pub open spec fn blended_channel(fs: Seq<Seq<u8>>, mode: Blend, i: int) -> nat {
    match mode {
        Blend::Average => channel_sum(fs, i) / fs.len(),
        Blend::Lighten => channel_max(fs, i),
        Blend::Add => if channel_sum(fs, i) > 255 {
            255
        } else {
            channel_sum(fs, i)
        },
    }
}

/// The combined image of `fs`, frames of `n` channels each.
pub open spec fn blended(fs: Seq<Seq<u8>>, mode: Blend, n: nat) -> Seq<u8> {
    Seq::new(n, |i: int| blended_channel(fs, mode, i) as u8)
}

/// The sum of a channel is at most full scale for every frame.
pub proof fn lemma_sum_bound(fs: Seq<Seq<u8>>, i: int)
    ensures
        channel_sum(fs, i) <= 255 * fs.len(),
    decreases fs.len(),
{
    if fs.len() > 0 {
        lemma_sum_bound(fs.drop_last(), i);
    }
}

/// A channel's maximum is no less than any frame's value, and some frame attains it.
pub proof fn lemma_max(fs: Seq<Seq<u8>>, i: int)
    ensures
        channel_max(fs, i) <= 255,
        forall|k: int| 0 <= k < fs.len() ==> (#[trigger] fs[k])[i] <= channel_max(fs, i),
        fs.len() > 0 ==> exists|k: int|
            0 <= k < fs.len() && (#[trigger] fs[k])[i] == channel_max(fs, i),
    decreases fs.len(),
{
    if fs.len() > 0 {
        let d = fs.drop_last();
        lemma_max(d, i);
        assert forall|k: int| 0 <= k < fs.len() implies (#[trigger] fs[k])[i] <= channel_max(
            fs,
            i,
        ) by {
            if k < d.len() {
                assert(d[k] == fs[k]);
            }
        }
        let last = fs.len() - 1;
        if fs.last()[i] > channel_max(d, i) || d.len() == 0 {
            assert(fs[last][i] == channel_max(fs, i));
        } else {
            let k = choose|k: int| 0 <= k < d.len() && (#[trigger] d[k])[i] == channel_max(d, i);
            assert(fs[k][i] == channel_max(fs, i));
        }
    }
}

/// No combined channel exceeds full scale.
pub proof fn lemma_blended_bound(fs: Seq<Seq<u8>>, mode: Blend, i: int)
    requires
        fs.len() > 0,
    ensures
        blended_channel(fs, mode, i) <= 255,
{
    lemma_sum_bound(fs, i);
    lemma_max(fs, i);
    let s = channel_sum(fs, i);
    let n = fs.len();
    assert(s / n <= 255) by (nonlinear_arith)
        requires
            s <= 255 * n,
            n > 0,
    ;
}

/// What the accumulator holds for channel `i`: the blend before the final division.
pub open spec fn level(fs: Seq<Seq<u8>>, mode: Blend, i: int) -> nat {
    match mode {
        Blend::Average => channel_sum(fs, i),
        Blend::Lighten => channel_max(fs, i),
        Blend::Add => if channel_sum(fs, i) > 255 {
            255
        } else {
            channel_sum(fs, i)
        },
    }
}

/// Whether so many frames can be combined: the sum that an average is made of has to fit into
/// thirty-two bits.
pub open spec fn addable(frames: nat, mode: Blend) -> bool {
    mode is Average ==> frames <= u32::MAX / 255
}

/// The running combination of the frames seen so far.
pub struct Blender {
    mode: Blend,
    acc: Vec<u32>,
    count: usize,
    frames: Ghost<Seq<Seq<u8>>>,
}

impl Blender {
    /// The frames combined so far.
    pub closed spec fn frames(self) -> Seq<Seq<u8>> {
        self.frames@
    }

    /// How they are combined.
    pub closed spec fn mode(self) -> Blend {
        self.mode
    }

    /// Channels of a frame.
    pub closed spec fn channels(self) -> nat {
        self.acc@.len()
    }

    /// The accumulator holds what the frames so far amount to.
    pub closed spec fn wf(self) -> bool {
        &&& self.count == self.frames@.len()
        &&& addable(self.frames@.len(), self.mode)
        &&& forall|i: int|
            0 <= i < self.acc@.len() ==> #[trigger] self.acc@[i] == level(
                self.frames@,
                self.mode,
                i,
            )
    }

    /// Nothing combined yet, of frames of `n` channels.
    pub fn new(n: usize, mode: Blend) -> (r: Blender)
        ensures
            r.wf(),
            r.frames() == Seq::<Seq<u8>>::empty(),
            r.mode() == mode,
            r.channels() == n,
    {
        let mut acc: Vec<u32> = Vec::new();
        for i in 0..n
            invariant
                acc@.len() == i,
                forall|j: int| 0 <= j < i ==> acc@[j] == 0,
        {
            acc.push(0);
        }
        Blender { mode, acc, count: 0, frames: Ghost(Seq::empty()) }
    }

    /// Combines one more frame.
    pub fn add(&mut self, frame: &Vec<u8>)
        requires
            old(self).wf(),
            frame@.len() == old(self).channels(),
            old(self).frames().len() < usize::MAX,
            addable(old(self).frames().len() + 1, old(self).mode()),
        ensures
            final(self).wf(),
            final(self).frames() == old(self).frames().push(frame@),
            final(self).mode() == old(self).mode(),
            final(self).channels() == old(self).channels(),
    {
        let ghost before = self.frames@;
        let ghost after = before.push(frame@);
        let mode = self.mode;
        assert(after.drop_last() =~= before);
        for i in 0..frame.len()
            invariant
                frame@.len() == self.acc@.len(),
                self.mode == mode,
                self.frames@ == before,
                self.count == before.len(),
                addable(before.len() + 1, mode),
                after == before.push(frame@),
                after.drop_last() == before,
                forall|j: int|
                    0 <= j < i ==> #[trigger] self.acc@[j] == level(after, mode, j),
                forall|j: int|
                    i <= j < self.acc@.len() ==> #[trigger] self.acc@[j] == level(before, mode, j),
        {
            proof {
                lemma_sum_bound(before, i as int);
                lemma_max(before, i as int);
            }
            let p: u32 = frame[i] as u32;
            let a: u32 = self.acc[i];
            assert(after.last()[i as int] == p);
            let v: u32 = match mode {
                Blend::Average => a + p,
                Blend::Lighten => if p > a {
                    p
                } else {
                    a
                },
                Blend::Add => if a + p > 255 {
                    255
                } else {
                    a + p
                },
            };
            assert(v == level(after, mode, i as int));
            self.acc.set(i, v);
        }
        self.count = self.count + 1;
        self.frames = Ghost(after);
    }

    /// The combined image.
    pub fn finish(&self) -> (r: Vec<u8>)
        requires
            self.wf(),
            self.frames().len() > 0,
        ensures
            r@ == blended(self.frames(), self.mode(), self.channels()),
    {
        let mut out: Vec<u8> = Vec::new();
        for i in 0..self.acc.len()
            invariant
                self.wf(),
                self.frames().len() > 0,
                out@.len() == i,
                forall|j: int|
                    0 <= j < i ==> #[trigger] out@[j] == blended_channel(
                        self.frames(),
                        self.mode(),
                        j,
                    ) as u8,
        {
            proof {
                lemma_blended_bound(self.frames(), self.mode(), i as int);
            }
            let a: u32 = self.acc[i];
            let v: u32 = match self.mode {
                Blend::Average => a / (self.count as u32),
                _ => a,
            };
            assert(v == blended_channel(self.frames(), self.mode(), i as int));
            out.push(v as u8);
        }
        assert(out@ =~= blended(self.frames(), self.mode(), self.channels()));
        out
    }
}

/// The frames of `outs` up to the first that is missing or of another size than the
/// first: all of them, or what is wrong with that one.
pub open spec fn gather(outs: Seq<Result<RgbView, ImageErrorView>>) -> Result<
    Seq<RgbView>,
    ImageErrorView,
>
    decreases outs.len(),
{
    if outs.len() == 0 {
        Ok(Seq::empty())
    } else {
        match gather(outs.drop_last()) {
            Err(e) => Err(e),
            Ok(fs) => match outs.last() {
                Err(e) => Err(e),
                Ok(f) => if fs.len() > 0 && (f.w != fs[0].w || f.h != fs[0].h) {
                    Err(
                        ImageErrorView::SizeMismatch {
                            index: fs.len() as int,
                            width: f.w,
                            height: f.h,
                            want_width: fs[0].w,
                            want_height: fs[0].h,
                        },
                    )
                } else {
                    Ok(fs.push(f))
                },
            },
        }
    }
}

/// The combination of the frames that `outs` stands for.
pub open spec fn blend_outcome(
    outs: Seq<Result<RgbView, ImageErrorView>>,
    mode: Blend,
) -> Result<RgbView, ImageErrorView> {
    if outs.len() == 0 {
        Err(ImageErrorView::NoFrames)
    } else {
        match gather(outs) {
            Err(e) => Err(e),
            Ok(fs) => Ok(
                RgbView {
                    w: fs[0].w,
                    h: fs[0].h,
                    rgb: blended(fs.map_values(|f: RgbView| f.rgb), mode, fs[0].rgb.len()),
                },
            ),
        }
    }
}

/// What is gathered is every frame, in order.
proof fn lemma_gathered(outs: Seq<Result<RgbView, ImageErrorView>>)
    ensures
        gather(outs) matches Ok(fs) ==> fs.len() == outs.len() && forall|k: int|
            0 <= k < fs.len() ==> outs[k] == Ok::<RgbView, ImageErrorView>(#[trigger] fs[k]),
    decreases outs.len(),
{
    if outs.len() > 0 {
        lemma_gathered(outs.drop_last());
    }
}

/// What goes wrong in a prefix goes wrong in the whole.
proof fn lemma_gather_prefix(outs: Seq<Result<RgbView, ImageErrorView>>, k: int)
    requires
        0 <= k <= outs.len(),
        gather(outs.take(k)) is Err,
    ensures
        gather(outs) == gather(outs.take(k)),
    decreases outs.len() - k,
{
    if k < outs.len() {
        assert(outs.take(k + 1).drop_last() =~= outs.take(k));
        lemma_gather_prefix(outs, k + 1);
    } else {
        assert(outs.take(k) =~= outs);
    }
}

/// Takes one more frame into the combination, which starts with the first.
fn take_frame(
    state: Option<(usize, usize, Blender)>,
    index: usize,
    f: &RgbFrame,
    mode: Blend,
    Ghost(outs): Ghost<Seq<Result<RgbView, ImageErrorView>>>,
) -> (r: Result<(usize, usize, Blender), ImageError>)
    requires
        index < outs.len() <= usize::MAX,
        addable(outs.len(), mode),
        outs[index as int] == Ok::<RgbView, ImageErrorView>(f@),
        f@.wf(),
        combined(state, outs.take(index as int), mode),
    ensures
        match r {
            Ok(s) => combined(Some(s), outs.take(index + 1), mode),
            Err(e) => gather(outs) == Err::<Seq<RgbView>, ImageErrorView>(e@),
        },
{
    proof {
        assert(outs.take(index + 1).drop_last() =~= outs.take(index as int));
        lemma_gathered(outs.take(index as int));
    }
    let (w, h, mut b) = match state {
        Some(s) => s,
        None => (f.w, f.h, Blender::new(f.rgb.len(), mode)),
    };
    if f.w != w || f.h != h {
        proof {
            lemma_gather_prefix(outs, index + 1);
        }
        return Err(
            ImageError::SizeMismatch { index, width: f.w, height: f.h, want_width: w, want_height: h },
        );
    }
    b.add(&f.rgb);
    proof {
        let was = gather(outs.take(index as int))->Ok_0;
        let now = gather(outs.take(index + 1))->Ok_0;
        assert(now == was.push(f@));
        assert(now.map_values(|f: RgbView| f.rgb) =~= was.map_values(|f: RgbView| f.rgb).push(
            f.rgb@,
        ));
    }
    Ok((w, h, b))
}

/// `state` is the combination of the frames of `outs`, all of which are there and of one
/// size; nothing where there are none.
spec fn combined(
    state: Option<(usize, usize, Blender)>,
    outs: Seq<Result<RgbView, ImageErrorView>>,
    mode: Blend,
) -> bool {
    &&& gather(outs) is Ok
    &&& state is None <==> outs.len() == 0
    &&& state matches Some((w, h, b)) ==> {
        let fs = gather(outs)->Ok_0;
        &&& b.wf()
        &&& b.mode() == mode
        &&& b.frames() =~= fs.map_values(|f: RgbView| f.rgb)
        &&& fs.len() == outs.len()
        &&& w == fs[0].w
        &&& h == fs[0].h
        &&& b.channels() == w * h * 3
        &&& b.channels() == fs[0].rgb.len()
    }
}

/// The outcomes of frames that are all there.
pub open spec fn present(frames: Seq<RgbFrame>) -> Seq<Result<RgbView, ImageErrorView>> {
    frames.map_values(|f: RgbFrame| Ok::<RgbView, ImageErrorView>(f@))
}

/// Combines frames that are already decoded.
pub fn blend_frames(frames: &Vec<RgbFrame>, mode: Blend) -> (res: Result<RgbFrame, ImageError>)
    requires
        addable(frames@.len(), mode),
        forall|k: int| 0 <= k < frames@.len() ==> (#[trigger] frames@[k])@.wf(),
    ensures
        frame_outcome(res, blend_outcome(present(frames@), mode)),
        res matches Ok(f) ==> f@.wf(),
{
    let n = frames.len();
    let ghost outs = present(frames@);
    if n == 0 {
        return Err(ImageError::NoFrames);
    }
    let mut state: Option<(usize, usize, Blender)> = None;
    assert(outs.take(0) =~= Seq::<Result<RgbView, ImageErrorView>>::empty());
    for i in 0..n
        invariant
            n == frames@.len(),
            addable(n as nat, mode),
            outs == present(frames@),
            forall|k: int| 0 <= k < frames@.len() ==> (#[trigger] frames@[k])@.wf(),
            combined(state, outs.take(i as int), mode),
    {
        match take_frame(state, i, &frames[i], mode, Ghost(outs)) {
            Ok(s) => {
                state = Some(s);
            },
            Err(e) => {
                return Err(e);
            },
        }
    }
    assert(outs.take(n as int) =~= outs);
    match state {
        Some((w, h, b)) => {
            let rgb = b.finish();
            Ok(RgbFrame { w, h, rgb })
        },
        None => Err(ImageError::NoFrames),
    }
}

/// The frames that a list of files decodes to.
pub open spec fn decodings(jpegs: Seq<Vec<u8>>) -> Seq<Result<RgbView, ImageErrorView>> {
    jpegs.map_values(|j: Vec<u8>| rgb_outcome(decoding(j@)))
}

/// Combines JPEG files into one. There must be at least one file, each must decode, and
/// all must be of one size; the first file that is not decides the error.
pub fn blend_jpegs(jpegs: &[Vec<u8>], mode: Blend) -> (res: Result<Vec<u8>, ImageError>)
    requires
        addable(jpegs@.len(), mode),
    ensures
        match blend_outcome(decodings(jpegs@), mode) {
            Err(e) => res matches Err(x) && x@ == e,
            Ok(img) => {
                &&& file_outcome(res, jpeg_encoding(img.rgb, img.w as u16, img.h as u16, 92))
                &&& res is Ok <==> img.w > 0 && img.h > 0
            },
        },
{
    let n = jpegs.len();
    let ghost outs = decodings(jpegs@);
    if n == 0 {
        return Err(ImageError::NoFrames);
    }
    let mut state: Option<(usize, usize, Blender)> = None;
    assert(outs.take(0) =~= Seq::<Result<RgbView, ImageErrorView>>::empty());
    for i in 0..n
        invariant
            n == jpegs@.len(),
            addable(n as nat, mode),
            outs == decodings(jpegs@),
            combined(state, outs.take(i as int), mode),
    {
        match decode_rgb(jpegs[i].as_slice()) {
            Ok(f) => match take_frame(state, i, &f, mode, Ghost(outs)) {
                Ok(s) => {
                    state = Some(s);
                },
                Err(e) => {
                    return Err(e);
                },
            },
            Err(e) => {
                proof {
                    assert(outs.take(i + 1).drop_last() =~= outs.take(i as int));
                    lemma_gather_prefix(outs, i + 1);
                }
                return Err(e);
            },
        }
    }
    assert(outs.take(n as int) =~= outs);
    match state {
        Some((w, h, b)) => {
            proof {
                lemma_gathered(outs);
                let f = gather(outs)->Ok_0[0];
                assert(outs[0] == Ok::<RgbView, ImageErrorView>(f));
            }
            let rgb = b.finish();
            proof {
                assert(rgb@.len() == rgb.len());
                lemma_countable(w, h);
            }
            encode_jpeg(w, h, rgb.as_slice())
        },
        None => Err(ImageError::NoFrames),
    }
}

/// One frame alone comes out as it went in, whatever the mode.
pub proof fn law_single_frame_passes_through(f: Seq<u8>, mode: Blend)
    ensures
        blended(seq![f], mode, f.len()) == f,
{
    let fs = seq![f];
    assert(fs.drop_last() =~= Seq::<Seq<u8>>::empty());
    assert forall|i: int| 0 <= i < f.len() implies blended_channel(fs, mode, i) == f[i] by {
        assert(channel_sum(fs.drop_last(), i) == 0);
        assert(channel_max(fs.drop_last(), i) == 0);
        assert(fs.last()[i] == f[i]);
    }
    assert(blended(fs, mode, f.len()) =~= f);
}

/// Frames that are all the same come out as that frame, averaged or lightened, however many
/// they are.
pub proof fn law_equal_frames_blend_to_the_frame(fs: Seq<Seq<u8>>, f: Seq<u8>, mode: Blend)
    requires
        fs.len() > 0,
        !(mode is Add),
        forall|k: int| 0 <= k < fs.len() ==> #[trigger] fs[k] == f,
    ensures
        blended(fs, mode, f.len()) == f,
{
    assert forall|i: int| 0 <= i < f.len() implies blended_channel(fs, mode, i) == f[i] by {
        law_average_keeps_brightness(fs, i, f[i], f[i]);
        law_lighten_keeps_the_brightest(fs, i);
    }
    assert(blended(fs, mode, f.len()) =~= f);
}

/// The average keeps the brightness: it lies between the darkest and the brightest frame
/// of each channel.
pub proof fn law_average_keeps_brightness(fs: Seq<Seq<u8>>, i: int, lo: u8, hi: u8)
    requires
        fs.len() > 0,
        forall|k: int| 0 <= k < fs.len() ==> lo <= (#[trigger] fs[k])[i] <= hi,
    ensures
        lo <= blended_channel(fs, Blend::Average, i) <= hi,
{
    lemma_sum_between(fs, i, lo, hi);
    let s = channel_sum(fs, i);
    let n = fs.len();
    assert(lo <= s / n <= hi) by (nonlinear_arith)
        requires
            lo * n <= s <= hi * n,
            n > 0,
    ;
}

proof fn lemma_sum_between(fs: Seq<Seq<u8>>, i: int, lo: u8, hi: u8)
    requires
        forall|k: int| 0 <= k < fs.len() ==> lo <= (#[trigger] fs[k])[i] <= hi,
    ensures
        lo * fs.len() <= channel_sum(fs, i) <= hi * fs.len(),
    decreases fs.len(),
{
    if fs.len() > 0 {
        let d = fs.drop_last();
        assert forall|k: int| 0 <= k < d.len() implies lo <= (#[trigger] d[k])[i] <= hi by {
            assert(d[k] == fs[k]);
        }
        lemma_sum_between(d, i, lo, hi);
        let last = fs.len() - 1;
        assert(lo <= fs[last][i] <= hi);
        assert(lo * fs.len() == lo * d.len() + lo) by (nonlinear_arith)
            requires
                fs.len() == d.len() + 1,
        ;
        assert(hi * fs.len() == hi * d.len() + hi) by (nonlinear_arith)
            requires
                fs.len() == d.len() + 1,
        ;
    }
}

/// Lightening keeps, of every channel, the brightest frame and nothing brighter.
pub proof fn law_lighten_keeps_the_brightest(fs: Seq<Seq<u8>>, i: int)
    requires
        fs.len() > 0,
    ensures
        forall|k: int|
            0 <= k < fs.len() ==> (#[trigger] fs[k])[i] <= blended_channel(fs, Blend::Lighten, i),
        exists|k: int|
            0 <= k < fs.len() && (#[trigger] fs[k])[i] == blended_channel(fs, Blend::Lighten, i),
{
    lemma_max(fs, i);
}

/// Adding is never darker than lightening.
pub proof fn law_add_is_at_least_lighten(fs: Seq<Seq<u8>>, i: int)
    ensures
        blended_channel(fs, Blend::Lighten, i) <= blended_channel(fs, Blend::Add, i),
    decreases fs.len(),
{
    lemma_max(fs, i);
    if fs.len() > 0 {
        law_add_is_at_least_lighten(fs.drop_last(), i);
    }
}

proof fn lemma_remove_channel(fs: Seq<Seq<u8>>, j: int, i: int)
    requires
        0 <= j < fs.len(),
    ensures
        channel_sum(fs, i) == channel_sum(fs.remove(j), i) + fs[j][i],
        channel_max(fs, i) == (if fs[j][i] > channel_max(fs.remove(j), i) {
            fs[j][i] as nat
        } else {
            channel_max(fs.remove(j), i)
        }),
    decreases fs.len(),
{
    if j == fs.len() - 1 {
        assert(fs.remove(j) =~= fs.drop_last());
    } else {
        lemma_remove_channel(fs.drop_last(), j, i);
        assert(fs.remove(j).drop_last() =~= fs.drop_last().remove(j));
        assert(fs.remove(j).last() == fs.last());
    }
}

proof fn lemma_channel_permutes(a: Seq<Seq<u8>>, b: Seq<Seq<u8>>, i: int)
    requires
        a.to_multiset() == b.to_multiset(),
    ensures
        a.len() == b.len(),
        channel_sum(a, i) == channel_sum(b, i),
        channel_max(a, i) == channel_max(b, i),
    decreases a.len(),
{
    a.to_multiset_ensures();
    b.to_multiset_ensures();
    assert(a.len() == b.len());
    if a.len() > 0 {
        let last = a.len() - 1;
        let x = a[last];
        assert(a.contains(x));
        assert(a.to_multiset().count(x) > 0);
        assert(b.contains(x));
        let j = choose|j: int| 0 <= j < b.len() && b[j] == x;
        assert(a.remove(last).to_multiset() =~= a.to_multiset().remove(x));
        assert(b.remove(j).to_multiset() =~= b.to_multiset().remove(x));
        lemma_channel_permutes(a.remove(last), b.remove(j), i);
        lemma_remove_channel(a, last, i);
        lemma_remove_channel(b, j, i);
    }
}

/// The order of the frames does not matter.
pub proof fn law_order_does_not_matter(a: Seq<Seq<u8>>, b: Seq<Seq<u8>>, mode: Blend, n: nat)
    requires
        a.to_multiset() == b.to_multiset(),
    ensures
        blended(a, mode, n) == blended(b, mode, n),
{
    assert forall|i: int| blended_channel(a, mode, i) == blended_channel(b, mode, i) by {
        lemma_channel_permutes(a, b, i);
    }
    assert(blended(a, mode, n) =~= blended(b, mode, n));
}

proof fn lemma_sum_is_total(fs: Seq<Seq<u8>>, i: int)
    ensures
        channel_sum(fs, i) == total(Seq::new(fs.len(), |k: int| fs[k][i] as int)),
    decreases fs.len(),
{
    let s = Seq::new(fs.len(), |k: int| fs[k][i] as int);
    if fs.len() > 0 {
        let before = fs.drop_last();
        lemma_sum_is_total(before, i);
        assert(s.drop_last() =~= Seq::new(before.len(), |k: int| before[k][i] as int));
    }
}

/// Each sample of a blend comes from the samples at its place alone: their mean, rounded down;
/// the greatest of them; or their sum, up to the greatest level.
pub proof fn law_samples_are_blended(fs: Seq<Seq<u8>>, n: nat, i: int)
    requires
        fs.len() > 0,
        0 <= i < n,
    ensures
        ({
            let t = total(Seq::new(fs.len(), |k: int| fs[k][i] as int));
            let (a, l, s) = (
                blended(fs, Blend::Average, n),
                blended(fs, Blend::Lighten, n),
                blended(fs, Blend::Add, n),
            );
            &&& a.len() == n && l.len() == n && s.len() == n
            &&& a[i] * fs.len() <= t < a[i] * fs.len() + fs.len()
            &&& forall|k: int| 0 <= k < fs.len() ==> (#[trigger] fs[k])[i] <= l[i]
            &&& exists|k: int| 0 <= k < fs.len() && (#[trigger] fs[k])[i] == l[i]
            &&& t <= 255 ==> s[i] == t
            &&& t > 255 ==> s[i] == 255
        }),
{
    lemma_sum_is_total(fs, i);
    lemma_blended_bound(fs, Blend::Average, i);
    lemma_blended_bound(fs, Blend::Lighten, i);
    lemma_blended_bound(fs, Blend::Add, i);
    law_lighten_keeps_the_brightest(fs, i);
    let (t, n) = (channel_sum(fs, i) as int, fs.len() as int);
    assert((t / n) * n <= t < (t / n) * n + n) by (nonlinear_arith)
        requires
            n > 0,
    ;
    let k = choose|k: int|
        0 <= k < fs.len() && (#[trigger] fs[k])[i] == blended_channel(fs, Blend::Lighten, i);
    assert(fs[k][i] == blended_channel(fs, Blend::Lighten, i));
}

/// Whether the first `k` frames are there, and of the size of the first.
pub open spec fn is_good_upto(outs: Seq<Result<RgbView, ImageErrorView>>, k: int) -> bool {
    forall|j: int|
        0 <= j < k ==> (#[trigger] outs[j]) is Ok && outs[j]->Ok_0.w == outs[0]->Ok_0.w
            && outs[j]->Ok_0.h == outs[0]->Ok_0.h
}

proof fn lemma_good_gather(outs: Seq<Result<RgbView, ImageErrorView>>, k: int)
    requires
        0 <= k <= outs.len(),
        is_good_upto(outs, k),
    ensures
        gather(outs.take(k)) == Ok::<Seq<RgbView>, ImageErrorView>(
            Seq::new(k as nat, |j: int| outs[j]->Ok_0),
        ),
    decreases k,
{
    let fs = Seq::new(k as nat, |j: int| outs[j]->Ok_0);
    if k > 0 {
        lemma_good_gather(outs, k - 1);
        assert(outs.take(k).drop_last() =~= outs.take(k - 1));
        assert(outs.take(k).last() == outs[k - 1]);
        assert(outs[k - 1] is Ok && outs[0] is Ok);
        assert(fs =~= Seq::new((k - 1) as nat, |j: int| outs[j]->Ok_0).push(outs[k - 1]->Ok_0));
    } else {
        assert(fs =~= Seq::empty());
    }
}

proof fn lemma_fault_stays(outs: Seq<Result<RgbView, ImageErrorView>>, k: int, e: ImageErrorView)
    requires
        0 <= k <= outs.len(),
        gather(outs.take(k)) == Err::<Seq<RgbView>, ImageErrorView>(e),
    ensures
        gather(outs) == Err::<Seq<RgbView>, ImageErrorView>(e),
    decreases outs.len() - k,
{
    if k < outs.len() {
        assert(outs.take(k + 1).drop_last() =~= outs.take(k));
        lemma_fault_stays(outs, k + 1, e);
    } else {
        assert(outs.take(k) =~= outs);
    }
}

/// Frames that are all there and of one size are blended, in that size. Otherwise the first
/// frame that is not is the reason why nothing is: its own error, or its size. No frames are
/// an error of their own.
pub proof fn law_first_fault_is_reported(
    outs: Seq<Result<RgbView, ImageErrorView>>,
    mode: Blend,
    k: int,
)
    requires
        0 <= k <= outs.len(),
        is_good_upto(outs, k),
    ensures
        outs.len() == 0 ==> blend_outcome(outs, mode) == Err::<RgbView, ImageErrorView>(
            ImageErrorView::NoFrames,
        ),
        0 < k == outs.len() ==> blend_outcome(outs, mode) == Ok::<RgbView, ImageErrorView>(
            RgbView {
                w: outs[0]->Ok_0.w,
                h: outs[0]->Ok_0.h,
                rgb: blended(
                    Seq::new(outs.len(), |j: int| outs[j]->Ok_0.rgb),
                    mode,
                    outs[0]->Ok_0.rgb.len(),
                ),
            },
        ),
        k < outs.len() ==> match outs[k] {
            Err(e) => blend_outcome(outs, mode) == Err::<RgbView, ImageErrorView>(e),
            Ok(f) => 0 < k && (f.w != outs[0]->Ok_0.w || f.h != outs[0]->Ok_0.h) ==> blend_outcome(
                outs,
                mode,
            ) == Err::<RgbView, ImageErrorView>(
                ImageErrorView::SizeMismatch {
                    index: k,
                    width: f.w,
                    height: f.h,
                    want_width: outs[0]->Ok_0.w,
                    want_height: outs[0]->Ok_0.h,
                },
            ),
        },
{
    lemma_good_gather(outs, k);
    if k == outs.len() {
        assert(outs.take(k) =~= outs);
        if k > 0 {
            let fs = Seq::new(k as nat, |j: int| outs[j]->Ok_0);
            assert(fs.map_values(|f: RgbView| f.rgb) =~= Seq::new(
                outs.len(),
                |j: int| outs[j]->Ok_0.rgb,
            ));
        }
    } else {
        assert(outs.take(k + 1).drop_last() =~= outs.take(k));
        assert(outs.take(k + 1).last() == outs[k]);
        match outs[k] {
            Err(e) => {
                lemma_fault_stays(outs, k + 1, e);
            },
            Ok(f) => {
                if 0 < k && (f.w != outs[0]->Ok_0.w || f.h != outs[0]->Ok_0.h) {
                    lemma_fault_stays(
                        outs,
                        k + 1,
                        ImageErrorView::SizeMismatch {
                            index: k,
                            width: f.w,
                            height: f.h,
                            want_width: outs[0]->Ok_0.w,
                            want_height: outs[0]->Ok_0.h,
                        },
                    );
                }
            },
        }
    }
}

} // verus!
