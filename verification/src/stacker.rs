//! Stacking: frames of a drifting sky are moved onto the first one and merged, for less
//! noise or for star trails.
use vstd::prelude::*;

use crate::align::{estimate_translation, is_moved, law_known_shift_is_recovered, translation};
use crate::grid::total;
use crate::stars::{
    all_in_range, detect_stars, luma_from_rgb, luma_seq, stars_of, Star, MAX_PIXELS, PIXEL,
};

verus! {

/// How frames are merged.
#[derive(Clone, Copy, Debug, PartialEq, Eq, Structural)]
pub enum Mode {
    /// The mean of what covers a pixel: less noise.
    Average,
    /// The brightest of what covers a pixel: trails.
    Lighten,
}

/// A frame and the place where it lies: pixel `(x, y)` of the stack shows its pixel
/// `(x + tx, y + ty)`.
pub struct Placed {
    pub rgb: Seq<u8>,
    pub tx: int,
    pub ty: int,
}

/// What a stack stands for: its size, the stars of its first frame, and its frames.
pub struct Stack {
    pub w: int,
    pub h: int,
    pub mode: Mode,
    pub reference: Option<Seq<Star>>,
    pub frames: Seq<Placed>,
}

/// Whether a frame covers pixel `k` of a stack, the pixels counted row by row.
pub open spec fn covers(p: Placed, w: int, h: int, k: int) -> bool {
    0 <= k % w + p.tx < w && 0 <= k / w + p.ty < h
}

/// What a frame shows at pixel `k` of a stack, in one of the three channels.
pub open spec fn shown(p: Placed, w: int, k: int, c: int) -> int {
    p.rgb[3 * ((k / w + p.ty) * w + (k % w + p.tx)) + c] as int
}

/// The sum of what the frames show.
pub open spec fn light(frames: Seq<Placed>, w: int, h: int, k: int, c: int) -> int
    decreases frames.len(),
{
    if frames.len() == 0 {
        0
    } else {
        light(frames.drop_last(), w, h, k, c) + if covers(frames.last(), w, h, k) {
            shown(frames.last(), w, k, c)
        } else {
            0
        }
    }
}

/// The number of frames that cover a pixel.
pub open spec fn cover(frames: Seq<Placed>, w: int, h: int, k: int) -> int
    decreases frames.len(),
{
    if frames.len() == 0 {
        0
    } else {
        cover(frames.drop_last(), w, h, k) + if covers(frames.last(), w, h, k) {
            1int
        } else {
            0
        }
    }
}

/// The brightest of what the frames show.
pub open spec fn brightest(frames: Seq<Placed>, w: int, h: int, k: int, c: int) -> int
    decreases frames.len(),
{
    if frames.len() == 0 {
        0
    } else {
        let b = brightest(frames.drop_last(), w, h, k, c);
        if covers(frames.last(), w, h, k) && shown(frames.last(), w, k, c) > b {
            shown(frames.last(), w, k, c)
        } else {
            b
        }
    }
}

/// `a / n` to the nearest whole number, a half upwards.
pub open spec fn nearest_whole(a: int, n: int) -> int {
    (2 * a + n) / (2 * n)
}

/// What divides evenly is not rounded.
pub proof fn lemma_nearest_exact(k: int, n: int)
    requires
        0 < n,
    ensures
        nearest_whole(k * n, n) == k,
{
    assert((2 * (k * n) + n) / (2 * n) == k) by (nonlinear_arith)
        requires
            0 < n,
    ;
}

/// Millionths of a pixel to the nearest whole pixel, a half away from zero.
pub open spec fn whole_pixels(t: int) -> int {
    if t >= 0 {
        nearest_whole(t, PIXEL as int)
    } else {
        -nearest_whole(-t, PIXEL as int)
    }
}

impl Stack {
    /// What the stack shows at pixel `k`, in one of the three channels: black where no
    /// frame covers the pixel.
    pub open spec fn pixel(self, k: int, c: int) -> int {
        match self.mode {
            Mode::Average => {
                let n = cover(self.frames, self.w, self.h, k);
                if n == 0 {
                    0
                } else {
                    nearest_whole(light(self.frames, self.w, self.h, k, c), n)
                }
            },
            Mode::Lighten => brightest(self.frames, self.w, self.h, k, c),
        }
    }

    /// The stack as an RGB frame.
    pub open spec fn rgb(self) -> Seq<u8> {
        Seq::new((self.w * self.h * 3) as nat, |i: int| self.pixel(i / 3, i % 3) as u8)
    }

    /// The stars of a frame of the stack's size.
    pub open spec fn stars(self, rgb: Seq<u8>) -> Seq<Star> {
        stars_of(luma_seq(rgb, self.w * self.h), self.w, self.h, 12, 8 * PIXEL)
    }

    /// Where a frame would lie. Nothing for one that is too short, for a first frame with
    /// fewer than two stars, and for a later one whose stars do not fit the first's.
    pub open spec fn placement(self, rgb: Seq<u8>) -> Option<(int, int)> {
        if rgb.len() < self.w * self.h * 3 {
            None
        } else {
            match self.reference {
                None => if self.stars(rgb).len() < 2 {
                    None
                } else {
                    Some((0, 0))
                },
                Some(reference) => match translation(reference, self.stars(rgb), 6 * PIXEL) {
                    None => None,
                    Some(t) => Some((whole_pixels(t.0), whole_pixels(t.1))),
                },
            }
        }
    }

    /// The stack after a frame was offered: the frame lies where its stars say, or the
    /// stack is as it was.
    pub open spec fn offered(self, rgb: Seq<u8>) -> Stack {
        match self.placement(rgb) {
            None => self,
            Some((tx, ty)) => Stack {
                reference: Some(
                    match self.reference {
                        Some(r) => r,
                        None => self.stars(rgb),
                    },
                ),
                frames: self.frames.push(Placed { rgb, tx, ty }),
                ..self
            },
        }
    }
}

/// A growing stack.
pub struct Stacker {
    w: usize,
    h: usize,
    mode: Mode,
    buf: Vec<u64>,
    wt: Vec<u32>,
    reference: Option<Vec<Star>>,
    count: u32,
    frames: Ghost<Seq<Placed>>,
}

impl View for Stacker {
    type V = Stack;

    closed spec fn view(&self) -> Stack {
        Stack {
            w: self.w as int,
            h: self.h as int,
            mode: self.mode,
            reference: match self.reference {
                None => None,
                Some(r) => Some(r@),
            },
            frames: self.frames@,
        }
    }
}

/// Whether the sums kept for pixel `k` are those of the frames.
spec fn kept_at(
    buf: Seq<u64>,
    wt: Seq<u32>,
    mode: Mode,
    frames: Seq<Placed>,
    w: int,
    h: int,
    k: int,
) -> bool {
    match mode {
        Mode::Average => {
            &&& wt[k] == cover(frames, w, h, k)
            &&& buf[3 * k] == light(frames, w, h, k, 0)
            &&& buf[3 * k + 1] == light(frames, w, h, k, 1)
            &&& buf[3 * k + 2] == light(frames, w, h, k, 2)
        },
        Mode::Lighten => {
            &&& buf[3 * k] == brightest(frames, w, h, k, 0)
            &&& buf[3 * k + 1] == brightest(frames, w, h, k, 1)
            &&& buf[3 * k + 2] == brightest(frames, w, h, k, 2)
        },
    }
}

proof fn lemma_light_range(frames: Seq<Placed>, w: int, h: int, k: int, c: int)
    ensures
        0 <= cover(frames, w, h, k) <= frames.len(),
        0 <= light(frames, w, h, k, c) <= 255 * cover(frames, w, h, k),
        0 <= brightest(frames, w, h, k, c) <= 255,
    decreases frames.len(),
{
    if frames.len() > 0 {
        lemma_light_range(frames.drop_last(), w, h, k, c);
    }
}

proof fn lemma_source(p: Placed, w: int, h: int, k: int)
    requires
        0 < w,
        0 < h,
        p.rgb.len() >= w * h * 3,
        covers(p, w, h, k),
    ensures
        0 <= (k / w + p.ty) * w + (k % w + p.tx) < w * h,
        0 <= (k / w + p.ty) * w,
{
    let (x, y) = (k % w + p.tx, k / w + p.ty);
    assert(0 <= y * w && y * w + x < w * h) by (nonlinear_arith)
        requires
            0 <= x < w,
            0 <= y < h,
    ;
}

impl Stacker {
    /// The sums are those of the frames, and nothing overflows.
    pub closed spec fn wf(self) -> bool {
        let n = self.w * self.h;
        &&& n <= MAX_PIXELS
        &&& self.buf@.len() == n * 3
        &&& self.wt@.len() == n
        &&& self.count == self.frames@.len()
        &&& self.reference matches Some(r) ==> all_in_range(r@)
        &&& (self.reference is Some <==> self.frames@.len() > 0)
        &&& forall|k: int|
            0 <= k < n ==> #[trigger] kept_at(
                self.buf@,
                self.wt@,
                self.mode,
                self.frames@,
                self.w as int,
                self.h as int,
                k,
            )
    }

    /// An empty stack of the given size.
    pub fn new(w: usize, h: usize, mode: Mode) -> (r: Stacker)
        requires
            w * h <= MAX_PIXELS,
            w * h * 3 <= usize::MAX,
        ensures
            r.wf(),
            r@ == (Stack {
                w: w as int,
                h: h as int,
                mode,
                reference: None,
                frames: Seq::empty(),
            }),
    {
        let n: usize = w * h;
        assert(0 <= n);
        Stacker {
            w,
            h,
            mode,
            buf: vec![0u64; n * 3],
            wt: vec![0u32; n],
            reference: None,
            count: 0,
            frames: Ghost(Seq::empty()),
        }
    }

    /// Width in pixels.
    pub fn width(&self) -> (r: usize)
        ensures
            r == self@.w,
    {
        self.w
    }

    /// Height in pixels.
    pub fn height(&self) -> (r: usize)
        ensures
            r == self@.h,
    {
        self.h
    }

    /// The number of frames in the stack.
    pub fn count(&self) -> (r: u32)
        requires
            self.wf(),
        ensures
            r == self@.frames.len(),
    {
        self.count
    }

    /// Offers an RGB frame to the stack. The first frame with two stars or more becomes the
    /// reference; a later one is moved onto it by its stars. A frame that cannot be placed
    /// is refused, and the stack stays as it is.
    pub fn add(&mut self, rgb: &[u8]) -> (r: bool)
        requires
            old(self).wf(),
            old(self)@.frames.len() < u32::MAX,
        ensures
            final(self).wf(),
            final(self)@ == old(self)@.offered(rgb@),
            r == (old(self)@.placement(rgb@) is Some),
    {
        assert(self.buf@.len() == self.buf.len());
        assert(0 <= self.w * self.h) by (nonlinear_arith)
            requires
                0 <= self.w,
                0 <= self.h,
        ;
        if rgb.len() < self.w * self.h * 3 {
            return false;
        }
        let luma = luma_from_rgb(rgb, self.w, self.h);
        let stars = detect_stars(luma.as_slice(), self.w, self.h, 12, 8 * (PIXEL as u64));
        let (tx, ty): (i64, i64) = match &self.reference {
            Some(reference) => {
                match estimate_translation(
                    reference.as_slice(),
                    stars.as_slice(),
                    6 * (PIXEL as u64),
                ) {
                    Some(t) => (round_pixels(t.0), round_pixels(t.1)),
                    None => {
                        return false;
                    },
                }
            },
            None => {
                if stars.len() < 2 {
                    return false;
                }
                (0, 0)
            },
        };
        if self.reference.is_none() {
            self.reference = Some(stars);
        }
        self.accumulate(rgb, tx, ty);
        self.count = self.count + 1;
        true
    }

    /// Lays a frame onto the stack: every pixel that it covers takes it in.
    fn accumulate(&mut self, rgb: &[u8], tx: i64, ty: i64)
        requires
            old(self).w * old(self).h <= MAX_PIXELS,
            old(self).buf@.len() == old(self).w * old(self).h * 3,
            old(self).wt@.len() == old(self).w * old(self).h,
            rgb@.len() >= old(self).w * old(self).h * 3,
            old(self).frames@.len() < u32::MAX,
            -0x7FFF_FFFF_FFFF <= tx <= 0x7FFF_FFFF_FFFF,
            -0x7FFF_FFFF_FFFF <= ty <= 0x7FFF_FFFF_FFFF,
            forall|k: int|
                0 <= k < old(self).w * old(self).h ==> #[trigger] kept_at(
                    old(self).buf@,
                    old(self).wt@,
                    old(self).mode,
                    old(self).frames@,
                    old(self).w as int,
                    old(self).h as int,
                    k,
                ),
        ensures
            final(self).w == old(self).w,
            final(self).h == old(self).h,
            final(self).mode == old(self).mode,
            final(self).count == old(self).count,
            final(self).reference == old(self).reference,
            final(self).buf@.len() == old(self).buf@.len(),
            final(self).wt@.len() == old(self).wt@.len(),
            final(self).frames@ == old(self).frames@.push(
                Placed { rgb: rgb@, tx: tx as int, ty: ty as int },
            ),
            forall|k: int|
                0 <= k < old(self).w * old(self).h ==> #[trigger] kept_at(
                    final(self).buf@,
                    final(self).wt@,
                    final(self).mode,
                    final(self).frames@,
                    final(self).w as int,
                    final(self).h as int,
                    k,
                ),
    {
        let w = self.w;
        let h = self.h;
        let mode = self.mode;
        let ghost old_frames = self.frames@;
        let ghost p = Placed { rgb: rgb@, tx: tx as int, ty: ty as int };
        let ghost frames = old_frames.push(p);
        assert(frames.drop_last() =~= old_frames);
        assert(self.wt@.len() == self.wt.len());
        let n: usize = self.wt.len();
        let mut k: usize = 0;
        while k < n
            invariant
                n == w * h,
                n <= MAX_PIXELS,
                k <= n,
                w == self.w,
                h == self.h,
                mode == self.mode,
                self.w == old(self).w,
                self.h == old(self).h,
                self.mode == old(self).mode,
                self.count == old(self).count,
                self.reference == old(self).reference,
                self.frames == old(self).frames,
                self.buf@.len() == n * 3,
                self.wt@.len() == n,
                rgb@.len() >= n * 3,
                p == (Placed { rgb: rgb@, tx: tx as int, ty: ty as int }),
                frames == old_frames.push(p),
                frames.drop_last() == old_frames,
                old_frames.len() < u32::MAX,
                -0x7FFF_FFFF_FFFF <= tx <= 0x7FFF_FFFF_FFFF,
                -0x7FFF_FFFF_FFFF <= ty <= 0x7FFF_FFFF_FFFF,
                forall|j: int|
                    0 <= j < k ==> #[trigger] kept_at(
                        self.buf@,
                        self.wt@,
                        mode,
                        frames,
                        w as int,
                        h as int,
                        j,
                    ),
                forall|j: int|
                    k <= j < n ==> #[trigger] kept_at(
                        self.buf@,
                        self.wt@,
                        mode,
                        old_frames,
                        w as int,
                        h as int,
                        j,
                    ),
            decreases n - k,
        {
            proof {
                let (ki, wi, hi) = (k as int, w as int, h as int);
                assert(0 < wi && 0 < hi) by (nonlinear_arith)
                    requires
                        0 <= ki < wi * hi,
                        0 <= wi,
                        0 <= hi,
                ;
                assert(0 <= ki / wi < hi && wi <= wi * hi) by (nonlinear_arith)
                    requires
                        0 <= ki < wi * hi,
                        0 < wi,
                        0 < hi,
                ;
                assert(hi <= wi * hi) by (nonlinear_arith)
                    requires
                        0 < wi,
                        0 < hi,
                ;
                lemma_light_range(old_frames, wi, hi, ki, 0);
                lemma_light_range(old_frames, wi, hi, ki, 1);
                lemma_light_range(old_frames, wi, hi, ki, 2);
                assert(kept_at(self.buf@, self.wt@, mode, old_frames, wi, hi, ki));
            }
            let sx: i64 = (k % w) as i64 + tx;
            let sy: i64 = (k / w) as i64 + ty;
            assert(frames.last() == p);
            if 0 <= sx && sx < w as i64 && 0 <= sy && sy < h as i64 {
                proof {
                    lemma_source(p, w as int, h as int, k as int);
                }
                assert(self.buf@.len() == self.buf.len() && rgb@.len() == rgb.len());
                let si: usize = 3 * ((sy as usize) * w + (sx as usize));
                let ghost (buf0, wt0) = (self.buf@, self.wt@);
                self.lay(3 * k, rgb[si]);
                self.lay(3 * k + 1, rgb[si + 1]);
                self.lay(3 * k + 2, rgb[si + 2]);
                match mode {
                    Mode::Average => {
                        let c = self.wt[k];
                        self.wt.set(k, c + 1);
                    },
                    Mode::Lighten => {},
                }
                proof {
                    assert forall|j: int| 0 <= j < n && j != k implies (self.buf@[3 * j]
                        == buf0[3 * j] && self.buf@[3 * j + 1] == buf0[3 * j + 1] && self.buf@[3
                        * j + 2] == buf0[3 * j + 2] && #[trigger] self.wt@[j] == wt0[j]) by {}
                    assert forall|j: int| 0 <= j < k implies #[trigger] kept_at(
                        self.buf@,
                        self.wt@,
                        mode,
                        frames,
                        w as int,
                        h as int,
                        j,
                    ) by {
                        assert(kept_at(buf0, wt0, mode, frames, w as int, h as int, j));
                        assert(self.wt@[j] == wt0[j]);
                    }
                    assert forall|j: int| k < j < n implies #[trigger] kept_at(
                        self.buf@,
                        self.wt@,
                        mode,
                        old_frames,
                        w as int,
                        h as int,
                        j,
                    ) by {
                        assert(kept_at(buf0, wt0, mode, old_frames, w as int, h as int, j));
                        assert(self.wt@[j] == wt0[j]);
                    }
                }
            }
            assert(kept_at(self.buf@, self.wt@, mode, frames, w as int, h as int, k as int));
            k = k + 1;
        }
        self.frames = Ghost(frames);
    }

    /// Takes one sample into the sums: added, or kept if brighter.
    fn lay(&mut self, i: usize, v: u8)
        requires
            i < old(self).buf@.len(),
            old(self).mode is Average ==> old(self).buf@[i as int] <= 255 * u32::MAX,
        ensures
            final(self).buf@ == old(self).buf@.update(
                i as int,
                match old(self).mode {
                    Mode::Average => (old(self).buf@[i as int] + v) as u64,
                    Mode::Lighten => if v > old(self).buf@[i as int] {
                        v as u64
                    } else {
                        old(self).buf@[i as int]
                    },
                },
            ),
            final(self).w == old(self).w,
            final(self).h == old(self).h,
            final(self).mode == old(self).mode,
            final(self).count == old(self).count,
            final(self).reference == old(self).reference,
            final(self).frames == old(self).frames,
            final(self).wt == old(self).wt,
    {
        let b = self.buf[i];
        match self.mode {
            Mode::Average => {
                self.buf.set(i, b + v as u64);
            },
            Mode::Lighten => {
                if v as u64 > b {
                    self.buf.set(i, v as u64);
                }
            },
        }
        assert(self.buf@ =~= old(self).buf@.update(i as int, self.buf@[i as int]));
    }

    /// The stack as an RGB frame.
    pub fn render(&self) -> (out: Vec<u8>)
        requires
            self.wf(),
        ensures
            out@ == self@.rgb(),
            out@.len() == self@.w * self@.h * 3,
    {
        let n: usize = self.wt.len();
        let mut out: Vec<u8> = Vec::new();
        let mut k: usize = 0;
        while k < n
            invariant
                self.wf(),
                n == self.w * self.h,
                k <= n,
                out@.len() == 3 * k,
                forall|i: int| 0 <= i < 3 * k ==> #[trigger] out@[i] == self@.pixel(i / 3, i % 3),
            decreases n - k,
        {
            proof {
                let (wi, hi, ki) = (self.w as int, self.h as int, k as int);
                assert(kept_at(self.buf@, self.wt@, self.mode, self.frames@, wi, hi, ki));
                lemma_light_range(self.frames@, wi, hi, ki, 0);
                lemma_light_range(self.frames@, wi, hi, ki, 1);
                lemma_light_range(self.frames@, wi, hi, ki, 2);
            }
            assert(self.buf@.len() == self.buf.len());
            let n0: u32 = match self.mode {
                Mode::Average => self.wt[k],
                Mode::Lighten => 1,
            };
            out.push(level(self.buf[3 * k], n0));
            out.push(level(self.buf[3 * k + 1], n0));
            out.push(level(self.buf[3 * k + 2], n0));
            k = k + 1;
        }
        assert(out@ =~= self@.rgb());
        out
    }
}

/// The mean of a sum over `n` samples, to the nearest level; black where there is none.
fn level(sum: u64, n: u32) -> (r: u8)
    requires
        sum <= 255 * n,
    ensures
        r == (if n == 0 {
            0
        } else {
            nearest_whole(sum as int, n as int)
        }),
        n == 1 ==> r == sum,
{
    if n == 0 {
        return 0;
    }
    let m: u64 = n as u64;
    assert((2 * sum + m) / (2 * m) <= 255) by (nonlinear_arith)
        requires
            sum <= 255 * m,
            0 < m,
    ;
    assert(m == 1 ==> (2 * sum + m) / (2 * m) == sum) by (nonlinear_arith);
    ((2 * sum + m) / (2 * m)) as u8
}

/// [`whole_pixels`], as code.
fn round_pixels(t: i64) -> (r: i64)
    requires
        -0x4000_0000_0000_0000 <= t <= 0x4000_0000_0000_0000,
    ensures
        r == whole_pixels(t as int),
        -0x7FFF_FFFF_FFFF <= r <= 0x7FFF_FFFF_FFFF,
{
    if t >= 0 {
        (t + PIXEL / 2) / PIXEL
    } else {
        -((-t + PIXEL / 2) / PIXEL)
    }
}

/// A frame whose stars are those of the first frame, moved by whole pixels, is moved back
/// by exactly as many.
pub proof fn law_moved_sky_lies_on_the_first(stack: Stack, rgb: Seq<u8>, tx: int, ty: int)
    requires
        stack.reference is Some,
        stack.reference->0.len() >= 2,
        rgb.len() >= stack.w * stack.h * 3,
        is_moved(stack.reference->0, stack.stars(rgb), tx * PIXEL, ty * PIXEL),
    ensures
        stack.placement(rgb) == Some((tx, ty)),
{
    law_known_shift_is_recovered(
        stack.reference->0,
        stack.stars(rgb),
        tx * PIXEL,
        ty * PIXEL,
        6 * PIXEL,
    );
    assert(whole_pixels(tx * PIXEL) == tx && whole_pixels(ty * PIXEL) == ty) by {
        assert(nearest_whole(tx * 1_000_000, 1_000_000) == tx);
        assert(nearest_whole(-tx * 1_000_000, 1_000_000) == -tx);
        assert(nearest_whole(ty * 1_000_000, 1_000_000) == ty);
        assert(nearest_whole(-ty * 1_000_000, 1_000_000) == -ty);
    }
}

/// Once a stack has its first frame, no later frame changes what the others are moved onto.
pub proof fn law_reference_stays(stack: Stack, rgb: Seq<u8>)
    requires
        stack.reference is Some,
    ensures
        stack.offered(rgb).reference == stack.reference,
        stack.offered(rgb).frames.len() >= stack.frames.len(),
{
}

/// In a stack that keeps the brightest, no frame that is added makes a pixel darker, and
/// the new frame's own pixels are at most as bright as the stack's.
pub proof fn law_lighten_keeps_the_brightest(stack: Stack, rgb: Seq<u8>, k: int, c: int)
    requires
        stack.mode is Lighten,
    ensures
        stack.offered(rgb).pixel(k, c) >= stack.pixel(k, c),
        stack.placement(rgb) matches Some(t) ==> {
            let p = Placed { rgb, tx: t.0, ty: t.1 };
            covers(p, stack.w, stack.h, k) ==> {
                &&& stack.offered(rgb).pixel(k, c) >= shown(p, stack.w, k, c)
                &&& stack.offered(rgb).pixel(k, c) == stack.pixel(k, c) || stack.offered(rgb).pixel(
                    k,
                    c,
                ) == shown(p, stack.w, k, c)
            }
        },
{
    if let Some(t) = stack.placement(rgb) {
        let p = Placed { rgb, tx: t.0, ty: t.1 };
        assert(stack.frames.push(p).drop_last() =~= stack.frames);
    }
}

/// Whether a frame that was moved by `(tx, ty)` has something to show at column `x` and row `y`.
pub open spec fn reaches(p: Placed, w: int, h: int, x: int, y: int) -> bool {
    0 <= x + p.tx && x + p.tx < w && 0 <= y + p.ty && y + p.ty < h
}

/// What the frames of a stack show of one colour at column `x` and row `y`: the level of the pixel
/// that lies `(tx, ty)` farther in each, nought where that is outside of it.
pub open spec fn levels_at(stack: Stack, x: int, y: int, c: int) -> Seq<int> {
    let w = stack.w;
    Seq::new(
        stack.frames.len(),
        |i: int|
            {
                let p = stack.frames[i];
                if reaches(p, w, stack.h, x, y) {
                    p.rgb[3 * ((y + p.ty) * w + (x + p.tx)) + c] as int
                } else {
                    0
                }
            },
    )
}

/// Which frames of a stack have something to show at column `x` and row `y`: one for each that
/// has, nought for the others.
pub open spec fn shares_at(stack: Stack, x: int, y: int) -> Seq<int> {
    Seq::new(
        stack.frames.len(),
        |i: int|
            if reaches(stack.frames[i], stack.w, stack.h, x, y) {
                1
            } else {
                0
            },
    )
}

proof fn lemma_place(w: int, h: int, x: int, y: int, c: int)
    requires
        0 <= x < w,
        0 <= y < h,
        0 <= c < 3,
    ensures
        ({
            let k = y * w + x;
            &&& 0 <= k
            &&& 3 * k + c < w * h * 3
            &&& k % w == x
            &&& k / w == y
            &&& (3 * k + c) / 3 == k
            &&& (3 * k + c) % 3 == c
        }),
{
    let k = y * w + x;
    assert(0 <= k && k < w * h && k % w == x && k / w == y) by (nonlinear_arith)
        requires
            0 <= x < w,
            0 <= y < h,
            k == y * w + x,
    ;
}

proof fn lemma_levels(stack: Stack, x: int, y: int, c: int, n: int)
    requires
        0 <= x < stack.w,
        0 <= y < stack.h,
        0 <= c < 3,
        0 <= n <= stack.frames.len(),
    ensures
        ({
            let k = y * stack.w + x;
            let fs = stack.frames.take(n);
            let ls = levels_at(stack, x, y, c);
            &&& total(ls.take(n)) == light(fs, stack.w, stack.h, k, c)
            &&& total(shares_at(stack, x, y).take(n)) == cover(fs, stack.w, stack.h, k)
            &&& 0 <= light(fs, stack.w, stack.h, k, c) <= 255 * cover(fs, stack.w, stack.h, k)
            &&& 0 <= brightest(fs, stack.w, stack.h, k, c) <= 255
            &&& forall|i: int|
                0 <= i < n ==> #[trigger] ls[i] <= brightest(fs, stack.w, stack.h, k, c)
            &&& brightest(fs, stack.w, stack.h, k, c) == 0 || ls.take(n).contains(
                brightest(fs, stack.w, stack.h, k, c),
            )
        }),
    decreases n,
{
    lemma_place(stack.w, stack.h, x, y, c);
    let ls = levels_at(stack, x, y, c);
    let ss = shares_at(stack, x, y);
    let fs = stack.frames.take(n);
    let k = y * stack.w + x;
    if n > 0 {
        lemma_levels(stack, x, y, c, n - 1);
        assert(fs.drop_last() =~= stack.frames.take(n - 1));
        assert(ls.take(n).drop_last() =~= ls.take(n - 1));
        assert(ss.take(n).drop_last() =~= ss.take(n - 1));
        assert(fs.last() == stack.frames[n - 1]);
        let b = brightest(fs, stack.w, stack.h, k, c);
        let a = brightest(fs.drop_last(), stack.w, stack.h, k, c);
        if b != 0 {
            if b == a {
                let prev = ls.take(n - 1);
                let i = choose|i: int| 0 <= i < prev.len() && prev[i] == b;
                assert(ls.take(n)[i] == b);
            } else {
                assert(ls.take(n)[n - 1] == b);
            }
        }
    }
}

/// In a stack that averages, what is shown of a colour at a place is the mean of what the frames
/// show there that reach it, to the nearest level and a half upwards; nought where none does.
pub proof fn law_average_is_the_mean(stack: Stack, x: int, y: int, c: int)
    requires
        stack.mode is Average,
        0 <= x < stack.w,
        0 <= y < stack.h,
        0 <= c < 3,
    ensures
        ({
            let v = stack.rgb()[3 * (y * stack.w + x) + c] as int;
            let n = total(shares_at(stack, x, y));
            let t = total(levels_at(stack, x, y, c));
            if n == 0 {
                v == 0
            } else {
                2 * t - n < 2 * (n * v) <= 2 * t + n
            }
        }),
{
    let k = y * stack.w + x;
    let m = stack.frames.len() as int;
    lemma_place(stack.w, stack.h, x, y, c);
    lemma_levels(stack, x, y, c, m);
    assert(stack.frames.take(m) =~= stack.frames);
    assert(levels_at(stack, x, y, c).take(m) =~= levels_at(stack, x, y, c));
    assert(shares_at(stack, x, y).take(m) =~= shares_at(stack, x, y));
    let n = cover(stack.frames, stack.w, stack.h, k);
    let t = light(stack.frames, stack.w, stack.h, k, c);
    if n != 0 {
        let v = (2 * t + n) / (2 * n);
        assert(0 <= v <= 255 && 2 * t - n < 2 * (n * v) <= 2 * t + n) by (nonlinear_arith)
            requires
                n > 0,
                0 <= t <= 255 * n,
                v == (2 * t + n) / (2 * n),
        ;
    }
}

/// In a stack that keeps the brightest, what is shown of a colour at a place is the greatest level
/// that a frame shows there.
pub proof fn law_trails_are_the_brightest(stack: Stack, x: int, y: int, c: int)
    requires
        stack.mode is Lighten,
        0 <= x < stack.w,
        0 <= y < stack.h,
        0 <= c < 3,
    ensures
        ({
            let v = stack.rgb()[3 * (y * stack.w + x) + c] as int;
            let ls = levels_at(stack, x, y, c);
            &&& forall|i: int| 0 <= i < ls.len() ==> #[trigger] ls[i] <= v
            &&& v == 0 || ls.contains(v)
        }),
{
    let m = stack.frames.len() as int;
    lemma_place(stack.w, stack.h, x, y, c);
    lemma_levels(stack, x, y, c, m);
    assert(stack.frames.take(m) =~= stack.frames);
    assert(levels_at(stack, x, y, c).take(m) =~= levels_at(stack, x, y, c));
}

/// Whether `p` is `t` millionths in whole pixels, to the nearest, and a half away from nought.
pub open spec fn is_rounded(t: int, p: int) -> bool {
    &&& t >= 0 ==> 2 * t - 1_000_000 < 2_000_000 * p <= 2 * t + 1_000_000
    &&& t < 0 ==> 2 * t - 1_000_000 <= 2_000_000 * p < 2 * t + 1_000_000
}

/// The first frame with two stars begins a stack: it is laid as it is, and its stars are what
/// later frames are moved onto. A later frame is laid where its stars meet them within six
/// pixels, moved by whole pixels. Stars are the twelve brightest, eight pixels apart. No other
/// frame changes the stack, nor one that is too short.
pub proof fn law_frames_are_laid_on_the_first(stack: Stack, rgb: Seq<u8>)
    ensures
        ({
            let (w, h) = (stack.w, stack.h);
            let found = stars_of(luma_seq(rgb, w * h), w, h, 12, 8_000_000);
            let next = stack.offered(rgb);
            if rgb.len() < w * h * 3 {
                next == stack && stack.placement(rgb) is None
            } else {
                match stack.reference {
                    None => if found.len() < 2 {
                        next == stack && stack.placement(rgb) is None
                    } else {
                        &&& stack.placement(rgb) == Some((0int, 0int))
                        &&& next == (Stack {
                            reference: Some(found),
                            frames: stack.frames.push(Placed { rgb, tx: 0, ty: 0 }),
                            ..stack
                        })
                    },
                    Some(first) => match translation(first, found, 6_000_000) {
                        None => next == stack && stack.placement(rgb) is None,
                        Some(t) => {
                            let p = stack.placement(rgb)->0;
                            &&& stack.placement(rgb) is Some
                            &&& is_rounded(t.0, p.0)
                            &&& is_rounded(t.1, p.1)
                            &&& next == (Stack {
                                frames: stack.frames.push(Placed { rgb, tx: p.0, ty: p.1 }),
                                ..stack
                            })
                        },
                    },
                }
            }
        }),
{
}

/// Frames that show the same level at a pixel average to that level, however many they are.
pub proof fn law_average_keeps_a_level(stack: Stack, k: int, c: int, level: int)
    requires
        stack.mode is Average,
        cover(stack.frames, stack.w, stack.h, k) > 0,
        forall|i: int|
            0 <= i < stack.frames.len() && covers(#[trigger] stack.frames[i], stack.w, stack.h, k)
                ==> shown(stack.frames[i], stack.w, k, c) == level,
    ensures
        stack.pixel(k, c) == level,
{
    lemma_level_light(stack.frames, stack.w, stack.h, k, c, level);
    let n = cover(stack.frames, stack.w, stack.h, k);
    assert(n * level == level * n) by (nonlinear_arith);
    lemma_nearest_exact(level, n);
}

proof fn lemma_level_light(frames: Seq<Placed>, w: int, h: int, k: int, c: int, level: int)
    requires
        forall|i: int|
            0 <= i < frames.len() && covers(#[trigger] frames[i], w, h, k) ==> shown(
                frames[i],
                w,
                k,
                c,
            ) == level,
    ensures
        light(frames, w, h, k, c) == cover(frames, w, h, k) * level,
    decreases frames.len(),
{
    if frames.len() > 0 {
        let rest = frames.drop_last();
        assert forall|i: int| 0 <= i < rest.len() && covers(#[trigger] rest[i], w, h, k) implies shown(
            rest[i],
            w,
            k,
            c,
        ) == level by {
            assert(rest[i] == frames[i]);
        }
        lemma_level_light(rest, w, h, k, c, level);
        assert(frames.last() == frames[frames.len() - 1]);
        let n = cover(rest, w, h, k);
        assert((n + 1) * level == n * level + level) by (nonlinear_arith);
    } else {
        assert(0 * level == 0);
    }
}

/// The first frame stacked a second time changes nothing of what the stack shows.
pub proof fn law_same_frame_twice_changes_nothing(stack: Stack, rgb: Seq<u8>)
    requires
        0 < stack.w,
        0 < stack.h,
        stack.reference is None,
        stack.frames.len() == 0,
        stack.placement(rgb) is Some,
    ensures
        ({
            let once = stack.offered(rgb);
            let twice = once.offered(rgb);
            &&& twice.frames.len() == 2
            &&& once.rgb() == twice.rgb()
        }),
{
    let once = stack.offered(rgb);
    let stars = stack.stars(rgb);
    assert(once.stars(rgb) == stars);
    law_moved_sky_lies_on_the_first(once, rgb, 0, 0);
    let twice = once.offered(rgb);
    let p = Placed { rgb, tx: 0, ty: 0 };
    assert(once.frames =~= seq![p]);
    assert(twice.frames =~= seq![p, p]);
    assert(seq![p].drop_last() =~= Seq::<Placed>::empty());
    assert(seq![p, p].drop_last() =~= seq![p]);
    let (w, h) = (stack.w, stack.h);
    assert forall|k: int, c: int| 0 <= k < w * h implies #[trigger] once.pixel(k, c)
        == twice.pixel(k, c) by {
        assert(0 <= k / w < h) by (nonlinear_arith)
            requires
                0 <= k < w * h,
                0 < w,
        ;
        assert(0 <= k % w < w) by (nonlinear_arith)
            requires
                0 < w,
        ;
        assert(covers(p, w, h, k));
        let v = shown(p, w, k, c);
        let (none, one, two) = (Seq::<Placed>::empty(), seq![p], seq![p, p]);
        assert(one.last() == p && two.last() == p);
        assert(light(none, w, h, k, c) == 0 && cover(none, w, h, k) == 0 && brightest(
            none,
            w,
            h,
            k,
            c,
        ) == 0);
        assert(light(one, w, h, k, c) == v && cover(one, w, h, k) == 1);
        assert(light(two, w, h, k, c) == 2 * v && cover(two, w, h, k) == 2);
        assert(brightest(one, w, h, k, c) == v && brightest(two, w, h, k, c) == v);
        lemma_nearest_exact(v, 1);
        lemma_nearest_exact(v, 2);
    }
    assert(once.rgb() =~= twice.rgb());
}

/// A frame without stars does not start a stack.
pub proof fn law_starless_frame_starts_nothing(stack: Stack, rgb: Seq<u8>)
    requires
        stack.reference is None,
        stack.stars(rgb).len() < 2,
    ensures
        stack.offered(rgb) == stack,
{
}

} // verus!
