//! Stars of a frame: finding them, and how far the sky has moved between two frames.
//!
//! Light is counted in thousandths of a grey level. Places and distances are counted in
//! millionths of a pixel.
use vstd::prelude::*;

use crate::autofocus::luma_of;
use crate::grid::{
    lemma_box_bounds, lemma_box_scaled, lemma_row_bounds, squared, sum_box, sum_row, total,
};
use crate::order::{ahead, law_ranking_exists, placed, rank, ranking, ranks};
use crate::wide::Wide;

verus! {

/// One pixel, in millionths of a pixel.
pub const PIXEL: i64 = 1_000_000;

/// The most pixels that a frame may have: more than a JPEG can.
pub const MAX_PIXELS: u64 = 0x1_0000_0000;

/// The longest side of a frame that is searched for stars.
pub const MAX_SIDE: u64 = 0x2000_0000;

/// A bright spot of a frame.
#[derive(Clone, Copy, Debug, PartialEq, Eq, Structural)]
pub struct Star {
    /// Column of its centre of light.
    pub x: i64,
    /// Row of its centre of light.
    pub y: i64,
    /// Its light above the mean of the frame, times the number of pixels of the frame.
    pub flux: u128,
}

/// The luminance of every pixel of an RGB frame.
pub open spec fn luma_seq(rgb: Seq<u8>, n: int) -> Seq<u32> {
    Seq::new(
        n as nat,
        |i: int| luma_of(rgb[3 * i], rgb[3 * i + 1], rgb[3 * i + 2]) as u32,
    )
}

/// The luminance of every pixel of an RGB frame, in thousandths of a grey level.
pub fn luma_from_rgb(rgb: &[u8], w: usize, h: usize) -> (out: Vec<u32>)
    requires
        w * h * 3 <= rgb@.len(),
    ensures
        out@ == luma_seq(rgb@, w * h),
{
    assert(0 <= w * h) by (nonlinear_arith);
    assert(rgb@.len() == rgb.len());
    let n: usize = w * h;
    let mut out: Vec<u32> = Vec::new();
    let mut i: usize = 0;
    while i < n
        invariant
            n * 3 <= rgb@.len(),
            rgb@.len() == rgb.len(),
            i <= n,
            out@.len() == i,
            forall|k: int| 0 <= k < i ==> #[trigger] out@[k] == luma_seq(rgb@, n as int)[k],
        decreases n - i,
    {
        let l = 299 * (rgb[3 * i] as u32) + 587 * (rgb[3 * i + 1] as u32) + 114 * (rgb[3 * i
            + 2] as u32);
        out.push(l);
        i = i + 1;
    }
    assert(out@ =~= luma_seq(rgb@, n as int));
    out
}

/// The sum of the first `n` luminances.
pub open spec fn sum_of(luma: Seq<u32>, n: int) -> int
    decreases n,
{
    if n <= 0 {
        0
    } else {
        sum_of(luma, n - 1) + luma[n - 1]
    }
}

/// The sum of the squares of the first `n` luminances.
pub open spec fn sum_of_squares(luma: Seq<u32>, n: int) -> int
    decreases n,
{
    if n <= 0 {
        0
    } else {
        sum_of_squares(luma, n - 1) + luma[n - 1] * luma[n - 1]
    }
}

/// A frame's luminances, row by row.
pub struct Sky {
    pub luma: Seq<u32>,
    pub w: int,
    pub h: int,
}

impl Sky {
    /// The number of pixels.
    pub open spec fn area(self) -> int {
        self.w * self.h
    }

    /// The sum of all luminances. The mean is this by the number of pixels.
    pub open spec fn total(self) -> int {
        sum_of(self.luma, self.luma.len() as int)
    }

    /// How far a luminance lies above the mean, times the number of pixels.
    pub open spec fn above_mean(self, v: int) -> int {
        self.area() * v - self.total()
    }

    /// The sum of the squares of that over the first `k` luminances.
    pub open spec fn spread_of(self, k: int) -> int
        decreases k,
    {
        if k <= 0 {
            0
        } else {
            let d = self.above_mean(self.luma[k - 1] as int);
            self.spread_of(k - 1) + d * d
        }
    }

    /// The variance of the luminances, times the cube of the number of pixels.
    pub open spec fn spread(self) -> int {
        self.spread_of(self.luma.len() as int)
    }

    /// Whether a luminance lies four standard deviations above the mean.
    pub open spec fn is_bright(self, v: int) -> bool {
        let d = self.above_mean(v);
        d >= 0 && self.area() * (d * d) >= 16 * self.spread()
    }

    /// The luminance of a pixel.
    pub open spec fn at(self, x: int, y: int) -> int {
        self.luma[y * self.w + x] as int
    }

    /// Whether the pixel is bright and no pixel next to it is brighter.
    pub open spec fn is_peak(self, x: int, y: int) -> bool {
        &&& self.is_bright(self.at(x, y))
        &&& forall|a: int, b: int| #![trigger self.at(a, b)]
            x - 1 <= a <= x + 1 && y - 1 <= b <= y + 1 ==> self.at(a, b) <= self.at(x, y)
    }

    /// The light of a pixel above the mean, times the number of pixels.
    pub open spec fn weight(self, x: int, y: int) -> int {
        let v = self.above_mean(self.at(x, y));
        if v < 0 {
            0
        } else {
            v
        }
    }

    /// [`Sky::weight`] as a function on the grid.
    pub open spec fn weight_on(self) -> spec_fn(int, int) -> int {
        |x: int, y: int| self.weight(x, y)
    }

    /// The column of a pixel, weighted with its light.
    pub open spec fn pull_x(self) -> spec_fn(int, int) -> int {
        |x: int, y: int| x * self.weight(x, y)
    }

    /// The row of a pixel, weighted with its light.
    pub open spec fn pull_y(self) -> spec_fn(int, int) -> int {
        |x: int, y: int| y * self.weight(x, y)
    }

    /// The sum over the seven by seven pixels around `(x, y)`.
    pub open spec fn window(self, g: spec_fn(int, int) -> int, x: int, y: int) -> int {
        sum_box(g, x - 3, x + 4, y - 3, y + 4)
    }

    /// Whether there is a star at pixel `(x, y)`.
    pub open spec fn has_star(self, x: int, y: int) -> bool {
        &&& 3 <= x < self.w - 3
        &&& 3 <= y < self.h - 3
        &&& self.is_peak(x, y)
        &&& self.window(self.weight_on(), x, y) > 0
    }

    /// The star at pixel `(x, y)`: the centre of the light above the mean around it.
    pub open spec fn star(self, x: int, y: int) -> Star {
        let flux = self.window(self.weight_on(), x, y);
        Star {
            x: (self.window(self.pull_x(), x, y) * PIXEL / flux) as i64,
            y: (self.window(self.pull_y(), x, y) * PIXEL / flux) as i64,
            flux: flux as u128,
        }
    }

    /// The stars at the first `n` pixels, in the order of the pixels.
    pub open spec fn stars(self, n: int) -> Seq<Star>
        decreases n,
    {
        if n <= 0 {
            Seq::empty()
        } else {
            let s = self.stars(n - 1);
            let x = (n - 1) % self.w;
            let y = (n - 1) / self.w;
            if self.has_star(x, y) {
                s.push(self.star(x, y))
            } else {
                s
            }
        }
    }

    /// A frame within bounds.
    pub open spec fn wf(self) -> bool {
        8 <= self.w && 8 <= self.h && self.area() <= self.luma.len() <= MAX_PIXELS
    }
}

/// The square of the distance of two places.
pub open spec fn distance2(ax: int, ay: int, bx: int, by: int) -> int {
    (ax - bx) * (ax - bx) + (ay - by) * (ay - by)
}

/// Whether a star is at least `min_sep` away from every star of a list.
pub open spec fn stands_apart(s: Star, others: Seq<Star>, min_sep: int) -> bool {
    forall|i: int| #![trigger others[i]]
        0 <= i < others.len() ==> distance2(
            others[i].x as int,
            others[i].y as int,
            s.x as int,
            s.y as int,
        ) >= min_sep * min_sep
}

/// The brightness of every star of a list.
pub open spec fn fluxes(stars: Seq<Star>) -> Seq<u128> {
    Seq::new(stars.len(), |i: int| stars[i].flux)
}

/// The first `n` places of `order`, without the stars that stand too close to one kept
/// before, and at most `max` of them.
pub open spec fn thinned(
    stars: Seq<Star>,
    order: Seq<usize>,
    n: int,
    max: int,
    min_sep: int,
) -> Seq<Star>
    decreases n,
{
    if n <= 0 {
        Seq::empty()
    } else {
        let kept = thinned(stars, order, n - 1, max, min_sep);
        let s = stars[order[n - 1] as int];
        if kept.len() < max && stands_apart(s, kept, min_sep) {
            kept.push(s)
        } else {
            kept
        }
    }
}

/// The brightest stars of a frame, brightest first: at most `max`, each at least `min_sep`
/// away from the brighter ones. Nothing for a frame under eight pixels wide or high.
pub open spec fn stars_of(luma: Seq<u32>, w: int, h: int, max: int, min_sep: int) -> Seq<Star> {
    if w < 8 || h < 8 || luma.len() < w * h {
        Seq::empty()
    } else {
        let sky = Sky { luma, w, h };
        let all = sky.stars(sky.area());
        thinned(all, ranking(fluxes(all)), all.len() as int, max, min_sep)
    }
}

/// A list of luminances as one row of a grid.
spec fn row_of(luma: Seq<u32>) -> spec_fn(int, int) -> int {
    |x: int, y: int| luma[x] as int
}

proof fn lemma_sums_as_row(luma: Seq<u32>, n: int)
    requires
        0 <= n,
    ensures
        sum_of(luma, n) == sum_row(row_of(luma), 0, 0, n),
        sum_of_squares(luma, n) == sum_row(squared(row_of(luma)), 0, 0, n),
    decreases n,
{
    if n > 0 {
        lemma_sums_as_row(luma, n - 1);
    }
}

/// The sums stay in range.
proof fn lemma_sums(luma: Seq<u32>, n: int)
    requires
        0 <= n <= luma.len(),
    ensures
        0 <= sum_of(luma, n) <= n * 0xFFFF_FFFF,
        0 <= sum_of_squares(luma, n) <= n * 0xFFFF_FFFE_0000_0001,
{
    lemma_sums_as_row(luma, n);
    let g = row_of(luma);
    assert forall|x: int| 0 <= x < n implies 0 <= #[trigger] squared(g)(x, 0)
        <= 0xFFFF_FFFE_0000_0001 by {
        let v = luma[x] as int;
        assert(0 <= v * v <= 0xFFFF_FFFE_0000_0001) by (nonlinear_arith)
            requires
                0 <= v <= 0xFFFF_FFFF,
        ;
    }
    lemma_row_bounds(g, 0, 0, n, 0, 0xFFFF_FFFF);
    lemma_row_bounds(squared(g), 0, 0, n, 0, 0xFFFF_FFFE_0000_0001);
}

/// The spread by the sums alone.
proof fn lemma_spread(sky: Sky, k: int)
    requires
        0 <= k <= sky.luma.len(),
    ensures
        ({
            let (n, t) = (sky.area(), sky.total());
            let (q, s) = (sum_of_squares(sky.luma, k), sum_of(sky.luma, k));
            sky.spread_of(k) == (n * q) * n - 2 * ((n * t) * s) + k * (t * t)
        }),
    decreases k,
{
    let (n, t) = (sky.area(), sky.total());
    if k > 0 {
        lemma_spread(sky, k - 1);
        let v = sky.luma[k - 1] as int;
        let (q, s) = (sum_of_squares(sky.luma, k - 1), sum_of(sky.luma, k - 1));
        assert((n * v - t) * (n * v - t) == (n * (v * v)) * n - 2 * ((n * t) * v) + t * t)
            by (nonlinear_arith);
        assert((n * (q + v * v)) * n == (n * q) * n + (n * (v * v)) * n) by (nonlinear_arith);
        assert((n * t) * (s + v) == (n * t) * s + (n * t) * v) by (nonlinear_arith);
        assert(k * (t * t) == (k - 1) * (t * t) + t * t) by (nonlinear_arith);
    } else {
        assert((n * 0) * n == 0 && (n * t) * 0 == 0 && 0 * (t * t) == 0) by (nonlinear_arith);
    }
}

/// What the pixels of a frame have in common.
struct Levels {
    /// The number of pixels.
    n: u64,
    /// The sum of the luminances.
    sum: u64,
    /// Thirty-two times the number of pixels times the square of the sum.
    base: Wide,
    /// Sixteen times the spread, and `base`.
    limit: Wide,
}

impl Levels {
    spec fn of(self, sky: Sky) -> bool {
        &&& sky.wf()
        &&& self.n == sky.area()
        &&& self.sum == sky.total()
        &&& self.base@ == 32 * sky.area() * (sky.total() * sky.total())
        &&& self.limit@ == 16 * sky.spread() + self.base@
    }
}

/// The mean and spread of a frame.
fn levels(luma: &[u32], w: usize, h: usize) -> (r: Levels)
    requires
        (Sky { luma: luma@, w: w as int, h: h as int }).wf(),
    ensures
        r.of(Sky { luma: luma@, w: w as int, h: h as int }),
{
    let ghost sky = Sky { luma: luma@, w: w as int, h: h as int };
    assert(luma@.len() == luma.len());
    let n: usize = w * h;
    let len: usize = luma.len();
    let mut sum: u64 = 0;
    let mut squares: u128 = 0;
    let mut i: usize = 0;
    while i < len
        invariant
            i <= len == luma@.len(),
            len <= MAX_PIXELS,
            sum == sum_of(luma@, i as int),
            squares == sum_of_squares(luma@, i as int),
        decreases len - i,
    {
        proof {
            lemma_sums(luma@, i as int);
        }
        let v = luma[i];
        assert(0 <= v * v <= 0xFFFF_FFFE_0000_0001) by (nonlinear_arith)
            requires
                0 <= v <= 0xFFFF_FFFF,
        ;
        sum = sum + v as u64;
        squares = squares + (v as u128) * (v as u128);
        i = i + 1;
    }
    proof {
        lemma_sums(luma@, len as int);
        lemma_spread(sky, len as int);
    }
    let a: u64 = n as u64;
    let s: u128 = sum as u128;
    assert(0 <= a * squares <= 0x1_0000_0000 * (0x1_0000_0000 * 0xFFFF_FFFE_0000_0001))
        by (nonlinear_arith)
        requires
            0 <= a <= 0x1_0000_0000,
            0 <= squares <= 0x1_0000_0000 * 0xFFFF_FFFE_0000_0001,
    ;
    assert(0 <= s * s <= 0xFFFF_FFFF_0000_0000 * 0xFFFF_FFFF_0000_0000) by (nonlinear_arith)
        requires
            0 <= s <= 0xFFFF_FFFF_0000_0000,
    ;
    let q: u128 = (a as u128) * squares;
    let t: u128 = s * s;
    let base = Wide::product(t, 32 * a);
    let one = Wide::product(q, 16 * a);
    let two = Wide::product(t, 16 * (len as u64));
    proof {
        let (qi, ti, ai, li) = (q as int, t as int, a as int, len as int);
        assert(ti * (32 * ai) == 32 * ai * ti && qi * (16 * ai) == 16 * (qi * ai) && ti * (16 * li)
            == 16 * (li * ti)) by (nonlinear_arith);
        assert((ai * s) * s == ai * ti) by (nonlinear_arith)
            requires
                ti == s * s,
        ;
        assert(qi * (16 * ai) <= 0x1_0000_0000_0000_0000_0000_0000_0000_0000 * 0x10_0000_0000)
            by (nonlinear_arith)
            requires
                0 <= qi <= 0x1_0000_0000_0000_0000_0000_0000_0000_0000,
                0 <= ai <= 0x1_0000_0000,
        ;
        assert(ti * (16 * li) <= 0x1_0000_0000_0000_0000_0000_0000_0000_0000 * 0x10_0000_0000)
            by (nonlinear_arith)
            requires
                0 <= ti <= 0x1_0000_0000_0000_0000_0000_0000_0000_0000,
                0 <= li <= 0x1_0000_0000,
        ;
    }
    let limit = one.plus(&two);
    proof {
        let (n, t0, q0, li) = (sky.area(), sky.total(), squares as int, len as int);
        assert(n == a && t0 == sum && t == t0 * t0 && q == n * q0);
        assert(sky.spread() == (n * q0) * n - 2 * ((n * t0) * t0) + li * (t0 * t0));
        assert((n * t0) * t0 == n * (t0 * t0)) by (nonlinear_arith);
        assert(32 * n * (t0 * t0) == 32 * (n * (t0 * t0))) by (nonlinear_arith);
    }
    Levels { n: a, sum, base, limit }
}

proof fn lemma_index(w: int, h: int, x: int, y: int)
    requires
        0 <= x < w,
        0 <= y < h,
    ensures
        0 <= y * w,
        0 <= y * w + x < w * h,
{
    assert(y * w + x < w * h && 0 <= y * w) by (nonlinear_arith)
        requires
            0 <= x < w,
            0 <= y < h,
    ;
}

proof fn lemma_sides(sky: Sky)
    requires
        sky.wf(),
    ensures
        sky.w <= MAX_SIDE,
        sky.h <= MAX_SIDE,
{
    let (w, h) = (sky.w, sky.h);
    assert(8 * w <= w * h && 8 * h <= w * h) by (nonlinear_arith)
        requires
            8 <= w,
            8 <= h,
    ;
}

/// How far a luminance lies above the mean, times the number of pixels.
fn above(l: &Levels, v: u32, Ghost(sky): Ghost<Sky>) -> (r: i128)
    requires
        l.of(sky),
    ensures
        r == sky.above_mean(v as int),
        -0x1_0000_0000_0000_0000 <= r <= 0xFFFF_FFFF_0000_0000,
{
    proof {
        lemma_sums(sky.luma, sky.luma.len() as int);
    }
    assert(0 <= l.n * v <= 0x1_0000_0000 * 0xFFFF_FFFF) by (nonlinear_arith)
        requires
            0 <= l.n <= 0x1_0000_0000,
            0 <= v <= 0xFFFF_FFFF,
    ;
    let p: u64 = l.n * (v as u64);
    p as i128 - l.sum as i128
}

/// Whether a luminance is bright.
fn bright(l: &Levels, v: u32, Ghost(sky): Ghost<Sky>) -> (r: bool)
    requires
        l.of(sky),
    ensures
        r == sky.is_bright(v as int),
{
    let d = above(l, v, Ghost(sky));
    if d < 0 {
        return false;
    }
    let u: u128 = d as u128;
    assert(0 <= u * u <= 0xFFFF_FFFF_0000_0000 * 0xFFFF_FFFF_0000_0000) by (nonlinear_arith)
        requires
            0 <= u <= 0xFFFF_FFFF_0000_0000,
    ;
    let f = Wide::product(u * u, l.n);
    proof {
        lemma_sums(sky.luma, sky.luma.len() as int);
        let (di, n, t) = (d as int, l.n as int, l.sum as int);
        assert((u * u) * n == n * (di * di) && (u * u) * n
            <= 0x1_0000_0000_0000_0000_0000_0000_0000_0000 * 0x1_0000_0000) by (nonlinear_arith)
            requires
                u == di,
                0 <= n <= 0x1_0000_0000,
                0 <= u * u <= 0x1_0000_0000_0000_0000_0000_0000_0000_0000,
        ;
        assert(32 * n * (t * t) <= 0x1_0000_0000_0000_0000_0000_0000_0000_0000 * 0x20_0000_0000)
            by (nonlinear_arith)
            requires
                0 <= n <= 0x1_0000_0000,
                0 <= t <= 0x1_0000_0000_0000_0000,
        ;
    }
    f.plus(&l.base).at_least(&l.limit)
}

/// The luminance of a pixel.
fn at(luma: &[u32], w: usize, x: usize, y: usize, Ghost(sky): Ghost<Sky>) -> (r: u32)
    requires
        sky.wf(),
        luma@ == sky.luma,
        w == sky.w,
        x < sky.w,
        y < sky.h,
    ensures
        r == sky.at(x as int, y as int),
{
    proof {
        lemma_index(sky.w, sky.h, x as int, y as int);
    }
    luma[y * w + x]
}

/// Whether a pixel inside the frame is bright and no pixel next to it is brighter.
fn peak(luma: &[u32], w: usize, l: &Levels, x: usize, y: usize, Ghost(sky): Ghost<Sky>) -> (r: bool)
    requires
        l.of(sky),
        luma@ == sky.luma,
        w == sky.w,
        1 <= x < sky.w - 1,
        1 <= y < sky.h - 1,
    ensures
        r == sky.is_peak(x as int, y as int),
{
    let v = at(luma, w, x, y, Ghost(sky));
    if !bright(l, v, Ghost(sky)) {
        return false;
    }
    proof {
        lemma_sides(sky);
    }
    let mut b: usize = y - 1;
    while b <= y + 1
        invariant
            sky.w <= MAX_SIDE,
            sky.h <= MAX_SIDE,
            l.of(sky),
            luma@ == sky.luma,
            w == sky.w,
            1 <= x < sky.w - 1,
            1 <= y < sky.h - 1,
            v == sky.at(x as int, y as int),
            y - 1 <= b <= y + 2,
            forall|p: int, q: int| #![trigger sky.at(p, q)]
                x - 1 <= p <= x + 1 && y - 1 <= q < b ==> sky.at(p, q) <= v,
        decreases y + 2 - b,
    {
        let mut a: usize = x - 1;
        while a <= x + 1
            invariant
                sky.w <= MAX_SIDE,
                sky.h <= MAX_SIDE,
                l.of(sky),
                luma@ == sky.luma,
                w == sky.w,
                1 <= x < sky.w - 1,
                1 <= y < sky.h - 1,
                v == sky.at(x as int, y as int),
                y - 1 <= b <= y + 1,
                x - 1 <= a <= x + 2,
                forall|p: int, q: int| #![trigger sky.at(p, q)]
                    x - 1 <= p <= x + 1 && y - 1 <= q < b ==> sky.at(p, q) <= v,
                forall|p: int| #![trigger sky.at(p, b as int)]
                    x - 1 <= p < a ==> sky.at(p, b as int) <= v,
            decreases x + 2 - a,
        {
            if at(luma, w, a, b, Ghost(sky)) > v {
                return false;
            }
            a = a + 1;
        }
        b = b + 1;
    }
    true
}

proof fn lemma_weight_range(sky: Sky, x: int, y: int)
    requires
        sky.wf(),
        0 <= x < sky.w,
        0 <= y < sky.h,
    ensures
        0 <= sky.weight(x, y) <= 0xFFFF_FFFF_FFFF_FFFF,
{
    lemma_sums(sky.luma, sky.luma.len() as int);
    lemma_index(sky.w, sky.h, x, y);
    let n = sky.area();
    let v = sky.at(x, y);
    assert(0 <= n * v <= 0x1_0000_0000 * 0xFFFF_FFFF) by (nonlinear_arith)
        requires
            0 <= n <= 0x1_0000_0000,
            0 <= v <= 0xFFFF_FFFF,
    ;
}

/// The centre of light of a window lies inside the frame, and no sum overflows.
proof fn lemma_window(sky: Sky, x: int, y: int)
    requires
        sky.wf(),
        3 <= x < sky.w - 3,
        3 <= y < sky.h - 3,
    ensures
        0 <= sky.window(sky.weight_on(), x, y) <= 49 * 0xFFFF_FFFF_FFFF_FFFF,
        0 <= sky.window(sky.pull_x(), x, y) <= sky.w * sky.window(sky.weight_on(), x, y),
        0 <= sky.window(sky.pull_y(), x, y) <= sky.h * sky.window(sky.weight_on(), x, y),
{
    let g = sky.weight_on();
    let (fx, fy) = (sky.pull_x(), sky.pull_y());
    assert forall|a: int, b: int| x - 3 <= a < x + 4 && y - 3 <= b < y + 4 implies 0
        <= #[trigger] g(a, b) <= 0xFFFF_FFFF_FFFF_FFFF by {
        lemma_weight_range(sky, a, b);
    }
    lemma_box_bounds(g, x - 3, x + 4, y - 3, y + 4, 0, 0xFFFF_FFFF_FFFF_FFFF);
    assert((x + 4 - (x - 3)) * (y + 4 - (y - 3)) == 49) by (nonlinear_arith);
    let (w, h) = (sky.w, sky.h);
    assert forall|a: int, b: int| x - 3 <= a < x + 4 && y - 3 <= b < y + 4 implies #[trigger] fx(
        a,
        b,
    ) <= w * g(a, b) by {
        lemma_weight_range(sky, a, b);
        let v = g(a, b);
        assert(a * v <= w * v) by (nonlinear_arith)
            requires
                a <= w,
                0 <= v,
        ;
    }
    assert forall|a: int, b: int| x - 3 <= a < x + 4 && y - 3 <= b < y + 4 implies #[trigger] fy(
        a,
        b,
    ) <= h * g(a, b) by {
        lemma_weight_range(sky, a, b);
        let v = g(a, b);
        assert(b * v <= h * v) by (nonlinear_arith)
            requires
                b <= h,
                0 <= v,
        ;
    }
    lemma_box_scaled(fx, g, w, x - 3, x + 4, y - 3, y + 4);
    lemma_box_scaled(fy, g, h, x - 3, x + 4, y - 3, y + 4);
    lemma_pull_nonnegative(sky, x, y);
}

proof fn lemma_pull_nonnegative(sky: Sky, x: int, y: int)
    requires
        sky.wf(),
        3 <= x < sky.w - 3,
        3 <= y < sky.h - 3,
    ensures
        0 <= sky.window(sky.pull_x(), x, y),
        0 <= sky.window(sky.pull_y(), x, y),
{
    let (fx, fy) = (sky.pull_x(), sky.pull_y());
    let most = sky.w * 0xFFFF_FFFF_FFFF_FFFF + sky.h * 0xFFFF_FFFF_FFFF_FFFF;
    assert forall|a: int, b: int| x - 3 <= a < x + 4 && y - 3 <= b < y + 4 implies 0 <= #[trigger] fx(
        a,
        b,
    ) <= most by {
        lemma_weight_range(sky, a, b);
        let v = sky.weight(a, b);
        let w = sky.w;
        assert(0 <= a * v <= w * 0xFFFF_FFFF_FFFF_FFFF) by (nonlinear_arith)
            requires
                0 <= a <= w,
                0 <= v <= 0xFFFF_FFFF_FFFF_FFFF,
        ;
    }
    assert forall|a: int, b: int| x - 3 <= a < x + 4 && y - 3 <= b < y + 4 implies 0 <= #[trigger] fy(
        a,
        b,
    ) <= most by {
        lemma_weight_range(sky, a, b);
        let v = sky.weight(a, b);
        let h = sky.h;
        assert(0 <= b * v <= h * 0xFFFF_FFFF_FFFF_FFFF) by (nonlinear_arith)
            requires
                0 <= b <= h,
                0 <= v <= 0xFFFF_FFFF_FFFF_FFFF,
        ;
    }
    lemma_box_bounds(fx, x - 3, x + 4, y - 3, y + 4, 0, most);
    lemma_box_bounds(fy, x - 3, x + 4, y - 3, y + 4, 0, most);
    assert((x + 4 - (x - 3)) * (y + 4 - (y - 3)) == 49) by (nonlinear_arith);
}

/// A star lies inside its frame.
pub open spec fn on_canvas(s: Star, w: int, h: int) -> bool {
    0 <= s.x <= w * PIXEL && 0 <= s.y <= h * PIXEL
}

proof fn lemma_centre(p: int, flux: int, side: int)
    requires
        0 < flux,
        0 <= p <= side * flux,
    ensures
        0 <= p * PIXEL / flux <= side * PIXEL,
{
    assert(0 <= p * PIXEL <= side * PIXEL * flux) by (nonlinear_arith)
        requires
            0 <= p <= side * flux,
    ;
    let q = p * PIXEL;
    let k = side * PIXEL;
    assert(0 <= q / flux <= k) by (nonlinear_arith)
        requires
            0 < flux,
            0 <= q <= k * flux,
    ;
}

/// The star at a peak, if its surroundings hold light.
fn centroid(luma: &[u32], w: usize, l: &Levels, x: usize, y: usize, Ghost(sky): Ghost<Sky>) -> (r:
    Option<Star>)
    requires
        l.of(sky),
        luma@ == sky.luma,
        w == sky.w,
        3 <= x < sky.w - 3,
        3 <= y < sky.h - 3,
    ensures
        r == (if sky.window(sky.weight_on(), x as int, y as int) > 0 {
            Some(sky.star(x as int, y as int))
        } else {
            None
        }),
        r matches Some(s) ==> on_canvas(s, sky.w, sky.h),
{
    proof {
        lemma_sides(sky);
    }
    let ghost g = sky.weight_on();
    let ghost (fx, fy) = (sky.pull_x(), sky.pull_y());
    let mut sx: u128 = 0;
    let mut sy: u128 = 0;
    let mut flux: u128 = 0;
    let mut b: usize = y - 3;
    while b < y + 4
        invariant
            sky.w <= MAX_SIDE,
            sky.h <= MAX_SIDE,
            l.of(sky),
            luma@ == sky.luma,
            w == sky.w,
            3 <= x < sky.w - 3,
            3 <= y < sky.h - 3,
            g == sky.weight_on(),
            fx == sky.pull_x(),
            fy == sky.pull_y(),
            y - 3 <= b <= y + 4,
            flux == sum_box(g, x - 3, x + 4, y - 3, b as int),
            sx == sum_box(fx, x - 3, x + 4, y - 3, b as int),
            sy == sum_box(fy, x - 3, x + 4, y - 3, b as int),
            flux <= 0x8_0000_0000_0000_0000 * (b - (y - 3)),
            sx <= 0x2_0000_0000_0000_0000_0000_0000 * (b - (y - 3)),
            sy <= 0x2_0000_0000_0000_0000_0000_0000 * (b - (y - 3)),
        decreases y + 4 - b,
    {
        let ghost (f0, x0, y0) = (flux, sx, sy);
        let mut a: usize = x - 3;
        while a < x + 4
            invariant
                sky.w <= MAX_SIDE,
                sky.h <= MAX_SIDE,
                l.of(sky),
                luma@ == sky.luma,
                w == sky.w,
                3 <= x < sky.w - 3,
                3 <= y < sky.h - 3,
                g == sky.weight_on(),
                fx == sky.pull_x(),
                fy == sky.pull_y(),
                y - 3 <= b < y + 4,
                x - 3 <= a <= x + 4,
                f0 <= 0x8_0000_0000_0000_0000 * 6,
                x0 <= 0x2_0000_0000_0000_0000_0000_0000 * 6,
                y0 <= 0x2_0000_0000_0000_0000_0000_0000 * 6,
                flux == f0 + sum_row(g, b as int, x - 3, a as int),
                sx == x0 + sum_row(fx, b as int, x - 3, a as int),
                sy == y0 + sum_row(fy, b as int, x - 3, a as int),
                flux <= f0 + 0x1_0000_0000_0000_0000 * (a - (x - 3)),
                sx <= x0 + 0x4000_0000_0000_0000_0000_0000 * (a - (x - 3)),
                sy <= y0 + 0x4000_0000_0000_0000_0000_0000 * (a - (x - 3)),
            decreases x + 4 - a,
        {
            let d = above(l, at(luma, w, a, b, Ghost(sky)), Ghost(sky));
            let v: u128 = if d < 0 {
                0
            } else {
                d as u128
            };
            assert(v == g(a as int, b as int));
            assert(0 <= a * v <= 0x4000_0000_0000_0000_0000_0000 && 0 <= b * v
                <= 0x4000_0000_0000_0000_0000_0000) by (nonlinear_arith)
                requires
                    0 <= a <= 0x2000_0000,
                    0 <= b <= 0x2000_0000,
                    0 <= v <= 0xFFFF_FFFF_FFFF_FFFF,
            ;
            flux = flux + v;
            sx = sx + (a as u128) * v;
            sy = sy + (b as u128) * v;
            a = a + 1;
        }
        b = b + 1;
    }
    if flux == 0 {
        return None;
    }
    proof {
        lemma_window(sky, x as int, y as int);
        lemma_centre(sx as int, flux as int, sky.w);
        lemma_centre(sy as int, flux as int, sky.h);
    }
    let cx: u128 = sx * (PIXEL as u128) / flux;
    let cy: u128 = sy * (PIXEL as u128) / flux;
    Some(Star { x: cx as i64, y: cy as i64, flux })
}

/// Every star of a frame, in the order of the pixels.
fn all_stars(luma: &[u32], w: usize, h: usize) -> (r: Vec<Star>)
    requires
        (Sky { luma: luma@, w: w as int, h: h as int }).wf(),
        8 <= w,
        8 <= h,
    ensures
        r@ == (Sky { luma: luma@, w: w as int, h: h as int }).stars(w * h),
        forall|i: int| 0 <= i < r@.len() ==> on_canvas(#[trigger] r@[i], w as int, h as int),
{
    let ghost sky = Sky { luma: luma@, w: w as int, h: h as int };
    assert(luma@.len() == luma.len());
    let l = levels(luma, w, h);
    let n: usize = w * h;
    let mut out: Vec<Star> = Vec::new();
    let mut k: usize = 0;
    while k < n
        invariant
            l.of(sky),
            sky == (Sky { luma: luma@, w: w as int, h: h as int }),
            8 <= w,
            8 <= h,
            n == w * h,
            k <= n,
            out@ == sky.stars(k as int),
            forall|i: int| 0 <= i < out@.len() ==> on_canvas(#[trigger] out@[i], w as int, h as int),
        decreases n - k,
    {
        let x = k % w;
        let y = k / w;
        proof {
            let (ki, wi, hi) = (k as int, w as int, h as int);
            assert(0 <= ki / wi < hi) by (nonlinear_arith)
                requires
                    0 <= ki < wi * hi,
                    0 < wi,
            ;
        }
        if 3 <= x && x < w - 3 && 3 <= y && y < h - 3 && peak(luma, w, &l, x, y, Ghost(sky)) {
            if let Some(star) = centroid(luma, w, &l, x, y, Ghost(sky)) {
                out.push(star);
            }
        }
        k = k + 1;
    }
    out
}

/// The brightness of every star of a list.
fn flux_keys(stars: &Vec<Star>) -> (r: Vec<u128>)
    ensures
        r@ == fluxes(stars@),
{
    let mut r: Vec<u128> = Vec::new();
    let mut i: usize = 0;
    while i < stars.len()
        invariant
            i <= stars@.len(),
            r@.len() == i,
            forall|k: int| 0 <= k < i ==> #[trigger] r@[k] == stars@[k].flux,
        decreases stars.len() - i,
    {
        r.push(stars[i].flux);
        i = i + 1;
    }
    assert(r@ =~= fluxes(stars@));
    r
}

/// Bound on the coordinates of a star: far beyond any frame.
pub const HORIZON: i64 = 0x1000_0000_0000_0000;

/// Whether a star's coordinates are in range.
pub open spec fn in_range(s: Star) -> bool {
    -HORIZON <= s.x <= HORIZON && -HORIZON <= s.y <= HORIZON
}

/// Whether the coordinates of all stars of a list are in range.
pub open spec fn all_in_range(stars: Seq<Star>) -> bool {
    forall|i: int| 0 <= i < stars.len() ==> in_range(#[trigger] stars[i])
}

proof fn lemma_square_bound(d: int, bound: int)
    requires
        -bound <= d <= bound,
    ensures
        0 <= d * d <= bound * bound,
{
    assert(0 <= d * d <= bound * bound) by (nonlinear_arith)
        requires
            -bound <= d <= bound,
    ;
}

/// [`distance2`], as code.
pub(crate) fn dist2(ax: i128, ay: i128, bx: i128, by: i128) -> (r: u128)
    requires
        -0x4000_0000_0000_0000 <= ax - bx <= 0x4000_0000_0000_0000,
        -0x4000_0000_0000_0000 <= ay - by <= 0x4000_0000_0000_0000,
    ensures
        r == distance2(ax as int, ay as int, bx as int, by as int),
        r <= 0x2000_0000_0000_0000_0000_0000_0000_0000,
{
    let dx = ax - bx;
    let dy = ay - by;
    proof {
        lemma_square_bound(dx as int, 0x4000_0000_0000_0000);
        lemma_square_bound(dy as int, 0x4000_0000_0000_0000);
    }
    (dx * dx) as u128 + (dy * dy) as u128
}

/// Whether a star is at least `min_sep` away from every star of a list.
fn apart(s: &Star, others: &Vec<Star>, min_sep: u64) -> (r: bool)
    requires
        in_range(*s),
        all_in_range(others@),
    ensures
        r == stands_apart(*s, others@, min_sep as int),
{
    let m: u128 = min_sep as u128;
    assert(0 <= m * m <= 0xFFFF_FFFF_FFFF_FFFF * 0xFFFF_FFFF_FFFF_FFFF) by (nonlinear_arith)
        requires
            0 <= m <= 0xFFFF_FFFF_FFFF_FFFF,
    ;
    let mm: u128 = m * m;
    let mut i: usize = 0;
    while i < others.len()
        invariant
            in_range(*s),
            all_in_range(others@),
            i <= others@.len(),
            mm == min_sep * min_sep,
            forall|k: int| #![trigger others@[k]]
                0 <= k < i ==> distance2(
                    others@[k].x as int,
                    others@[k].y as int,
                    s.x as int,
                    s.y as int,
                ) >= min_sep * min_sep,
        decreases others.len() - i,
    {
        let o = others[i];
        if dist2(o.x as i128, o.y as i128, s.x as i128, s.y as i128) < mm {
            assert(others@[i as int] == o);
            return false;
        }
        i = i + 1;
    }
    true
}

/// The brightest stars of a frame, brightest first: at most `max_stars`, each at least
/// `min_sep` millionths of a pixel away from the brighter ones. A star is a pixel four
/// standard deviations above the mean with none brighter next to it; its place is the
/// centre of the light of the seven by seven pixels around it.
pub fn detect_stars(luma: &[u32], w: usize, h: usize, max_stars: usize, min_sep: u64) -> (r: Vec<Star>)
    requires
        8 <= w && 8 <= h ==> w * h <= usize::MAX,
        8 <= w && 8 <= h && w * h <= luma@.len() ==> luma@.len() <= MAX_PIXELS,
    ensures
        r@ == stars_of(luma@, w as int, h as int, max_stars as int, min_sep as int),
        forall|i: int| 0 <= i < r@.len() ==> on_canvas(#[trigger] r@[i], w as int, h as int),
        all_in_range(r@),
{
    let mut out: Vec<Star> = Vec::new();
    if w < 8 || h < 8 || luma.len() < w * h {
        return out;
    }
    let ghost sky = Sky { luma: luma@, w: w as int, h: h as int };
    proof {
        lemma_sides(sky);
    }
    let all = all_stars(luma, w, h);
    let keys = flux_keys(&all);
    let order = rank(&keys);
    let mut i: usize = 0;
    while i < order.len()
        invariant
            w <= MAX_SIDE,
            h <= MAX_SIDE,
            i <= order@.len(),
            order@.len() == all@.len(),
            ranks(keys@, 0, all@.len() as int, order@),
            forall|k: int| 0 <= k < all@.len() ==> on_canvas(#[trigger] all@[k], w as int, h as int),
            forall|k: int| 0 <= k < out@.len() ==> on_canvas(#[trigger] out@[k], w as int, h as int),
            out@ == thinned(all@, order@, i as int, max_stars as int, min_sep as int),
        decreases order.len() - i,
    {
        let s = all[order[i]];
        assert(on_canvas(all@[order@[i as int] as int], w as int, h as int));
        assert(w * PIXEL <= HORIZON && h * PIXEL <= HORIZON);
        assert(all_in_range(out@));
        if out.len() < max_stars && apart(&s, &out, min_sep) {
            out.push(s);
        }
        i = i + 1;
    }
    assert(w * PIXEL <= HORIZON && h * PIXEL <= HORIZON);
    out
}

/// Every kept star stands in its place of the ranking, and no two stand too close.
proof fn lemma_thinned(
    stars: Seq<Star>,
    order: Seq<usize>,
    n: int,
    max: int,
    min_sep: int,
)
    requires
        0 <= max,
        ranks(fluxes(stars), 0, stars.len() as int, order),
        0 <= n <= order.len(),
    ensures
        ({
            let kept = thinned(stars, order, n, max, min_sep);
            &&& kept.len() <= max
            &&& forall|i: int, j: int|
                0 <= i < j < kept.len() ==> #[trigger] kept[i].flux >= #[trigger] kept[j].flux
            &&& forall|i: int, j: int|
                0 <= i < kept.len() && n <= j < order.len() ==> #[trigger] kept[i].flux
                    >= stars[#[trigger] order[j] as int].flux
            &&& forall|i: int, j: int|
                0 <= i < j < kept.len() ==> distance2(
                    (#[trigger] kept[i]).x as int,
                    kept[i].y as int,
                    (#[trigger] kept[j]).x as int,
                    kept[j].y as int,
                ) >= min_sep * min_sep
        }),
    decreases n,
{
    if n > 0 {
        lemma_thinned(stars, order, n - 1, max, min_sep);
        let before = thinned(stars, order, n - 1, max, min_sep);
        let kept = thinned(stars, order, n, max, min_sep);
        let s = stars[order[n - 1] as int];
        assert forall|j: int| n <= j < order.len() implies s.flux >= stars[#[trigger] order[j] as int].flux
        by {
            assert(ahead(fluxes(stars), order[n - 1] as int, order[j] as int));
        }
        assert forall|i: int| 0 <= i < before.len() implies (#[trigger] before[i]).flux >= s.flux by {
            assert(before[i].flux >= stars[order[n - 1] as int].flux);
        }
    }
}

proof fn lemma_star_count(sky: Sky, n: int)
    requires
        0 <= n,
        0 < sky.w,
    ensures
        sky.stars(n).len() <= n,
        0 < n ==> sky.stars(n).len() < n,
    decreases n,
{
    if n > 0 {
        lemma_star_count(sky, n - 1);
    }
}

/// The stars of a frame are no more than asked for, come brightest first, and stand apart
/// from one another.
pub proof fn law_kept_stars(luma: Seq<u32>, w: int, h: int, max: int, min_sep: int)
    requires
        0 <= max,
        0 <= w,
        0 <= h,
        w * h <= MAX_PIXELS,
    ensures
        ({
            let kept = stars_of(luma, w, h, max, min_sep);
            &&& kept.len() <= max
            &&& forall|i: int, j: int|
                0 <= i < j < kept.len() ==> #[trigger] kept[i].flux >= #[trigger] kept[j].flux
            &&& forall|i: int, j: int|
                0 <= i < j < kept.len() ==> distance2(
                    (#[trigger] kept[i]).x as int,
                    kept[i].y as int,
                    (#[trigger] kept[j]).x as int,
                    kept[j].y as int,
                ) >= min_sep * min_sep
        }),
{
    if !(w < 8 || h < 8 || luma.len() < w * h) {
        let sky = Sky { luma, w, h };
        assert(0 <= w * h) by (nonlinear_arith)
            requires
                0 <= w,
                0 <= h,
        ;
        let all = sky.stars(sky.area());
        lemma_star_count(sky, sky.area());
        law_ranking_exists(fluxes(all));
        lemma_thinned(all, ranking(fluxes(all)), all.len() as int, max, min_sep);
    }
}

/// How far a luminance lies above the mean of a frame of `w` by `h` pixels, times their number.
pub open spec fn excess(luma: Seq<u32>, w: int, h: int, v: int) -> int {
    w * h * v - total(Seq::new(luma.len(), |i: int| luma[i] as int))
}

/// The light above the mean, as a function on the grid.
pub open spec fn shine(luma: Seq<u32>, w: int, h: int) -> spec_fn(int, int) -> int {
    |x: int, y: int|
        if excess(luma, w, h, luma[y * w + x] as int) > 0 {
            excess(luma, w, h, luma[y * w + x] as int)
        } else {
            0
        }
}

/// The light above the mean of the seven by seven pixels around one.
pub open spec fn shine_around(luma: Seq<u32>, w: int, h: int, x: int, y: int) -> int {
    sum_box(shine(luma, w, h), x - 3, x + 4, y - 3, y + 4)
}

/// Whether pixel `k`, counted row by row, is a star: three pixels or more off every edge, as far
/// above the mean as four standard deviations, with none of its neighbours brighter, and with
/// light around it.
pub open spec fn is_star_pixel(luma: Seq<u32>, w: int, h: int, k: int) -> bool {
    let (x, y) = (k % w, k / w);
    let d = excess(luma, w, h, luma[k] as int);
    &&& 0 <= k < w * h
    &&& 3 <= x <= w - 4
    &&& 3 <= y <= h - 4
    &&& d >= 0
    &&& w * h * (d * d) >= 16 * total(
        Seq::new(
            luma.len(),
            |i: int|
                excess(luma, w, h, luma[i] as int) * excess(luma, w, h, luma[i] as int),
        ),
    )
    &&& forall|a: int, b: int| #![trigger luma[b * w + a]]
        x - 1 <= a <= x + 1 && y - 1 <= b <= y + 1 ==> luma[b * w + a] <= luma[k]
    &&& shine_around(luma, w, h, x, y) > 0
}

/// Whether `s` is the star of pixel `k`: its light is what lies above the mean around the pixel,
/// and it stands in the middle of that light, rounded down to a millionth of a pixel.
pub open spec fn is_star_of(luma: Seq<u32>, w: int, h: int, k: int, s: Star) -> bool {
    let (x, y) = (k % w, k / w);
    let f = shine_around(luma, w, h, x, y);
    let g = shine(luma, w, h);
    let sx = sum_box(|a: int, b: int| a * g(a, b), x - 3, x + 4, y - 3, y + 4);
    let sy = sum_box(|a: int, b: int| b * g(a, b), x - 3, x + 4, y - 3, y + 4);
    &&& s.flux == f
    &&& s.x * f <= 1_000_000 * sx < (s.x + 1) * f
    &&& s.y * f <= 1_000_000 * sy < (s.y + 1) * f
}

proof fn lemma_total_of_luma(luma: Seq<u32>, n: int)
    requires
        0 <= n <= luma.len(),
    ensures
        total(Seq::new(luma.len(), |i: int| luma[i] as int).take(n)) == sum_of(luma, n),
    decreases n,
{
    let s = Seq::new(luma.len(), |i: int| luma[i] as int);
    if n > 0 {
        lemma_total_of_luma(luma, n - 1);
        assert(s.take(n).drop_last() =~= s.take(n - 1));
    }
}

proof fn lemma_excess(sky: Sky, v: int)
    ensures
        excess(sky.luma, sky.w, sky.h, v) == sky.above_mean(v),
{
    let s = Seq::new(sky.luma.len(), |i: int| sky.luma[i] as int);
    lemma_total_of_luma(sky.luma, sky.luma.len() as int);
    assert(s.take(s.len() as int) =~= s);
}

proof fn lemma_total_spread(sky: Sky, n: int)
    requires
        0 <= n <= sky.luma.len(),
    ensures
        total(
            Seq::new(
                sky.luma.len(),
                |i: int|
                    excess(sky.luma, sky.w, sky.h, sky.luma[i] as int) * excess(
                        sky.luma,
                        sky.w,
                        sky.h,
                        sky.luma[i] as int,
                    ),
            ).take(n),
        ) == sky.spread_of(n),
    decreases n,
{
    let s = Seq::new(
        sky.luma.len(),
        |i: int|
            excess(sky.luma, sky.w, sky.h, sky.luma[i] as int) * excess(
                sky.luma,
                sky.w,
                sky.h,
                sky.luma[i] as int,
            ),
    );
    if n > 0 {
        lemma_total_spread(sky, n - 1);
        assert(s.take(n).drop_last() =~= s.take(n - 1));
        lemma_excess(sky, sky.luma[n - 1] as int);
    }
}

proof fn lemma_pixel(w: int, h: int, k: int)
    requires
        0 < w,
        0 <= k < w * h,
    ensures
        0 <= k % w < w,
        0 <= k / w < h,
        (k / w) * w + k % w == k,
{
    assert(0 <= k / w < h && (k / w) * w + k % w == k) by (nonlinear_arith)
        requires
            0 <= k < w * h,
            0 < w,
    ;
}

proof fn lemma_star_pixel(sky: Sky, k: int)
    requires
        sky.wf(),
        0 <= k < sky.area(),
    ensures
        sky.has_star(k % sky.w, k / sky.w) == is_star_pixel(sky.luma, sky.w, sky.h, k),
        sky.has_star(k % sky.w, k / sky.w) ==> is_star_of(
            sky.luma,
            sky.w,
            sky.h,
            k,
            sky.star(k % sky.w, k / sky.w),
        ),
{
    let (x, y) = (k % sky.w, k / sky.w);
    let (luma, w, h) = (sky.luma, sky.w, sky.h);
    lemma_pixel(w, h, k);
    lemma_excess(sky, luma[k] as int);
    let sq = Seq::new(
        luma.len(),
        |i: int| excess(luma, w, h, luma[i] as int) * excess(luma, w, h, luma[i] as int),
    );
    lemma_total_spread(sky, luma.len() as int);
    assert(sq.take(sq.len() as int) =~= sq);
    let g = shine(luma, w, h);
    assert forall|a: int, b: int| #[trigger] g(a, b) == sky.weight_on()(a, b) by {
        lemma_excess(sky, luma[b * w + a] as int);
    }
    assert(g =~= sky.weight_on());
    assert(sky.at(x, y) == luma[k]);
    assert forall|a: int, b: int| #![trigger sky.at(a, b)] sky.at(a, b) == luma[b * w + a] by {}
    if sky.is_peak(x, y) {
        assert forall|a: int, b: int| #![trigger luma[b * w + a]] x - 1 <= a <= x + 1 && y - 1 <= b
            <= y + 1 implies luma[b * w + a] <= luma[k] by {
            assert(sky.at(a, b) <= sky.at(x, y));
        }
    }
    if is_star_pixel(luma, w, h, k) {
        assert forall|a: int, b: int| #![trigger sky.at(a, b)] x - 1 <= a <= x + 1 && y - 1 <= b <= y
            + 1 implies sky.at(a, b) <= sky.at(x, y) by {
            assert(luma[b * w + a] <= luma[k]);
        }
    }
    if sky.has_star(x, y) {
        lemma_sides(sky);
        lemma_window(sky, x, y);
        let f = sky.window(sky.weight_on(), x, y);
        let (sx, sy) = (sky.window(sky.pull_x(), x, y), sky.window(sky.pull_y(), x, y));
        lemma_centre(sx, f, w);
        lemma_centre(sy, f, h);
        assert((|a: int, b: int| a * g(a, b)) =~= sky.pull_x());
        assert((|a: int, b: int| b * g(a, b)) =~= sky.pull_y());
        let (px, py) = (sx * PIXEL, sy * PIXEL);
        assert((px / f) * f <= px < (px / f + 1) * f && (py / f) * f <= py < (py / f + 1) * f)
            by (nonlinear_arith)
            requires
                f > 0,
        ;
    }
}

/// The pixels of the stars at the first `n` pixels.
spec fn star_pixels(sky: Sky, n: int) -> Seq<int>
    decreases n,
{
    if n <= 0 {
        Seq::empty()
    } else if sky.has_star((n - 1) % sky.w, (n - 1) / sky.w) {
        star_pixels(sky, n - 1).push(n - 1)
    } else {
        star_pixels(sky, n - 1)
    }
}

proof fn lemma_star_pixels(sky: Sky, n: int)
    requires
        sky.wf(),
        0 <= n <= sky.area(),
    ensures
        ({
            let ks = star_pixels(sky, n);
            &&& ks.len() == sky.stars(n).len()
            &&& forall|i: int| 0 <= i < ks.len() ==> 0 <= #[trigger] ks[i] < n
            &&& forall|i: int|
                0 <= i < ks.len() ==> is_star_pixel(sky.luma, sky.w, sky.h, #[trigger] ks[i])
                    && is_star_of(sky.luma, sky.w, sky.h, ks[i], sky.stars(n)[i])
            &&& forall|i: int, j: int| 0 <= i < j < ks.len() ==> #[trigger] ks[i] < #[trigger] ks[j]
            &&& forall|k: int|
                0 <= k < n && #[trigger] is_star_pixel(sky.luma, sky.w, sky.h, k) ==> ks.contains(k)
        }),
    decreases n,
{
    if n > 0 {
        lemma_star_pixels(sky, n - 1);
        lemma_star_pixel(sky, n - 1);
        let (before, ks) = (star_pixels(sky, n - 1), star_pixels(sky, n));
        assert forall|k: int|
            0 <= k < n && #[trigger] is_star_pixel(sky.luma, sky.w, sky.h, k) implies ks.contains(
            k,
        ) by {
            if k < n - 1 {
                let i = choose|i: int| 0 <= i < before.len() && before[i] == k;
                assert(ks[i] == k);
            } else {
                assert(ks[ks.len() - 1] == k);
            }
        }
    }
}

/// The places of the ranking whose stars are kept, of its first `n`.
spec fn kept_places(
    stars: Seq<Star>,
    order: Seq<usize>,
    n: int,
    max: int,
    min_sep: int,
) -> Seq<int>
    decreases n,
{
    if n <= 0 {
        Seq::empty()
    } else {
        let kept = thinned(stars, order, n - 1, max, min_sep);
        let before = kept_places(stars, order, n - 1, max, min_sep);
        if kept.len() < max && stands_apart(stars[order[n - 1] as int], kept, min_sep) {
            before.push(n - 1)
        } else {
            before
        }
    }
}

/// Whether two stars are less than `sep` apart.
pub open spec fn too_close(a: Star, b: Star, sep: int) -> bool {
    (a.x - b.x) * (a.x - b.x) + (a.y - b.y) * (a.y - b.y) < sep * sep
}

/// Whether there is a reason to leave out a star at place `m` of the ranking.
spec fn has_reason(kept: Seq<Star>, ps: Seq<int>, s: Star, m: int, max: int, min_sep: int) -> bool {
    ||| exists|i: int|
        0 <= i < ps.len() && #[trigger] ps[i] < m && too_close(kept[i], s, min_sep)
    ||| ps.len() == max && forall|i: int| 0 <= i < ps.len() ==> #[trigger] ps[i] < m
}

proof fn lemma_kept_places(
    stars: Seq<Star>,
    order: Seq<usize>,
    n: int,
    max: int,
    min_sep: int,
)
    requires
        0 <= max,
        0 <= n <= order.len(),
    ensures
        ({
            let kept = thinned(stars, order, n, max, min_sep);
            let ps = kept_places(stars, order, n, max, min_sep);
            &&& kept.len() == ps.len() <= max
            &&& forall|i: int|
                0 <= i < ps.len() ==> 0 <= #[trigger] ps[i] < n && kept[i]
                    == stars[order[ps[i]] as int]
            &&& forall|i: int, j: int| 0 <= i < j < ps.len() ==> #[trigger] ps[i] < #[trigger] ps[j]
            &&& forall|i: int, j: int|
                0 <= i < j < ps.len() ==> !too_close(#[trigger] kept[i], #[trigger] kept[j], min_sep)
            &&& forall|m: int|
                #![trigger order[m]]
                0 <= m < n && !ps.contains(m) ==> has_reason(
                    kept,
                    ps,
                    stars[order[m] as int],
                    m,
                    max,
                    min_sep,
                )
        }),
    decreases n,
{
    if n > 0 {
        lemma_kept_places(stars, order, n - 1, max, min_sep);
        let before = thinned(stars, order, n - 1, max, min_sep);
        let kept = thinned(stars, order, n, max, min_sep);
        let qs = kept_places(stars, order, n - 1, max, min_sep);
        let ps = kept_places(stars, order, n, max, min_sep);
        let s = stars[order[n - 1] as int];
        assert forall|m: int| #![trigger order[m]] 0 <= m < n && !ps.contains(m) implies has_reason(
            kept,
            ps,
            stars[order[m] as int],
            m,
            max,
            min_sep,
        ) by {
            let t = stars[order[m] as int];
            if m < n - 1 {
                if qs.contains(m) {
                    let i = choose|i: int| 0 <= i < qs.len() && qs[i] == m;
                    assert(ps[i] == m);
                }
                assert(has_reason(before, qs, t, m, max, min_sep));
                if exists|i: int|
                    0 <= i < qs.len() && #[trigger] qs[i] < m && too_close(before[i], t, min_sep) {
                    let i = choose|i: int|
                        0 <= i < qs.len() && #[trigger] qs[i] < m && too_close(before[i], t, min_sep);
                    assert(kept[i] == before[i] && ps[i] == qs[i]);
                }
            } else {
                if ps.len() > qs.len() {
                    assert(ps[ps.len() - 1] == m);
                }
                if before.len() < max {
                    let i = choose|i: int| #![trigger before[i]]
                        0 <= i < before.len() && distance2(
                            before[i].x as int,
                            before[i].y as int,
                            s.x as int,
                            s.y as int,
                        ) < min_sep * min_sep;
                    assert(kept[i] == before[i]);
                    assert(too_close(kept[i], s, min_sep));
                    assert(ps[i] < n - 1);
                }
            }
        }
        assert forall|i: int, j: int| 0 <= i < j < ps.len() implies !too_close(
            #[trigger] kept[i],
            #[trigger] kept[j],
            min_sep,
        ) by {
            if j == before.len() {
                assert(before[i] == kept[i]);
            }
        }
    }
}

/// Whether a star at pixel `j` comes before one at pixel `k`: it has more light, or as much and
/// its pixel comes first.
pub open spec fn outshines(a: Star, j: int, b: Star, k: int) -> bool {
    a.flux > b.flux || (a.flux == b.flux && j < k)
}

/// Whether there is a reason to leave out the star `s` at pixel `k` where the stars `kept` at the
/// pixels `ks` are found: one that comes before it stands too close, or as many as asked for
/// come before it.
pub open spec fn may_be_left_out(
    kept: Seq<Star>,
    ks: Seq<int>,
    s: Star,
    k: int,
    max: int,
    min_sep: int,
) -> bool {
    ||| exists|i: int|
        0 <= i < ks.len() && outshines(kept[i], #[trigger] ks[i], s, k) && too_close(
            kept[i],
            s,
            min_sep,
        )
    ||| ks.len() == max && forall|i: int|
        0 <= i < ks.len() ==> outshines(kept[i], #[trigger] ks[i], s, k)
}

/// What is found in a frame is a list of its stars: `ks` are their pixels. They come brightest
/// first, row by row where they are as bright; there are no more than asked for, and no two
/// too close. No star is left out without a reason.
pub proof fn law_stars_are_found(luma: Seq<u32>, w: int, h: int, max: int, min_sep: int) -> (ks: Seq<
    int,
>)
    requires
        0 <= max,
        8 <= w,
        8 <= h,
        w * h <= luma.len() <= 0x1_0000_0000,
    ensures
        ks.len() == stars_of(luma, w, h, max, min_sep).len() <= max,
        forall|i: int|
            0 <= i < ks.len() ==> is_star_pixel(luma, w, h, #[trigger] ks[i]) && is_star_of(
                luma,
                w,
                h,
                ks[i],
                stars_of(luma, w, h, max, min_sep)[i],
            ),
        forall|i: int, j: int|
            0 <= i < j < ks.len() ==> outshines(
                stars_of(luma, w, h, max, min_sep)[i],
                #[trigger] ks[i],
                stars_of(luma, w, h, max, min_sep)[j],
                #[trigger] ks[j],
            ) && !too_close(
                stars_of(luma, w, h, max, min_sep)[i],
                stars_of(luma, w, h, max, min_sep)[j],
                min_sep,
            ),
        forall|k: int, s: Star|
            #![trigger is_star_of(luma, w, h, k, s)]
            is_star_pixel(luma, w, h, k) && is_star_of(luma, w, h, k, s) && !ks.contains(k)
                ==> may_be_left_out(stars_of(luma, w, h, max, min_sep), ks, s, k, max, min_sep),
{
    let sky = Sky { luma, w, h };
    assert(0 <= w * h) by (nonlinear_arith)
        requires
            0 <= w,
            0 <= h,
    ;
    let all = sky.stars(sky.area());
    let order = ranking(fluxes(all));
    let px = star_pixels(sky, sky.area());
    let n = all.len() as int;
    lemma_star_pixels(sky, sky.area());
    lemma_star_count(sky, sky.area());
    law_ranking_exists(fluxes(all));
    lemma_kept_places(all, order, n, max, min_sep);
    let kept = thinned(all, order, n, max, min_sep);
    let ps = kept_places(all, order, n, max, min_sep);
    let ks = Seq::new(ps.len(), |i: int| px[order[ps[i]] as int]);
    assert(kept == stars_of(luma, w, h, max, min_sep));
    assert forall|i: int| 0 <= i < ks.len() implies is_star_pixel(luma, w, h, #[trigger] ks[i])
        && is_star_of(luma, w, h, ks[i], kept[i]) by {
        let p = ps[i];
        assert(0 <= p < n);
        let o = order[p] as int;
        assert(0 <= o < n);
        assert(px[o] == ks[i]);
    }
    assert forall|i: int, j: int| 0 <= i < j < ks.len() implies outshines(
        kept[i],
        #[trigger] ks[i],
        kept[j],
        #[trigger] ks[j],
    ) && !too_close(kept[i], kept[j], min_sep) by {
        assert(ps[i] < ps[j]);
        let (a, b) = (order[ps[i]] as int, order[ps[j]] as int);
        assert(ahead(fluxes(all), a, b));
        assert(px[a] == ks[i] && px[b] == ks[j]);
        assert(kept[i] == all[a] && kept[j] == all[b]);
    }
    assert forall|k: int, s: Star|
        #![trigger is_star_of(luma, w, h, k, s)]
        is_star_pixel(luma, w, h, k) && is_star_of(luma, w, h, k, s) && !ks.contains(
            k,
        ) implies may_be_left_out(kept, ks, s, k, max, min_sep) by {
        assert(is_star_pixel(sky.luma, sky.w, sky.h, k) && 0 <= k < sky.area());
        assert(px.contains(k));
        let o = choose|o: int| 0 <= o < px.len() && px[o] == k;
        assert(px[o] == k && is_star_of(luma, w, h, k, all[o]));
        lemma_star_is_one(luma, w, h, k, s, all[o]);
        assert(placed(order, o));
        let m = choose|m: int| 0 <= m < order.len() && #[trigger] order[m] == o;
        if ps.contains(m) {
            let i = choose|i: int| 0 <= i < ps.len() && ps[i] == m;
            assert(ks[i] == k);
        }
        assert(all[order[m] as int] == s);
        assert forall|i: int| 0 <= i < ks.len() && ps[i] < m implies outshines(
            kept[i],
            #[trigger] ks[i],
            s,
            k,
        ) by {
            let a = order[ps[i]] as int;
            assert(ahead(fluxes(all), a, o));
            assert(px[a] == ks[i]);
            assert(kept[i] == all[a]);
        }
        assert(has_reason(kept, ps, s, m, max, min_sep));
        if exists|i: int| 0 <= i < ps.len() && #[trigger] ps[i] < m && too_close(kept[i], s, min_sep) {
            let i = choose|i: int|
                0 <= i < ps.len() && #[trigger] ps[i] < m && too_close(kept[i], s, min_sep);
            assert(outshines(kept[i], ks[i], s, k));
        } else {
            assert forall|i: int| 0 <= i < ks.len() implies outshines(
                kept[i],
                #[trigger] ks[i],
                s,
                k,
            ) by {
                assert(ps[i] < m);
            }
        }
    }
    ks
}

/// A pixel has one star.
proof fn lemma_star_is_one(luma: Seq<u32>, w: int, h: int, k: int, a: Star, b: Star)
    requires
        is_star_pixel(luma, w, h, k),
        is_star_of(luma, w, h, k, a),
        is_star_of(luma, w, h, k, b),
    ensures
        a == b,
{
    let f = shine_around(luma, w, h, k % w, k / w);
    let (ax, bx, ay, by) = (a.x as int, b.x as int, a.y as int, b.y as int);
    assert(ax * f < (bx + 1) * f && bx * f < (ax + 1) * f && ay * f < (by + 1) * f && by * f < (ay
        + 1) * f);
    assert(ax == bx && ay == by) by (nonlinear_arith)
        requires
            f > 0,
            ax * f < (bx + 1) * f,
            bx * f < (ax + 1) * f,
            ay * f < (by + 1) * f,
            by * f < (ay + 1) * f,
    ;
}

/// A frame under eight pixels wide or high has no stars, nor has one with too few pixels.
pub proof fn law_small_frame_has_no_stars(
    luma: Seq<u32>,
    w: int,
    h: int,
    max: int,
    min_sep: int,
)
    requires
        w < 8 || h < 8 || luma.len() < w * h,
    ensures
        stars_of(luma, w, h, max, min_sep).len() == 0,
{
}

/// The luminance of a pixel is so much of its red, green and blue.
pub proof fn law_luminance_weighs_the_colours(rgb: Seq<u8>, n: int, i: int)
    requires
        0 <= i < n,
    ensures
        luma_seq(rgb, n).len() == n,
        luma_seq(rgb, n)[i] == 299 * rgb[3 * i] + 587 * rgb[3 * i + 1] + 114 * rgb[3 * i + 2],
{
}

/// A frame of one brightness has no stars.
pub proof fn law_flat_sky_has_no_stars(
    luma: Seq<u32>,
    w: int,
    h: int,
    level: u32,
    max: int,
    min_sep: int,
)
    requires
        0 <= w,
        0 <= h,
        forall|i: int| 0 <= i < luma.len() ==> #[trigger] luma[i] == level,
    ensures
        stars_of(luma, w, h, max, min_sep) == Seq::<Star>::empty(),
{
    if !(w < 8 || h < 8 || luma.len() < w * h) {
        let sky = Sky { luma, w, h };
        assert(0 <= w * h) by (nonlinear_arith)
            requires
                0 <= w,
                0 <= h,
        ;
        lemma_flat_sum(luma, level, luma.len() as int);
        lemma_flat_stars(sky, level, sky.area());
    }
}

proof fn lemma_flat_sum(luma: Seq<u32>, level: u32, n: int)
    requires
        0 <= n <= luma.len(),
        forall|i: int| 0 <= i < luma.len() ==> #[trigger] luma[i] == level,
    ensures
        sum_of(luma, n) == n * level,
    decreases n,
{
    if n > 0 {
        lemma_flat_sum(luma, level, n - 1);
        assert(n * level == (n - 1) * level + level) by (nonlinear_arith);
    } else {
        assert(n * level == 0) by (nonlinear_arith)
            requires
                n == 0,
        ;
    }
}

proof fn lemma_flat_stars(sky: Sky, level: u32, n: int)
    requires
        0 < sky.w,
        0 < sky.h,
        sky.area() <= sky.luma.len(),
        sky.total() == sky.luma.len() * level,
        forall|i: int| 0 <= i < sky.luma.len() ==> #[trigger] sky.luma[i] == level,
        0 <= n <= sky.area(),
    ensures
        sky.stars(n) == Seq::<Star>::empty(),
    decreases n,
{
    if n > 0 {
        lemma_flat_stars(sky, level, n - 1);
        let x = (n - 1) % sky.w;
        let y = (n - 1) / sky.w;
        if sky.has_star(x, y) {
            let g = sky.weight_on();
            assert forall|a: int, b: int| x - 3 <= a < x + 4 && y - 3 <= b < y + 4 implies 0
                <= #[trigger] g(a, b) <= 0 by {
                lemma_index(sky.w, sky.h, a, b);
                let (n, len, v) = (sky.area(), sky.luma.len() as int, level as int);
                assert(n * v <= len * v) by (nonlinear_arith)
                    requires
                        n <= len,
                        0 <= v,
                ;
            }
            lemma_box_bounds(g, x - 3, x + 4, y - 3, y + 4, 0, 0);
        }
    }
}

} // verus!
