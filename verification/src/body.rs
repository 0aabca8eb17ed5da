//! What is known of camera bodies: where an autofocus point lies on the sensor, and how a
//! timed exposure is asked for. A body that is not known is treated with care.
//!
//! Places in the frame are fractions, in billionths.
use vstd::prelude::*;

use crate::autofocus::{clamp_i64, clamped, UNIT};
use crate::stacker::{lemma_nearest_exact, nearest_whole};
use crate::text::{eq_ignore_ascii_case, lowered};

verus! {

/// From a place in the frame to the camera's autofocus coordinates. Across it is linear.
/// Down it follows the table, which holds pairs of a coordinate that was set and the one
/// that the camera took; without a table it is linear too.
#[derive(Debug)]
pub struct AfCalib {
    /// The greatest coordinate across.
    pub x_max: u32,
    /// The greatest coordinate down, where there is no table.
    pub y_max: u32,
    /// Coordinates down, as set and as taken.
    pub y_cal: Vec<(u32, u32)>,
}

/// A fraction of a length, to the nearest whole number.
pub open spec fn scaled(frac: int, len: int) -> int {
    nearest_whole(clamped(frac, 0, UNIT as int) * len, UNIT as int)
}

/// Whether a table can be read backwards: what is taken grows, what is set does not fall.
pub open spec fn is_curve(cal: Seq<(u32, u32)>) -> bool {
    forall|i: int, j: int| #![trigger cal[i], cal[j]]
        0 <= i < j < cal.len() ==> cal[i].1 < cal[j].1 && cal[i].0 <= cal[j].0
}

/// The coordinate that is to be taken, in billionths: the fraction of the way from the first
/// taken coordinate to the last.
pub open spec fn wanted(cal: Seq<(u32, u32)>, frac: int) -> int {
    cal[0].1 * UNIT + clamped(frac, 0, UNIT as int) * (cal[cal.len() - 1].1 - cal[0].1)
}

/// The piece of the table, from `i` on, in which a wanted coordinate lies: its right end.
pub open spec fn piece(cal: Seq<(u32, u32)>, target: int, i: int) -> int
    decreases cal.len() - i,
{
    if i + 1 >= cal.len() || target <= cal[i].1 * UNIT {
        i
    } else {
        piece(cal, target, i + 1)
    }
}

/// What is to be set between two entries of the table, on the straight line through them.
pub open spec fn between(a: (u32, u32), b: (u32, u32), target: int) -> int {
    nearest_whole(
        a.0 * (UNIT * (b.1 - a.1)) + (target - a.1 * UNIT) * (b.0 - a.0),
        UNIT * (b.1 - a.1),
    )
}

/// What is to be set so that the wanted coordinate is taken.
pub open spec fn read_back(cal: Seq<(u32, u32)>, frac: int) -> int {
    let target = wanted(cal, frac);
    let i = piece(cal, target, 1);
    between(cal[i - 1], cal[i], target)
}

/// What is to be set, down.
pub open spec fn down(cal: Seq<(u32, u32)>, y_max: int, frac: int) -> int {
    if cal.len() < 2 {
        scaled(frac, y_max)
    } else {
        read_back(cal, frac)
    }
}

proof fn lemma_nearest_monotone(a: int, b: int, n: int)
    requires
        a <= b,
        0 < n,
    ensures
        nearest_whole(a, n) <= nearest_whole(b, n),
{
    assert((2 * a + n) / (2 * n) <= (2 * b + n) / (2 * n)) by (nonlinear_arith)
        requires
            a <= b,
            0 < n,
    ;
}

proof fn lemma_scaled(frac: int, len: int)
    requires
        0 <= len,
    ensures
        0 <= scaled(frac, len) <= len,
{
    let f = clamped(frac, 0, UNIT as int);
    assert(0 <= f * len <= len * UNIT) by (nonlinear_arith)
        requires
            0 <= f <= UNIT,
            0 <= len,
    ;
    lemma_nearest_exact(0, UNIT as int);
    lemma_nearest_exact(len, UNIT as int);
    lemma_nearest_monotone(0, f * len, UNIT as int);
    lemma_nearest_monotone(f * len, len * UNIT, UNIT as int);
}

proof fn lemma_piece(cal: Seq<(u32, u32)>, target: int, i: int)
    requires
        1 <= i < cal.len(),
        target <= cal[cal.len() - 1].1 * UNIT,
        cal[i - 1].1 * UNIT <= target,
    ensures
        ({
            let k = piece(cal, target, i);
            &&& i <= k < cal.len()
            &&& cal[k - 1].1 * UNIT <= target <= cal[k].1 * UNIT
            &&& k > i ==> cal[k - 1].1 * UNIT < target
        }),
    decreases cal.len() - i,
{
    if i + 1 >= cal.len() || target <= cal[i].1 * UNIT {
    } else {
        lemma_piece(cal, target, i + 1);
    }
}

proof fn lemma_between(a: (u32, u32), b: (u32, u32), target: int)
    requires
        a.1 < b.1,
        a.0 <= b.0,
        a.1 * UNIT <= target <= b.1 * UNIT,
    ensures
        a.0 <= between(a, b, target) <= b.0,
        target == a.1 * UNIT ==> between(a, b, target) == a.0,
        target == b.1 * UNIT ==> between(a, b, target) == b.0,
{
    let n = UNIT * (b.1 - a.1);
    let t = target - a.1 * UNIT;
    let d = b.0 - a.0;
    let (c0, c1) = (a.0 as int, b.0 as int);
    assert(0 < n);
    assert(0 <= t <= n);
    assert(0 <= t * d <= n * d && (t == 0 ==> t * d == 0) && (t == n ==> t * d == n * d))
        by (nonlinear_arith)
        requires
            0 <= t <= n,
            0 <= d,
    ;
    assert(c0 * n + n * d == c1 * n) by (nonlinear_arith)
        requires
            d == c1 - c0,
    ;
    lemma_nearest_exact(c0, n);
    lemma_nearest_exact(c1, n);
    lemma_nearest_monotone(c0 * n, c0 * n + t * d, n);
    lemma_nearest_monotone(c0 * n + t * d, c1 * n, n);
}

proof fn lemma_wanted(cal: Seq<(u32, u32)>, frac: int)
    requires
        cal.len() >= 2,
        is_curve(cal),
    ensures
        cal[0].1 * UNIT <= wanted(cal, frac) <= cal[cal.len() - 1].1 * UNIT,
        frac <= 0 ==> wanted(cal, frac) == cal[0].1 * UNIT,
        frac >= UNIT ==> wanted(cal, frac) == cal[cal.len() - 1].1 * UNIT,
{
    let f = clamped(frac, 0, UNIT as int);
    let d = cal[cal.len() - 1].1 - cal[0].1;
    assert(cal[0].1 < cal[cal.len() - 1].1);
    assert(0 <= f * d <= 1_000_000_000 * d && (f == 0 ==> f * d == 0)) by (nonlinear_arith)
        requires
            0 <= f <= 1_000_000_000,
            0 <= d,
    ;
}

impl AfCalib {
    /// The table can be read backwards.
    pub open spec fn wf(self) -> bool {
        is_curve(self.y_cal@)
    }

    /// The coordinate across of a place in the frame.
    pub fn x(&self, nx: i64) -> (r: u32)
        ensures
            r == scaled(nx as int, self.x_max as int),
    {
        scale(nx, self.x_max)
    }

    /// The coordinate down to set so that the focus lies at a place in the frame.
    pub fn y(&self, ny: i64) -> (r: u32)
        requires
            self.wf(),
        ensures
            r == down(self.y_cal@, self.y_max as int, ny as int),
    {
        let n = self.y_cal.len();
        if n < 2 {
            return scale(ny, self.y_max);
        }
        let ghost cal = self.y_cal@;
        let first = self.y_cal[0];
        let last = self.y_cal[n - 1];
        proof {
            lemma_wanted(cal, ny as int);
        }
        let f: i64 = clamp_i64(ny, 0, UNIT);
        assert(0 <= f * (last.1 - first.1) <= 1_000_000_000 * 0xFFFF_FFFF) by (nonlinear_arith)
            requires
                0 <= f <= 1_000_000_000,
                0 <= last.1 - first.1 <= 0xFFFF_FFFF,
        ;
        let target: u64 = (first.1 as u64) * (UNIT as u64) + (f as u64) * ((last.1
            - first.1) as u64);
        let mut i: usize = 1;
        while i + 1 < n && target > (self.y_cal[i].1 as u64) * (UNIT as u64)
            invariant
                cal == self.y_cal@,
                n == cal.len(),
                1 <= i < n,
                target == wanted(cal, ny as int),
                piece(cal, target as int, i as int) == piece(cal, target as int, 1),
            decreases n - i,
        {
            i = i + 1;
        }
        proof {
            lemma_piece(cal, target as int, 1);
            assert(cal[i - 1].1 < cal[i as int].1);
            lemma_between(cal[i - 1], cal[i as int], target as int);
        }
        let a = self.y_cal[i - 1];
        let b = self.y_cal[i];
        let w: u128 = (UNIT as u128) * ((b.1 - a.1) as u128);
        let t: u128 = (target - (a.1 as u64) * (UNIT as u64)) as u128;
        let d: u128 = (b.0 - a.0) as u128;
        assert(0 <= a.0 * w <= 0xFFFF_FFFF * 0xFFFF_FFFF_FFFF_FFFF && 0 <= t * d
            <= 0xFFFF_FFFF_FFFF_FFFF * 0xFFFF_FFFF) by (nonlinear_arith)
            requires
                0 <= w <= 0xFFFF_FFFF_FFFF_FFFF,
                0 <= a.0 <= 0xFFFF_FFFF,
                0 <= t <= 0xFFFF_FFFF_FFFF_FFFF,
                0 <= d <= 0xFFFF_FFFF,
        ;
        let num: u128 = (a.0 as u128) * w + t * d;
        ((2 * num + w) / (2 * w)) as u32
    }
}

/// A fraction of a length, to the nearest whole number.
fn scale(frac: i64, len: u32) -> (r: u32)
    ensures
        r == scaled(frac as int, len as int),
{
    let f: i64 = clamp_i64(frac, 0, UNIT);
    proof {
        lemma_scaled(frac as int, len as int);
        assert(0 <= f * len <= 1_000_000_000 * 0xFFFF_FFFF) by (nonlinear_arith)
            requires
                0 <= f <= 1_000_000_000,
                0 <= len <= 0xFFFF_FFFF,
        ;
    }
    let p: u64 = (f as u64) * (len as u64);
    ((2 * p + (UNIT as u64)) / (2 * (UNIT as u64))) as u32
}

/// The ends of the frame are reached: the fractions nought and one give the first and the
/// last coordinate of the table.
pub proof fn law_table_ends_are_reached(cal: Seq<(u32, u32)>, y_max: int)
    requires
        cal.len() >= 2,
        is_curve(cal),
    ensures
        down(cal, y_max, 0) == cal[0].0,
        down(cal, y_max, UNIT as int) == cal[cal.len() - 1].0,
{
    lemma_wanted(cal, 0);
    lemma_wanted(cal, UNIT as int);
    let last = wanted(cal, UNIT as int);
    lemma_piece(cal, wanted(cal, 0), 1);
    assert(cal[0].1 < cal[1].1 && cal[0].0 <= cal[1].0);
    lemma_between(cal[0], cal[1], wanted(cal, 0));
    lemma_piece(cal, last, 1);
    let k = piece(cal, last, 1);
    assert(cal[k - 1].1 < cal[k].1);
    lemma_between(cal[k - 1], cal[k], last);
    if k < cal.len() - 1 {
        assert(cal[k].1 < cal[cal.len() - 1].1);
    }
}

/// The table is read backwards as well as whole coordinates allow: the wanted coordinate lies
/// between two entries, and what is set is at most half a unit off the straight line between
/// them.
pub proof fn law_table_is_inverted_within_half(cal: Seq<(u32, u32)>, y_max: int, frac: int)
    requires
        cal.len() >= 2,
        is_curve(cal),
    ensures
        ({
            let t = wanted(cal, frac);
            let k = piece(cal, t, 1);
            let (a, b) = (cal[k - 1], cal[k]);
            let n = UNIT * (b.1 - a.1);
            let line = a.0 * n + (t - a.1 * UNIT) * (b.0 - a.0);
            &&& 1 <= k < cal.len()
            &&& a.1 * UNIT <= t <= b.1 * UNIT
            &&& 0 < n
            &&& -n <= 2 * (down(cal, y_max, frac) * n - line) <= n
        }),
{
    let t = wanted(cal, frac);
    lemma_wanted(cal, frac);
    lemma_piece(cal, t, 1);
    let k = piece(cal, t, 1);
    let (a, b) = (cal[k - 1], cal[k]);
    assert(a.1 < b.1);
    let n = UNIT * (b.1 - a.1);
    let line = a.0 * n + (t - a.1 * UNIT) * (b.0 - a.0);
    let q = nearest_whole(line, n);
    assert(-n <= 2 * (q * n - line) <= n) by (nonlinear_arith)
        requires
            0 < n,
            q == (2 * line + n) / (2 * n),
    ;
}

/// Further down in the frame is never further up on the sensor.
pub proof fn law_down_is_monotone(cal: Seq<(u32, u32)>, y_max: int, f: int, g: int)
    requires
        is_curve(cal),
        0 <= y_max,
        f <= g,
    ensures
        down(cal, y_max, f) <= down(cal, y_max, g),
{
    let (cf, cg) = (clamped(f, 0, UNIT as int), clamped(g, 0, UNIT as int));
    if cal.len() < 2 {
        assert(cf * y_max <= cg * y_max) by (nonlinear_arith)
            requires
                cf <= cg,
                0 <= y_max,
        ;
        lemma_nearest_monotone(cf * y_max, cg * y_max, UNIT as int);
    } else {
        let d = cal[cal.len() - 1].1 - cal[0].1;
        assert(cal[0].1 < cal[cal.len() - 1].1);
        assert(cf * d <= cg * d) by (nonlinear_arith)
            requires
                cf <= cg,
                0 <= d,
        ;
        lemma_wanted(cal, f);
        lemma_wanted(cal, g);
        let (s, t) = (wanted(cal, f), wanted(cal, g));
        lemma_piece(cal, s, 1);
        lemma_piece(cal, t, 1);
        let (i, j) = (piece(cal, s, 1), piece(cal, t, 1));
        assert(cal[i - 1].1 < cal[i].1 && cal[j - 1].1 < cal[j].1);
        lemma_between(cal[i - 1], cal[i], s);
        lemma_between(cal[j - 1], cal[j], t);
        if i == j {
            let (a, b) = (cal[i - 1], cal[i]);
            let n = UNIT * (b.1 - a.1);
            let e = b.0 - a.0;
            let (p, q) = (s - a.1 * UNIT, t - a.1 * UNIT);
            assert(p * e <= q * e) by (nonlinear_arith)
                requires
                    p <= q,
                    0 <= e,
            ;
            lemma_nearest_monotone(a.0 * n + p * e, a.0 * n + q * e, n);
        } else if i < j {
            if i < j - 1 {
                assert(cal[i].0 <= cal[j - 1].0);
            }
        } else {
            if j < i - 1 {
                assert(cal[j].1 < cal[i - 1].1);
            }
            assert(cal[i - 1].1 * UNIT < s);
        }
    }
}

/// How a body is told to keep the shutter open.
#[derive(Clone, Copy, Debug, PartialEq, Eq, Structural)]
pub enum BulbEncoding {
    /// By the shutter speed zero. The host times the exposure.
    ShutterZero,
}

/// What is known of a body.
#[derive(Debug)]
pub struct BodyProfile {
    /// Its name.
    pub model: String,
    /// Its autofocus coordinates.
    pub af_calib: AfCalib,
    /// How a timed exposure is asked for.
    pub bulb: BulbEncoding,
}

/// Coordinates down of the ILCE-7C, as set and as taken.
pub open spec fn a7c_table() -> Seq<(u32, u32)> {
    seq![(0u32, 28u32), (120u32, 66u32), (240u32, 162u32), (359u32, 256u32), (479u32, 297u32)]
}

/// The table of a body: none for one that was never measured.
pub open spec fn table_for(model: Seq<char>) -> Seq<(u32, u32)> {
    if lowered(model) == lowered("ILCE-7C"@) {
        a7c_table()
    } else {
        Seq::empty()
    }
}

/// The autofocus coordinates of a body.
pub fn af_calib(model: &str) -> (r: AfCalib)
    ensures
        r.wf(),
        r.x_max == 639,
        r.y_max == 479,
        r.y_cal@ == table_for(model@),
{
    let mut y_cal: Vec<(u32, u32)> = Vec::new();
    if eq_ignore_ascii_case(model, "ILCE-7C") {
        y_cal.push((0, 28));
        y_cal.push((120, 66));
        y_cal.push((240, 162));
        y_cal.push((359, 256));
        y_cal.push((479, 297));
        assert(y_cal@ =~= a7c_table());
    } else {
        assert(y_cal@ =~= Seq::<(u32, u32)>::empty());
    }
    AfCalib { x_max: 639, y_max: 479, y_cal }
}

impl BodyProfile {
    /// The profile of a body. One that is not known gets linear coordinates.
    pub fn for_model(model: &str) -> (r: BodyProfile)
        ensures
            r.model@ == model@,
            r.af_calib.wf(),
            r.af_calib.x_max == 639,
            r.af_calib.y_max == 479,
            r.af_calib.y_cal@ == table_for(model@),
            r.bulb == BulbEncoding::ShutterZero,
    {
        BodyProfile {
            model: model.to_string(),
            af_calib: af_calib(model),
            bulb: BulbEncoding::ShutterZero,
        }
    }
}

/// Whether the focus can be placed in a focus area: zone, flexible spot, expanded spot, or
/// one that tracks.
pub open spec fn is_placeable(area: u64) -> bool {
    area == 0x02 || 0x04 <= area <= 0x08 || area == 0x12 || 0x14 <= area <= 0x1A
}

/// The small flexible spot.
pub const FLEXIBLE_SPOT_S: u64 = 0x04;

/// What to set for the focus to lie at a place.
#[derive(Clone, Copy, Debug, PartialEq, Eq, Structural)]
pub struct AfPlan {
    /// The focus area, to be set first.
    pub area: u64,
    /// The coordinates, both in one number.
    pub position: u64,
}

/// What to set for the focus to lie at a place in the frame. An area in which the focus
/// cannot be placed gives way to the small flexible spot.
pub fn af_point(model: &str, x: i64, y: i64, area: Option<u64>) -> (r: AfPlan)
    ensures
        r.area == (match area {
            Some(a) => if is_placeable(a) {
                a
            } else {
                0x04
            },
            None => 0x04,
        }),
        r.position == scaled(x as int, 639) * 0x1_0000 + down(table_for(model@), 479, y as int),
{
    let cal = af_calib(model);
    let px = cal.x(x);
    let py = cal.y(y);
    proof {
        lemma_scaled(x as int, 639);
        lemma_down_range(model@, y as int);
    }
    let area = match area {
        Some(a) => if a == 0x02 || (0x04 <= a && a <= 0x08) || a == 0x12 || (0x14 <= a && a <= 0x1A) {
            a
        } else {
            FLEXIBLE_SPOT_S
        },
        None => FLEXIBLE_SPOT_S,
    };
    AfPlan { area, position: (px as u64) * 0x1_0000 + py as u64 }
}

proof fn lemma_down_range(model: Seq<char>, frac: int)
    ensures
        0 <= down(table_for(model), 479, frac) <= 479,
{
    let cal = table_for(model);
    if cal.len() < 2 {
        lemma_scaled(frac, 479);
    } else {
        lemma_wanted(cal, frac);
        let t = wanted(cal, frac);
        lemma_piece(cal, t, 1);
        let k = piece(cal, t, 1);
        lemma_between(cal[k - 1], cal[k], t);
    }
}

/// The two coordinates can be read off the number that holds both.
pub proof fn law_position_holds_both(model: Seq<char>, x: int, y: int)
    ensures
        ({
            let p = scaled(x, 639) * 0x1_0000 + down(table_for(model), 479, y);
            p / 0x1_0000 == scaled(x, 639) && p % 0x1_0000 == down(table_for(model), 479, y)
        }),
{
    lemma_scaled(x, 639);
    lemma_down_range(model, y);
}

/// A fraction of a length is set to the nearest whole coordinate, a half upwards; what lies outside
/// of the frame is set to its edge.
pub proof fn law_coordinate_is_the_nearest(frac: int, len: int)
    requires
        0 <= len,
    ensures
        0 <= frac <= 1_000_000_000 ==> 2 * (frac * len) - 1_000_000_000 < 2_000_000_000 * scaled(
            frac,
            len,
        ) <= 2 * (frac * len) + 1_000_000_000,
        frac < 0 ==> scaled(frac, len) == 0,
        frac > 1_000_000_000 ==> scaled(frac, len) == len,
        0 <= scaled(frac, len) <= len,
{
    let f = clamped(frac, 0, UNIT as int);
    assert(0 <= f * len <= 1_000_000_000 * len && 0 * len == 0) by (nonlinear_arith)
        requires
            0 <= f <= 1_000_000_000,
            0 <= len,
    ;
}

/// What is set, down, lies on the measured curve, within half a coordinate: between two
/// neighbouring rows `k - 1` and `k` of the table whose second entries enclose the wanted
/// coordinate, where the straight line between them reaches it. The wanted coordinate divides
/// the way from the first row's second entry to the last's as asked.
pub proof fn law_curve_is_read_back(cal: Seq<(u32, u32)>, y_max: int, frac: int) -> (k: int)
    requires
        cal.len() >= 2,
        is_curve(cal),
        0 <= frac <= 1_000_000_000,
    ensures
        1 <= k < cal.len(),
        ({
            let (a, b) = (cal[k - 1], cal[k]);
            let one: int = 1_000_000_000;
            let t = cal.first().1 * one + frac * (cal.last().1 - cal.first().1);
            let n = one * (b.1 - a.1);
            &&& a.1 * one <= t <= b.1 * one
            &&& a.1 < b.1
            &&& -n <= 2 * (down(cal, y_max, frac) * n - (a.0 * n + (t - a.1 * one) * (b.0 - a.0)))
                <= n
        }),
{
    law_table_is_inverted_within_half(cal, y_max, frac);
    piece(cal, wanted(cal, frac), 1)
}

/// Without a table, what is set down is the fraction of the height.
pub proof fn law_no_table_no_curve(cal: Seq<(u32, u32)>, y_max: int, frac: int)
    requires
        cal.len() < 2,
        0 <= y_max,
    ensures
        0 <= frac <= 1_000_000_000 ==> 2 * (frac * y_max) - 1_000_000_000 < 2_000_000_000 * down(
            cal,
            y_max,
            frac,
        ) <= 2 * (frac * y_max) + 1_000_000_000,
        frac < 0 ==> down(cal, y_max, frac) == 0,
        frac > 1_000_000_000 ==> down(cal, y_max, frac) == y_max,
{
    law_coordinate_is_the_nearest(frac, y_max);
}

/// One body has a table, however its name is written; it rises to the bottom of the frame. The
/// others have none.
pub proof fn law_one_body_has_a_table(model: Seq<char>)
    ensures
        lowered(model) == lowered("ILCE-7C"@) ==> {
            let t = table_for(model);
            &&& t.len() == 5
            &&& is_curve(t)
            &&& t[0] == (0u32, 28u32)
            &&& t[1] == (120u32, 66u32)
            &&& t[2] == (240u32, 162u32)
            &&& t[3] == (359u32, 256u32)
            &&& t[4] == (479u32, 297u32)
        },
        lowered(model) != lowered("ILCE-7C"@) ==> table_for(model).len() == 0,
{
}

/// A focus point can be set in the zone, in the five flexible spots, and in the areas that track from
/// one of these; nowhere else.
pub proof fn law_placeable_areas(area: u64)
    ensures
        is_placeable(area) <==> {
            ||| area == 2
            ||| area == 4 || area == 5 || area == 6 || area == 7 || area == 8
            ||| area == 18
            ||| area == 20 || area == 21 || area == 22 || area == 23 || area == 24 || area == 25
            ||| area == 26
        },
{
}

} // verus!
