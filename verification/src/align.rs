//! How far the sky has moved between two frames, from the stars found in each.
use vstd::prelude::*;

use crate::grid::total;
use crate::stars::{all_in_range, dist2, distance2, in_range, Star, HORIZON};

verus! {

/// The square root, rounded down.
pub open spec fn root(n: int) -> int {
    choose|r: int| #[trigger] is_root(n, r)
}

/// Whether `r` is the square root of `n`, rounded down.
pub open spec fn is_root(n: int, r: int) -> bool {
    0 <= r && r * r <= n < (r + 1) * (r + 1)
}

proof fn lemma_root_unique(n: int, a: int, b: int)
    requires
        is_root(n, a),
        is_root(n, b),
    ensures
        a == b,
{
    assert(a <= b && b <= a) by (nonlinear_arith)
        requires
            0 <= a,
            0 <= b,
            a * a <= n < (a + 1) * (a + 1),
            b * b <= n < (b + 1) * (b + 1),
    ;
}

/// The square root of a whole number, rounded down.
fn isqrt(n: u128) -> (r: u64)
    ensures
        r == root(n as int),
        is_root(n as int, r as int),
{
    let mut lo: u128 = 0;
    let mut hi: u128 = 0x1_0000_0000_0000_0000;
    while hi - lo > 1
        invariant
            lo < hi <= 0x1_0000_0000_0000_0000,
            lo * lo <= n < hi * hi,
        decreases hi - lo,
    {
        let mid = lo + (hi - lo) / 2;
        assert(0 <= mid * mid <= 0xFFFF_FFFF_FFFF_FFFF * 0xFFFF_FFFF_FFFF_FFFF)
            by (nonlinear_arith)
            requires
                0 <= mid <= 0xFFFF_FFFF_FFFF_FFFF,
        ;
        if mid * mid <= n {
            lo = mid;
        } else {
            hi = mid;
        }
    }
    proof {
        assert(is_root(n as int, lo as int));
        lemma_root_unique(n as int, lo as int, root(n as int));
    }
    lo as u64
}

/// The place in a list of the star nearest to a point, among the first `n`; the first
/// such place where several are as near.
pub open spec fn nearest(cur: Seq<Star>, x: int, y: int, n: int) -> int
    decreases n,
{
    if n <= 1 {
        0
    } else {
        let p = nearest(cur, x, y, n - 1);
        if gap2(cur, n - 1, x, y) < gap2(cur, p, x, y) {
            n - 1
        } else {
            p
        }
    }
}

/// The square of the distance of a listed star to a point.
pub open spec fn gap2(cur: Seq<Star>, i: int, x: int, y: int) -> int {
    distance2(cur[i].x as int, cur[i].y as int, x, y)
}

/// The star of `cur` nearest to where a star of the reference would be after a shift.
pub open spec fn partner(cur: Seq<Star>, s: Star, tx: int, ty: int) -> int {
    nearest(cur, s.x + tx, s.y + ty, cur.len() as int)
}

/// The square of the distance to that star.
pub open spec fn miss2(cur: Seq<Star>, s: Star, tx: int, ty: int) -> int {
    gap2(cur, partner(cur, s, tx, ty), s.x + tx, s.y + ty)
}

/// Whether a star of the reference is met again after a shift.
pub open spec fn met(cur: Seq<Star>, s: Star, tx: int, ty: int, tol: int) -> bool {
    miss2(cur, s, tx, ty) <= tol * tol
}

/// How many of the first `n` stars of the reference are met again.
pub open spec fn met_count(
    reference: Seq<Star>,
    cur: Seq<Star>,
    tx: int,
    ty: int,
    tol: int,
    n: int,
) -> int
    decreases n,
{
    if n <= 0 {
        0
    } else {
        met_count(reference, cur, tx, ty, tol, n - 1) + if met(cur, reference[n - 1], tx, ty, tol) {
            1int
        } else {
            0
        }
    }
}

/// By how much those stars are missed, in all.
pub open spec fn met_error(
    reference: Seq<Star>,
    cur: Seq<Star>,
    tx: int,
    ty: int,
    tol: int,
    n: int,
) -> int
    decreases n,
{
    if n <= 0 {
        0
    } else {
        met_error(reference, cur, tx, ty, tol, n - 1) + if met(cur, reference[n - 1], tx, ty, tol) {
            root(miss2(cur, reference[n - 1], tx, ty))
        } else {
            0
        }
    }
}

/// The sum of the offsets, across, of the stars that are met again.
pub open spec fn drift_x(
    reference: Seq<Star>,
    cur: Seq<Star>,
    tx: int,
    ty: int,
    tol: int,
    n: int,
) -> int
    decreases n,
{
    if n <= 0 {
        0
    } else {
        let s = reference[n - 1];
        drift_x(reference, cur, tx, ty, tol, n - 1) + if met(cur, s, tx, ty, tol) {
            cur[partner(cur, s, tx, ty)].x - s.x
        } else {
            0
        }
    }
}

/// The sum of the offsets, down, of the stars that are met again.
pub open spec fn drift_y(
    reference: Seq<Star>,
    cur: Seq<Star>,
    tx: int,
    ty: int,
    tol: int,
    n: int,
) -> int
    decreases n,
{
    if n <= 0 {
        0
    } else {
        let s = reference[n - 1];
        drift_y(reference, cur, tx, ty, tol, n - 1) + if met(cur, s, tx, ty, tol) {
            cur[partner(cur, s, tx, ty)].y - s.y
        } else {
            0
        }
    }
}

/// How well the shift that takes star `i` of the reference to star `j` fits.
pub open spec fn fit(reference: Seq<Star>, cur: Seq<Star>, tol: int, i: int, j: int) -> (int, int) {
    let tx = cur[j].x - reference[i].x;
    let ty = cur[j].y - reference[i].y;
    let n = reference.len() as int;
    (met_count(reference, cur, tx, ty, tol, n), met_error(reference, cur, tx, ty, tol, n))
}

/// Whether one fit is better than another: more stars, or as many with less error.
pub open spec fn better(a: (int, int), b: (int, int)) -> bool {
    a.0 > b.0 || (a.0 == b.0 && a.1 < b.1)
}

/// Whether the pair `(i, j)` is tried: one of the four brightest stars of the reference
/// with one of the six brightest of the other frame.
pub open spec fn tried(reference: Seq<Star>, cur: Seq<Star>, i: int, j: int) -> bool {
    0 <= i < reference.len() && i < 4 && 0 <= j < cur.len() && j < 6
}

/// Whether the pair `(i, j)` gives a shift that meets two stars or more.
pub open spec fn plausible(
    reference: Seq<Star>,
    cur: Seq<Star>,
    tol: int,
    i: int,
    j: int,
) -> bool {
    tried(reference, cur, i, j) && fit(reference, cur, tol, i, j).0 >= 2
}

/// Whether the pair `(i, j)` is the best: no plausible pair fits better, and none before
/// it as well.
pub open spec fn is_best_pair(
    reference: Seq<Star>,
    cur: Seq<Star>,
    tol: int,
    i: int,
    j: int,
) -> bool {
    &&& plausible(reference, cur, tol, i, j)
    &&& forall|a: int, b: int| #![trigger fit(reference, cur, tol, a, b)]
        plausible(reference, cur, tol, a, b) ==> !better(
            fit(reference, cur, tol, a, b),
            fit(reference, cur, tol, i, j),
        ) && (a < i || (a == i && b < j) ==> better(
            fit(reference, cur, tol, i, j),
            fit(reference, cur, tol, a, b),
        ))
}

/// The quotient, rounded towards zero.
pub open spec fn towards_zero(a: int, b: int) -> int {
    if a >= 0 {
        a / b
    } else {
        -((-a) / b)
    }
}

/// The mean offset of the stars met again after the shift of pair `(i, j)`.
pub open spec fn refined(reference: Seq<Star>, cur: Seq<Star>, tol: int, i: int, j: int) -> (
    int,
    int,
) {
    let tx = cur[j].x - reference[i].x;
    let ty = cur[j].y - reference[i].y;
    let n = reference.len() as int;
    let k = met_count(reference, cur, tx, ty, tol, n);
    (
        towards_zero(drift_x(reference, cur, tx, ty, tol, n), k),
        towards_zero(drift_y(reference, cur, tx, ty, tol, n), k),
    )
}

/// The shift from the reference to the other frame: nothing where one of them has fewer
/// than two stars or no shift meets two; else the mean offset of the best pair's matches.
pub open spec fn translation(reference: Seq<Star>, cur: Seq<Star>, tol: int) -> Option<(int, int)> {
    if reference.len() < 2 || cur.len() < 2 || !(exists|i: int, j: int|
        plausible(reference, cur, tol, i, j)) {
        None
    } else {
        let (i, j) = choose|i: int, j: int| is_best_pair(reference, cur, tol, i, j);
        Some(refined(reference, cur, tol, i, j))
    }
}

/// Whether a shift is one between two stars in range.
spec fn shift_in_range(tx: int, ty: int) -> bool {
    -2 * HORIZON <= tx <= 2 * HORIZON && -2 * HORIZON <= ty <= 2 * HORIZON
}

/// The star of `cur` nearest to where `s` would be after a shift, and the square of its
/// distance.
fn find_partner(cur: &[Star], s: &Star, tx: i128, ty: i128) -> (r: (usize, u128))
    requires
        cur@.len() > 0,
        all_in_range(cur@),
        in_range(*s),
        shift_in_range(tx as int, ty as int),
    ensures
        r.0 == partner(cur@, *s, tx as int, ty as int),
        r.0 < cur@.len(),
        r.1 == miss2(cur@, *s, tx as int, ty as int),
{
    let x: i128 = s.x as i128 + tx;
    let y: i128 = s.y as i128 + ty;
    assert(in_range(cur@[0]));
    let mut best: usize = 0;
    let mut best_d = dist2(cur[0].x as i128, cur[0].y as i128, x, y);
    let mut i: usize = 1;
    while i < cur.len()
        invariant
            all_in_range(cur@),
            in_range(*s),
            shift_in_range(tx as int, ty as int),
            x == s.x + tx,
            y == s.y + ty,
            1 <= i <= cur@.len(),
            best < cur@.len(),
            best == nearest(cur@, x as int, y as int, i as int),
            best_d == gap2(cur@, best as int, x as int, y as int),
        decreases cur.len() - i,
    {
        assert(in_range(cur@[i as int]));
        let d = dist2(cur[i].x as i128, cur[i].y as i128, x, y);
        if d < best_d {
            best = i;
            best_d = d;
        }
        i = i + 1;
    }
    (best, best_d)
}

/// The square of the tolerance.
fn square(tol: u64) -> (r: u128)
    ensures
        r == tol * tol,
{
    let t: u128 = tol as u128;
    assert(0 <= t * t <= 0xFFFF_FFFF_FFFF_FFFF * 0xFFFF_FFFF_FFFF_FFFF) by (nonlinear_arith)
        requires
            0 <= t <= 0xFFFF_FFFF_FFFF_FFFF,
    ;
    t * t
}

proof fn lemma_root_within(r: int, n: int, tol: int)
    requires
        is_root(n, r),
        n <= tol * tol,
        0 <= tol,
    ensures
        r <= tol,
{
    assert(r <= tol) by (nonlinear_arith)
        requires
            0 <= r,
            0 <= tol,
            r * r <= n,
            n <= tol * tol,
    ;
}

/// How well a shift fits: the stars met again, and by how much they are missed.
fn measure_fit(reference: &[Star], cur: &[Star], tol: u64, tx: i128, ty: i128) -> (r: (usize, u128))
    requires
        cur@.len() > 0,
        all_in_range(reference@),
        all_in_range(cur@),
        shift_in_range(tx as int, ty as int),
    ensures
        r.0 == met_count(
            reference@,
            cur@,
            tx as int,
            ty as int,
            tol as int,
            reference@.len() as int,
        ),
        r.1 == met_error(
            reference@,
            cur@,
            tx as int,
            ty as int,
            tol as int,
            reference@.len() as int,
        ),
{
    let tol2 = square(tol);
    let mut count: usize = 0;
    let mut error: u128 = 0;
    let mut i: usize = 0;
    while i < reference.len()
        invariant
            cur@.len() > 0,
            all_in_range(reference@),
            all_in_range(cur@),
            shift_in_range(tx as int, ty as int),
            tol2 == tol * tol,
            i <= reference@.len(),
            reference@.len() == reference.len(),
            count <= i,
            count == met_count(reference@, cur@, tx as int, ty as int, tol as int, i as int),
            error == met_error(reference@, cur@, tx as int, ty as int, tol as int, i as int),
            error <= i * 0xFFFF_FFFF_FFFF_FFFF,
        decreases reference.len() - i,
    {
        let s = reference[i];
        assert(in_range(reference@[i as int]));
        let (p, d) = find_partner(cur, &s, tx, ty);
        if d <= tol2 {
            let r = isqrt(d);
            proof {
                lemma_root_within(r as int, d as int, tol as int);
            }
            count = count + 1;
            error = error + r as u128;
        }
        i = i + 1;
    }
    (count, error)
}

/// The quotient, rounded towards zero.
fn divide(a: i128, k: i128) -> (r: i64)
    requires
        k > 0,
        -0x4000_0000_0000_0000 * k <= a <= 0x4000_0000_0000_0000 * k,
        -0x7FFF_FFFF_FFFF_FFFF_FFFF_FFFF_FFFF_FFFF <= a,
    ensures
        r == towards_zero(a as int, k as int),
        -0x4000_0000_0000_0000 <= r <= 0x4000_0000_0000_0000,
{
    let neg = a < 0;
    let m: i128 = if neg {
        -a
    } else {
        a
    };
    assert(0 <= m as int / k as int <= 0x4000_0000_0000_0000) by (nonlinear_arith)
        requires
            0 <= m <= 0x4000_0000_0000_0000 * k,
            0 < k,
    ;
    let q: i128 = m / k;
    if neg {
        -(q as i64)
    } else {
        q as i64
    }
}

/// The mean offset of the stars met again after a shift.
fn refine(reference: &[Star], cur: &[Star], tol: u64, tx: i128, ty: i128) -> (r: (i64, i64))
    requires
        cur@.len() > 0,
        all_in_range(reference@),
        all_in_range(cur@),
        shift_in_range(tx as int, ty as int),
        met_count(
            reference@,
            cur@,
            tx as int,
            ty as int,
            tol as int,
            reference@.len() as int,
        ) >= 2,
    ensures
        ({
            let n = reference@.len() as int;
            let k = met_count(reference@, cur@, tx as int, ty as int, tol as int, n);
            &&& r.0 == towards_zero(
                drift_x(reference@, cur@, tx as int, ty as int, tol as int, n),
                k,
            )
            &&& r.1 == towards_zero(
                drift_y(reference@, cur@, tx as int, ty as int, tol as int, n),
                k,
            )
        }),
        -0x4000_0000_0000_0000 <= r.0 <= 0x4000_0000_0000_0000,
        -0x4000_0000_0000_0000 <= r.1 <= 0x4000_0000_0000_0000,
{
    let tol2 = square(tol);
    let mut sx: i128 = 0;
    let mut sy: i128 = 0;
    let mut k: i128 = 0;
    let mut i: usize = 0;
    while i < reference.len()
        invariant
            cur@.len() > 0,
            all_in_range(reference@),
            all_in_range(cur@),
            shift_in_range(tx as int, ty as int),
            tol2 == tol * tol,
            i <= reference@.len(),
            reference@.len() == reference.len(),
            0 <= k <= i,
            k == met_count(reference@, cur@, tx as int, ty as int, tol as int, i as int),
            sx == drift_x(reference@, cur@, tx as int, ty as int, tol as int, i as int),
            sy == drift_y(reference@, cur@, tx as int, ty as int, tol as int, i as int),
            -0x2000_0000_0000_0000 * k <= sx <= 0x2000_0000_0000_0000 * k,
            -0x2000_0000_0000_0000 * k <= sy <= 0x2000_0000_0000_0000 * k,
        decreases reference.len() - i,
    {
        let s = reference[i];
        assert(in_range(reference@[i as int]));
        let (p, d) = find_partner(cur, &s, tx, ty);
        if d <= tol2 {
            assert(in_range(cur@[p as int]));
            sx = sx + (cur[p].x as i128 - s.x as i128);
            sy = sy + (cur[p].y as i128 - s.y as i128);
            k = k + 1;
        }
        i = i + 1;
    }
    (divide(sx, k), divide(sy, k))
}

/// Whether `(a, b)` comes before `(i, j)`.
spec fn earlier(a: int, b: int, i: int, j: int) -> bool {
    a < i || (a == i && b < j)
}

/// Whether `best` is the best of the pairs before `(i, j)`.
spec fn best_so_far(
    reference: Seq<Star>,
    cur: Seq<Star>,
    tol: int,
    i: int,
    j: int,
    best: Option<(usize, usize, usize, u128)>,
) -> bool {
    match best {
        None => forall|a: int, b: int| #![trigger fit(reference, cur, tol, a, b)]
            earlier(a, b, i, j) ==> !plausible(reference, cur, tol, a, b),
        Some((bi, bj, count, error)) => {
            let top = fit(reference, cur, tol, bi as int, bj as int);
            &&& earlier(bi as int, bj as int, i, j)
            &&& plausible(reference, cur, tol, bi as int, bj as int)
            &&& top == (count as int, error as int)
            &&& forall|a: int, b: int| #![trigger fit(reference, cur, tol, a, b)]
                plausible(reference, cur, tol, a, b) && earlier(a, b, i, j) ==> !better(
                    fit(reference, cur, tol, a, b),
                    top,
                ) && (earlier(a, b, bi as int, bj as int) ==> better(
                    top,
                    fit(reference, cur, tol, a, b),
                ))
        },
    }
}

proof fn lemma_best_pair_unique(
    reference: Seq<Star>,
    cur: Seq<Star>,
    tol: int,
    i: int,
    j: int,
    a: int,
    b: int,
)
    requires
        is_best_pair(reference, cur, tol, i, j),
        is_best_pair(reference, cur, tol, a, b),
    ensures
        i == a,
        j == b,
{
    let f = fit(reference, cur, tol, i, j);
    let g = fit(reference, cur, tol, a, b);
    assert(!better(f, g) && !better(g, f));
}

/// The shift from the reference to the other frame, in millionths of a pixel: a star of the
/// reference at `p` is met again near `p + t`. The shift is sought among those that take a
/// bright star of the one to a bright star of the other: the one that meets the most stars
/// within `tol`, and of these the one that misses them least; then it is refined to the
/// mean offset of the stars it meets. Nothing where either frame has fewer than two stars,
/// or no shift meets two.
pub fn estimate_translation(reference: &[Star], cur: &[Star], tol: u64) -> (r: Option<(i64, i64)>)
    requires
        all_in_range(reference@),
        all_in_range(cur@),
    ensures
        match (r, translation(reference@, cur@, tol as int)) {
            (Some(t), Some(want)) => t.0 == want.0 && t.1 == want.1,
            (None, None) => true,
            _ => false,
        },
        r matches Some(t) ==> -0x4000_0000_0000_0000 <= t.0 <= 0x4000_0000_0000_0000
            && -0x4000_0000_0000_0000 <= t.1 <= 0x4000_0000_0000_0000,
{
    if reference.len() < 2 || cur.len() < 2 {
        return None;
    }
    let top_r: usize = if reference.len() < 4 {
        reference.len()
    } else {
        4
    };
    let top_c: usize = if cur.len() < 6 {
        cur.len()
    } else {
        6
    };
    let mut best: Option<(usize, usize, usize, u128)> = None;
    let mut i: usize = 0;
    while i < top_r
        invariant
            all_in_range(reference@),
            all_in_range(cur@),
            cur@.len() >= 2,
            i <= top_r <= reference@.len(),
            top_r <= 4,
            top_c <= 6,
            top_c <= cur@.len(),
            top_c == 6 || top_c == cur@.len(),
            best_so_far(reference@, cur@, tol as int, i as int, 0, best),
        decreases top_r - i,
    {
        let mut j: usize = 0;
        while j < top_c
            invariant
                all_in_range(reference@),
                all_in_range(cur@),
                cur@.len() >= 2,
                i < top_r <= reference@.len(),
                top_r <= 4,
                j <= top_c <= cur@.len(),
                top_c <= 6,
                best_so_far(reference@, cur@, tol as int, i as int, j as int, best),
            decreases top_c - j,
        {
            assert(in_range(reference@[i as int]) && in_range(cur@[j as int]));
            let tx: i128 = cur[j].x as i128 - reference[i].x as i128;
            let ty: i128 = cur[j].y as i128 - reference[i].y as i128;
            let (count, error) = measure_fit(reference, cur, tol, tx, ty);
            assert(fit(reference@, cur@, tol as int, i as int, j as int) == (
                count as int,
                error as int,
            ));
            let improves = match best {
                None => true,
                Some((_, _, c, e)) => count > c || (count == c && error < e),
            };
            if improves && count >= 2 {
                best = Some((i, j, count, error));
            }
            assert(best_so_far(reference@, cur@, tol as int, i as int, j + 1, best));
            j = j + 1;
        }
        assert(best_so_far(reference@, cur@, tol as int, i + 1, 0, best));
        i = i + 1;
    }
    match best {
        None => {
            assert forall|a: int, b: int| !plausible(reference@, cur@, tol as int, a, b) by {
                assert(fit(reference@, cur@, tol as int, a, b) == fit(
                    reference@,
                    cur@,
                    tol as int,
                    a,
                    b,
                ));
            }
            None
        },
        Some((bi, bj, count, error)) => {
            proof {
                assert(plausible(reference@, cur@, tol as int, bi as int, bj as int));
                assert(is_best_pair(reference@, cur@, tol as int, bi as int, bj as int));
                let (a, b) = choose|a: int, b: int|
                    is_best_pair(reference@, cur@, tol as int, a, b);
                lemma_best_pair_unique(
                    reference@,
                    cur@,
                    tol as int,
                    bi as int,
                    bj as int,
                    a,
                    b,
                );
                assert(in_range(reference@[bi as int]) && in_range(cur@[bj as int]));
            }
            let tx: i128 = cur[bj].x as i128 - reference[bi].x as i128;
            let ty: i128 = cur[bj].y as i128 - reference[bi].y as i128;
            Some(refine(reference, cur, tol, tx, ty))
        },
    }
}

proof fn lemma_root_exists(n: int)
    requires
        0 <= n,
    ensures
        is_root(n, root(n)),
    decreases n,
{
    if n == 0 {
        assert(is_root(0, 0));
    } else {
        lemma_root_exists(n - 1);
        let r = root(n - 1);
        if (r + 1) * (r + 1) <= n {
            assert((r + 2) * (r + 2) > n) by (nonlinear_arith)
                requires
                    0 <= r,
                    n - 1 < (r + 1) * (r + 1),
            ;
            assert(is_root(n, r + 1));
        } else {
            assert(is_root(n, r));
        }
    }
}

proof fn lemma_distance_nonnegative(ax: int, ay: int, bx: int, by: int)
    ensures
        distance2(ax, ay, bx, by) >= 0,
        distance2(ax, ay, bx, by) == 0 <==> (ax == bx && ay == by),
{
    let (dx, dy) = (ax - bx, ay - by);
    assert(dx * dx >= 0 && (dx * dx == 0 <==> dx == 0)) by (nonlinear_arith);
    assert(dy * dy >= 0 && (dy * dy == 0 <==> dy == 0)) by (nonlinear_arith);
}

proof fn lemma_nearest_is_least(cur: Seq<Star>, x: int, y: int, n: int, k: int)
    requires
        0 <= k < n <= cur.len(),
    ensures
        0 <= nearest(cur, x, y, n) < n,
        gap2(cur, nearest(cur, x, y, n), x, y) <= gap2(cur, k, x, y),
    decreases n,
{
    if n > 1 {
        lemma_nearest_is_least(cur, x, y, n - 1, if k < n - 1 {
            k
        } else {
            0
        });
    }
}

proof fn lemma_counts(reference: Seq<Star>, cur: Seq<Star>, tx: int, ty: int, tol: int, n: int)
    requires
        0 <= n <= reference.len(),
    ensures
        met_count(reference, cur, tx, ty, tol, n) <= n,
        met_error(reference, cur, tx, ty, tol, n) >= 0,
    decreases n,
{
    if n > 0 {
        lemma_counts(reference, cur, tx, ty, tol, n - 1);
        let s = reference[n - 1];
        let q = cur[partner(cur, s, tx, ty)];
        lemma_distance_nonnegative(q.x as int, q.y as int, s.x + tx, s.y + ty);
        lemma_root_exists(miss2(cur, s, tx, ty));
    }
}

/// Whether `cur` is `reference`, moved.
pub open spec fn is_moved(reference: Seq<Star>, cur: Seq<Star>, tx: int, ty: int) -> bool {
    &&& cur.len() == reference.len()
    &&& forall|i: int| #![trigger cur[i]] #![trigger reference[i]]
        0 <= i < cur.len() ==> cur[i].x == reference[i].x + tx && cur[i].y == reference[i].y + ty
}

proof fn lemma_moved_sums(
    reference: Seq<Star>,
    cur: Seq<Star>,
    tx: int,
    ty: int,
    tol: int,
    n: int,
)
    requires
        is_moved(reference, cur, tx, ty),
        0 <= n <= reference.len(),
    ensures
        met_count(reference, cur, tx, ty, tol, n) == n,
        met_error(reference, cur, tx, ty, tol, n) == 0,
        drift_x(reference, cur, tx, ty, tol, n) == n * tx,
        drift_y(reference, cur, tx, ty, tol, n) == n * ty,
    decreases n,
{
    if n > 0 {
        lemma_moved_sums(reference, cur, tx, ty, tol, n - 1);
        let k = n - 1;
        let s = reference[k];
        let (x, y) = (s.x + tx, s.y + ty);
        lemma_nearest_is_least(cur, x, y, cur.len() as int, k);
        let p = partner(cur, s, tx, ty);
        lemma_distance_nonnegative(cur[k].x as int, cur[k].y as int, x, y);
        lemma_distance_nonnegative(cur[p].x as int, cur[p].y as int, x, y);
        lemma_root_exists(0);
        lemma_root_unique(0, root(0), 0);
        assert(tol * tol >= 0) by (nonlinear_arith);
        assert(n * tx == (n - 1) * tx + tx && n * ty == (n - 1) * ty + ty) by (nonlinear_arith);
    } else {
        assert(n * tx == 0 && n * ty == 0) by (nonlinear_arith)
            requires
                n == 0,
        ;
    }
}

proof fn lemma_mean_of_equal(n: int, t: int)
    requires
        0 < n,
    ensures
        towards_zero(n * t, n) == t,
{
    assert((n * t >= 0 ==> (n * t) / n == t) && (n * t < 0 ==> (-(n * t)) / n == -t) && (n * t >= 0
        <==> t >= 0)) by (nonlinear_arith)
        requires
            0 < n,
    ;
}

/// A star field that has moved as a whole is brought back exactly: the shift found is the
/// one by which it moved.
pub proof fn law_known_shift_is_recovered(
    reference: Seq<Star>,
    cur: Seq<Star>,
    tx: int,
    ty: int,
    tol: int,
)
    requires
        reference.len() >= 2,
        is_moved(reference, cur, tx, ty),
    ensures
        translation(reference, cur, tol) == Some((tx, ty)),
{
    let n = reference.len() as int;
    assert(cur[0].x - reference[0].x == tx && cur[0].y - reference[0].y == ty);
    lemma_moved_sums(reference, cur, tx, ty, tol, n);
    assert(plausible(reference, cur, tol, 0, 0));
    assert forall|a: int, b: int| #![trigger fit(reference, cur, tol, a, b)] plausible(
        reference,
        cur,
        tol,
        a,
        b,
    ) implies !better(fit(reference, cur, tol, a, b), fit(reference, cur, tol, 0, 0)) by {
        lemma_counts(
            reference,
            cur,
            cur[b].x - reference[a].x,
            cur[b].y - reference[a].y,
            tol,
            n,
        );
    }
    assert(is_best_pair(reference, cur, tol, 0, 0));
    let (i, j) = choose|i: int, j: int| is_best_pair(reference, cur, tol, i, j);
    lemma_best_pair_unique(reference, cur, tol, 0, 0, i, j);
    lemma_mean_of_equal(n, tx);
    lemma_mean_of_equal(n, ty);
}

/// The best of the first `n` pairs, counted star by star of the reference, if one of them is
/// plausible.
proof fn lemma_best_of_first(reference: Seq<Star>, cur: Seq<Star>, tol: int, n: int) -> (r: Option<
    (int, int),
>)
    requires
        0 <= n,
    ensures
        match r {
            None => forall|a: int, b: int| #![trigger fit(reference, cur, tol, a, b)]
                6 * a + b < n ==> !plausible(reference, cur, tol, a, b),
            Some((i, j)) => {
                &&& plausible(reference, cur, tol, i, j)
                &&& 6 * i + j < n
                &&& forall|a: int, b: int| #![trigger fit(reference, cur, tol, a, b)]
                    plausible(reference, cur, tol, a, b) && 6 * a + b < n ==> !better(
                        fit(reference, cur, tol, a, b),
                        fit(reference, cur, tol, i, j),
                    ) && (earlier(a, b, i, j) ==> better(
                        fit(reference, cur, tol, i, j),
                        fit(reference, cur, tol, a, b),
                    ))
            },
        },
    decreases n,
{
    if n == 0 {
        None
    } else {
        let before = lemma_best_of_first(reference, cur, tol, n - 1);
        let (a, b) = ((n - 1) / 6, (n - 1) % 6);
        let f = fit(reference, cur, tol, a, b);
        let wins = plausible(reference, cur, tol, a, b) && match before {
            None => true,
            Some((i, j)) => better(f, fit(reference, cur, tol, i, j)),
        };
        if wins {
            Some((a, b))
        } else {
            before
        }
    }
}

/// Wherever a shift meets two stars, there is a best one.
pub proof fn law_best_pair_exists(reference: Seq<Star>, cur: Seq<Star>, tol: int)
    requires
        exists|i: int, j: int| plausible(reference, cur, tol, i, j),
    ensures
        exists|i: int, j: int| is_best_pair(reference, cur, tol, i, j),
{
    let (a, b) = choose|i: int, j: int| plausible(reference, cur, tol, i, j);
    let best = lemma_best_of_first(reference, cur, tol, 24);
    let f = fit(reference, cur, tol, a, b);
    assert(best is Some);
    let (i, j) = best->0;
    assert(is_best_pair(reference, cur, tol, i, j));
}

/// The square of the distance between two points.
pub open spec fn apart2(ax: int, ay: int, bx: int, by: int) -> int {
    (ax - bx) * (ax - bx) + (ay - by) * (ay - by)
}

/// The stars among the first `n` of the reference that some star of `cur` lies within `tol` of,
/// once they have moved by `(tx, ty)`.
pub open spec fn met_again(
    reference: Seq<Star>,
    cur: Seq<Star>,
    tx: int,
    ty: int,
    tol: int,
    n: int,
) -> Set<int> {
    Set::new(
        |k: int|
            0 <= k < n && exists|q: int|
                0 <= q < cur.len() && apart2(
                    #[trigger] cur[q].x as int,
                    cur[q].y as int,
                    reference[k].x + tx,
                    reference[k].y + ty,
                ) <= tol * tol,
    )
}

/// Whether star `q` of `cur` is the one nearest to `(x, y)`, the first where several are.
pub open spec fn is_nearest(cur: Seq<Star>, x: int, y: int, q: int) -> bool {
    &&& 0 <= q < cur.len()
    &&& forall|o: int| #![trigger cur[o]]
        0 <= o < cur.len() ==> apart2(cur[q].x as int, cur[q].y as int, x, y) <= apart2(
            cur[o].x as int,
            cur[o].y as int,
            x,
            y,
        )
    &&& forall|o: int| #![trigger cur[o]]
        0 <= o < q ==> apart2(cur[q].x as int, cur[q].y as int, x, y) < apart2(
            cur[o].x as int,
            cur[o].y as int,
            x,
            y,
        )
}

/// Whether `ps` lists, for each star of the reference, the star nearest to where it has moved.
pub open spec fn are_nearest(
    reference: Seq<Star>,
    cur: Seq<Star>,
    tx: int,
    ty: int,
    ps: Seq<int>,
) -> bool {
    &&& ps.len() == reference.len()
    &&& forall|k: int|
        0 <= k < ps.len() ==> is_nearest(
            cur,
            reference[k].x + tx,
            reference[k].y + ty,
            #[trigger] ps[k],
        )
}

/// Whether `es` lists by how much each star of the reference that is met again is missed: its
/// distance from the star nearest to it, rounded down. A star that is not met is listed with
/// nought.
pub open spec fn are_misses(
    reference: Seq<Star>,
    cur: Seq<Star>,
    tx: int,
    ty: int,
    tol: int,
    ps: Seq<int>,
    es: Seq<int>,
) -> bool {
    let met = met_again(reference, cur, tx, ty, tol, reference.len() as int);
    &&& es.len() == reference.len()
    &&& forall|k: int|
        0 <= k < es.len() ==> {
            let e = #[trigger] es[k];
            let d2 = apart2(
                cur[ps[k]].x as int,
                cur[ps[k]].y as int,
                reference[k].x + tx,
                reference[k].y + ty,
            );
            if met.contains(k) {
                0 <= e && e * e <= d2 < (e + 1) * (e + 1)
            } else {
                e == 0
            }
        }
}

/// The stars nearest to where those of the reference have moved.
pub open spec fn partners(reference: Seq<Star>, cur: Seq<Star>, tx: int, ty: int) -> Seq<int> {
    Seq::new(reference.len(), |k: int| partner(cur, reference[k], tx, ty))
}

proof fn lemma_partner_is_nearest(cur: Seq<Star>, x: int, y: int, n: int)
    requires
        0 < n <= cur.len(),
    ensures
        0 <= nearest(cur, x, y, n) < n,
        forall|o: int| #![trigger cur[o]]
            0 <= o < n ==> gap2(cur, nearest(cur, x, y, n), x, y) <= gap2(cur, o, x, y),
        forall|o: int| #![trigger cur[o]]
            0 <= o < nearest(cur, x, y, n) ==> gap2(cur, nearest(cur, x, y, n), x, y) < gap2(
                cur,
                o,
                x,
                y,
            ),
    decreases n,
{
    if n > 1 {
        lemma_partner_is_nearest(cur, x, y, n - 1);
    }
}

proof fn lemma_apart(cur: Seq<Star>, q: int, x: int, y: int)
    ensures
        gap2(cur, q, x, y) == apart2(cur[q].x as int, cur[q].y as int, x, y),
{
}

proof fn lemma_partner(cur: Seq<Star>, s: Star, tx: int, ty: int, q: int)
    requires
        cur.len() > 0,
    ensures
        is_nearest(cur, s.x + tx, s.y + ty, partner(cur, s, tx, ty)),
        is_nearest(cur, s.x + tx, s.y + ty, q) ==> q == partner(cur, s, tx, ty),
{
    let (x, y) = (s.x + tx, s.y + ty);
    let p = partner(cur, s, tx, ty);
    lemma_partner_is_nearest(cur, x, y, cur.len() as int);
    assert forall|o: int| #![trigger cur[o]] 0 <= o < cur.len() implies gap2(cur, o, x, y) == apart2(
        cur[o].x as int,
        cur[o].y as int,
        x,
        y,
    ) by {
        lemma_apart(cur, o, x, y);
    }
    assert(cur[p] == cur[p] && cur[q] == cur[q]);
}

proof fn lemma_met(
    reference: Seq<Star>,
    cur: Seq<Star>,
    tx: int,
    ty: int,
    tol: int,
    n: int,
    k: int,
)
    requires
        cur.len() > 0,
        0 <= k < n,
    ensures
        met_again(reference, cur, tx, ty, tol, n).contains(k) <==> met(
            cur,
            reference[k],
            tx,
            ty,
            tol,
        ),
{
    let s = reference[k];
    let (x, y) = (s.x + tx, s.y + ty);
    let p = partner(cur, s, tx, ty);
    lemma_partner(cur, s, tx, ty, p);
    lemma_apart(cur, p, x, y);
    if met_again(reference, cur, tx, ty, tol, n).contains(k) {
        let q = choose|q: int|
            0 <= q < cur.len() && apart2(#[trigger] cur[q].x as int, cur[q].y as int, x, y) <= tol
                * tol;
        assert(cur[q].x == cur[q].x);
    }
    if met(cur, s, tx, ty, tol) {
        assert(0 <= p < cur.len() && apart2(cur[p].x as int, cur[p].y as int, x, y) <= tol * tol);
    }
}

proof fn lemma_met_count(
    reference: Seq<Star>,
    cur: Seq<Star>,
    tx: int,
    ty: int,
    tol: int,
    n: int,
)
    requires
        cur.len() > 0,
        0 <= n <= reference.len(),
    ensures
        met_again(reference, cur, tx, ty, tol, n).finite(),
        met_again(reference, cur, tx, ty, tol, n).len() == met_count(
            reference,
            cur,
            tx,
            ty,
            tol,
            n,
        ),
    decreases n,
{
    let now = met_again(reference, cur, tx, ty, tol, n);
    if n > 0 {
        let before = met_again(reference, cur, tx, ty, tol, n - 1);
        lemma_met_count(reference, cur, tx, ty, tol, n - 1);
        lemma_met(reference, cur, tx, ty, tol, n, n - 1);
        if met(cur, reference[n - 1], tx, ty, tol) {
            assert(now =~= before.insert(n - 1));
        } else {
            assert(now =~= before);
        }
    } else {
        assert(now =~= Set::empty());
    }
}

/// The offsets along one side of the stars of the reference that are met again, from their
/// nearest stars: along the rows where `down`, else along the columns. Nought for the others.
pub open spec fn offsets(
    reference: Seq<Star>,
    cur: Seq<Star>,
    met: Set<int>,
    ps: Seq<int>,
    down: bool,
) -> Seq<int> {
    Seq::new(
        reference.len(),
        |k: int|
            if !met.contains(k) {
                0
            } else if down {
                cur[ps[k]].y - reference[k].y
            } else {
                cur[ps[k]].x - reference[k].x
            },
    )
}

proof fn lemma_totals(
    reference: Seq<Star>,
    cur: Seq<Star>,
    tx: int,
    ty: int,
    tol: int,
    ps: Seq<int>,
    es: Seq<int>,
    n: int,
)
    requires
        cur.len() > 0,
        0 <= n <= reference.len(),
        are_nearest(reference, cur, tx, ty, ps),
        are_misses(reference, cur, tx, ty, tol, ps, es),
    ensures
        ({
            let m = met_again(reference, cur, tx, ty, tol, reference.len() as int);
            &&& total(es.take(n)) == met_error(reference, cur, tx, ty, tol, n)
            &&& total(offsets(reference, cur, m, ps, false).take(n)) == drift_x(
                reference,
                cur,
                tx,
                ty,
                tol,
                n,
            )
            &&& total(offsets(reference, cur, m, ps, true).take(n)) == drift_y(
                reference,
                cur,
                tx,
                ty,
                tol,
                n,
            )
        }),
    decreases n,
{
    if n > 0 {
        let k = n - 1;
        let s = reference[k];
        let m = met_again(reference, cur, tx, ty, tol, reference.len() as int);
        let ox = offsets(reference, cur, m, ps, false);
        let oy = offsets(reference, cur, m, ps, true);
        lemma_totals(reference, cur, tx, ty, tol, ps, es, k);
        assert(es.take(n).drop_last() =~= es.take(k));
        assert(ox.take(n).drop_last() =~= ox.take(k));
        assert(oy.take(n).drop_last() =~= oy.take(k));
        lemma_met(reference, cur, tx, ty, tol, reference.len() as int, k);
        assert(is_nearest(cur, s.x + tx, s.y + ty, ps[k]));
        lemma_partner(cur, s, tx, ty, ps[k]);
        lemma_apart(cur, ps[k], s.x + tx, s.y + ty);
        if m.contains(k) {
            let d2 = miss2(cur, s, tx, ty);
            assert(es[k] * es[k] <= d2 < (es[k] + 1) * (es[k] + 1));
            assert(is_root(d2, es[k]));
            lemma_root_unique(d2, es[k], root(d2));
        } else {
            assert(es[k] == 0);
        }
    }
}

/// The pair of stars, one of each frame, that the shift comes from.
pub open spec fn chosen(reference: Seq<Star>, cur: Seq<Star>, tol: int) -> (int, int) {
    choose|i: int, j: int| is_best_pair(reference, cur, tol, i, j)
}

/// A shift that is found comes from a pair of bright stars: it takes one of the first four stars
/// of the reference to one of the first six of the other frame. It meets at least two stars,
/// and no other such pair meets more. What is returned is the mean offset of the stars that it
/// meets from their nearest, rounded towards nought.
pub proof fn law_shift_meets_the_most_stars(reference: Seq<Star>, cur: Seq<Star>, tol: int)
    requires
        translation(reference, cur, tol) is Some,
    ensures
        ({
            let n = reference.len() as int;
            let (i, j) = chosen(reference, cur, tol);
            let (tx, ty) = (cur[j].x - reference[i].x, cur[j].y - reference[i].y);
            let met = met_again(reference, cur, tx, ty, tol, n);
            &&& 0 <= i < 4 && i < n
            &&& 0 <= j < 6 && j < cur.len()
            &&& met.finite()
            &&& met.len() >= 2
            &&& forall|a: int, b: int| #![trigger reference[a], cur[b]]
                0 <= a < 4 && a < n && 0 <= b < 6 && b < cur.len() ==> met_again(
                    reference,
                    cur,
                    cur[b].x - reference[a].x,
                    cur[b].y - reference[a].y,
                    tol,
                    n,
                ).len() <= met.len()
        }),
        ({
            let n = reference.len() as int;
            let (i, j) = chosen(reference, cur, tol);
            let (tx, ty) = (cur[j].x - reference[i].x, cur[j].y - reference[i].y);
            let met = met_again(reference, cur, tx, ty, tol, n);
            let ps = partners(reference, cur, tx, ty);
            let t = translation(reference, cur, tol)->0;
            &&& are_nearest(reference, cur, tx, ty, ps)
            &&& is_mean(total(offsets(reference, cur, met, ps, false)), met.len() as int, t.0)
            &&& is_mean(total(offsets(reference, cur, met, ps, true)), met.len() as int, t.1)
        }),
{
    law_best_pair_exists(reference, cur, tol);
    let (i, j) = chosen(reference, cur, tol);
    let n = reference.len() as int;
    let (tx, ty) = (cur[j].x - reference[i].x, cur[j].y - reference[i].y);
    let m = met_again(reference, cur, tx, ty, tol, n);
    lemma_met_count(reference, cur, tx, ty, tol, n);
    assert forall|a: int, b: int| #![trigger reference[a], cur[b]] 0 <= a < 4 && a < n && 0 <= b < 6
        && b < cur.len() implies met_again(
        reference,
        cur,
        cur[b].x - reference[a].x,
        cur[b].y - reference[a].y,
        tol,
        n,
    ).len() <= m.len() by {
        lemma_met_count(
            reference,
            cur,
            cur[b].x - reference[a].x,
            cur[b].y - reference[a].y,
            tol,
            n,
        );
        let f = fit(reference, cur, tol, a, b);
        if f.0 >= 2 {
            assert(plausible(reference, cur, tol, a, b));
        }
    }
    let ps = partners(reference, cur, tx, ty);
    let es = lemma_misses(reference, cur, tx, ty, tol);
    lemma_totals(reference, cur, tx, ty, tol, ps, es, n);
    let (ox, oy) = (offsets(reference, cur, m, ps, false), offsets(reference, cur, m, ps, true));
    assert(ox.take(n) =~= ox && oy.take(n) =~= oy);
    lemma_mean(total(ox), m.len() as int);
    lemma_mean(total(oy), m.len() as int);
}

/// Of the pairs that meet as many stars as the one that the shift comes from, none misses them
/// by less in all; and of those that miss them by as little, none comes before it.
pub proof fn law_least_error_decides_between_equals(
    reference: Seq<Star>,
    cur: Seq<Star>,
    tol: int,
    a: int,
    b: int,
    ps: Seq<int>,
    es: Seq<int>,
    qs: Seq<int>,
    fs: Seq<int>,
)
    requires
        translation(reference, cur, tol) is Some,
        0 <= a < 4 && a < reference.len(),
        0 <= b < 6 && b < cur.len(),
        ({
            let n = reference.len() as int;
            let (i, j) = chosen(reference, cur, tol);
            let (tx, ty) = (cur[j].x - reference[i].x, cur[j].y - reference[i].y);
            let (ux, uy) = (cur[b].x - reference[a].x, cur[b].y - reference[a].y);
            &&& are_nearest(reference, cur, tx, ty, ps)
            &&& are_misses(reference, cur, tx, ty, tol, ps, es)
            &&& are_nearest(reference, cur, ux, uy, qs)
            &&& are_misses(reference, cur, ux, uy, tol, qs, fs)
            &&& met_again(reference, cur, ux, uy, tol, n).len() == met_again(
                reference,
                cur,
                tx,
                ty,
                tol,
                n,
            ).len()
        }),
    ensures
        total(es) <= total(fs),
        total(es) == total(fs) ==> {
            let (i, j) = chosen(reference, cur, tol);
            i < a || (i == a && j <= b)
        },
{
    law_best_pair_exists(reference, cur, tol);
    let n = reference.len() as int;
    let (i, j) = chosen(reference, cur, tol);
    let (tx, ty) = (cur[j].x - reference[i].x, cur[j].y - reference[i].y);
    let (ux, uy) = (cur[b].x - reference[a].x, cur[b].y - reference[a].y);
    lemma_met_count(reference, cur, tx, ty, tol, n);
    lemma_met_count(reference, cur, ux, uy, tol, n);
    lemma_totals(reference, cur, tx, ty, tol, ps, es, n);
    lemma_totals(reference, cur, ux, uy, tol, qs, fs, n);
    assert(es.take(n) =~= es && fs.take(n) =~= fs);
    assert(plausible(reference, cur, tol, a, b));
    let f = fit(reference, cur, tol, a, b);
    assert(!better(f, fit(reference, cur, tol, i, j)));
}

/// By how much the stars of the reference are missed after a shift.
proof fn lemma_misses(reference: Seq<Star>, cur: Seq<Star>, tx: int, ty: int, tol: int) -> (es: Seq<
    int,
>)
    requires
        cur.len() > 0,
    ensures
        are_nearest(reference, cur, tx, ty, partners(reference, cur, tx, ty)),
        are_misses(reference, cur, tx, ty, tol, partners(reference, cur, tx, ty), es),
{
    let n = reference.len() as int;
    let ps = partners(reference, cur, tx, ty);
    let m = met_again(reference, cur, tx, ty, tol, n);
    assert forall|k: int| 0 <= k < ps.len() implies is_nearest(
        cur,
        reference[k].x + tx,
        reference[k].y + ty,
        #[trigger] ps[k],
    ) by {
        lemma_partner(cur, reference[k], tx, ty, ps[k]);
    }
    let es = Seq::new(
        reference.len(),
        |k: int|
            if m.contains(k) {
                root(miss2(cur, reference[k], tx, ty))
            } else {
                0
            },
    );
    assert forall|k: int| 0 <= k < es.len() && m.contains(k) implies 0 <= #[trigger] es[k] && es[k]
        * es[k] <= apart2(
        cur[ps[k]].x as int,
        cur[ps[k]].y as int,
        reference[k].x + tx,
        reference[k].y + ty,
    ) < (es[k] + 1) * (es[k] + 1) by {
        let q = cur[ps[k]];
        let (x, y) = (reference[k].x + tx, reference[k].y + ty);
        lemma_apart(cur, ps[k], x, y);
        lemma_distance_nonnegative(q.x as int, q.y as int, x, y);
        lemma_root_exists(miss2(cur, reference[k], tx, ty));
    }
    es
}

/// Whether `t` is the `k`th part of `sum`, rounded towards nought.
pub open spec fn is_mean(sum: int, k: int, t: int) -> bool {
    &&& sum >= 0 ==> t * k <= sum < t * k + k
    &&& sum <= 0 ==> t * k - k < sum <= t * k
}

proof fn lemma_mean(sum: int, k: int)
    requires
        0 < k,
    ensures
        is_mean(sum, k, towards_zero(sum, k)),
{
    let a = if sum >= 0 {
        sum
    } else {
        -sum
    };
    let q = a / k;
    assert(q * k <= a < q * k + k && (-q) * k == -(q * k)) by (nonlinear_arith)
        requires
            0 < k,
            0 <= a,
            q == a / k,
    ;
    if sum == 0 {
        assert(0 * k == 0) by (nonlinear_arith);
        assert(q == 0) by (nonlinear_arith)
            requires
                0 < k,
                q == 0int / k,
        ;
    }
}

/// A shift is found exactly where both frames have two stars, and some pair of bright stars
/// gives one that meets two.
pub proof fn law_shift_is_found_where_two_stars_agree(
    reference: Seq<Star>,
    cur: Seq<Star>,
    tol: int,
)
    ensures
        translation(reference, cur, tol) is Some <==> {
            &&& reference.len() >= 2
            &&& cur.len() >= 2
            &&& exists|a: int, b: int| #![trigger reference[a], cur[b]]
                0 <= a < 4 && a < reference.len() && 0 <= b < 6 && b < cur.len() && met_again(
                    reference,
                    cur,
                    cur[b].x - reference[a].x,
                    cur[b].y - reference[a].y,
                    tol,
                    reference.len() as int,
                ).len() >= 2
        },
{
    let n = reference.len() as int;
    if reference.len() >= 2 && cur.len() >= 2 {
        assert forall|a: int, b: int| #![trigger reference[a], cur[b]] 0 <= a < 4 && a < n && 0 <= b
            < 6 && b < cur.len() implies (met_again(
            reference,
            cur,
            cur[b].x - reference[a].x,
            cur[b].y - reference[a].y,
            tol,
            n,
        ).len() >= 2) == plausible(reference, cur, tol, a, b) by {
            lemma_met_count(
                reference,
                cur,
                cur[b].x - reference[a].x,
                cur[b].y - reference[a].y,
                tol,
                n,
            );
        }
        if exists|a: int, b: int| plausible(reference, cur, tol, a, b) {
            let (a, b) = choose|a: int, b: int| plausible(reference, cur, tol, a, b);
            assert(reference[a] == reference[a] && cur[b] == cur[b]);
        }
    }
}

/// A frame with fewer than two stars is never aligned.
pub proof fn law_lone_star_is_not_aligned(reference: Seq<Star>, cur: Seq<Star>, tol: int)
    requires
        reference.len() < 2 || cur.len() < 2,
    ensures
        translation(reference, cur, tol) is None,
{
}

} // verus!
