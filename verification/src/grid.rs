//! Sums over rectangles of a pixel grid.
use vstd::prelude::*;

verus! {

/// The sum of a list.
pub open spec fn total(s: Seq<int>) -> int
    decreases s.len(),
{
    if s.len() == 0 {
        0
    } else {
        total(s.drop_last()) + s.last()
    }
}

/// The sum of `g(x, y)` for `a <= x < b`.
pub open spec fn sum_row(g: spec_fn(int, int) -> int, y: int, a: int, b: int) -> int
    decreases b - a,
{
    if b <= a {
        0
    } else {
        sum_row(g, y, a, b - 1) + g(b - 1, y)
    }
}

/// The sum of `g(x, y)` for `a <= x < b` and `c <= y < d`.
pub open spec fn sum_box(g: spec_fn(int, int) -> int, a: int, b: int, c: int, d: int) -> int
    decreases d - c,
{
    if d <= c {
        0
    } else {
        sum_box(g, a, b, c, d - 1) + sum_row(g, d - 1, a, b)
    }
}

/// The square of `g`, point by point.
pub open spec fn squared(g: spec_fn(int, int) -> int) -> spec_fn(int, int) -> int {
    |x: int, y: int| g(x, y) * g(x, y)
}

/// Bounds on the points of a row bound its sum.
pub proof fn lemma_row_bounds(
    g: spec_fn(int, int) -> int,
    y: int,
    a: int,
    b: int,
    lo: int,
    hi: int,
)
    requires
        a <= b,
        forall|x: int| a <= x < b ==> lo <= #[trigger] g(x, y) <= hi,
    ensures
        lo * (b - a) <= sum_row(g, y, a, b) <= hi * (b - a),
    decreases b - a,
{
    if a < b {
        lemma_row_bounds(g, y, a, b - 1, lo, hi);
        assert(lo <= g(b - 1, y) <= hi);
        assert(lo * (b - a) == lo * (b - 1 - a) + lo) by (nonlinear_arith);
        assert(hi * (b - a) == hi * (b - 1 - a) + hi) by (nonlinear_arith);
    } else {
        assert(lo * (b - a) == 0) by (nonlinear_arith)
            requires
                a == b,
        ;
        assert(hi * (b - a) == 0) by (nonlinear_arith)
            requires
                a == b,
        ;
    }
}

/// Bounds on the points of a rectangle bound its sum.
pub proof fn lemma_box_bounds(
    g: spec_fn(int, int) -> int,
    a: int,
    b: int,
    c: int,
    d: int,
    lo: int,
    hi: int,
)
    requires
        a <= b,
        c <= d,
        forall|x: int, y: int| a <= x < b && c <= y < d ==> lo <= #[trigger] g(x, y) <= hi,
    ensures
        lo * ((b - a) * (d - c)) <= sum_box(g, a, b, c, d) <= hi * ((b - a) * (d - c)),
    decreases d - c,
{
    let n = b - a;
    if c < d {
        lemma_box_bounds(g, a, b, c, d - 1, lo, hi);
        lemma_row_bounds(g, d - 1, a, b, lo, hi);
        assert(lo * (n * (d - c)) == lo * (n * (d - 1 - c)) + lo * n) by (nonlinear_arith);
        assert(hi * (n * (d - c)) == hi * (n * (d - 1 - c)) + hi * n) by (nonlinear_arith);
    } else {
        assert(lo * (n * (d - c)) == 0) by (nonlinear_arith)
            requires
                c == d,
        ;
        assert(hi * (n * (d - c)) == 0) by (nonlinear_arith)
            requires
                c == d,
        ;
    }
}

/// `(p * g - q)`, point by point.
spec fn affine(g: spec_fn(int, int) -> int, p: int, q: int) -> spec_fn(int, int) -> int {
    |x: int, y: int| p * g(x, y) - q
}

proof fn lemma_affine_row(
    g: spec_fn(int, int) -> int,
    p: int,
    q: int,
    y: int,
    a: int,
    b: int,
)
    requires
        a <= b,
    ensures
        sum_row(squared(affine(g, p, q)), y, a, b) == p * p * sum_row(squared(g), y, a, b) - 2 * p
            * q * sum_row(g, y, a, b) + q * q * (b - a),
        sum_row(squared(affine(g, p, q)), y, a, b) >= 0,
    decreases b - a,
{
    let s2 = sum_row(squared(g), y, a, b);
    let s1 = sum_row(g, y, a, b);
    if a < b {
        lemma_affine_row(g, p, q, y, a, b - 1);
        let v = g(b - 1, y);
        let t2 = sum_row(squared(g), y, a, b - 1);
        let t1 = sum_row(g, y, a, b - 1);
        let w = p * v - q;
        assert(squared(affine(g, p, q))(b - 1, y) == w * w);
        assert(squared(g)(b - 1, y) == v * v);
        assert(w * w >= 0) by (nonlinear_arith);
        assert(w * w == p * p * (v * v) - 2 * p * q * v + q * q) by (nonlinear_arith)
            requires
                w == p * v - q,
        ;
        assert(p * p * (t2 + v * v) == p * p * t2 + p * p * (v * v)) by (nonlinear_arith);
        assert(2 * p * q * (t1 + v) == 2 * p * q * t1 + 2 * p * q * v) by (nonlinear_arith);
        assert(q * q * (b - a) == q * q * (b - 1 - a) + q * q) by (nonlinear_arith);
    } else {
        assert(p * p * s2 == 0 && 2 * p * q * s1 == 0 && q * q * (b - a) == 0) by (nonlinear_arith)
            requires
                s2 == 0,
                s1 == 0,
                a == b,
        ;
    }
}

proof fn lemma_affine_box(
    g: spec_fn(int, int) -> int,
    p: int,
    q: int,
    a: int,
    b: int,
    c: int,
    d: int,
)
    requires
        a <= b,
        c <= d,
    ensures
        sum_box(squared(affine(g, p, q)), a, b, c, d) == p * p * sum_box(squared(g), a, b, c, d) - 2
            * p * q * sum_box(g, a, b, c, d) + q * q * ((b - a) * (d - c)),
        sum_box(squared(affine(g, p, q)), a, b, c, d) >= 0,
    decreases d - c,
{
    let s2 = sum_box(squared(g), a, b, c, d);
    let s1 = sum_box(g, a, b, c, d);
    let n = b - a;
    if c < d {
        lemma_affine_box(g, p, q, a, b, c, d - 1);
        lemma_affine_row(g, p, q, d - 1, a, b);
        let t2 = sum_box(squared(g), a, b, c, d - 1);
        let t1 = sum_box(g, a, b, c, d - 1);
        let r2 = sum_row(squared(g), d - 1, a, b);
        let r1 = sum_row(g, d - 1, a, b);
        assert(p * p * (t2 + r2) == p * p * t2 + p * p * r2) by (nonlinear_arith);
        assert(2 * p * q * (t1 + r1) == 2 * p * q * t1 + 2 * p * q * r1) by (nonlinear_arith);
        assert(q * q * (n * (d - c)) == q * q * (n * (d - 1 - c)) + q * q * n) by (nonlinear_arith);
    } else {
        assert(p * p * s2 == 0 && 2 * p * q * s1 == 0 && q * q * (n * (d - c)) == 0)
            by (nonlinear_arith)
            requires
                s2 == 0,
                s1 == 0,
                c == d,
        ;
    }
}

/// The square of a sum is at most the number of terms times the sum of their squares: a
/// variance is never negative.
pub proof fn lemma_variance_nonnegative(
    g: spec_fn(int, int) -> int,
    a: int,
    b: int,
    c: int,
    d: int,
)
    requires
        a < b,
        c < d,
    ensures
        sum_box(g, a, b, c, d) * sum_box(g, a, b, c, d) <= ((b - a) * (d - c)) * sum_box(
            squared(g),
            a,
            b,
            c,
            d,
        ),
{
    let n = (b - a) * (d - c);
    let s = sum_box(g, a, b, c, d);
    let ss = sum_box(squared(g), a, b, c, d);
    assert(n > 0) by (nonlinear_arith)
        requires
            n == (b - a) * (d - c),
            a < b,
            c < d,
    ;
    lemma_affine_box(g, n, s, a, b, c, d);
    assert(n * n * ss - 2 * n * s * s + s * s * n >= 0);
    assert(s * s <= n * ss) by (nonlinear_arith)
        requires
            n > 0,
            n * n * ss - 2 * n * s * s + s * s * n >= 0,
    ;
}

/// The squares of the distances from the mean, each `n` times as great, add up to `n` times
/// what `n` times the sum of the squares exceeds the square of the sum by.
pub proof fn lemma_spread(g: spec_fn(int, int) -> int, a: int, b: int, c: int, d: int)
    requires
        a <= b,
        c <= d,
    ensures
        ({
            let n = (b - a) * (d - c);
            let s = sum_box(g, a, b, c, d);
            sum_box(|x: int, y: int| (n * g(x, y) - s) * (n * g(x, y) - s), a, b, c, d) == n * (n
                * sum_box(squared(g), a, b, c, d) - s * s)
        }),
{
    let n = (b - a) * (d - c);
    let s = sum_box(g, a, b, c, d);
    let ss = sum_box(squared(g), a, b, c, d);
    lemma_affine_box(g, n, s, a, b, c, d);
    assert(squared(affine(g, n, s)) =~= |x: int, y: int|
        (n * g(x, y) - s) * (n * g(x, y) - s));
    assert(n * n * ss - 2 * n * s * s + s * s * n == n * (n * ss - s * s)) by (nonlinear_arith);
}

/// The sums of functions that agree on a rectangle are the same.
pub proof fn lemma_box_agrees(
    f: spec_fn(int, int) -> int,
    g: spec_fn(int, int) -> int,
    a: int,
    b: int,
    c: int,
    d: int,
)
    requires
        forall|x: int, y: int| a <= x < b && c <= y < d ==> #[trigger] f(x, y) == g(x, y),
    ensures
        sum_box(f, a, b, c, d) == sum_box(g, a, b, c, d),
{
    assert forall|x: int, y: int| a <= x < b && c <= y < d implies #[trigger] g(x, y) <= 1 * f(
        x,
        y,
    ) by {
        assert(f(x, y) == g(x, y));
    }
    lemma_box_scaled(f, g, 1, a, b, c, d);
    lemma_box_scaled(g, f, 1, a, b, c, d);
}

proof fn lemma_row_changed(
    f: spec_fn(int, int) -> int,
    g: spec_fn(int, int) -> int,
    y: int,
    a: int,
    b: int,
    px: int,
    py: int,
)
    requires
        forall|x: int| #![trigger f(x, y)] x != px || y != py ==> f(x, y) == g(x, y),
    ensures
        sum_row(f, y, a, b) - sum_row(g, y, a, b) == if a <= px < b && y == py {
            f(px, py) - g(px, py)
        } else {
            0
        },
    decreases b - a,
{
    if a < b {
        lemma_row_changed(f, g, y, a, b - 1, px, py);
        assert(b - 1 != px || y != py ==> f(b - 1, y) == g(b - 1, y));
    }
}

/// Each point of a rectangle counts once in its sum, and no other point counts: where one point
/// changes, the sum changes by as much if it lies inside, and not at all if it lies outside.
pub proof fn law_every_point_counts_once(
    f: spec_fn(int, int) -> int,
    g: spec_fn(int, int) -> int,
    a: int,
    b: int,
    c: int,
    d: int,
    px: int,
    py: int,
)
    requires
        forall|x: int, y: int| #![trigger f(x, y)] x != px || y != py ==> f(x, y) == g(x, y),
    ensures
        sum_box(f, a, b, c, d) - sum_box(g, a, b, c, d) == if a <= px < b && c <= py < d {
            f(px, py) - g(px, py)
        } else {
            0
        },
    decreases d - c,
{
    if c < d {
        law_every_point_counts_once(f, g, a, b, c, d - 1, px, py);
        lemma_row_changed(f, g, d - 1, a, b, px, py);
    }
}

/// Where `f` is at most `k` times `g` at every point of a rectangle, so are the sums.
pub proof fn lemma_box_scaled(
    f: spec_fn(int, int) -> int,
    g: spec_fn(int, int) -> int,
    k: int,
    a: int,
    b: int,
    c: int,
    d: int,
)
    requires
        forall|x: int, y: int| a <= x < b && c <= y < d ==> #[trigger] f(x, y) <= k * g(x, y),
    ensures
        sum_box(f, a, b, c, d) <= k * sum_box(g, a, b, c, d),
    decreases d - c,
{
    if c < d {
        lemma_box_scaled(f, g, k, a, b, c, d - 1);
        lemma_row_scaled(f, g, k, d - 1, a, b);
        assert(k * (sum_box(g, a, b, c, d - 1) + sum_row(g, d - 1, a, b)) == k * sum_box(
            g,
            a,
            b,
            c,
            d - 1,
        ) + k * sum_row(g, d - 1, a, b)) by (nonlinear_arith);
    }
}

proof fn lemma_row_scaled(
    f: spec_fn(int, int) -> int,
    g: spec_fn(int, int) -> int,
    k: int,
    y: int,
    a: int,
    b: int,
)
    requires
        forall|x: int| a <= x < b ==> #[trigger] f(x, y) <= k * g(x, y),
    ensures
        sum_row(f, y, a, b) <= k * sum_row(g, y, a, b),
    decreases b - a,
{
    if a < b {
        lemma_row_scaled(f, g, k, y, a, b - 1);
        assert(f(b - 1, y) <= k * g(b - 1, y));
        assert(k * (sum_row(g, y, a, b - 1) + g(b - 1, y)) == k * sum_row(g, y, a, b - 1) + k * g(
            b - 1,
            y,
        )) by (nonlinear_arith);
    }
}

} // verus!
