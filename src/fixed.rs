//! Fixed-point 2D vectors.
//!
//! A quantity `q` is stored as the integer `q * ONE`. Vectors are viewed as
//! pairs of mathematical integers, and every operation is specified over
//! that view with truncating (toward zero) division, as computed at run time.
use vstd::arithmetic::div_mod::lemma_fundamental_div_mod;
use vstd::prelude::*;

verus! {

/// The raw value that stands for 1.0.
pub const ONE: i64 = 65536;

/// Largest magnitude of a coordinate of a position, a velocity or a length.
pub const COORD_LIMIT: i64 = 0x100_0000_0000;

/// Largest magnitude of a coordinate that `normalize` accepts.
pub const NORMALIZE_LIMIT: i128 = 0x1000_0000_0000_0000;

/// A fixed-point 2D vector.
#[derive(Clone, Copy, Debug, PartialEq, Eq, Structural)]
pub struct Vec2 {
    pub x: i64,
    pub y: i64,
}

impl View for Vec2 {
    type V = (int, int);

    open spec fn view(&self) -> (int, int) {
        (self.x as int, self.y as int)
    }
}

pub open spec fn abs(a: int) -> int {
    if a < 0 {
        -a
    } else {
        a
    }
}

/// Both coordinates lie within `[-lim, lim]`.
pub open spec fn within(v: (int, int), lim: int) -> bool {
    abs(v.0) <= lim && abs(v.1) <= lim
}

pub open spec fn plus(a: (int, int), b: (int, int)) -> (int, int) {
    (a.0 + b.0, a.1 + b.1)
}

pub open spec fn minus(a: (int, int), b: (int, int)) -> (int, int) {
    (a.0 - b.0, a.1 - b.1)
}

/// Squared Euclidean length.
pub open spec fn len_sq(v: (int, int)) -> int {
    v.0 * v.0 + v.1 * v.1
}

/// Quotient rounded toward zero.
pub open spec fn tdiv(a: int, b: int) -> int {
    if a >= 0 {
        a / b
    } else {
        -((-a) / b)
    }
}

/// Each coordinate multiplied by `m / d`, rounded toward zero.
pub open spec fn scale(v: (int, int), m: int, d: int) -> (int, int) {
    (tdiv(v.0 * m, d), tdiv(v.1 * m, d))
}

/// `r` is the least non-negative integer whose square is at least `n`.
pub open spec fn is_ceil_sqrt(n: int, r: int) -> bool {
    0 <= r && n <= r * r && (r == 0 || (r - 1) * (r - 1) < n)
}

/// The square root of `n`, rounded up.
pub open spec fn ceil_sqrt(n: int) -> int {
    choose|r: int| #[trigger] is_ceil_sqrt(n, r)
}

/// Euclidean length, rounded up.
pub open spec fn length(v: (int, int)) -> int {
    ceil_sqrt(len_sq(v))
}

/// The square root of `n`, rounded down.
pub open spec fn floor_sqrt(n: int) -> int {
    if ceil_sqrt(n) * ceil_sqrt(n) == n {
        ceil_sqrt(n)
    } else {
        ceil_sqrt(n) - 1
    }
}

/// Euclidean length, rounded down.
pub open spec fn distance(v: (int, int)) -> int {
    floor_sqrt(len_sq(v))
}

/// Quotient rounded away from zero.
pub open spec fn adiv(a: int, b: int) -> int {
    if a >= 0 {
        (a + b - 1) / b
    } else {
        -((-a + b - 1) / b)
    }
}

/// Each coordinate multiplied by `m / d`, rounded away from zero.
pub open spec fn scale_away(v: (int, int), m: int, d: int) -> (int, int) {
    (adiv(v.0 * m, d), adiv(v.1 * m, d))
}

/// The larger magnitude of the two coordinates.
pub open spec fn max_abs(v: (int, int)) -> int {
    if abs(v.0) >= abs(v.1) {
        abs(v.0)
    } else {
        abs(v.1)
    }
}

/// Coordinate magnitude that a vector is doubled up to before it is
/// normalized, so that rounding its length up to a whole unit costs at most
/// one part in `MAGNIFY_TARGET`.
pub const MAGNIFY_TARGET: i128 = 0x100_0000_0000;

/// `v` doubled until one coordinate reaches `MAGNIFY_TARGET` in magnitude;
/// the zero vector stays zero. Doubling keeps the direction.
pub open spec fn magnified(v: (int, int)) -> (int, int)
    decreases 2 * MAGNIFY_TARGET - max_abs(v),
{
    if v == (0int, 0int) || max_abs(v) >= MAGNIFY_TARGET {
        v
    } else {
        magnified((2 * v.0, 2 * v.1))
    }
}

/// The direction of `v` as a vector of length at most `ONE`, and at least
/// `ONE - 2` for a non-zero `v`; the zero vector for the zero vector. The
/// vector is first magnified, so that the length it is divided by is
/// accurate to far below one unit of the result.
pub open spec fn normalized(v: (int, int)) -> (int, int) {
    if v == (0int, 0int) {
        (0, 0)
    } else {
        let m = magnified(v);
        scale(m, ONE as int, length(m))
    }
}

/// `v` unchanged when its length is at most `max`, else its direction
/// stretched to length `max`.
pub open spec fn clamp_length(v: (int, int), max: int) -> (int, int) {
    if len_sq(v) > max * max {
        scale(normalized(v), max, ONE as int)
    } else {
        v
    }
}

pub proof fn lemma_tdiv_bound(a: int, b: int)
    requires
        b > 0,
    ensures
        abs(tdiv(a, b)) * b <= abs(a),
        a >= 0 ==> tdiv(a, b) >= 0,
        a <= 0 ==> tdiv(a, b) <= 0,
        abs(a) < b ==> tdiv(a, b) == 0,
        abs(a) >= b ==> tdiv(a, b) != 0,
{
    let n = abs(a);
    lemma_fundamental_div_mod(n, b);
    assert(n % b >= 0 && n % b < b);
    assert(n / b >= 0) by (nonlinear_arith)
        requires
            n >= 0,
            b > 0,
            n == b * (n / b) + n % b,
            n % b < b,
    ;
    assert((n / b) * b <= n) by (nonlinear_arith)
        requires
            n == b * (n / b) + n % b,
            n % b >= 0,
    ;
    if n < b {
        assert(n / b == 0) by (nonlinear_arith)
            requires
                n >= 0,
                n < b,
                n == b * (n / b) + n % b,
                n % b >= 0,
                n % b < b,
        ;
    } else {
        assert(n / b != 0) by (nonlinear_arith)
            requires
                n >= b,
                n == b * (n / b) + n % b,
                n % b < b,
        ;
    }
}

/// Scaling by `m / d` a vector of length at most `b`, where `b * m <= c * d`,
/// gives a vector of length at most `c`.
pub proof fn lemma_scale_bound(v: (int, int), m: int, d: int, b: int, c: int)
    requires
        d > 0,
        m >= 0,
        b >= 0,
        c >= 0,
        len_sq(v) <= b * b,
        b * m <= c * d,
    ensures
        len_sq(scale(v, m, d)) <= c * c,
        abs(scale(v, m, d).0) <= abs(v.0) * m / d,
        abs(scale(v, m, d).1) <= abs(v.1) * m / d,
{
    let q = scale(v, m, d);
    lemma_tdiv_bound(v.0 * m, d);
    lemma_tdiv_bound(v.1 * m, d);
    let qx = abs(q.0);
    let qy = abs(q.1);
    let vx = abs(v.0);
    let vy = abs(v.1);
    assert(abs(v.0 * m) == vx * m) by (nonlinear_arith)
        requires
            m >= 0,
            vx == abs(v.0),
    ;
    assert(abs(v.1 * m) == vy * m) by (nonlinear_arith)
        requires
            m >= 0,
            vy == abs(v.1),
    ;
    assert(v.0 * v.0 == vx * vx && v.1 * v.1 == vy * vy) by (nonlinear_arith)
        requires
            vx == abs(v.0),
            vy == abs(v.1),
    ;
    assert(qx * qx + qy * qy <= c * c) by (nonlinear_arith)
        requires
            d > 0,
            m >= 0,
            b >= 0,
            c >= 0,
            qx >= 0,
            qy >= 0,
            qx * d <= vx * m,
            qy * d <= vy * m,
            vx * vx + vy * vy <= b * b,
            b * m <= c * d,
    ;
    assert(q.0 * q.0 == qx * qx && q.1 * q.1 == qy * qy) by (nonlinear_arith)
        requires
            qx == abs(q.0),
            qy == abs(q.1),
    ;
    assert(qx <= vx * m / d && qy <= vy * m / d) by (nonlinear_arith)
        requires
            d > 0,
            qx * d <= vx * m,
            qy * d <= vy * m,
    ;
}

pub proof fn lemma_ceil_sqrt_unique(n: int, r: int)
    requires
        is_ceil_sqrt(n, r),
    ensures
        ceil_sqrt(n) == r,
{
    let s = ceil_sqrt(n);
    assert(is_ceil_sqrt(n, s));
    if s < r {
        assert(false) by (nonlinear_arith)
            requires
                0 <= s,
                s < r,
                n <= s * s,
                (r - 1) * (r - 1) < n,
        ;
    } else if r < s {
        assert(false) by (nonlinear_arith)
            requires
                0 <= r,
                r < s,
                n <= r * r,
                (s - 1) * (s - 1) < n,
        ;
    }
}

/// The length of a non-zero vector is positive and of the zero vector zero.
pub proof fn lemma_length(v: (int, int))
    ensures
        length(v) >= 0,
        len_sq(v) <= length(v) * length(v),
        len_sq(v) >= 0,
        (length(v) == 0) == (v == (0int, 0int)),
{
    let n = len_sq(v);
    assert(n >= 0) by (nonlinear_arith)
        requires
            n == v.0 * v.0 + v.1 * v.1,
    ;
    assert(v != (0int, 0int) ==> n > 0) by (nonlinear_arith)
        requires
            n == v.0 * v.0 + v.1 * v.1,
    ;
    lemma_ceil_sqrt_exists(n);
    let r = length(v);
    assert(is_ceil_sqrt(n, r));
}

pub proof fn lemma_ceil_sqrt_is(n: int)
    requires
        n >= 0,
    ensures
        is_ceil_sqrt(n, ceil_sqrt(n)),
{
    lemma_ceil_sqrt_exists(n);
}

/// The rounded-down root of a value below `m * m` is below `m`, and its
/// square is at most the value.
pub proof fn lemma_floor_sqrt_below(n: int, m: int)
    requires
        0 <= n,
        n < m * m,
        m >= 0,
    ensures
        0 <= floor_sqrt(n) < m,
        floor_sqrt(n) * floor_sqrt(n) <= n,
{
    lemma_ceil_sqrt_is(n);
    let c = ceil_sqrt(n);
    if c * c == n {
        assert(c < m) by (nonlinear_arith)
            requires
                c >= 0,
                m >= 0,
                c * c == n,
                n < m * m,
        ;
    } else {
        assert(c >= 1);
        assert(c - 1 < m) by (nonlinear_arith)
            requires
                c >= 1,
                m >= 0,
                (c - 1) * (c - 1) < n,
                n < m * m,
        ;
    }
}

/// Rounding away from zero keeps the sign, gives zero only for zero, never
/// falls short of the exact quotient, and stays within any whole bound `t`
/// of the exact quotient.
pub proof fn lemma_adiv(a: int, b: int, t: int)
    requires
        b > 0,
    ensures
        a >= 0 ==> adiv(a, b) >= 0,
        a <= 0 ==> adiv(a, b) <= 0,
        a != 0 ==> adiv(a, b) != 0,
        abs(a) <= abs(adiv(a, b)) * b,
        t >= 0 && abs(a) <= b * t ==> abs(adiv(a, b)) <= t,
{
    let n = abs(a) + b - 1;
    lemma_fundamental_div_mod(n, b);
    let q = n / b;
    assert(q >= 0) by (nonlinear_arith)
        requires
            n >= 0,
            b > 0,
            n == b * q + n % b,
            n % b < b,
    ;
    assert(abs(adiv(a, b)) == q);
    assert(a == 0 ==> q == 0) by (nonlinear_arith)
        requires
            n == abs(a) + b - 1,
            a == 0 ==> abs(a) == 0,
            n == b * q + n % b,
            n % b >= 0,
            n % b < b,
            b > 0,
    ;
    assert(abs(a) <= q * b) by (nonlinear_arith)
        requires
            n == abs(a) + b - 1,
            n == b * q + n % b,
            n % b < b,
    ;
    assert(a != 0 ==> q >= 1) by (nonlinear_arith)
        requires
            abs(a) >= 0,
            a != 0 ==> abs(a) >= 1,
            n == abs(a) + b - 1,
            n == b * q + n % b,
            n % b < b,
            n % b >= 0,
            b > 0,
    ;
    assert(t >= 0 && abs(a) <= b * t ==> q <= t) by (nonlinear_arith)
        requires
            n == abs(a) + b - 1,
            n == b * q + n % b,
            n % b >= 0,
            b > 0,
    ;
}

proof fn lemma_ceil_sqrt_exists(n: int)
    requires
        n >= 0,
    ensures
        exists|r: int| #[trigger] is_ceil_sqrt(n, r),
    decreases n,
{
    if n == 0 {
        assert(is_ceil_sqrt(0, 0));
    } else {
        lemma_ceil_sqrt_exists(n - 1);
        let r = choose|r: int| #[trigger] is_ceil_sqrt(n - 1, r);
        if n <= r * r {
            assert(is_ceil_sqrt(n, r)) by (nonlinear_arith)
                requires
                    0 <= r,
                    n <= r * r,
                    r == 0 || (r - 1) * (r - 1) < n - 1,
            ;
        } else {
            assert(is_ceil_sqrt(n, r + 1)) by (nonlinear_arith)
                requires
                    0 <= r,
                    n - 1 <= r * r,
                    n > r * r,
            ;
        }
    }
}

/// Magnifying keeps the sign of each coordinate, stays within any bound of
/// at least twice the target, and brings a non-zero vector to the target.
pub proof fn lemma_magnified(v: (int, int), lim: int)
    ensures
        v.0 > 0 ==> magnified(v).0 > 0,
        v.0 < 0 ==> magnified(v).0 < 0,
        v.0 == 0 ==> magnified(v).0 == 0,
        v.1 > 0 ==> magnified(v).1 > 0,
        v.1 < 0 ==> magnified(v).1 < 0,
        v.1 == 0 ==> magnified(v).1 == 0,
        v != (0int, 0int) ==> max_abs(magnified(v)) >= MAGNIFY_TARGET,
        lim >= 2 * MAGNIFY_TARGET && within(v, lim) ==> within(magnified(v), lim),
    decreases 2 * MAGNIFY_TARGET - max_abs(v),
{
    if !(v == (0int, 0int) || max_abs(v) >= MAGNIFY_TARGET) {
        lemma_magnified((2 * v.0, 2 * v.1), lim);
    }
}

/// The magnitude of a quotient rounded toward zero is the quotient of the
/// magnitudes.
pub proof fn lemma_tdiv_abs(a: int, b: int)
    requires
        b > 0,
    ensures
        abs(tdiv(a, b)) == abs(a) / b,
        abs(a) < (abs(a) / b + 1) * b,
{
    lemma_fundamental_div_mod(abs(a), b);
    assert(abs(a) / b >= 0) by (nonlinear_arith)
        requires
            abs(a) >= 0,
            b > 0,
            abs(a) == b * (abs(a) / b) + abs(a) % b,
            abs(a) % b < b,
    ;
    assert(abs(a) < (abs(a) / b + 1) * b) by (nonlinear_arith)
        requires
            abs(a) == b * (abs(a) / b) + abs(a) % b,
            abs(a) % b < b,
    ;
}

proof fn lemma_square_le(a: int, b: int)
    requires
        0 <= a <= b,
    ensures
        a * a <= b * b,
{
    assert(a * a <= b * b) by (nonlinear_arith)
        requires
            0 <= a <= b,
    ;
}

/// Quotients `qx`, `qy` of `ax * ONE` and `ay * ONE` by the rounded-up length
/// `l` of `(ax, ay)`, when that length is large, form a vector of length at
/// least `ONE - 2`.
proof fn lemma_unit_lower(ax: int, ay: int, l: int, qx: int, qy: int)
    requires
        ax >= 0,
        ay >= 0,
        qx >= 0,
        qy >= 0,
        l >= MAGNIFY_TARGET,
        (l - 1) * (l - 1) < ax * ax + ay * ay,
        ax * ONE < (qx + 1) * l,
        ay * ONE < (qy + 1) * l,
    ensures
        qx * qx + qy * qy >= (ONE - 2) * (ONE - 2),
{
    let one = ONE as int;
    lemma_square_le(ax * one, (qx + 1) * l);
    lemma_square_le(ay * one, (qy + 1) * l);
    assert((ax * one) * (ax * one) == ax * ax * (one * one)) by (nonlinear_arith);
    assert(((qx + 1) * l) * ((qx + 1) * l) == (qx + 1) * (qx + 1) * (l * l)) by (nonlinear_arith);
    assert((ay * one) * (ay * one) == ay * ay * (one * one)) by (nonlinear_arith);
    assert(((qy + 1) * l) * ((qy + 1) * l) == (qy + 1) * (qy + 1) * (l * l)) by (nonlinear_arith);
    let n = ax * ax + ay * ay;
    let s = (qx + 1) * (qx + 1) + (qy + 1) * (qy + 1);
    assert(n * (one * one) <= s * (l * l)) by (nonlinear_arith)
        requires
            ax * ax * (one * one) <= (qx + 1) * (qx + 1) * (l * l),
            ay * ay * (one * one) <= (qy + 1) * (qy + 1) * (l * l),
            n == ax * ax + ay * ay,
            s == (qx + 1) * (qx + 1) + (qy + 1) * (qy + 1),
    ;
    assert((l - 1) * (l - 1) * (one * one) < n * (one * one)) by (nonlinear_arith)
        requires
            (l - 1) * (l - 1) < n,
            one == 65536,
    ;
    if qx * qx + qy * qy < (one - 2) * (one - 2) {
        assert(qx < one - 2 && qy < one - 2) by (nonlinear_arith)
            requires
                qx >= 0,
                qy >= 0,
                qx * qx + qy * qy < (one - 2) * (one - 2),
                one == 65536,
        ;
        assert(s <= one * one - 7) by (nonlinear_arith)
            requires
                s == (qx + 1) * (qx + 1) + (qy + 1) * (qy + 1),
                qx * qx + qy * qy <= (one - 2) * (one - 2) - 1,
                0 <= qx <= one - 3,
                0 <= qy <= one - 3,
        ;
        assert(s * (l * l) <= (one * one - 7) * (l * l)) by (nonlinear_arith)
            requires
                s <= one * one - 7,
        ;
        assert(7 * (l * l) + one * one < 2 * (one * one) * l) by (nonlinear_arith)
            requires
                (l - 1) * (l - 1) * (one * one) < (one * one - 7) * (l * l),
        ;
        assert(false) by (nonlinear_arith)
            requires
                7 * (l * l) + one * one < 2 * (one * one) * l,
                l >= 0x100_0000_0000,
                one == 65536,
        ;
    }
}

/// Magnifying multiplies both coordinates by the same factor.
pub proof fn lemma_magnified_factor(v: (int, int)) -> (f: int)
    ensures
        f >= 1,
        magnified(v) == (f * v.0, f * v.1),
    decreases 2 * MAGNIFY_TARGET - max_abs(v),
{
    if v == (0int, 0int) || max_abs(v) >= MAGNIFY_TARGET {
        assert(v == (1 * v.0, 1 * v.1));
        1
    } else {
        let g = lemma_magnified_factor((2 * v.0, 2 * v.1));
        assert(g * (2 * v.0) == (2 * g) * v.0 && g * (2 * v.1) == (2 * g) * v.1) by (nonlinear_arith);
        2 * g
    }
}

proof fn lemma_product_below(a: int, b: int, l: int)
    requires
        abs(a) < l,
    ensures
        abs(a * b) <= l * abs(b),
        b != 0 ==> abs(a * b) < l * abs(b),
{
    assert(abs(a * b) == abs(a) * abs(b)) by (nonlinear_arith);
    assert(abs(a) * abs(b) <= l * abs(b)) by (nonlinear_arith)
        requires
            abs(a) < l,
            abs(b) >= 0,
    ;
    assert(b != 0 ==> abs(a) * abs(b) < l * abs(b)) by (nonlinear_arith)
        requires
            abs(a) < l,
            abs(b) >= 0,
            b != 0 ==> abs(b) > 0,
    ;
}

/// The normalized vector points along `v`: its cross product with `v` is
/// smaller than the sum of the magnitudes of `v`'s coordinates, so the sine
/// of the angle between the two is below `sqrt(2) / (ONE - 2)`.
pub proof fn lemma_normalized_direction(v: (int, int))
    requires
        v != (0int, 0int),
    ensures
        abs(normalized(v).0 * v.1 - normalized(v).1 * v.0) < abs(v.0) + abs(v.1),
{
    let f = lemma_magnified_factor(v);
    let m = magnified(v);
    lemma_magnified(v, 2 * MAGNIFY_TARGET);
    lemma_length(m);
    let l = length(m);
    let r = normalized(v);
    let one = ONE as int;
    lemma_tdiv_abs(m.0 * one, l);
    lemma_tdiv_abs(m.1 * one, l);
    lemma_tdiv_bound(m.0 * one, l);
    lemma_tdiv_bound(m.1 * one, l);
    let rx = m.0 * one - l * r.0;
    let ry = m.1 * one - l * r.1;
    // the remainders of the two divisions are smaller than the divisor
    assert(abs(rx) < l) by (nonlinear_arith)
        requires
            rx == m.0 * one - l * r.0,
            abs(r.0) == abs(m.0 * one) / l,
            abs(m.0 * one) < (abs(m.0 * one) / l + 1) * l,
            abs(r.0) * l <= abs(m.0 * one),
            m.0 * one >= 0 ==> r.0 >= 0,
            m.0 * one <= 0 ==> r.0 <= 0,
            l > 0,
    ;
    assert(abs(ry) < l) by (nonlinear_arith)
        requires
            ry == m.1 * one - l * r.1,
            abs(r.1) == abs(m.1 * one) / l,
            abs(m.1 * one) < (abs(m.1 * one) / l + 1) * l,
            abs(r.1) * l <= abs(m.1 * one),
            m.1 * one >= 0 ==> r.1 >= 0,
            m.1 * one <= 0 ==> r.1 <= 0,
            l > 0,
    ;
    let cm = r.0 * m.1 - r.1 * m.0;
    assert(l * cm == ry * m.0 - rx * m.1) by (nonlinear_arith)
        requires
            rx == m.0 * one - l * r.0,
            ry == m.1 * one - l * r.1,
            cm == r.0 * m.1 - r.1 * m.0,
    ;
    lemma_product_below(ry, m.0, l);
    lemma_product_below(rx, m.1, l);
    assert(abs(l * cm) < l * (abs(m.0) + abs(m.1))) by (nonlinear_arith)
        requires
            l * cm == ry * m.0 - rx * m.1,
            abs(ry * m.0) <= l * abs(m.0),
            abs(rx * m.1) <= l * abs(m.1),
            m.0 != 0 ==> abs(ry * m.0) < l * abs(m.0),
            m.1 != 0 ==> abs(rx * m.1) < l * abs(m.1),
            m.0 != 0 || m.1 != 0,
    ;
    assert(abs(cm) < abs(m.0) + abs(m.1)) by (nonlinear_arith)
        requires
            abs(l * cm) < l * (abs(m.0) + abs(m.1)),
            l > 0,
    ;
    let cv = r.0 * v.1 - r.1 * v.0;
    assert(cm == f * cv && abs(m.0) + abs(m.1) == f * (abs(v.0) + abs(v.1))) by (nonlinear_arith)
        requires
            m == (f * v.0, f * v.1),
            cm == r.0 * m.1 - r.1 * m.0,
            cv == r.0 * v.1 - r.1 * v.0,
            f >= 1,
    ;
    assert(abs(cv) < abs(v.0) + abs(v.1)) by (nonlinear_arith)
        requires
            abs(f * cv) < f * (abs(v.0) + abs(v.1)),
            f >= 1,
    ;
}

/// Normalizing gives a vector of length at most `ONE`, and at least
/// `ONE - 2` for a non-zero vector, whose coordinates carry the signs of
/// those of `v`.
pub proof fn lemma_normalized(v: (int, int))
    ensures
        len_sq(normalized(v)) <= ONE * ONE,
        v != (0int, 0int) ==> len_sq(normalized(v)) >= (ONE - 2) * (ONE - 2),
        v.0 >= 0 ==> normalized(v).0 >= 0,
        v.0 <= 0 ==> normalized(v).0 <= 0,
        v.1 >= 0 ==> normalized(v).1 >= 0,
        v.1 <= 0 ==> normalized(v).1 <= 0,
        within(normalized(v), ONE as int),
{
    if v != (0int, 0int) {
        let m = magnified(v);
        lemma_magnified(v, 2 * MAGNIFY_TARGET);
        lemma_length(m);
        let l = length(m);
        lemma_scale_bound(m, ONE as int, l, l, ONE as int);
        lemma_tdiv_bound(m.0 * ONE, l);
        lemma_tdiv_bound(m.1 * ONE, l);
        assert(m.0 >= 0 ==> m.0 * ONE >= 0) by (nonlinear_arith);
        assert(m.0 <= 0 ==> m.0 * ONE <= 0) by (nonlinear_arith);
        assert(m.1 >= 0 ==> m.1 * ONE >= 0) by (nonlinear_arith);
        assert(m.1 <= 0 ==> m.1 * ONE <= 0) by (nonlinear_arith);
        // the rounded-up length is at least the larger coordinate
        let ax = abs(m.0);
        let ay = abs(m.1);
        assert(ax * ax == m.0 * m.0 && ay * ay == m.1 * m.1) by (nonlinear_arith)
            requires
                ax == abs(m.0),
                ay == abs(m.1),
        ;
        assert(l >= max_abs(m)) by (nonlinear_arith)
            requires
                l >= 0,
                ax >= 0,
                ay >= 0,
                ax * ax + ay * ay <= l * l,
                max_abs(m) == ax || max_abs(m) == ay,
        ;
        lemma_ceil_sqrt_is(len_sq(m));
        lemma_tdiv_abs(m.0 * ONE, l);
        lemma_tdiv_abs(m.1 * ONE, l);
        assert(abs(m.0 * ONE) == ax * ONE && abs(m.1 * ONE) == ay * ONE) by (nonlinear_arith)
            requires
                ax == abs(m.0),
                ay == abs(m.1),
        ;
        let q = normalized(v);
        lemma_unit_lower(ax, ay, l, abs(q.0), abs(q.1));
        assert(q.0 * q.0 == abs(q.0) * abs(q.0) && q.1 * q.1 == abs(q.1) * abs(q.1)) by (nonlinear_arith);
    }
    lemma_unit_within(normalized(v));
}

/// A vector of length at most `ONE` has coordinates within `ONE`.
pub proof fn lemma_unit_within(v: (int, int))
    requires
        len_sq(v) <= ONE * ONE,
    ensures
        within(v, ONE as int),
{
    assert(abs(v.0) <= ONE && abs(v.1) <= ONE) by (nonlinear_arith)
        requires
            v.0 * v.0 + v.1 * v.1 <= 65536 * 65536,
    ;
}

/// Quotient rounded away from zero of `a` by a positive `b`.
pub fn div_away_from_zero(a: i128, b: i128) -> (q: i128)
    requires
        b > 0,
        -0x1_0000_0000_0000_0000_0000_0000 <= a <= 0x1_0000_0000_0000_0000_0000_0000,
        b <= 0x1_0000_0000_0000_0000_0000_0000,
    ensures
        q == adiv(a as int, b as int),
{
    if a >= 0 {
        (a + b - 1) / b
    } else {
        -((-a + b - 1) / b)
    }
}

/// Quotient rounded toward zero of `a` by a positive `b`.
pub fn div_toward_zero(a: i128, b: i128) -> (q: i128)
    requires
        b > 0,
        a > i128::MIN,
    ensures
        q == tdiv(a as int, b as int),
{
    if a >= 0 {
        a / b
    } else {
        -((-a) / b)
    }
}

/// The square root of `n`, rounded up.
pub fn ceil_sqrt_u128(n: u128) -> (r: u128)
    requires
        n <= 0x400_0000_0000_0000_0000_0000_0000_0000u128,
    ensures
        r == ceil_sqrt(n as int),
        r <= 0x2000_0000_0000_0000u128,
{
    if n == 0 {
        proof {
            lemma_ceil_sqrt_unique(0, 0);
        }
        return 0;
    }
    let mut lo: u128 = 0;
    let mut hi: u128 = 0x2000_0000_0000_0000u128;
    assert(hi * hi == 0x400_0000_0000_0000_0000_0000_0000_0000u128);
    while hi - lo > 1
        invariant
            lo < hi <= 0x2000_0000_0000_0000u128,
            lo * lo < n,
            n <= hi * hi,
        decreases hi - lo,
    {
        let mid = lo + (hi - lo) / 2;
        assert(mid * mid <= 0x400_0000_0000_0000_0000_0000_0000_0000u128) by (nonlinear_arith)
            requires
                mid <= 0x2000_0000_0000_0000u128,
        ;
        if mid * mid >= n {
            hi = mid;
        } else {
            lo = mid;
        }
    }
    proof {
        assert(is_ceil_sqrt(n as int, hi as int));
        lemma_ceil_sqrt_unique(n as int, hi as int);
    }
    hi
}

/// Squared length of a vector, computed exactly.
pub fn len_sq_exec(x: i128, y: i128) -> (r: u128)
    requires
        -NORMALIZE_LIMIT <= x <= NORMALIZE_LIMIT,
        -NORMALIZE_LIMIT <= y <= NORMALIZE_LIMIT,
    ensures
        r == len_sq((x as int, y as int)),
        r <= 0x200_0000_0000_0000_0000_0000_0000_0000u128,
{
    let ax: u128 = if x < 0 { (-x) as u128 } else { x as u128 };
    let ay: u128 = if y < 0 { (-y) as u128 } else { y as u128 };
    assert(ax * ax <= 0x100_0000_0000_0000_0000_0000_0000_0000u128) by (nonlinear_arith)
        requires
            ax <= 0x1000_0000_0000_0000u128,
    ;
    assert(ay * ay <= 0x100_0000_0000_0000_0000_0000_0000_0000u128) by (nonlinear_arith)
        requires
            ay <= 0x1000_0000_0000_0000u128,
    ;
    assert(ax * ax == x * x && ay * ay == y * y) by (nonlinear_arith)
        requires
            ax == abs(x as int),
            ay == abs(y as int),
    ;
    ax * ax + ay * ay
}

/// The direction of `(x, y)` as a fixed-point vector of length between
/// `ONE - 2` and `ONE`; the zero vector stays zero. A short vector is first
/// doubled up to `MAGNIFY_TARGET`, so that rounding its length up costs
/// nothing visible in the result.
pub fn normalize(x: i128, y: i128) -> (r: Vec2)
    requires
        -NORMALIZE_LIMIT <= x <= NORMALIZE_LIMIT,
        -NORMALIZE_LIMIT <= y <= NORMALIZE_LIMIT,
    ensures
        r@ == normalized((x as int, y as int)),
        len_sq(r@) <= ONE * ONE,
        (x, y) != (0i128, 0i128) ==> (ONE - 2) * (ONE - 2) <= len_sq(r@),
        (x, y) != (0i128, 0i128) ==> abs(r.x * y - r.y * x) < abs(x as int) + abs(y as int),
{
    let v = Ghost((x as int, y as int));
    proof {
        lemma_normalized(v@);
        if v@ != (0int, 0int) {
            lemma_normalized_direction(v@);
        }
    }
    if x == 0 && y == 0 {
        return Vec2 { x: 0, y: 0 };
    }
    let mut mx = x;
    let mut my = y;
    while (mx < MAGNIFY_TARGET && mx > -MAGNIFY_TARGET) && (my < MAGNIFY_TARGET && my > -MAGNIFY_TARGET)
        invariant
            (mx, my) != (0i128, 0i128),
            -NORMALIZE_LIMIT <= mx <= NORMALIZE_LIMIT,
            -NORMALIZE_LIMIT <= my <= NORMALIZE_LIMIT,
            magnified((mx as int, my as int)) == magnified(v@),
        decreases 2 * MAGNIFY_TARGET - max_abs((mx as int, my as int)),
    {
        mx = 2 * mx;
        my = 2 * my;
    }
    let m = Ghost((mx as int, my as int));
    assert(magnified(m@) == m@);
    let n = len_sq_exec(mx, my);
    let l = ceil_sqrt_u128(n);
    proof {
        lemma_length(m@);
    }
    assert(mx * 65536 > i128::MIN && my * 65536 > i128::MIN) by (nonlinear_arith)
        requires
            -NORMALIZE_LIMIT <= mx <= NORMALIZE_LIMIT,
            -NORMALIZE_LIMIT <= my <= NORMALIZE_LIMIT,
    ;
    let qx = div_toward_zero(mx * 65536, l as i128);
    let qy = div_toward_zero(my * 65536, l as i128);
    Vec2 { x: qx as i64, y: qy as i64 }
}

/// A vector whose length is at most `m` has coordinates within `m`.
pub proof fn lemma_short_within(v: (int, int), m: int)
    requires
        m >= 0,
        len_sq(v) <= m * m,
    ensures
        within(v, m),
{
    assert(abs(v.0) <= m && abs(v.1) <= m) by (nonlinear_arith)
        requires
            m >= 0,
            v.0 * v.0 + v.1 * v.1 <= m * m,
    ;
}

/// Clamping to a length gives a vector no longer than that length.
pub proof fn lemma_clamp_length_bounded(v: (int, int), max: int)
    requires
        max > 0,
    ensures
        len_sq(clamp_length(v, max)) <= max * max,
{
    if len_sq(v) > max * max {
        lemma_normalized(v);
        lemma_scale_bound(normalized(v), max, ONE as int, ONE as int, max);
    }
}

/// `(x, y)` unchanged when its length is at most `max`, else its direction
/// stretched to length `max`.
pub fn clamp_length_exec(x: i128, y: i128, max: i64) -> (r: Vec2)
    requires
        -NORMALIZE_LIMIT <= x <= NORMALIZE_LIMIT,
        -NORMALIZE_LIMIT <= y <= NORMALIZE_LIMIT,
        0 < max <= COORD_LIMIT,
    ensures
        r@ == clamp_length((x as int, y as int), max as int),
        len_sq(r@) <= max * max,
        within(r@, max as int),
{
    let n = len_sq_exec(x, y);
    let mu = max as u128;
    assert(mu * mu <= 0x100_0000_0000_0000_0000_0000u128) by (nonlinear_arith)
        requires
            0 < mu <= 0x100_0000_0000u128,
    ;
    if n > mu * mu {
        let u = normalize(x, y);
        proof {
            lemma_unit_within(u@);
            lemma_scale_bound(u@, max as int, ONE as int, ONE as int, max as int);
        }
        assert(abs(u.x * max) <= 0x100_0000_0000_0000_0000 && abs(u.y * max) <= 0x100_0000_0000_0000_0000)
            by (nonlinear_arith)
            requires
                abs(u.x as int) <= 65536,
                abs(u.y as int) <= 65536,
                0 < max <= 0x100_0000_0000,
        ;
        let qx = div_toward_zero(u.x as i128 * max as i128, 65536);
        let qy = div_toward_zero(u.y as i128 * max as i128, 65536);
        proof {
            lemma_short_within((qx as int, qy as int), max as int);
        }
        Vec2 { x: qx as i64, y: qy as i64 }
    } else {
        proof {
            lemma_short_within((x as int, y as int), max as int);
        }
        Vec2 { x: x as i64, y: y as i64 }
    }
}

} // verus!
