use vstd::prelude::*;
use crate::constants::MAX_SCALE;
use crate::utils::meta::Meta;
use vstd::arithmetic::div_mod::lemma_div_is_ordered;
use vstd::arithmetic::div_mod::lemma_fundamental_div_mod;
use vstd::arithmetic::div_mod::lemma_fundamental_div_mod_converse;

verus! {

/// The quotient of `a` by `b` rounded towards negative infinity, for a
/// divisor of either sign.
pub open spec fn floor_div(a: int, b: int) -> int
    recommends
        b != 0,
{
    if b > 0 {
        a / b
    } else {
        (-a) / (-b)
    }
}

/// For a negative numerator the rounded-down quotient is the rounded-up
/// quotient of the magnitude, negated.
proof fn lemma_floor_div_negative(m: int, d: int)
    requires
        m > 0,
        d > 0,
    ensures
        (-m) / d == -((m + d - 1) / d),
{
    let q = (-m) / d;
    let r = (-m) % d;
    lemma_fundamental_div_mod(-m, d);
    assert(0 <= r < d);
    assert(-m == d * q + r);
    if r == 0 {
        assert(m + d - 1 == d * (-q) + (d - 1)) by (nonlinear_arith)
            requires
                -m == d * q + r,
                r == 0,
        ;
        lemma_fundamental_div_mod_converse(m + d - 1, d, -q, d - 1);
    } else {
        assert(m + d - 1 == d * (-q) + (d - r - 1)) by (nonlinear_arith)
            requires
                -m == d * q + r,
        ;
        lemma_fundamental_div_mod_converse(m + d - 1, d, -q, d - r - 1);
    }
}

/// A rounded-down quotient is no larger in magnitude than its numerator.
pub proof fn lemma_floor_div_bounded(n: int, d: int)
    requires
        d != 0,
    ensures
        n >= 0 ==> -n <= floor_div(n, d) <= n,
        n <= 0 ==> n <= floor_div(n, d) <= -n,
{
    let a = if d > 0 { n } else { -n };
    let b = if d > 0 { d } else { -d };
    lemma_fundamental_div_mod(a, b);
    let q = a / b;
    let r = a % b;
    assert(0 <= r < b);
    assert(a == b * q + r);
    assert(a >= 0 ==> 0 <= q <= a) by (nonlinear_arith)
        requires
            a == b * q + r,
            0 <= r < b,
    ;
    assert(a <= 0 ==> a <= q <= 0) by (nonlinear_arith)
        requires
            a == b * q + r,
            0 <= r < b,
    ;
}

/// Dividing a multiple of the divisor gives the multiplier back.
pub proof fn lemma_floor_div_exact(a: int, d: int)
    requires
        d != 0,
    ensures
        floor_div(a * d, d) == a,
{
    if d > 0 {
        assert(a * d == d * a + 0) by (nonlinear_arith);
        lemma_fundamental_div_mod_converse(a * d, d, a, 0);
    } else {
        assert(-(a * d) == (-d) * a + 0) by (nonlinear_arith);
        lemma_fundamental_div_mod_converse(-(a * d), -d, a, 0);
    }
}

/// A numerator within `bound` times the divisor, in magnitude, gives a
/// quotient within `bound`.
pub proof fn lemma_floor_div_within(n: int, d: int, bound: int)
    requires
        d != 0,
        bound >= 0,
        d > 0 ==> -(bound * d) <= n <= bound * d,
        d < 0 ==> bound * d <= n <= -(bound * d),
    ensures
        -bound <= floor_div(n, d) <= bound,
{
    let a = if d > 0 { n } else { -n };
    let b = if d > 0 { d } else { -d };
    lemma_fundamental_div_mod(a, b);
    let q = a / b;
    let r = a % b;
    assert(0 <= r < b);
    assert(a == b * q + r);
    assert(-(bound * b) <= a <= bound * b) by (nonlinear_arith)
        requires
            d != 0,
            d > 0 ==> -(bound * d) <= n <= bound * d,
            d < 0 ==> bound * d <= n <= -(bound * d),
            a == if d > 0 { n } else { -n },
            b == if d > 0 { d } else { -d },
    ;
    assert(-bound <= q <= bound) by (nonlinear_arith)
        requires
            a == b * q + r,
            0 <= r < b,
            bound >= 0,
            -(bound * b) <= a <= bound * b,
    ;
}

/// With a positive divisor, a larger numerator gives no smaller quotient.
pub proof fn lemma_floor_div_monotonic(m: int, n: int, d: int)
    requires
        d > 0,
        m <= n,
    ensures
        floor_div(m, d) <= floor_div(n, d),
{
    lemma_div_is_ordered(m, n, d);
}

/// Adding a multiple of the divisor to the numerator adds the multiplier to
/// the quotient.
pub proof fn lemma_floor_div_shift(n: int, k: int, d: int)
    requires
        d != 0,
    ensures
        floor_div(n + k * d, d) == floor_div(n, d) + k,
{
    let a = if d > 0 { n } else { -n };
    let b = if d > 0 { d } else { -d };
    lemma_fundamental_div_mod(a, b);
    let q = a / b;
    let r = a % b;
    assert(a + k * b == b * (q + k) + r) by (nonlinear_arith)
        requires
            a == b * q + r,
    ;
    lemma_fundamental_div_mod_converse(a + k * b, b, q + k, r);
    assert(k * b == if d > 0 { k * d } else { -(k * d) }) by (nonlinear_arith)
        requires
            b == if d > 0 { d } else { -d },
    ;
}

/// `a * b / c`, rounded towards negative infinity.
pub fn mul_div_floor(a: i64, b: i64, c: i64) -> (q: i128)
    requires
        c != 0,
    ensures
        q == floor_div(a * b, c as int),
{
    assert(-0x4000_0000_0000_0000_0000_0000_0000_0000 <= a * b
        <= 0x4000_0000_0000_0000_0000_0000_0000_0000) by (nonlinear_arith)
        requires
            -0x8000_0000_0000_0000 <= a <= 0x8000_0000_0000_0000,
            -0x8000_0000_0000_0000 <= b <= 0x8000_0000_0000_0000,
    ;
    let product: i128 = (a as i128) * (b as i128);
    let n: i128 = if c < 0 { -product } else { product };
    let d: i128 = if c < 0 { -(c as i128) } else { c as i128 };
    if n >= 0 {
        n / d
    } else {
        proof {
            lemma_floor_div_negative(-(n as int), d as int);
        }
        -((-n + d - 1) / d)
    }
}

/// The square of the straight-line distance between two points of the plane.
pub open spec fn distance_squared(x0: int, y0: int, x1: int, y1: int) -> int {
    (x1 - x0) * (x1 - x0) + (y1 - y0) * (y1 - y0)
}

/// `r` is the square root of `n`, rounded down.
pub open spec fn is_floor_sqrt(r: int, n: int) -> bool {
    0 <= r && r * r <= n < (r + 1) * (r + 1)
}

/// The square root of `n`, rounded down.
pub open spec fn floor_sqrt(n: int) -> int {
    choose|r: int| is_floor_sqrt(r, n)
}

/// The straight-line distance between two points of the plane, rounded down
/// to a whole unit. It is planar: no account is taken of the Earth's shape.
pub open spec fn distance_spec(x0: int, y0: int, x1: int, y1: int) -> int {
    floor_sqrt(distance_squared(x0, y0, x1, y1))
}

/// Every natural number has a rounded-down square root.
pub proof fn lemma_floor_sqrt(n: int)
    requires
        n >= 0,
    ensures
        is_floor_sqrt(floor_sqrt(n), n),
    decreases n,
{
    if n == 0 {
        assert(is_floor_sqrt(0, n));
    } else {
        lemma_floor_sqrt(n - 1);
        let r = floor_sqrt(n - 1);
        if (r + 1) * (r + 1) <= n {
            assert((r + 2) * (r + 2) > (r + 1) * (r + 1)) by (nonlinear_arith)
                requires
                    r >= 0,
            ;
            assert(is_floor_sqrt(r + 1, n));
        } else {
            assert(is_floor_sqrt(r, n));
        }
    }
}

/// A number has one rounded-down square root only.
pub proof fn lemma_floor_sqrt_unique(r: int, s: int, n: int)
    requires
        is_floor_sqrt(r, n),
        is_floor_sqrt(s, n),
    ensures
        r == s,
{
    if r < s {
        assert((r + 1) * (r + 1) <= s * s) by (nonlinear_arith)
            requires
                0 <= r,
                r + 1 <= s,
        ;
    } else if s < r {
        assert((s + 1) * (s + 1) <= r * r) by (nonlinear_arith)
            requires
                0 <= s,
                s + 1 <= r,
        ;
    }
}

/// A larger number has no smaller rounded-down square root.
pub proof fn lemma_floor_sqrt_monotonic(a: int, b: int)
    requires
        0 <= a <= b,
    ensures
        floor_sqrt(a) <= floor_sqrt(b),
{
    lemma_floor_sqrt(a);
    lemma_floor_sqrt(b);
    let r = floor_sqrt(a);
    let s = floor_sqrt(b);
    if s < r {
        assert((s + 1) * (s + 1) <= r * r) by (nonlinear_arith)
            requires
                0 <= s,
                s + 1 <= r,
        ;
    }
}

/// The square root of `n`, rounded down, found by bisection.
pub fn isqrt(n: u128) -> (r: u64)
    ensures
        r == floor_sqrt(n as int),
        is_floor_sqrt(r as int, n as int),
{
    let mut lo: u128 = 0;
    let mut hi: u128 = 0x1_0000_0000_0000_0000;
    assert(0x1_0000_0000_0000_0000int * 0x1_0000_0000_0000_0000int
        == 0x1_0000_0000_0000_0000_0000_0000_0000_0000int) by (nonlinear_arith);
    while hi - lo > 1
        invariant
            lo < hi <= 0x1_0000_0000_0000_0000,
            lo * lo <= n,
            n < hi * hi,
        decreases hi - lo,
    {
        let mid: u128 = lo + (hi - lo) / 2;
        assert(mid * mid < 0x1_0000_0000_0000_0000_0000_0000_0000_0000) by (nonlinear_arith)
            requires
                0 <= mid < 0x1_0000_0000_0000_0000,
        ;
        if mid * mid <= n {
            lo = mid;
        } else {
            hi = mid;
        }
    }
    proof {
        lemma_floor_sqrt(n as int);
        lemma_floor_sqrt_unique(lo as int, floor_sqrt(n as int), n as int);
    }
    lo as u64
}

/// The square of the straight-line distance between `(x0, y0)` and
/// `(x1, y1)`, which is exact and orders points as their distance does.
pub fn squared_distance(x0: i32, y0: i32, x1: i32, y1: i32) -> (square: u128)
    ensures
        square == distance_squared(x0 as int, y0 as int, x1 as int, y1 as int),
{
    let dx: i64 = x1 as i64 - x0 as i64;
    let dy: i64 = y1 as i64 - y0 as i64;
    let ax: u128 = if dx < 0 { (-dx) as u128 } else { dx as u128 };
    let ay: u128 = if dy < 0 { (-dy) as u128 } else { dy as u128 };
    assert(ax * ax == (x1 - x0) * (x1 - x0) && ax * ax <= 0x1_0000_0000_0000_0000)
        by (nonlinear_arith)
        requires
            ax == x1 - x0 || ax == -(x1 - x0),
            0 <= ax <= 0xffff_ffff,
    ;
    assert(ay * ay == (y1 - y0) * (y1 - y0) && ay * ay <= 0x1_0000_0000_0000_0000)
        by (nonlinear_arith)
        requires
            ay == y1 - y0 || ay == -(y1 - y0),
            0 <= ay <= 0xffff_ffff,
    ;
    ax * ax + ay * ay
}

/// The straight-line distance between `(x0, y0)` and `(x1, y1)`, rounded
/// down to a whole unit.
pub fn distance(x0: i32, y0: i32, x1: i32, y1: i32) -> (d: u64)
    ensures
        d == distance_spec(x0 as int, y0 as int, x1 as int, y1 as int),
        is_floor_sqrt(d as int, distance_squared(x0 as int, y0 as int, x1 as int, y1 as int)),
{
    isqrt(squared_distance(x0, y0, x1, y1))
}

/// The value that lies in the span from `out_min` to `out_max` where `val`
/// lies in the span from `in_min` to `in_max`, rounded down. Nothing is
/// clamped: a value outside the one span is mapped outside the other.
pub open spec fn map_range_spec(val: int, in_min: int, in_max: int, out_min: int, out_max: int) -> int
    recommends
        in_min != in_max,
{
    out_min + floor_div((val - in_min) * (out_max - out_min), in_max - in_min)
}

/// Maps a value from an input range to an output range, linearly and without
/// clamping, rounding down. The input range must not be empty, and the three
/// differences and the result must fit in 64 bits.
pub fn map_range(val: i64, in_min: i64, in_max: i64, out_min: i64, out_max: i64) -> (r: i64)
    requires
        in_min != in_max,
        i64::MIN <= val - in_min <= i64::MAX,
        i64::MIN <= in_max - in_min <= i64::MAX,
        i64::MIN <= out_max - out_min <= i64::MAX,
        i64::MIN <= map_range_spec(
            val as int,
            in_min as int,
            in_max as int,
            out_min as int,
            out_max as int,
        ) <= i64::MAX,
    ensures
        r == map_range_spec(val as int, in_min as int, in_max as int, out_min as int, out_max as int),
{
    let q: i128 = mul_div_floor(val - in_min, out_max - out_min, in_max - in_min);
    (out_min as i128 + q) as i64
}

/// One axis of the projection: `val` mapped from the span `in_min` to
/// `in_max` onto a span of `extent` canvas units centred on zero.
fn project_axis(val: i32, in_min: i32, in_max: i32, extent: i64) -> (r: i64)
    requires
        in_min != in_max,
        in_max > in_min ==> -MAX_SCALE * (in_max - in_min) <= extent <= MAX_SCALE * (in_max
            - in_min),
        in_max < in_min ==> MAX_SCALE * (in_max - in_min) <= extent <= -MAX_SCALE * (in_max
            - in_min),
    ensures
        r == map_range_spec(
            val as int,
            in_min as int,
            in_max as int,
            -(extent / 2),
            extent - extent / 2,
        ),
{
    let half: i128 = mul_div_floor(extent, 1, 2);
    proof {
        lemma_floor_div_bounded(extent * 1, 2);
    }
    let low: i64 = (-half) as i64;
    let high: i64 = (extent as i128 - half) as i64;
    proof {
        let span = in_max - in_min;
        let offset = val - in_min;
        let bound: int = 0x1_0000_0000int * 0x4000_0000int;
        assert(span > 0 ==> -(bound * span) <= offset * (high - low) <= bound * span)
            by (nonlinear_arith)
            requires
                high - low == extent,
                bound == 0x1_0000_0000 * 0x4000_0000,
                -0x1_0000_0000 <= offset <= 0x1_0000_0000,
                span > 0 ==> -0x4000_0000 * span <= extent <= 0x4000_0000 * span,
        ;
        assert(span < 0 ==> bound * span <= offset * (high - low) <= -(bound * span))
            by (nonlinear_arith)
            requires
                high - low == extent,
                bound == 0x1_0000_0000 * 0x4000_0000,
                -0x1_0000_0000 <= offset <= 0x1_0000_0000,
                span < 0 ==> 0x4000_0000 * span <= extent <= -0x4000_0000 * span,
        ;
        lemma_floor_div_within(offset * (high - low), span, bound);
    }
    map_range(val as i64, in_min as i64, in_max as i64, low, high)
}

/// The place on the canvas, `(x, y)` in canvas units, of the point at
/// longitude `lng` and latitude `lat`, in microdegrees. The origin is the
/// centre of the drawing; points outside the box of `meta` fall outside the
/// drawing and are not clamped to it.
pub fn coordinate_to_xy(lng: i32, lat: i32, meta: &Meta) -> (xy: (i64, i64))
    requires
        meta.wf(),
    ensures
        xy.0 == meta.project_x(lng as int),
        xy.1 == meta.project_y(lat as int),
{
    let x = project_axis(lng, meta.boundaries.min_lng, meta.boundaries.max_lng, meta.width);
    let y = project_axis(lat, meta.boundaries.min_lat, meta.boundaries.max_lat, meta.height);
    (x, y)
}

} // verus!
