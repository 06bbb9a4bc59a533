//! Great-circle distance on a spherical Earth (radius 6371 km) by the
//! haversine formula, computed in fixed-point integer arithmetic.
//! Coordinates are taken in microdegrees; angles are handled in
//! microradians (one millionth of a radian), and the trigonometric
//! pieces are truncated Taylor series. The distance is proved symmetric
//! and zero for coincident points.

use vstd::prelude::*;
use vstd::arithmetic::div_mod::{lemma_div_is_ordered, lemma_div_multiples_vanish};

verus! {

/// Fixed-point scale: values carry six fractional decimal digits.
pub const FP: u64 = 1_000_000;

/// Largest latitude magnitude, in microdegrees.
pub const LAT_LIMIT_UDEG: i64 = 90_000_000;

/// Largest longitude magnitude, in microdegrees.
pub const LON_LIMIT_UDEG: i64 = 180_000_000;

/// `pi/2` in microradians, rounded down.
pub const HALF_PI_FP: u64 = 1_570_796;

/// `pi` in microradians, rounded up so that every half-difference of
/// two in-range angles stays at or below it.
pub const PI_FP: u64 = 3_141_593;

/// Numerator of the degrees-to-radians conversion: `pi` scaled by 1e9.
pub const RAD_NUM: u64 = 3_141_592_653;

/// Denominator of the degrees-to-radians conversion: 180 scaled by 1e9.
pub const RAD_DEN: u64 = 180_000_000_000;

/// Upper bound of every distance this module returns, in kilometers
/// (half the Earth's circumference, with truncation slack).
pub const MAX_DISTANCE_KM: u64 = 20_016;

/// Magnitude of the difference of two coordinates.
pub open spec fn spec_abs_diff(a: int, b: int) -> int {
    if a >= b {
        a - b
    } else {
        b - a
    }
}

/// Microdegrees to microradians: multiply by `pi/180`.
pub open spec fn spec_to_urad(udeg: int) -> int {
    udeg * (RAD_NUM as int) / (RAD_DEN as int)
}

/// Truncated Taylor sine in microradians, clamped to the fixed-point
/// one; meaningful on `[0, pi/2]`.
pub open spec fn spec_sin_fp(x: int) -> int {
    let x2 = x * x;
    let t3 = x * x2 / 6_000_000_000_000;
    let t5 = t3 * x2 / 20_000_000_000_000;
    let t7 = t5 * x2 / 42_000_000_000_000;
    let raw = x + t5 - t3 - t7;
    if raw > FP as int {
        FP as int
    } else {
        raw
    }
}

/// Haversine of a full angle given in microradians: the squared sine
/// of the half angle, at fixed-point scale.
pub open spec fn spec_hav_fp(x: int) -> int {
    let h = x / 2;
    let s = if h > HALF_PI_FP as int {
        spec_sin_fp(PI_FP as int - h)
    } else {
        spec_sin_fp(h)
    };
    s * s / (FP as int)
}

/// Cosine of a latitude magnitude in microradians, via the
/// complementary angle.
pub open spec fn spec_cos_fp(x: int) -> int {
    spec_sin_fp(HALF_PI_FP as int - x)
}

/// Integer square root, rounded down.
pub open spec fn spec_isqrt(n: nat) -> nat
    decreases n,
{
    if n == 0 {
        0
    } else {
        let r = spec_isqrt((n - 1) as nat);
        if (r + 1) * (r + 1) <= n {
            r + 1
        } else {
            r
        }
    }
}

/// Truncated Taylor arcsine at fixed-point scale; meaningful on
/// `[0, sqrt(2)/2]`.
pub open spec fn spec_asin_taylor_fp(y: int) -> int {
    let y2 = y * y;
    let t3 = y * y2 / 6_000_000_000_000;
    let t5 = t3 * y2 * 9 / 20_000_000_000_000;
    let t7 = t5 * y2 * 25 / 42_000_000_000_000;
    let t9 = t7 * y2 * 49 / 72_000_000_000_000;
    y + t3 + t5 + t7 + t9
}

/// Arcsine on `[0, 1]` at fixed-point scale, switching to the
/// complementary angle above `sqrt(2)/2` where the series degrades.
pub open spec fn spec_asin_fp(y: int) -> int {
    if y * y * 2 <= (FP * FP) as int {
        spec_asin_taylor_fp(y)
    } else {
        let w = spec_isqrt(((FP * FP) as int - y * y) as nat) as int;
        HALF_PI_FP as int - spec_asin_taylor_fp(w)
    }
}

/// Haversine great-circle distance in kilometers between two points
/// given in microdegrees.
pub open spec fn spec_distance_km(ulat: int, ulon: int, slat: int, slon: int) -> int {
    let dlat_r = spec_to_urad(spec_abs_diff(ulat, slat));
    let dlon_r = spec_to_urad(spec_abs_diff(ulon, slon));
    let cu = spec_cos_fp(spec_to_urad(spec_abs_diff(ulat, 0)));
    let cs = spec_cos_fp(spec_to_urad(spec_abs_diff(slat, 0)));
    let a0 = spec_hav_fp(dlat_r) + cu * cs / (FP as int) * spec_hav_fp(dlon_r) / (FP as int);
    let a = if a0 > FP as int {
        FP as int
    } else {
        a0
    };
    let y = spec_isqrt((a * FP) as nat) as int;
    let c = 2 * spec_asin_fp(y);
    c * 6371 / (FP as int)
}

/// The distance is symmetric in its two points.
pub proof fn lemma_distance_symmetric(ulat: int, ulon: int, slat: int, slon: int)
    ensures
        spec_distance_km(ulat, ulon, slat, slon) == spec_distance_km(slat, slon, ulat, ulon),
{
    assert(spec_abs_diff(ulat, slat) == spec_abs_diff(slat, ulat));
    assert(spec_abs_diff(ulon, slon) == spec_abs_diff(slon, ulon));
    let cu = spec_cos_fp(spec_to_urad(spec_abs_diff(ulat, 0)));
    let cs = spec_cos_fp(spec_to_urad(spec_abs_diff(slat, 0)));
    assert(cu * cs == cs * cu);
}

/// The distance from a point to itself is zero.
pub proof fn lemma_distance_zero(lat: int, lon: int)
    ensures
        spec_distance_km(lat, lon, lat, lon) == 0,
{
    assert(spec_abs_diff(lat, lat) == 0);
    assert(spec_to_urad(0) == 0);
    assert(spec_sin_fp(0) == 0);
    assert(spec_hav_fp(0) == 0);
    let cu = spec_cos_fp(spec_to_urad(spec_abs_diff(lat, 0)));
    assert(cu * cu / (FP as int) * 0 / (FP as int) == 0);
    assert(spec_isqrt(0) == 0);
    assert(spec_asin_taylor_fp(0) == 0);
    assert(spec_asin_fp(0) == 0);
}

/// The magnitude of a bounded signed coordinate.
fn abs_diff_i64(a: i64, b: i64) -> (r: u64)
    requires
        -400_000_000 <= a <= 400_000_000,
        -400_000_000 <= b <= 400_000_000,
    ensures
        r == spec_abs_diff(a as int, b as int),
{
    if a >= b {
        (a - b) as u64
    } else {
        (b - a) as u64
    }
}

fn to_urad(udeg: u64) -> (r: u64)
    requires
        udeg <= 360_000_000,
    ensures
        r == spec_to_urad(udeg as int),
        r <= 6_283_185,
        udeg <= 180_000_000 ==> r <= PI_FP - 1,
        udeg <= 90_000_000 ==> r <= HALF_PI_FP,
{
    proof {
        assert(udeg * RAD_NUM <= 360_000_000u64 * RAD_NUM) by (nonlinear_arith)
            requires
                udeg <= 360_000_000,
        ;
        lemma_div_is_ordered((udeg * RAD_NUM) as int, (360_000_000u64 * RAD_NUM) as int, RAD_DEN as int);
        assert((360_000_000u64 * RAD_NUM) as int / (RAD_DEN as int) == 6_283_185);
        assert((180_000_000u64 * RAD_NUM) as int / (RAD_DEN as int) == 3_141_592);
        assert((90_000_000u64 * RAD_NUM) as int / (RAD_DEN as int) == 1_570_796);
        if udeg <= 180_000_000 {
            assert(udeg * RAD_NUM <= 180_000_000u64 * RAD_NUM) by (nonlinear_arith)
                requires
                    udeg <= 180_000_000,
            ;
            lemma_div_is_ordered(
                (udeg * RAD_NUM) as int,
                (180_000_000u64 * RAD_NUM) as int,
                RAD_DEN as int,
            );
        }
        if udeg <= 90_000_000 {
            assert(udeg * RAD_NUM <= 90_000_000u64 * RAD_NUM) by (nonlinear_arith)
                requires
                    udeg <= 90_000_000,
            ;
            lemma_div_is_ordered(
                (udeg * RAD_NUM) as int,
                (90_000_000u64 * RAD_NUM) as int,
                RAD_DEN as int,
            );
        }
    }
    udeg * RAD_NUM / RAD_DEN
}

fn sin_fp(x: u64) -> (r: u64)
    requires
        x <= 1_570_800,
    ensures
        r == spec_sin_fp(x as int),
        r <= FP,
        r <= x,
{
    proof {
        assert(x * x <= 1_570_800u64 * 1_570_800) by (nonlinear_arith)
            requires
                x <= 1_570_800,
        ;
    }
    let x2 = x * x;
    proof {
        assert(x * x2 <= 1_570_800u64 * 2_467_412_640_000) by (nonlinear_arith)
            requires
                x <= 1_570_800 && x2 <= 2_467_412_640_000,
        ;
        assert(x * x2 <= x * 6_000_000_000_000) by (nonlinear_arith)
            requires
                x2 <= 6_000_000_000_000,
        ;
        lemma_div_is_ordered((x * x2) as int, (x * 6_000_000_000_000) as int, 6_000_000_000_000);
        lemma_div_multiples_vanish(x as int, 6_000_000_000_000);
        assert(x * 6_000_000_000_000 == 6_000_000_000_000 * x) by (nonlinear_arith);
    }
    let t3 = x * x2 / 6_000_000_000_000;
    proof {
        assert(t3 * x2 <= 1_570_800u64 * 2_467_412_640_000) by (nonlinear_arith)
            requires
                t3 <= 1_570_800 && x2 <= 2_467_412_640_000,
        ;
        assert(t3 * x2 <= t3 * 20_000_000_000_000) by (nonlinear_arith)
            requires
                x2 <= 20_000_000_000_000,
        ;
        lemma_div_is_ordered((t3 * x2) as int, (t3 * 20_000_000_000_000) as int, 20_000_000_000_000);
        lemma_div_multiples_vanish(t3 as int, 20_000_000_000_000);
        assert(t3 * 20_000_000_000_000 == 20_000_000_000_000 * t3) by (nonlinear_arith);
    }
    let t5 = t3 * x2 / 20_000_000_000_000;
    proof {
        assert(t5 * x2 <= 1_570_800u64 * 2_467_412_640_000) by (nonlinear_arith)
            requires
                t5 <= 1_570_800 && x2 <= 2_467_412_640_000,
        ;
        assert(t5 * x2 <= t5 * 42_000_000_000_000) by (nonlinear_arith)
            requires
                x2 <= 42_000_000_000_000,
        ;
        lemma_div_is_ordered((t5 * x2) as int, (t5 * 42_000_000_000_000) as int, 42_000_000_000_000);
        lemma_div_multiples_vanish(t5 as int, 42_000_000_000_000);
        assert(t5 * 42_000_000_000_000 == 42_000_000_000_000 * t5) by (nonlinear_arith);
    }
    let t7 = t5 * x2 / 42_000_000_000_000;
    let raw = x + t5 - t3 - t7;
    if raw > FP {
        FP
    } else {
        raw
    }
}

fn hav_fp(x: u64) -> (r: u64)
    requires
        x <= 6_283_186,
    ensures
        r == spec_hav_fp(x as int),
        r <= FP,
{
    let h = x / 2;
    let s = if h > HALF_PI_FP {
        sin_fp(PI_FP - h)
    } else {
        sin_fp(h)
    };
    proof {
        assert(s * s <= FP * FP) by (nonlinear_arith)
            requires
                s <= FP,
        ;
        lemma_div_is_ordered((s * s) as int, (FP * FP) as int, FP as int);
        assert((FP * FP) as int / (FP as int) == FP);
    }
    s * s / FP
}

fn cos_fp(x: u64) -> (r: u64)
    requires
        x <= HALF_PI_FP,
    ensures
        r == spec_cos_fp(x as int),
        r <= FP,
{
    sin_fp(HALF_PI_FP - x)
}

/// The defining property of the integer square root.
proof fn lemma_isqrt_bounds(n: nat)
    ensures
        spec_isqrt(n) * spec_isqrt(n) <= n,
        n < (spec_isqrt(n) + 1) * (spec_isqrt(n) + 1),
    decreases n,
{
    if n > 0 {
        lemma_isqrt_bounds((n - 1) as nat);
        let r = spec_isqrt((n - 1) as nat);
        assert(r * r <= n - 1);
        assert(n - 1 < (r + 1) * (r + 1));
        if (r + 1) * (r + 1) <= n {
            assert(spec_isqrt(n) == r + 1);
            assert(n < (r + 1 + 1) * (r + 1 + 1)) by (nonlinear_arith)
                requires
                    n <= (r + 1) * (r + 1),
            ;
            assert(n < (spec_isqrt(n) + 1) * (spec_isqrt(n) + 1)) by (nonlinear_arith)
                requires
                    n < (r + 1 + 1) * (r + 1 + 1) && spec_isqrt(n) == r + 1,
            ;
        } else {
            assert(spec_isqrt(n) == r);
            assert(r * r <= n);
            assert(n < (r + 1) * (r + 1));
        }
    } else {
        assert(spec_isqrt(0nat) == 0);
        assert((spec_isqrt(n) + 1) * (spec_isqrt(n) + 1) == 1) by (nonlinear_arith)
            requires
                spec_isqrt(n) == 0,
        ;
    }
}

/// The integer square root is the only value whose square brackets `n`.
proof fn lemma_isqrt_unique(n: nat, r: nat)
    requires
        r * r <= n,
        n < (r + 1) * (r + 1),
    ensures
        r == spec_isqrt(n),
{
    lemma_isqrt_bounds(n);
    let q = spec_isqrt(n);
    if r < q {
        assert((r + 1) * (r + 1) <= q * q) by (nonlinear_arith)
            requires
                r + 1 <= q,
        ;
    }
    if q < r {
        assert((q + 1) * (q + 1) <= r * r) by (nonlinear_arith)
            requires
                q + 1 <= r,
        ;
    }
}

fn isqrt(n: u64) -> (r: u64)
    requires
        n <= 1_000_000_000_000,
    ensures
        r == spec_isqrt(n as nat),
        r <= 1_000_000,
{
    let mut lo: u64 = 0;
    let mut hi: u64 = 1_000_001;
    proof {
        assert(n < 1_000_001u64 * 1_000_001) by (nonlinear_arith)
            requires
                n <= 1_000_000_000_000,
        ;
    }
    while lo + 1 < hi
        invariant
            lo < hi <= 1_000_001,
            lo * lo <= n,
            n < hi * hi,
        decreases hi - lo,
    {
        let mid = lo + (hi - lo) / 2;
        proof {
            assert(mid * mid <= 1_000_001u64 * 1_000_001) by (nonlinear_arith)
                requires
                    mid <= 1_000_001,
            ;
        }
        if mid * mid <= n {
            lo = mid;
        } else {
            hi = mid;
        }
    }
    proof {
        lemma_isqrt_unique(n as nat, lo as nat);
    }
    lo
}

fn asin_taylor_fp(y: u64) -> (r: u64)
    requires
        y <= 707_107,
    ensures
        r == spec_asin_taylor_fp(y as int),
        r <= 785_000,
{
    proof {
        assert(y * y <= 707_107u64 * 707_107) by (nonlinear_arith)
            requires
                y <= 707_107,
        ;
    }
    let y2 = y * y;
    proof {
        assert(y * y2 <= 707_107u64 * 500_000_309_449) by (nonlinear_arith)
            requires
                y <= 707_107 && y2 <= 500_000_309_449,
        ;
        assert(y * y2 / 6_000_000_000_000 <= 58_935) by {
            lemma_div_is_ordered(
                (y * y2) as int,
                707_107u64 * 500_000_309_449 as int,
                6_000_000_000_000,
            );
        }
    }
    let t3 = y * y2 / 6_000_000_000_000;
    proof {
        assert(t3 * y2 * 9 <= 58_935u64 * 500_000_309_449 * 9) by (nonlinear_arith)
            requires
                t3 <= 58_935 && y2 <= 500_000_309_449,
        ;
        assert(t3 * y2 * 9 / 20_000_000_000_000 <= 13_261) by {
            lemma_div_is_ordered(
                (t3 * y2 * 9) as int,
                58_935u64 * 500_000_309_449 * 9 as int,
                20_000_000_000_000,
            );
        }
    }
    let t5 = t3 * y2 * 9 / 20_000_000_000_000;
    proof {
        assert(t5 * y2 * 25 <= 13_261u64 * 500_000_309_449 * 25) by (nonlinear_arith)
            requires
                t5 <= 13_261 && y2 <= 500_000_309_449,
        ;
        assert(t5 * y2 * 25 / 42_000_000_000_000 <= 3_947) by {
            lemma_div_is_ordered(
                (t5 * y2 * 25) as int,
                13_261u64 * 500_000_309_449 * 25 as int,
                42_000_000_000_000,
            );
        }
    }
    let t7 = t5 * y2 * 25 / 42_000_000_000_000;
    proof {
        assert(t7 * y2 * 49 <= 3_947u64 * 500_000_309_449 * 49) by (nonlinear_arith)
            requires
                t7 <= 3_947 && y2 <= 500_000_309_449,
        ;
        assert(t7 * y2 * 49 / 72_000_000_000_000 <= 1_343) by {
            lemma_div_is_ordered(
                (t7 * y2 * 49) as int,
                3_947u64 * 500_000_309_449 * 49 as int,
                72_000_000_000_000,
            );
        }
    }
    let t9 = t7 * y2 * 49 / 72_000_000_000_000;
    y + t3 + t5 + t7 + t9
}

fn asin_fp(y: u64) -> (r: u64)
    requires
        y <= FP,
    ensures
        r == spec_asin_fp(y as int),
        r <= HALF_PI_FP,
{
    proof {
        assert(y * y <= FP * FP) by (nonlinear_arith)
            requires
                y <= FP,
        ;
    }
    let ysq = y * y;
    if ysq * 2 <= FP * FP {
        proof {
            assert(y <= 707_107) by (nonlinear_arith)
                requires
                    y * y * 2 <= 1_000_000_000_000,
            ;
        }
        asin_taylor_fp(y)
    } else {
        let w = isqrt(FP * FP - ysq);
        proof {
            lemma_isqrt_bounds((FP * FP - ysq) as nat);
            assert(w * w < 500_000_000_000);
            assert(w <= 707_106) by (nonlinear_arith)
                requires
                    w * w < 500_000_000_000,
            ;
        }
        HALF_PI_FP - asin_taylor_fp(w)
    }
}

/// Haversine great-circle distance in kilometers between the user's
/// position and a server's position, both in microdegrees. Symmetric
/// in its two points, zero for coincident points, and never above
/// `MAX_DISTANCE_KM`.
pub fn calculate_distance(ulat: i64, ulon: i64, slat: i64, slon: i64) -> (r: u64)
    requires
        -LAT_LIMIT_UDEG <= ulat <= LAT_LIMIT_UDEG,
        -LON_LIMIT_UDEG <= ulon <= LON_LIMIT_UDEG,
        -LAT_LIMIT_UDEG <= slat <= LAT_LIMIT_UDEG,
        -LON_LIMIT_UDEG <= slon <= LON_LIMIT_UDEG,
    ensures
        r == spec_distance_km(ulat as int, ulon as int, slat as int, slon as int),
        r <= MAX_DISTANCE_KM,
{
    let dlat = abs_diff_i64(ulat, slat);
    let dlon = abs_diff_i64(ulon, slon);
    let dlat_r = to_urad(dlat);
    let dlon_r = to_urad(dlon);
    let ulat_r = to_urad(abs_diff_i64(ulat, 0));
    let slat_r = to_urad(abs_diff_i64(slat, 0));
    let hl = hav_fp(dlat_r);
    let hn = hav_fp(dlon_r);
    let cu = cos_fp(ulat_r);
    let cs = cos_fp(slat_r);
    proof {
        assert((cu as int) * (cs as int) <= (FP as int) * (FP as int)) by (nonlinear_arith)
            requires
                cu <= FP && cs <= FP,
        ;
        lemma_div_is_ordered((cu as int) * (cs as int), (FP as int) * (FP as int), FP as int);
        assert((FP as int) * (FP as int) / (FP as int) == FP as int);
        assert((cu as int) * (cs as int) / (FP as int) * (hn as int) <= (FP as int) * (
        FP as int)) by (nonlinear_arith)
            requires
                (cu as int) * (cs as int) / (FP as int) <= FP as int && hn <= FP,
        ;
        lemma_div_is_ordered(
            (cu as int) * (cs as int) / (FP as int) * (hn as int),
            (FP as int) * (FP as int),
            FP as int,
        );
    }
    let a0 = hl + cu * cs / FP * hn / FP;
    let a = if a0 > FP {
        FP
    } else {
        a0
    };
    proof {
        assert(a * FP <= FP * FP) by (nonlinear_arith)
            requires
                a <= FP,
        ;
    }
    let y = isqrt(a * FP);
    let c = 2 * asin_fp(y);
    proof {
        assert(c * 6371 <= (2 * HALF_PI_FP) * 6371) by (nonlinear_arith)
            requires
                c <= 2 * HALF_PI_FP,
        ;
        lemma_div_is_ordered((c * 6371) as int, ((2 * HALF_PI_FP) * 6371) as int, FP as int);
        assert(((2 * HALF_PI_FP) * 6371) as int / (FP as int) <= MAX_DISTANCE_KM);
    }
    c * 6371 / FP
}

} // verus!
