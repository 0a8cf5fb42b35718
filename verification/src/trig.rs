//! Fixed-point circular functions for arc interpolation.
//!
//! Angles are counted in micro-radians, lengths in thousandths of a
//! coordinate unit, and the sine and cosine are scaled by one million.
//! The functions are the library's own integer approximations; every
//! caller reasons only through their stated contracts.

use crate::num::{abs_u64, lemma_mul_div_le, magnitude};
use vstd::prelude::*;

verus! {

pub const QUARTER_PI_MICRO: u64 = 785398;

pub const HALF_PI_MICRO: u64 = 1570796;

pub const PI_MICRO: u64 = 3141593;

pub const TWO_PI_MICRO: u64 = 6283185;

/// Integer square root by halving the digits: the root of `n` is twice
/// the root of `n / 4`, possibly plus one.
pub open spec fn spec_isqrt(n: nat) -> nat
    decreases n,
{
    if n < 1 {
        0
    } else {
        let s = spec_isqrt(n / 4);
        if (2 * s + 1) * (2 * s + 1) <= n {
            (2 * s + 1) as nat
        } else {
            (2 * s) as nat
        }
    }
}

/// `spec_isqrt` is the exact integer square root.
pub proof fn lemma_isqrt_bounds(n: nat)
    ensures
        spec_isqrt(n) * spec_isqrt(n) <= n,
        n < (spec_isqrt(n) + 1) * (spec_isqrt(n) + 1),
    decreases n,
{
    if n < 1 {
        assert(spec_isqrt(n) == 0);
        assert(n == 0);
        assert(spec_isqrt(n) * spec_isqrt(n) <= n) by (nonlinear_arith)
            requires
                spec_isqrt(n) == 0,
                n == 0,
        ;
        assert(n < (spec_isqrt(n) + 1) * (spec_isqrt(n) + 1)) by (nonlinear_arith)
            requires
                spec_isqrt(n) == 0,
                n == 0,
        ;
    } else {
        let s = spec_isqrt(n / 4) as int;
        lemma_isqrt_bounds(n / 4);
        vstd::arithmetic::div_mod::lemma_fundamental_div_mod(n as int, 4);
        assert((2 * s) * (2 * s) == 4 * (s * s)) by (nonlinear_arith);
        assert((2 * s + 2) * (2 * s + 2) == 4 * ((s + 1) * (s + 1))) by (nonlinear_arith);
        assert(4 * (s * s) <= 4 * ((n / 4) as int));
        assert(n < 4 * ((s + 1) * (s + 1)));
        let r = spec_isqrt(n) as int;
        if (2 * s + 1) * (2 * s + 1) <= n {
            assert(r == 2 * s + 1);
            assert(r * r <= n);
            assert((r + 1) * (r + 1) == (2 * s + 2) * (2 * s + 2));
            assert(n < (r + 1) * (r + 1));
        } else {
            assert(r == 2 * s);
            assert(r * r == (2 * s) * (2 * s));
            assert(r * r <= n);
            assert((r + 1) * (r + 1) == (2 * s + 1) * (2 * s + 1));
            assert(n < (r + 1) * (r + 1));
        }
        assert(spec_isqrt(n) * spec_isqrt(n) == r * r);
        assert((spec_isqrt(n) + 1) * (spec_isqrt(n) + 1) == (r + 1) * (r + 1));
    }
}

pub fn isqrt(n: u128) -> (r: u64)
    ensures
        r == spec_isqrt(n as nat),
    decreases n,
{
    if n < 1 {
        0
    } else {
        let s = isqrt(n / 4);
        proof {
            lemma_isqrt_bounds((n / 4) as nat);
            if s as int >= 0x8000_0000_0000_0000 {
                assert((s as int) * (s as int) >= 0x8000_0000_0000_0000 * 0x8000_0000_0000_0000)
                    by (nonlinear_arith)
                    requires
                        s as int >= 0x8000_0000_0000_0000,
                ;
            }
            assert(s < 0x8000_0000_0000_0000);
        }
        let c: u128 = 2 * (s as u128) + 1;
        proof {
            assert((c as int) * (c as int) < 0x1_0000_0000_0000_0000_0000_0000_0000_0000)
                by (nonlinear_arith)
                requires
                    c < 0x1_0000_0000_0000_0000,
            ;
        }
        if c * c <= n {
            2 * s + 1
        } else {
            2 * s
        }
    }
}

/// Polynomial arc tangent on `[0, 1]`, both axes scaled by one million,
/// clamped to a quarter turn.
pub open spec fn spec_atan_poly(t: int) -> int {
    let v = (QUARTER_PI_MICRO * t) / 1000000 + (273 * t * (1000000 - t)) / 1000000000;
    if v > QUARTER_PI_MICRO {
        QUARTER_PI_MICRO as int
    } else {
        v
    }
}

pub proof fn lemma_atan_poly_range(t: int)
    requires
        0 <= t <= 1000000,
    ensures
        0 <= spec_atan_poly(t) <= QUARTER_PI_MICRO,
{
    lemma_mul_div_le(QUARTER_PI_MICRO as int, t, 1000000);
    vstd::arithmetic::mul::lemma_mul_nonnegative(273 * t, 1000000 - t);
    vstd::arithmetic::div_mod::lemma_div_pos_is_pos(273 * t * (1000000 - t), 1000000000);
}

fn atan_poly(t: u64) -> (r: u64)
    requires
        t <= 1000000,
    ensures
        r == spec_atan_poly(t as int),
        r <= QUARTER_PI_MICRO,
{
    let a = (QUARTER_PI_MICRO * t) / 1000000;
    proof {
        assert((273 * (t as int)) * (1000000 - t as int) <= 273000000000000)
            by (nonlinear_arith)
            requires
                0 <= t <= 1000000,
        ;
    }
    let b = (273 * t * (1000000 - t)) / 1000000000;
    let v = a + b;
    proof {
        lemma_atan_poly_range(t as int);
    }
    if v > QUARTER_PI_MICRO {
        QUARTER_PI_MICRO
    } else {
        v
    }
}

/// The direction of a point from the origin, in micro-radians within
/// `[0, TWO_PI_MICRO)`, counter-clockwise from the positive first axis.
pub open spec fn spec_atan2_micro(y: int, x: int) -> int {
    let ax = magnitude(x) as int;
    let ay = magnitude(y) as int;
    let base = if ax >= ay {
        if ax == 0 {
            0
        } else {
            spec_atan_poly((ay * 1000000) / ax)
        }
    } else {
        HALF_PI_MICRO - spec_atan_poly((ax * 1000000) / ay)
    };
    let raw = if y >= 0 {
        if x >= 0 {
            base
        } else {
            PI_MICRO - base
        }
    } else {
        if x < 0 {
            PI_MICRO + base
        } else {
            TWO_PI_MICRO - base
        }
    };
    raw % (TWO_PI_MICRO as int)
}

/// The normalized direction always lies in the full-turn range.
pub proof fn lemma_atan2_range(y: int, x: int)
    ensures
        0 <= spec_atan2_micro(y, x) < TWO_PI_MICRO,
{
    let ax = magnitude(x) as int;
    let ay = magnitude(y) as int;
    if ax >= ay {
        if ax != 0 {
            lemma_mul_div_le(1000000, ay, ax);
            lemma_atan_poly_range((ay * 1000000) / ax);
        }
    } else {
        lemma_mul_div_le(1000000, ax, ay);
        lemma_atan_poly_range((ax * 1000000) / ay);
    }
}

/// The direction of `(dx, dy)` from the origin, normalized into a
/// counter-clockwise full turn of micro-radians.
pub fn atan3(dy: i64, dx: i64) -> (r: u64)
    ensures
        r == spec_atan2_micro(dy as int, dx as int),
        r < TWO_PI_MICRO,
{
    let ax = abs_u64(dx);
    let ay = abs_u64(dy);
    let base: u64 = if ax >= ay {
        if ax == 0 {
            0
        } else {
            proof {
                lemma_mul_div_le(1000000, ay as int, ax as int);
            }
            let t = ((ay as u128) * 1000000 / (ax as u128)) as u64;
            atan_poly(t)
        }
    } else {
        proof {
            lemma_mul_div_le(1000000, ax as int, ay as int);
        }
        let t = ((ax as u128) * 1000000 / (ay as u128)) as u64;
        let p = atan_poly(t);
        HALF_PI_MICRO - p
    };
    let raw: u64 = if dy >= 0 {
        if dx >= 0 {
            base
        } else {
            PI_MICRO - base
        }
    } else {
        if dx < 0 {
            PI_MICRO + base
        } else {
            TWO_PI_MICRO - base
        }
    };
    raw % TWO_PI_MICRO
}

/// Truncated sine series on `[0, PI_MICRO - HALF_PI_MICRO]`-sized inputs,
/// scaled by one million and clamped into the unit range.
pub open spec fn spec_sin_poly(x: int) -> int {
    let c = (x * x * x) / 6000000000000;
    let q = (x * x * x * x * x) / 120000000000000000000000000;
    let v = x - c + q;
    if v > 1000000 {
        1000000
    } else if v < 0 {
        0
    } else {
        v
    }
}

fn sin_poly(x: u64) -> (r: u64)
    requires
        x <= 1600000,
    ensures
        r == spec_sin_poly(x as int),
        r <= 1000000,
{
    let xx = x as u128;
    proof {
        assert((xx as int) * (xx as int) <= 2560000000000) by (nonlinear_arith)
            requires
                xx <= 1600000,
        ;
    }
    let x2 = xx * xx;
    proof {
        assert((x2 as int) * (xx as int) <= 4096000000000000000) by (nonlinear_arith)
            requires
                x2 <= 2560000000000 && xx <= 1600000 && 0 <= x2 && 0 <= xx,
        ;
    }
    let x3 = x2 * xx;
    proof {
        assert((x3 as int) * (xx as int) <= 6553600000000000000000000) by (nonlinear_arith)
            requires
                x3 <= 4096000000000000000 && xx <= 1600000 && 0 <= x3 && 0 <= xx,
        ;
    }
    let x4 = x3 * xx;
    proof {
        assert((x4 as int) * (xx as int) <= 10485760000000000000000000000000)
            by (nonlinear_arith)
            requires
                x4 <= 6553600000000000000000000 && xx <= 1600000 && 0 <= x4 && 0 <= xx,
        ;
    }
    let x5 = x4 * xx;
    proof {
        lemma_mul_div_le(xx as int, (xx as int) * (xx as int), 6000000000000);
    }
    let c = x3 / 6000000000000;
    let q = x5 / 120000000000000000000000000;
    proof {
        vstd::arithmetic::div_mod::lemma_div_is_ordered(
            x5 as int,
            10485760000000000000000000000000,
            120000000000000000000000000,
        );
    }
    let v = xx + q - c;
    if v > 1000000 {
        1000000
    } else {
        v as u64
    }
}

/// Sine of a non-negative micro-radian angle, scaled by one million.
pub open spec fn spec_sin_micro(a: int) -> int {
    let r = a % (TWO_PI_MICRO as int);
    if r < PI_MICRO {
        let x = if r <= HALF_PI_MICRO {
            r
        } else {
            PI_MICRO - r
        };
        spec_sin_poly(x)
    } else {
        let r2 = r - PI_MICRO;
        let x = if r2 <= HALF_PI_MICRO {
            r2
        } else {
            PI_MICRO - r2
        };
        -spec_sin_poly(x)
    }
}

/// Cosine as the sine a quarter turn ahead.
pub open spec fn spec_cos_micro(a: int) -> int {
    spec_sin_micro(a + HALF_PI_MICRO)
}

pub fn sin_micro(a: u64) -> (r: i64)
    ensures
        r == spec_sin_micro(a as int),
        -1000000 <= r <= 1000000,
{
    let m = a % TWO_PI_MICRO;
    if m < PI_MICRO {
        let x = if m <= HALF_PI_MICRO {
            m
        } else {
            PI_MICRO - m
        };
        sin_poly(x) as i64
    } else {
        let r2 = m - PI_MICRO;
        let x = if r2 <= HALF_PI_MICRO {
            r2
        } else {
            PI_MICRO - r2
        };
        -(sin_poly(x) as i64)
    }
}

pub fn cos_micro(a: u64) -> (r: i64)
    requires
        a <= 0xffff_ffff_0000_0000,
    ensures
        r == spec_cos_micro(a as int),
        -1000000 <= r <= 1000000,
{
    sin_micro(a + HALF_PI_MICRO)
}

} // verus!
