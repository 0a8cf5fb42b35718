//! Expansion of circular arcs into flat linear motion primitives.
//!
//! An arc is given by its start point, its literal end point, the center
//! offset relative to the start, and a rotational sense.  The expansion
//! walks the swept angle in steps of one coordinate unit of arc length
//! and always closes with the literal end point, so the output is never
//! empty and always lands exactly where the arc was commanded to end.

use crate::num::{abs_u64, lemma_mul_div_le, magnitude};
use crate::trig::{
    atan3, cos_micro, isqrt, lemma_atan2_range, lemma_isqrt_bounds, sin_micro, spec_atan2_micro,
    spec_cos_micro, spec_isqrt, spec_sin_micro, TWO_PI_MICRO,
};
use crate::Command;
use vstd::prelude::*;

verus! {

/// Rotational sense of an arc.
#[derive(Clone, Copy, Debug, PartialEq, Eq, Structural)]
pub enum Direction {
    CW,
    CCW,
}

/// Greatest coordinate magnitude, in thousandths, that arc expansion
/// accepts; it keeps every squared distance inside 128 bits.
pub const COORD_LIMIT: i64 = 1000000000000000000;

/// Radius of the arc in thousandths: the distance from the start point
/// to the center, which is the start point plus the given offset.
pub open spec fn spec_arc_radius(sx: int, sy: int, ox: int, oy: int) -> nat {
    let cx = sx + ox;
    let cy = sy + oy;
    spec_isqrt(((sx - cx) * (sx - cx) + (sy - cy) * (sy - cy)) as nat)
}

/// Directions of the start and end points as seen from the center,
/// before any direction correction.
pub open spec fn spec_raw_angles(sx: int, sy: int, ex: int, ey: int, ox: int, oy: int) -> (
    int,
    int,
) {
    let cx = sx + ox;
    let cy = sy + oy;
    (spec_atan2_micro(sy - cy, sx - cx), spec_atan2_micro(ey - cy, ex - cx))
}

/// Direction correction: a counter-clockwise arc must sweep forward and
/// a clockwise arc backward, so the lagging angle gains a full turn.
pub open spec fn spec_corrected_angles(a1: int, a2: int, dir: Direction) -> (int, int) {
    if dir == Direction::CCW && a2 - a1 < 0 {
        (a1, a2 + TWO_PI_MICRO)
    } else if dir == Direction::CW && a2 - a1 > 0 {
        (a1 + TWO_PI_MICRO, a2)
    } else {
        (a1, a2)
    }
}

/// The corrected signed sweep of the arc in micro-radians.
pub open spec fn spec_arc_sweep(
    sx: int,
    sy: int,
    ex: int,
    ey: int,
    ox: int,
    oy: int,
    dir: Direction,
) -> int {
    let raw = spec_raw_angles(sx, sy, ex, ey, ox, oy);
    let corrected = spec_corrected_angles(raw.0, raw.1, dir);
    corrected.1 - corrected.0
}

/// The corrected start angle of the arc in micro-radians.
pub open spec fn spec_arc_start_angle(
    sx: int,
    sy: int,
    ex: int,
    ey: int,
    ox: int,
    oy: int,
    dir: Direction,
) -> int {
    let raw = spec_raw_angles(sx, sy, ex, ey, ox, oy);
    let corrected = spec_corrected_angles(raw.0, raw.1, dir);
    corrected.0
}

/// One interpolation step per coordinate unit of arc length.
pub open spec fn spec_segment_count(sweep: int, radius: nat) -> nat {
    (magnitude(sweep) * radius / 1000000000) as nat
}

/// The interpolated point at step `i` of `n`, in thousandths.
pub open spec fn spec_arc_point(
    cx: int,
    cy: int,
    radius: nat,
    a1: int,
    sweep: int,
    i: nat,
    n: nat,
) -> (int, int) {
    let delta = magnitude(sweep) * i / n;
    let a3 = if sweep >= 0 {
        a1 + delta
    } else {
        a1 - delta
    };
    let c = spec_cos_micro(a3);
    let s = spec_sin_micro(a3);
    let xterm = radius * magnitude(c) / 1000000;
    let yterm = radius * magnitude(s) / 1000000;
    (
        if c >= 0 {
            cx + xterm
        } else {
            cx - xterm
        },
        if s >= 0 {
            cy + yterm
        } else {
            cy - yterm
        },
    )
}

/// The interpolated command pairs from step `i` up to `n`.
pub open spec fn spec_arc_points(
    cx: int,
    cy: int,
    radius: nat,
    a1: int,
    sweep: int,
    i: nat,
    n: nat,
) -> Seq<Command>
    decreases n - i,
{
    if i >= n {
        Seq::empty()
    } else {
        let p = spec_arc_point(cx, cy, radius, a1, sweep, i, n);
        seq![Command::X(p.0 as i64), Command::Y(p.1 as i64)] + spec_arc_points(
            cx,
            cy,
            radius,
            a1,
            sweep,
            (i + 1) as nat,
            n,
        )
    }
}

pub proof fn lemma_arc_points_len(
    cx: int,
    cy: int,
    radius: nat,
    a1: int,
    sweep: int,
    i: nat,
    n: nat,
)
    requires
        i <= n,
    ensures
        spec_arc_points(cx, cy, radius, a1, sweep, i, n).len() == 2 * (n - i),
    decreases n - i,
{
    if i < n {
        lemma_arc_points_len(cx, cy, radius, a1, sweep, (i + 1) as nat, n);
    }
}

/// The full expansion: the interpolated pairs followed by the literal
/// end point pair.
pub open spec fn spec_arc(
    sx: int,
    sy: int,
    ex: int,
    ey: int,
    ox: int,
    oy: int,
    dir: Direction,
) -> Seq<Command> {
    let cx = sx + ox;
    let cy = sy + oy;
    let radius = spec_arc_radius(sx, sy, ox, oy);
    let a1 = spec_arc_start_angle(sx, sy, ex, ey, ox, oy, dir);
    let sweep = spec_arc_sweep(sx, sy, ex, ey, ox, oy, dir);
    let n = spec_segment_count(sweep, radius);
    spec_arc_points(cx, cy, radius, a1, sweep, 0, n) + seq![
        Command::X(ex as i64),
        Command::Y(ey as i64),
    ]
}

/// For a clockwise arc the corrected sweep is never positive; for a
/// counter-clockwise arc it is never negative; and it never exceeds a
/// full turn.
pub proof fn lemma_sweep_sign(
    sx: int,
    sy: int,
    ex: int,
    ey: int,
    ox: int,
    oy: int,
    dir: Direction,
)
    ensures
        dir == Direction::CW ==> spec_arc_sweep(sx, sy, ex, ey, ox, oy, dir) <= 0,
        dir == Direction::CCW ==> spec_arc_sweep(sx, sy, ex, ey, ox, oy, dir) >= 0,
        magnitude(spec_arc_sweep(sx, sy, ex, ey, ox, oy, dir)) < TWO_PI_MICRO,
        spec_arc_start_angle(sx, sy, ex, ey, ox, oy, dir) >= 0,
        spec_arc_start_angle(sx, sy, ex, ey, ox, oy, dir) < 2 * TWO_PI_MICRO,
        spec_arc_start_angle(sx, sy, ex, ey, ox, oy, dir) + spec_arc_sweep(
            sx,
            sy,
            ex,
            ey,
            ox,
            oy,
            dir,
        ) >= 0,
        spec_arc_start_angle(sx, sy, ex, ey, ox, oy, dir) + spec_arc_sweep(
            sx,
            sy,
            ex,
            ey,
            ox,
            oy,
            dir,
        ) < 2 * TWO_PI_MICRO,
{
    let cx = sx + ox;
    let cy = sy + oy;
    lemma_atan2_range(sy - cy, sx - cx);
    lemma_atan2_range(ey - cy, ex - cx);
}

/// Arc expansion is pure: two runs on the same arguments agree exactly.
pub proof fn lemma_arc_inter_pure(
    sx: int,
    sy: int,
    ex: int,
    ey: int,
    ox: int,
    oy: int,
    dir: Direction,
    r1: Seq<Command>,
    r2: Seq<Command>,
)
    requires
        r1 == spec_arc(sx, sy, ex, ey, ox, oy, dir),
        r2 == spec_arc(sx, sy, ex, ey, ox, oy, dir),
    ensures
        r1 == r2,
{
}

/// Expands one arc into linear motion command pairs.
pub fn arc_inter(sx: i64, sy: i64, x: i64, y: i64, i_off: i64, j_off: i64, dir: Direction) -> (r:
    Vec<Command>)
    requires
        -COORD_LIMIT <= sx <= COORD_LIMIT,
        -COORD_LIMIT <= sy <= COORD_LIMIT,
        -COORD_LIMIT <= x <= COORD_LIMIT,
        -COORD_LIMIT <= y <= COORD_LIMIT,
        -COORD_LIMIT <= i_off <= COORD_LIMIT,
        -COORD_LIMIT <= j_off <= COORD_LIMIT,
    ensures
        r@ == spec_arc(sx as int, sy as int, x as int, y as int, i_off as int, j_off as int, dir),
        r@.len() == 2 * spec_segment_count(
            spec_arc_sweep(sx as int, sy as int, x as int, y as int, i_off as int, j_off as int, dir),
            spec_arc_radius(sx as int, sy as int, i_off as int, j_off as int),
        ) + 2,
        r@.len() >= 2,
        r@[r@.len() - 2] == Command::X(x),
        r@[r@.len() - 1] == Command::Y(y),
{
    proof {
        lemma_sweep_sign(
            sx as int,
            sy as int,
            x as int,
            y as int,
            i_off as int,
            j_off as int,
            dir,
        );
    }
    let cx = sx + i_off;
    let cy = sy + j_off;
    let dx = sx - cx;
    let dy = sy - cy;
    proof {
        assert(0 <= (dx as int) * (dx as int) <= 1000000000000000000000000000000000000
            && 0 <= (dy as int) * (dy as int) <= 1000000000000000000000000000000000000)
            by (nonlinear_arith)
            requires
                -1000000000000000000 <= dx <= 1000000000000000000,
                -1000000000000000000 <= dy <= 1000000000000000000,
        ;
    }
    let dx2 = (dx as i128) * (dx as i128);
    let dy2 = (dy as i128) * (dy as i128);
    let rsq = (dx2 + dy2) as u128;
    let radius = isqrt(rsq);
    proof {
        lemma_isqrt_bounds(rsq as nat);
        if radius as int > 2000000000000000000 {
            assert((radius as int) * (radius as int) > 4000000000000000000000000000000000000)
                by (nonlinear_arith)
                requires
                    radius as int > 2000000000000000000,
            ;
        }
        assert(radius <= 2000000000000000000);
    }
    let a1r = atan3(dy, dx);
    let a2r = atan3(y - cy, x - cx);
    let sweep0: i64 = a2r as i64 - a1r as i64;
    let (a1, a2): (u64, u64) = if dir == Direction::CCW && sweep0 < 0 {
        (a1r, a2r + TWO_PI_MICRO)
    } else if dir == Direction::CW && sweep0 > 0 {
        (a1r + TWO_PI_MICRO, a2r)
    } else {
        (a1r, a2r)
    };
    let sweep: i64 = a2 as i64 - a1 as i64;
    let sweep_mag: u64 = abs_u64(sweep);
    let ghost gcx: int = cx as int;
    let ghost gcy: int = cy as int;
    let ghost grad: nat = radius as nat;
    let ghost ga1: int = a1 as int;
    let ghost gsweep: int = sweep as int;
    proof {
        assert(grad == spec_arc_radius(sx as int, sy as int, i_off as int, j_off as int));
        assert(ga1 == spec_arc_start_angle(
            sx as int,
            sy as int,
            x as int,
            y as int,
            i_off as int,
            j_off as int,
            dir,
        ));
        assert(gsweep == spec_arc_sweep(
            sx as int,
            sy as int,
            x as int,
            y as int,
            i_off as int,
            j_off as int,
            dir,
        ));
        assert((sweep_mag as int) * (radius as int) <= 12566370 * 2000000000000000000)
            by (nonlinear_arith)
            requires
                0 <= sweep_mag <= 12566370,
                0 <= radius <= 2000000000000000000,
        ;
        vstd::arithmetic::div_mod::lemma_div_is_ordered(
            (sweep_mag as int) * (radius as int),
            (12566370 * 2000000000000000000) as int,
            1000000000,
        );
        vstd::arithmetic::mul::lemma_mul_nonnegative(sweep_mag as int, radius as int);
        vstd::arithmetic::div_mod::lemma_div_pos_is_pos(
            (sweep_mag as int) * (radius as int),
            1000000000,
        );
    }
    let n: u64 = ((sweep_mag as u128) * (radius as u128) / 1000000000) as u64;
    let ghost gn: nat = n as nat;
    proof {
        assert(gn == spec_segment_count(gsweep, grad));
    }
    let mut out: Vec<Command> = Vec::new();
    proof {
        assert(out@ + spec_arc_points(gcx, gcy, grad, ga1, gsweep, 0, gn) =~= spec_arc_points(
            gcx,
            gcy,
            grad,
            ga1,
            gsweep,
            0,
            gn,
        ));
    }
    let mut i: u64 = 0;
    while i < n
        invariant
            0 <= i <= n,
            gcx == cx as int,
            gcy == cy as int,
            grad == radius as nat,
            ga1 == a1 as int,
            gsweep == sweep as int,
            gn == n as nat,
            sweep_mag == magnitude(gsweep),
            sweep_mag < TWO_PI_MICRO,
            a1 < 2 * TWO_PI_MICRO,
            ga1 + gsweep >= 0,
            ga1 + gsweep < 2 * TWO_PI_MICRO,
            radius <= 2000000000000000000,
            n <= 25132740000000000,
            -2000000000000000000 <= cx <= 2000000000000000000,
            -2000000000000000000 <= cy <= 2000000000000000000,
            out@ + spec_arc_points(gcx, gcy, grad, ga1, gsweep, i as nat, gn) == spec_arc_points(
                gcx,
                gcy,
                grad,
                ga1,
                gsweep,
                0,
                gn,
            ),
        decreases n - i,
    {
        proof {
            assert((sweep_mag as int) * (i as int) <= (6283185 * 25132740000000000) as int)
                by (nonlinear_arith)
                requires
                    0 <= sweep_mag <= 6283185,
                    0 <= i <= 25132740000000000,
            ;
            lemma_mul_div_le(sweep_mag as int, i as int, n as int);
            vstd::arithmetic::mul::lemma_mul_nonnegative(sweep_mag as int, i as int);
            vstd::arithmetic::div_mod::lemma_div_pos_is_pos(
                (sweep_mag as int) * (i as int),
                n as int,
            );
        }
        let delta: u64 = (((sweep_mag as u128) * (i as u128)) / (n as u128)) as u64;
        let a3: u64 = if sweep >= 0 {
            a1 + delta
        } else {
            proof {
                assert(sweep_mag == a1 as int - (a1 as int + gsweep));
                assert(delta <= a1);
            }
            a1 - delta
        };
        let c = cos_micro(a3);
        let s = sin_micro(a3);
        let cmag = abs_u64(c);
        let smag = abs_u64(s);
        proof {
            assert((radius as int) * (cmag as int) <= 2000000000000000000 * 1000000
                && (radius as int) * (smag as int) <= 2000000000000000000 * 1000000)
                by (nonlinear_arith)
                requires
                    0 <= radius <= 2000000000000000000,
                    0 <= cmag <= 1000000,
                    0 <= smag <= 1000000,
            ;
            lemma_mul_div_le(radius as int, cmag as int, 1000000);
            lemma_mul_div_le(radius as int, smag as int, 1000000);
        }
        let xterm: u64 = (((radius as u128) * (cmag as u128)) / 1000000) as u64;
        let yterm: u64 = (((radius as u128) * (smag as u128)) / 1000000) as u64;
        let px: i64 = if c >= 0 {
            cx + xterm as i64
        } else {
            cx - xterm as i64
        };
        let py: i64 = if s >= 0 {
            cy + yterm as i64
        } else {
            cy - yterm as i64
        };
        let ghost out_before = out@;
        proof {
            let p = spec_arc_point(gcx, gcy, grad, ga1, gsweep, i as nat, gn);
            assert(p.0 == px as int && p.1 == py as int);
            let pre = spec_arc_points(gcx, gcy, grad, ga1, gsweep, i as nat, gn);
            let post = spec_arc_points(gcx, gcy, grad, ga1, gsweep, (i + 1) as nat, gn);
            assert(pre == seq![Command::X(px), Command::Y(py)] + post);
        }
        out.push(Command::X(px));
        out.push(Command::Y(py));
        proof {
            let pre = spec_arc_points(gcx, gcy, grad, ga1, gsweep, i as nat, gn);
            let post = spec_arc_points(gcx, gcy, grad, ga1, gsweep, (i + 1) as nat, gn);
            assert(out@ =~= out_before + seq![Command::X(px), Command::Y(py)]);
            assert(out@ + post =~= out_before + pre);
        }
        i = i + 1;
    }
    proof {
        assert(spec_arc_points(gcx, gcy, grad, ga1, gsweep, n as nat, gn) =~= Seq::<
            Command,
        >::empty());
        assert(out@ + Seq::<Command>::empty() =~= out@);
        lemma_arc_points_len(gcx, gcy, grad, ga1, gsweep, 0, gn);
    }
    out.push(Command::X(x));
    out.push(Command::Y(y));
    proof {
        assert(out@ =~= spec_arc_points(gcx, gcy, grad, ga1, gsweep, 0, gn) + seq![
            Command::X(x),
            Command::Y(y),
        ]);
        assert(out@ =~= spec_arc(
            sx as int,
            sy as int,
            x as int,
            y as int,
            i_off as int,
            j_off as int,
            dir,
        ));
    }
    out
}

} // verus!
