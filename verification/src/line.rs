//! The line primitive: digital-differential interpolation between two
//! validated endpoints.
//!
//! The primary axis is the one with the larger coordinate delta (ties favour
//! x).  For each primary-axis offset `ia` from `0` to the primary delta `da`
//! inclusive, the secondary-axis offset is the rounded interpolation
//! `(2 * db * ia + da) / da / 2` in truncating integer division — this exact
//! rounding rule decides which pixels a diagonal line touches and is part of
//! the contract, not an implementation detail.

use vstd::prelude::*;
use crate::canvas::{Canvas, DrawError, draw_point, painted, lemma_painted_step};
use vstd::arithmetic::div_mod::{
    lemma_div_denominator,
    lemma_mod_multiples_basic,
    lemma_mod_multiples_vanish,
    lemma_div_is_ordered,
    lemma_div_pos_is_pos,
    lemma_fundamental_div_mod,
    lemma_fundamental_div_mod_converse,
    lemma_mod_pos_bound,
};

verus! {

/// Sign multiplier used to map axis offsets back to absolute coordinates.
pub open spec fn sgn(v: int) -> int {
    if v > 0 {
        1
    } else if v < 0 {
        -1
    } else {
        0
    }
}

/// Absolute difference of two coordinates.
pub open spec fn abs_delta(a: int, b: int) -> int {
    if b >= a {
        b - a
    } else {
        a - b
    }
}

/// The secondary-axis offset at primary-axis offset `ia` of a line with
/// primary delta `da` and secondary delta `db`: the rounded interpolation
/// `(2 * db * ia + da) / da / 2`.  A primary delta of zero yields offset
/// zero; an `ia` outside `[0, da]`, or deltas with `da < db`, yield no point.
pub open spec fn slope_point(da: int, db: int, ia: int) -> Option<int> {
    if da < db {
        None
    } else if da == 0 {
        Some(0)
    } else if 0 <= ia <= da {
        Some((2 * db * ia + da) / da / 2)
    } else {
        None
    }
}

/// Compute the secondary-axis offset for primary-axis offset `ia`.
///
/// Exactly [`slope_point`]: `None` when `da < db` or `ia` lies outside
/// `[0, da]`, the rounded interpolation otherwise.
pub fn calc_slope_point(da: i64, db: i64, ia: i64) -> (r: Option<i64>)
    requires
        0 <= da,
        0 <= db,
        2 * db * da + da <= i64::MAX,
    ensures
        r is Some <==> slope_point(da as int, db as int, ia as int) is Some,
        r is Some ==> r->Some_0 == slope_point(da as int, db as int, ia as int)->Some_0,
{
    if da < db {
        None
    } else if da == 0 {
        Some(0)
    } else if 0 <= ia && ia <= da {
        proof {
            assert(0 <= 2 * db <= 2 * db * da && 0 <= 2 * db * ia && 2 * db * ia <= 2 * db * da)
                by (nonlinear_arith)
                requires
                    0 <= db,
                    0 <= ia <= da,
                    1 <= da,
            ;
        }
        Some((2 * db * ia + da) / da / 2)
    } else {
        None
    }
}

/// For offsets inside `[0, da]` of a line with `db <= da`, the interpolation
/// always yields a point, and that point's secondary offset stays between
/// `0` and `db` — it never leaves the convex hull of the two endpoints.
pub proof fn lemma_slope_point_range(da: int, db: int, ia: int)
    requires
        0 <= db <= da,
        0 <= ia <= da,
    ensures
        slope_point(da, db, ia) is Some,
        0 <= slope_point(da, db, ia)->Some_0 <= db,
{
    if da != 0 {
        let n = 2 * db * ia + da;
        assert(0 <= 2 * db * ia && 2 * db * ia <= 2 * db * da) by (nonlinear_arith)
            requires
                0 <= db,
                0 <= ia <= da,
        ;
        lemma_div_denominator(n, da, 2);
        lemma_div_pos_is_pos(n, da * 2);
        assert(2 * db * da + da == db * (da * 2) + da) by (nonlinear_arith);
        lemma_fundamental_div_mod_converse(2 * db * da + da, da * 2, db, da);
        lemma_div_is_ordered(n, 2 * db * da + da, da * 2);
        assert(n / (da * 2) <= db);
    }
}

/// The interpolation is symmetric under reversing the line, provided the
/// rounded quantity is never an exact half: the offset at `da - j` seen from
/// one end is `db` minus the offset at `j` seen from the other.
pub proof fn lemma_slope_point_symmetric(da: int, db: int, j: int)
    requires
        0 < da,
        0 <= db <= da,
        0 <= j <= da,
        (2 * db * j + da) % (2 * da) != 0,
    ensures
        slope_point(da, db, da - j)->Some_0 == db - slope_point(da, db, j)->Some_0,
{
    let dd = 2 * da;
    let a = 2 * db * j + da;
    let n2 = 2 * db * (da - j) + da;
    assert(0 <= 2 * db * j && 2 * db * j <= 2 * db * da && 0 <= 2 * db * (da - j)) by (nonlinear_arith)
        requires
            0 <= db,
            0 <= j <= da,
    ;
    assert(2 * db * (da - j) + da == 2 * db * da + da - (2 * db * j)) by (nonlinear_arith);
    assert(n2 == 2 * db * da + da - (2 * db * j));
    lemma_div_denominator(a, da, 2);
    lemma_div_denominator(n2, da, 2);
    assert(da * 2 == dd);
    lemma_fundamental_div_mod(a, dd);
    let q = a / dd;
    let r = a % dd;
    lemma_mod_pos_bound(a, dd);
    assert(n2 == (db - q) * dd + (dd - r)) by (nonlinear_arith)
        requires
            a == dd * q + r,
            n2 == 2 * db * da + da - (2 * db * j),
            a == 2 * db * j + da,
            dd == 2 * da,
    ;
    lemma_fundamental_div_mod_converse(n2, dd, db - q, dd - r);
}

/// Multiplying by a sign just keeps, negates or cancels the other factor.
pub proof fn lemma_sgn_mul(v: int, k: int)
    ensures
        sgn(v) * k == (if v > 0 {
            k
        } else if v < 0 {
            -k
        } else {
            0
        }),
{
    if v > 0 {
        assert(1 * k == k) by (nonlinear_arith);
    } else if v < 0 {
        assert((-1) * k == -k) by (nonlinear_arith);
    } else {
        assert(0 * k == 0) by (nonlinear_arith);
    }
}

/// Primary-axis delta of the line from `(x0, y0)` to `(x1, y1)`: the larger
/// of the two coordinate deltas (ties favour x, which then is the primary
/// axis).
pub open spec fn line_delta(x0: int, y0: int, x1: int, y1: int) -> int {
    if abs_delta(x0, x1) >= abs_delta(y0, y1) {
        abs_delta(x0, x1)
    } else {
        abs_delta(y0, y1)
    }
}

/// Secondary-axis delta: the smaller of the two coordinate deltas.
pub open spec fn line_minor(x0: int, y0: int, x1: int, y1: int) -> int {
    if abs_delta(x0, x1) >= abs_delta(y0, y1) {
        abs_delta(y0, y1)
    } else {
        abs_delta(x0, x1)
    }
}

/// The absolute coordinates of the line's point at primary-axis offset `j`
/// (meaningful for `0 <= j <= line_delta`).
pub open spec fn line_point(x0: int, y0: int, x1: int, y1: int, j: int) -> (int, int) {
    let dx = abs_delta(x0, x1);
    let dy = abs_delta(y0, y1);
    let sx = sgn(x1 - x0);
    let sy = sgn(y1 - y0);
    if dx >= dy {
        (x0 + sx * j, y0 + sy * slope_point(dx, dy, j)->Some_0)
    } else {
        (x0 + sx * slope_point(dy, dx, j)->Some_0, y0 + sy * j)
    }
}

/// The set of points the line from `(x0, y0)` to `(x1, y1)` consists of: one
/// for each primary-axis offset from `0` to the primary delta inclusive.
pub open spec fn line_points(x0: int, y0: int, x1: int, y1: int) -> Set<(int, int)> {
    Set::new(
        |p: (int, int)|
            exists|j: int|
                0 <= j <= line_delta(x0, y0, x1, y1) && p == #[trigger] line_point(
                    x0,
                    y0,
                    x1,
                    y1,
                    j,
                ),
    )
}

/// Cover predicate for the points of the line.
pub open spec fn line_cover(x0: int, y0: int, x1: int, y1: int) -> spec_fn(int, int) -> bool {
    |x: int, y: int| line_points(x0, y0, x1, y1).contains((x, y))
}

/// Cover predicate for the line's points at primary-axis offsets below `n`.
pub open spec fn line_prefix_cover(x0: int, y0: int, x1: int, y1: int, n: int) -> spec_fn(
    int,
    int,
) -> bool {
    |x: int, y: int|
        exists|j: int| 0 <= j < n && #[trigger] line_point(x0, y0, x1, y1, j) == (x, y)
}

/// Every point of a line between two in-range endpoints is itself in range:
/// the primary coordinate walks from one endpoint coordinate to the other,
/// and the interpolated secondary offset never exceeds the secondary delta.
pub proof fn lemma_line_point_in_range(
    c: crate::canvas::Canvas,
    x0: int,
    y0: int,
    x1: int,
    y1: int,
    j: int,
)
    requires
        c.wf(),
        c.in_x(x0),
        c.in_y(y0),
        c.in_x(x1),
        c.in_y(y1),
        0 <= j <= line_delta(x0, y0, x1, y1),
    ensures
        c.in_x(line_point(x0, y0, x1, y1, j).0),
        c.in_y(line_point(x0, y0, x1, y1, j).1),
{
    let dx = abs_delta(x0, x1);
    let dy = abs_delta(y0, y1);
    if dx >= dy {
        lemma_slope_point_range(dx, dy, j);
        let s = slope_point(dx, dy, j)->Some_0;
        lemma_sgn_mul(x1 - x0, j);
        lemma_sgn_mul(y1 - y0, s);
    } else {
        lemma_slope_point_range(dy, dx, j);
        let s = slope_point(dy, dx, j)->Some_0;
        lemma_sgn_mul(y1 - y0, j);
        lemma_sgn_mul(x1 - x0, s);
    }
}

/// Draw the line from `(x0, y0)` to `(x1, y1)`.
///
/// Fails with `OutOfRange` (writing nothing) unless both endpoints
/// individually pass the range checks.  On success every point of
/// [`line_points`] reads `color` afterwards and every other cell is
/// unchanged; intermediate points need no separate check because the
/// interpolation stays inside the convex hull of the two validated
/// endpoints.  The precondition only rules out coordinate deltas so large
/// that the interpolation arithmetic would not fit in 64 bits.
pub fn draw_line(
    canvas: &mut Canvas,
    color: u32,
    x0: i64,
    y0: i64,
    x1: i64,
    y1: i64,
) -> (r: Result<(), DrawError>)
    requires
        old(canvas).wf(),
        old(canvas).in_x(x0 as int) && old(canvas).in_y(y0 as int) && old(canvas).in_x(x1 as int)
            && old(canvas).in_y(y1 as int) ==> 2 * line_delta(
            x0 as int,
            y0 as int,
            x1 as int,
            y1 as int,
        ) * line_delta(x0 as int, y0 as int, x1 as int, y1 as int) + line_delta(
            x0 as int,
            y0 as int,
            x1 as int,
            y1 as int,
        ) <= i64::MAX,
    ensures
        final(canvas).wf(),
        final(canvas).same_geometry(*old(canvas)),
        r is Ok <==> old(canvas).in_x(x0 as int) && old(canvas).in_y(y0 as int) && old(
            canvas,
        ).in_x(x1 as int) && old(canvas).in_y(y1 as int),
        r is Ok ==> painted(
            *old(canvas),
            *final(canvas),
            line_cover(x0 as int, y0 as int, x1 as int, y1 as int),
            color,
        ),
        r is Err ==> final(canvas).pixels() == old(canvas).pixels() && r == Err::<(), DrawError>(
            DrawError::OutOfRange,
        ),
{
    if !canvas.is_in_x_range(x0) || !canvas.is_in_y_range(y0) || !canvas.is_in_x_range(x1)
        || !canvas.is_in_y_range(y1) {
        return Err(DrawError::OutOfRange);
    }
    let ghost c0 = *canvas;
    let dx = if x1 >= x0 {
        x1 - x0
    } else {
        x0 - x1
    };
    let dy = if y1 >= y0 {
        y1 - y0
    } else {
        y0 - y1
    };
    let sx: i64 = if x1 > x0 {
        1
    } else if x1 < x0 {
        -1
    } else {
        0
    };
    let sy: i64 = if y1 > y0 {
        1
    } else if y1 < y0 {
        -1
    } else {
        0
    };
    if dx >= dy {
        proof {
            assert(2 * dy * dx <= 2 * dx * dx) by (nonlinear_arith)
                requires
                    0 <= dy <= dx,
            ;
        }
        let mut ia: i64 = 0;
        while ia <= dx
            invariant
                c0.wf(),
                canvas.wf(),
                canvas.same_geometry(c0),
                c0.in_x(x0 as int),
                c0.in_y(y0 as int),
                c0.in_x(x1 as int),
                c0.in_y(y1 as int),
                dx == abs_delta(x0 as int, x1 as int),
                dy == abs_delta(y0 as int, y1 as int),
                dx >= dy,
                sx as int == sgn(x1 as int - x0 as int),
                sy as int == sgn(y1 as int - y0 as int),
                2 * dy * dx + dx <= i64::MAX,
                0 <= ia <= dx + 1,
                painted(
                    c0,
                    *canvas,
                    line_prefix_cover(x0 as int, y0 as int, x1 as int, y1 as int, ia as int),
                    color,
                ),
            decreases dx + 1 - ia,
        {
            match calc_slope_point(dx, dy, ia) {
                Some(ry) => {
                    proof {
                        lemma_slope_point_range(dx as int, dy as int, ia as int);
                        lemma_line_point_in_range(
                            c0,
                            x0 as int,
                            y0 as int,
                            x1 as int,
                            y1 as int,
                            ia as int,
                        );
                        lemma_sgn_mul(x1 as int - x0 as int, ia as int);
                        lemma_sgn_mul(y1 as int - y0 as int, ry as int);
                        assert((x0 + sx as int * ia, y0 + sy as int * ry) == line_point(
                            x0 as int,
                            y0 as int,
                            x1 as int,
                            y1 as int,
                            ia as int,
                        ));
                    }
                    let px = x0 + ia * sx;
                    let py = y0 + ry * sy;
                    let ghost c1 = *canvas;
                    draw_point(canvas, color, px, py)?;
                    proof {
                        lemma_painted_step(
                            c0,
                            c1,
                            *canvas,
                            line_prefix_cover(x0 as int, y0 as int, x1 as int, y1 as int, ia as int),
                            color,
                            px as int,
                            py as int,
                        );
                        lemma_line_prefix_extend(
                            c0,
                            *canvas,
                            color,
                            x0 as int,
                            y0 as int,
                            x1 as int,
                            y1 as int,
                            ia as int,
                            px as int,
                            py as int,
                        );
                    }
                }
                None => {
                    proof {
                        lemma_slope_point_range(dx as int, dy as int, ia as int);
                        assert(false);
                    }
                },
            }
            ia = ia + 1;
        }
        proof {
            lemma_line_prefix_complete(
                c0,
                *canvas,
                color,
                x0 as int,
                y0 as int,
                x1 as int,
                y1 as int,
            );
        }
        Ok(())
    } else {
        proof {
            assert(2 * dx * dy <= 2 * dy * dy) by (nonlinear_arith)
                requires
                    0 <= dx <= dy,
            ;
        }
        let mut ia: i64 = 0;
        while ia <= dy
            invariant
                c0.wf(),
                canvas.wf(),
                canvas.same_geometry(c0),
                c0.in_x(x0 as int),
                c0.in_y(y0 as int),
                c0.in_x(x1 as int),
                c0.in_y(y1 as int),
                dx == abs_delta(x0 as int, x1 as int),
                dy == abs_delta(y0 as int, y1 as int),
                dx < dy,
                sx as int == sgn(x1 as int - x0 as int),
                sy as int == sgn(y1 as int - y0 as int),
                2 * dx * dy + dy <= i64::MAX,
                0 <= ia <= dy + 1,
                painted(
                    c0,
                    *canvas,
                    line_prefix_cover(x0 as int, y0 as int, x1 as int, y1 as int, ia as int),
                    color,
                ),
            decreases dy + 1 - ia,
        {
            match calc_slope_point(dy, dx, ia) {
                Some(rx) => {
                    proof {
                        lemma_slope_point_range(dy as int, dx as int, ia as int);
                        lemma_line_point_in_range(
                            c0,
                            x0 as int,
                            y0 as int,
                            x1 as int,
                            y1 as int,
                            ia as int,
                        );
                        lemma_sgn_mul(y1 as int - y0 as int, ia as int);
                        lemma_sgn_mul(x1 as int - x0 as int, rx as int);
                        assert((x0 + sx as int * rx, y0 + sy as int * ia) == line_point(
                            x0 as int,
                            y0 as int,
                            x1 as int,
                            y1 as int,
                            ia as int,
                        ));
                    }
                    let px = x0 + rx * sx;
                    let py = y0 + ia * sy;
                    let ghost c1 = *canvas;
                    draw_point(canvas, color, px, py)?;
                    proof {
                        lemma_painted_step(
                            c0,
                            c1,
                            *canvas,
                            line_prefix_cover(x0 as int, y0 as int, x1 as int, y1 as int, ia as int),
                            color,
                            px as int,
                            py as int,
                        );
                        lemma_line_prefix_extend(
                            c0,
                            *canvas,
                            color,
                            x0 as int,
                            y0 as int,
                            x1 as int,
                            y1 as int,
                            ia as int,
                            px as int,
                            py as int,
                        );
                    }
                }
                None => {
                    proof {
                        lemma_slope_point_range(dy as int, dx as int, ia as int);
                        assert(false);
                    }
                },
            }
            ia = ia + 1;
        }
        proof {
            lemma_line_prefix_complete(
                c0,
                *canvas,
                color,
                x0 as int,
                y0 as int,
                x1 as int,
                y1 as int,
            );
        }
        Ok(())
    }
}

/// A degenerate line consists of exactly its one endpoint.
pub proof fn lemma_line_points_degenerate(x: int, y: int)
    ensures
        line_points(x, y, x, y) =~= set![(x, y)],
{
    assert(line_point(x, y, x, y, 0) == (x, y));
    assert forall|p: (int, int)| line_points(x, y, x, y).contains(p) implies p == (x, y) by {
        let j = choose|j: int|
            0 <= j <= line_delta(x, y, x, y) && p == #[trigger] line_point(x, y, x, y, j);
        assert(j == 0);
    }
    assert(line_points(x, y, x, y).contains((x, y)));
}

/// No offset of the line hits an exact rounding half, so reversing the
/// endpoints reflects every interpolated offset exactly.  Lines with an odd
/// primary delta, and axis-aligned lines, always satisfy this; a line such
/// as one with deltas `(2, 1)` does not.
pub open spec fn line_tie_free(x0: int, y0: int, x1: int, y1: int) -> bool {
    let da = line_delta(x0, y0, x1, y1);
    let db = line_minor(x0, y0, x1, y1);
    da == 0 || (forall|k: int| 0 <= k <= da ==> #[trigger] ((2 * db * k + da) % (2 * da)) != 0)
}

/// On a tie-free line, the point at offset `da - j` seen from one end is the
/// point at offset `j` seen from the other.
pub proof fn lemma_line_point_reverse(x0: int, y0: int, x1: int, y1: int, j: int)
    requires
        0 <= j <= line_delta(x0, y0, x1, y1),
        line_tie_free(x0, y0, x1, y1),
    ensures
        line_point(x1, y1, x0, y0, line_delta(x0, y0, x1, y1) - j) == line_point(
            x0,
            y0,
            x1,
            y1,
            j,
        ),
{
    let dx = abs_delta(x0, x1);
    let dy = abs_delta(y0, y1);
    let da = line_delta(x0, y0, x1, y1);
    let db = line_minor(x0, y0, x1, y1);
    if da == 0 {
    } else if dx >= dy {
        assert((2 * db * j + da) % (2 * da) != 0);
        lemma_slope_point_symmetric(dx, dy, j);
        let s = slope_point(dx, dy, j)->Some_0;
        lemma_sgn_mul(x1 - x0, dx);
        lemma_sgn_mul(x1 - x0, j);
        lemma_sgn_mul(x0 - x1, dx - j);
        lemma_sgn_mul(y1 - y0, dy);
        lemma_sgn_mul(y1 - y0, s);
        lemma_sgn_mul(y0 - y1, dy - s);
    } else {
        assert((2 * db * j + da) % (2 * da) != 0);
        lemma_slope_point_symmetric(dy, dx, j);
        let s = slope_point(dy, dx, j)->Some_0;
        lemma_sgn_mul(y1 - y0, dy);
        lemma_sgn_mul(y1 - y0, j);
        lemma_sgn_mul(y0 - y1, dy - j);
        lemma_sgn_mul(x1 - x0, dx);
        lemma_sgn_mul(x1 - x0, s);
        lemma_sgn_mul(x0 - x1, dx - s);
    }
}

/// The set of points of a tie-free line does not depend on the direction it
/// is drawn in: drawing from `(x1, y1)` back to `(x0, y0)` touches exactly
/// the pixels of drawing from `(x0, y0)` to `(x1, y1)`.
pub proof fn lemma_line_points_symmetric(x0: int, y0: int, x1: int, y1: int)
    requires
        line_tie_free(x0, y0, x1, y1),
    ensures
        line_points(x1, y1, x0, y0) =~= line_points(x0, y0, x1, y1),
{
    let da = line_delta(x0, y0, x1, y1);
    assert(line_delta(x1, y1, x0, y0) == da);
    assert forall|p: (int, int)| line_points(x0, y0, x1, y1).contains(p) implies line_points(
        x1,
        y1,
        x0,
        y0,
    ).contains(p) by {
        let j = choose|j: int|
            0 <= j <= da && p == #[trigger] line_point(x0, y0, x1, y1, j);
        lemma_line_point_reverse(x0, y0, x1, y1, j);
        assert(0 <= da - j <= da && p == line_point(x1, y1, x0, y0, da - j));
    }
    assert forall|p: (int, int)| line_points(x1, y1, x0, y0).contains(p) implies line_points(
        x0,
        y0,
        x1,
        y1,
    ).contains(p) by {
        let k = choose|k: int|
            0 <= k <= da && p == #[trigger] line_point(x1, y1, x0, y0, k);
        lemma_line_point_reverse(x0, y0, x1, y1, da - k);
        assert(p == line_point(x0, y0, x1, y1, da - k));
    }
}

/// Drawing a tie-free line leaves the same canvas whichever endpoint it is
/// drawn from: the two point sets coincide, and a painting determines the
/// pixels completely.
pub proof fn lemma_draw_line_direction_irrelevant(
    c0: Canvas,
    c1: Canvas,
    c2: Canvas,
    color: u32,
    x0: int,
    y0: int,
    x1: int,
    y1: int,
)
    requires
        c0.wf(),
        line_tie_free(x0, y0, x1, y1),
        painted(c0, c1, line_cover(x0, y0, x1, y1), color),
        painted(c0, c2, line_cover(x1, y1, x0, y0), color),
    ensures
        c1.pixels() =~= c2.pixels(),
{
    lemma_line_points_symmetric(x0, y0, x1, y1);
    assert forall|x: int, y: int| c0.in_x(x) && c0.in_y(y) implies (#[trigger] line_cover(
        x1,
        y1,
        x0,
        y0,
    )(x, y) <==> #[trigger] line_cover(x0, y0, x1, y1)(x, y)) by {
        assert(line_points(x1, y1, x0, y0).contains((x, y)) == line_points(
            x0,
            y0,
            x1,
            y1,
        ).contains((x, y)));
    }
    crate::canvas::lemma_painted_ext(
        c0,
        c2,
        line_cover(x1, y1, x0, y0),
        line_cover(x0, y0, x1, y1),
        color,
    );
    crate::canvas::lemma_painted_deterministic(
        c0,
        c1,
        c2,
        line_cover(x0, y0, x1, y1),
        color,
    );
}

/// A line whose primary delta is odd is tie-free: the rounded quantity is
/// then odd while the divisor is even.
pub proof fn lemma_odd_delta_tie_free(x0: int, y0: int, x1: int, y1: int)
    requires
        line_delta(x0, y0, x1, y1) % 2 == 1,
    ensures
        line_tie_free(x0, y0, x1, y1),
{
    let da = line_delta(x0, y0, x1, y1);
    let db = line_minor(x0, y0, x1, y1);
    assert forall|k: int| 0 <= k <= da implies #[trigger] ((2 * db * k + da) % (2 * da)) != 0 by {
        let n = 2 * db * k + da;
        if n % (2 * da) == 0 {
            let m = n / (2 * da);
            lemma_fundamental_div_mod(n, 2 * da);
            assert(n == (da * m) * 2) by (nonlinear_arith)
                requires
                    n == 2 * da * m,
            ;
            lemma_mod_multiples_basic(da * m, 2);
            assert(n == 2 * (db * k) + da) by (nonlinear_arith)
                requires
                    n == 2 * db * k + da,
            ;
            lemma_mod_multiples_vanish(db * k, da, 2);
            assert(n % 2 == da % 2);
            assert(false);
        }
    }
}

/// An axis-aligned line (one of the deltas is zero) is tie-free.
pub proof fn lemma_axis_aligned_tie_free(x0: int, y0: int, x1: int, y1: int)
    requires
        line_minor(x0, y0, x1, y1) == 0,
    ensures
        line_tie_free(x0, y0, x1, y1),
{
    let da = line_delta(x0, y0, x1, y1);
    let db = line_minor(x0, y0, x1, y1);
    if da != 0 {
        assert forall|k: int| 0 <= k <= da implies #[trigger] ((2 * db * k + da) % (2 * da)) != 0
            by {
            assert(2 * db * k + da == da) by (nonlinear_arith)
                requires
                    db == 0,
            ;
            lemma_fundamental_div_mod_converse(da, 2 * da, 0, da);
        }
    }
}

/// Painting the prefix below `j` and then the line's point at `j` paints the
/// prefix below `j + 1`.
proof fn lemma_line_prefix_extend(
    c0: Canvas,
    c2: Canvas,
    color: u32,
    x0: int,
    y0: int,
    x1: int,
    y1: int,
    j: int,
    px: int,
    py: int,
)
    requires
        0 <= j,
        (px, py) == line_point(x0, y0, x1, y1, j),
        painted(
            c0,
            c2,
            crate::canvas::union_cover(
                line_prefix_cover(x0, y0, x1, y1, j),
                crate::canvas::point_cover(px, py),
            ),
            color,
        ),
    ensures
        painted(c0, c2, line_prefix_cover(x0, y0, x1, y1, j + 1), color),
{
    let a = crate::canvas::union_cover(
        line_prefix_cover(x0, y0, x1, y1, j),
        crate::canvas::point_cover(px, py),
    );
    let b = line_prefix_cover(x0, y0, x1, y1, j + 1);
    assert forall|x: int, y: int| c0.in_x(x) && c0.in_y(y) implies (#[trigger] a(x, y) <==> #[trigger] b(
        x,
        y,
    )) by {
        if a(x, y) {
            if line_prefix_cover(x0, y0, x1, y1, j)(x, y) {
                let k = choose|k: int|
                    0 <= k < j && #[trigger] line_point(x0, y0, x1, y1, k) == (x, y);
                assert(0 <= k < j + 1 && line_point(x0, y0, x1, y1, k) == (x, y));
            } else {
                assert((x, y) == (px, py));
                assert(0 <= j < j + 1 && line_point(x0, y0, x1, y1, j) == (x, y));
            }
        }
        if b(x, y) {
            let k = choose|k: int|
                0 <= k < j + 1 && #[trigger] line_point(x0, y0, x1, y1, k) == (x, y);
            if k < j {
                assert(line_prefix_cover(x0, y0, x1, y1, j)(x, y));
            } else {
                assert((x, y) == (px, py));
                assert(crate::canvas::point_cover(px, py)(x, y));
            }
        }
    }
    crate::canvas::lemma_painted_ext(c0, c2, a, b, color);
}

/// The prefix one past the primary delta is the whole line.
proof fn lemma_line_prefix_complete(
    c0: Canvas,
    c2: Canvas,
    color: u32,
    x0: int,
    y0: int,
    x1: int,
    y1: int,
)
    requires
        painted(
            c0,
            c2,
            line_prefix_cover(x0, y0, x1, y1, line_delta(x0, y0, x1, y1) + 1),
            color,
        ),
    ensures
        painted(c0, c2, line_cover(x0, y0, x1, y1), color),
{
    let d = line_delta(x0, y0, x1, y1);
    let a = line_prefix_cover(x0, y0, x1, y1, d + 1);
    let b = line_cover(x0, y0, x1, y1);
    assert forall|x: int, y: int| c0.in_x(x) && c0.in_y(y) implies (#[trigger] a(x, y) <==> #[trigger] b(
        x,
        y,
    )) by {
        if a(x, y) {
            let k = choose|k: int| 0 <= k < d + 1 && #[trigger] line_point(x0, y0, x1, y1, k) == (x, y);
            assert(line_points(x0, y0, x1, y1).contains((x, y)));
        }
        if b(x, y) {
            let k = choose|k: int|
                0 <= k <= d && (x, y) == #[trigger] line_point(x0, y0, x1, y1, k);
            assert(0 <= k < d + 1 && line_point(x0, y0, x1, y1, k) == (x, y));
        }
    }
    crate::canvas::lemma_painted_ext(c0, c2, a, b, color);
}

} // verus!
