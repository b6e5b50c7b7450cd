use vstd::prelude::*;
use crate::geometry::{Vec2, ONE, direction, direction_ok, lemma_norm_bounds, lemma_root, root, unit_toward};

verus! {

/// `h` has length `ONE` up to rounding: its squared length is within a few `ONE` of `ONE^2`.
pub open spec fn near_unit_heading(h: Vec2) -> bool {
    ONE * ONE - 4 * ONE <= h.x * h.x + h.y * h.y <= ONE * ONE + 8 * ONE + 6
}

/// `(x, y)` lies in the ring between radii `ONE / 2` (excluded; its square is written out)
/// and `ONE` (included).
pub open spec fn in_heading_ring(x: int, y: int) -> bool {
    250000000000 < x * x + y * y <= ONE * ONE
}

proof fn lemma_floor_scaled(d: int, m: int) -> (e: int)
    requires
        m > 0,
    ensures
        e == d * ONE - m * (d * ONE / m),
        0 <= e < m,
{
    let q = d * ONE / m;
    assert(0 <= d * ONE - m * q < m) by (nonlinear_arith)
        requires
            m > 0,
            q == d * ONE / m,
    ;
    d * ONE - m * q
}

/// The direction towards a point of the heading ring has length `ONE` up to rounding.
pub proof fn lemma_ring_direction_near_unit(x: int, y: int)
    requires
        in_heading_ring(x, y),
        -ONE <= x <= ONE,
        -ONE <= y <= ONE,
    ensures
        near_unit_heading(unit_toward(Vec2 { x: 0, y: 0 }, Vec2 { x: x as i64, y: y as i64 })),
{
    let n = x * x + y * y;
    lemma_norm_bounds(x, y);
    lemma_root(n);
    let m = root(n);
    assert(m >= 500000) by (nonlinear_arith)
        requires
            n < (m + 1) * (m + 1),
            n > 250000000000,
            m >= 0,
    ;
    let hx = x * ONE / m;
    let hy = y * ONE / m;
    let ex = lemma_floor_scaled(x, m);
    let ey = lemma_floor_scaled(y, m);
    assert(-ONE <= hx <= ONE && -ONE <= hy <= ONE) by (nonlinear_arith)
        requires
            m > 0,
            -m <= x <= m,
            -m <= y <= m,
            hx == x * ONE / m,
            hy == y * ONE / m,
    ;
    let u = unit_toward(Vec2 { x: 0, y: 0 }, Vec2 { x: x as i64, y: y as i64 });
    assert(u.x == hx && u.y == hy);
    let h = hx * hx + hy * hy;
    let ax = m * hx;
    let ay = m * hy;
    assert(m * m * h == ax * ax + ay * ay) by (nonlinear_arith)
        requires
            ax == m * hx,
            ay == m * hy,
            h == hx * hx + hy * hy,
    ;
    assert(ax * ax + ay * ay == ONE * ONE * n - 2 * ONE * (x * ex + y * ey) + ex * ex + ey * ey)
        by (nonlinear_arith)
        requires
            ax == x * ONE - ex,
            ay == y * ONE - ey,
            n == x * x + y * y,
    ;
    assert(-m * m <= x * ex <= m * m && -m * m <= y * ey <= m * m) by (nonlinear_arith)
        requires
            -m <= x <= m,
            -m <= y <= m,
            0 <= ex < m,
            0 <= ey < m,
    ;
    assert(0 <= ex * ex + ey * ey <= 2 * m * m) by (nonlinear_arith)
        requires
            0 <= ex < m,
            0 <= ey < m,
    ;
    assert(ONE * ONE * m * m <= ONE * ONE * n <= ONE * ONE * (m + 1) * (m + 1)) by (nonlinear_arith)
        requires
            m * m <= n < (m + 1) * (m + 1),
    ;
    assert(m * m * h >= m * m * (ONE * ONE - 4 * ONE)) by (nonlinear_arith)
        requires
            m * m * h == ONE * ONE * n - 2 * ONE * (x * ex + y * ey) + ex * ex + ey * ey,
            -m * m <= x * ex <= m * m,
            -m * m <= y * ey <= m * m,
            0 <= ex * ex + ey * ey,
            ONE * ONE * m * m <= ONE * ONE * n,
    ;
    assert(ONE * ONE * (m + 1) * (m + 1) + 4 * ONE * m * m + 2 * m * m <= m * m * (ONE * ONE + 8
        * ONE + 6)) by (nonlinear_arith)
        requires
            m >= 500000,
    ;
    assert(m * m * h <= m * m * (ONE * ONE + 8 * ONE + 6)) by (nonlinear_arith)
        requires
            m * m * h == ONE * ONE * n - 2 * ONE * (x * ex + y * ey) + ex * ex + ey * ey,
            -m * m <= x * ex <= m * m,
            -m * m <= y * ey <= m * m,
            ex * ex + ey * ey <= 2 * m * m,
            ONE * ONE * n <= ONE * ONE * (m + 1) * (m + 1),
            ONE * ONE * (m + 1) * (m + 1) + 4 * ONE * m * m + 2 * m * m <= m * m * (ONE * ONE + 8
                * ONE + 6),
    ;
    assert(ONE * ONE - 4 * ONE <= h <= ONE * ONE + 8 * ONE + 6) by (nonlinear_arith)
        requires
            m > 0,
            m * m * h >= m * m * (ONE * ONE - 4 * ONE),
            m * m * h <= m * m * (ONE * ONE + 8 * ONE + 6),
    ;
}

/// The heading a drawn point `(x, y)` of the square `[-ONE, ONE]^2` gives: the direction
/// towards it where it lies in the heading ring, which makes every direction as likely;
/// else none, and another point is to be drawn.
pub fn heading_from_draw(x: i64, y: i64) -> (r: Option<Vec2>)
    requires
        -ONE <= x <= ONE,
        -ONE <= y <= ONE,
    ensures
        r == if in_heading_ring(x as int, y as int) {
            Some(unit_toward(Vec2 { x: 0, y: 0 }, Vec2 { x, y }))
        } else {
            None::<Vec2>
        },
        r matches Some(h) ==> near_unit_heading(h) && direction_ok(h),
{
    proof {
        assert(0 <= x * x <= ONE * ONE) by (nonlinear_arith)
            requires
                -ONE <= x <= ONE,
        ;
        assert(0 <= y * y <= ONE * ONE) by (nonlinear_arith)
            requires
                -ONE <= y <= ONE,
        ;
    }
    let q = x as i128 * x as i128 + y as i128 * y as i128;
    let half: i128 = 500000;
    if half * half < q && q <= ONE as i128 * ONE as i128 {
        proof {
            lemma_ring_direction_near_unit(x as int, y as int);
        }
        Some(direction(Vec2 { x: 0, y: 0 }, Vec2 { x, y }))
    } else {
        None
    }
}

} // verus!
