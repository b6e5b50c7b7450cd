use vstd::prelude::*;
use crate::geometry::{Vec2, point_ok, points_ok, COORD_LIMIT};

verus! {

/// Whether the horizontal ray from `p` towards larger x crosses the edge from `a` to `b`:
/// the edge straddles `p.y` and meets that line strictly to the right of `p`.
pub open spec fn crosses(a: Vec2, b: Vec2, p: Vec2) -> bool {
    &&& (a.y > p.y) != (b.y > p.y)
    &&& if b.y > a.y {
        (p.x - a.x) * (b.y - a.y) < (b.x - a.x) * (p.y - a.y)
    } else {
        (p.x - a.x) * (b.y - a.y) > (b.x - a.x) * (p.y - a.y)
    }
}

/// Index of the vertex before `k`, wrapping round.
pub open spec fn prev(n: int, k: int) -> int {
    if k == 0 {
        n - 1
    } else {
        k - 1
    }
}

/// How many of the edges `(k, prev(k))`, for `k < upto`, the ray from `p` crosses.
pub open spec fn crossings(s: Seq<Vec2>, p: Vec2, upto: int) -> int
    decreases upto,
{
    if upto <= 0 {
        0
    } else {
        crossings(s, p, upto - 1) + if crosses(s[upto - 1], s[prev(s.len() as int, upto - 1)], p) {
            1int
        } else {
            0int
        }
    }
}

/// The even-odd rule: `p` is inside when the ray crosses the boundary an odd number of times.
pub open spec fn inside(s: Seq<Vec2>, p: Vec2) -> bool {
    crossings(s, p, s.len() as int) % 2 == 1
}

fn edge_crossed(a: Vec2, b: Vec2, p: Vec2) -> (r: bool)
    requires
        point_ok(a),
        point_ok(b),
        point_ok(p),
    ensures
        r == crosses(a, b, p),
{
    if (a.y > p.y) == (b.y > p.y) {
        return false;
    }
    let lx = p.x as i128 - a.x as i128;
    let ey = b.y as i128 - a.y as i128;
    let ex = b.x as i128 - a.x as i128;
    let ly = p.y as i128 - a.y as i128;
    proof {
        assert(-4 * COORD_LIMIT * COORD_LIMIT <= lx * ey <= 4 * COORD_LIMIT * COORD_LIMIT)
            by (nonlinear_arith)
            requires
                -2 * COORD_LIMIT <= lx <= 2 * COORD_LIMIT,
                -2 * COORD_LIMIT <= ey <= 2 * COORD_LIMIT,
        ;
        assert(-4 * COORD_LIMIT * COORD_LIMIT <= ex * ly <= 4 * COORD_LIMIT * COORD_LIMIT)
            by (nonlinear_arith)
            requires
                -2 * COORD_LIMIT <= ex <= 2 * COORD_LIMIT,
                -2 * COORD_LIMIT <= ly <= 2 * COORD_LIMIT,
        ;
    }
    if b.y > a.y {
        lx * ey < ex * ly
    } else {
        lx * ey > ex * ly
    }
}

/// Even-odd point-in-polygon test; a point on an edge may fall either way, the same way each time.
pub fn point_in_polygon(verts: &Vec<Vec2>, point: &Vec2) -> (r: bool)
    requires
        points_ok(verts@),
        point_ok(*point),
    ensures
        r == inside(verts@, *point),
{
    let n = verts.len();
    if n == 0 {
        return false;
    }
    let mut collision = false;
    let mut j: usize = n - 1;
    let mut i: usize = 0;
    while i < n
        invariant
            n == verts@.len(),
            n > 0,
            i <= n,
            points_ok(verts@),
            point_ok(*point),
            j == prev(n as int, i as int),
            i < n ==> j < n,
            collision == (crossings(verts@, *point, i as int) % 2 == 1),
        decreases n - i,
    {
        proof {
            assert(point_ok(verts@[i as int]));
            assert(point_ok(verts@[j as int]));
        }
        if edge_crossed(verts[i], verts[j], *point) {
            collision = !collision;
        }
        j = i;
        i = i + 1;
    }
    collision
}

} // verus!
