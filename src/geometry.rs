use vstd::prelude::*;

verus! {

/// Sub-pixel units in one pixel: coordinates are fixed-point with three decimals.
pub const UNIT: i64 = 1000;

/// Scale of a direction or of a cosine and sine pair: `ONE` stands for 1.0.
pub const ONE: i64 = 1000000;

/// Largest magnitude a coordinate may take; results beyond it are clamped.
pub const COORD_LIMIT: i64 = 1099511627776;

/// A point or vector in field space, in sub-pixel units.
#[derive(Clone, Copy, Debug, PartialEq, Eq, Structural)]
pub struct Vec2 {
    pub x: i64,
    pub y: i64,
}

/// A rotation, given by its cosine and sine scaled by `ONE`.
#[derive(Clone, Copy, Debug, PartialEq, Eq, Structural)]
pub struct Turn {
    pub cos: i64,
    pub sin: i64,
}

pub open spec fn coord_ok(c: int) -> bool {
    -COORD_LIMIT <= c <= COORD_LIMIT
}

pub open spec fn point_ok(v: Vec2) -> bool {
    coord_ok(v.x as int) && coord_ok(v.y as int)
}

pub open spec fn points_ok(s: Seq<Vec2>) -> bool {
    forall|i: int| 0 <= i < s.len() ==> #[trigger] point_ok(s[i])
}

pub open spec fn turn_ok(t: Turn) -> bool {
    -ONE <= t.cos <= ONE && -ONE <= t.sin <= ONE
}

/// `c` brought into the coordinate range.
pub open spec fn clamp_coord(c: int) -> int {
    if c < -COORD_LIMIT {
        -COORD_LIMIT as int
    } else if c > COORD_LIMIT {
        COORD_LIMIT as int
    } else {
        c
    }
}

pub open spec fn sum_x(s: Seq<Vec2>) -> int
    decreases s.len(),
{
    if s.len() == 0 {
        0
    } else {
        sum_x(s.drop_last()) + s.last().x
    }
}

pub open spec fn sum_y(s: Seq<Vec2>) -> int
    decreases s.len(),
{
    if s.len() == 0 {
        0
    } else {
        sum_y(s.drop_last()) + s.last().y
    }
}

/// The arithmetic mean of the vertices, rounded down on each axis.
pub open spec fn centroid(s: Seq<Vec2>) -> (int, int) {
    (sum_x(s) / (s.len() as int), sum_y(s) / (s.len() as int))
}

impl Vec2 {
    pub fn new(x: i64, y: i64) -> (r: Vec2)
        ensures
            r.x == x,
            r.y == y,
    {
        Vec2 { x, y }
    }
}

/// Floor division by a positive divisor.
pub(crate) fn div_floor(a: i128, b: i128) -> (r: i128)
    requires
        b > 0,
    ensures
        r == a / b,
{
    proof {
        assert(a / b <= a || a / b <= 0) by (nonlinear_arith)
            requires b > 0;
        assert(a / b >= a || a / b >= 0) by (nonlinear_arith)
            requires b > 0;
    }
    match a.checked_div_euclid(b) {
        Some(q) => q,
        None => 0,
    }
}

pub(crate) fn clamp(c: i128) -> (r: i64)
    ensures
        r == clamp_coord(c as int),
{
    if c < -(COORD_LIMIT as i128) {
        -COORD_LIMIT
    } else if c > COORD_LIMIT as i128 {
        COORD_LIMIT
    } else {
        c as i64
    }
}

proof fn lemma_mean_in_range(sum: int, n: int)
    requires
        n > 0,
        -n * COORD_LIMIT <= sum <= n * COORD_LIMIT,
    ensures
        coord_ok(sum / n),
{
    assert(-COORD_LIMIT <= sum / n <= COORD_LIMIT) by (nonlinear_arith)
        requires
            n > 0,
            -n * COORD_LIMIT <= sum <= n * COORD_LIMIT,
    ;
}

/// The centroid of a polygon: the mean of its vertices, rounded down.
pub fn get_center(verts: &Vec<Vec2>) -> (r: Vec2)
    requires
        verts@.len() > 0,
        points_ok(verts@),
    ensures
        r.x == centroid(verts@).0,
        r.y == centroid(verts@).1,
        point_ok(r),
{
    let n = verts.len();
    let mut sx: i128 = 0;
    let mut sy: i128 = 0;
    let mut i: usize = 0;
    while i < n
        invariant
            n == verts@.len(),
            points_ok(verts@),
            i <= n,
            sx == sum_x(verts@.take(i as int)),
            sy == sum_y(verts@.take(i as int)),
            -(i as int) * COORD_LIMIT <= sx <= (i as int) * COORD_LIMIT,
            -(i as int) * COORD_LIMIT <= sy <= (i as int) * COORD_LIMIT,
        decreases n - i,
    {
        let v = verts[i];
        proof {
            assert(point_ok(verts@[i as int]));
            assert(verts@.take(i as int + 1).drop_last() =~= verts@.take(i as int));
        }
        sx = sx + v.x as i128;
        sy = sy + v.y as i128;
        i = i + 1;
    }
    proof {
        assert(verts@.take(n as int) =~= verts@);
        lemma_mean_in_range(sx as int, n as int);
        lemma_mean_in_range(sy as int, n as int);
    }
    let cx = div_floor(sx, n as i128);
    let cy = div_floor(sy, n as i128);
    Vec2 { x: cx as i64, y: cy as i64 }
}


/// The position of `v` after turning it by `t` about `(cx, cy)`, each axis rounded down.
pub open spec fn rotated(v: Vec2, cx: int, cy: int, t: Turn) -> Vec2 {
    let px = v.x - cx;
    let py = v.y - cy;
    Vec2 {
        x: clamp_coord(cx + (t.cos * px - t.sin * py) / (ONE as int)) as i64,
        y: clamp_coord(cy + (t.sin * px + t.cos * py) / (ONE as int)) as i64,
    }
}

/// The polygon turned by `t` about its own centroid.
pub open spec fn rotate_all(s: Seq<Vec2>, t: Turn) -> Seq<Vec2> {
    Seq::new(s.len(), |i: int| rotated(s[i], centroid(s).0, centroid(s).1, t))
}

/// Turns every vertex about the polygon's own centroid, computed first.
pub fn rotate(verts: &mut Vec<Vec2>, turn: Turn)
    requires
        old(verts)@.len() > 0,
        points_ok(old(verts)@),
        turn_ok(turn),
    ensures
        final(verts)@.len() == old(verts)@.len(),
        points_ok(final(verts)@),
        final(verts)@ == rotate_all(old(verts)@, turn),
{
    let origin = get_center(verts);
    let ghost c = centroid(old(verts)@);
    let n = verts.len();
    let mut i: usize = 0;
    while i < n
        invariant
            n == verts@.len(),
            n == old(verts)@.len(),
            i <= n,
            origin.x == c.0,
            origin.y == c.1,
            point_ok(origin),
            turn_ok(turn),
            points_ok(old(verts)@),
            forall|k: int| i <= k < n ==> verts@[k] == old(verts)@[k],
            forall|k: int|
                0 <= k < i ==> verts@[k] == #[trigger] rotated(old(verts)@[k], c.0, c.1, turn),
            forall|k: int| 0 <= k < i ==> #[trigger] point_ok(verts@[k]),
        decreases n - i,
    {
        let v = verts[i];
        proof {
            assert(point_ok(old(verts)@[i as int]));
        }
        let px = v.x as i128 - origin.x as i128;
        let py = v.y as i128 - origin.y as i128;
        let c = turn.cos as i128;
        let s = turn.sin as i128;
        proof {
            assert(-ONE * 2 * COORD_LIMIT <= c * px <= ONE * 2 * COORD_LIMIT) by (nonlinear_arith)
                requires
                    -ONE <= c <= ONE,
                    -2 * COORD_LIMIT <= px <= 2 * COORD_LIMIT,
            ;
            assert(-ONE * 2 * COORD_LIMIT <= s * py <= ONE * 2 * COORD_LIMIT) by (nonlinear_arith)
                requires
                    -ONE <= s <= ONE,
                    -2 * COORD_LIMIT <= py <= 2 * COORD_LIMIT,
            ;
            assert(-ONE * 2 * COORD_LIMIT <= s * px <= ONE * 2 * COORD_LIMIT) by (nonlinear_arith)
                requires
                    -ONE <= s <= ONE,
                    -2 * COORD_LIMIT <= px <= 2 * COORD_LIMIT,
            ;
            assert(-ONE * 2 * COORD_LIMIT <= c * py <= ONE * 2 * COORD_LIMIT) by (nonlinear_arith)
                requires
                    -ONE <= c <= ONE,
                    -2 * COORD_LIMIT <= py <= 2 * COORD_LIMIT,
            ;
        }
        let qx = div_floor(c * px - s * py, ONE as i128);
        let qy = div_floor(s * px + c * py, ONE as i128);
        let nx = clamp(origin.x as i128 + qx);
        let ny = clamp(origin.y as i128 + qy);
        verts.set(i, Vec2 { x: nx, y: ny });
        i = i + 1;
    }
    assert(verts@ =~= rotate_all(old(verts)@, turn));
}

/// `v` moved by `(dx, dy)`, clamped into the coordinate range.
pub open spec fn shifted(v: Vec2, dx: int, dy: int) -> Vec2 {
    Vec2 { x: clamp_coord(v.x + dx) as i64, y: clamp_coord(v.y + dy) as i64 }
}

/// Moves every vertex by `d`.
pub fn translate(verts: &mut Vec<Vec2>, d: Vec2)
    ensures
        final(verts)@.len() == old(verts)@.len(),
        points_ok(final(verts)@),
        forall|i: int|
            0 <= i < old(verts)@.len() ==> final(verts)@[i] == #[trigger] shifted(
                old(verts)@[i],
                d.x as int,
                d.y as int,
            ),
{
    let n = verts.len();
    let mut i: usize = 0;
    while i < n
        invariant
            n == verts@.len(),
            n == old(verts)@.len(),
            i <= n,
            forall|k: int| i <= k < n ==> verts@[k] == old(verts)@[k],
            forall|k: int|
                0 <= k < i ==> verts@[k] == #[trigger] shifted(old(verts)@[k], d.x as int, d.y as int),
            forall|k: int| 0 <= k < i ==> #[trigger] point_ok(verts@[k]),
        decreases n - i,
    {
        let v = verts[i];
        let nx = clamp(v.x as i128 + d.x as i128);
        let ny = clamp(v.y as i128 + d.y as i128);
        verts.set(i, Vec2 { x: nx, y: ny });
        i = i + 1;
    }
}

/// The integer square root: the largest `r` with `r * r <= n`.
pub open spec fn root(n: int) -> int
    decreases n,
{
    if n <= 0 {
        0
    } else {
        let r = root(n - 1);
        if (r + 1) * (r + 1) <= n {
            r + 1
        } else {
            r
        }
    }
}

pub proof fn lemma_root(n: int)
    requires
        n >= 0,
    ensures
        root(n) >= 0,
        root(n) * root(n) <= n < (root(n) + 1) * (root(n) + 1),
    decreases n,
{
    if n > 0 {
        lemma_root(n - 1);
        let r = root(n - 1);
        assert(n <= (r + 1) * (r + 1));
        if (r + 1) * (r + 1) <= n {
            assert(n < (r + 2) * (r + 2)) by (nonlinear_arith)
                requires
                    n <= (r + 1) * (r + 1),
                    r >= 0,
            ;
        }
    }
}

proof fn lemma_root_unique(n: int, a: int)
    requires
        n >= 0,
        a >= 0,
        a * a <= n < (a + 1) * (a + 1),
    ensures
        root(n) == a,
{
    lemma_root(n);
    let r = root(n);
    if r < a {
        assert((r + 1) * (r + 1) <= a * a) by (nonlinear_arith)
            requires
                0 <= r < a,
        ;
    } else if r > a {
        assert((a + 1) * (a + 1) <= r * r) by (nonlinear_arith)
            requires
                0 <= a < r,
        ;
    }
}

/// Integer square root of `n`, by bisection.
fn isqrt(n: u128) -> (r: u64)
    requires
        n < 0x1000000000000000000000000,
    ensures
        r == root(n as int),
{
    let mut lo: u128 = 0;
    let mut hi: u128 = 0x1000000000000;
    proof {
        assert(0x1000000000000000000000000 <= 0x1000000000000 * 0x1000000000000) by (nonlinear_arith);
    }
    while hi - lo > 1
        invariant
            lo < hi <= 0x1000000000000,
            lo * lo <= n,
            n < hi * hi,
        decreases hi - lo,
    {
        let mid = lo + (hi - lo) / 2;
        proof {
            assert(mid * mid <= 0x1000000000000 * 0x1000000000000) by (nonlinear_arith)
                requires
                    mid <= 0x1000000000000,
            ;
        }
        if mid * mid <= n {
            lo = mid;
        } else {
            hi = mid;
        }
    }
    proof {
        assert(hi == lo + 1);
        lemma_root_unique(n as int, lo as int);
    }
    lo as u64
}

/// The length of `(x, y)`, rounded down.
pub open spec fn norm(x: int, y: int) -> int {
    root(x * x + y * y)
}

pub proof fn lemma_norm_bounds(x: int, y: int)
    requires
        -2 * COORD_LIMIT <= x <= 2 * COORD_LIMIT,
        -2 * COORD_LIMIT <= y <= 2 * COORD_LIMIT,
    ensures
        0 <= x * x + y * y < 0x1000000000000000000000000,
        0 <= norm(x, y),
        -norm(x, y) <= x <= norm(x, y),
        -norm(x, y) <= y <= norm(x, y),
        norm(x, y) <= 4 * COORD_LIMIT,
{
    assert(0 <= x * x + y * y <= 8 * COORD_LIMIT * COORD_LIMIT) by (nonlinear_arith)
        requires
            -2 * COORD_LIMIT <= x <= 2 * COORD_LIMIT,
            -2 * COORD_LIMIT <= y <= 2 * COORD_LIMIT,
    ;
    let n = x * x + y * y;
    lemma_root(n);
    let m = root(n);
    assert(-m <= x <= m && -m <= y <= m && m <= 4 * COORD_LIMIT) by (nonlinear_arith)
        requires
            m >= 0,
            n == x * x + y * y,
            n < (m + 1) * (m + 1),
            m * m <= n,
            n <= 8 * COORD_LIMIT * COORD_LIMIT,
    ;
}

fn norm_exec(x: i64, y: i64) -> (r: i64)
    requires
        -2 * COORD_LIMIT <= x <= 2 * COORD_LIMIT,
        -2 * COORD_LIMIT <= y <= 2 * COORD_LIMIT,
    ensures
        r == norm(x as int, y as int),
        0 <= r <= 4 * COORD_LIMIT,
{
    proof {
        lemma_norm_bounds(x as int, y as int);
        assert(0 <= x * x <= 4 * COORD_LIMIT * COORD_LIMIT) by (nonlinear_arith)
            requires
                -2 * COORD_LIMIT <= x <= 2 * COORD_LIMIT,
        ;
        assert(0 <= y * y <= 4 * COORD_LIMIT * COORD_LIMIT) by (nonlinear_arith)
            requires
                -2 * COORD_LIMIT <= y <= 2 * COORD_LIMIT,
        ;
    }
    let xx = x as i128 * x as i128;
    let yy = y as i128 * y as i128;
    let r = isqrt((xx + yy) as u128);
    r as i64
}

impl Vec2 {
    /// The length of the vector, rounded down.
    pub fn magnitude(&self) -> (r: i64)
        requires
            point_ok(*self),
        ensures
            r == norm(self.x as int, self.y as int),
            r >= 0,
    {
        norm_exec(self.x, self.y)
    }
}

/// The direction from `from` to `to`, scaled to length `ONE` and rounded down;
/// `(ONE, 0)` where the two points coincide.
pub open spec fn unit_toward(from: Vec2, to: Vec2) -> Vec2 {
    let dx = to.x - from.x;
    let dy = to.y - from.y;
    let m = norm(dx, dy);
    if m == 0 {
        Vec2 { x: ONE, y: 0 }
    } else {
        Vec2 { x: (dx * ONE / m) as i64, y: (dy * ONE / m) as i64 }
    }
}

pub open spec fn direction_ok(h: Vec2) -> bool {
    -ONE <= h.x <= ONE && -ONE <= h.y <= ONE
}

proof fn lemma_scaled_unit(d: int, m: int)
    requires
        m > 0,
        -m <= d <= m,
    ensures
        -ONE <= d * ONE / m <= ONE,
{
    assert(-ONE <= d * ONE / m <= ONE) by (nonlinear_arith)
        requires
            m > 0,
            -m <= d <= m,
    ;
}

/// The unit direction from `from` towards `to`.
pub fn direction(from: Vec2, to: Vec2) -> (r: Vec2)
    requires
        point_ok(from),
        point_ok(to),
    ensures
        r == unit_toward(from, to),
        direction_ok(r),
{
    let dx = to.x - from.x;
    let dy = to.y - from.y;
    let m = norm_exec(dx, dy);
    proof {
        lemma_norm_bounds(dx as int, dy as int);
    }
    if m == 0 {
        Vec2 { x: ONE, y: 0 }
    } else {
        proof {
            lemma_scaled_unit(dx as int, m as int);
            lemma_scaled_unit(dy as int, m as int);
        }
        let hx = div_floor(dx as i128 * ONE as i128, m as i128);
        let hy = div_floor(dy as i128 * ONE as i128, m as i128);
        Vec2 { x: hx as i64, y: hy as i64 }
    }
}

/// Turning by the zero angle leaves every vertex where it was.
pub proof fn lemma_zero_turn_identity(s: Seq<Vec2>)
    requires
        s.len() > 0,
        points_ok(s),
    ensures
        rotate_all(s, Turn { cos: ONE, sin: 0 }) == s,
{
    let t = Turn { cos: ONE, sin: 0 };
    let c = centroid(s);
    assert forall|i: int| 0 <= i < s.len() implies #[trigger] rotate_all(s, t)[i] == s[i] by {
        assert(point_ok(s[i]));
        let px = s[i].x - c.0;
        let py = s[i].y - c.1;
        assert((ONE * px - 0 * py) / (ONE as int) == px) by (nonlinear_arith);
        assert((0 * px + ONE * py) / (ONE as int) == py) by (nonlinear_arith);
    }
    assert(rotate_all(s, t) =~= s);
}

/// The polygon turned by `t` about the fixed point `(cx, cy)`.
pub open spec fn rotate_about(s: Seq<Vec2>, cx: int, cy: int, t: Turn) -> Seq<Vec2> {
    Seq::new(s.len(), |i: int| rotated(s[i], cx, cy, t))
}

/// The x offset of the turned vertex from the turning point, before any clamping.
pub open spec fn turned_dx(v: Vec2, cx: int, cy: int, t: Turn) -> int {
    (t.cos * (v.x - cx) - t.sin * (v.y - cy)) / (ONE as int)
}

/// The y offset of the turned vertex from the turning point, before any clamping.
pub open spec fn turned_dy(v: Vec2, cx: int, cy: int, t: Turn) -> int {
    (t.sin * (v.x - cx) + t.cos * (v.y - cy)) / (ONE as int)
}

/// No turned vertex needs clamping.
pub open spec fn turn_unclamped(s: Seq<Vec2>, cx: int, cy: int, t: Turn) -> bool {
    forall|i: int|
        0 <= i < s.len() ==> coord_ok(cx + #[trigger] turned_dx(s[i], cx, cy, t)) && coord_ok(
            cy + turned_dy(s[i], cx, cy, t),
        )
}

proof fn lemma_floor_div_one(q: int)
    ensures
        q - ONE < ONE * (q / (ONE as int)) <= q,
{
    assert(q - ONE < ONE * (q / (ONE as int)) <= q) by (nonlinear_arith);
}

/// Summing the turned vertices: each is rounded down by less than one unit per axis.
proof fn lemma_turned_sums(s: Seq<Vec2>, cx: int, cy: int, t: Turn)
    requires
        turn_unclamped(s, cx, cy, t),
    ensures
        ({
            let n = s.len() as int;
            let ex = sum_x(s) - n * cx;
            let ey = sum_y(s) - n * cy;
            let r = rotate_about(s, cx, cy, t);
            &&& t.cos * ex - t.sin * ey - n * ONE <= ONE * (sum_x(r) - n * cx) <= t.cos * ex - t.sin * ey
            &&& t.sin * ex + t.cos * ey - n * ONE <= ONE * (sum_y(r) - n * cy) <= t.sin * ex + t.cos * ey
        }),
    decreases s.len(),
{
    let r = rotate_about(s, cx, cy, t);
    if s.len() > 0 {
        let p = s.drop_last();
        let v = s.last();
        let k = p.len() as int;
        assert(turn_unclamped(p, cx, cy, t)) by {
            assert forall|i: int| 0 <= i < p.len() implies coord_ok(cx + #[trigger] turned_dx(p[i], cx, cy, t))
                && coord_ok(cy + turned_dy(p[i], cx, cy, t)) by {
                assert(p[i] == s[i]);
                assert(coord_ok(cx + turned_dx(s[i], cx, cy, t)));
            }
        }
        lemma_turned_sums(p, cx, cy, t);
        assert(r.drop_last() =~= rotate_about(p, cx, cy, t));
        assert(v == s[k]);
        assert(coord_ok(cx + turned_dx(s[k], cx, cy, t)));
        let qx = t.cos * (v.x - cx) - t.sin * (v.y - cy);
        let qy = t.sin * (v.x - cx) + t.cos * (v.y - cy);
        assert(r.last() == r[k]);
        assert(r[k].x == cx + qx / (ONE as int));
        assert(r[k].y == cy + qy / (ONE as int));
        lemma_floor_div_one(qx);
        lemma_floor_div_one(qy);
        let epx = sum_x(p) - k * cx;
        let epy = sum_y(p) - k * cy;
        let ex = sum_x(s) - (k + 1) * cx;
        let ey = sum_y(s) - (k + 1) * cy;
        assert(ex == epx + (v.x - cx)) by (nonlinear_arith)
            requires
                ex == sum_x(s) - (k + 1) * cx,
                sum_x(s) == sum_x(p) + v.x,
                epx == sum_x(p) - k * cx,
        ;
        assert(ey == epy + (v.y - cy)) by (nonlinear_arith)
            requires
                ey == sum_y(s) - (k + 1) * cy,
                sum_y(s) == sum_y(p) + v.y,
                epy == sum_y(p) - k * cy,
        ;
        assert(t.cos * ex - t.sin * ey == (t.cos * epx - t.sin * epy) + qx) by (nonlinear_arith)
            requires
                ex == epx + (v.x - cx),
                ey == epy + (v.y - cy),
                qx == t.cos * (v.x - cx) - t.sin * (v.y - cy),
        ;
        assert(t.sin * ex + t.cos * ey == (t.sin * epx + t.cos * epy) + qy) by (nonlinear_arith)
            requires
                ex == epx + (v.x - cx),
                ey == epy + (v.y - cy),
                qy == t.sin * (v.x - cx) + t.cos * (v.y - cy),
        ;
        assert(sum_x(r) == sum_x(r.drop_last()) + r.last().x);
        assert(sum_y(r) == sum_y(r.drop_last()) + r.last().y);
        let rp = rotate_about(p, cx, cy, t);
        assert(sum_x(r.drop_last()) == sum_x(rp));
        assert(sum_y(r.drop_last()) == sum_y(rp));
        assert(t.cos * epx - t.sin * epy - k * ONE <= ONE * (sum_x(rp) - k * cx) <= t.cos * epx - t.sin
            * epy);
        assert(t.sin * epx + t.cos * epy - k * ONE <= ONE * (sum_y(rp) - k * cy) <= t.sin * epx + t.cos
            * epy);
        assert(ONE * (sum_x(r) - (k + 1) * cx) == ONE * (sum_x(r.drop_last()) - k * cx) + ONE * (
        qx / (ONE as int))) by (nonlinear_arith)
            requires
                sum_x(r) == sum_x(r.drop_last()) + cx + qx / (ONE as int),
        ;
        assert(ONE * (sum_y(r) - (k + 1) * cy) == ONE * (sum_y(r.drop_last()) - k * cy) + ONE * (
        qy / (ONE as int))) by (nonlinear_arith)
            requires
                sum_y(r) == sum_y(r.drop_last()) + cy + qy / (ONE as int),
        ;
        assert(t.cos * ex - t.sin * ey - (k + 1) * ONE <= ONE * (sum_x(r) - (k + 1) * cx) <= t.cos
            * ex - t.sin * ey);
        assert(t.sin * ex + t.cos * ey - (k + 1) * ONE <= ONE * (sum_y(r) - (k + 1) * cy) <= t.sin
            * ex + t.cos * ey);
        assert(s.len() as int == k + 1);
    } else {
        assert(r.len() == 0);
        assert(sum_x(s) == 0 && sum_y(s) == 0 && sum_x(r) == 0 && sum_y(r) == 0);
    }
}

proof fn lemma_mean_shift(c: int, e: int, sum_r: int, n: int)
    requires
        n > 0,
        0 <= e < n,
        -3 * n * ONE < ONE * (sum_r - n * c) < 2 * n * ONE,
    ensures
        c - 3 <= sum_r / n <= c + 2,
{
    assert(-3 * n < sum_r - n * c < 2 * n) by (nonlinear_arith)
        requires
            -3 * n * ONE < ONE * (sum_r - n * c) < 2 * n * ONE,
    ;
    assert(c - 3 <= sum_r / n <= c + 2) by (nonlinear_arith)
        requires
            n > 0,
            -3 * n < sum_r - n * c < 2 * n,
    ;
}

/// Turning a polygon about its centroid keeps the centroid, to within the rounding of
/// integer coordinates: it moves by at most three units on each axis. (Where a turned
/// vertex would leave the coordinate range and be clamped, this need not hold.)
pub proof fn lemma_turn_keeps_centroid(s: Seq<Vec2>, t: Turn)
    requires
        s.len() > 0,
        points_ok(s),
        turn_ok(t),
        turn_unclamped(s, centroid(s).0, centroid(s).1, t),
    ensures
        centroid(s).0 - 3 <= centroid(rotate_all(s, t)).0 <= centroid(s).0 + 2,
        centroid(s).1 - 3 <= centroid(rotate_all(s, t)).1 <= centroid(s).1 + 2,
{
    let n = s.len() as int;
    let cx = centroid(s).0;
    let cy = centroid(s).1;
    let r = rotate_all(s, t);
    assert(r =~= rotate_about(s, cx, cy, t));
    lemma_turned_sums(s, cx, cy, t);
    let ex = sum_x(s) - n * cx;
    let ey = sum_y(s) - n * cy;
    assert(0 <= ex < n && 0 <= ey < n) by (nonlinear_arith)
        requires
            n > 0,
            cx == sum_x(s) / n,
            cy == sum_y(s) / n,
            ex == sum_x(s) - n * cx,
            ey == sum_y(s) - n * cy,
    ;
    assert(-2 * n * ONE < t.cos * ex - t.sin * ey < 2 * n * ONE) by (nonlinear_arith)
        requires
            0 <= ex < n,
            0 <= ey < n,
            -ONE <= t.cos <= ONE,
            -ONE <= t.sin <= ONE,
    ;
    assert(-2 * n * ONE < t.sin * ex + t.cos * ey < 2 * n * ONE) by (nonlinear_arith)
        requires
            0 <= ex < n,
            0 <= ey < n,
            -ONE <= t.cos <= ONE,
            -ONE <= t.sin <= ONE,
    ;
    lemma_mean_shift(cx, ex, sum_x(r), n);
    lemma_mean_shift(cy, ey, sum_y(r), n);
}

/// The turn the other way: same cosine, opposite sine.
pub open spec fn inverse_turn(t: Turn) -> Turn {
    Turn { cos: t.cos, sin: (-t.sin) as i64 }
}

/// `t` is a rotation up to the rounding of its cosine and sine: `cos^2 + sin^2` lies within
/// `2 * ONE` of `ONE^2`.
pub open spec fn near_unit(t: Turn) -> bool {
    ONE * ONE - 2 * ONE <= t.cos * t.cos + t.sin * t.sin <= ONE * ONE + 2 * ONE
}

/// Largest distance, on each axis, of a vertex from its polygon's centroid for which the
/// round trip of a turn is bounded below: a thousand pixels.
pub const REACH: i64 = 1000000;

proof fn lemma_two_turns_vertex(dx: int, dy: int, c: int, sn: int, dlx: int, dly: int)
    requires
        -REACH <= dx <= REACH,
        -REACH <= dy <= REACH,
        -ONE <= c <= ONE,
        -ONE <= sn <= ONE,
        ONE * ONE - 2 * ONE <= c * c + sn * sn <= ONE * ONE + 2 * ONE,
        -3 <= dlx <= 3,
        -3 <= dly <= 3,
    ensures
        ({
            let ex = (c * dx - sn * dy) / (ONE as int) - dlx;
            let ey = (sn * dx + c * dy) / (ONE as int) - dly;
            &&& -16 <= dlx + (c * ex + sn * ey) / (ONE as int) - dx <= 16
            &&& -16 <= dly + (-sn * ex + c * ey) / (ONE as int) - dy <= 16
        }),
{
    let o = ONE as int;
    let q1x = c * dx - sn * dy;
    let q1y = sn * dx + c * dy;
    let r1x = q1x % o;
    let r1y = q1y % o;
    lemma_floor_div_one(q1x);
    lemma_floor_div_one(q1y);
    assert(o * (q1x / o) == q1x - r1x && 0 <= r1x < o) by (nonlinear_arith)
        requires
            o == ONE,
            r1x == q1x % o,
    ;
    assert(o * (q1y / o) == q1y - r1y && 0 <= r1y < o) by (nonlinear_arith)
        requires
            o == ONE,
            r1y == q1y % o,
    ;
    let fx = q1x / o;
    let fy = q1y / o;
    let ex = fx - dlx;
    let ey = fy - dly;
    let k = c * c + sn * sn;
    let q2x = c * ex + sn * ey;
    let q2y = -sn * ex + c * ey;
    assert(c * q1x + sn * q1y == k * dx) by (nonlinear_arith)
        requires
            q1x == c * dx - sn * dy,
            q1y == sn * dx + c * dy,
            k == c * c + sn * sn,
    ;
    assert(-sn * q1x + c * q1y == k * dy) by (nonlinear_arith)
        requires
            q1x == c * dx - sn * dy,
            q1y == sn * dx + c * dy,
            k == c * c + sn * sn,
    ;
    let oex = o * ex;
    let oey = o * ey;
    assert(oex == q1x - r1x - o * dlx) by (nonlinear_arith)
        requires
            oex == o * ex,
            ex == fx - dlx,
            o * fx == q1x - r1x,
    ;
    assert(oey == q1y - r1y - o * dly) by (nonlinear_arith)
        requires
            oey == o * ey,
            ey == fy - dly,
            o * fy == q1y - r1y,
    ;
    assert(o * q2x == c * oex + sn * oey) by (nonlinear_arith)
        requires
            q2x == c * ex + sn * ey,
            oex == o * ex,
            oey == o * ey,
    ;
    assert(o * q2y == -sn * oex + c * oey) by (nonlinear_arith)
        requires
            q2y == -sn * ex + c * ey,
            oex == o * ex,
            oey == o * ey,
    ;
    assert(c * oex + sn * oey == (c * q1x + sn * q1y) - (c * r1x + sn * r1y) - o * (c * dlx + sn
        * dly)) by (nonlinear_arith)
        requires
            oex == q1x - r1x - o * dlx,
            oey == q1y - r1y - o * dly,
    ;
    assert(-sn * oex + c * oey == (-sn * q1x + c * q1y) - (-sn * r1x + c * r1y) - o * (-sn * dlx
        + c * dly)) by (nonlinear_arith)
        requires
            oex == q1x - r1x - o * dlx,
            oey == q1y - r1y - o * dly,
    ;
    assert(o * q2x == k * dx - (c * r1x + sn * r1y) - o * (c * dlx + sn * dly));
    assert(o * q2y == k * dy - (-sn * r1x + c * r1y) - o * (-sn * dlx + c * dly));
    assert(-2 * o * REACH <= (k - o * o) * dx <= 2 * o * REACH && -2 * o * REACH <= (k - o * o) * dy
        <= 2 * o * REACH) by (nonlinear_arith)
        requires
            o * o - 2 * o <= k <= o * o + 2 * o,
            -REACH <= dx <= REACH,
            -REACH <= dy <= REACH,
            o == ONE,
    ;
    assert(-2 * o * o <= c * r1x + sn * r1y <= 2 * o * o && -2 * o * o <= -sn * r1x + c * r1y <= 2 * o
        * o) by (nonlinear_arith)
        requires
            0 <= r1x < o,
            0 <= r1y < o,
            -o <= c <= o,
            -o <= sn <= o,
    ;
    assert(-6 * o <= c * dlx + sn * dly <= 6 * o && -6 * o <= -sn * dlx + c * dly <= 6 * o)
        by (nonlinear_arith)
        requires
            -3 <= dlx <= 3,
            -3 <= dly <= 3,
            -o <= c <= o,
            -o <= sn <= o,
    ;
    lemma_floor_div_one(q2x);
    lemma_floor_div_one(q2y);
    assert(-16 * o * o <= o * o * (dlx + q2x / o - dx) <= 16 * o * o) by (nonlinear_arith)
        requires
            o * q2x == k * dx - (c * r1x + sn * r1y) - o * (c * dlx + sn * dly),
            -2 * o * REACH <= (k - o * o) * dx <= 2 * o * REACH,
            -2 * o * o <= c * r1x + sn * r1y <= 2 * o * o,
            -6 * o <= c * dlx + sn * dly <= 6 * o,
            q2x - o < o * (q2x / o) <= q2x,
            -3 <= dlx <= 3,
            o == ONE,
            REACH == ONE,
    ;
    assert(-16 * o * o <= o * o * (dly + q2y / o - dy) <= 16 * o * o) by (nonlinear_arith)
        requires
            o * q2y == k * dy - (-sn * r1x + c * r1y) - o * (-sn * dlx + c * dly),
            -2 * o * REACH <= (k - o * o) * dy <= 2 * o * REACH,
            -2 * o * o <= -sn * r1x + c * r1y <= 2 * o * o,
            -6 * o <= -sn * dlx + c * dly <= 6 * o,
            q2y - o < o * (q2y / o) <= q2y,
            -3 <= dly <= 3,
            o == ONE,
            REACH == ONE,
    ;
    assert(-16 <= dlx + q2x / o - dx <= 16) by (nonlinear_arith)
        requires
            -16 * o * o <= o * o * (dlx + q2x / o - dx) <= 16 * o * o,
            o == ONE,
    ;
    assert(-16 <= dly + q2y / o - dy <= 16) by (nonlinear_arith)
        requires
            -16 * o * o <= o * o * (dly + q2y / o - dy) <= 16 * o * o,
            o == ONE,
    ;
}

/// Turning a polygon by `t` and then back by the inverse turn returns every vertex to
/// within 16 units (0.016 pixels) of where it was, for a turn that is a rotation up to
/// rounding and a polygon whose vertices lie within `REACH` of its centroid. (Where a
/// turned vertex would leave the coordinate range and be clamped, this need not hold.)
pub proof fn lemma_turn_round_trip(s: Seq<Vec2>, t: Turn)
    requires
        s.len() > 0,
        points_ok(s),
        turn_ok(t),
        near_unit(t),
        forall|i: int|
            0 <= i < s.len() ==> -REACH <= #[trigger] s[i].x - centroid(s).0 <= REACH && -REACH <= s[i].y
                - centroid(s).1 <= REACH,
        turn_unclamped(s, centroid(s).0, centroid(s).1, t),
        turn_unclamped(
            rotate_all(s, t),
            centroid(rotate_all(s, t)).0,
            centroid(rotate_all(s, t)).1,
            inverse_turn(t),
        ),
    ensures
        rotate_all(rotate_all(s, t), inverse_turn(t)).len() == s.len(),
        forall|i: int|
            0 <= i < s.len() ==> -16 <= #[trigger] rotate_all(rotate_all(s, t), inverse_turn(t))[i].x
                - s[i].x <= 16 && -16 <= rotate_all(rotate_all(s, t), inverse_turn(t))[i].y - s[i].y
                <= 16,
{
    let c = centroid(s);
    let s1 = rotate_all(s, t);
    let c1 = centroid(s1);
    let u = inverse_turn(t);
    let s2 = rotate_all(s1, u);
    lemma_turn_keeps_centroid(s, t);
    assert forall|i: int| 0 <= i < s.len() implies -16 <= #[trigger] s2[i].x - s[i].x <= 16 && -16
        <= s2[i].y - s[i].y <= 16 by {
        let v = s[i];
        let dx = v.x - c.0;
        let dy = v.y - c.1;
        assert(-REACH <= s[i].x - c.0 <= REACH && -REACH <= s[i].y - c.1 <= REACH);
        assert(coord_ok(c.0 + turned_dx(s[i], c.0, c.1, t)));
        let w = s1[i];
        assert(w.x == c.0 + (t.cos * dx - t.sin * dy) / (ONE as int));
        assert(w.y == c.1 + (t.sin * dx + t.cos * dy) / (ONE as int));
        assert(coord_ok(c1.0 + turned_dx(s1[i], c1.0, c1.1, u)));
        let ex = w.x - c1.0;
        let ey = w.y - c1.1;
        assert(u.sin == -t.sin);
        assert(u.cos * ex - u.sin * ey == t.cos * ex + t.sin * ey) by (nonlinear_arith)
            requires
                u.sin == -t.sin,
                u.cos == t.cos,
        ;
        assert(u.sin * ex + u.cos * ey == -t.sin * ex + t.cos * ey) by (nonlinear_arith)
            requires
                u.sin == -t.sin,
                u.cos == t.cos,
        ;
        assert(s2[i].x == c1.0 + (t.cos * ex + t.sin * ey) / (ONE as int));
        assert(s2[i].y == c1.1 + (-t.sin * ex + t.cos * ey) / (ONE as int));
        lemma_two_turns_vertex(dx, dy, t.cos as int, t.sin as int, c1.0 - c.0, c1.1 - c.1);
    }
}

/// A coordinate in whole pixels, rounded down and held to the `i16` range.
pub open spec fn pixel(c: int) -> int {
    let p = c / (UNIT as int);
    if p < i16::MIN {
        i16::MIN as int
    } else if p > i16::MAX {
        i16::MAX as int
    } else {
        p
    }
}

fn pixel_exec(c: i64) -> (r: i16)
    ensures
        r == pixel(c as int),
{
    let p = div_floor(c as i128, UNIT as i128);
    if p < i16::MIN as i128 {
        i16::MIN
    } else if p > i16::MAX as i128 {
        i16::MAX
    } else {
        p as i16
    }
}

/// The outline in whole pixels, as the separate x and y lists a polygon renderer takes.
pub fn convert_to_xy_vec(verts: &Vec<Vec2>) -> (r: (Vec<i16>, Vec<i16>))
    ensures
        r.0@.len() == verts@.len(),
        r.1@.len() == verts@.len(),
        forall|i: int| 0 <= i < verts@.len() ==> #[trigger] r.0@[i] == pixel(verts@[i].x as int),
        forall|i: int| 0 <= i < verts@.len() ==> #[trigger] r.1@[i] == pixel(verts@[i].y as int),
{
    let mut xs: Vec<i16> = Vec::new();
    let mut ys: Vec<i16> = Vec::new();
    let mut i: usize = 0;
    while i < verts.len()
        invariant
            i <= verts@.len(),
            xs@.len() == i,
            ys@.len() == i,
            forall|k: int| 0 <= k < i ==> #[trigger] xs@[k] == pixel(verts@[k].x as int),
            forall|k: int| 0 <= k < i ==> #[trigger] ys@[k] == pixel(verts@[k].y as int),
        decreases verts@.len() - i,
    {
        let v = verts[i];
        let ghost xs0 = xs@;
        let ghost ys0 = ys@;
        xs.push(pixel_exec(v.x));
        ys.push(pixel_exec(v.y));
        proof {
            assert forall|k: int| 0 <= k < i + 1 implies #[trigger] xs@[k] == pixel(verts@[k].x as int) by {
                if k < i {
                    assert(xs@[k] == xs0[k]);
                }
            }
            assert forall|k: int| 0 <= k < i + 1 implies #[trigger] ys@[k] == pixel(verts@[k].y as int) by {
                if k < i {
                    assert(ys@[k] == ys0[k]);
                }
            }
        }
        i = i + 1;
    }
    (xs, ys)
}

} // verus!
