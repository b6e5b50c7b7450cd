use vstd::prelude::*;
use crate::geometry::{
    Vec2, ONE, UNIT, centroid, clamp, clamp_coord, direction, direction_ok, div_floor, get_center,
    point_ok, unit_toward,
};
use crate::collision::{inside, point_in_polygon};
use crate::random::random_in;
use crate::heading::{heading_from_draw, near_unit_heading};
use crate::wrap::{Body, FIELD_PIXELS, MID_SIZE, SIZE, shift_all};

verus! {

/// Vertices of every asteroid outline.
pub const ASTEROID_VERTS: usize = 20;

/// Asteroids in a fresh field.
pub const ASTEROID_COUNT: usize = 3;

/// Asteroids a round restarts with once the field is cleared.
pub const RESPAWN_COUNT: usize = 2;

/// Most asteroids that ambient spawning brings the field to.
pub const MAX_ASTEROIDS: usize = 11;

/// Radius range, in pixels, of a full-size asteroid.
pub const BIG_MIN_R: u16 = 40;
pub const BIG_MAX_R: u16 = 100;

/// Radius range, in pixels, of a fragment.
pub const SMALL_MIN_R: u16 = 20;
pub const SMALL_MAX_R: u16 = 50;

/// Lowest drift speed on each axis, in sub-pixels per tick.
pub const SPEED_MIN: i64 = 1000;

/// Upper bound (exclusive) of the drift speed at the start of a session.
pub const SPEED_MAX_START: i64 = 1700;

/// What each split adds to the upper bound of the drift speed.
pub const SPEED_STEP: i64 = 100;

/// The session's difficulty: drift speeds are drawn below `speed_max`, which grows
/// with every split.
#[derive(Clone, Copy, Debug, PartialEq, Eq, Structural)]
pub struct Difficulty {
    pub speed_max: i64,
}

/// The bound after one more split; it stops only at the largest `i64`.
pub open spec fn escalated(speed_max: int) -> int {
    if speed_max <= i64::MAX - SPEED_STEP {
        speed_max + SPEED_STEP
    } else {
        speed_max
    }
}

impl Difficulty {
    pub open spec fn wf(&self) -> bool {
        self.speed_max > SPEED_MIN
    }

    pub fn new() -> (r: Difficulty)
        ensures
            r.wf(),
            r.speed_max == SPEED_MAX_START,
    {
        Difficulty { speed_max: SPEED_MAX_START }
    }

    pub fn escalate(&mut self)
        requires
            old(self).wf(),
        ensures
            final(self).wf(),
            final(self).speed_max == escalated(old(self).speed_max as int),
    {
        if self.speed_max <= i64::MAX - SPEED_STEP {
            self.speed_max = self.speed_max + SPEED_STEP;
        }
    }
}

/// Sine of `m` steps of 18 degrees, for `m` from 0 to 5, scaled by `ONE`.
pub open spec fn sine_step(m: int) -> int {
    if m == 0 {
        0
    } else if m == 1 {
        309017
    } else if m == 2 {
        587785
    } else if m == 3 {
        809017
    } else if m == 4 {
        951057
    } else {
        1000000
    }
}

/// `(sin, cos)` of the angle of outline vertex `i`, `i * 2 pi / ASTEROID_VERTS`, scaled by `ONE`.
pub open spec fn rim(i: int) -> Vec2 {
    let q = i / 5;
    let m = i % 5;
    if q == 0 {
        Vec2 { x: sine_step(m) as i64, y: sine_step(5 - m) as i64 }
    } else if q == 1 {
        Vec2 { x: sine_step(5 - m) as i64, y: -sine_step(m) as i64 }
    } else if q == 2 {
        Vec2 { x: -sine_step(m) as i64, y: -sine_step(5 - m) as i64 }
    } else {
        Vec2 { x: -sine_step(5 - m) as i64, y: sine_step(m) as i64 }
    }
}

fn sine_step_exec(m: usize) -> (r: i64)
    requires
        m <= 5,
    ensures
        r == sine_step(m as int),
{
    if m == 0 {
        0
    } else if m == 1 {
        309017
    } else if m == 2 {
        587785
    } else if m == 3 {
        809017
    } else if m == 4 {
        951057
    } else {
        1000000
    }
}

fn rim_direction(i: usize) -> (r: Vec2)
    requires
        i < ASTEROID_VERTS,
    ensures
        r == rim(i as int),
        direction_ok(r),
{
    let q = i / 5;
    let m = i % 5;
    let s = sine_step_exec(m);
    let c = sine_step_exec(5 - m);
    if q == 0 {
        Vec2 { x: s, y: c }
    } else if q == 1 {
        Vec2 { x: c, y: -s }
    } else if q == 2 {
        Vec2 { x: -s, y: -c }
    } else {
        Vec2 { x: -c, y: s }
    }
}

/// Outline vertex `i` of a rock of radius `r` pixels around `center`.
pub open spec fn rock_vertex(center: Vec2, i: int, r: int) -> Vec2 {
    Vec2 {
        x: clamp_coord(center.x + (r * UNIT * rim(i).x) / (ONE as int)) as i64,
        y: clamp_coord(center.y + (r * UNIT * rim(i).y) / (ONE as int)) as i64,
    }
}

/// `s` is a rock outline around `center`: each vertex at its own angle, at a radius
/// drawn from `[min_r, max_r)`.
pub open spec fn is_rock(s: Seq<Vec2>, center: Vec2, min_r: int, max_r: int) -> bool {
    &&& s.len() == ASTEROID_VERTS
    &&& forall|i: int| 0 <= i < s.len() ==> #[trigger] vertex_on_rock(s[i], center, i, min_r, max_r)
}

/// `v` is outline vertex `i` of a rock around `center` for some radius in `[min_r, max_r)`.
pub open spec fn vertex_on_rock(v: Vec2, center: Vec2, i: int, min_r: int, max_r: int) -> bool {
    exists|r: int| min_r <= r < max_r && v == #[trigger] rock_vertex(center, i, r)
}

/// A point on the edge of the field.
pub open spec fn on_edge(p: Vec2) -> bool {
    ||| (p.x == 0 || p.x == SIZE) && 0 <= p.y < SIZE
    ||| (p.y == 0 || p.y == SIZE) && 0 <= p.x < SIZE
}

pub open spec fn center_point(s: Seq<Vec2>) -> Vec2 {
    Vec2 { x: centroid(s).0 as i64, y: centroid(s).1 as i64 }
}

/// The centre of the field.
pub open spec fn field_center() -> Vec2 {
    Vec2 { x: MID_SIZE, y: MID_SIZE }
}

/// A drifting rock.
pub struct Asteroid {
    pub body: Body,
    /// Drift speed on each axis, in sub-pixels per tick.
    pub vel: Vec2,
    /// Unit heading, scaled by `ONE`.
    pub heading: Vec2,
    /// Whether this rock is a fragment of a larger one.
    pub divided: bool,
}

/// A newly generated rock around `center` with radii in `[min_r, max_r)`, its ghost on
/// top of it, heading for the field's centre, with drift speeds drawn below `speed_max`.
pub open spec fn spawned(a: Asteroid, center: Vec2, min_r: int, max_r: int, speed_max: int) -> bool {
    &&& a.wf()
    &&& is_rock(a.body.verts@, center, min_r, max_r)
    &&& a.body.ghost_verts@ == a.body.verts@
    &&& a.heading == unit_toward(center_point(a.body.verts@), field_center())
    &&& SPEED_MIN <= a.vel.x < speed_max
    &&& SPEED_MIN <= a.vel.y < speed_max
    &&& !a.divided
}

/// A full-size rock that entered at some point of the field's edge.
pub open spec fn full_size_at_edge(a: Asteroid, speed_max: int) -> bool {
    exists|c: Vec2| on_edge(c) && #[trigger] spawned(a, c, BIG_MIN_R as int, BIG_MAX_R as int, speed_max)
}

/// A fragment generated around `center`, with its own random heading of unit length up to
/// rounding.
pub open spec fn fragment_at(a: Asteroid, center: Vec2, speed_max: int) -> bool {
    &&& a.wf()
    &&& is_rock(a.body.verts@, center, SMALL_MIN_R as int, SMALL_MAX_R as int)
    &&& a.body.ghost_verts@ == a.body.verts@
    &&& SPEED_MIN <= a.vel.x < speed_max
    &&& SPEED_MIN <= a.vel.y < speed_max
    &&& near_unit_heading(a.heading)
    &&& a.divided
}

/// How far a rock drifts in one tick: the speed on each axis times the cosine and the
/// sine of the heading respectively, rounded down.
pub open spec fn drift(vel: Vec2, heading: Vec2) -> Vec2 {
    Vec2 { x: (vel.x * heading.x / (ONE as int)) as i64, y: (vel.y * heading.y / (ONE as int)) as i64 }
}

pub open spec fn all_wf(s: Seq<Asteroid>) -> bool {
    forall|i: int| 0 <= i < s.len() ==> #[trigger] s[i].wf()
}

impl Asteroid {
    pub open spec fn wf(&self) -> bool {
        &&& self.body.wf()
        &&& self.body.verts@.len() == ASTEROID_VERTS
        &&& direction_ok(self.heading)
        &&& self.vel.x >= 0
        &&& self.vel.y >= 0
    }

    pub fn get_verts(&self) -> (r: &Vec<Vec2>)
        ensures
            r@ == self.body.verts@,
    {
        &self.body.verts
    }

    pub fn get_ghost_verts(&self) -> (r: &Vec<Vec2>)
        ensures
            r@ == self.body.ghost_verts@,
    {
        &self.body.ghost_verts
    }

    /// A rock around `(center_x, center_y)` whose vertex radii are drawn from
    /// `[min_r, max_r)` pixels, heading for the centre of the field.
    pub fn new(min_r: u16, max_r: u16, center_x: i64, center_y: i64, difficulty: &Difficulty) -> (r:
        Asteroid)
        requires
            min_r < max_r,
            point_ok(Vec2 { x: center_x, y: center_y }),
            difficulty.wf(),
        ensures
            spawned(
                r,
                Vec2 { x: center_x, y: center_y },
                min_r as int,
                max_r as int,
                difficulty.speed_max as int,
            ),
    {
        let center = Vec2 { x: center_x, y: center_y };
        let mut verts: Vec<Vec2> = Vec::new();
        let ghost mut radii: Seq<int> = Seq::empty();
        let mut i: usize = 0;
        while i < ASTEROID_VERTS
            invariant
                i <= ASTEROID_VERTS,
                verts@.len() == i,
                radii.len() == i,
                min_r < max_r,
                center.x == center_x,
                center.y == center_y,
                forall|k: int|
                    0 <= k < i ==> min_r <= #[trigger] radii[k] < max_r && verts@[k] == rock_vertex(
                        center,
                        k,
                        radii[k],
                    ),
            decreases ASTEROID_VERTS - i,
        {
            let radius = random_in(min_r as i64, max_r as i64);
            let dir = rim_direction(i);
            proof {
                assert(-65536 * UNIT * ONE <= radius * UNIT * dir.x <= 65536 * UNIT * ONE)
                    by (nonlinear_arith)
                    requires
                        0 <= radius < 65536,
                        -ONE <= dir.x <= ONE,
                ;
                assert(-65536 * UNIT * ONE <= radius * UNIT * dir.y <= 65536 * UNIT * ONE)
                    by (nonlinear_arith)
                    requires
                        0 <= radius < 65536,
                        -ONE <= dir.y <= ONE,
                ;
            }
            let ox = div_floor(radius as i128 * UNIT as i128 * dir.x as i128, ONE as i128);
            let oy = div_floor(radius as i128 * UNIT as i128 * dir.y as i128, ONE as i128);
            let v = Vec2 { x: clamp(center_x as i128 + ox), y: clamp(center_y as i128 + oy) };
            proof {
                assert(dir == rim(i as int));
                assert(v.x == rock_vertex(center, i as int, radius as int).x);
                assert(v.y == rock_vertex(center, i as int, radius as int).y);
            }
            verts.push(v);
            proof {
                radii = radii.push(radius as int);
                assert(radii[i as int] == radius);
                assert(verts@[i as int] == v);
            }
            i = i + 1;
        }
        proof {
            lemma_rock_from_radii(verts@, center, radii, min_r as int, max_r as int);
        }
        assert forall|k: int| 0 <= k < verts@.len() implies #[trigger] point_ok(verts@[k]) by {
            assert(verts@[k] == rock_vertex(center, k, radii[k]));
        }
        assert(is_rock(verts@, center, min_r as int, max_r as int));
        let body = Body::new(verts);
        assert(is_rock(body.verts@, Vec2 { x: center_x, y: center_y }, min_r as int, max_r as int));
        let c = get_center(&body.verts);
        let heading = direction(c, Vec2 { x: MID_SIZE, y: MID_SIZE });
        let vx = random_in(SPEED_MIN, difficulty.speed_max);
        let vy = random_in(SPEED_MIN, difficulty.speed_max);
        Asteroid { body, vel: Vec2 { x: vx, y: vy }, heading, divided: false }
    }

    /// Drifts both copies one tick along the heading.
    pub fn update(&mut self)
        requires
            old(self).wf(),
        ensures
            final(self).wf(),
            final(self).vel == old(self).vel,
            final(self).heading == old(self).heading,
            final(self).divided == old(self).divided,
            final(self).body.verts@ == shift_all(
                old(self).body.verts@,
                drift(old(self).vel, old(self).heading).x as int,
                drift(old(self).vel, old(self).heading).y as int,
            ),
            final(self).body.ghost_verts@ == shift_all(
                old(self).body.ghost_verts@,
                drift(old(self).vel, old(self).heading).x as int,
                drift(old(self).vel, old(self).heading).y as int,
            ),
    {
        proof {
            lemma_drift_fits(self.vel.x as int, self.heading.x as int);
            lemma_drift_fits(self.vel.y as int, self.heading.y as int);
        }
        let dx = div_floor(self.vel.x as i128 * self.heading.x as i128, ONE as i128);
        let dy = div_floor(self.vel.y as i128 * self.heading.y as i128, ONE as i128);
        self.body.translate(Vec2 { x: dx as i64, y: dy as i64 });
    }

    /// Whether either copy of the rock holds `point`.
    pub fn collision(&self, point: &Vec2) -> (r: bool)
        requires
            self.wf(),
            point_ok(*point),
        ensures
            r == (inside(self.body.verts@, *point) || inside(self.body.ghost_verts@, *point)),
    {
        point_in_polygon(&self.body.verts, point) || point_in_polygon(&self.body.ghost_verts, point)
    }
}

/// The edge point made from pixel draws `width` and `height` and a side in `0..4`: side 0
/// moves it onto the left edge, 1 the right, 2 the top, and any other the bottom.
pub open spec fn edge_point_of(width: int, height: int, side: int) -> Vec2 {
    let x = if side == 0 {
        0
    } else if side == 1 {
        SIZE as int
    } else {
        width * UNIT
    };
    let y = if side == 0 || side == 1 {
        height * UNIT
    } else if side == 2 {
        0
    } else {
        SIZE as int
    };
    Vec2 { x: x as i64, y: y as i64 }
}

/// A point of the field's edge, in whole pixels, from two pixel positions and a side.
pub fn edge_point(width: i64, height: i64, side: i64) -> (r: Vec2)
    requires
        0 <= width < FIELD_PIXELS,
        0 <= height < FIELD_PIXELS,
    ensures
        r == edge_point_of(width as int, height as int, side as int),
        on_edge(r),
        point_ok(r),
        r.x % UNIT == 0,
        r.y % UNIT == 0,
{
    let mut x = width * UNIT;
    let mut y = height * UNIT;
    if side == 0 {
        x = 0;
    } else if side == 1 {
        x = SIZE;
    } else if side == 2 {
        y = 0;
    } else {
        y = SIZE;
    }
    Vec2 { x, y }
}

/// A random point on the edge of the field, in whole pixels: a random pixel position with
/// one coordinate moved onto one of the four edges, each as likely.
pub fn get_edge_pos() -> (r: Vec2)
    ensures
        on_edge(r),
        point_ok(r),
        r.x % UNIT == 0,
        r.y % UNIT == 0,
        exists|w: int, h: int, side: int|
            0 <= w < FIELD_PIXELS && 0 <= h < FIELD_PIXELS && 0 <= side < 4 && r
                == #[trigger] edge_point_of(w, h, side),
{
    let width = random_in(0, FIELD_PIXELS);
    let height = random_in(0, FIELD_PIXELS);
    let side = random_in(0, 4);
    let r = edge_point(width, height, side);
    assert(r == edge_point_of(width as int, height as int, side as int));
    r
}

/// A heading in a uniformly random direction, of unit length up to rounding: points are
/// drawn from the square until one lies in the heading ring (after 64 misses in a row,
/// which are all but impossible, the heading is `(ONE, 0)`).
fn random_heading() -> (r: Vec2)
    ensures
        direction_ok(r),
        near_unit_heading(r),
{
    let mut tries: u32 = 0;
    while tries < 64
        invariant
            tries <= 64,
        decreases 64 - tries,
    {
        let x = random_in(-ONE, ONE + 1);
        let y = random_in(-ONE, ONE + 1);
        match heading_from_draw(x, y) {
            Some(h) => {
                return h;
            },
            None => {},
        }
        tries = tries + 1;
    }
    Vec2 { x: ONE, y: 0 }
}

impl Asteroid {
    /// A fragment around `center`: a small rock, marked divided, with a random heading.
    pub fn fragment(center: Vec2, difficulty: &Difficulty) -> (r: Asteroid)
        requires
            point_ok(center),
            difficulty.wf(),
        ensures
            fragment_at(r, center, difficulty.speed_max as int),
    {
        let mut a = Asteroid::new(SMALL_MIN_R, SMALL_MAX_R, center.x, center.y, difficulty);
        a.divided = true;
        a.heading = random_heading();
        a
    }

    /// The opening asteroids of a session: full-size rocks at random edge positions.
    pub fn new_vec(difficulty: &Difficulty) -> (r: Vec<Asteroid>)
        requires
            difficulty.wf(),
        ensures
            r@.len() == ASTEROID_COUNT,
            all_wf(r@),
            forall|j: int|
                0 <= j < r@.len() ==> #[trigger] full_size_at_edge(r@[j], difficulty.speed_max as int),
    {
        let mut asteroids: Vec<Asteroid> = Vec::new();
        push_edge_rocks(&mut asteroids, ASTEROID_COUNT, difficulty);
        asteroids
    }
}

/// Appends `count` full-size rocks at random edge positions.
fn push_edge_rocks(asteroids: &mut Vec<Asteroid>, count: usize, difficulty: &Difficulty)
    requires
        difficulty.wf(),
        all_wf(old(asteroids)@),
        old(asteroids)@.len() + count <= usize::MAX,
    ensures
        final(asteroids)@.len() == old(asteroids)@.len() + count,
        final(asteroids)@.take(old(asteroids)@.len() as int) == old(asteroids)@,
        all_wf(final(asteroids)@),
        forall|j: int|
            old(asteroids)@.len() <= j < final(asteroids)@.len() ==> #[trigger] full_size_at_edge(
                final(asteroids)@[j],
                difficulty.speed_max as int,
            ),
{
    let ghost start = asteroids@;
    let mut k: usize = 0;
    while k < count
        invariant
            k <= count,
            difficulty.wf(),
            start.len() + count <= usize::MAX,
            asteroids@.len() == start.len() + k,
            asteroids@.take(start.len() as int) == start,
            all_wf(asteroids@),
            forall|j: int|
                start.len() <= j < asteroids@.len() ==> #[trigger] full_size_at_edge(
                    asteroids@[j],
                    difficulty.speed_max as int,
                ),
        decreases count - k,
    {
        let p = get_edge_pos();
        let a = Asteroid::new(BIG_MIN_R, BIG_MAX_R, p.x, p.y, difficulty);
        proof {
            assert(spawned(a, p, BIG_MIN_R as int, BIG_MAX_R as int, difficulty.speed_max as int));
        }
        let ghost before = asteroids@;
        asteroids.push(a);
        proof {
            assert(asteroids@.take(start.len() as int) =~= before.take(start.len() as int));
            assert(asteroids@[asteroids@.len() - 1] == a);
        }
        k = k + 1;
    }
}

/// The outcome of breaking rock `index` of `before` into `after`, drift speeds drawn below
/// `speed_max`: the rock is gone and the others keep their order; a whole rock leaves two or
/// three fragments round its centroid at the end; a fragment leaves none; and a field left
/// empty restarts with two full-size rocks at the edge.
pub open spec fn split_outcome(before: Seq<Asteroid>, index: int, after: Seq<Asteroid>, speed_max: int) -> bool {
    let gone = before[index];
    let rest = before.remove(index);
    if !gone.divided {
        &&& rest.len() + 2 <= after.len() <= rest.len() + 3
        &&& after.take(rest.len() as int) == rest
        &&& forall|j: int|
            rest.len() <= j < after.len() ==> #[trigger] fragment_at(
                after[j],
                center_point(gone.body.verts@),
                speed_max,
            )
    } else if rest.len() > 0 {
        after == rest
    } else {
        &&& after.len() == RESPAWN_COUNT
        &&& forall|j: int| 0 <= j < after.len() ==> #[trigger] full_size_at_edge(after[j], speed_max)
    }
}

/// Breaks rock `index`: removes it, leaves fragments where it was whole, raises the drift
/// speed bound, and restarts the round where the field is left empty.
pub fn divide_remove(asteroids: &mut Vec<Asteroid>, index: usize, difficulty: &mut Difficulty)
    requires
        index < old(asteroids)@.len(),
        all_wf(old(asteroids)@),
        old(difficulty).wf(),
        old(asteroids)@.len() + 3 <= usize::MAX,
    ensures
        final(difficulty).wf(),
        final(difficulty).speed_max == escalated(old(difficulty).speed_max as int),
        all_wf(final(asteroids)@),
        split_outcome(old(asteroids)@, index as int, final(asteroids)@, final(difficulty).speed_max as int),
{
    difficulty.escalate();
    let ghost before = asteroids@;
    let asteroid = asteroids.remove(index);
    let ghost rest = asteroids@;
    proof {
        assert(rest == before.remove(index as int));
        assert(before[index as int].wf());
        assert forall|j: int| 0 <= j < rest.len() implies #[trigger] rest[j].wf() by {
            if j < index {
                assert(rest[j] == before[j]);
            } else {
                assert(rest[j] == before[j + 1]);
            }
        }
    }
    if !asteroid.divided {
        let c = get_center(&asteroid.body.verts);
        let count = random_in(2, 4);
        let mut k: i64 = 0;
        while k < count
            invariant
                0 <= k <= count,
                2 <= count < 4,
                difficulty.wf(),
                point_ok(c),
                c == center_point(before[index as int].body.verts@),
                rest.len() + 3 <= usize::MAX,
                asteroids@.len() == rest.len() + k,
                asteroids@.take(rest.len() as int) == rest,
                all_wf(asteroids@),
                forall|j: int|
                    rest.len() <= j < asteroids@.len() ==> #[trigger] fragment_at(
                        asteroids@[j],
                        c,
                        difficulty.speed_max as int,
                    ),
            decreases count - k,
        {
            let f = Asteroid::fragment(c, difficulty);
            let ghost prior = asteroids@;
            asteroids.push(f);
            proof {
                assert(asteroids@.take(rest.len() as int) =~= prior.take(rest.len() as int));
                assert(asteroids@[asteroids@.len() - 1] == f);
            }
            k = k + 1;
        }
    }
    if asteroids.len() == 0 {
        push_edge_rocks(asteroids, RESPAWN_COUNT, difficulty);
        assert(asteroids@.take(0) =~= Seq::<Asteroid>::empty());
    } else {
        proof {
            if asteroid.divided {
                assert(asteroids@.take(rest.len() as int) =~= asteroids@);
            }
        }
    }
}

/// Breaking up a rock of a collection by its index.
pub trait RemoveAsteroid {
    /// The rocks, in order.
    spec fn rocks(&self) -> Seq<Asteroid>;

    fn break_up(&mut self, index: usize, difficulty: &mut Difficulty)
        requires
            index < old(self).rocks().len(),
            all_wf(old(self).rocks()),
            old(difficulty).wf(),
            old(self).rocks().len() + 3 <= usize::MAX,
        ensures
            final(difficulty).wf(),
            final(difficulty).speed_max == escalated(old(difficulty).speed_max as int),
            all_wf(final(self).rocks()),
            split_outcome(
                old(self).rocks(),
                index as int,
                final(self).rocks(),
                final(difficulty).speed_max as int,
            ),
    ;
}

impl RemoveAsteroid for Vec<Asteroid> {
    open spec fn rocks(&self) -> Seq<Asteroid> {
        self@
    }

    fn break_up(&mut self, index: usize, difficulty: &mut Difficulty) {
        divide_remove(self, index, difficulty);
    }
}

/// Breaking a whole rock with centroid `c` always leaves two or three new rocks, each a
/// fragment generated round `c`; the other rocks stay as they were.
pub proof fn lemma_whole_rock_splits(before: Seq<Asteroid>, index: int, after: Seq<Asteroid>, speed_max: int)
    requires
        0 <= index < before.len(),
        !before[index].divided,
        split_outcome(before, index, after, speed_max),
    ensures
        before.len() + 1 <= after.len() <= before.len() + 2,
        after.take(before.len() - 1) == before.remove(index),
        forall|j: int|
            before.len() - 1 <= j < after.len() ==> (#[trigger] after[j]).divided && fragment_at(
                after[j],
                center_point(before[index].body.verts@),
                speed_max,
            ),
{
    assert forall|j: int| before.len() - 1 <= j < after.len() implies (#[trigger] after[j]).divided
        && fragment_at(after[j], center_point(before[index].body.verts@), speed_max) by {
        assert(fragment_at(after[j], center_point(before[index].body.verts@), speed_max));
    }
}

/// Breaking a fragment leaves no new rock: only the fragment is gone, unless it was the last.
pub proof fn lemma_fragment_leaves_nothing(before: Seq<Asteroid>, index: int, after: Seq<Asteroid>, speed_max: int)
    requires
        0 <= index < before.len(),
        before.len() > 1,
        before[index].divided,
        split_outcome(before, index, after, speed_max),
    ensures
        after == before.remove(index),
        after.len() == before.len() - 1,
{
}

/// Breaking the last rock, a fragment, leaves the field with exactly two fresh full-size
/// rocks that entered at its edge.
pub proof fn lemma_cleared_field_restarts(before: Seq<Asteroid>, after: Seq<Asteroid>, speed_max: int)
    requires
        before.len() == 1,
        before[0].divided,
        split_outcome(before, 0, after, speed_max),
    ensures
        after.len() == 2,
        forall|j: int|
            #![trigger after[j]]
            0 <= j < after.len() ==> full_size_at_edge(after[j], speed_max) && !after[j].divided,
{
    assert(before.remove(0).len() == 0);
    assert forall|j: int| #![trigger after[j]] 0 <= j < after.len() implies full_size_at_edge(
        after[j],
        speed_max,
    ) && !after[j].divided by {
        assert(full_size_at_edge(after[j], speed_max));
        let c = choose|c: Vec2| on_edge(c) && #[trigger] spawned(after[j], c, BIG_MIN_R as int, BIG_MAX_R as int, speed_max);
    }
}

/// A split never leaves the field empty.
pub proof fn lemma_split_never_empties(before: Seq<Asteroid>, index: int, after: Seq<Asteroid>, speed_max: int)
    requires
        0 <= index < before.len(),
        split_outcome(before, index, after, speed_max),
    ensures
        after.len() > 0,
{
}

proof fn lemma_rock_from_radii(s: Seq<Vec2>, center: Vec2, radii: Seq<int>, min_r: int, max_r: int)
    requires
        s.len() == ASTEROID_VERTS,
        radii.len() == s.len(),
        forall|k: int|
            0 <= k < s.len() ==> min_r <= #[trigger] radii[k] < max_r && s[k] == rock_vertex(
                center,
                k,
                radii[k],
            ),
    ensures
        is_rock(s, center, min_r, max_r),
{
    assert forall|k: int| 0 <= k < s.len() implies #[trigger] vertex_on_rock(
        s[k],
        center,
        k,
        min_r,
        max_r,
    ) by {
        assert(min_r <= radii[k] < max_r);
        assert(s[k] == rock_vertex(center, k, radii[k]));
    }
}

proof fn lemma_drift_fits(v: int, h: int)
    requires
        0 <= v <= i64::MAX,
        -ONE <= h <= ONE,
    ensures
        -i64::MAX * ONE <= v * h <= i64::MAX * ONE,
        i64::MIN <= v * h / (ONE as int) <= i64::MAX,
{
    assert(-i64::MAX * ONE <= v * h <= i64::MAX * ONE) by (nonlinear_arith)
        requires
            0 <= v <= i64::MAX,
            -ONE <= h <= ONE,
    ;
    assert(-i64::MAX <= v * h / (ONE as int) <= i64::MAX) by (nonlinear_arith)
        requires
            -i64::MAX * ONE <= v * h <= i64::MAX * ONE,
    ;
}

} // verus!
