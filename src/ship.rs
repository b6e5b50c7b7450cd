use vstd::prelude::*;
use crate::geometry::{
    Turn, Vec2, ONE, clamp, clamp_coord, direction, direction_ok, div_floor, get_center,
    lemma_root, norm, root, point_ok, points_ok, rotate_all, centroid, turn_ok, unit_toward,
};
use crate::collision::inside;
use crate::asteroid::{Asteroid, center_point};
use crate::wrap::{Body, MID_SIZE, shift_all, wrapped_coord};

verus! {

/// Milliseconds in a second: elapsed time comes in milliseconds.
pub const MS_PER_S: i64 = 1000;

/// Longest tick the physics takes at once; a longer pause counts as this long.
pub const MAX_DT_MS: u32 = 100;

/// Half the width of the ship's base, and its height, in sub-pixels.
pub const SHIP_HALF_BASE: i64 = 17500;
pub const SHIP_HEIGHT: i64 = 35000;

/// Turn rate while a rotate key is held, in microradians per second.
pub const ROTATION_AMOUNT: i64 = 4000000;

/// Speed, in sub-pixels per second, at or above which thrust no longer adds up.
pub const MAX_VELOCITY: i64 = 700000;

/// What each thrust event adds to the acceleration, and the ceiling it stops at.
pub const THRUST_STEP: i64 = 10;
pub const ACCEL_LIMIT: i64 = 100000;

/// Speed kept each tick, in percent.
pub const DAMPING_PERCENT: i64 = 98;

/// Speed gained per millisecond per unit of acceleration, in sub-pixels per second.
pub const THRUST_GAIN: i64 = 50;

/// Ceiling of the ship's speed on each axis.
pub const VEL_LIMIT: i64 = 1099511627776;

/// Speed of a laser on each axis, in sub-pixels per second.
pub const LASER_SPEED: i64 = 400000;

/// Distance, in sub-pixels, after which a laser is gone.
pub const LASER_RANGE: i64 = 1000000;

/// The player's discrete inputs.
#[derive(Clone, Copy, Debug, PartialEq, Eq, Structural)]
pub enum Action {
    RotateLeft,
    RotateRight,
    RotateStop,
    ThrustStart,
    ThrustStop,
    Fire,
    FireStop,
}

/// A shot from the ship.
#[derive(Clone, Copy, Debug, PartialEq, Eq, Structural)]
pub struct Laser {
    pub pos: Vec2,
    /// Speed on each axis, in sub-pixels per second.
    pub vel: Vec2,
    /// Unit heading, scaled by `ONE`.
    pub heading: Vec2,
    /// Distance travelled so far, in sub-pixels.
    pub ddelta: i64,
}

/// Elapsed milliseconds as the physics counts them.
pub open spec fn capped_dt(dt_ms: int) -> int {
    if dt_ms > MAX_DT_MS {
        MAX_DT_MS as int
    } else {
        dt_ms
    }
}

/// How far something moving at `vel` along `heading` gets in `dt` milliseconds: the speed on
/// each axis times the cosine and the sine of the heading respectively, rounded down.
pub open spec fn travel(vel: Vec2, heading: Vec2, dt: int) -> Vec2 {
    Vec2 {
        x: (vel.x * dt * heading.x / (MS_PER_S * ONE)) as i64,
        y: (vel.y * dt * heading.y / (MS_PER_S * ONE)) as i64,
    }
}

/// A laser after `dt` milliseconds of flight, before it re-enters the field.
pub open spec fn laser_moved(l: Laser, dt: int) -> Laser {
    let d = travel(l.vel, l.heading, dt);
    Laser {
        pos: Vec2 {
            x: clamp_coord(l.pos.x + d.x) as i64,
            y: clamp_coord(l.pos.y + d.y) as i64,
        },
        ddelta: (l.ddelta + norm(l.vel.x as int, l.vel.y as int) * dt / (MS_PER_S as int)) as i64,
        ..l
    }
}

/// A laser after one tick: moved, then brought back into the field.
pub open spec fn laser_after(l: Laser, dt: int) -> Laser {
    let m = laser_moved(l, dt);
    Laser {
        pos: Vec2 { x: wrapped_coord(m.pos.x as int) as i64, y: wrapped_coord(m.pos.y as int) as i64 },
        ..m
    }
}

/// The lasers of `s` after one tick, without those that have flown their range.
pub open spec fn lasers_after(s: Seq<Laser>, dt: int) -> Seq<Laser>
    decreases s.len(),
{
    if s.len() == 0 {
        s
    } else {
        let kept = lasers_after(s.drop_last(), dt);
        let l = laser_after(s.last(), dt);
        if l.ddelta < LASER_RANGE {
            kept.push(l)
        } else {
            kept
        }
    }
}

impl Laser {
    pub open spec fn wf(&self) -> bool {
        &&& point_ok(self.pos)
        &&& direction_ok(self.heading)
        &&& self.vel == Vec2 { x: LASER_SPEED, y: LASER_SPEED }
        &&& 0 <= self.ddelta < LASER_RANGE
    }

    /// A laser leaving `pos` along `heading`.
    pub fn new(pos: Vec2, heading: Vec2) -> (r: Laser)
        ensures
            r == (Laser { pos, vel: Vec2 { x: LASER_SPEED, y: LASER_SPEED }, heading, ddelta: 0 }),
    {
        Laser { pos, vel: Vec2 { x: LASER_SPEED, y: LASER_SPEED }, heading, ddelta: 0 }
    }

    /// Flies `dt_ms` milliseconds and adds the distance covered to `ddelta`.
    pub fn update(&mut self, dt_ms: u32)
        requires
            old(self).wf(),
            dt_ms <= MAX_DT_MS,
        ensures
            *final(self) == laser_moved(*old(self), dt_ms as int),
            point_ok(final(self).pos),
            direction_ok(final(self).heading),
            final(self).vel == old(self).vel,
            0 <= final(self).ddelta < 2 * LASER_RANGE,
    {
        let speed = self.vel.magnitude();
        proof {
            let n = LASER_SPEED * LASER_SPEED + LASER_SPEED * LASER_SPEED;
            lemma_root(n);
            let r = root(n);
            assert(r < 600000) by (nonlinear_arith)
                requires
                    r >= 0,
                    r * r <= n,
                    n == 320000000000,
            ;
            assert(0 <= speed * dt_ms <= 60000000) by (nonlinear_arith)
                requires
                    0 <= speed < 600000,
                    0 <= dt_ms <= 100,
            ;
        }
        let d = travel_exec(self.vel, self.heading, dt_ms);
        self.ddelta = self.ddelta + speed * dt_ms as i64 / MS_PER_S;
        self.pos = Vec2 {
            x: clamp(self.pos.x as i128 + d.x as i128),
            y: clamp(self.pos.y as i128 + d.y as i128),
        };
    }

    pub fn get_pos(&self) -> (r: &Vec2)
        ensures
            *r == self.pos,
    {
        &self.pos
    }
}

fn travel_exec(vel: Vec2, heading: Vec2, dt_ms: u32) -> (r: Vec2)
    requires
        0 <= vel.x <= VEL_LIMIT,
        0 <= vel.y <= VEL_LIMIT,
        direction_ok(heading),
        dt_ms <= MAX_DT_MS,
    ensures
        r == travel(vel, heading, dt_ms as int),
        -VEL_LIMIT <= r.x <= VEL_LIMIT,
        -VEL_LIMIT <= r.y <= VEL_LIMIT,
{
    proof {
        lemma_travel_bounds(vel.x as int, heading.x as int, dt_ms as int);
        lemma_travel_bounds(vel.y as int, heading.y as int, dt_ms as int);
    }
    let scale = MS_PER_S as i128 * ONE as i128;
    let dx = div_floor(vel.x as i128 * dt_ms as i128 * heading.x as i128, scale);
    let dy = div_floor(vel.y as i128 * dt_ms as i128 * heading.y as i128, scale);
    Vec2 { x: dx as i64, y: dy as i64 }
}

proof fn lemma_travel_bounds(v: int, h: int, dt: int)
    requires
        0 <= v <= VEL_LIMIT,
        -ONE <= h <= ONE,
        0 <= dt <= MAX_DT_MS,
    ensures
        0 <= v * dt <= VEL_LIMIT * MAX_DT_MS,
        -VEL_LIMIT * MAX_DT_MS * ONE <= v * dt * h <= VEL_LIMIT * MAX_DT_MS * ONE,
        -VEL_LIMIT <= v * dt * h / (MS_PER_S * ONE) <= VEL_LIMIT,
{
    assert(0 <= v * dt <= VEL_LIMIT * MAX_DT_MS) by (nonlinear_arith)
        requires
            0 <= v <= VEL_LIMIT,
            0 <= dt <= MAX_DT_MS,
    ;
    assert(-VEL_LIMIT * MAX_DT_MS * ONE <= (v * dt) * h <= VEL_LIMIT * MAX_DT_MS * ONE)
        by (nonlinear_arith)
        requires
            0 <= v * dt <= VEL_LIMIT * MAX_DT_MS,
            -ONE <= h <= ONE,
    ;
    assert(v * dt * h == (v * dt) * h) by (nonlinear_arith);
    assert(-VEL_LIMIT <= v * dt * h / (MS_PER_S * ONE) <= VEL_LIMIT) by (nonlinear_arith)
        requires
            -VEL_LIMIT * MAX_DT_MS * ONE <= v * dt * h <= VEL_LIMIT * MAX_DT_MS * ONE,
    ;
}

} // verus!

verus! {

/// The heading from the centroid of the outline towards its nose, vertex 2.
pub open spec fn nose_heading(s: Seq<Vec2>) -> Vec2 {
    unit_toward(center_point(s), s[2])
}

/// The acceleration after a thrust event: one step more, up to the ceiling, while the ship
/// is slower than `MAX_VELOCITY`; else none.
pub open spec fn thrust_accel(vel: Vec2, accel: int) -> int {
    if norm(vel.x as int, vel.y as int) < MAX_VELOCITY {
        if accel + THRUST_STEP <= ACCEL_LIMIT {
            accel + THRUST_STEP
        } else {
            ACCEL_LIMIT as int
        }
    } else {
        0
    }
}

/// The speed on one axis after a tick: damped, then raised by the acceleration, up to the
/// ceiling.
pub open spec fn damped(v: int, accel: int, dt: int) -> int {
    let w = v * DAMPING_PERCENT / 100 + accel * dt * THRUST_GAIN;
    if w > VEL_LIMIT {
        VEL_LIMIT as int
    } else {
        w
    }
}

/// Whether `p` lies in either copy of the rock.
pub open spec fn rock_holds(a: Asteroid, p: Vec2) -> bool {
    inside(a.body.verts@, p) || inside(a.body.ghost_verts@, p)
}

/// Whether some vertex of `s` lies in the rock.
pub open spec fn any_vertex_in(s: Seq<Vec2>, a: Asteroid) -> bool {
    exists|i: int| 0 <= i < s.len() && #[trigger] rock_holds(a, s[i])
}

/// The player's ship.
pub struct Ship {
    pub body: Body,
    /// Speed on each axis, in sub-pixels per second.
    pub vel: Vec2,
    pub accel: i64,
    /// Unit heading, scaled by `ONE`.
    pub heading: Vec2,
    pub lasers: Vec<Laser>,
    /// Turn rate, in microradians per second.
    pub rot: i64,
    /// Whether the fire key is held.
    pub firing: bool,
}

pub open spec fn lasers_wf(s: Seq<Laser>) -> bool {
    forall|i: int| 0 <= i < s.len() ==> #[trigger] s[i].wf()
}

impl Ship {
    pub open spec fn wf(&self) -> bool {
        &&& self.body.wf()
        &&& self.body.verts@.len() == 3
        &&& 0 <= self.vel.x <= VEL_LIMIT
        &&& 0 <= self.vel.y <= VEL_LIMIT
        &&& 0 <= self.accel <= ACCEL_LIMIT
        &&& direction_ok(self.heading)
        &&& -ROTATION_AMOUNT <= self.rot <= ROTATION_AMOUNT
        &&& lasers_wf(self.lasers@)
    }

    /// The ship at rest in the centre of the field, nose up.
    pub fn new() -> (r: Ship)
        ensures
            r.wf(),
            r.body.verts@.len() == 3,
            r.body.verts@[0].x == MID_SIZE - SHIP_HALF_BASE,
            r.body.verts@[0].y == MID_SIZE + SHIP_HALF_BASE,
            r.body.verts@[1].x == MID_SIZE + SHIP_HALF_BASE,
            r.body.verts@[1].y == MID_SIZE + SHIP_HALF_BASE,
            r.body.verts@[2].x == MID_SIZE,
            r.body.verts@[2].y == MID_SIZE - SHIP_HEIGHT,
            r.body.ghost_verts@ == r.body.verts@,
            r.vel == (Vec2 { x: 0, y: 0 }),
            r.accel == 0,
            r.heading == (Vec2 { x: ONE, y: 0 }),
            r.lasers@.len() == 0,
            r.rot == 0,
            !r.firing,
    {
        let p1 = MID_SIZE + SHIP_HALF_BASE;
        let mut verts: Vec<Vec2> = Vec::new();
        verts.push(Vec2 { x: MID_SIZE - SHIP_HALF_BASE, y: p1 });
        verts.push(Vec2 { x: p1, y: p1 });
        verts.push(Vec2 { x: MID_SIZE, y: MID_SIZE - SHIP_HEIGHT });
        Ship {
            body: Body::new(verts),
            vel: Vec2 { x: 0, y: 0 },
            accel: 0,
            heading: Vec2 { x: ONE, y: 0 },
            lasers: Vec::new(),
            rot: 0,
            firing: false,
        }
    }

    pub fn get_verts(&self) -> (r: &Vec<Vec2>)
        ensures
            r@ == self.body.verts@,
    {
        &self.body.verts
    }

    pub fn get_ghost_verts(&self) -> (r: &Vec<Vec2>)
        ensures
            r@ == self.body.ghost_verts@,
    {
        &self.body.ghost_verts
    }

    pub fn get_lasers(&self) -> (r: &Vec<Laser>)
        ensures
            r@ == self.lasers@,
    {
        &self.lasers
    }

    /// Drops laser `index`, keeping the order of the others.
    pub fn remove_laser(&mut self, index: usize)
        requires
            old(self).wf(),
            index < old(self).lasers@.len(),
        ensures
            final(self).wf(),
            final(self).lasers@ == old(self).lasers@.remove(index as int),
            final(self).body == old(self).body,
            final(self).vel == old(self).vel,
            final(self).accel == old(self).accel,
            final(self).heading == old(self).heading,
            final(self).rot == old(self).rot,
            final(self).firing == old(self).firing,
    {
        self.lasers.remove(index);
        assert forall|i: int| 0 <= i < self.lasers@.len() implies #[trigger] self.lasers@[i].wf() by {
            if i < index {
                assert(self.lasers@[i] == old(self).lasers@[i]);
            } else {
                assert(self.lasers@[i] == old(self).lasers@[i + 1]);
            }
        }
    }

    /// The heading from the centroid towards the nose.
    fn nose_direction(&self) -> (r: Vec2)
        requires
            self.wf(),
        ensures
            r == nose_heading(self.body.verts@),
            direction_ok(r),
    {
        let c = get_center(&self.body.verts);
        let nose = self.body.verts[2];
        proof {
            assert(point_ok(self.body.verts@[2]));
        }
        direction(c, nose)
    }

    /// Applies one input: rotate keys set the turn rate; thrust aims along the nose and adds
    /// acceleration while the ship is below top speed; fire, once per key press, aims along
    /// the nose and launches a laser from it.
    pub fn do_action(&mut self, action: Action)
        requires
            old(self).wf(),
        ensures
            final(self).wf(),
            final(self).body == old(self).body,
            final(self).vel == old(self).vel,
            final(self).rot as int == match action {
                Action::RotateLeft => -ROTATION_AMOUNT as int,
                Action::RotateRight => ROTATION_AMOUNT as int,
                Action::RotateStop => 0int,
                _ => old(self).rot as int,
            },
            final(self).accel == match action {
                Action::ThrustStart => thrust_accel(old(self).vel, old(self).accel as int),
                Action::ThrustStop => 0,
                _ => old(self).accel as int,
            },
            final(self).heading == if action == Action::ThrustStart || (action == Action::Fire
                && !old(self).firing) {
                nose_heading(old(self).body.verts@)
            } else {
                old(self).heading
            },
            final(self).firing == match action {
                Action::Fire => true,
                Action::FireStop => false,
                _ => old(self).firing,
            },
            final(self).lasers@ == if action == Action::Fire && !old(self).firing {
                old(self).lasers@.push(
                    Laser {
                        pos: old(self).body.verts@[2],
                        vel: Vec2 { x: LASER_SPEED, y: LASER_SPEED },
                        heading: nose_heading(old(self).body.verts@),
                        ddelta: 0,
                    },
                )
            } else {
                old(self).lasers@
            },
    {
        match action {
            Action::RotateLeft => {
                self.rot = -ROTATION_AMOUNT;
            },
            Action::RotateRight => {
                self.rot = ROTATION_AMOUNT;
            },
            Action::RotateStop => {
                self.rot = 0;
            },
            Action::ThrustStart => {
                self.heading = self.nose_direction();
                let speed = self.vel.magnitude();
                if speed < MAX_VELOCITY {
                    if self.accel <= ACCEL_LIMIT - THRUST_STEP {
                        self.accel = self.accel + THRUST_STEP;
                    } else {
                        self.accel = ACCEL_LIMIT;
                    }
                } else {
                    self.accel = 0;
                }
            },
            Action::ThrustStop => {
                self.accel = 0;
            },
            Action::Fire => {
                if !self.firing {
                    let h = self.nose_direction();
                    self.heading = h;
                    let nose = self.body.verts[2];
                    proof {
                        assert(point_ok(self.body.verts@[2]));
                    }
                    self.lasers.push(Laser::new(nose, h));
                    self.firing = true;
                    assert forall|i: int| 0 <= i < self.lasers@.len() implies #[trigger] self.lasers@[i].wf() by {
                        if i < old(self).lasers@.len() {
                            assert(self.lasers@[i] == old(self).lasers@[i]);
                        }
                    }
                }
            },
            Action::FireStop => {
                self.firing = false;
            },
        }
    }

    /// The angle the ship turns in `dt_ms` milliseconds, in microradians, rounded down.
    pub fn turn_angle(&self, dt_ms: u32) -> (r: i64)
        requires
            self.wf(),
        ensures
            r == self.rot * capped_dt(dt_ms as int) / (MS_PER_S as int),
    {
        let dt: u32 = if dt_ms > MAX_DT_MS {
            MAX_DT_MS
        } else {
            dt_ms
        };
        proof {
            assert(-ROTATION_AMOUNT * MAX_DT_MS <= self.rot * dt <= ROTATION_AMOUNT * MAX_DT_MS)
                by (nonlinear_arith)
                requires
                    -ROTATION_AMOUNT <= self.rot <= ROTATION_AMOUNT,
                    0 <= dt <= MAX_DT_MS,
            ;
        }
        div_floor(self.rot as i128 * dt as i128, MS_PER_S as i128) as i64
    }

    /// Whether some vertex of either copy of the ship lies in either copy of the rock.
    pub fn check_collision(&self, asteroid: &Asteroid) -> (r: bool)
        requires
            self.wf(),
            asteroid.wf(),
        ensures
            r == (any_vertex_in(self.body.verts@, *asteroid) || any_vertex_in(
                self.body.ghost_verts@,
                *asteroid,
            )),
    {
        any_inside(&self.body.verts, asteroid) || any_inside(&self.body.ghost_verts, asteroid)
    }
}

impl Ship {
    /// One tick of `dt_ms` milliseconds (at most `MAX_DT_MS` count): both copies turn by
    /// `turn` about their own centroids, the speed decays and then grows by the
    /// acceleration, both copies move along the heading, and the lasers fly, re-enter the
    /// field and expire past their range.
    pub fn update(&mut self, dt_ms: u32, turn: Turn)
        requires
            old(self).wf(),
            turn_ok(turn),
        ensures
            final(self).wf(),
            final(self).vel.x == damped(
                old(self).vel.x as int,
                old(self).accel as int,
                capped_dt(dt_ms as int),
            ),
            final(self).vel.y == damped(
                old(self).vel.y as int,
                old(self).accel as int,
                capped_dt(dt_ms as int),
            ),
            final(self).body.verts@ == shift_all(
                rotate_all(old(self).body.verts@, turn),
                travel(final(self).vel, old(self).heading, capped_dt(dt_ms as int)).x as int,
                travel(final(self).vel, old(self).heading, capped_dt(dt_ms as int)).y as int,
            ),
            final(self).body.ghost_verts@ == shift_all(
                rotate_all(old(self).body.ghost_verts@, turn),
                travel(final(self).vel, old(self).heading, capped_dt(dt_ms as int)).x as int,
                travel(final(self).vel, old(self).heading, capped_dt(dt_ms as int)).y as int,
            ),
            final(self).lasers@ == lasers_after(old(self).lasers@, capped_dt(dt_ms as int)),
            final(self).accel == old(self).accel,
            final(self).heading == old(self).heading,
            final(self).rot == old(self).rot,
            final(self).firing == old(self).firing,
    {
        let dt: u32 = if dt_ms > MAX_DT_MS {
            MAX_DT_MS
        } else {
            dt_ms
        };
        self.body.rotate(turn);
        let vx = damped_exec(self.vel.x, self.accel, dt);
        let vy = damped_exec(self.vel.y, self.accel, dt);
        self.vel = Vec2 { x: vx, y: vy };
        let d = travel_exec(self.vel, self.heading, dt);
        self.body.translate(d);
        let ghost old_lasers = self.lasers@;
        let mut kept: Vec<Laser> = Vec::new();
        let mut i: usize = 0;
        while i < self.lasers.len()
            invariant
                self.lasers@ == old_lasers,
                lasers_wf(old_lasers),
                dt <= MAX_DT_MS,
                dt == capped_dt(dt_ms as int),
                i <= old_lasers.len(),
                kept@ == lasers_after(old_lasers.take(i as int), dt as int),
                lasers_wf(kept@),
            decreases old_lasers.len() - i,
        {
            let mut l = self.lasers[i];
            proof {
                assert(old_lasers[i as int].wf());
            }
            l.update(dt);
            l.pos.wrap_point();
            proof {
                assert(old_lasers.take(i as int + 1).drop_last() =~= old_lasers.take(i as int));
                assert(old_lasers.take(i as int + 1).last() == old_lasers[i as int]);
                assert(l == laser_after(old_lasers[i as int], dt as int));
            }
            if l.ddelta < LASER_RANGE {
                kept.push(l);
                assert forall|k: int| 0 <= k < kept@.len() implies #[trigger] kept@[k].wf() by {
                    if k < kept@.len() - 1 {
                        assert(kept@[k] == kept@.drop_last()[k]);
                    }
                }
            }
            i = i + 1;
        }
        proof {
            assert(old_lasers.take(old_lasers.len() as int) =~= old_lasers);
        }
        self.lasers = kept;
    }
}

fn damped_exec(v: i64, accel: i64, dt: u32) -> (r: i64)
    requires
        0 <= v <= VEL_LIMIT,
        0 <= accel <= ACCEL_LIMIT,
        dt <= MAX_DT_MS,
    ensures
        r == damped(v as int, accel as int, dt as int),
        0 <= r <= VEL_LIMIT,
{
    proof {
        assert(0 <= accel * dt <= ACCEL_LIMIT * MAX_DT_MS) by (nonlinear_arith)
            requires
                0 <= accel <= ACCEL_LIMIT,
                0 <= dt <= MAX_DT_MS,
        ;
        assert(accel * dt * THRUST_GAIN == (accel * dt) * THRUST_GAIN) by (nonlinear_arith);
        assert(0 <= v * DAMPING_PERCENT / 100 <= v) by (nonlinear_arith)
            requires
                0 <= v,
        ;
    }
    let w = v * DAMPING_PERCENT / 100 + accel * dt as i64 * THRUST_GAIN;
    if w > VEL_LIMIT {
        VEL_LIMIT
    } else {
        w
    }
}

fn any_inside(s: &Vec<Vec2>, asteroid: &Asteroid) -> (r: bool)
    requires
        points_ok(s@),
        asteroid.wf(),
    ensures
        r == any_vertex_in(s@, *asteroid),
{
    let mut i: usize = 0;
    while i < s.len()
        invariant
            i <= s@.len(),
            points_ok(s@),
            asteroid.wf(),
            forall|k: int| 0 <= k < i ==> !#[trigger] rock_holds(*asteroid, s@[k]),
        decreases s@.len() - i,
    {
        proof {
            assert(point_ok(s@[i as int]));
        }
        if asteroid.collision(&s[i]) {
            assert(rock_holds(*asteroid, s@[i as int]));
            return true;
        }
        i = i + 1;
    }
    false
}

} // verus!
