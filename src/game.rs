use vstd::prelude::*;
use crate::geometry::{Turn, Vec2, point_ok, rotate_all, turn_ok};
use crate::asteroid::{
    Asteroid, Difficulty, RemoveAsteroid, MAX_ASTEROIDS, all_wf, drift, escalated,
    full_size_at_edge, get_edge_pos, split_outcome, BIG_MAX_R, BIG_MIN_R,
};
use crate::ship::{
    Laser, Ship, any_vertex_in, capped_dt, damped, lasers_after, rock_holds, travel,
};
use crate::random::random_in;
use crate::wrap::{next_ghost, next_primary, shift_all, wrap_verts};

verus! {

/// Points for each rock a laser breaks.
pub const SCORE_PER_HIT: u64 = 10;

/// Chance per tick, in thousandths, that a new rock drifts in.
pub const SPAWN_PER_MILLE: i64 = 5;

/// Whether the session goes on after a tick.
#[derive(Clone, Copy, Debug, PartialEq, Eq, Structural)]
pub enum Outcome {
    Running,
    GameOver,
}

/// `score` after one more hit, stopping at the largest `u64`.
pub open spec fn scored(score: int) -> int {
    if score <= u64::MAX - SCORE_PER_HIT {
        score + SCORE_PER_HIT
    } else {
        u64::MAX as int
    }
}

/// `score` after `hits` more hits, stopping at the largest `u64`.
pub open spec fn scored_many(score: int, hits: int) -> int {
    if score + hits * SCORE_PER_HIT <= u64::MAX {
        score + hits * SCORE_PER_HIT
    } else {
        u64::MAX as int
    }
}

/// Rock `k` is the first of `s` that holds `p`.
pub open spec fn first_hit(s: Seq<Asteroid>, p: Vec2, k: int) -> bool {
    &&& 0 <= k < s.len()
    &&& rock_holds(s[k], p)
    &&& forall|j: int| 0 <= j < k ==> !#[trigger] rock_holds(s[j], p)
}

/// Some rock of `s` holds `p`.
pub open spec fn any_hit(s: Seq<Asteroid>, p: Vec2) -> bool {
    exists|j: int| 0 <= j < s.len() && #[trigger] rock_holds(s[j], p)
}

/// Some rock of `s` holds a vertex of either copy of the ship.
pub open spec fn ship_struck(ship: Ship, s: Seq<Asteroid>) -> bool {
    exists|j: int|
        0 <= j < s.len() && (any_vertex_in(ship.body.verts@, #[trigger] s[j]) || any_vertex_in(
            ship.body.ghost_verts@,
            s[j],
        ))
}

/// A rock after one tick: drifted, then wrapped.
pub open spec fn rock_after_tick(before: Asteroid, after: Asteroid) -> bool {
    let d = drift(before.vel, before.heading);
    let v = shift_all(before.body.verts@, d.x as int, d.y as int);
    &&& after.wf()
    &&& after.vel == before.vel
    &&& after.heading == before.heading
    &&& after.divided == before.divided
    &&& after.body.verts@ == next_primary(v)
    &&& after.body.ghost_verts@ == next_ghost(v)
}

/// `after` is `before` one tick of `dt` milliseconds on, the ship turning by `turn`: the
/// ship flies and turns, its lasers fly and expire, every rock drifts, and every body wraps.
pub open spec fn advanced(before: Game, after: Game, dt_ms: int, turn: Turn) -> bool {
    let dt = capped_dt(dt_ms);
    let vel = Vec2 {
        x: damped(before.ship.vel.x as int, before.ship.accel as int, dt) as i64,
        y: damped(before.ship.vel.y as int, before.ship.accel as int, dt) as i64,
    };
    let d = travel(vel, before.ship.heading, dt);
    let v = shift_all(rotate_all(before.ship.body.verts@, turn), d.x as int, d.y as int);
    &&& after.wf()
    &&& after.score == before.score
    &&& after.difficulty == before.difficulty
    &&& after.ship.vel == vel
    &&& after.ship.lasers@ == lasers_after(before.ship.lasers@, dt)
    &&& after.ship.body.verts@ == next_primary(v)
    &&& after.ship.body.ghost_verts@ == next_ghost(v)
    &&& after.ship.accel == before.ship.accel
    &&& after.ship.heading == before.ship.heading
    &&& after.ship.rot == before.ship.rot
    &&& after.ship.firing == before.ship.firing
    &&& after.asteroids@.len() == before.asteroids@.len()
    &&& forall|j: int|
        0 <= j < after.asteroids@.len() ==> rock_after_tick(
            before.asteroids@[j],
            #[trigger] after.asteroids@[j],
        )
}

/// Two ships that differ at most in their lasers.
pub open spec fn ship_same_but_lasers(a: Ship, b: Ship) -> bool {
    &&& a.body == b.body
    &&& a.vel == b.vel
    &&& a.accel == b.accel
    &&& a.heading == b.heading
    &&& a.rot == b.rot
    &&& a.firing == b.firing
}

/// Two sessions in the same state.
pub open spec fn same_state(a: Game, b: Game) -> bool {
    &&& ship_same_but_lasers(a.ship, b.ship)
    &&& a.ship.lasers@ == b.ship.lasers@
    &&& a.asteroids@ == b.asteroids@
    &&& a.score == b.score
    &&& a.difficulty == b.difficulty
}

/// Laser `i` of `g` breaks a rock: it lies in one, and there is room for the fragments.
pub open spec fn hit_applies(g: Game, i: int) -> bool {
    g.asteroids@.len() + 3 <= usize::MAX && any_hit(g.asteroids@, g.ship.lasers@[i].pos)
}

/// `h` is `g` after laser `i` has been tried against the rocks: where it lies in one, the
/// first such rock is broken, the laser is gone and the score rises; else nothing changes.
pub open spec fn laser_step(g: Game, i: int, h: Game) -> bool {
    let p = g.ship.lasers@[i].pos;
    &&& 0 <= i < g.ship.lasers@.len()
    &&& ship_same_but_lasers(g.ship, h.ship)
    &&& if hit_applies(g, i) {
        &&& exists|k: int|
            #[trigger] first_hit(g.asteroids@, p, k) && split_outcome(
                g.asteroids@,
                k,
                h.asteroids@,
                h.difficulty.speed_max as int,
            )
        &&& h.ship.lasers@ == g.ship.lasers@.remove(i)
        &&& h.score == scored(g.score as int)
        &&& h.difficulty.speed_max == escalated(g.difficulty.speed_max as int)
    } else {
        same_state(g, h)
    }
}

/// `cur` is `start` after the lasers from the last down to index `i` have each been tried,
/// in that order.
pub open spec fn laser_pass(start: Game, i: int, cur: Game) -> bool
    decreases (start.ship.lasers@.len() - i) as nat,
{
    if i < 0 || i >= start.ship.lasers@.len() {
        cur == start
    } else {
        exists|m: Game| laser_pass(start, i + 1, m) && #[trigger] laser_step(m, i, cur)
    }
}

/// A pass of a single laser that lies in a rock, with room for the fragments: the first
/// rock that holds it is broken as `split_outcome` states (a whole rock leaves two or three
/// fragments), the laser is gone, and the score rises by `SCORE_PER_HIT`.
pub proof fn lemma_single_laser_hit(start: Game, end: Game)
    requires
        start.ship.lasers@.len() == 1,
        hit_applies(start, 0),
        laser_pass(start, 0, end),
    ensures
        end.ship.lasers@.len() == 0,
        end.score == scored(start.score as int),
        end.difficulty.speed_max == escalated(start.difficulty.speed_max as int),
        exists|k: int|
            #[trigger] first_hit(start.asteroids@, start.ship.lasers@[0].pos, k) && split_outcome(
                start.asteroids@,
                k,
                end.asteroids@,
                end.difficulty.speed_max as int,
            ),
{
    let m = choose|m: Game| laser_pass(start, 1, m) && #[trigger] laser_step(m, 0, end);
    assert(m == start);
}

/// `h` is `g` after the spawn step: unchanged, or with one new full-size rock at the end
/// while there were fewer than `MAX_ASTEROIDS`.
pub open spec fn spawn_step(g: Game, h: Game) -> bool {
    &&& h.ship == g.ship
    &&& h.difficulty == g.difficulty
    &&& h.score == g.score
    &&& h.asteroids@ == g.asteroids@ || {
        &&& g.asteroids@.len() < MAX_ASTEROIDS
        &&& h.asteroids@.len() == g.asteroids@.len() + 1
        &&& h.asteroids@.drop_last() == g.asteroids@
        &&& full_size_at_edge(h.asteroids@.last(), g.difficulty.speed_max as int)
    }
}

/// How a tick ends from the state `hit` after the laser pass: the session is over exactly
/// when a rock holds the ship, and then nothing more happens; else everything moves.
pub open spec fn tick_end(hit: Game, after: Game, r: Outcome, dt_ms: int, turn: Turn) -> bool {
    &&& (r == Outcome::GameOver) == ship_struck(hit.ship, hit.asteroids@)
    &&& r == Outcome::GameOver ==> after == hit
    &&& r == Outcome::Running ==> advanced(hit, after, dt_ms, turn)
}

/// The session: the ship, the rocks, the difficulty and the score.
pub struct Game {
    pub ship: Ship,
    pub asteroids: Vec<Asteroid>,
    pub difficulty: Difficulty,
    pub score: u64,
}

impl Game {
    pub open spec fn wf(&self) -> bool {
        &&& self.ship.wf()
        &&& all_wf(self.asteroids@)
        &&& self.difficulty.wf()
    }

    /// A fresh session: the ship in the centre, the opening rocks at the edge, no score.
    pub fn new() -> (r: Game)
        ensures
            r.wf(),
            r.score == 0,
            r.difficulty.speed_max == crate::asteroid::SPEED_MAX_START,
            r.asteroids@.len() == crate::asteroid::ASTEROID_COUNT,
            forall|j: int|
                0 <= j < r.asteroids@.len() ==> #[trigger] full_size_at_edge(
                    r.asteroids@[j],
                    r.difficulty.speed_max as int,
                ),
            r.ship.lasers@.len() == 0,
    {
        let difficulty = Difficulty::new();
        let asteroids = Asteroid::new_vec(&difficulty);
        Game { ship: Ship::new(), asteroids, difficulty, score: 0 }
    }

    /// The first rock that holds `p`, if any.
    pub fn rock_at(&self, p: &Vec2) -> (r: Option<usize>)
        requires
            all_wf(self.asteroids@),
            point_ok(*p),
        ensures
            match r {
                Some(k) => first_hit(self.asteroids@, *p, k as int),
                None => !any_hit(self.asteroids@, *p),
            },
    {
        let mut k: usize = 0;
        while k < self.asteroids.len()
            invariant
                k <= self.asteroids@.len(),
                all_wf(self.asteroids@),
                point_ok(*p),
                forall|j: int| 0 <= j < k ==> !#[trigger] rock_holds(self.asteroids@[j], *p),
            decreases self.asteroids@.len() - k,
        {
            proof {
                assert(self.asteroids@[k as int].wf());
            }
            if self.asteroids[k].collision(p) {
                return Some(k);
            }
            k = k + 1;
        }
        None
    }

    /// Laser `i` against the rocks: where it lies in one, the first such rock breaks, the
    /// laser is gone and the score rises.
    pub fn hit_with_laser(&mut self, i: usize) -> (r: bool)
        requires
            old(self).wf(),
            i < old(self).ship.lasers@.len(),
        ensures
            final(self).wf(),
            laser_step(*old(self), i as int, *final(self)),
            r == hit_applies(*old(self), i as int),
    {
        let p = self.ship.lasers[i].pos;
        proof {
            assert(self.ship.lasers@[i as int].wf());
        }
        if self.asteroids.len() > usize::MAX - 3 {
            return false;
        }
        match self.rock_at(&p) {
            Some(k) => {
                self.asteroids.break_up(k, &mut self.difficulty);
                self.ship.remove_laser(i);
                if self.score <= u64::MAX - SCORE_PER_HIT {
                    self.score = self.score + SCORE_PER_HIT;
                } else {
                    self.score = u64::MAX;
                }
                assert(first_hit(old(self).asteroids@, p, k as int));
                true
            },
            None => false,
        }
    }

    /// Every laser, from the last to the first, against the rocks, each as
    /// `hit_with_laser` does it; returns how many hit.
    pub fn resolve_hits(&mut self) -> (hits: usize)
        requires
            old(self).wf(),
        ensures
            final(self).wf(),
            laser_pass(*old(self), 0, *final(self)),
            ship_same_but_lasers(old(self).ship, final(self).ship),
            hits <= old(self).ship.lasers@.len(),
            final(self).ship.lasers@.len() == old(self).ship.lasers@.len() - hits,
            final(self).score == scored_many(old(self).score as int, hits as int),
            hits == 0 ==> same_state(*old(self), *final(self)),
            old(self).asteroids@.len() + 3 <= usize::MAX ==> ((hits == 0) == !exists|j: int|
                0 <= j < old(self).ship.lasers@.len() && any_hit(
                    old(self).asteroids@,
                    (#[trigger] old(self).ship.lasers@[j]).pos,
                )),
    {
        let mut hits: usize = 0;
        let n0 = self.ship.lasers.len();
        let mut i: usize = n0;
        let ghost start = *self;
        while i > 0
            invariant
                self.wf(),
                start == *old(self),
                laser_pass(start, i as int, *self),
                ship_same_but_lasers(start.ship, self.ship),
                i <= self.ship.lasers@.len(),
                hits <= n0,
                self.ship.lasers@.len() == n0 - hits,
                i + hits <= n0,
                n0 == start.ship.lasers@.len(),
                self.score == scored_many(start.score as int, hits as int),
                hits == 0 ==> same_state(start, *self),
                hits == 0 ==> forall|j: int|
                    i <= j < n0 ==> !hit_applies(start, j),
                hits > 0 ==> exists|j: int|
                    i <= j < n0 && any_hit(start.asteroids@, (#[trigger] start.ship.lasers@[j]).pos),
            decreases i,
        {
            i = i - 1;
            let ghost prev = *self;
            let hit = self.hit_with_laser(i);
            proof {
                assert(laser_step(prev, i as int, *self));
                assert(laser_pass(start, i as int + 1, prev));
                assert(laser_pass(start, i as int, *self));
                if hits == 0 && hit {
                    assert(prev.ship.lasers@[i as int] == start.ship.lasers@[i as int]);
                    assert(any_hit(start.asteroids@, start.ship.lasers@[i as int].pos));
                }
                if hits == 0 && !hit {
                    assert(!hit_applies(start, i as int));
                }
            }
            if hit {
                hits = hits + 1;
            }
        }
        proof {
            if start.asteroids@.len() + 3 <= usize::MAX && hits == 0 {
                assert forall|j: int| 0 <= j < n0 implies !any_hit(
                    start.asteroids@,
                    (#[trigger] start.ship.lasers@[j]).pos,
                ) by {
                    assert(!hit_applies(start, j));
                }
            }
        }
        hits
    }


    /// Whether some rock holds a vertex of either copy of the ship.
    pub fn ship_hit(&self) -> (r: bool)
        requires
            self.wf(),
        ensures
            r == ship_struck(self.ship, self.asteroids@),
    {
        let mut j: usize = 0;
        while j < self.asteroids.len()
            invariant
                j <= self.asteroids@.len(),
                self.wf(),
                forall|k: int|
                    0 <= k < j ==> !(any_vertex_in(self.ship.body.verts@, #[trigger] self.asteroids@[k])
                        || any_vertex_in(self.ship.body.ghost_verts@, self.asteroids@[k])),
            decreases self.asteroids@.len() - j,
        {
            proof {
                assert(self.asteroids@[j as int].wf());
            }
            if self.ship.check_collision(&self.asteroids[j]) {
                return true;
            }
            j = j + 1;
        }
        false
    }

    /// With a roll of the dice in `0..1000`: a new full-size rock at the edge when the roll
    /// is below `SPAWN_PER_MILLE` and there are fewer than `MAX_ASTEROIDS` rocks.
    pub fn spawn_on_roll(&mut self, roll: i64) -> (r: bool)
        requires
            old(self).wf(),
        ensures
            final(self).wf(),
            r == (roll < SPAWN_PER_MILLE && old(self).asteroids@.len() < MAX_ASTEROIDS),
            spawn_step(*old(self), *final(self)),
            r ==> final(self).asteroids@.len() == old(self).asteroids@.len() + 1,
            r ==> final(self).asteroids@.drop_last() == old(self).asteroids@,
            r ==> full_size_at_edge(
                final(self).asteroids@.last(),
                final(self).difficulty.speed_max as int,
            ),
            !r ==> final(self).asteroids@ == old(self).asteroids@,
    {
        if roll < SPAWN_PER_MILLE && self.asteroids.len() < MAX_ASTEROIDS {
            let p = get_edge_pos();
            let a = Asteroid::new(BIG_MIN_R, BIG_MAX_R, p.x, p.y, &self.difficulty);
            proof {
                assert(crate::asteroid::spawned(
                    a,
                    p,
                    BIG_MIN_R as int,
                    BIG_MAX_R as int,
                    self.difficulty.speed_max as int,
                ));
            }
            self.asteroids.push(a);
            assert(self.asteroids@.drop_last() =~= old(self).asteroids@);
            assert forall|j: int| 0 <= j < self.asteroids@.len() implies #[trigger] self.asteroids@[j].wf() by {
                if j < old(self).asteroids@.len() {
                    assert(self.asteroids@[j] == old(self).asteroids@[j]);
                }
            }
            true
        } else {
            false
        }
    }

    /// With a chance of `SPAWN_PER_MILLE` in a thousand, a new full-size rock at the edge,
    /// while there are fewer than `MAX_ASTEROIDS`.
    pub fn spawn_ambient(&mut self) -> (r: bool)
        requires
            old(self).wf(),
        ensures
            final(self).wf(),
            spawn_step(*old(self), *final(self)),
            r ==> old(self).asteroids@.len() < MAX_ASTEROIDS,
            r ==> final(self).asteroids@.len() == old(self).asteroids@.len() + 1,
            !r ==> final(self).asteroids@ == old(self).asteroids@,
    {
        let roll = random_in(0, 1000);
        self.spawn_on_roll(roll)
    }


    /// The motion of one tick: the ship flies and turns, the rocks drift, and every body
    /// wraps round the field.
    pub fn advance(&mut self, dt_ms: u32, turn: Turn)
        requires
            old(self).wf(),
            turn_ok(turn),
        ensures
            advanced(*old(self), *final(self), dt_ms as int, turn),
    {
        self.ship.update(dt_ms, turn);
        wrap_verts(&mut self.ship.body);
        drift_all(&mut self.asteroids);
    }

    /// One tick: perhaps a new rock drifts in; lasers break the rocks they lie in; the
    /// session ends if a rock then holds the ship; else everything moves.
    pub fn step(&mut self, dt_ms: u32, turn: Turn) -> (r: Outcome)
        requires
            old(self).wf(),
            turn_ok(turn),
        ensures
            final(self).wf(),
            exists|spawned: Game, hit: Game|
                spawn_step(*old(self), spawned) && #[trigger] laser_pass(spawned, 0, hit) && tick_end(
                    hit,
                    *final(self),
                    r,
                    dt_ms as int,
                    turn,
                ),
    {
        self.spawn_ambient();
        let ghost spawned = *self;
        self.resolve_hits();
        let ghost hit = *self;
        if self.ship_hit() {
            assert(tick_end(hit, *self, Outcome::GameOver, dt_ms as int, turn));
            assert(laser_pass(spawned, 0, hit));
            return Outcome::GameOver;
        }
        self.advance(dt_ms, turn);
        assert(tick_end(hit, *self, Outcome::Running, dt_ms as int, turn));
        assert(laser_pass(spawned, 0, hit));
        Outcome::Running
    }
}


/// Drifts every rock one tick and wraps it round the field.
fn drift_all(asteroids: &mut Vec<Asteroid>)
    requires
        all_wf(old(asteroids)@),
    ensures
        all_wf(final(asteroids)@),
        final(asteroids)@.len() == old(asteroids)@.len(),
        forall|j: int|
            0 <= j < final(asteroids)@.len() ==> rock_after_tick(
                old(asteroids)@[j],
                #[trigger] final(asteroids)@[j],
            ),
{
    let n = asteroids.len();
    let mut moved: Vec<Asteroid> = Vec::new();
    let ghost start = asteroids@;
    while asteroids.len() > 0
        invariant
            moved@.len() + asteroids@.len() == n,
            n == start.len(),
            all_wf(start),
            asteroids@ == start.subrange(moved@.len() as int, n as int),
            forall|j: int| 0 <= j < moved@.len() ==> rock_after_tick(start[j], #[trigger] moved@[j]),
        decreases asteroids@.len(),
    {
        let mut a = asteroids.remove(0);
        proof {
            assert(a == start[moved@.len() as int]);
            assert(a.wf());
            assert(asteroids@ =~= start.subrange(moved@.len() as int + 1, n as int));
        }
        a.update();
        wrap_verts(&mut a.body);
        let ghost m = moved@;
        moved.push(a);
        proof {
            assert forall|j: int| 0 <= j < moved@.len() implies rock_after_tick(
                start[j],
                #[trigger] moved@[j],
            ) by {
                if j < m.len() {
                    assert(moved@[j] == m[j]);
                }
            }
        }
    }
    *asteroids = moved;
    assert forall|j: int| 0 <= j < asteroids@.len() implies #[trigger] asteroids@[j].wf() by {
        assert(rock_after_tick(start[j], asteroids@[j]));
    }
}

} // verus!
