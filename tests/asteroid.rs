use asteroids::asteroid::{
    divide_remove, edge_point, get_edge_pos, Asteroid, Difficulty, RemoveAsteroid, ASTEROID_COUNT, ASTEROID_VERTS,
    SPEED_MAX_START, SPEED_MIN, SPEED_STEP,
};
use asteroids::geometry::{get_center, Vec2, ONE, UNIT};
use asteroids::wrap::SIZE;

fn px(x: i64, y: i64) -> Vec2 {
    Vec2::new(x * UNIT, y * UNIT)
}

fn dist(a: Vec2, b: Vec2) -> f64 {
    (((a.x - b.x) as f64).powi(2) + ((a.y - b.y) as f64).powi(2)).sqrt()
}

/// The centre a rock was generated round: vertex 0 lies straight below it, vertex 5 to its right.
fn spawn_center(a: &Asteroid) -> Vec2 {
    Vec2::new(a.body.verts[0].x, a.body.verts[5].y)
}

fn on_edge(p: Vec2) -> bool {
    ((p.x == 0 || p.x == SIZE) && 0 <= p.y && p.y < SIZE) || ((p.y == 0 || p.y == SIZE) && 0 <= p.x && p.x < SIZE)
}

fn assert_rock_around(a: &Asteroid, c: Vec2, min_r: i64, max_r: i64) {
    assert_eq!(a.body.verts.len(), ASTEROID_VERTS);
    for v in &a.body.verts {
        let d = dist(*v, c);
        assert!(d >= ((min_r * UNIT) as f64) - 2.0 && d < ((max_r * UNIT) as f64) + 2.0, "{}", d);
    }
}

#[test]
fn new_rock_shape_and_motion() {
    let d = Difficulty::new();
    let a = Asteroid::new(40, 100, 300 * UNIT, 200 * UNIT, &d);
    assert_rock_around(&a, px(300, 200), 40, 100);
    assert_eq!(a.body.ghost_verts, a.body.verts);
    assert!(!a.divided);
    assert!(a.vel.x >= SPEED_MIN && a.vel.x < SPEED_MAX_START);
    assert!(a.vel.y >= SPEED_MIN && a.vel.y < SPEED_MAX_START);
    assert_eq!(a.body.verts[0].x, 300 * UNIT);
    assert_eq!(a.body.verts[5].y, 200 * UNIT);
    assert!(a.heading.x > 0 && a.heading.y > 0);
}

#[test]
fn new_rock_radii_vary() {
    let d = Difficulty::new();
    let a = Asteroid::new(40, 100, 400 * UNIT, 400 * UNIT, &d);
    let c = px(400, 400);
    let first = dist(a.body.verts[0], c).round();
    assert!(a.body.verts.iter().any(|v| dist(*v, c).round() != first));
}

#[test]
fn rock_heads_for_field_centre() {
    let d = Difficulty::new();
    let a = Asteroid::new(40, 41, 400 * UNIT, 0, &d);
    let c = get_center(&a.body.verts);
    assert!(c.y < 400 * UNIT);
    assert!(a.heading.x.abs() <= 100);
    assert!(a.heading.y > ONE - 100);
}

#[test]
fn drift_uses_speed_per_axis() {
    let d = Difficulty::new();
    let mut a = Asteroid::new(40, 100, 400 * UNIT, 400 * UNIT, &d);
    a.vel = Vec2::new(1500, 1200);
    a.heading = Vec2::new(600000, -800000);
    let before = a.body.verts.clone();
    a.update();
    for (v, b) in a.body.verts.iter().zip(before.iter()) {
        assert_eq!(v.x, b.x + 900);
        assert_eq!(v.y, b.y - 960);
    }
    assert_eq!(a.body.ghost_verts, a.body.verts);
}

#[test]
fn rock_collision_checks_both_copies() {
    let d = Difficulty::new();
    let mut a = Asteroid::new(40, 41, 400 * UNIT, 400 * UNIT, &d);
    assert!(a.collision(&px(400, 400)));
    assert!(!a.collision(&px(100, 100)));
    a.body.ghost_verts = a.body.verts.iter().map(|v| Vec2::new(v.x - 300 * UNIT, v.y - 300 * UNIT)).collect();
    assert!(a.collision(&px(100, 100)));
}

#[test]
fn edge_positions_lie_on_edge() {
    for _ in 0..200 {
        assert!(on_edge(get_edge_pos()));
    }
}

#[test]
fn opening_rocks_at_edge() {
    let d = Difficulty::new();
    let rocks = Asteroid::new_vec(&d);
    assert_eq!(rocks.len(), ASTEROID_COUNT);
    for a in &rocks {
        assert!(!a.divided);
        assert!(on_edge(spawn_center(a)));
        assert_rock_around(a, spawn_center(a), 40, 100);
    }
}

#[test]
fn whole_rock_splits_into_fragments_at_centroid() {
    for _ in 0..20 {
        let mut d = Difficulty::new();
        let other = Asteroid::new(40, 100, 100 * UNIT, 100 * UNIT, &d);
        let big = Asteroid::new(40, 100, 500 * UNIT, 500 * UNIT, &d);
        let c = get_center(&big.body.verts);
        let other_verts = other.body.verts.clone();
        let mut rocks = vec![other, big];
        divide_remove(&mut rocks, 1, &mut d);
        let children = rocks.len() - 1;
        assert!(children == 2 || children == 3, "{}", children);
        assert_eq!(rocks[0].body.verts, other_verts);
        for f in &rocks[1..] {
            assert!(f.divided);
            assert_eq!(spawn_center(f), c);
            assert_rock_around(f, c, 20, 50);
        }
        assert_eq!(d.speed_max, SPEED_MAX_START + SPEED_STEP);
    }
}

#[test]
fn fragment_leaves_no_children() {
    let mut d = Difficulty::new();
    let other = Asteroid::new(40, 100, 100 * UNIT, 100 * UNIT, &d);
    let other_verts = other.body.verts.clone();
    let frag = Asteroid::fragment(px(300, 300), &d);
    assert!(frag.divided);
    let mut rocks = vec![frag, other];
    rocks.break_up(0, &mut d);
    assert_eq!(rocks.len(), 1);
    assert_eq!(rocks[0].body.verts, other_verts);
}

#[test]
fn last_fragment_restarts_round() {
    let mut d = Difficulty::new();
    let frag = Asteroid::fragment(px(300, 300), &d);
    let mut rocks = vec![frag];
    rocks.break_up(0, &mut d);
    assert_eq!(rocks.len(), 2);
    for a in &rocks {
        assert!(!a.divided);
        assert!(on_edge(spawn_center(a)));
        assert_rock_around(a, spawn_center(a), 40, 100);
        assert!(a.vel.x < SPEED_MAX_START + SPEED_STEP);
    }
}

#[test]
fn difficulty_grows_with_every_split() {
    let mut d = Difficulty::new();
    for k in 1..=5 {
        let frag = Asteroid::fragment(px(300, 300), &d);
        let mut rocks = vec![frag, Asteroid::new(40, 100, 0, 0, &d)];
        rocks.break_up(0, &mut d);
        assert_eq!(d.speed_max, SPEED_MAX_START + k * SPEED_STEP);
    }
    let mut top = Difficulty { speed_max: i64::MAX - 1 };
    top.escalate();
    assert_eq!(top.speed_max, i64::MAX - 1);
}

#[test]
fn edge_point_moves_onto_chosen_side() {
    assert_eq!(edge_point(10, 20, 0), Vec2::new(0, 20 * UNIT));
    assert_eq!(edge_point(10, 20, 1), Vec2::new(SIZE, 20 * UNIT));
    assert_eq!(edge_point(10, 20, 2), Vec2::new(10 * UNIT, 0));
    assert_eq!(edge_point(10, 20, 3), Vec2::new(10 * UNIT, SIZE));
}

#[test]
fn edge_positions_are_whole_pixels() {
    for _ in 0..200 {
        let p = get_edge_pos();
        assert_eq!(p.x % UNIT, 0);
        assert_eq!(p.y % UNIT, 0);
    }
}
