use asteroids::asteroid::{Asteroid, Difficulty, MAX_ASTEROIDS};
use asteroids::game::{Game, Outcome};
use asteroids::geometry::{get_center, Turn, Vec2, ONE, UNIT};
use asteroids::ship::{Action, Laser, Ship};
use asteroids::wrap::MID_SIZE;

const STILL: Turn = Turn { cos: ONE, sin: 0 };

fn game_with(rocks: Vec<Asteroid>, d: Difficulty) -> Game {
    Game { ship: Ship::new(), asteroids: rocks, difficulty: d, score: 0 }
}

#[test]
fn fresh_game() {
    let g = Game::new();
    assert_eq!(g.score, 0);
    assert_eq!(g.asteroids.len(), 3);
    assert!(g.ship.get_lasers().is_empty());
}

#[test]
fn laser_breaks_whole_rock_and_scores() {
    let d = Difficulty::new();
    let far = Asteroid::new(40, 100, 100 * UNIT, 100 * UNIT, &d);
    let rock = Asteroid::new(40, 100, 600 * UNIT, 600 * UNIT, &d);
    let far_verts = far.body.verts.clone();
    let mut g = game_with(vec![far, rock], d);
    g.ship.lasers.push(Laser::new(Vec2::new(600 * UNIT, 600 * UNIT), Vec2::new(ONE, 0)));
    let hits = g.resolve_hits();
    assert_eq!(hits, 1);
    assert_eq!(g.score, 10);
    assert!(g.ship.get_lasers().is_empty());
    let children = g.asteroids.len() - 1;
    assert!(children == 2 || children == 3);
    assert_eq!(g.asteroids[0].body.verts, far_verts);
    assert!(g.asteroids[1..].iter().all(|a| a.divided));
}

#[test]
fn laser_that_misses_stays() {
    let d = Difficulty::new();
    let rock = Asteroid::new(40, 41, 600 * UNIT, 600 * UNIT, &d);
    let mut g = game_with(vec![rock], d);
    g.ship.lasers.push(Laser::new(Vec2::new(100 * UNIT, 600 * UNIT), Vec2::new(ONE, 0)));
    assert!(!g.hit_with_laser(0));
    assert_eq!(g.resolve_hits(), 0);
    assert_eq!(g.score, 0);
    assert_eq!(g.ship.get_lasers().len(), 1);
    assert_eq!(g.asteroids.len(), 1);
}

#[test]
fn laser_hits_first_rock_only() {
    let d = Difficulty::new();
    let a = Asteroid::fragment(Vec2::new(600 * UNIT, 600 * UNIT), &d);
    let b = Asteroid::fragment(Vec2::new(600 * UNIT, 600 * UNIT), &d);
    let b_verts = b.body.verts.clone();
    let mut g = game_with(vec![a, b], d);
    g.ship.lasers.push(Laser::new(Vec2::new(600 * UNIT, 600 * UNIT), Vec2::new(ONE, 0)));
    assert_eq!(g.rock_at(&Vec2::new(600 * UNIT, 600 * UNIT)), Some(0));
    assert!(g.hit_with_laser(0));
    assert_eq!(g.asteroids.len(), 1);
    assert_eq!(g.asteroids[0].body.verts, b_verts);
    assert_eq!(g.score, 10);
}

#[test]
fn nose_in_rock_ends_session() {
    let d = Difficulty::new();
    let rock = Asteroid::new(40, 41, MID_SIZE, MID_SIZE - 60 * UNIT, &d);
    let mut g = game_with(vec![rock], d);
    assert!(g.ship_hit());
    let ship_before = g.ship.get_verts().clone();
    assert_eq!(g.step(16, STILL), Outcome::GameOver);
    assert_eq!(g.ship.get_verts(), &ship_before);
}

#[test]
fn clear_field_keeps_running() {
    let d = Difficulty::new();
    let rock = Asteroid::new(40, 41, 100 * UNIT, 100 * UNIT, &d);
    let mut g = game_with(vec![rock], d);
    assert!(!g.ship_hit());
    assert_eq!(g.step(16, STILL), Outcome::Running);
}

#[test]
fn fired_laser_breaks_rock_ahead() {
    let d = Difficulty::new();
    let rock = Asteroid::new(40, 41, MID_SIZE, MID_SIZE - 200 * UNIT, &d);
    let mut g = game_with(vec![rock], d);
    g.ship.do_action(Action::Fire);
    let mut broke = false;
    for _ in 0..20 {
        assert_eq!(g.step(50, STILL), Outcome::Running);
        if g.score == 10 {
            broke = true;
            break;
        }
    }
    assert!(broke);
    assert!(g.ship.get_lasers().is_empty());
    assert!(g.asteroids.iter().filter(|a| a.divided).count() >= 2);
}

#[test]
fn advance_moves_rocks_and_wraps() {
    let d = Difficulty::new();
    let mut rock = Asteroid::new(40, 41, 20 * UNIT, 400 * UNIT, &d);
    rock.vel = Vec2::new(1000, 1000);
    rock.heading = Vec2::new(-ONE, 0);
    let c0 = get_center(&rock.body.verts);
    let mut g = game_with(vec![rock], d);
    g.advance(16, STILL);
    let a = &g.asteroids[0];
    let c1 = get_center(&a.body.verts);
    assert_eq!(c1.x, c0.x - 1000);
    assert_eq!(get_center(&a.body.ghost_verts).x, c1.x + 800 * UNIT);
}

#[test]
fn ambient_spawn_respects_cap() {
    let d = Difficulty::new();
    let rocks: Vec<Asteroid> = (0..MAX_ASTEROIDS).map(|_| Asteroid::new(40, 100, 0, 0, &d)).collect();
    let mut g = game_with(rocks, d);
    for _ in 0..2000 {
        assert!(!g.spawn_ambient());
    }
    assert_eq!(g.asteroids.len(), MAX_ASTEROIDS);
}

#[test]
fn ambient_spawn_adds_one_rock_sometimes() {
    let mut g = Game::new();
    let mut spawned = 0;
    for _ in 0..5000 {
        let before = g.asteroids.len();
        if g.spawn_ambient() {
            spawned += 1;
            assert_eq!(g.asteroids.len(), before + 1);
            assert!(!g.asteroids.last().unwrap().divided);
        } else {
            assert_eq!(g.asteroids.len(), before);
        }
    }
    assert!(spawned > 0);
    assert!(g.asteroids.len() <= MAX_ASTEROIDS);
}

#[test]
fn roll_below_chance_spawns() {
    let mut g = Game::new();
    assert!(g.spawn_on_roll(4));
    assert_eq!(g.asteroids.len(), 4);
    assert!(!g.spawn_on_roll(5));
    assert!(!g.spawn_on_roll(999));
    assert_eq!(g.asteroids.len(), 4);
}

#[test]
fn roll_at_cap_does_not_spawn() {
    let d = Difficulty::new();
    let rocks: Vec<Asteroid> = (0..MAX_ASTEROIDS).map(|_| Asteroid::new(40, 100, 0, 0, &d)).collect();
    let mut g = game_with(rocks, d);
    assert!(!g.spawn_on_roll(0));
    assert_eq!(g.asteroids.len(), MAX_ASTEROIDS);
}

#[test]
fn every_laser_in_a_rock_hits() {
    let d = Difficulty::new();
    let a = Asteroid::fragment(Vec2::new(600 * UNIT, 600 * UNIT), &d);
    let b = Asteroid::fragment(Vec2::new(200 * UNIT, 200 * UNIT), &d);
    let c = Asteroid::new(40, 100, 100 * UNIT, 700 * UNIT, &d);
    let mut g = game_with(vec![a, b, c], d);
    g.ship.lasers.push(Laser::new(Vec2::new(600 * UNIT, 600 * UNIT), Vec2::new(ONE, 0)));
    g.ship.lasers.push(Laser::new(Vec2::new(400 * UNIT, 100 * UNIT), Vec2::new(ONE, 0)));
    g.ship.lasers.push(Laser::new(Vec2::new(200 * UNIT, 200 * UNIT), Vec2::new(ONE, 0)));
    assert_eq!(g.resolve_hits(), 2);
    assert_eq!(g.score, 20);
    assert_eq!(g.ship.get_lasers().len(), 1);
    assert_eq!(*g.ship.get_lasers()[0].get_pos(), Vec2::new(400 * UNIT, 100 * UNIT));
    assert_eq!(g.asteroids.len(), 1);
}
