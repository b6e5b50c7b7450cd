use asteroids::asteroid::{Asteroid, Difficulty};
use asteroids::geometry::{Turn, Vec2, ONE, UNIT};
use asteroids::ship::{Action, Laser, Ship, LASER_SPEED, MAX_DT_MS, ROTATION_AMOUNT};
use asteroids::wrap::MID_SIZE;

const STILL: Turn = Turn { cos: ONE, sin: 0 };

#[test]
fn new_ship_at_centre_nose_up() {
    let ship = Ship::new();
    let v = ship.get_verts();
    assert_eq!(v.len(), 3);
    assert_eq!(v[0], Vec2::new(MID_SIZE - 17500, MID_SIZE + 17500));
    assert_eq!(v[1], Vec2::new(MID_SIZE + 17500, MID_SIZE + 17500));
    assert_eq!(v[2], Vec2::new(MID_SIZE, MID_SIZE - 35000));
    assert_eq!(ship.get_ghost_verts(), v);
    assert!(ship.get_lasers().is_empty());
}

#[test]
fn rotate_keys_set_turn_rate() {
    let mut ship = Ship::new();
    ship.do_action(Action::RotateRight);
    assert_eq!(ship.rot, ROTATION_AMOUNT);
    assert_eq!(ship.turn_angle(16), 64000);
    ship.do_action(Action::RotateLeft);
    assert_eq!(ship.rot, -ROTATION_AMOUNT);
    assert_eq!(ship.turn_angle(16), -64000);
    assert_eq!(ship.turn_angle(5000), -400000);
    ship.do_action(Action::RotateStop);
    assert_eq!(ship.rot, 0);
}

#[test]
fn thrust_aims_at_nose_and_accelerates() {
    let mut ship = Ship::new();
    ship.do_action(Action::ThrustStart);
    assert_eq!(ship.heading, Vec2::new(0, -ONE));
    assert_eq!(ship.accel, 10);
    ship.do_action(Action::ThrustStart);
    assert_eq!(ship.accel, 20);
    ship.do_action(Action::ThrustStop);
    assert_eq!(ship.accel, 0);
}

#[test]
fn thrust_stops_at_top_speed() {
    let mut ship = Ship::new();
    ship.accel = 30;
    ship.vel = Vec2::new(500000, 500000);
    ship.do_action(Action::ThrustStart);
    assert_eq!(ship.accel, 0);
}

#[test]
fn fire_is_debounced() {
    let mut ship = Ship::new();
    ship.do_action(Action::Fire);
    assert_eq!(ship.get_lasers().len(), 1);
    let l = ship.get_lasers()[0];
    assert_eq!(*l.get_pos(), Vec2::new(MID_SIZE, MID_SIZE - 35000));
    assert_eq!(l.heading, Vec2::new(0, -ONE));
    assert_eq!(l.ddelta, 0);
    ship.do_action(Action::Fire);
    assert_eq!(ship.get_lasers().len(), 1);
    ship.do_action(Action::FireStop);
    ship.do_action(Action::Fire);
    assert_eq!(ship.get_lasers().len(), 2);
}

#[test]
fn update_decays_then_accelerates_then_moves() {
    let mut ship = Ship::new();
    ship.do_action(Action::ThrustStart);
    ship.update(16, STILL);
    assert_eq!(ship.vel, Vec2::new(8000, 8000));
    assert_eq!(ship.get_verts()[2], Vec2::new(MID_SIZE, MID_SIZE - 35000 - 128));
    ship.do_action(Action::ThrustStop);
    ship.update(16, STILL);
    assert_eq!(ship.vel, Vec2::new(7840, 7840));
}

#[test]
fn long_pause_counts_as_capped_tick() {
    let mut a = Ship::new();
    let mut b = Ship::new();
    a.accel = 10;
    b.accel = 10;
    a.update(MAX_DT_MS, STILL);
    b.update(60000, STILL);
    assert_eq!(a.vel, b.vel);
    assert_eq!(a.get_verts(), b.get_verts());
}

#[test]
fn ship_turns_about_its_centroid() {
    let mut ship = Ship::new();
    ship.update(16, Turn { cos: -ONE, sin: 0 });
    let v = ship.get_verts();
    assert_eq!(v[2].x, MID_SIZE);
    assert!(v[2].y > MID_SIZE);
}

#[test]
fn laser_flies_and_counts_distance() {
    let mut l = Laser::new(Vec2::new(1000, 1000), Vec2::new(ONE, 0));
    l.update(100);
    assert_eq!(l.pos, Vec2::new(1000 + 40000, 1000));
    assert_eq!(l.ddelta, 56568);
    assert_eq!(l.vel, Vec2::new(LASER_SPEED, LASER_SPEED));
}

#[test]
fn lasers_expire_after_their_range() {
    let mut ship = Ship::new();
    ship.do_action(Action::Fire);
    let mut ticks = 0;
    while !ship.get_lasers().is_empty() {
        ship.update(100, STILL);
        ticks += 1;
        assert!(ticks < 100);
    }
    assert_eq!(ticks, 18);
}

#[test]
fn lasers_wrap_round_the_field() {
    let mut ship = Ship::new();
    ship.do_action(Action::Fire);
    for _ in 0..11 {
        ship.update(100, STILL);
    }
    let p = *ship.get_lasers()[0].get_pos();
    assert!(p.y >= 0);
    assert_eq!(p.y, MID_SIZE - 35000 - 11 * 40000 + 800 * UNIT);
}

#[test]
fn remove_laser_keeps_others() {
    let mut ship = Ship::new();
    ship.do_action(Action::Fire);
    ship.do_action(Action::FireStop);
    ship.do_action(Action::RotateRight);
    ship.update(100, Turn { cos: 0, sin: ONE });
    ship.do_action(Action::Fire);
    let second = ship.get_lasers()[1];
    ship.remove_laser(0);
    assert_eq!(ship.get_lasers().len(), 1);
    assert_eq!(ship.get_lasers()[0], second);
}

#[test]
fn ship_collides_when_vertex_inside_rock() {
    let d = Difficulty::new();
    let ship = Ship::new();
    let near = Asteroid::new(40, 41, MID_SIZE, MID_SIZE - 60 * UNIT, &d);
    let far = Asteroid::new(40, 41, 100 * UNIT, 100 * UNIT, &d);
    assert!(ship.check_collision(&near));
    assert!(!ship.check_collision(&far));
}
