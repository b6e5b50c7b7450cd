use asteroids::asteroid::{Asteroid, Difficulty};
use asteroids::geometry::{Vec2, ONE};
use asteroids::heading::heading_from_draw;

fn near_unit(h: Vec2) -> bool {
    let sq = h.x * h.x + h.y * h.y;
    ONE * ONE - 4 * ONE <= sq && sq <= ONE * ONE + 8 * ONE + 6
}

#[test]
fn draw_in_ring_gives_its_direction() {
    assert_eq!(heading_from_draw(600000, 800000), Some(Vec2::new(600000, 800000)));
    assert_eq!(heading_from_draw(-450000, 600000), Some(Vec2::new(-600000, 800000)));
    assert_eq!(heading_from_draw(ONE, 0), Some(Vec2::new(ONE, 0)));
}

#[test]
fn draw_outside_ring_is_refused() {
    assert_eq!(heading_from_draw(0, 0), None);
    assert_eq!(heading_from_draw(1, 1), None);
    assert_eq!(heading_from_draw(500000, 0), None);
    assert_eq!(heading_from_draw(ONE, ONE), None);
}

#[test]
fn ring_headings_have_unit_length() {
    for &(x, y) in &[(500001, 0), (700001, -700001), (-123457, 987653), (354000, -354000)] {
        let h = heading_from_draw(x, y).unwrap();
        assert!(near_unit(h), "{:?}", h);
    }
}

#[test]
fn fragment_headings_have_unit_length() {
    let d = Difficulty::new();
    for _ in 0..50 {
        let f = Asteroid::fragment(Vec2::new(300000, 300000), &d);
        assert!(near_unit(f.heading), "{:?}", f.heading);
    }
}

#[test]
fn draw_on_inner_radius_is_refused() {
    assert_eq!(heading_from_draw(-300000, 400000), None);
}
