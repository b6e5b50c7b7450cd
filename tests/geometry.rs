use asteroids::collision::point_in_polygon;
use asteroids::geometry::{convert_to_xy_vec, direction, get_center, rotate, translate, Turn, Vec2, ONE, UNIT};

fn px(x: i64, y: i64) -> Vec2 {
    Vec2::new(x * UNIT, y * UNIT)
}

fn square() -> Vec<Vec2> {
    vec![px(0, 0), px(10, 0), px(10, 10), px(0, 10)]
}

#[test]
fn centroid_is_mean_of_vertices() {
    let c = get_center(&square());
    assert_eq!(c, px(5, 5));
}

#[test]
fn centroid_rounds_down() {
    let verts = vec![Vec2::new(0, 0), Vec2::new(1, 0), Vec2::new(1, 1)];
    assert_eq!(get_center(&verts), Vec2::new(0, 0));
    let neg = vec![Vec2::new(-1, -1), Vec2::new(-1, -1), Vec2::new(0, 0)];
    assert_eq!(get_center(&neg), Vec2::new(-1, -1));
}

#[test]
fn zero_turn_leaves_polygon() {
    let mut verts = square();
    rotate(&mut verts, Turn { cos: ONE, sin: 0 });
    assert_eq!(verts, square());
}

#[test]
fn quarter_turn_about_centroid() {
    let mut verts = square();
    rotate(&mut verts, Turn { cos: 0, sin: ONE });
    assert_eq!(verts, vec![px(10, 0), px(10, 10), px(0, 10), px(0, 0)]);
    assert_eq!(get_center(&verts), px(5, 5));
}

#[test]
fn turn_and_back_returns_close_to_start() {
    let start = vec![px(100, 100), px(140, 110), px(120, 160)];
    let a: f64 = 0.7;
    let fwd = Turn { cos: (a.cos() * ONE as f64).round() as i64, sin: (a.sin() * ONE as f64).round() as i64 };
    let back = Turn { cos: fwd.cos, sin: -fwd.sin };
    let mut verts = start.clone();
    rotate(&mut verts, fwd);
    assert_ne!(verts, start);
    let c0 = get_center(&start);
    let c1 = get_center(&verts);
    assert!((c0.x - c1.x).abs() <= 3 && (c0.y - c1.y).abs() <= 3);
    rotate(&mut verts, back);
    for (v, s) in verts.iter().zip(start.iter()) {
        assert!((v.x - s.x).abs() <= 5, "{:?} {:?}", v, s);
        assert!((v.y - s.y).abs() <= 5, "{:?} {:?}", v, s);
    }
}

#[test]
fn translate_moves_every_vertex() {
    let mut verts = square();
    translate(&mut verts, Vec2::new(3, -4));
    assert_eq!(verts[0], Vec2::new(3, -4));
    assert_eq!(verts[2], Vec2::new(10 * UNIT + 3, 10 * UNIT - 4));
}

#[test]
fn magnitude_of_three_four() {
    assert_eq!(Vec2::new(3, 4).magnitude(), 5);
    assert_eq!(Vec2::new(-3, 4).magnitude(), 5);
    assert_eq!(Vec2::new(1, 1).magnitude(), 1);
    assert_eq!(Vec2::new(400000, 400000).magnitude(), 565685);
}

#[test]
fn direction_is_unit_length() {
    assert_eq!(direction(px(0, 0), px(0, -7)), Vec2::new(0, -ONE));
    assert_eq!(direction(px(0, 0), px(3, 4)), Vec2::new(600000, 800000));
    assert_eq!(direction(px(2, 2), px(2, 2)), Vec2::new(ONE, 0));
}

#[test]
fn point_inside_square() {
    assert!(point_in_polygon(&square(), &px(5, 5)));
}

#[test]
fn point_outside_square() {
    assert!(!point_in_polygon(&square(), &px(15, 5)));
    assert!(!point_in_polygon(&square(), &px(5, -1)));
}

#[test]
fn point_on_edge_is_consistent() {
    let first = point_in_polygon(&square(), &px(0, 5));
    for _ in 0..10 {
        assert_eq!(point_in_polygon(&square(), &px(0, 5)), first);
    }
}

#[test]
fn point_in_concave_polygon() {
    let u = vec![px(0, 0), px(30, 0), px(30, 30), px(20, 30), px(20, 10), px(10, 10), px(10, 30), px(0, 30)];
    assert!(point_in_polygon(&u, &px(5, 20)));
    assert!(!point_in_polygon(&u, &px(15, 20)));
    assert!(point_in_polygon(&u, &px(25, 20)));
}

#[test]
fn empty_polygon_holds_nothing() {
    assert!(!point_in_polygon(&Vec::new(), &px(0, 0)));
}

#[test]
fn pixels_round_down_and_saturate() {
    let verts = vec![Vec2::new(1500, -1), Vec2::new(40000 * UNIT, -40000 * UNIT)];
    let (xs, ys) = convert_to_xy_vec(&verts);
    assert_eq!(xs, vec![1, i16::MAX]);
    assert_eq!(ys, vec![-1, i16::MIN]);
}
