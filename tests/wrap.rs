use asteroids::geometry::{Vec2, UNIT};
use asteroids::wrap::{wrap_verts, Body, SIZE};

fn px(x: i64, y: i64) -> Vec2 {
    Vec2::new(x * UNIT, y * UNIT)
}

#[test]
fn body_inside_field_is_unchanged() {
    let verts = vec![px(100, 100), px(120, 100), px(110, 130)];
    let mut body = Body::new(verts.clone());
    wrap_verts(&mut body);
    assert_eq!(body.verts, verts);
    assert_eq!(body.ghost_verts, verts);
}

#[test]
fn vertex_past_left_edge_gets_ghost_on_right() {
    let verts = vec![px(-1, 100), px(20, 100), px(10, 130)];
    let mut body = Body::new(verts.clone());
    wrap_verts(&mut body);
    assert_eq!(SIZE, 800 * UNIT);
    assert_eq!(body.verts, verts);
    assert_eq!(body.ghost_verts[0], px(799, 100));
    assert_eq!(body.ghost_verts[1], px(820, 100));
    assert_eq!(body.ghost_verts[2], px(810, 130));
}

#[test]
fn vertex_past_bottom_right_corner_shifts_both_axes() {
    let verts = vec![px(790, 790), px(805, 790), px(790, 806)];
    let mut body = Body::new(verts.clone());
    wrap_verts(&mut body);
    assert_eq!(body.ghost_verts, vec![px(-10, -10), px(5, -10), px(-10, 6)]);
    assert_eq!(body.verts, verts);
}

#[test]
fn fully_exited_body_promotes_ghost() {
    let verts = vec![px(-30, 100), px(-10, 100), px(-20, 130)];
    let mut body = Body::new(verts);
    wrap_verts(&mut body);
    let expected = vec![px(770, 100), px(790, 100), px(780, 130)];
    assert_eq!(body.verts, expected);
    assert_eq!(body.ghost_verts, expected);
}

#[test]
fn swap_resynchronises_copies() {
    let mut body = Body::new(vec![px(1, 1), px(2, 1), px(1, 2)]);
    body.ghost_verts = vec![px(5, 5), px(6, 5), px(5, 6)];
    body.swap();
    assert_eq!(body.verts, body.ghost_verts);
    assert_eq!(body.verts, vec![px(5, 5), px(6, 5), px(5, 6)]);
}

#[test]
fn point_wraps_each_axis() {
    let mut p = px(-1, 801);
    p.wrap_point();
    assert_eq!(p, px(799, 1));
    let mut q = px(400, 400);
    q.wrap_point();
    assert_eq!(q, px(400, 400));
    let mut r = Vec2::new(SIZE, 0);
    r.wrap_point();
    assert_eq!(r, Vec2::new(SIZE, 0));
}

#[test]
fn ghost_drawn_only_near_edges() {
    let inside = Body::new(vec![px(100, 100), px(120, 100), px(110, 130)]);
    assert!(!inside.ghost_visible());
    let touching = Body::new(vec![px(0, 100), px(20, 100), px(10, 130)]);
    assert!(touching.ghost_visible());
}

#[test]
fn stale_ghost_resets_inside_field() {
    let verts = vec![px(100, 100), px(120, 100), px(110, 130)];
    let mut body = Body::new(verts.clone());
    body.ghost_verts = vec![px(900, 100), px(920, 100), px(910, 130)];
    wrap_verts(&mut body);
    assert_eq!(body.verts, verts);
    assert_eq!(body.ghost_verts, verts);
}
