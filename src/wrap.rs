use vstd::prelude::*;
use crate::geometry::{Turn, Vec2, UNIT, point_ok, points_ok, rotate, rotate_all, shifted, translate, turn_ok};

verus! {

/// Side of the square playing field, in pixels.
pub const FIELD_PIXELS: i64 = 800;

/// Side of the square playing field, in sub-pixel units.
pub const SIZE: i64 = FIELD_PIXELS * UNIT;

/// Half the side of the field: its centre on each axis.
pub const MID_SIZE: i64 = 400 * UNIT;

pub open spec fn any_x_below(s: Seq<Vec2>) -> bool {
    exists|i: int| 0 <= i < s.len() && #[trigger] s[i].x < 0
}

pub open spec fn any_x_above(s: Seq<Vec2>) -> bool {
    exists|i: int| 0 <= i < s.len() && #[trigger] s[i].x > SIZE
}

pub open spec fn any_y_below(s: Seq<Vec2>) -> bool {
    exists|i: int| 0 <= i < s.len() && #[trigger] s[i].y < 0
}

pub open spec fn any_y_above(s: Seq<Vec2>) -> bool {
    exists|i: int| 0 <= i < s.len() && #[trigger] s[i].y > SIZE
}

/// The shift that brings the shape in from the opposite edge along x:
/// `-SIZE` past the high edge, `SIZE` past the low edge, else zero.
pub open spec fn offset_x(s: Seq<Vec2>) -> int {
    if any_x_above(s) {
        -SIZE as int
    } else if any_x_below(s) {
        SIZE as int
    } else {
        0
    }
}

/// The same along y.
pub open spec fn offset_y(s: Seq<Vec2>) -> int {
    if any_y_above(s) {
        -SIZE as int
    } else if any_y_below(s) {
        SIZE as int
    } else {
        0
    }
}

/// Whether a point lies outside the closed field square.
pub open spec fn outside_field(v: Vec2) -> bool {
    v.x < 0 || v.x > SIZE || v.y < 0 || v.y > SIZE
}

/// Whether a point lies in the closed field square.
pub open spec fn in_field(v: Vec2) -> bool {
    !outside_field(v)
}

/// Whether every vertex has left the field.
pub open spec fn fully_exited(s: Seq<Vec2>) -> bool {
    forall|i: int| 0 <= i < s.len() ==> #[trigger] outside_field(s[i])
}

pub open spec fn shift_all(s: Seq<Vec2>, dx: int, dy: int) -> Seq<Vec2> {
    Seq::new(s.len(), |i: int| shifted(s[i], dx, dy))
}

/// The ghost after one wrap step: the primary moved by the offsets, which is the
/// primary itself where both offsets are zero.
pub open spec fn next_ghost(primary: Seq<Vec2>) -> Seq<Vec2> {
    shift_all(primary, offset_x(primary), offset_y(primary))
}

/// The primary after one wrap step: the new ghost once the primary has fully exited.
pub open spec fn next_primary(primary: Seq<Vec2>) -> Seq<Vec2> {
    if fully_exited(primary) {
        next_ghost(primary)
    } else {
        primary
    }
}

/// A shape that wraps round the field: the primary copy, and a ghost copy that
/// mirrors it across the edge it is crossing.
pub struct Body {
    pub verts: Vec<Vec2>,
    pub ghost_verts: Vec<Vec2>,
}

impl Body {
    pub open spec fn wf(&self) -> bool {
        &&& self.verts@.len() > 0
        &&& self.ghost_verts@.len() == self.verts@.len()
        &&& points_ok(self.verts@)
        &&& points_ok(self.ghost_verts@)
    }

    /// A body whose ghost starts on top of its primary.
    pub fn new(verts: Vec<Vec2>) -> (r: Body)
        requires
            verts@.len() > 0,
            points_ok(verts@),
        ensures
            r.wf(),
            r.verts@ == verts@,
            r.ghost_verts@ == verts@,
    {
        let ghost_verts = copy_points(&verts);
        Body { verts, ghost_verts }
    }

    pub fn get_verts(&self) -> (r: &Vec<Vec2>)
        ensures
            r@ == self.verts@,
    {
        &self.verts
    }

    pub fn get_ghost_verts(&self) -> (r: &Vec<Vec2>)
        ensures
            r@ == self.ghost_verts@,
    {
        &self.ghost_verts
    }

    /// Promotes the ghost: both copies take the ghost's place.
    pub fn swap(&mut self)
        requires
            old(self).wf(),
        ensures
            final(self).wf(),
            final(self).verts@ == old(self).ghost_verts@,
            final(self).ghost_verts@ == old(self).ghost_verts@,
    {
        self.verts = copy_points(&self.ghost_verts);
    }

    /// Moves both copies by `d`.
    pub fn translate(&mut self, d: Vec2)
        requires
            old(self).wf(),
        ensures
            final(self).wf(),
            final(self).verts@ == shift_all(old(self).verts@, d.x as int, d.y as int),
            final(self).ghost_verts@ == shift_all(old(self).ghost_verts@, d.x as int, d.y as int),
    {
        translate(&mut self.verts, d);
        translate(&mut self.ghost_verts, d);
        assert(self.verts@ =~= shift_all(old(self).verts@, d.x as int, d.y as int));
        assert(self.ghost_verts@ =~= shift_all(old(self).ghost_verts@, d.x as int, d.y as int));
    }
}

impl Body {
    /// Turns each copy about its own centroid.
    pub fn rotate(&mut self, turn: Turn)
        requires
            old(self).wf(),
            turn_ok(turn),
        ensures
            final(self).wf(),
            final(self).verts@ == rotate_all(old(self).verts@, turn),
            final(self).ghost_verts@ == rotate_all(old(self).ghost_verts@, turn),
    {
        rotate(&mut self.verts, turn);
        rotate(&mut self.ghost_verts, turn);
    }
}

/// Whether a point lies strictly inside the field.
pub open spec fn strictly_inside(v: Vec2) -> bool {
    0 < v.x < SIZE && 0 < v.y < SIZE
}

impl Body {
    /// Whether the ghost is worth drawing: some vertex of the primary is not strictly
    /// inside the field.
    pub fn ghost_visible(&self) -> (r: bool)
        ensures
            r == exists|i: int| 0 <= i < self.verts@.len() && !#[trigger] strictly_inside(self.verts@[i]),
    {
        let mut i: usize = 0;
        while i < self.verts.len()
            invariant
                i <= self.verts@.len(),
                forall|k: int| 0 <= k < i ==> #[trigger] strictly_inside(self.verts@[k]),
            decreases self.verts@.len() - i,
        {
            let v = self.verts[i];
            if !(0 < v.x && v.x < SIZE && 0 < v.y && v.y < SIZE) {
                assert(!strictly_inside(self.verts@[i as int]));
                return true;
            }
            i = i + 1;
        }
        false
    }
}

pub fn copy_points(v: &Vec<Vec2>) -> (r: Vec<Vec2>)
    ensures
        r@ == v@,
{
    let mut r: Vec<Vec2> = Vec::with_capacity(v.len());
    let mut i: usize = 0;
    while i < v.len()
        invariant
            i <= v@.len(),
            r@ == v@.take(i as int),
        decreases v@.len() - i,
    {
        r.push(v[i]);
        i = i + 1;
        assert(r@ =~= v@.take(i as int));
    }
    assert(v@.take(v@.len() as int) =~= v@);
    r
}

/// Recomputes the ghost from the primary wherever the primary crosses an edge,
/// and promotes the ghost once the primary has fully left the field.
pub fn wrap_verts(main: &mut Body)
    requires
        old(main).wf(),
    ensures
        final(main).wf(),
        final(main).ghost_verts@ == next_ghost(old(main).verts@),
        final(main).verts@ == next_primary(old(main).verts@),
{
    let n = main.verts.len();
    let mut lo_x = false;
    let mut hi_x = false;
    let mut lo_y = false;
    let mut hi_y = false;
    let mut all_out = true;
    let mut i: usize = 0;
    while i < n
        invariant
            n == main.verts@.len(),
            i <= n,
            lo_x == exists|k: int| 0 <= k < i && #[trigger] main.verts@[k].x < 0,
            hi_x == exists|k: int| 0 <= k < i && #[trigger] main.verts@[k].x > SIZE,
            lo_y == exists|k: int| 0 <= k < i && #[trigger] main.verts@[k].y < 0,
            hi_y == exists|k: int| 0 <= k < i && #[trigger] main.verts@[k].y > SIZE,
            all_out == forall|k: int| 0 <= k < i ==> #[trigger] outside_field(main.verts@[k]),
        decreases n - i,
    {
        let v = main.verts[i];
        if v.x < 0 {
            lo_x = true;
        }
        if v.x > SIZE {
            hi_x = true;
        }
        if v.y < 0 {
            lo_y = true;
        }
        if v.y > SIZE {
            hi_y = true;
        }
        if !(v.x < 0 || v.x > SIZE || v.y < 0 || v.y > SIZE) {
            all_out = false;
        }
        proof {
            let ii = i as int;
            assert(main.verts@[ii] == v);
            assert(outside_field(main.verts@[ii]) == (v.x < 0 || v.x > SIZE || v.y < 0 || v.y
                > SIZE));
            assert(all_out == forall|k: int|
                0 <= k < ii + 1 ==> #[trigger] outside_field(main.verts@[k])) by {
                if !all_out {
                    if !outside_field(main.verts@[ii]) {
                    }
                }
            }
        }
        i = i + 1;
    }
    let dx: i64 = if hi_x {
        -SIZE
    } else if lo_x {
        SIZE
    } else {
        0
    };
    let dy: i64 = if hi_y {
        -SIZE
    } else if lo_y {
        SIZE
    } else {
        0
    };
    {
        let mut g = copy_points(&main.verts);
        let d = Vec2 { x: dx, y: dy };
        let ghost g0 = g@;
        translate(&mut g, d);
        assert(g0 == main.verts@);
        assert(forall|k: int| 0 <= k < g0.len() ==> g@[k] == #[trigger] shifted(g0[k], d.x as int, d.y as int));
        assert forall|k: int| 0 <= k < g@.len() implies g@[k] == shift_all(
            main.verts@,
            dx as int,
            dy as int,
        )[k] by {
            assert(g@[k] == shifted(g0[k], d.x as int, d.y as int));
            assert(g0[k] == main.verts@[k]);
        }
        assert(g@ =~= shift_all(main.verts@, dx as int, dy as int));
        main.ghost_verts = g;
    }
    if all_out {
        main.swap();
    }
}

/// Re-enters a point that has crossed an edge at the opposite edge, each axis on its own.
pub open spec fn wrapped_coord(c: int) -> int {
    let c1 = if c < 0 {
        c + SIZE
    } else {
        c
    };
    if c1 > SIZE {
        c1 - SIZE
    } else {
        c1
    }
}

impl Vec2 {
    pub fn wrap_point(&mut self)
        requires
            point_ok(*old(self)),
        ensures
            point_ok(*final(self)),
            final(self).x == wrapped_coord(old(self).x as int),
            final(self).y == wrapped_coord(old(self).y as int),
    {
        if self.y < 0 {
            self.y = self.y + SIZE;
        }
        if self.y > SIZE {
            self.y = self.y - SIZE;
        }
        if self.x < 0 {
            self.x = self.x + SIZE;
        }
        if self.x > SIZE {
            self.x = self.x - SIZE;
        }
    }
}

/// For a body lying wholly in the field both offsets are zero: the ghost becomes
/// identical to the primary, and the primary stays where it is.
pub proof fn lemma_in_field_ghost_matches(primary: Seq<Vec2>)
    requires
        primary.len() > 0,
        points_ok(primary),
        forall|i: int| 0 <= i < primary.len() ==> #[trigger] in_field(primary[i]),
    ensures
        offset_x(primary) == 0,
        offset_y(primary) == 0,
        next_ghost(primary) == primary,
        next_primary(primary) == primary,
{
    assert forall|i: int| 0 <= i < primary.len() implies 0 <= #[trigger] primary[i].x <= SIZE by {
        assert(in_field(primary[i]));
    }
    assert forall|i: int| 0 <= i < primary.len() implies 0 <= #[trigger] primary[i].y <= SIZE by {
        assert(in_field(primary[i]));
    }
    assert(in_field(primary[0]));
    assert(!fully_exited(primary));
    assert forall|i: int| 0 <= i < primary.len() implies #[trigger] next_ghost(primary)[i] == primary[i] by {
        assert(point_ok(primary[i]));
    }
    assert(next_ghost(primary) =~= primary);
}

} // verus!
