use vstd::prelude::*;
use crate::grid::Point;

verus! {

/// The largest coordinate or size that the collision test takes.
pub const COORD_LIMIT: i64 = 0x1000_0000_0000_0000;

/// Where a moving rectangle is hit, seen from the rectangle that hits it:
/// `Left` means the hitting rectangle sticks into it from the left.
#[derive(Clone, Copy, Debug, PartialEq, Eq, Structural)]
pub enum Collision {
    Left,
    Right,
    Top,
    Bottom,
    Inside,
}

/// An axis-aligned rectangle: its center and its full width and height.
#[derive(Clone, Copy, Debug, PartialEq, Eq, Structural)]
pub struct Rect {
    pub center: Point,
    pub size: Point,
}

impl Rect {
    pub fn new(center: Point, size: Point) -> (r: Rect)
        ensures
            r == (Rect { center, size }),
    {
        Rect { center, size }
    }
}

pub open spec fn rect_ok(r: Rect) -> bool {
    &&& -COORD_LIMIT <= r.center.x <= COORD_LIMIT
    &&& -COORD_LIMIT <= r.center.y <= COORD_LIMIT
    &&& 0 <= r.size.x <= COORD_LIMIT
    &&& 0 <= r.size.y <= COORD_LIMIT
}

// Edges are kept doubled (`2 * center ± size`) so that halving a size is exact.
pub open spec fn min2x(r: Rect) -> int {
    2 * r.center.x - r.size.x
}

pub open spec fn max2x(r: Rect) -> int {
    2 * r.center.x + r.size.x
}

pub open spec fn min2y(r: Rect) -> int {
    2 * r.center.y - r.size.y
}

pub open spec fn max2y(r: Rect) -> int {
    2 * r.center.y + r.size.y
}

/// The interiors of `a` and `b` meet.
pub open spec fn overlaps(a: Rect, b: Rect) -> bool {
    min2x(a) < max2x(b) && max2x(a) > min2x(b) && min2y(a) < max2y(b) && max2y(a) > min2y(b)
}

pub open spec fn abs(v: int) -> int {
    if v < 0 { -v } else { v }
}

/// The horizontal side on which `a` enters `b`, with its (doubled)
/// penetration depth; `None` for a depth when `a` does not straddle exactly
/// one of `b`'s vertical edges.
pub open spec fn x_side(a: Rect, b: Rect) -> (Collision, Option<int>) {
    if min2x(a) < min2x(b) && max2x(a) > min2x(b) && max2x(a) < max2x(b) {
        (Collision::Left, Some(min2x(b) - max2x(a)))
    } else if min2x(a) > min2x(b) && min2x(a) < max2x(b) && max2x(a) > max2x(b) {
        (Collision::Right, Some(min2x(a) - max2x(b)))
    } else {
        (Collision::Inside, None)
    }
}

/// The vertical side on which `a` enters `b`, as `x_side`.
pub open spec fn y_side(a: Rect, b: Rect) -> (Collision, Option<int>) {
    if min2y(a) < min2y(b) && max2y(a) > min2y(b) && max2y(a) < max2y(b) {
        (Collision::Bottom, Some(min2y(b) - max2y(a)))
    } else if min2y(a) > min2y(b) && min2y(a) < max2y(b) && max2y(a) > max2y(b) {
        (Collision::Top, Some(min2y(a) - max2y(b)))
    } else {
        (Collision::Inside, None)
    }
}

/// Whether `a` hits `b`, and on which side: the axis with the shallower
/// penetration wins; an axis without a side counts as infinitely deep, and
/// equal depths leave the side undecided (`Inside`).
pub open spec fn collide_spec(a: Rect, b: Rect) -> Option<Collision> {
    if !overlaps(a, b) {
        None
    } else {
        let (xc, xd) = x_side(a, b);
        let (yc, yd) = y_side(a, b);
        match (xd, yd) {
            (Some(dx), Some(dy)) => if abs(dy) < abs(dx) {
                Some(yc)
            } else if abs(dx) < abs(dy) {
                Some(xc)
            } else {
                Some(Collision::Inside)
            },
            (None, Some(_)) => Some(yc),
            (_, None) => Some(xc),
        }
    }
}

/// Tests whether rectangle `a` hits rectangle `b`, and on which side.
pub fn collide(a: Rect, b: Rect) -> (r: Option<Collision>)
    requires
        rect_ok(a),
        rect_ok(b),
    ensures
        r == collide_spec(a, b),
{
    let a_min_x = 2 * a.center.x - a.size.x;
    let a_max_x = 2 * a.center.x + a.size.x;
    let a_min_y = 2 * a.center.y - a.size.y;
    let a_max_y = 2 * a.center.y + a.size.y;
    let b_min_x = 2 * b.center.x - b.size.x;
    let b_max_x = 2 * b.center.x + b.size.x;
    let b_min_y = 2 * b.center.y - b.size.y;
    let b_max_y = 2 * b.center.y + b.size.y;
    if !(a_min_x < b_max_x && a_max_x > b_min_x && a_min_y < b_max_y && a_max_y > b_min_y) {
        return None;
    }
    let (x_collision, x_depth) = if a_min_x < b_min_x && a_max_x > b_min_x && a_max_x < b_max_x {
        (Collision::Left, Some(b_min_x - a_max_x))
    } else if a_min_x > b_min_x && a_min_x < b_max_x && a_max_x > b_max_x {
        (Collision::Right, Some(a_min_x - b_max_x))
    } else {
        (Collision::Inside, None)
    };
    let (y_collision, y_depth) = if a_min_y < b_min_y && a_max_y > b_min_y && a_max_y < b_max_y {
        (Collision::Bottom, Some(b_min_y - a_max_y))
    } else if a_min_y > b_min_y && a_min_y < b_max_y && a_max_y > b_max_y {
        (Collision::Top, Some(a_min_y - b_max_y))
    } else {
        (Collision::Inside, None)
    };
    match (x_depth, y_depth) {
        (Some(dx), Some(dy)) => {
            let ax = if dx < 0 { -dx } else { dx };
            let ay = if dy < 0 { -dy } else { dy };
            if ay < ax {
                Some(y_collision)
            } else if ax < ay {
                Some(x_collision)
            } else {
                Some(Collision::Inside)
            }
        },
        (None, Some(_)) => Some(y_collision),
        (_, None) => Some(x_collision),
    }
}

/// The actor at `pos`, pushed by `step` units by `wall` if the wall hits
/// it: away from the side the wall came in from; not at all for `Inside`.
pub open spec fn nudged(pos: Point, size: Point, wall: Rect, step: int) -> Point {
    match collide_spec(wall, Rect { center: pos, size }) {
        Some(Collision::Top) => Point { x: pos.x, y: (pos.y - step) as i64 },
        Some(Collision::Bottom) => Point { x: pos.x, y: (pos.y + step) as i64 },
        Some(Collision::Right) => Point { x: (pos.x - step) as i64, y: pos.y },
        Some(Collision::Left) => Point { x: (pos.x + step) as i64, y: pos.y },
        _ => pos,
    }
}

/// The actor at `pos` after each wall in turn has pushed it.
pub open spec fn resolved(pos: Point, size: Point, walls: Seq<Rect>, step: int) -> Point
    decreases walls.len(),
{
    if walls.len() == 0 {
        pos
    } else {
        nudged(resolved(pos, size, walls.drop_last(), step), size, walls.last(), step)
    }
}

/// How far from the origin walls may stand, and how large walls, actors
/// and a step may be, for the pushes to stay within `i64`.
pub const WALL_REACH: i64 = 0x100_0000_0000;

/// How far from the origin an actor may stand.
pub const ACTOR_REACH: i64 = 0x400_0000_0000;

pub open spec fn actor_in_reach(p: Point) -> bool {
    -ACTOR_REACH <= p.x <= ACTOR_REACH && -ACTOR_REACH <= p.y <= ACTOR_REACH
}

pub open spec fn wall_in_reach(r: Rect) -> bool {
    &&& -WALL_REACH <= r.center.x <= WALL_REACH
    &&& -WALL_REACH <= r.center.y <= WALL_REACH
    &&& 0 <= r.size.x <= WALL_REACH
    &&& 0 <= r.size.y <= WALL_REACH
}

/// Keeps an actor of size `size` at `pos` out of `walls`: each wall in
/// turn that the actor (where it stands by then) is hit by pushes it by
/// `step` units away from the side the wall came in from. A push only
/// happens next to a wall, so the actor stays within reach however many
/// walls there are.
pub fn wall_collision(pos: Point, size: Point, walls: &Vec<Rect>, step: i64) -> (r: Point)
    requires
        actor_in_reach(pos),
        0 <= size.x <= WALL_REACH,
        0 <= size.y <= WALL_REACH,
        0 <= step <= WALL_REACH,
        forall|i: int| 0 <= i < walls@.len() ==> wall_in_reach(#[trigger] walls@[i]),
    ensures
        r == resolved(pos, size, walls@, step as int),
        actor_in_reach(r),
{
    let mut p = pos;
    let mut i: usize = 0;
    while i < walls.len()
        invariant
            i <= walls@.len(),
            0 <= step <= WALL_REACH,
            0 <= size.x <= WALL_REACH,
            0 <= size.y <= WALL_REACH,
            forall|t: int| 0 <= t < walls@.len() ==> wall_in_reach(#[trigger] walls@[t]),
            p == resolved(pos, size, walls@.take(i as int), step as int),
            actor_in_reach(p),
        decreases walls@.len() - i,
    {
        let w = walls[i];
        let c = collide(w, Rect { center: p, size });
        p = match c {
            Some(Collision::Top) => Point { x: p.x, y: p.y - step },
            Some(Collision::Bottom) => Point { x: p.x, y: p.y + step },
            Some(Collision::Right) => Point { x: p.x - step, y: p.y },
            Some(Collision::Left) => Point { x: p.x + step, y: p.y },
            _ => p,
        };
        assert(walls@.take(i as int + 1).drop_last() =~= walls@.take(i as int));
        i += 1;
    }
    assert(walls@.take(walls@.len() as int) =~= walls@);
    p
}

/// Where an actor at `pos` stands after one frame of input: `step` units
/// up while `up` is held, down while `down` is, and so on; opposite keys
/// cancel.
pub fn move_player(pos: Point, up: bool, down: bool, right: bool, left: bool, step: i64) -> (r: Point)
    requires
        i64::MIN <= pos.x - step,
        pos.x + step <= i64::MAX,
        i64::MIN <= pos.y - step,
        pos.y + step <= i64::MAX,
        0 <= step,
    ensures
        r.x == pos.x + ((if right { 1int } else { 0 }) - (if left { 1int } else { 0 })) * step,
        r.y == pos.y + ((if up { 1int } else { 0 }) - (if down { 1int } else { 0 })) * step,
{
    let mut direction_x: i64 = 0;
    let mut direction_y: i64 = 0;
    if up {
        direction_y += 1;
    }
    if down {
        direction_y -= 1;
    }
    if right {
        direction_x += 1;
    }
    if left {
        direction_x -= 1;
    }
    Point { x: pos.x + direction_x * step, y: pos.y + direction_y * step }
}

/// An actor that no wall hits stays where it is.
pub proof fn lemma_resolve_clear(pos: Point, size: Point, walls: Seq<Rect>, step: int)
    requires
        forall|i: int| 0 <= i < walls.len() ==> collide_spec(#[trigger] walls[i], Rect { center: pos, size }) is None,
    ensures
        resolved(pos, size, walls, step) == pos,
    decreases walls.len(),
{
    if walls.len() > 0 {
        let rest = walls.drop_last();
        assert forall|i: int| 0 <= i < rest.len() implies collide_spec(#[trigger] rest[i], Rect { center: pos, size }) is None by {
            assert(rest[i] == walls[i]);
        }
        lemma_resolve_clear(pos, size, rest, step);
        assert(collide_spec(walls.last(), Rect { center: pos, size }) is None);
        assert(nudged(pos, size, walls.last(), step) == pos);
    }
}

/// An actor hit by a single wall on its right (the wall sticks into it
/// from the right) is pushed left by one step and not moved vertically,
/// provided no other wall hits it before or after that push.
pub proof fn lemma_resolve_right_hit(pos: Point, size: Point, walls: Seq<Rect>, j: int, step: int)
    requires
        i64::MIN <= pos.x - step,
        0 <= j < walls.len(),
        collide_spec(walls[j], Rect { center: pos, size }) == Some(Collision::Right),
        forall|i: int|
            0 <= i < walls.len() && i != j ==> collide_spec(#[trigger] walls[i], Rect { center: pos, size }) is None
                && collide_spec(walls[i], Rect { center: Point { x: (pos.x - step) as i64, y: pos.y }, size }) is None,
    ensures
        resolved(pos, size, walls, step) == (Point { x: (pos.x - step) as i64, y: pos.y }),
    decreases walls.len(),
{
    let moved = Point { x: (pos.x - step) as i64, y: pos.y };
    let rest = walls.drop_last();
    if j == walls.len() - 1 {
        assert forall|i: int| 0 <= i < rest.len() implies collide_spec(#[trigger] rest[i], Rect { center: pos, size }) is None by {
            assert(rest[i] == walls[i]);
        }
        lemma_resolve_clear(pos, size, rest, step);
    } else {
        assert forall|i: int|
            0 <= i < rest.len() && i != j implies collide_spec(#[trigger] rest[i], Rect { center: pos, size }) is None
                && collide_spec(rest[i], Rect { center: moved, size }) is None by {
            assert(rest[i] == walls[i]);
        }
        assert(rest[j] == walls[j]);
        lemma_resolve_right_hit(pos, size, rest, j, step);
        assert(collide_spec(walls.last(), Rect { center: moved, size }) is None);
        assert(nudged(moved, size, walls.last(), step) == moved);
    }
}

} // verus!
