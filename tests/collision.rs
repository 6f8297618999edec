use labyrinth::{Collision, Point, Rect, collide, move_player, wall_collision};

fn actor() -> Rect {
    Rect::new(Point::new(0, 0), Point::new(10, 10))
}

fn wall(x: i64, y: i64) -> Rect {
    Rect::new(Point::new(x, y), Point::new(10, 10))
}

#[test]
fn collide_sides() {
    assert_eq!(collide(wall(9, 0), actor()), Some(Collision::Right));
    assert_eq!(collide(wall(-9, 0), actor()), Some(Collision::Left));
    assert_eq!(collide(wall(0, 9), actor()), Some(Collision::Top));
    assert_eq!(collide(wall(0, -9), actor()), Some(Collision::Bottom));
}

#[test]
fn collide_none_and_inside() {
    assert_eq!(collide(wall(10, 0), actor()), None);
    assert_eq!(collide(wall(100, 100), actor()), None);
    let big = Rect::new(Point::new(0, 0), Point::new(30, 30));
    assert_eq!(collide(big, actor()), Some(Collision::Inside));
}

#[test]
fn collide_corner_picks_shallower_axis() {
    assert_eq!(collide(wall(8, 9), actor()), Some(Collision::Top));
    assert_eq!(collide(wall(9, 8), actor()), Some(Collision::Right));
    // equal depths: no side
    assert_eq!(collide(wall(9, 9), actor()), Some(Collision::Inside));
}

#[test]
fn actor_clear_of_walls_stays() {
    let walls = vec![wall(100, 0), wall(0, -100), wall(-15, 0)];
    let r = wall_collision(Point::new(0, 0), Point::new(10, 10), &walls, 3);
    assert_eq!(r, Point::new(0, 0));
}

#[test]
fn wall_on_right_pushes_left_only() {
    let walls = vec![wall(100, 0), wall(9, 0)];
    let r = wall_collision(Point::new(0, 0), Point::new(10, 10), &walls, 3);
    assert_eq!(r, Point::new(-3, 0));
}

#[test]
fn pushes_accumulate_over_walls() {
    let walls = vec![wall(9, 0), wall(0, 9)];
    let r = wall_collision(Point::new(0, 0), Point::new(10, 10), &walls, 2);
    assert_eq!(r, Point::new(-2, -2));
    let inside = vec![Rect::new(Point::new(0, 0), Point::new(30, 30))];
    assert_eq!(wall_collision(Point::new(0, 0), Point::new(10, 10), &inside, 2), Point::new(0, 0));
}

#[test]
fn keys_move_by_step() {
    assert_eq!(move_player(Point::new(0, 0), true, false, true, false, 5), Point::new(5, 5));
    assert_eq!(move_player(Point::new(1, 1), false, true, false, true, 5), Point::new(-4, -4));
    assert_eq!(move_player(Point::new(0, 0), true, true, true, true, 5), Point::new(0, 0));
}
