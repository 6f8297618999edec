use labyrinth::{
    Point, block_position, build_maze, contains_point, generate, knock_down_the, pick_direction,
    wall_position,
};

fn cell10() -> Point {
    Point::new(10, 10)
}

#[test]
fn interior_transform_centers_the_grid() {
    assert_eq!(block_position(1, 1, cell10(), 3), Point::new(-10, -10));
    assert_eq!(block_position(3, 3, cell10(), 3), Point::new(10, 10));
    assert_eq!(block_position(2, 0, Point::new(10, 20), 3), Point::new(0, -40));
}

#[test]
fn border_transform_is_two_cells_outward() {
    assert_eq!(wall_position(1, 1, cell10(), 3), Point::new(-30, -30));
    assert_eq!(wall_position(7, 7, cell10(), 3), Point::new(30, 30));
    assert_eq!(wall_position(4, 1, cell10(), 3), Point::new(0, -30));
}

#[test]
fn transform_takes_any_grid_coordinate() {
    assert_eq!(block_position(-1000, 5000, cell10(), 3), Point::new(-10020, 49980));
    assert_eq!(wall_position(1_000_000_000_000, 0, cell10(), 3), Point::new(9_999_999_999_960, -40));
    assert_eq!(block_position(2, 2, Point::new(1, 1), 1_000_001), Point::new(-499_999, -499_999));
}

#[test]
fn transform_is_deterministic() {
    for g in 1..=15i64 {
        let a = block_position(g, 15 - g + 1, Point::new(46153, 46153), 11);
        let b = block_position(g, 15 - g + 1, Point::new(46153, 46153), 11);
        assert_eq!(a, b);
        assert_eq!(wall_position(g, 3, cell10(), 11), wall_position(g, 3, cell10(), 11));
    }
}

#[test]
fn three_by_three_scenario() {
    let dirs = vec![0usize; 4];
    let m = build_maze(3, cell10(), &dirs);
    assert_eq!(
        m.pillars,
        vec![Point::new(-10, -10), Point::new(10, -10), Point::new(-10, 10), Point::new(10, 10)]
    );
    assert_eq!(
        m.openings,
        vec![Point::new(-10, 0), Point::new(10, 0), Point::new(-10, 20), Point::new(10, 20)]
    );
    assert_eq!(m.borders.len(), 24);
    // 25 cells around the pillars, less 4 pillars and 4 openings
    assert_eq!(m.candidates.len(), 17);
    for c in &m.candidates {
        assert!(!m.pillars.contains(c));
        assert!(!m.openings.contains(c));
    }
    for i in 0..m.candidates.len() {
        for j in (i + 1)..m.candidates.len() {
            assert_ne!(m.candidates[i], m.candidates[j]);
        }
    }
}

#[test]
fn shared_openings_leave_more_candidates() {
    let dirs = vec![1usize, 3, 1, 3];
    let m = build_maze(3, cell10(), &dirs);
    assert_eq!(m.openings[0], Point::new(0, -10));
    assert_eq!(m.openings[1], Point::new(0, -10));
    assert_eq!(m.openings[2], Point::new(0, 10));
    assert_eq!(m.openings[3], Point::new(0, 10));
    assert_eq!(m.candidates.len(), 19);
}

#[test]
fn border_covers_the_frame_once() {
    let m = build_maze(3, cell10(), &vec![2usize; 4]);
    for x in 1..=7i64 {
        for y in 1..=7i64 {
            let on_border = x == 1 || y == 1 || x == 7 || y == 7;
            let p = wall_position(x, y, cell10(), 3);
            let n = m.borders.iter().filter(|b| **b == p).count();
            assert_eq!(n, if on_border { 1 } else { 0 });
        }
    }
}

#[test]
fn pillar_and_opening_counts() {
    for n in [1i64, 3, 5, 11, 41] {
        let k = ((n + 1) / 2) as usize;
        let m = generate(n, Point::new(1000, 1000));
        assert_eq!(m.pillars.len(), k * k);
        assert_eq!(m.openings.len(), k * k);
        assert_eq!(m.borders.len(), 4 * (n as usize + 3));
    }
}

#[test]
fn openings_are_orthogonal_neighbours() {
    let c = Point::new(1000, 700);
    let m = generate(11, c);
    for (p, o) in m.pillars.iter().zip(m.openings.iter()) {
        let dx = (o.x - p.x).abs();
        let dy = (o.y - p.y).abs();
        assert!((dx == c.x && dy == 0) || (dx == 0 && dy == c.y));
    }
}

#[test]
fn generated_candidates_avoid_walls() {
    let m = generate(11, Point::new(1000, 1000));
    for c in &m.candidates {
        assert!(!m.pillars.contains(c));
        assert!(!m.openings.contains(c));
    }
}

#[test]
fn regeneration_keeps_counts() {
    let a = generate(5, cell10());
    let b = generate(5, cell10());
    assert_eq!(a.borders.len(), b.borders.len());
    assert_eq!(a.pillars.len(), b.pillars.len());
    assert_eq!(a.openings.len(), b.openings.len());
    assert_eq!(a.pillars, b.pillars);
}

#[test]
fn knock_down_adds_seven_neighbours() {
    let mut pool = Vec::new();
    let opening = knock_down_the(&mut pool, Point::new(0, 0), cell10(), 1);
    assert_eq!(opening, Point::new(10, 0));
    assert_eq!(
        pool,
        vec![
            Point::new(0, 10),
            Point::new(0, -10),
            Point::new(-10, 0),
            Point::new(10, 10),
            Point::new(10, -10),
            Point::new(-10, 10),
            Point::new(-10, -10),
        ]
    );
}

#[test]
fn raw_pool_has_seven_per_pillar() {
    let mut pool = Vec::new();
    for (x, y) in [(1i64, 1i64), (3, 1), (1, 3), (3, 3)] {
        let p = block_position(x, y, cell10(), 3);
        knock_down_the(&mut pool, p, cell10(), 0);
    }
    assert_eq!(pool.len(), 28);
}

#[test]
fn directions_are_drawn_at_random() {
    let mut seen = [false; 4];
    for _ in 0..400 {
        let d = pick_direction();
        assert!(d < 4);
        seen[d] = true;
    }
    assert!(seen.iter().all(|s| *s));
}

#[test]
fn contains_point_finds_members() {
    let v = vec![Point::new(1, 2), Point::new(3, 4)];
    assert!(contains_point(&v, Point::new(3, 4)));
    assert!(!contains_point(&v, Point::new(4, 3)));
    assert!(!contains_point(&Vec::new(), Point::new(0, 0)));
}
