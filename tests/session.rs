use labyrinth::{ButtonAction, Game, Keys, Point, Session, Status};

fn no_keys() -> Keys {
    Keys { up: false, down: false, right: false, left: false }
}

#[test]
fn default_settings() {
    let g = Game::default();
    assert_eq!(g.item_num, 7);
    assert_eq!(g.block_num, 11);
    assert_eq!(g.block_size, Point::new(46153, 46153));
    assert_eq!(g.player_size, Point::new(23076, 23076));
    assert_eq!(g.player_speed, 363636);
    assert_eq!(g.player1_init_pos, Point::new(-276918, 276918));
    assert_eq!(g.player2_init_pos, Point::new(276918, -276918));
}

#[test]
fn init_clamps_block_count() {
    let mut g = Game::default();
    g.block_num = -1;
    g.init();
    assert_eq!(g.block_num, 1);
    assert_eq!(g.block_size, Point::new(200000, 200000));
    assert_eq!(g.player_speed, 4_000_000);
    assert_eq!(g.player1_init_pos, Point::new(-200000, 200000));
}

#[test]
fn adjustments_follow_the_cell_size() {
    let g = Game::default();
    assert_eq!(g.block_adjustment(1, 1), Point::new(46153 - 276918, 46153 - 276918));
    assert_eq!(g.wall_adjustment(1, 1), Point::new(-46153 - 276918, -46153 - 276918));
}

#[test]
fn block_count_floor_is_one() {
    let mut s = Session::new();
    for _ in 0..5 {
        s.press(ButtonAction::BlockNumDown);
    }
    assert_eq!(s.game.block_num, 1);
    s.press(ButtonAction::BlockNumDown);
    assert_eq!(s.game.block_num, 1);
    s.press(ButtonAction::BlockNumUp);
    assert_eq!(s.game.block_num, 3);
}

#[test]
fn block_count_has_no_game_ceiling() {
    let mut s = Session::new();
    s.game.block_num = 99;
    s.press(ButtonAction::BlockNumUp);
    assert_eq!(s.game.block_num, 101);
    let mut g = Game::default();
    g.block_num = 101;
    g.init();
    assert_eq!(g.block_num, 101);
    assert_eq!(g.block_size, Point::new(5825, 5825));
    assert_eq!(g.player_speed, 39603);
    assert_eq!(g.player1_init_pos, Point::new(-51 * 5825, 51 * 5825));
}

#[test]
fn huge_block_count_leaves_no_cell_width() {
    let mut g = Game::default();
    g.block_num = 700_001;
    g.init();
    assert_eq!(g.block_num, 700_001);
    assert_eq!(g.block_size, Point::new(0, 0));
    assert_eq!(g.player1_init_pos, Point::new(0, 0));
}

#[test]
fn frame_fits_ordinary_frames() {
    let mut s = Session::new();
    s.labyrinth_setup();
    assert!(s.frame_fits(16_000));
    assert!(s.frame_fits(3_600_000_000));
    assert!(!s.frame_fits(u64::MAX));
}

#[test]
fn block_count_change_waits_for_regeneration() {
    let mut s = Session::new();
    s.press(ButtonAction::BlockNumUp);
    assert_eq!(s.game.block_num, 13);
    assert_eq!(s.game.block_size, Point::new(46153, 46153));
    s.labyrinth_setup();
    assert_eq!(s.game.block_size, Point::new(40000, 40000));
    assert_eq!(s.maze.pillars.len(), 49);
}

#[test]
fn item_count_never_negative() {
    let mut s = Session::new();
    for _ in 0..10 {
        s.press(ButtonAction::ItemNumDown);
    }
    assert_eq!(s.game.item_num, 0);
    s.press(ButtonAction::ItemNumUp);
    assert_eq!(s.game.item_num, 1);
}

#[test]
fn states_follow_shuffle_and_setup() {
    let mut s = Session::new();
    assert_eq!(s.status, Status::Shuffle);
    s.labyrinth_setup();
    assert_eq!(s.status, Status::Disabled);
    s.press(ButtonAction::Shuffle);
    assert_eq!(s.status, Status::Shuffle);
    let before = s.player1;
    s.frame(Keys { up: true, down: false, right: false, left: false }, no_keys(), 16_000);
    assert_eq!(s.player1, before);
}

#[test]
fn setup_places_items_and_walls() {
    let mut s = Session::new();
    s.labyrinth_setup_with(&vec![0usize; 36]);
    assert_eq!(s.items.len(), 7);
    assert_eq!(s.walls.len(), 56 + 72);
    assert_eq!(s.items[..], s.maze.candidates[..7]);
    assert_eq!(s.player1, s.game.player1_init_pos);
    assert_eq!(s.walls[56].center, s.maze.pillars[0]);
    assert_eq!(s.walls[57].center, s.maze.openings[0]);
}

#[test]
fn items_clip_to_candidates() {
    let mut s = Session::new();
    s.labyrinth_setup();
    s.game.item_num = 100;
    s.maze.candidates = (0..20).map(|i| Point::new(i * 50_000 - 500_000, 0)).collect();
    s.create_item();
    assert_eq!(s.items.len(), 20);
}

#[test]
fn more_items_than_candidates_in_small_maze() {
    let mut s = Session::new();
    for _ in 0..4 {
        s.press(ButtonAction::BlockNumDown);
    }
    assert_eq!(s.game.block_num, 3);
    s.game.item_num = 100;
    s.labyrinth_setup_with(&vec![1usize, 3, 1, 3]);
    assert_eq!(s.maze.candidates.len(), 19);
    assert_eq!(s.items.len(), 19);
}

#[test]
fn pickup_scores_once_per_item() {
    let mut s = Session::new();
    s.labyrinth_setup_with(&vec![0usize; 36]);
    let target = s.items[0];
    s.player1 = target;
    s.frame(no_keys(), no_keys(), 0);
    assert_eq!(s.score.player1, 1);
    assert_eq!(s.score.player2, 0);
    assert_eq!(s.items.len(), 6);
    assert!(!s.items.contains(&target));
    s.frame(no_keys(), no_keys(), 0);
    assert_eq!(s.score.player1, 1);
}

#[test]
fn scores_survive_regeneration() {
    let mut s = Session::new();
    s.labyrinth_setup_with(&vec![0usize; 36]);
    s.player2 = s.items[3];
    s.frame(no_keys(), no_keys(), 0);
    assert_eq!(s.score.player2, 1);
    s.press(ButtonAction::Shuffle);
    s.labyrinth_setup();
    assert_eq!(s.score.player2, 1);
    assert_eq!(s.items.len(), 7);
}

#[test]
fn players_move_with_frame_time() {
    let mut s = Session::new();
    s.labyrinth_setup_with(&vec![0usize; 36]);
    let start = s.player1;
    // 363636 units per second for 0.01 s
    s.frame(Keys { up: false, down: true, right: false, left: false }, no_keys(), 10_000);
    assert_eq!(s.player1, Point::new(start.x, start.y - 3636));
}
