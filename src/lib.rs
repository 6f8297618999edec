//! A two-player labyrinth game's core: maze generation on a pillar grid,
//! the grid-to-world transform, axis-aligned collision response, and the
//! session state that ties them together (settings, regeneration, item
//! pickup and scores).
//!
//! World coordinates are integers in milli-pixels, so that every rule of
//! the game can be stated and checked exactly.

pub mod collision;
pub mod grid;
pub mod maze;
mod random;
pub mod session;

pub use collision::{Collision, Rect, collide, move_player, wall_collision};
pub use grid::{MAX_BLOCK_NUM, Point, WALL_MAX, block_position, wall_position};
pub use maze::{Maze, build_maze, contains_point, generate, knock_down_the, pick_direction};
pub use session::{
    BLOCK_NUM, ButtonAction, Game, ITEM_NUM, Keys, ScoreBoard, ScoreboardSection, Session, Status,
};
