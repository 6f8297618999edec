use vstd::prelude::*;
use crate::collision::{
    ACTOR_REACH, Rect, WALL_REACH, actor_in_reach, collide, move_player, overlaps, resolved,
    wall_collision, wall_in_reach,
};
use crate::grid::{
    MAX_BLOCK_NUM, Point, WALL_MAX, block_coord, block_point, block_position, fits_i64, odd_extent,
    valid_cell, wall_coord, wall_point, wall_position,
};
use crate::maze::{Maze, build_maze, generate, in_maze_field, maze_shape, orth, pillar_count};

verus! {

/// Items placed on each regeneration, unless changed.
pub const ITEM_NUM: usize = 7;

/// The block count a session starts with.
pub const BLOCK_NUM: i64 = 11;

/// A player's speed in units per second, times the block count.
pub const SPEED_SCALE: i64 = 4_000_000;

pub const MICROS_PER_SECOND: i64 = 1_000_000;

/// The session's state: `Shuffle` while a maze is being regenerated,
/// `Disabled` while the game is played.
#[derive(Clone, Copy, Debug, PartialEq, Eq, Structural)]
pub enum Status {
    Shuffle,
    Disabled,
}

/// What a button of the settings panel does.
#[derive(Clone, Copy, Debug, PartialEq, Eq, Structural)]
pub enum ButtonAction {
    Shuffle,
    ItemNumUp,
    ItemNumDown,
    BlockNumUp,
    BlockNumDown,
}

/// Which player's score a pickup counts for.
#[derive(Clone, Copy, Debug, PartialEq, Eq, Structural)]
pub enum ScoreboardSection {
    P1,
    P2,
}

#[derive(Clone, Copy, Debug, PartialEq, Eq, Structural)]
pub struct ScoreBoard {
    pub player1: u64,
    pub player2: u64,
}

/// The direction keys one player holds during a frame.
#[derive(Clone, Copy, Debug, PartialEq, Eq, Structural)]
pub struct Keys {
    pub up: bool,
    pub down: bool,
    pub right: bool,
    pub left: bool,
}

/// The session's settings and the sizes derived from the block count.
#[derive(Clone, Copy, Debug, PartialEq, Eq, Structural)]
pub struct Game {
    pub item_num: usize,
    pub block_num: i64,
    pub block_size: Point,
    pub player_size: Point,
    pub player_speed: i64,
    pub player1_init_pos: Point,
    pub player2_init_pos: Point,
}

/// The side of a cell for block count `n`: the field holds `n + 2` cells.
pub open spec fn cell_side(n: int) -> int {
    (WALL_MAX as int) / (n + 2)
}

/// A cell is at most a third of the field, and at least one unit wide
/// for extents up to `MAX_BLOCK_NUM`; the starting corners lie within
/// half the field.
pub proof fn lemma_cell_side(n: int)
    requires
        odd_extent(n),
    ensures
        0 <= cell_side(n) <= 200_000,
        n <= MAX_BLOCK_NUM ==> 1 <= cell_side(n),
        0 <= corner_offset(n) <= 300_000,
{
    let c = cell_side(n);
    assert(0 <= c <= 200_000 && c * (n + 2) <= 600_000) by (nonlinear_arith)
        requires 3 <= n + 2, c == 600_000int / (n + 2);
    if n <= MAX_BLOCK_NUM {
        assert(1 <= c) by (nonlinear_arith)
            requires 3 <= n + 2 <= 600_000, c == 600_000int / (n + 2);
    }
    assert(0 <= ((n + 1) / 2) * c <= 300_000) by (nonlinear_arith)
        requires 0 <= c, c * (n + 2) <= 600_000, 1 <= (n + 1) / 2, 2 * ((n + 1) / 2) <= n + 2;
}

/// How far the starting corners lie from the center, along each axis.
pub open spec fn corner_offset(n: int) -> int {
    ((n + 1) / 2) * cell_side(n)
}

/// The settings for block count `n`, with everything derived from it.
pub open spec fn derived_game(item_num: usize, n: int) -> Game {
    let c = cell_side(n) as i64;
    let k = corner_offset(n) as i64;
    Game {
        item_num,
        block_num: n as i64,
        block_size: Point { x: c, y: c },
        player_size: Point { x: (c / 2) as i64, y: (c / 2) as i64 },
        player_speed: ((SPEED_SCALE as int) / n) as i64,
        player1_init_pos: Point { x: (-k) as i64, y: k },
        player2_init_pos: Point { x: k, y: (-k) as i64 },
    }
}

/// A block count raised to at least 1.
pub open spec fn clamp_block_num(n: int) -> int {
    if n < 1 {
        1
    } else {
        n
    }
}

/// The settings after a button press.
pub open spec fn pressed(g: Game, action: ButtonAction) -> Game {
    match action {
        ButtonAction::ItemNumUp => Game {
            item_num: if g.item_num < usize::MAX { (g.item_num + 1) as usize } else { g.item_num },
            ..g
        },
        ButtonAction::ItemNumDown => Game {
            item_num: if g.item_num > 0 { (g.item_num - 1) as usize } else { 0 },
            ..g
        },
        ButtonAction::BlockNumUp => Game {
            block_num: if g.block_num + 2 <= i64::MAX { (g.block_num + 2) as i64 } else { g.block_num },
            ..g
        },
        ButtonAction::BlockNumDown => Game {
            block_num: if g.block_num >= 3 { (g.block_num - 2) as i64 } else { 1 },
            ..g
        },
        ButtonAction::Shuffle => g,
    }
}

impl Game {
    /// The derived sizes match the block count.
    pub open spec fn ready(self) -> bool {
        odd_extent(self.block_num as int) && self == derived_game(self.item_num, self.block_num as int)
    }

    /// Settings for block count `n` with every size derived from it.
    pub fn derived(item_num: usize, n: i64) -> (g: Game)
        requires
            odd_extent(n as int),
        ensures
            g == derived_game(item_num, n as int),
            g.ready(),
    {
        proof {
            lemma_cell_side(n as int);
        }
        let c = if n >= WALL_MAX {
            assert((WALL_MAX as int) / (n + 2) == 0) by (nonlinear_arith)
                requires n + 2 > 600_000, WALL_MAX == 600_000;
            0
        } else {
            WALL_MAX / (n + 2)
        };
        let h = n / 2 + 1;
        let k = h * c;
        Game {
            item_num,
            block_num: n,
            block_size: Point { x: c, y: c },
            player_size: Point { x: c / 2, y: c / 2 },
            player_speed: SPEED_SCALE / n,
            player1_init_pos: Point { x: -k, y: k },
            player2_init_pos: Point { x: k, y: -k },
        }
    }

    /// Raises a block count below 1 to 1 and recomputes the cell size, the
    /// players' size and speed, and their starting corners.
    pub fn init(&mut self)
        requires
            old(self).block_num % 2 == 1,
        ensures
            *final(self) == derived_game(old(self).item_num, clamp_block_num(old(self).block_num as int)),
            final(self).ready(),
    {
        if self.block_num < 1 {
            self.block_num = 1;
        }
        *self = Game::derived(self.item_num, self.block_num);
    }

    /// World position of the border cell `(x, y)`.
    pub fn wall_adjustment(&self, x: i64, y: i64) -> (r: Point)
        requires
            self.ready(),
            fits_i64(wall_coord(x as int, self.block_size.x as int, self.block_num as int)),
            fits_i64(wall_coord(y as int, self.block_size.y as int, self.block_num as int)),
        ensures
            r == wall_point(x as int, y as int, self.block_size, self.block_num as int),
    {
        wall_position(x, y, self.block_size, self.block_num)
    }

    /// World position of the interior cell `(x, y)`.
    pub fn block_adjustment(&self, x: i64, y: i64) -> (r: Point)
        requires
            self.ready(),
            fits_i64(block_coord(x as int, self.block_size.x as int, self.block_num as int)),
            fits_i64(block_coord(y as int, self.block_size.y as int, self.block_num as int)),
        ensures
            r == block_point(x as int, y as int, self.block_size, self.block_num as int),
    {
        block_position(x, y, self.block_size, self.block_num)
    }
}

impl Default for Game {
    fn default() -> (g: Game)
        ensures
            g == derived_game(ITEM_NUM, BLOCK_NUM as int),
    {
        Game::derived(ITEM_NUM, BLOCK_NUM)
    }
}

/// The wall rectangle with index `t` of a maze's wall list: the border
/// first, then each pillar followed by the wall knocked down beside it.
/// Knocked-down walls stay solid: they collide like every other wall.
pub open spec fn wall_rect_at(m: Maze, cell: Point, t: int) -> Rect {
    let b = m.borders@.len() as int;
    if t < b {
        Rect { center: m.borders@[t], size: cell }
    } else if (t - b) % 2 == 0 {
        Rect { center: m.pillars@[(t - b) / 2], size: cell }
    } else {
        Rect { center: m.openings@[(t - b) / 2], size: cell }
    }
}

pub open spec fn walls_of(walls: Seq<Rect>, m: Maze, cell: Point) -> bool {
    &&& walls.len() == m.borders@.len() + 2 * m.pillars@.len()
    &&& forall|t: int| 0 <= t < walls.len() ==> #[trigger] walls[t] == wall_rect_at(m, cell, t)
}

/// The wall rectangles of maze `m`, each of size `cell`.
fn maze_walls(m: &Maze, cell: Point) -> (walls: Vec<Rect>)
    requires
        m.pillars@.len() == m.openings@.len(),
    ensures
        walls_of(walls@, *m, cell),
{
    let mut walls: Vec<Rect> = Vec::new();
    let mut i: usize = 0;
    while i < m.borders.len()
        invariant
            i <= m.borders@.len(),
            walls@.len() == i,
            forall|t: int| 0 <= t < walls@.len() ==> #[trigger] walls@[t] == wall_rect_at(*m, cell, t),
        decreases m.borders@.len() - i,
    {
        walls.push(Rect { center: m.borders[i], size: cell });
        i += 1;
    }
    let b = m.borders.len();
    let mut j: usize = 0;
    while j < m.pillars.len()
        invariant
            b == m.borders@.len(),
            m.pillars@.len() == m.openings@.len(),
            j <= m.pillars@.len(),
            walls@.len() == b + 2 * j,
            forall|t: int| 0 <= t < walls@.len() ==> #[trigger] walls@[t] == wall_rect_at(*m, cell, t),
        decreases m.pillars@.len() - j,
    {
        let ghost t0 = walls@.len() as int;
        walls.push(Rect { center: m.pillars[j], size: cell });
        walls.push(Rect { center: m.openings[j], size: cell });
        assert((t0 - b) % 2 == 0 && (t0 - b) / 2 == j);
        assert((t0 + 1 - b) % 2 == 1 && (t0 + 1 - b) / 2 == j);
        assert(walls@[t0] == wall_rect_at(*m, cell, t0));
        assert(walls@[t0 + 1] == wall_rect_at(*m, cell, t0 + 1));
        j += 1;
    }
    walls
}

/// The items that stay when a player covering `player` sweeps over
/// `items` (each of size `size`): those whose rectangle it does not overlap.
pub open spec fn kept_items(items: Seq<Point>, player: Rect, size: Point) -> Seq<Point>
    decreases items.len(),
{
    if items.len() == 0 {
        items
    } else {
        let rest = kept_items(items.drop_last(), player, size);
        if overlaps(player, Rect { center: items.last(), size }) {
            rest
        } else {
            rest.push(items.last())
        }
    }
}

/// A pickup removes exactly the items the player overlaps, each at most
/// once: every kept item was there before and is not overlapped, every
/// item not overlapped is kept, and so the number removed (the score's
/// increase) is the number of overlapped items.
pub proof fn lemma_pickup_removes_overlapped(items: Seq<Point>, player: Rect, size: Point)
    ensures
        forall|q: Point| #[trigger]
            kept_items(items, player, size).contains(q) ==> items.contains(q) && !overlaps(
                player,
                Rect { center: q, size },
            ),
        forall|i: int|
            0 <= i < items.len() && !overlaps(player, Rect { center: #[trigger] items[i], size })
                ==> kept_items(items, player, size).contains(items[i]),
        kept_items(items, player, size).len() <= items.len(),
    decreases items.len(),
{
    if items.len() > 0 {
        let init = items.drop_last();
        let rest = kept_items(init, player, size);
        lemma_pickup_removes_overlapped(init, player, size);
        let kept = kept_items(items, player, size);
        assert forall|q: Point| #[trigger] kept.contains(q) implies items.contains(q) && !overlaps(
            player,
            Rect { center: q, size },
        ) by {
            let w = choose|w: int| 0 <= w < kept.len() && kept[w] == q;
            if w < rest.len() {
                assert(rest[w] == q);
                assert(rest.contains(q));
                let v = choose|v: int| 0 <= v < init.len() && init[v] == q;
                assert(items[v] == q);
            } else {
                assert(items[items.len() - 1] == q);
            }
        }
        assert forall|i: int|
            0 <= i < items.len() && !overlaps(player, Rect { center: #[trigger] items[i], size })
                implies kept.contains(items[i]) by {
            if i < init.len() {
                assert(init[i] == items[i]);
                assert(rest.contains(items[i]));
                let w = choose|w: int| 0 <= w < rest.len() && rest[w] == items[i];
                assert(kept[w] == items[i]);
            } else {
                assert(kept[kept.len() - 1] == items[i]);
            }
        }
    }
}

/// `a + b`, or `u64::MAX` where that does not fit.
pub open spec fn add_capped(a: u64, b: int) -> u64 {
    if a + b > u64::MAX { u64::MAX } else { (a + b) as u64 }
}

/// The units a player covers in a frame of `dt` microseconds.
pub open spec fn frame_step(speed: i64, dt: u64) -> int {
    (speed * dt) / (MICROS_PER_SECOND as int)
}

/// Where the keys move a player in one frame.
pub open spec fn moved(pos: Point, keys: Keys, step: int) -> Point {
    Point {
        x: (pos.x + ((if keys.right { 1int } else { 0 }) - (if keys.left { 1int } else { 0 })) * step) as i64,
        y: (pos.y + ((if keys.up { 1int } else { 0 }) - (if keys.down { 1int } else { 0 })) * step) as i64,
    }
}

/// A player's position after a frame: moved by its keys, then pushed out
/// of the walls.
pub open spec fn player_after(pos: Point, keys: Keys, size: Point, walls: Seq<Rect>, step: int) -> Point {
    resolved(moved(pos, keys, step), size, walls, step)
}

/// A frame's move of `step` from `p` stays within an actor's reach.
pub open spec fn step_in_reach(p: Point, step: int) -> bool {
    &&& -ACTOR_REACH <= p.x - step
    &&& p.x + step <= ACTOR_REACH
    &&& -ACTOR_REACH <= p.y - step
    &&& p.y + step <= ACTOR_REACH
}

/// Moves a player by its keys and pushes it out of the walls.
fn player_step(pos: Point, keys: Keys, size: Point, walls: &Vec<Rect>, step: i64) -> (r: Point)
    requires
        step_in_reach(pos, step as int),
        0 <= size.x <= WALL_MAX,
        0 <= size.y <= WALL_MAX,
        0 <= step <= WALL_REACH,
        forall|t: int| 0 <= t < walls@.len() ==> wall_in_reach(#[trigger] walls@[t]),
    ensures
        r == player_after(pos, keys, size, walls@, step as int),
        actor_in_reach(r),
{
    let m = move_player(pos, keys.up, keys.down, keys.right, keys.left, step);
    wall_collision(m, size, walls, step)
}

/// A game session: its settings, its state, the current maze with its
/// walls, the items still on the field, the two players and their scores.
pub struct Session {
    pub game: Game,
    pub status: Status,
    pub score: ScoreBoard,
    pub maze: Maze,
    pub walls: Vec<Rect>,
    pub items: Vec<Point>,
    pub player1: Point,
    pub player2: Point,
}

impl Session {
    /// What every method keeps: settings in range, and every wall, item
    /// and player within the bounds the geometry is checked for.
    pub open spec fn wf(&self) -> bool {
        &&& odd_extent(self.game.block_num as int)
        &&& valid_cell(self.game.block_size)
        &&& 0 <= self.game.player_size.x <= WALL_MAX
        &&& 0 <= self.game.player_size.y <= WALL_MAX
        &&& 0 <= self.game.player_speed <= SPEED_SCALE
        &&& actor_in_reach(self.player1)
        &&& actor_in_reach(self.player2)
        &&& forall|t: int| 0 <= t < self.walls@.len() ==> wall_in_reach(#[trigger] self.walls@[t])
        &&& forall|t: int| 0 <= t < self.items@.len() ==> in_maze_field(#[trigger] self.items@[t])
    }

    /// A session with the default settings, waiting for its first maze.
    pub fn new() -> (s: Session)
        ensures
            s.wf(),
            s.game == derived_game(ITEM_NUM, BLOCK_NUM as int),
            s.status == Status::Shuffle,
            s.score == (ScoreBoard { player1: 0, player2: 0 }),
            s.walls@.len() == 0,
            s.items@.len() == 0,
            s.player1 == s.game.player1_init_pos,
            s.player2 == s.game.player2_init_pos,
    {
        let game = Game::default();
        proof {
            lemma_cell_side(BLOCK_NUM as int);
        }
        Session {
            game,
            status: Status::Shuffle,
            score: ScoreBoard { player1: 0, player2: 0 },
            maze: Maze { borders: Vec::new(), pillars: Vec::new(), openings: Vec::new(), candidates: Vec::new() },
            walls: Vec::new(),
            items: Vec::new(),
            player1: game.player1_init_pos,
            player2: game.player2_init_pos,
        }
    }

    /// Places the configured number of items on the first candidates of
    /// the maze, or on all of them where there are fewer.
    pub fn create_item(&mut self)
        requires
            old(self).wf(),
            forall|t: int| 0 <= t < old(self).maze.candidates@.len() ==> in_maze_field(#[trigger] old(self).maze.candidates@[t]),
        ensures
            final(self).wf(),
            final(self).items@ == old(self).maze.candidates@.take(
                if old(self).game.item_num <= old(self).maze.candidates@.len() { old(self).game.item_num as int }
                else { old(self).maze.candidates@.len() as int },
            ),
            final(self).game == old(self).game,
            final(self).status == old(self).status,
            final(self).score == old(self).score,
            final(self).maze == old(self).maze,
            final(self).walls == old(self).walls,
            final(self).player1 == old(self).player1,
            final(self).player2 == old(self).player2,
    {
        let n = if self.game.item_num <= self.maze.candidates.len() { self.game.item_num } else { self.maze.candidates.len() };
        let mut items: Vec<Point> = Vec::new();
        let mut i: usize = 0;
        while i < n
            invariant
                n <= self.maze.candidates@.len(),
                i <= n,
                items@ == self.maze.candidates@.take(i as int),
            decreases n - i,
        {
            items.push(self.maze.candidates[i]);
            assert(self.maze.candidates@.take(i as int + 1) =~= self.maze.candidates@.take(i as int).push(self.maze.candidates@[i as int]));
            i += 1;
        }
        self.items = items;
    }

    /// Puts maze `m` in place: its walls, the players at their corners,
    /// and the items; play starts.
    fn install(&mut self, m: Maze)
        requires
            old(self).game.ready(),
            old(self).game.block_num <= MAX_BLOCK_NUM,
            maze_shape(m, old(self).game.block_num as int, old(self).game.block_size),
        ensures
            final(self).wf(),
            final(self).game == old(self).game,
            final(self).score == old(self).score,
            final(self).status == Status::Disabled,
            final(self).maze == m,
            walls_of(final(self).walls@, m, old(self).game.block_size),
            final(self).items@ == m.candidates@.take(
                if old(self).game.item_num <= m.candidates@.len() { old(self).game.item_num as int }
                else { m.candidates@.len() as int },
            ),
            final(self).player1 == old(self).game.player1_init_pos,
            final(self).player2 == old(self).game.player2_init_pos,
    {
        let n = self.game.block_num;
        let cell = self.game.block_size;
        proof {
            lemma_cell_side(n as int);
        }
        let walls = maze_walls(&m, cell);
        proof {
            assert forall|t: int| 0 <= t < walls@.len() implies wall_in_reach(#[trigger] walls@[t]) by {
                assert(walls@[t] == wall_rect_at(m, cell, t));
                let b = m.borders@.len() as int;
                if t >= b {
                    assert(0 <= (t - b) / 2 < m.pillars@.len());
                }
            }
        }
        self.walls = walls;
        self.maze = m;
        self.player1 = self.game.player1_init_pos;
        self.player2 = self.game.player2_init_pos;
        self.items = Vec::new();
        self.create_item();
        self.status = Status::Disabled;
    }

    /// Regenerates the maze with the current block count: the settings are
    /// recomputed, every wall and item is replaced, the players go back to
    /// their corners and play starts. The knocked-down walls are drawn at
    /// random and the items placed on randomly ordered candidates.
    pub fn labyrinth_setup(&mut self)
        requires
            old(self).wf(),
            old(self).game.block_num <= MAX_BLOCK_NUM,
            pillar_count(old(self).game.block_num as int) <= usize::MAX,
        ensures
            final(self).wf(),
            final(self).game == derived_game(old(self).game.item_num, old(self).game.block_num as int),
            final(self).score == old(self).score,
            final(self).status == Status::Disabled,
            maze_shape(final(self).maze, final(self).game.block_num as int, final(self).game.block_size),
            walls_of(final(self).walls@, final(self).maze, final(self).game.block_size),
            final(self).items@ == final(self).maze.candidates@.take(
                if final(self).game.item_num <= final(self).maze.candidates@.len() { final(self).game.item_num as int }
                else { final(self).maze.candidates@.len() as int },
            ),
            final(self).player1 == final(self).game.player1_init_pos,
            final(self).player2 == final(self).game.player2_init_pos,
    {
        self.game.init();
        proof {
            lemma_cell_side(self.game.block_num as int);
        }
        let m = generate(self.game.block_num, self.game.block_size);
        self.install(m);
    }

    /// As `labyrinth_setup`, with the wall knocked down beside pillar `i`
    /// given by `dirs[i]` (up, right, down, left) and the candidates in the
    /// order the pillars offered them.
    pub fn labyrinth_setup_with(&mut self, dirs: &Vec<usize>)
        requires
            old(self).wf(),
            old(self).game.block_num <= MAX_BLOCK_NUM,
            dirs@.len() == pillar_count(old(self).game.block_num as int),
            forall|i: int| 0 <= i < dirs@.len() ==> #[trigger] dirs@[i] < 4,
        ensures
            final(self).wf(),
            final(self).game == derived_game(old(self).game.item_num, old(self).game.block_num as int),
            final(self).score == old(self).score,
            final(self).status == Status::Disabled,
            maze_shape(final(self).maze, final(self).game.block_num as int, final(self).game.block_size),
            forall|i: int|
                0 <= i < final(self).maze.openings@.len() ==> #[trigger] final(self).maze.openings@[i] == orth(
                    final(self).maze.pillars@[i],
                    final(self).game.block_size,
                    dirs@[i] as int,
                ),
            walls_of(final(self).walls@, final(self).maze, final(self).game.block_size),
            final(self).items@ == final(self).maze.candidates@.take(
                if final(self).game.item_num <= final(self).maze.candidates@.len() { final(self).game.item_num as int }
                else { final(self).maze.candidates@.len() as int },
            ),
            final(self).player1 == final(self).game.player1_init_pos,
            final(self).player2 == final(self).game.player2_init_pos,
    {
        self.game.init();
        proof {
            lemma_cell_side(self.game.block_num as int);
        }
        let m = build_maze(self.game.block_num, self.game.block_size, dirs);
        self.install(m);
    }

    /// Applies a button press: `Shuffle` asks for a new maze; the others
    /// change the item count (never below 0) or the block count by 2
    /// (never below 1; an `i64` holds no odd count above `i64::MAX`). A new
    /// block count takes
    /// effect at the next regeneration.
    pub fn press(&mut self, action: ButtonAction)
        requires
            old(self).wf(),
        ensures
            final(self).wf(),
            final(self).game == pressed(old(self).game, action),
            final(self).status == (if action == ButtonAction::Shuffle { Status::Shuffle } else { old(self).status }),
            final(self).score == old(self).score,
            final(self).maze == old(self).maze,
            final(self).walls == old(self).walls,
            final(self).items == old(self).items,
            final(self).player1 == old(self).player1,
            final(self).player2 == old(self).player2,
    {
        match action {
            ButtonAction::Shuffle => {
                self.status = Status::Shuffle;
            },
            ButtonAction::ItemNumUp => {
                if self.game.item_num < usize::MAX {
                    self.game.item_num = self.game.item_num + 1;
                }
            },
            ButtonAction::ItemNumDown => {
                if self.game.item_num > 0 {
                    self.game.item_num = self.game.item_num - 1;
                }
            },
            ButtonAction::BlockNumUp => {
                if self.game.block_num <= i64::MAX - 2 {
                    self.game.block_num = self.game.block_num + 2;
                }
            },
            ButtonAction::BlockNumDown => {
                if self.game.block_num >= 3 {
                    self.game.block_num = self.game.block_num - 2;
                } else {
                    self.game.block_num = 1;
                }
            },
        }
    }

    /// How far a player can move in `dt_micros` microseconds, and whether
    /// that move keeps both players within reach: a frame's arithmetic is
    /// checked for `i64` only then.
    pub open spec fn fits_frame(&self, dt_micros: u64) -> bool {
        let step = frame_step(self.game.player_speed, dt_micros);
        &&& step <= WALL_REACH
        &&& step_in_reach(self.player1, step)
        &&& step_in_reach(self.player2, step)
    }

    fn step_for(&self, dt_micros: u64) -> (step: i128)
        requires
            0 <= self.game.player_speed <= SPEED_SCALE,
        ensures
            step == frame_step(self.game.player_speed, dt_micros),
            0 <= step,
    {
        let speed = self.game.player_speed as i128;
        let dt = dt_micros as i128;
        assert(0 <= speed * dt <= 4_000_000 * 0x1_0000_0000_0000_0000) by (nonlinear_arith)
            requires 0 <= speed <= 4_000_000, 0 <= dt <= 0xffff_ffff_ffff_ffff;
        (speed * dt) / (MICROS_PER_SECOND as i128)
    }

    /// Whether a frame of `dt_micros` microseconds may be played: see
    /// `fits_frame`.
    pub fn frame_fits(&self, dt_micros: u64) -> (r: bool)
        requires
            self.wf(),
        ensures
            r == self.fits_frame(dt_micros),
    {
        let step = self.step_for(dt_micros);
        if step > WALL_REACH as i128 {
            return false;
        }
        let fits = |p: Point| -> (b: bool)
            requires
                actor_in_reach(p),
                0 <= step <= WALL_REACH,
            ensures
                b == step_in_reach(p, step as int),
        {
            let st = step as i64;
            -ACTOR_REACH <= p.x - st && p.x + st <= ACTOR_REACH && -ACTOR_REACH <= p.y - st && p.y + st <= ACTOR_REACH
        };
        fits(self.player1) && fits(self.player2)
    }

    /// One frame of play lasting `dt_micros` microseconds: while the game
    /// is played (`Disabled`), each player moves by its keys and is pushed
    /// out of the walls, then picks up the items it overlaps, player 1
    /// first. While a maze is being regenerated nothing happens.
    pub fn frame(&mut self, keys1: Keys, keys2: Keys, dt_micros: u64)
        requires
            old(self).wf(),
            old(self).status == Status::Disabled ==> old(self).fits_frame(dt_micros),
        ensures
            final(self).wf(),
            old(self).status != Status::Disabled ==> *final(self) == *old(self),
            old(self).status == Status::Disabled ==> ({
                let step = frame_step(old(self).game.player_speed, dt_micros);
                let size = old(self).game.player_size;
                let p1 = player_after(old(self).player1, keys1, size, old(self).walls@, step);
                let p2 = player_after(old(self).player2, keys2, size, old(self).walls@, step);
                let kept1 = kept_items(old(self).items@, Rect { center: p1, size }, size);
                let kept2 = kept_items(kept1, Rect { center: p2, size }, size);
                &&& final(self).player1 == p1
                &&& final(self).player2 == p2
                &&& final(self).items@ == kept2
                &&& kept2.len() <= kept1.len() <= old(self).items@.len()
                &&& (old(self).items@.len() - kept1.len()) + (kept1.len() - kept2.len())
                    == old(self).items@.len() - final(self).items@.len()
                &&& final(self).score == (ScoreBoard {
                    player1: add_capped(old(self).score.player1, old(self).items@.len() - kept1.len()),
                    player2: add_capped(old(self).score.player2, kept1.len() - kept2.len()),
                })
            }),
            final(self).game == old(self).game,
            final(self).status == old(self).status,
            final(self).maze == old(self).maze,
            final(self).walls == old(self).walls,
    {
        if self.status != Status::Disabled {
            return;
        }
        let step = self.step_for(dt_micros) as i64;
        self.player1 = player_step(self.player1, keys1, self.game.player_size, &self.walls, step);
        self.player2 = player_step(self.player2, keys2, self.game.player_size, &self.walls, step);
        self.item_collision(ScoreboardSection::P1);
        self.item_collision(ScoreboardSection::P2);
    }

    /// Removes every item that the given player overlaps and counts each
    /// removed item for that player, once.
    pub fn item_collision(&mut self, section: ScoreboardSection)
        requires
            old(self).wf(),
        ensures
            final(self).wf(),
            ({
                let p = match section {
                    ScoreboardSection::P1 => old(self).player1,
                    ScoreboardSection::P2 => old(self).player2,
                };
                let player = Rect { center: p, size: old(self).game.player_size };
                let kept = kept_items(old(self).items@, player, old(self).game.player_size);
                &&& final(self).items@ == kept
                &&& kept.len() <= old(self).items@.len()
                &&& final(self).score == match section {
                    ScoreboardSection::P1 => ScoreBoard {
                        player1: add_capped(old(self).score.player1, old(self).items@.len() - kept.len()),
                        ..old(self).score
                    },
                    ScoreboardSection::P2 => ScoreBoard {
                        player2: add_capped(old(self).score.player2, old(self).items@.len() - kept.len()),
                        ..old(self).score
                    },
                }
            }),
            final(self).game == old(self).game,
            final(self).status == old(self).status,
            final(self).maze == old(self).maze,
            final(self).walls == old(self).walls,
            final(self).player1 == old(self).player1,
            final(self).player2 == old(self).player2,
    {
        let p = match section {
            ScoreboardSection::P1 => self.player1,
            ScoreboardSection::P2 => self.player2,
        };
        let size = self.game.player_size;
        let player = Rect { center: p, size };
        let mut kept: Vec<Point> = Vec::new();
        let mut i: usize = 0;
        while i < self.items.len()
            invariant
                self.wf(),
                size == self.game.player_size,
                player == (Rect { center: p, size }),
                actor_in_reach(p),
                i <= self.items@.len(),
                kept@ == kept_items(self.items@.take(i as int), player, size),
                forall|t: int| 0 <= t < kept@.len() ==> in_maze_field(#[trigger] kept@[t]),
            decreases self.items@.len() - i,
        {
            let it = self.items[i];
            assert(self.items@.take(i as int + 1).drop_last() =~= self.items@.take(i as int));
            if collide(player, Rect { center: it, size }).is_none() {
                kept.push(it);
            }
            i += 1;
        }
        assert(self.items@.take(self.items@.len() as int) =~= self.items@);
        proof {
            lemma_pickup_removes_overlapped(self.items@, player, size);
        }
        let removed = (self.items.len() - kept.len()) as u64;
        match section {
            ScoreboardSection::P1 => {
                self.score.player1 = self.score.player1.saturating_add(removed);
            },
            ScoreboardSection::P2 => {
                self.score.player2 = self.score.player2.saturating_add(removed);
            },
        }
        self.items = kept;
    }
}

} // verus!
