use vstd::prelude::*;

verus! {

/// The side of the square play field, in world units (milli-pixels).
pub const WALL_MAX: i64 = 600_000;

/// The largest grid extent (block count) for which a maze can be laid
/// out: the field holds `n + 2` cells, and a cell cannot be narrower than
/// one world unit. This is a limit of the unit's resolution, not a rule
/// of the game.
pub const MAX_BLOCK_NUM: i64 = WALL_MAX - 2;

/// A point, or a size, in world units.
#[derive(Clone, Copy, Debug, PartialEq, Eq, Structural)]
pub struct Point {
    pub x: i64,
    pub y: i64,
}

impl Point {
    pub fn new(x: i64, y: i64) -> (r: Point)
        ensures
            r == (Point { x, y }),
    {
        Point { x, y }
    }
}

/// A grid extent: an odd count of at least 1.
pub open spec fn odd_extent(n: int) -> bool {
    1 <= n && n % 2 == 1
}

/// An odd extent whose cells are at least one world unit wide.
pub open spec fn valid_extent(n: int) -> bool {
    1 <= n <= MAX_BLOCK_NUM && n % 2 == 1
}

/// A cell size that fits in the play field.
pub open spec fn valid_cell(cell: Point) -> bool {
    0 < cell.x <= WALL_MAX && 0 < cell.y <= WALL_MAX
}

/// Half of the field's width in cells, rounded up: for an odd extent `n`,
/// `c * ((n + 1) / 2)` equals `c * n / 2 + c / 2` exactly.
pub open spec fn center_shift(c: int, n: int) -> int {
    c * ((n + 1) / 2)
}

/// World coordinate of border cell `g` along an axis with cell size `c`.
pub open spec fn wall_coord(g: int, c: int, n: int) -> int {
    c * (g - 2) - center_shift(c, n)
}

/// World coordinate of interior cell `g` along an axis with cell size `c`.
pub open spec fn block_coord(g: int, c: int, n: int) -> int {
    c * g - center_shift(c, n)
}

pub open spec fn wall_point(gx: int, gy: int, cell: Point, n: int) -> Point {
    Point { x: wall_coord(gx, cell.x as int, n) as i64, y: wall_coord(gy, cell.y as int, n) as i64 }
}

pub open spec fn block_point(gx: int, gy: int, cell: Point, n: int) -> Point {
    Point { x: block_coord(gx, cell.x as int, n) as i64, y: block_coord(gy, cell.y as int, n) as i64 }
}

pub proof fn lemma_coord_bounds(g: int, c: int, n: int)
    requires
        valid_extent(n),
        0 < c <= WALL_MAX,
        -2 <= g <= n + 6,
    ensures
        0 < center_shift(c, n) <= 180_000_000_000,
        -600_000_000_000 <= wall_coord(g, c, n) <= 600_000_000_000,
        -600_000_000_000 <= block_coord(g, c, n) <= 600_000_000_000,
{
    assert(0 < center_shift(c, n) <= 180_000_000_000) by (nonlinear_arith)
        requires 0 < c <= 600_000, 1 <= (n + 1) / 2 <= 300_000, center_shift(c, n) == c * ((n + 1) / 2);
    assert(-2_400_000 <= c * (g - 2) <= 360_002_400_000) by (nonlinear_arith)
        requires 0 < c <= 600_000, -4 <= g - 2 <= 600_002;
    assert(-1_200_000 <= c * g <= 360_003_600_000) by (nonlinear_arith)
        requires 0 < c <= 600_000, -2 <= g <= 600_004;
}

proof fn lemma_mul_within(a: int, b: int, ka: int, kb: int)
    requires
        0 <= ka,
        0 <= kb,
        -ka <= a <= ka,
        -kb <= b <= kb,
    ensures
        -(ka * kb) <= a * b <= ka * kb,
{
    assert(-(ka * kb) <= a * b <= ka * kb) by (nonlinear_arith)
        requires 0 <= ka, 0 <= kb, -ka <= a <= ka, -kb <= b <= kb;
}

proof fn lemma_transform_fits(g: int, c: int, n: int)
    requires
        i64::MIN <= g <= i64::MAX,
        i64::MIN <= c <= i64::MAX,
        1 <= n <= i64::MAX,
    ensures
        -0x4000_0000_0000_0004_0000_0000_0000_0000 <= c * (g - 2) <= 0x4000_0000_0000_0004_0000_0000_0000_0000,
        -0x4000_0000_0000_0000_0000_0000_0000_0000 <= c * g <= 0x4000_0000_0000_0000_0000_0000_0000_0000,
        -0x2000_0000_0000_0000_0000_0000_0000_0000 <= center_shift(c, n) <= 0x2000_0000_0000_0000_0000_0000_0000_0000,
{
    lemma_mul_within(c, g - 2, 0x8000_0000_0000_0000, 0x8000_0000_0000_0008);
    lemma_mul_within(c, g, 0x8000_0000_0000_0000, 0x8000_0000_0000_0000);
    lemma_mul_within(c, (n + 1) / 2, 0x8000_0000_0000_0000, 0x4000_0000_0000_0000);
}

/// A coordinate that an `i64` holds.
pub open spec fn fits_i64(v: int) -> bool {
    i64::MIN <= v <= i64::MAX
}

/// The world position of the border cell `(gx, gy)`, for a field of extent
/// `n` drawn with cells of size `cell`. Defined wherever the position
/// itself fits in an `i64`.
pub fn wall_position(gx: i64, gy: i64, cell: Point, n: i64) -> (r: Point)
    requires
        odd_extent(n as int),
        fits_i64(wall_coord(gx as int, cell.x as int, n as int)),
        fits_i64(wall_coord(gy as int, cell.y as int, n as int)),
    ensures
        r == wall_point(gx as int, gy as int, cell, n as int),
{
    proof {
        lemma_transform_fits(gx as int, cell.x as int, n as int);
        lemma_transform_fits(gy as int, cell.y as int, n as int);
    }
    let half: i128 = (n as i128 + 1) / 2;
    let x: i128 = cell.x as i128 * (gx as i128 - 2) - cell.x as i128 * half;
    let y: i128 = cell.y as i128 * (gy as i128 - 2) - cell.y as i128 * half;
    Point { x: x as i64, y: y as i64 }
}

/// The world position of the interior cell `(gx, gy)`, for a field of
/// extent `n` drawn with cells of size `cell`. Defined wherever the
/// position itself fits in an `i64`.
pub fn block_position(gx: i64, gy: i64, cell: Point, n: i64) -> (r: Point)
    requires
        odd_extent(n as int),
        fits_i64(block_coord(gx as int, cell.x as int, n as int)),
        fits_i64(block_coord(gy as int, cell.y as int, n as int)),
    ensures
        r == block_point(gx as int, gy as int, cell, n as int),
{
    proof {
        lemma_transform_fits(gx as int, cell.x as int, n as int);
        lemma_transform_fits(gy as int, cell.y as int, n as int);
    }
    let half: i128 = (n as i128 + 1) / 2;
    let x: i128 = cell.x as i128 * gx as i128 - cell.x as i128 * half;
    let y: i128 = cell.y as i128 * gy as i128 - cell.y as i128 * half;
    Point { x: x as i64, y: y as i64 }
}

} // verus!
