use vstd::prelude::*;
use crate::grid::{
    Point, block_point, block_position, lemma_coord_bounds, valid_cell, valid_extent, wall_point,
    wall_position,
};
use crate::random::shuffle;

verus! {

/// One step of `cell` in any direction from `p` stays within `i64`.
pub open spec fn has_room(p: Point, cell: Point) -> bool {
    &&& i64::MIN <= p.x - cell.x <= i64::MAX
    &&& i64::MIN <= p.x + cell.x <= i64::MAX
    &&& i64::MIN <= p.y - cell.y <= i64::MAX
    &&& i64::MIN <= p.y + cell.y <= i64::MAX
}

/// Where every wall and item cell of a maze lies.
pub open spec fn in_maze_field(p: Point) -> bool {
    -800_000_000_000 <= p.x <= 800_000_000_000 && -800_000_000_000 <= p.y <= 800_000_000_000
}

/// The orthogonal neighbour of `p` in direction `d`: up, right, down, left.
pub open spec fn orth(p: Point, cell: Point, d: int) -> Point {
    if d == 0 {
        Point { x: p.x, y: (p.y + cell.y) as i64 }
    } else if d == 1 {
        Point { x: (p.x + cell.x) as i64, y: p.y }
    } else if d == 2 {
        Point { x: p.x, y: (p.y - cell.y) as i64 }
    } else {
        Point { x: (p.x - cell.x) as i64, y: p.y }
    }
}

/// The diagonal neighbour of `p` with index `d`: up-right, down-right,
/// up-left, down-left.
pub open spec fn diag(p: Point, cell: Point, d: int) -> Point {
    if d == 0 {
        Point { x: (p.x + cell.x) as i64, y: (p.y + cell.y) as i64 }
    } else if d == 1 {
        Point { x: (p.x + cell.x) as i64, y: (p.y - cell.y) as i64 }
    } else if d == 2 {
        Point { x: (p.x - cell.x) as i64, y: (p.y + cell.y) as i64 }
    } else {
        Point { x: (p.x - cell.x) as i64, y: (p.y - cell.y) as i64 }
    }
}

pub open spec fn is_orth_neighbor(q: Point, p: Point, cell: Point) -> bool {
    q == orth(p, cell, 0) || q == orth(p, cell, 1) || q == orth(p, cell, 2) || q == orth(p, cell, 3)
}

pub open spec fn is_diag_neighbor(q: Point, p: Point, cell: Point) -> bool {
    q == diag(p, cell, 0) || q == diag(p, cell, 1) || q == diag(p, cell, 2) || q == diag(p, cell, 3)
}

/// `q` is one of the eight cells around `p`.
pub open spec fn is_neighbor(q: Point, p: Point, cell: Point) -> bool {
    is_orth_neighbor(q, p, cell) || is_diag_neighbor(q, p, cell)
}

/// What knocking down the wall in direction `d` adds to the candidate pool:
/// the three other orthogonal neighbours, in order, then the four diagonal ones.
pub open spec fn knocked_pool(p: Point, cell: Point, d: int) -> Seq<Point> {
    seq![orth(p, cell, 0), orth(p, cell, 1), orth(p, cell, 2), orth(p, cell, 3)].remove(d)
        + seq![diag(p, cell, 0), diag(p, cell, 1), diag(p, cell, 2), diag(p, cell, 3)]
}

proof fn lemma_knocked_pool(p: Point, cell: Point, d: int)
    requires
        valid_cell(cell),
        has_room(p, cell),
        0 <= d < 4,
    ensures
        knocked_pool(p, cell, d).len() == 7,
        forall|t: int|
            0 <= t < 7 ==> is_neighbor(#[trigger] knocked_pool(p, cell, d)[t], p, cell)
                && knocked_pool(p, cell, d)[t] != orth(p, cell, d),
        forall|q: Point|
            is_neighbor(q, p, cell) && q != orth(p, cell, d) ==> #[trigger] knocked_pool(
                p,
                cell,
                d,
            ).contains(q),
{
    let s = knocked_pool(p, cell, d);
    assert(s.len() == 7);
    assert forall|q: Point| is_neighbor(q, p, cell) && q != orth(p, cell, d) implies s.contains(
        q,
    ) by {
        if d == 0 {
            assert(s[0] == orth(p, cell, 1) && s[1] == orth(p, cell, 2) && s[2] == orth(p, cell, 3));
        } else if d == 1 {
            assert(s[0] == orth(p, cell, 0) && s[1] == orth(p, cell, 2) && s[2] == orth(p, cell, 3));
        } else if d == 2 {
            assert(s[0] == orth(p, cell, 0) && s[1] == orth(p, cell, 1) && s[2] == orth(p, cell, 3));
        } else {
            assert(s[0] == orth(p, cell, 0) && s[1] == orth(p, cell, 1) && s[2] == orth(p, cell, 2));
        }
        assert(s[3] == diag(p, cell, 0) && s[4] == diag(p, cell, 1) && s[5] == diag(p, cell, 2)
            && s[6] == diag(p, cell, 3));
        if q == s[0] { assert(s.contains(q)); }
        else if q == s[1] { assert(s.contains(q)); }
        else if q == s[2] { assert(s.contains(q)); }
        else if q == s[3] { assert(s.contains(q)); }
        else if q == s[4] { assert(s.contains(q)); }
        else if q == s[5] { assert(s.contains(q)); }
        else { assert(q == s[6]); assert(s.contains(q)); }
    }
}

/// Knocks down the wall of the pillar at `p` that lies in direction `d`
/// (up, right, down, left): returns the cell of that wall and adds the
/// pillar's seven other neighbours to `pool`.
pub fn knock_down_the(pool: &mut Vec<Point>, p: Point, cell: Point, d: usize) -> (opening: Point)
    requires
        has_room(p, cell),
        d < 4,
    ensures
        opening == orth(p, cell, d as int),
        final(pool)@ == old(pool)@ + knocked_pool(p, cell, d as int),
{
    let up = p.y + cell.y;
    let down = p.y - cell.y;
    let right = p.x + cell.x;
    let left = p.x - cell.x;
    let mut cross: Vec<Point> = vec![
        Point { x: p.x, y: up },
        Point { x: right, y: p.y },
        Point { x: p.x, y: down },
        Point { x: left, y: p.y },
    ];
    let slantings: Vec<Point> = vec![
        Point { x: right, y: up },
        Point { x: right, y: down },
        Point { x: left, y: up },
        Point { x: left, y: down },
    ];
    let ghost cross0 = cross@;
    let ghost pool0 = pool@;
    assert(cross0 =~= seq![orth(p, cell, 0), orth(p, cell, 1), orth(p, cell, 2), orth(p, cell, 3)]);
    assert(slantings@ =~= seq![diag(p, cell, 0), diag(p, cell, 1), diag(p, cell, 2), diag(p, cell, 3)]);
    let opening = cross.remove(d);
    let mut i: usize = 0;
    while i < cross.len()
        invariant
            i <= cross@.len() == 3,
            cross@ == cross0.remove(d as int),
            pool@ == pool0 + cross@.take(i as int),
        decreases cross@.len() - i,
    {
        pool.push(cross[i]);
        assert(cross@.take(i as int + 1) =~= cross@.take(i as int).push(cross@[i as int]));
        i += 1;
    }
    assert(cross@.take(3) =~= cross@);
    let mut j: usize = 0;
    while j < slantings.len()
        invariant
            j <= slantings@.len() == 4,
            pool@ == pool0 + cross@ + slantings@.take(j as int),
        decreases slantings@.len() - j,
    {
        pool.push(slantings[j]);
        assert(slantings@.take(j as int + 1) =~= slantings@.take(j as int).push(slantings@[j as int]));
        j += 1;
    }
    assert(slantings@.take(4) =~= slantings@);
    assert(pool@ =~= pool0 + knocked_pool(p, cell, d as int));
    opening
}

/// Draws a direction (up, right, down, left) uniformly at random.
pub fn pick_direction() -> (d: usize)
    ensures
        d < 4,
{
    let mut cross: Vec<usize> = vec![0, 1, 2, 3];
    let ghost before = cross@;
    shuffle(&mut cross);
    let d = cross[3];
    proof {
        broadcast use vstd::seq_lib::group_to_multiset_ensures;
        assert(cross@.contains(d));
        assert(cross@.to_multiset().count(d) > 0);
        assert(before.to_multiset().count(d) > 0);
        assert(before.contains(d));
        let w = choose|w: int| 0 <= w < before.len() && before[w] == d;
        assert(before[w] < 4);
    }
    d
}

/// A generated maze: its border walls, its pillars, the wall knocked down
/// beside each pillar (`openings[i]` belongs to `pillars[i]`), and the
/// cells where items may be placed.
pub struct Maze {
    pub borders: Vec<Point>,
    pub pillars: Vec<Point>,
    pub openings: Vec<Point>,
    pub candidates: Vec<Point>,
}

/// Pillars per row and per column: one on each odd coordinate.
pub open spec fn pillar_side(n: int) -> int {
    (n + 1) / 2
}

pub open spec fn pillar_count(n: int) -> int {
    pillar_side(n) * pillar_side(n)
}

/// The `i`-th pillar, row by row from the bottom left, at grid
/// coordinates `(1 + 2 * column, 1 + 2 * row)`.
pub open spec fn pillar_point(i: int, n: int, cell: Point) -> Point {
    block_point(1 + 2 * (i % pillar_side(n)), 1 + 2 * (i / pillar_side(n)), cell, n)
}

/// The border of an extent-`n` field, `4 * (n + 3)` cells: the bottom and
/// top rows by column (`(i, 1)` then `(i, n + 4)`), then the left and
/// right columns by row (`(1, j)` then `(n + 4, j)`).
pub open spec fn borders_exact(b: Seq<Point>, n: int, cell: Point) -> bool {
    &&& b.len() == 4 * (n + 3)
    &&& forall|i: int|
        1 <= i <= n + 4 ==> b[2 * (i - 1)] == #[trigger] wall_point(i, 1, cell, n) && b[2 * (i - 1)
            + 1] == wall_point(i, n + 4, cell, n)
    &&& forall|j: int|
        2 <= j <= n + 3 ==> b[2 * (n + 4) + 2 * (j - 2)] == #[trigger] wall_point(1, j, cell, n)
            && b[2 * (n + 4) + 2 * (j - 2) + 1] == wall_point(n + 4, j, cell, n)
}

/// `q` is next to one of `pillars` (orthogonally or diagonally) and is
/// neither a pillar nor an opening.
pub open spec fn is_candidate(q: Point, pillars: Seq<Point>, openings: Seq<Point>, cell: Point) -> bool {
    &&& exists|j: int| 0 <= j < pillars.len() && is_neighbor(q, #[trigger] pillars[j], cell)
    &&& !pillars.contains(q)
    &&& !openings.contains(q)
}

/// The structure every generated maze of extent `n` has, whatever the
/// random choices were.
pub open spec fn maze_shape(m: Maze, n: int, cell: Point) -> bool {
    &&& borders_exact(m.borders@, n, cell)
    &&& m.pillars@.len() == pillar_count(n)
    &&& forall|i: int| 0 <= i < m.pillars@.len() ==> #[trigger] m.pillars@[i] == pillar_point(i, n, cell)
    &&& m.openings@.len() == pillar_count(n)
    &&& forall|i: int|
        0 <= i < m.openings@.len() ==> is_orth_neighbor(#[trigger] m.openings@[i], m.pillars@[i], cell)
    &&& m.candidates@.no_duplicates()
    &&& forall|q: Point| #[trigger] m.candidates@.contains(q) <==> is_candidate(q, m.pillars@, m.openings@, cell)
    &&& forall|t: int| 0 <= t < m.borders@.len() ==> in_maze_field(#[trigger] m.borders@[t])
    &&& forall|t: int| 0 <= t < m.pillars@.len() ==> in_maze_field(#[trigger] m.pillars@[t])
    &&& forall|t: int| 0 <= t < m.openings@.len() ==> in_maze_field(#[trigger] m.openings@[t])
    &&& forall|t: int| 0 <= t < m.candidates@.len() ==> in_maze_field(#[trigger] m.candidates@[t])
}

/// Whether `v` holds `p`.
pub fn contains_point(v: &Vec<Point>, p: Point) -> (r: bool)
    ensures
        r == v@.contains(p),
{
    let mut i: usize = 0;
    while i < v.len()
        invariant
            i <= v@.len(),
            forall|t: int| 0 <= t < i ==> v@[t] != p,
        decreases v@.len() - i,
    {
        if v[i] == p {
            assert(v@[i as int] == p);
            return true;
        }
        i += 1;
    }
    false
}

/// The border walls of an extent-`n` field, in the order of `borders_exact`.
fn border_walls(n: i64, cell: Point) -> (b: Vec<Point>)
    requires
        valid_extent(n as int),
        valid_cell(cell),
    ensures
        borders_exact(b@, n as int, cell),
        forall|t: int| 0 <= t < b@.len() ==> in_maze_field(#[trigger] b@[t]),
{
    let side = n + 4;
    let mut b: Vec<Point> = Vec::new();
    let mut x: i64 = 1;
    while x <= side
        invariant
            valid_extent(n as int),
            valid_cell(cell),
            side == n + 4,
            1 <= x <= side + 1,
            b@.len() == 2 * (x - 1),
            forall|t: int| 0 <= t < b@.len() ==> in_maze_field(#[trigger] b@[t]),
            forall|i: int|
                1 <= i < x ==> b@[2 * (i - 1)] == #[trigger] wall_point(i, 1, cell, n as int)
                    && b@[2 * (i - 1) + 1] == wall_point(i, n + 4, cell, n as int),
        decreases side + 1 - x,
    {
        let ghost b0 = b@;
        proof {
            lemma_coord_bounds(x as int, cell.x as int, n as int);
            lemma_coord_bounds(1, cell.y as int, n as int);
            lemma_coord_bounds(n + 4, cell.y as int, n as int);
        }
        b.push(wall_position(x, 1, cell, n));
        b.push(wall_position(x, side, cell, n));
        assert forall|i: int| 1 <= i < x + 1 implies b@[2 * (i - 1)] == #[trigger] wall_point(i, 1, cell, n as int)
            && b@[2 * (i - 1) + 1] == wall_point(i, n + 4, cell, n as int) by {
            if i < x {
                assert(b@[2 * (i - 1)] == b0[2 * (i - 1)]);
                assert(b@[2 * (i - 1) + 1] == b0[2 * (i - 1) + 1]);
            }
        }
        x += 1;
    }
    let mut y: i64 = 2;
    while y <= n + 3
        invariant
            valid_extent(n as int),
            valid_cell(cell),
            side == n + 4,
            2 <= y <= n + 4,
            b@.len() == 2 * (n + 4) + 2 * (y - 2),
            forall|t: int| 0 <= t < b@.len() ==> in_maze_field(#[trigger] b@[t]),
            forall|i: int|
                1 <= i <= n + 4 ==> b@[2 * (i - 1)] == #[trigger] wall_point(i, 1, cell, n as int)
                    && b@[2 * (i - 1) + 1] == wall_point(i, n + 4, cell, n as int),
            forall|j: int|
                2 <= j < y ==> b@[2 * (n + 4) + 2 * (j - 2)] == #[trigger] wall_point(1, j, cell, n as int)
                    && b@[2 * (n + 4) + 2 * (j - 2) + 1] == wall_point(n + 4, j, cell, n as int),
        decreases n + 4 - y,
    {
        let ghost b0 = b@;
        proof {
            lemma_coord_bounds(y as int, cell.y as int, n as int);
            lemma_coord_bounds(1, cell.x as int, n as int);
            lemma_coord_bounds(n + 4, cell.x as int, n as int);
        }
        b.push(wall_position(1, y, cell, n));
        b.push(wall_position(side, y, cell, n));
        assert forall|i: int| 1 <= i <= n + 4 implies b@[2 * (i - 1)] == #[trigger] wall_point(i, 1, cell, n as int)
            && b@[2 * (i - 1) + 1] == wall_point(i, n + 4, cell, n as int) by {
            assert(b@[2 * (i - 1)] == b0[2 * (i - 1)]);
            assert(b@[2 * (i - 1) + 1] == b0[2 * (i - 1) + 1]);
        }
        assert forall|j: int| 2 <= j < y + 1 implies b@[2 * (n + 4) + 2 * (j - 2)] == #[trigger] wall_point(1, j, cell, n as int)
            && b@[2 * (n + 4) + 2 * (j - 2) + 1] == wall_point(n + 4, j, cell, n as int) by {
            if j < y {
                assert(b@[2 * (n + 4) + 2 * (j - 2)] == b0[2 * (n + 4) + 2 * (j - 2)]);
                assert(b@[2 * (n + 4) + 2 * (j - 2) + 1] == b0[2 * (n + 4) + 2 * (j - 2) + 1]);
            }
        }
        y += 1;
    }
    b
}

/// `q` stands in the pool that the first `i` pillars filled: next to
/// pillar `j < i` and not the wall knocked down beside it.
pub open spec fn pooled(q: Point, pillars: Seq<Point>, openings: Seq<Point>, cell: Point, i: int) -> bool {
    exists|j: int| 0 <= j < i && is_neighbor(q, #[trigger] pillars[j], cell) && q != openings[j]
}

proof fn lemma_pillar_in_field(i: int, n: int, cell: Point)
    requires
        valid_extent(n),
        valid_cell(cell),
        0 <= i < pillar_count(n),
    ensures
        0 <= i % pillar_side(n) < pillar_side(n),
        0 <= i / pillar_side(n) < pillar_side(n),
        has_room(pillar_point(i, n, cell), cell),
        -600_000_000_000 <= pillar_point(i, n, cell).x <= 600_000_000_000,
        -600_000_000_000 <= pillar_point(i, n, cell).y <= 600_000_000_000,
{
    let k = pillar_side(n);
    assert(0 <= i % k < k) by (nonlinear_arith)
        requires k > 0, 0 <= i;
    assert(0 <= i / k < k) by (nonlinear_arith)
        requires k > 0, 0 <= i < k * k;
    lemma_coord_bounds(1 + 2 * (i % k), cell.x as int, n);
    lemma_coord_bounds(1 + 2 * (i / k), cell.y as int, n);
}

/// Builds the maze of extent `n` with cells of size `cell`, knocking down
/// beside pillar `i` the wall in direction `dirs[i]` (up, right, down,
/// left). Candidates come in the order in which the pillars offered them.
pub fn build_maze(n: i64, cell: Point, dirs: &Vec<usize>) -> (m: Maze)
    requires
        valid_extent(n as int),
        valid_cell(cell),
        dirs@.len() == pillar_count(n as int),
        forall|i: int| 0 <= i < dirs@.len() ==> #[trigger] dirs@[i] < 4,
    ensures
        maze_shape(m, n as int, cell),
        forall|i: int|
            0 <= i < m.openings@.len() ==> #[trigger] m.openings@[i] == orth(
                m.pillars@[i],
                cell,
                dirs@[i] as int,
            ),
{
    let borders = border_walls(n, cell);
    let k: i64 = (n + 1) / 2;
    assert(0 < k * k <= 90_000_000_000) by (nonlinear_arith)
        requires 1 <= k <= 300_000;
    let count: usize = dirs.len();
    let mut pillars: Vec<Point> = Vec::new();
    let mut openings: Vec<Point> = Vec::new();
    let mut pool: Vec<Point> = Vec::new();
    let mut i: usize = 0;
    while i < count
        invariant
            valid_extent(n as int),
            valid_cell(cell),
            k == pillar_side(n as int),
            count == pillar_count(n as int),
            count <= 90_000_000_000,
            dirs@.len() == count,
            forall|t: int| 0 <= t < dirs@.len() ==> #[trigger] dirs@[t] < 4,
            i <= count,
            pillars@.len() == i,
            openings@.len() == i,
            forall|j: int| 0 <= j < i ==> #[trigger] pillars@[j] == pillar_point(j, n as int, cell),
            forall|j: int|
                0 <= j < i ==> -600_000_000_000 <= #[trigger] pillars@[j].x <= 600_000_000_000
                    && -600_000_000_000 <= pillars@[j].y <= 600_000_000_000,
            forall|j: int|
                0 <= j < i ==> #[trigger] openings@[j] == orth(pillars@[j], cell, dirs@[j] as int),
            forall|q: Point|
                #[trigger] pool@.contains(q) <==> pooled(q, pillars@, openings@, cell, i as int),
        decreases count - i,
    {
        proof {
            lemma_pillar_in_field(i as int, n as int, cell);
        }
        let ii = i as i64;
        let gx = 1 + 2 * (ii % k);
        let gy = 1 + 2 * (ii / k);
        proof {
            lemma_coord_bounds(gx as int, cell.x as int, n as int);
            lemma_coord_bounds(gy as int, cell.y as int, n as int);
        }
        let p = block_position(gx, gy, cell, n);
        let d = dirs[i];
        let ghost pool0 = pool@;
        let ghost pillars0 = pillars@;
        let ghost openings0 = openings@;
        let o = knock_down_the(&mut pool, p, cell, d);
        pillars.push(p);
        openings.push(o);
        proof {
            lemma_knocked_pool(p, cell, d as int);
            let added = knocked_pool(p, cell, d as int);
            assert forall|q: Point| #[trigger] pool@.contains(q) <==> pooled(
                q,
                pillars@,
                openings@,
                cell,
                i + 1,
            ) by {
                if pool@.contains(q) {
                    let t = choose|t: int| 0 <= t < pool@.len() && pool@[t] == q;
                    if t < pool0.len() {
                        assert(pool0.contains(q));
                        assert(pooled(q, pillars0, openings0, cell, i as int));
                        let j = choose|j: int|
                            0 <= j < i && is_neighbor(q, #[trigger] pillars0[j], cell) && q
                                != openings0[j];
                        assert(pillars@[j] == pillars0[j]);
                    } else {
                        assert(added[t - pool0.len()] == q);
                        assert(pillars@[i as int] == p);
                    }
                }
                if pooled(q, pillars@, openings@, cell, i + 1) {
                    let j = choose|j: int|
                        0 <= j < i + 1 && is_neighbor(q, #[trigger] pillars@[j], cell) && q
                            != openings@[j];
                    if j < i {
                        assert(pillars0[j] == pillars@[j]);
                        assert(pooled(q, pillars0, openings0, cell, i as int));
                        assert(pool0.contains(q));
                        let t = choose|t: int| 0 <= t < pool0.len() && pool0[t] == q;
                        assert(pool@[t] == q);
                    } else {
                        assert(added.contains(q));
                        let t = choose|t: int| 0 <= t < added.len() && added[t] == q;
                        assert(pool@[pool0.len() + t] == q);
                    }
                }
            }
        }
        i += 1;
    }
    let candidates = filter_candidates(&pool, &pillars, &openings);
    proof {
        assert forall|q: Point| #[trigger] candidates@.contains(q) <==> is_candidate(
            q,
            pillars@,
            openings@,
            cell,
        ) by {
            if is_candidate(q, pillars@, openings@, cell) {
                let j = choose|j: int| 0 <= j < pillars@.len() && is_neighbor(q, #[trigger] pillars@[j], cell);
                assert(openings@.contains(openings@[j]));
                assert(pooled(q, pillars@, openings@, cell, count as int));
            }
            if candidates@.contains(q) {
                assert(pool@.contains(q));
                assert(pooled(q, pillars@, openings@, cell, count as int));
            }
        }
    }
    let m = Maze { borders, pillars, openings, candidates };
    proof {
        assert forall|t: int| 0 <= t < m.candidates@.len() implies in_maze_field(#[trigger] m.candidates@[t]) by {
            let q = m.candidates@[t];
            assert(m.candidates@.contains(q));
            let j = choose|j: int| 0 <= j < m.pillars@.len() && is_neighbor(q, #[trigger] m.pillars@[j], cell);
        }
        assert forall|j: int| 0 <= j < m.openings@.len() implies is_orth_neighbor(
            #[trigger] m.openings@[j],
            m.pillars@[j],
            cell,
        ) by {
            assert(dirs@[j] < 4);
        }
    }
    m
}

/// The cells of `pool` that are neither a pillar nor an opening, each once,
/// in the order of their first appearance.
fn filter_candidates(pool: &Vec<Point>, pillars: &Vec<Point>, openings: &Vec<Point>) -> (r: Vec<Point>)
    ensures
        r@.no_duplicates(),
        forall|q: Point| #[trigger]
            r@.contains(q) <==> pool@.contains(q) && !pillars@.contains(q) && !openings@.contains(q),
{
    let mut r: Vec<Point> = Vec::new();
    let mut t: usize = 0;
    while t < pool.len()
        invariant
            t <= pool@.len(),
            r@.no_duplicates(),
            forall|q: Point| #[trigger]
                r@.contains(q) <==> pool@.take(t as int).contains(q) && !pillars@.contains(q)
                    && !openings@.contains(q),
        decreases pool@.len() - t,
    {
        let q = pool[t];
        let ghost before = r@;
        let ghost s = pool@.take(t as int);
        assert(pool@.take(t as int + 1) =~= s.push(q));
        proof {
            assert forall|x: Point| #[trigger] s.push(q).contains(x) <==> s.contains(x) || x == q by {
                if s.push(q).contains(x) && x != q {
                    let w = choose|w: int| 0 <= w < s.len() + 1 && s.push(q)[w] == x;
                    assert(s[w] == x);
                }
                if s.contains(x) {
                    let w = choose|w: int| 0 <= w < s.len() && s[w] == x;
                    assert(s.push(q)[w] == x);
                }
                assert(s.push(q)[s.len() as int] == q);
            }
        }
        if !contains_point(&r, q) && !contains_point(pillars, q) && !contains_point(openings, q) {
            r.push(q);
            proof {
                assert forall|a: int, b: int| 0 <= a < b < r@.len() implies r@[a] != r@[b] by {
                    if b == r@.len() - 1 {
                        assert(before.contains(r@[a]));
                    }
                }
                assert forall|x: Point| #[trigger] r@.contains(x) <==> before.contains(x) || x == q by {
                    if r@.contains(x) && x != q {
                        let w = choose|w: int| 0 <= w < r@.len() && r@[w] == x;
                        assert(before[w] == x);
                    }
                    if before.contains(x) {
                        let w = choose|w: int| 0 <= w < before.len() && before[w] == x;
                        assert(r@[w] == x);
                    }
                    assert(r@[before.len() as int] == q);
                }
            }
        }
        t += 1;
    }
    assert(pool@.take(pool@.len() as int) =~= pool@);
    r
}

/// Generates a maze of extent `n`: the wall knocked down beside each pillar
/// is drawn uniformly at random, and the candidates come in random order.
pub fn generate(n: i64, cell: Point) -> (m: Maze)
    requires
        valid_extent(n as int),
        valid_cell(cell),
        pillar_count(n as int) <= usize::MAX,
    ensures
        maze_shape(m, n as int, cell),
{
    let k: i64 = (n + 1) / 2;
    assert(0 < k * k <= 90_000_000_000) by (nonlinear_arith)
        requires 1 <= k <= 300_000;
    let count: usize = (k * k) as usize;
    let mut dirs: Vec<usize> = Vec::new();
    while dirs.len() < count
        invariant
            dirs@.len() <= count,
            forall|i: int| 0 <= i < dirs@.len() ==> #[trigger] dirs@[i] < 4,
        decreases count - dirs@.len(),
    {
        dirs.push(pick_direction());
    }
    let mut m = build_maze(n, cell, &dirs);
    let ghost before = m.candidates@;
    shuffle(&mut m.candidates);
    proof {
        broadcast use vstd::seq_lib::group_to_multiset_ensures;
        before.lemma_multiset_has_no_duplicates();
        m.candidates@.lemma_multiset_has_no_duplicates_conv();
        assert forall|q: Point| #[trigger] m.candidates@.contains(q) <==> before.contains(q) by {
            assert(m.candidates@.to_multiset().count(q) == before.to_multiset().count(q));
        }
        assert forall|t: int| 0 <= t < m.candidates@.len() implies in_maze_field(#[trigger] m.candidates@[t]) by {
            assert(m.candidates@.contains(m.candidates@[t]));
            let w = choose|w: int| 0 <= w < before.len() && before[w] == m.candidates@[t];
        }
    }
    m
}

/// Every maze of a given extent has the same number of border walls, of
/// pillars and of openings, whatever was drawn: `4 * (n + 3)` border walls
/// and `((n + 1) / 2)²` pillars, each with exactly one opening.
pub proof fn lemma_regeneration_counts(m1: Maze, m2: Maze, n: int, cell1: Point, cell2: Point)
    requires
        maze_shape(m1, n, cell1),
        maze_shape(m2, n, cell2),
    ensures
        m1.borders@.len() == m2.borders@.len() == 4 * (n + 3),
        m1.pillars@.len() == m2.pillars@.len() == ((n + 1) / 2) * ((n + 1) / 2),
        m1.openings@.len() == m2.openings@.len() == m1.pillars@.len(),
{
}

/// No item candidate of a maze stands on a pillar or on an opening, and
/// every opening is an orthogonal neighbour of its pillar.
pub proof fn lemma_candidates_clear_of_walls(m: Maze, n: int, cell: Point)
    requires
        maze_shape(m, n, cell),
    ensures
        forall|i: int, j: int|
            0 <= i < m.candidates@.len() && 0 <= j < m.pillars@.len() ==> #[trigger] m.candidates@[i]
                != #[trigger] m.pillars@[j] && m.candidates@[i] != m.openings@[j],
        forall|j: int| 0 <= j < m.openings@.len() ==> is_orth_neighbor(#[trigger] m.openings@[j], m.pillars@[j], cell),
{
    assert forall|i: int, j: int|
        0 <= i < m.candidates@.len() && 0 <= j < m.pillars@.len() implies #[trigger] m.candidates@[i]
            != #[trigger] m.pillars@[j] && m.candidates@[i] != m.openings@[j] by {
        let q = m.candidates@[i];
        assert(m.candidates@.contains(q));
        assert(m.pillars@.contains(m.pillars@[j]));
        assert(m.openings@.contains(m.openings@[j]));
    }
}

} // verus!
