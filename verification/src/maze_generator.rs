//! Common data and the orchestrator for the maze generators.
//!
//! A maze is a flat, row-major sequence of booleans of length `size * size`;
//! `true` is a wall, `false` is an open cell. Every cell of the outer ring is
//! a wall except the single exit hole pierced after generation.

pub mod flood_fill;
pub mod generator_dfs;
pub mod generator_rd;
pub mod random_source;

use vstd::prelude::*;

use crate::maze_generator::flood_fill::lemma_reachable_keeps_open;
use crate::maze_generator::flood_fill::lemma_reachable_step;
use crate::maze_generator::flood_fill::reachable;
use crate::maze_generator::generator_dfs::dfs_model;
use crate::maze_generator::generator_dfs::dfs_seed_cell;
use crate::maze_generator::generator_dfs::GeneratorDFS;
use crate::maze_generator::generator_rd::rd_model;
use crate::maze_generator::generator_rd::GeneratorRD;
use crate::maze_generator::random_source::bounded_draw;
use crate::maze_generator::random_source::RandomSource;
use crate::maze_generator::random_source::range_event;

verus! {

/// Which algorithm carves the maze.
pub enum SelectedGenerator {
    DFS,
    RD,
}

/// One of the four grid directions; also records through which outer border
/// the exit was cut.
#[derive(Copy, Clone, PartialEq, Eq, Structural, Debug)]
pub enum Direction {
    Top,
    Bottom,
    Left,
    Right,
}

/// A pair of grid coordinates: column first, row second.
#[derive(Copy, Clone, PartialEq, Eq, Structural, Debug)]
pub struct PointU32(pub u32, pub u32);

/// The direction that a bounded draw in `0..=3` selects.
pub open spec fn direction_of_code(code: int) -> Direction {
    if code == 0 {
        Direction::Top
    } else if code == 1 {
        Direction::Bottom
    } else if code == 2 {
        Direction::Left
    } else {
        Direction::Right
    }
}

/// Turns a bounded draw in `0..=3` into a direction, as the seeded draw of a
/// random direction does.
pub fn direction_from_code(code: u8) -> (d: Direction)
    ensures
        d == direction_of_code(code as int),
{
    match code {
        0u8 => Direction::Top,
        1u8 => Direction::Bottom,
        2u8 => Direction::Left,
        _ => Direction::Right,
    }
}

/// Flat index of the cell in row `row`, column `col` of a square grid.
pub open spec fn cell(size: int, row: int, col: int) -> int {
    row * size + col
}

/// `(row, col)` lies within the grid.
pub open spec fn in_grid(size: int, row: int, col: int) -> bool {
    0 <= row < size && 0 <= col < size
}

/// `(row, col)` lies on the outer ring of the grid.
pub open spec fn on_ring(size: int, row: int, col: int) -> bool {
    row == 0 || row == size - 1 || col == 0 || col == size - 1
}

/// Every cell of the outer ring is a wall.
pub open spec fn border_all_wall(grid: Seq<bool>, size: int) -> bool {
    forall|row: int, col: int|
        in_grid(size, row, col) && on_ring(size, row, col) ==> #[trigger] grid[cell(
            size,
            row,
            col,
        )]
}

/// A cell index built from in-range coordinates is itself in range, and the
/// coordinates can be read back from it.
pub proof fn lemma_cell_bounds(size: int, row: int, col: int)
    requires
        in_grid(size, row, col),
    ensures
        0 <= cell(size, row, col) < size * size,
        cell(size, row, col) / size == row,
        cell(size, row, col) % size == col,
{
    assert(0 <= row * size + col < size * size) by (nonlinear_arith)
        requires
            0 <= row < size,
            0 <= col < size,
    ;
    assert((row * size + col) / size == row && (row * size + col) % size == col)
        by (nonlinear_arith)
        requires
            0 <= row < size,
            0 <= col < size,
    ;
}

/// The cells directly above and below `(row, col)` sit one full row away
/// in the flat grid.
pub proof fn lemma_cell_row_step(size: int, row: int, col: int)
    ensures
        cell(size, row + 1, col) == cell(size, row, col) + size,
        cell(size, row - 1, col) == cell(size, row, col) - size,
{
    assert((row + 1) * size == row * size + size && (row - 1) * size == row * size - size)
        by (nonlinear_arith);
}

/// Distinct in-range coordinates give distinct cell indices.
pub proof fn lemma_cell_injective(size: int, r1: int, c1: int, r2: int, c2: int)
    requires
        in_grid(size, r1, c1),
        in_grid(size, r2, c2),
        cell(size, r1, c1) == cell(size, r2, c2),
    ensures
        r1 == r2 && c1 == c2,
{
    lemma_cell_bounds(size, r1, c1);
    lemma_cell_bounds(size, r2, c2);
}

/// How many cells of the grid are walls.
pub open spec fn count_walls(grid: Seq<bool>) -> nat
    decreases grid.len(),
{
    if grid.len() == 0 {
        0
    } else {
        count_walls(grid.drop_last()) + (if grid.last() {
            1nat
        } else {
            0nat
        })
    }
}

/// How many of the first `k` cells are open.
pub open spec fn count_open_upto(grid: Seq<bool>, k: int) -> int
    decreases k,
{
    if k <= 0 {
        0
    } else {
        count_open_upto(grid, k - 1) + (if !grid[k - 1] {
            1int
        } else {
            0int
        })
    }
}

/// How many cells of the grid are open.
pub open spec fn count_open(grid: Seq<bool>) -> int {
    count_open_upto(grid, grid.len() as int)
}

/// The open 4-adjacency pairs that cell `i` starts: one towards its right
/// neighbour and one towards the cell below, counted only inside the grid,
/// so that every open pair is counted exactly once.
pub open spec fn edge_contrib(grid: Seq<bool>, size: int, i: int) -> int {
    (if i % size < size - 1 && !grid[i] && !grid[i + 1] {
        1int
    } else {
        0int
    }) + (if i / size < size - 1 && !grid[i] && !grid[i + size] {
        1int
    } else {
        0int
    })
}

/// The open pairs started by the first `k` cells.
pub open spec fn edges_upto(grid: Seq<bool>, size: int, k: int) -> int
    decreases k,
{
    if k <= 0 {
        0
    } else {
        edges_upto(grid, size, k - 1) + edge_contrib(grid, size, k - 1)
    }
}

/// How many 4-adjacency edges run between open cells of the grid.
pub open spec fn open_edges(grid: Seq<bool>, size: int) -> int {
    edges_upto(grid, size, grid.len() as int)
}

/// How many of the in-grid neighbours of flat index `j` are open.
pub open spec fn open_neighbor_pairs(grid: Seq<bool>, size: int, j: int) -> int {
    (if j % size > 0 && !grid[j - 1] {
        1int
    } else {
        0int
    }) + (if j % size < size - 1 && !grid[j + 1] {
        1int
    } else {
        0int
    }) + (if j / size > 0 && !grid[j - size] {
        1int
    } else {
        0int
    }) + (if j / size < size - 1 && !grid[j + size] {
        1int
    } else {
        0int
    })
}

/// In a grid whose first `k` cells are all walls, nothing is counted.
pub proof fn lemma_all_walls_counts(grid: Seq<bool>, size: int, k: int)
    requires
        k <= grid.len(),
        forall|i: int| 0 <= i < grid.len() ==> grid[i],
    ensures
        count_open_upto(grid, k) == 0,
        edges_upto(grid, size, k) == 0,
    decreases k,
{
    if k > 0 {
        lemma_all_walls_counts(grid, size, k - 1);
    }
}

/// Opening cell `j` raises the open count of the first `k` cells by one
/// exactly when `j` is among them.
proof fn lemma_count_open_upto_open(grid: Seq<bool>, j: int, k: int)
    requires
        0 <= j < grid.len(),
        grid[j],
        k <= grid.len(),
    ensures
        count_open_upto(grid.update(j, false), k) == count_open_upto(grid, k) + (if j < k {
            1int
        } else {
            0int
        }),
    decreases k,
{
    if k > 0 {
        lemma_count_open_upto_open(grid, j, k - 1);
    }
}

/// Opening a wall cell raises the open count by one.
pub proof fn lemma_count_open_open(grid: Seq<bool>, j: int)
    requires
        0 <= j < grid.len(),
        grid[j],
    ensures
        count_open(grid.update(j, false)) == count_open(grid) + 1,
{
    lemma_count_open_upto_open(grid, j, grid.len() as int);
}
/// Flat-index geometry: where the right and lower neighbours of cell `i`
/// sit, and when they exist.
proof fn lemma_in_row_bounds(size: int, i: int)
    requires
        2 <= size,
        0 <= i < size * size,
    ensures
        i == size * (i / size) + i % size,
        0 <= i / size < size,
        0 <= i % size < size,
        i % size < size - 1 ==> i + 1 < size * size && (i + 1) / size == i / size && (i + 1)
            % size == i % size + 1,
        i / size < size - 1 ==> i + size < size * size && (i + size) / size == i / size + 1 && (i
            + size) % size == i % size,
{
    vstd::arithmetic::div_mod::lemma_fundamental_div_mod(i, size);
    assert(0 <= i / size < size && 0 <= i % size < size) by (nonlinear_arith)
        requires
            2 <= size,
            0 <= i < size * size,
            i == size * (i / size) + i % size,
    ;
    if i % size < size - 1 {
        assert(i + 1 == (i / size) * size + (i % size + 1)) by (nonlinear_arith)
            requires
                i == size * (i / size) + i % size,
        ;
        vstd::arithmetic::div_mod::lemma_fundamental_div_mod_converse(
            i + 1,
            size,
            i / size,
            i % size + 1,
        );
        assert(i + 1 < size * size) by (nonlinear_arith)
            requires
                2 <= size,
                i + 1 == size * (i / size) + (i % size + 1),
                0 <= i / size < size,
                0 <= i % size + 1 < size,
        ;
    }
    if i / size < size - 1 {
        assert(i + size == (i / size + 1) * size + i % size) by (nonlinear_arith)
            requires
                i == size * (i / size) + i % size,
        ;
        vstd::arithmetic::div_mod::lemma_fundamental_div_mod_converse(
            i + size,
            size,
            i / size + 1,
            i % size,
        );
        assert(i + size < size * size) by (nonlinear_arith)
            requires
                2 <= size,
                i + size == size * (i / size + 1) + i % size,
                0 <= i / size + 1 < size,
                0 <= i % size < size,
        ;
    }
}

/// Opening cell `j` adds, among the pairs started by the first `k` cells,
/// one open pair per already open in-grid neighbour of `j` that the count
/// reaches.
proof fn lemma_edges_upto_open(grid: Seq<bool>, size: int, j: int, k: int)
    requires
        2 <= size,
        grid.len() == size * size,
        0 <= j < grid.len(),
        grid[j],
        k <= grid.len(),
    ensures
        edges_upto(grid.update(j, false), size, k) == edges_upto(grid, size, k) + (if j - 1 < k
            && j % size > 0 && !grid[j - 1] {
            1int
        } else {
            0int
        }) + (if j - size < k && j / size > 0 && !grid[j - size] {
            1int
        } else {
            0int
        }) + (if j < k && j % size < size - 1 && !grid[j + 1] {
            1int
        } else {
            0int
        }) + (if j < k && j / size < size - 1 && !grid[j + size] {
            1int
        } else {
            0int
        }),
    decreases k,
{
    lemma_in_row_bounds(size, j);
    if k > 0 {
        lemma_edges_upto_open(grid, size, j, k - 1);
        let i = k - 1;
        let updated = grid.update(j, false);
        lemma_in_row_bounds(size, i);
        if i == j {
        } else if i == j - 1 {
            if j % size > 0 {
                assert(i == (j / size) * size + (j % size - 1)) by (nonlinear_arith)
                    requires
                        i == j - 1,
                        j == size * (j / size) + j % size,
                ;
                vstd::arithmetic::div_mod::lemma_fundamental_div_mod_converse(
                    i,
                    size,
                    j / size,
                    j % size - 1,
                );
            } else {
                assert(i == (j / size - 1) * size + (size - 1)) by (nonlinear_arith)
                    requires
                        i == j - 1,
                        j % size == 0,
                        j == size * (j / size) + j % size,
                ;
                vstd::arithmetic::div_mod::lemma_fundamental_div_mod_converse(
                    i,
                    size,
                    j / size - 1,
                    size - 1,
                );
            }
            assert(edge_contrib(updated, size, i) - edge_contrib(grid, size, i) == (if j % size
                > 0 && !grid[j - 1] {
                1int
            } else {
                0int
            }));
        } else if i == j - size {
            assert(i == (j / size - 1) * size + j % size) by (nonlinear_arith)
                requires
                    i == j - size,
                    j == size * (j / size) + j % size,
            ;
            vstd::arithmetic::div_mod::lemma_fundamental_div_mod_converse(
                i,
                size,
                j / size - 1,
                j % size,
            );
            assert(edge_contrib(updated, size, i) - edge_contrib(grid, size, i) == (if j / size
                > 0 && !grid[j - size] {
                1int
            } else {
                0int
            }));
        } else {
            assert(edge_contrib(updated, size, i) == edge_contrib(grid, size, i));
        }
    } else {
        assert(j < size ==> j / size == 0) by (nonlinear_arith)
            requires
                2 <= size,
                0 <= j,
                j == size * (j / size) + j % size,
                0 <= j % size < size,
                0 <= j / size,
        ;
        assert(j == 0 ==> j % size == 0) by (nonlinear_arith)
            requires
                2 <= size,
                j == size * (j / size) + j % size,
                0 <= j % size < size,
                0 <= j / size,
        ;
    }
}

/// Opening a wall cell adds one open edge per already open neighbour.
pub proof fn lemma_edges_open(grid: Seq<bool>, size: int, j: int)
    requires
        2 <= size,
        grid.len() == size * size,
        0 <= j < grid.len(),
        grid[j],
    ensures
        open_edges(grid.update(j, false), size) == open_edges(grid, size) + open_neighbor_pairs(
            grid,
            size,
            j,
        ),
{
    lemma_edges_upto_open(grid, size, j, grid.len() as int);
}

/// A grid of `len` cells, every one of them `value`.

pub fn filled(len: usize, value: bool) -> (v: Vec<bool>)
    ensures
        v@ == Seq::new(len as nat, |i: int| value),
{
    let mut v: Vec<bool> = Vec::new();
    let mut k: usize = 0;
    while k < len
        invariant
            k <= len,
            v@ == Seq::new(k as nat, |i: int| value),
        decreases len - k,
    {
        v.push(value);
        k = k + 1;
        assert(v@ =~= Seq::new(k as nat, |i: int| value));
    }
    assert(v@ =~= Seq::new(len as nat, |i: int| value));
    v
}

/// `(row, col)` is an open interior cell.
pub open spec fn is_open_interior(grid: Seq<bool>, size: int, row: int, col: int) -> bool {
    1 <= row <= size - 2 && 1 <= col <= size - 2 && !grid[cell(size, row, col)]
}

/// Some interior cell of the grid is open.
pub open spec fn has_open_interior(grid: Seq<bool>, size: int) -> bool {
    exists|row: int, col: int| is_open_interior(grid, size, row, col)
}

/// `(r1, c1)` comes before `(r2, c2)` in row-major order.
pub open spec fn row_major_before(r1: int, c1: int, r2: int, c2: int) -> bool {
    r1 < r2 || (r1 == r2 && c1 < c2)
}

/// `p` is the first open interior cell in row-major order.
pub open spec fn is_first_open_interior(grid: Seq<bool>, size: int, p: (int, int)) -> bool {
    &&& is_open_interior(grid, size, p.0, p.1)
    &&& forall|row: int, col: int|
        is_open_interior(grid, size, row, col) ==> !row_major_before(row, col, p.0, p.1)
}

/// The first open interior cell in row-major order, as `(row, col)`.
pub open spec fn first_open_interior(grid: Seq<bool>, size: int) -> (int, int) {
    choose|p: (int, int)| is_first_open_interior(grid, size, p)
}

/// Two first open interior cells are the same cell.
pub proof fn lemma_first_open_interior_unique(
    grid: Seq<bool>,
    size: int,
    p: (int, int),
    q: (int, int),
)
    requires
        is_first_open_interior(grid, size, p),
        is_first_open_interior(grid, size, q),
    ensures
        p == q,
{
    assert(!row_major_before(p.0, p.1, q.0, q.1));
    assert(!row_major_before(q.0, q.1, p.0, p.1));
}

/// Finds the first open interior cell in row-major order.
pub fn scan_open_interior(maze_array: &Vec<bool>, size: usize) -> (p: (usize, usize))
    requires
        3 <= size,
        size * size <= usize::MAX,
        maze_array@.len() == size * size,
        has_open_interior(maze_array@, size as int),
    ensures
        (p.0 as int, p.1 as int) == first_open_interior(maze_array@, size as int),
        is_open_interior(maze_array@, size as int, p.0 as int, p.1 as int),
{
    let ghost size_i = size as int;
    let mut row: usize = 1;
    while row <= size - 2
        invariant
            3 <= size,
            size_i == size as int,
            size * size <= usize::MAX,
            maze_array@.len() == size * size,
            1 <= row <= size - 1,
            forall|r: int, c: int|
                r < row ==> !is_open_interior(maze_array@, size_i, r, c),
        decreases size - row,
    {
        let mut col: usize = 1;
        while col <= size - 2
            invariant
                3 <= size,
                size_i == size as int,
                size * size <= usize::MAX,
                maze_array@.len() == size * size,
                1 <= row <= size - 2,
                1 <= col <= size - 1,
                forall|r: int, c: int|
                    r < row ==> !is_open_interior(maze_array@, size_i, r, c),
                forall|c: int| c < col ==> !is_open_interior(maze_array@, size_i, row as int, c),
            decreases size - col,
        {
            proof {
                lemma_cell_bounds(size_i, row as int, col as int);
            }
            if !maze_array[row * size + col] {
                proof {
                    assert(is_first_open_interior(
                        maze_array@,
                        size_i,
                        (row as int, col as int),
                    ));
                    lemma_first_open_interior_unique(
                        maze_array@,
                        size_i,
                        (row as int, col as int),
                        first_open_interior(maze_array@, size_i),
                    );
                }
                return (row, col);
            }
            col = col + 1;
        }
        row = row + 1;
    }
    proof {
        let (r, c) = choose|r: int, c: int| is_open_interior(maze_array@, size_i, r, c);
        assert(false);
    }
    (1, 1)
}

/// How many placement attempts the sampler makes before it falls back to
/// a deterministic scan. Practically out of reach: only there so that
/// every run provably ends.
pub open spec fn placement_cap() -> int {
    usize::MAX as int
}

/// The call history after `k` start-placement attempts of two bounded
/// draws each.
pub open spec fn start_hist(h0: Seq<(int, int, int)>, size: int, k: int) -> Seq<(int, int, int)>
    decreases k,
{
    if k <= 0 {
        h0
    } else {
        start_hist(h0, size, k - 1).push(range_event(1, size - 1)).push(range_event(1, size - 1))
    }
}

/// The column that start attempt `k` draws.
pub open spec fn start_try_x(seed: Seq<char>, h0: Seq<(int, int, int)>, size: int, k: int) -> int {
    bounded_draw(seed, start_hist(h0, size, k), 1, size - 1)
}

/// The row that start attempt `k` draws.
pub open spec fn start_try_y(seed: Seq<char>, h0: Seq<(int, int, int)>, size: int, k: int) -> int {
    bounded_draw(seed, start_hist(h0, size, k).push(range_event(1, size - 1)), 1, size - 1)
}

/// Start attempt `k` lands on an open cell.
pub open spec fn start_try_hits(
    seed: Seq<char>,
    h0: Seq<(int, int, int)>,
    grid: Seq<bool>,
    size: int,
    k: int,
) -> bool {
    !grid[cell(size, start_try_y(seed, h0, size, k), start_try_x(seed, h0, size, k))]
}

/// `k` is the first hitting start attempt, below the cap.
pub open spec fn is_first_start_hit(
    seed: Seq<char>,
    h0: Seq<(int, int, int)>,
    grid: Seq<bool>,
    size: int,
    k: int,
) -> bool {
    &&& 0 <= k < placement_cap()
    &&& start_try_hits(seed, h0, grid, size, k)
    &&& forall|j: int| 0 <= j < k ==> !start_try_hits(seed, h0, grid, size, j)
}

/// Some start attempt below the cap hits an open cell.
pub open spec fn start_sampling_hits(
    seed: Seq<char>,
    h0: Seq<(int, int, int)>,
    grid: Seq<bool>,
    size: int,
) -> bool {
    exists|k: int| is_first_start_hit(seed, h0, grid, size, k)
}

/// The first hitting start attempt.
pub open spec fn start_winner(
    seed: Seq<char>,
    h0: Seq<(int, int, int)>,
    grid: Seq<bool>,
    size: int,
) -> int {
    choose|k: int| is_first_start_hit(seed, h0, grid, size, k)
}

/// Two first hitting start attempts are the same attempt.
pub proof fn lemma_first_start_hit_unique(
    seed: Seq<char>,
    h0: Seq<(int, int, int)>,
    grid: Seq<bool>,
    size: int,
    k1: int,
    k2: int,
)
    requires
        is_first_start_hit(seed, h0, grid, size, k1),
        is_first_start_hit(seed, h0, grid, size, k2),
    ensures
        k1 == k2,
{
    if k1 < k2 {
        assert(!start_try_hits(seed, h0, grid, size, k1));
    }
    if k2 < k1 {
        assert(!start_try_hits(seed, h0, grid, size, k2));
    }
}

/// Where the start lands, as `(x, y)` with `x` the column: the cell of the
/// first hitting attempt, or the first open interior cell in row-major
/// order when the cap runs out.
pub open spec fn start_model_point(
    seed: Seq<char>,
    h0: Seq<(int, int, int)>,
    grid: Seq<bool>,
    size: int,
) -> (int, int) {
    if start_sampling_hits(seed, h0, grid, size) {
        let k = start_winner(seed, h0, grid, size);
        (start_try_x(seed, h0, size, k), start_try_y(seed, h0, size, k))
    } else {
        let p = first_open_interior(grid, size);
        (p.1, p.0)
    }
}

/// The call history once the start is placed.
pub open spec fn start_model_hist(
    seed: Seq<char>,
    h0: Seq<(int, int, int)>,
    grid: Seq<bool>,
    size: int,
) -> Seq<(int, int, int)> {
    if start_sampling_hits(seed, h0, grid, size) {
        start_hist(h0, size, start_winner(seed, h0, grid, size) + 1)
    } else {
        start_hist(h0, size, placement_cap())
    }
}

/// The call history after `k` exit-placement attempts of two bounded
/// draws each: a border position, then a border.
pub open spec fn exit_hist(h0: Seq<(int, int, int)>, size: int, k: int) -> Seq<(int, int, int)>
    decreases k,
{
    if k <= 0 {
        h0
    } else {
        exit_hist(h0, size, k - 1).push(range_event(1, size - 1)).push(range_event(0, 3))
    }
}

/// The border position that exit attempt `k` draws.
pub open spec fn exit_try_index(seed: Seq<char>, h0: Seq<(int, int, int)>, size: int, k: int) -> int {
    bounded_draw(seed, exit_hist(h0, size, k), 1, size - 1)
}

/// The border that exit attempt `k` draws, as a direction code.
pub open spec fn exit_try_border(seed: Seq<char>, h0: Seq<(int, int, int)>, size: int, k: int) -> int {
    bounded_draw(seed, exit_hist(h0, size, k).push(range_event(1, size - 1)), 0, 3)
}

/// The interior cell one step inward from border `border` at position `i`,
/// as `(row, col)`.
pub open spec fn exit_probe(size: int, border: int, i: int) -> (int, int) {
    if border == 0 {
        (1, i)
    } else if border == 1 {
        (size - 2, i)
    } else if border == 2 {
        (i, 1)
    } else {
        (i, size - 2)
    }
}

/// The outer-ring cell adjacent to that probe cell, as `(row, col)`.
pub open spec fn exit_hole(size: int, border: int, i: int) -> (int, int) {
    if border == 0 {
        (0, i)
    } else if border == 1 {
        (size - 1, i)
    } else if border == 2 {
        (i, 0)
    } else {
        (i, size - 1)
    }
}

/// The cell one step inward from border `border` at position `i` is open.
pub open spec fn exit_candidate_open(grid: Seq<bool>, size: int, border: int, i: int) -> bool {
    !grid[cell(size, exit_probe(size, border, i).0, exit_probe(size, border, i).1)]
}

/// Exit attempt `k` lands on a usable border cell.
pub open spec fn exit_try_hits(
    seed: Seq<char>,
    h0: Seq<(int, int, int)>,
    grid: Seq<bool>,
    size: int,
    k: int,
) -> bool {
    exit_candidate_open(
        grid,
        size,
        exit_try_border(seed, h0, size, k),
        exit_try_index(seed, h0, size, k),
    )
}

/// `k` is the first hitting exit attempt, below the cap.
pub open spec fn is_first_exit_hit(
    seed: Seq<char>,
    h0: Seq<(int, int, int)>,
    grid: Seq<bool>,
    size: int,
    k: int,
) -> bool {
    &&& 0 <= k < placement_cap()
    &&& exit_try_hits(seed, h0, grid, size, k)
    &&& forall|j: int| 0 <= j < k ==> !exit_try_hits(seed, h0, grid, size, j)
}

/// Some exit attempt below the cap hits a usable border cell.
pub open spec fn exit_sampling_hits(
    seed: Seq<char>,
    h0: Seq<(int, int, int)>,
    grid: Seq<bool>,
    size: int,
) -> bool {
    exists|k: int| is_first_exit_hit(seed, h0, grid, size, k)
}

/// The first hitting exit attempt.
pub open spec fn exit_winner(
    seed: Seq<char>,
    h0: Seq<(int, int, int)>,
    grid: Seq<bool>,
    size: int,
) -> int {
    choose|k: int| is_first_exit_hit(seed, h0, grid, size, k)
}

/// Two first hitting exit attempts are the same attempt.
pub proof fn lemma_first_exit_hit_unique(
    seed: Seq<char>,
    h0: Seq<(int, int, int)>,
    grid: Seq<bool>,
    size: int,
    k1: int,
    k2: int,
)
    requires
        is_first_exit_hit(seed, h0, grid, size, k1),
        is_first_exit_hit(seed, h0, grid, size, k2),
    ensures
        k1 == k2,
{
    if k1 < k2 {
        assert(!exit_try_hits(seed, h0, grid, size, k1));
    }
    if k2 < k1 {
        assert(!exit_try_hits(seed, h0, grid, size, k2));
    }
}

/// `(border, i)` can serve as an exit: the border code is valid, the
/// position lies strictly inside the border, and the cell inward is open.
pub open spec fn is_exit_candidate(grid: Seq<bool>, size: int, border: int, i: int) -> bool {
    0 <= border <= 3 && 1 <= i <= size - 2 && exit_candidate_open(grid, size, border, i)
}

/// Some border cell can serve as an exit.
pub open spec fn exit_scan_found(grid: Seq<bool>, size: int) -> bool {
    exists|border: int, i: int| is_exit_candidate(grid, size, border, i)
}

/// `(b1, i1)` comes before `(b2, i2)` in the fallback scan order: borders
/// in code order, positions ascending.
pub open spec fn exit_scan_before(b1: int, i1: int, b2: int, i2: int) -> bool {
    b1 < b2 || (b1 == b2 && i1 < i2)
}

/// `p` is the first usable exit candidate in scan order.
pub open spec fn is_first_exit_candidate(grid: Seq<bool>, size: int, p: (int, int)) -> bool {
    &&& is_exit_candidate(grid, size, p.0, p.1)
    &&& forall|border: int, i: int|
        is_exit_candidate(grid, size, border, i) ==> !exit_scan_before(border, i, p.0, p.1)
}

/// The first usable exit candidate in scan order, as `(border, index)`.
pub open spec fn first_exit_candidate(grid: Seq<bool>, size: int) -> (int, int) {
    choose|p: (int, int)| is_first_exit_candidate(grid, size, p)
}

/// Two first exit candidates are the same candidate.
pub proof fn lemma_first_exit_candidate_unique(
    grid: Seq<bool>,
    size: int,
    p: (int, int),
    q: (int, int),
)
    requires
        is_first_exit_candidate(grid, size, p),
        is_first_exit_candidate(grid, size, q),
    ensures
        p == q,
{
    assert(!exit_scan_before(p.0, p.1, q.0, q.1));
    assert(!exit_scan_before(q.0, q.1, p.0, p.1));
}

/// A hitting attempt at a bordered grid stays off the corners: the drawn
/// position is strictly inside the border, so it is a usable candidate.
pub proof fn lemma_exit_hit_is_candidate(grid: Seq<bool>, size: int, border: int, i: int)
    requires
        3 <= size,
        grid.len() == size * size,
        border_all_wall(grid, size),
        0 <= border <= 3,
        1 <= i <= size - 1,
        exit_candidate_open(grid, size, border, i),
    ensures
        i <= size - 2,
        is_exit_candidate(grid, size, border, i),
{
    let probe = exit_probe(size, border, i);
    lemma_cell_bounds(size, probe.0, probe.1);
    if i == size - 1 {
        assert(on_ring(size, probe.0, probe.1));
        assert(grid[cell(size, probe.0, probe.1)]);
    }
}

/// The exit chosen for a grid, as `(border, index)`: the first hitting
/// attempt's draw, else the first scan candidate, else the top border at
/// position one.
pub open spec fn exit_model_choice(
    seed: Seq<char>,
    h0: Seq<(int, int, int)>,
    grid: Seq<bool>,
    size: int,
) -> (int, int) {
    if exit_sampling_hits(seed, h0, grid, size) {
        let k = exit_winner(seed, h0, grid, size);
        (exit_try_border(seed, h0, size, k), exit_try_index(seed, h0, size, k))
    } else if exit_scan_found(grid, size) {
        first_exit_candidate(grid, size)
    } else {
        (0, 1)
    }
}

/// The call history once the exit is placed.
pub open spec fn exit_model_hist(
    seed: Seq<char>,
    h0: Seq<(int, int, int)>,
    grid: Seq<bool>,
    size: int,
) -> Seq<(int, int, int)> {
    if exit_sampling_hits(seed, h0, grid, size) {
        exit_hist(h0, size, exit_winner(seed, h0, grid, size) + 1)
    } else {
        exit_hist(h0, size, placement_cap())
    }
}

/// The outer-ring cell adjacent to the exit cell on the recorded border.
pub open spec fn hole_of(size: int, border: Direction, exit_x: int, exit_y: int) -> (int, int) {
    match border {
        Direction::Top => (exit_y - 1, exit_x),
        Direction::Bottom => (exit_y + 1, exit_x),
        Direction::Left => (exit_y, exit_x - 1),
        Direction::Right => (exit_y, exit_x + 1),
    }
}

/// Border integrity: every outer-ring cell is a wall except exactly one,
/// the hole next to the exit cell on the recorded border.
pub open spec fn border_integrity(
    grid: Seq<bool>,
    size: int,
    exit_x: int,
    exit_y: int,
    border: Direction,
) -> bool {
    let hole = hole_of(size, border, exit_x, exit_y);
    &&& in_grid(size, hole.0, hole.1)
    &&& on_ring(size, hole.0, hole.1)
    &&& !grid[cell(size, hole.0, hole.1)]
    &&& forall|row: int, col: int|
        in_grid(size, row, col) && on_ring(size, row, col) && (row, col) != hole
            ==> #[trigger] grid[cell(size, row, col)]
}

/// No grid holds more walls than cells.
pub proof fn lemma_count_walls_at_most(grid: Seq<bool>)
    ensures
        count_walls(grid) <= grid.len(),
    decreases grid.len(),
{
    if grid.len() > 0 {
        lemma_count_walls_at_most(grid.drop_last());
    }
}

/// Walling an open cell raises the wall count by one.
pub proof fn lemma_count_walls_close(grid: Seq<bool>, i: int)
    requires
        0 <= i < grid.len(),
        !grid[i],
    ensures
        count_walls(grid.update(i, true)) == count_walls(grid) + 1,
    decreases grid.len(),
{
    let updated = grid.update(i, true);
    if i == grid.len() - 1 {
        assert(updated.drop_last() =~= grid.drop_last());
    } else {
        lemma_count_walls_close(grid.drop_last(), i);
        assert(updated.drop_last() =~= grid.drop_last().update(i, true));
    }
}

/// Opening a wall cell strictly lowers the wall count.
pub proof fn lemma_count_walls_open(grid: Seq<bool>, i: int)
    requires
        0 <= i < grid.len(),
        grid[i],
    ensures
        count_walls(grid.update(i, false)) < count_walls(grid),
    decreases grid.len(),
{
    let updated = grid.update(i, false);
    if i == grid.len() - 1 {
        assert(updated.drop_last() =~= grid.drop_last());
    } else {
        lemma_count_walls_open(grid.drop_last(), i);
        assert(updated.drop_last() =~= grid.drop_last().update(i, false));
    }
}

/// The effective edge length: recursive division needs an odd size, so an
/// even request is raised by one; depth-first search keeps the request.
pub open spec fn effective_size(kind: SelectedGenerator, size: int) -> int {
    match kind {
        SelectedGenerator::RD => if size % 2 == 0 {
            size + 1
        } else {
            size
        },
        SelectedGenerator::DFS => size,
    }
}

/// The sizes a generation run accepts: large enough for the algorithm's
/// margins, and small enough that the grid and the point coordinates fit
/// the machine.
pub open spec fn size_supported(kind: SelectedGenerator, size: int) -> bool {
    match kind {
        SelectedGenerator::DFS => 6 <= size && size * size <= usize::MAX && size <= u32::MAX,
        SelectedGenerator::RD => 2 <= size && (size + 1) * (size + 1) <= usize::MAX && size + 1
            <= u32::MAX,
    }
}

/// Everything one generation run produces, as the seed, starting call
/// history, algorithm and requested size determine it: grid, start point
/// and exit point as `(x, y)`, exit border, and the call history left
/// behind.
pub struct MazeModel {
    pub size: int,
    pub grid: Seq<bool>,
    pub start: (int, int),
    pub exit: (int, int),
    pub border: Direction,
    pub history: Seq<(int, int, int)>,
}

/// The whole generation run as a function of its inputs: the selected
/// algorithm's grid, then start placement, then exit placement with its
/// pierced hole.
pub open spec fn maze_model(
    seed: Seq<char>,
    h0: Seq<(int, int, int)>,
    kind: SelectedGenerator,
    size: int,
) -> MazeModel {
    let n = effective_size(kind, size);
    let carved = match kind {
        SelectedGenerator::RD => rd_model(seed, h0, n),
        SelectedGenerator::DFS => dfs_model(seed, h0, n),
    };
    let g1 = carved.0;
    let h1 = carved.1;
    let sp = start_model_point(seed, h1, g1, n);
    let h2 = start_model_hist(seed, h1, g1, n);
    let choice = exit_model_choice(seed, h2, g1, n);
    let h3 = exit_model_hist(seed, h2, g1, n);
    let probe = exit_probe(n, choice.0, choice.1);
    let hole = exit_hole(n, choice.0, choice.1);
    MazeModel {
        size: n,
        grid: g1.update(cell(n, hole.0, hole.1), false),
        start: sp,
        exit: (probe.1, probe.0),
        border: direction_of_code(choice.0),
        history: h3,
    }
}

/// All data for one maze: the algorithm, effective size, start point,
/// exit point, exit border and grid, plus the seeded random source that
/// drives generation.
pub struct MazeGenerator {
    pub generator: SelectedGenerator,
    pub maze_size: usize,
    pub start_position: PointU32,
    pub end_position: PointU32,
    pub end_border: Direction,
    pub maze_array: Vec<bool>,
    pub random_engine: RandomSource,
}

impl MazeGenerator {
    /// Builds a generator for the chosen algorithm, requested size and
    /// string seed; nothing is generated yet.
    pub fn new(maze_generator: SelectedGenerator, size: usize, seed: String) -> (r: MazeGenerator)
        ensures
            r.generator == maze_generator,
            r.maze_size == size,
            r.start_position == (PointU32(0, 0)),
            r.end_position == (PointU32(0, 0)),
            r.end_border == Direction::Top,
            r.maze_array@ == Seq::<bool>::empty(),
            r.random_engine.seed() == seed@,
            r.random_engine.history() == Seq::<(int, int, int)>::empty(),
    {
        MazeGenerator {
            generator: maze_generator,
            maze_size: size,
            start_position: PointU32(0, 0),
            end_position: PointU32(0, 0),
            end_border: Direction::Top,
            maze_array: Vec::new(),
            random_engine: RandomSource::from_seed(seed.as_str()),
        }
    }

    /// Places the start point: draws interior coordinates until they land
    /// on an open cell, falling back to a row-major scan at the attempt
    /// cap, exactly as the model describes. The start is open and strictly
    /// interior.
    fn set_start_position(&mut self)
        requires
            3 <= old(self).maze_size,
            old(self).maze_size <= u32::MAX,
            old(self).maze_size * old(self).maze_size <= usize::MAX,
            old(self).maze_array@.len() == old(self).maze_size * old(self).maze_size,
            border_all_wall(old(self).maze_array@, old(self).maze_size as int),
            has_open_interior(old(self).maze_array@, old(self).maze_size as int),
        ensures
            final(self).generator == old(self).generator,
            final(self).maze_size == old(self).maze_size,
            final(self).end_position == old(self).end_position,
            final(self).end_border == old(self).end_border,
            final(self).maze_array@ == old(self).maze_array@,
            final(self).random_engine.seed() == old(self).random_engine.seed(),
            ({
                let seed = old(self).random_engine.seed();
                let h0 = old(self).random_engine.history();
                let grid = old(self).maze_array@;
                let size = old(self).maze_size as int;
                let p = start_model_point(seed, h0, grid, size);
                &&& final(self).start_position == (PointU32(p.0 as u32, p.1 as u32))
                &&& final(self).random_engine.history() == start_model_hist(seed, h0, grid, size)
                &&& 1 <= p.0 <= size - 2
                &&& 1 <= p.1 <= size - 2
                &&& !grid[cell(size, p.1, p.0)]
            }),
    {
        let size = self.maze_size;
        let ghost size_i = size as int;
        let ghost seed = self.random_engine.seed();
        let ghost h0 = self.random_engine.history();
        let ghost grid = self.maze_array@;

        let mut x = self.random_engine.draw_in_range(1, size - 1);
        let mut y = self.random_engine.draw_in_range(1, size - 1);
        let mut attempts: usize = 1;
        proof {
            assert(start_hist(h0, size_i, 0) == h0);
            assert(self.random_engine.history() == start_hist(h0, size_i, 1));
            lemma_cell_bounds(size_i, y as int, x as int);
        }
        let mut blocked = self.maze_array[y * size + x];

        while blocked && attempts < usize::MAX
            invariant
                3 <= size,
                size_i == size as int,
                size * size <= usize::MAX,
                self.maze_size == size,
                self.maze_array@ == grid,
                grid.len() == size * size,
                self.generator == old(self).generator,
                self.start_position == old(self).start_position,
                self.end_position == old(self).end_position,
                self.end_border == old(self).end_border,
                self.random_engine.seed() == seed,
                1 <= x <= size - 1,
                1 <= y <= size - 1,
                1 <= attempts,
                x as int == start_try_x(seed, h0, size_i, attempts - 1),
                y as int == start_try_y(seed, h0, size_i, attempts - 1),
                self.random_engine.history() == start_hist(h0, size_i, attempts as int),
                forall|j: int| 0 <= j < attempts - 1 ==> !start_try_hits(seed, h0, grid, size_i, j),
                blocked == grid[cell(size_i, y as int, x as int)],
            decreases usize::MAX - attempts,
        {
            x = self.random_engine.draw_in_range(1, size - 1);
            y = self.random_engine.draw_in_range(1, size - 1);
            attempts = attempts + 1;
            proof {
                assert(self.random_engine.history() == start_hist(h0, size_i, attempts as int));
                lemma_cell_bounds(size_i, y as int, x as int);
            }
            blocked = self.maze_array[y * size + x];
        }

        if !blocked {
            // The current draw hit an open cell: it is the first to do so
            proof {
                let won: int = attempts - 1;
                assert(is_first_start_hit(seed, h0, grid, size_i, won));
                lemma_first_start_hit_unique(
                    seed,
                    h0,
                    grid,
                    size_i,
                    won,
                    start_winner(seed, h0, grid, size_i),
                );
                if x as int == size_i - 1 {
                    assert(grid[cell(size_i, y as int, x as int)]);
                }
                if y as int == size_i - 1 {
                    assert(grid[cell(size_i, y as int, x as int)]);
                }
            }
            self.start_position = PointU32(x as u32, y as u32);
        } else {
            // The cap ran out: place the start on the first open interior
            // cell instead
            proof {
                assert(!start_try_hits(seed, h0, grid, size_i, attempts - 1));
                assert(!start_sampling_hits(seed, h0, grid, size_i)) by {
                    if start_sampling_hits(seed, h0, grid, size_i) {
                        let k = choose|k: int| is_first_start_hit(seed, h0, grid, size_i, k);
                        assert(!start_try_hits(seed, h0, grid, size_i, k));
                    }
                }
            }
            let p = scan_open_interior(&self.maze_array, size);
            self.start_position = PointU32(p.1 as u32, p.0 as u32);
        }
    }

    /// The cell one step inward from the border at position `i` is open;
    /// every maze has a wall ring around it, and a hole may only be cut
    /// where the cell inside is reachable.
    fn probe_is_open(maze_array: &Vec<bool>, size: usize, border: usize, i: usize) -> (b: bool)
        requires
            3 <= size,
            size * size <= usize::MAX,
            maze_array@.len() == size * size,
            border <= 3,
            1 <= i <= size - 1,
        ensures
            b == exit_candidate_open(maze_array@, size as int, border as int, i as int),
    {
        let ghost size_i = size as int;
        if border == 0 {
            proof {
                lemma_cell_bounds(size_i, 1, i as int);
            }
            !maze_array[1 * size + i]
        } else if border == 1 {
            proof {
                lemma_cell_bounds(size_i, size_i - 2, i as int);
            }
            !maze_array[(size - 2) * size + i]
        } else if border == 2 {
            proof {
                lemma_cell_bounds(size_i, i as int, 1);
            }
            !maze_array[i * size + 1]
        } else {
            proof {
                lemma_cell_bounds(size_i, i as int, size_i - 2);
            }
            !maze_array[i * size + (size - 2)]
        }
    }

    /// Finds the first usable exit candidate in scan order: all four
    /// borders in code order, positions ascending. Returns whether one
    /// exists, and which.
    fn scan_exit_candidate(maze_array: &Vec<bool>, size: usize) -> (r: (bool, usize, usize))
        requires
            3 <= size,
            size * size <= usize::MAX,
            maze_array@.len() == size * size,
        ensures
            r.0 == exit_scan_found(maze_array@, size as int),
            r.0 ==> (r.1 as int, r.2 as int) == first_exit_candidate(maze_array@, size as int),
            r.0 ==> is_exit_candidate(maze_array@, size as int, r.1 as int, r.2 as int),
            r.0 ==> r.1 <= 3 && 1 <= r.2 <= size - 2,
    {
        let ghost size_i = size as int;
        let mut border: usize = 0;
        while border <= 3
            invariant
                3 <= size,
                size_i == size as int,
                size * size <= usize::MAX,
                maze_array@.len() == size * size,
                border <= 4,
                forall|b: int, i: int|
                    b < border ==> !is_exit_candidate(maze_array@, size_i, b, i),
            decreases 4 - border,
        {
            let mut i: usize = 1;
            while i <= size - 2
                invariant
                    3 <= size,
                    size_i == size as int,
                    size * size <= usize::MAX,
                    maze_array@.len() == size * size,
                    border <= 3,
                    1 <= i <= size - 1,
                    forall|b: int, j: int|
                        b < border ==> !is_exit_candidate(maze_array@, size_i, b, j),
                    forall|j: int|
                        j < i ==> !is_exit_candidate(maze_array@, size_i, border as int, j),
                decreases size - i,
            {
                if Self::probe_is_open(maze_array, size, border, i) {
                    proof {
                        assert(is_first_exit_candidate(
                            maze_array@,
                            size_i,
                            (border as int, i as int),
                        ));
                        lemma_first_exit_candidate_unique(
                            maze_array@,
                            size_i,
                            (border as int, i as int),
                            first_exit_candidate(maze_array@, size_i),
                        );
                    }
                    return (true, border, i);
                }
                i = i + 1;
            }
            border = border + 1;
        }
        proof {
            assert(!exit_scan_found(maze_array@, size_i)) by {
                if exit_scan_found(maze_array@, size_i) {
                    let (b, j) = choose|b: int, j: int|
                        is_exit_candidate(maze_array@, size_i, b, j);
                    assert(!is_exit_candidate(maze_array@, size_i, b, j));
                }
            }
        }
        (false, 0, 1)
    }

    /// Pierces the exit: draws a border position and a border until the
    /// cell one step inward is open, falling back to a scan of all borders
    /// at the attempt cap, and to the top border at position one if even
    /// the scan finds nothing, exactly as the model describes. Exactly one
    /// outer-ring cell becomes open: the hole next to the recorded exit
    /// cell on the recorded border.
    fn set_exit(&mut self)
        requires
            3 <= old(self).maze_size,
            old(self).maze_size <= u32::MAX,
            old(self).maze_size * old(self).maze_size <= usize::MAX,
            old(self).maze_array@.len() == old(self).maze_size * old(self).maze_size,
            border_all_wall(old(self).maze_array@, old(self).maze_size as int),
        ensures
            final(self).generator == old(self).generator,
            final(self).maze_size == old(self).maze_size,
            final(self).start_position == old(self).start_position,
            final(self).random_engine.seed() == old(self).random_engine.seed(),
            ({
                let seed = old(self).random_engine.seed();
                let h0 = old(self).random_engine.history();
                let grid = old(self).maze_array@;
                let size = old(self).maze_size as int;
                let choice = exit_model_choice(seed, h0, grid, size);
                let probe = exit_probe(size, choice.0, choice.1);
                let hole = exit_hole(size, choice.0, choice.1);
                &&& 0 <= choice.0 <= 3
                &&& 1 <= choice.1 <= size - 2
                &&& final(self).end_position == (PointU32(probe.1 as u32, probe.0 as u32))
                &&& final(self).end_border == direction_of_code(choice.0)
                &&& final(self).maze_array@ == grid.update(cell(size, hole.0, hole.1), false)
                &&& final(self).random_engine.history() == exit_model_hist(seed, h0, grid, size)
                &&& (!final(self).maze_array@[cell(size, probe.0, probe.1)] <==> exit_scan_found(
                    grid,
                    size,
                ))
                &&& border_integrity(
                    final(self).maze_array@,
                    size,
                    probe.1,
                    probe.0,
                    direction_of_code(choice.0),
                )
            }),
    {
        let size = self.maze_size;
        let ghost size_i = size as int;
        let ghost seed = self.random_engine.seed();
        let ghost h0 = self.random_engine.history();
        let ghost grid = self.maze_array@;

        // Get a random position and border, then check whether the hole
        // can be used as an exit
        let mut exit_index = self.random_engine.draw_in_range(1, size - 1);
        let mut border_code = self.random_engine.draw_in_range(0, 3);
        let mut attempts: usize = 1;
        proof {
            assert(exit_hist(h0, size_i, 0) == h0);
            assert(self.random_engine.history() == exit_hist(h0, size_i, 1));
        }
        let mut usable = Self::probe_is_open(&self.maze_array, size, border_code, exit_index);

        while !usable && attempts < usize::MAX
            invariant
                3 <= size,
                size_i == size as int,
                size * size <= usize::MAX,
                self.maze_size == size,
                self.maze_array@ == grid,
                grid.len() == size * size,
                self.generator == old(self).generator,
                self.start_position == old(self).start_position,
                self.end_position == old(self).end_position,
                self.end_border == old(self).end_border,
                self.random_engine.seed() == seed,
                1 <= exit_index <= size - 1,
                border_code <= 3,
                1 <= attempts,
                exit_index as int == exit_try_index(seed, h0, size_i, attempts - 1),
                border_code as int == exit_try_border(seed, h0, size_i, attempts - 1),
                self.random_engine.history() == exit_hist(h0, size_i, attempts as int),
                forall|j: int| 0 <= j < attempts - 1 ==> !exit_try_hits(seed, h0, grid, size_i, j),
                usable == exit_candidate_open(grid, size_i, border_code as int, exit_index as int),
            decreases usize::MAX - attempts,
        {
            exit_index = self.random_engine.draw_in_range(1, size - 1);
            border_code = self.random_engine.draw_in_range(0, 3);
            attempts = attempts + 1;
            proof {
                assert(self.random_engine.history() == exit_hist(h0, size_i, attempts as int));
            }
            usable = Self::probe_is_open(&self.maze_array, size, border_code, exit_index);
        }

        let chosen_border: usize;
        let chosen_index: usize;
        if usable {
            // The current draw found a usable hole: it is the first to do so
            proof {
                let won: int = attempts - 1;
                assert(is_first_exit_hit(seed, h0, grid, size_i, won));
                lemma_first_exit_hit_unique(
                    seed,
                    h0,
                    grid,
                    size_i,
                    won,
                    exit_winner(seed, h0, grid, size_i),
                );
                lemma_exit_hit_is_candidate(
                    grid,
                    size_i,
                    border_code as int,
                    exit_index as int,
                );
            }
            chosen_border = border_code;
            chosen_index = exit_index;
        } else {
            // The cap ran out: take the first usable hole in scan order,
            // or the top border at position one when no cell next to any
            // border is open
            proof {
                assert(!exit_try_hits(seed, h0, grid, size_i, attempts - 1));
                assert(!exit_sampling_hits(seed, h0, grid, size_i)) by {
                    if exit_sampling_hits(seed, h0, grid, size_i) {
                        let k = choose|k: int| is_first_exit_hit(seed, h0, grid, size_i, k);
                        assert(!exit_try_hits(seed, h0, grid, size_i, k));
                    }
                }
            }
            let scan = Self::scan_exit_candidate(&self.maze_array, size);
            if scan.0 {
                chosen_border = scan.1;
                chosen_index = scan.2;
            } else {
                proof {
                    assert(exit_candidate_open(grid, size_i, 0, 1) ==> is_exit_candidate(
                        grid,
                        size_i,
                        0,
                        1,
                    ));
                }
                chosen_border = 0;
                chosen_index = 1;
            }
        }
        proof {
            assert((chosen_border as int, chosen_index as int) == exit_model_choice(
                seed,
                h0,
                grid,
                size_i,
            ));
        }

        // Record the exit cell and border, and cut the hole
        let exit_wall = direction_from_code(chosen_border as u8);
        match exit_wall {
            Direction::Top => {
                self.end_position = PointU32(chosen_index as u32, 1);
                self.end_border = exit_wall;
                proof {
                    lemma_cell_bounds(size_i, 0, chosen_index as int);
                }
                self.maze_array.set(0 * size + chosen_index, false);
            },
            Direction::Bottom => {
                self.end_position = PointU32(chosen_index as u32, (size - 2) as u32);
                self.end_border = exit_wall;
                proof {
                    lemma_cell_bounds(size_i, size_i - 1, chosen_index as int);
                }
                self.maze_array.set((size - 1) * size + chosen_index, false);
            },
            Direction::Left => {
                self.end_position = PointU32(1, chosen_index as u32);
                self.end_border = exit_wall;
                proof {
                    lemma_cell_bounds(size_i, chosen_index as int, 0);
                }
                self.maze_array.set(chosen_index * size + 0, false);
            },
            Direction::Right => {
                self.end_position = PointU32((size - 2) as u32, chosen_index as u32);
                self.end_border = exit_wall;
                proof {
                    lemma_cell_bounds(size_i, chosen_index as int, size_i - 1);
                }
                self.maze_array.set(chosen_index * size + (size - 1), false);
            },
        }

        proof {
            let border: int = chosen_border as int;
            let i: int = chosen_index as int;
            let probe = exit_probe(size_i, border, i);
            let hole = exit_hole(size_i, border, i);
            lemma_cell_bounds(size_i, hole.0, hole.1);
            lemma_cell_bounds(size_i, probe.0, probe.1);
            assert(self.maze_array@ == grid.update(cell(size_i, hole.0, hole.1), false));
            if cell(size_i, probe.0, probe.1) == cell(size_i, hole.0, hole.1) {
                lemma_cell_injective(size_i, probe.0, probe.1, hole.0, hole.1);
            }
            assert(self.maze_array@[cell(size_i, probe.0, probe.1)] == grid[cell(
                size_i,
                probe.0,
                probe.1,
            )]);
            if !grid[cell(size_i, probe.0, probe.1)] {
                assert(is_exit_candidate(grid, size_i, border, i));
            }
            assert forall|row: int, col: int|
                in_grid(size_i, row, col) && on_ring(size_i, row, col) && (row, col) != hole
                    implies #[trigger] self.maze_array@[cell(size_i, row, col)] by {
                lemma_cell_bounds(size_i, row, col);
                if cell(size_i, row, col) == cell(size_i, hole.0, hole.1) {
                    lemma_cell_injective(size_i, row, col, hole.0, hole.1);
                }
                assert(grid[cell(size_i, row, col)]);
            }
        }
    }

    /// This generator holds exactly the maze that the model assigns to
    /// the given seed, starting call history, algorithm and requested
    /// size.
    pub open spec fn models(
        self,
        seed: Seq<char>,
        h0: Seq<(int, int, int)>,
        kind: SelectedGenerator,
        size: int,
    ) -> bool {
        let m = maze_model(seed, h0, kind, size);
        &&& self.maze_size == m.size
        &&& self.maze_array@ == m.grid
        &&& self.start_position == (PointU32(m.start.0 as u32, m.start.1 as u32))
        &&& self.end_position == (PointU32(m.exit.0 as u32, m.exit.1 as u32))
        &&& self.end_border == m.border
        &&& self.random_engine.seed() == seed
        &&& self.random_engine.history() == m.history
    }

    /// Generates the maze with the selected algorithm, then places the
    /// start, then pierces the exit, in that order. The outcome is the
    /// one the model assigns to the seed and configuration, so equal
    /// algorithm, size and seed always give the identical maze, start and
    /// exit. An even size is raised by one for recursive division. The
    /// start cell is open and strictly interior, and the outer ring holds
    /// exactly one hole, next to the recorded exit cell on the recorded
    /// border. A depth-first maze stays a perfect maze after the hole is
    /// cut: its open cells form a spanning tree rooted at the carver's
    /// seed cell.
    pub fn generate_maze(&mut self)
        requires
            size_supported(old(self).generator, old(self).maze_size as int),
        ensures
            final(self).generator == old(self).generator,
            final(self).models(
                old(self).random_engine.seed(),
                old(self).random_engine.history(),
                old(self).generator,
                old(self).maze_size as int,
            ),
            final(self).maze_size as int == effective_size(
                old(self).generator,
                old(self).maze_size as int,
            ),
            1 <= final(self).start_position.0 as int <= final(self).maze_size - 2,
            1 <= final(self).start_position.1 as int <= final(self).maze_size - 2,
            !final(self).maze_array@[cell(
                final(self).maze_size as int,
                final(self).start_position.1 as int,
                final(self).start_position.0 as int,
            )],
            border_integrity(
                final(self).maze_array@,
                final(self).maze_size as int,
                final(self).end_position.0 as int,
                final(self).end_position.1 as int,
                final(self).end_border,
            ),
            old(self).generator == SelectedGenerator::RD ==> !final(self).maze_array@[cell(
                final(self).maze_size as int,
                final(self).end_position.1 as int,
                final(self).end_position.0 as int,
            )],
            ({
                let n = final(self).maze_size as int;
                let root = dfs_seed_cell(
                    old(self).random_engine.seed(),
                    old(self).random_engine.history(),
                    n,
                );
                old(self).generator == SelectedGenerator::DFS && !final(self).maze_array@[cell(
                    n,
                    final(self).end_position.1 as int,
                    final(self).end_position.0 as int,
                )] ==> open_edges(final(self).maze_array@, n) == count_open(final(self).maze_array@)
                    - 1 && (forall|r: int, c: int|
                    in_grid(n, r, c) && !final(self).maze_array@[#[trigger] cell(n, r, c)]
                        ==> reachable(final(self).maze_array@, n, root.0, root.1, r, c))
            }),
    {
        let ghost seed = self.random_engine.seed();
        let ghost h0 = self.random_engine.history();
        let ghost kind = self.generator;
        let ghost size0 = self.maze_size as int;

        match self.generator {
            SelectedGenerator::RD => {
                // RD needs an odd size
                if self.maze_size % 2 == 0 {
                    proof {
                        assert(size0 + 1 <= (size0 + 1) * (size0 + 1)) by (nonlinear_arith)
                            requires
                                1 <= size0,
                        ;
                    }
                    self.maze_size = self.maze_size + 1;
                }
                proof {
                    assert(size0 * size0 <= (size0 + 1) * (size0 + 1)) by (nonlinear_arith)
                        requires
                            0 <= size0,
                    ;
                }
                let mut generator_rd = GeneratorRD::new(self.maze_size);
                self.maze_array = generator_rd.generate(&mut self.random_engine);
            },
            _ => {
                let mut generator_dfs = GeneratorDFS::new(self.maze_size);
                self.maze_array = generator_dfs.generate(&mut self.random_engine);
            },
        }
        proof {
            assert(self.maze_size as int == effective_size(kind, size0));
        }

        self.set_start_position();
        let ghost start_point = self.start_position;
        let ghost g1 = self.maze_array@;
        let ghost h2 = self.random_engine.history();

        self.set_exit();

        proof {
            let n = self.maze_size as int;
            let choice = exit_model_choice(seed, h2, g1, n);
            let hole = exit_hole(n, choice.0, choice.1);
            let probe = exit_probe(n, choice.0, choice.1);
            lemma_cell_bounds(n, hole.0, hole.1);
            lemma_cell_bounds(n, probe.0, probe.1);
            lemma_cell_bounds(n, start_point.1 as int, start_point.0 as int);
            if kind == SelectedGenerator::RD {
                // The chamber cell next to the top border is always open,
                // so the exit scan can never come up empty
                lemma_cell_bounds(n, 1, 1);
                assert(!g1[cell(n, 1, 1)]);
                assert(is_exit_candidate(g1, n, 0, 1));
                assert(exit_scan_found(g1, n));
            }
            if kind == SelectedGenerator::DFS && !self.maze_array@[cell(n, probe.0, probe.1)] {
                // The pierced hole keeps the open cells a tree: it has the
                // exit cell as its only open neighbour, so it adds one
                // open cell and one open edge
                assert(g1[cell(n, hole.0, hole.1)]);
                if cell(n, probe.0, probe.1) == cell(n, hole.0, hole.1) {
                    lemma_cell_injective(n, probe.0, probe.1, hole.0, hole.1);
                }
                assert(!g1[cell(n, probe.0, probe.1)]);
                lemma_count_open_open(g1, cell(n, hole.0, hole.1));
                lemma_edges_open(g1, n, cell(n, hole.0, hole.1));
                lemma_cell_row_step(n, hole.0, hole.1);
                if choice.0 == 0 {
                    assert(g1[cell(n, 0, hole.1 - 1)]);
                    assert(g1[cell(n, 0, hole.1 + 1)]);
                    assert(open_neighbor_pairs(g1, n, cell(n, hole.0, hole.1)) == 1);
                } else if choice.0 == 1 {
                    assert(g1[cell(n, n - 1, hole.1 - 1)]);
                    assert(g1[cell(n, n - 1, hole.1 + 1)]);
                    assert(open_neighbor_pairs(g1, n, cell(n, hole.0, hole.1)) == 1);
                } else if choice.0 == 2 {
                    assert(g1[cell(n, hole.0 - 1, 0)]);
                    assert(g1[cell(n, hole.0 + 1, 0)]);
                    assert(open_neighbor_pairs(g1, n, cell(n, hole.0, hole.1)) == 1);
                } else {
                    assert(g1[cell(n, hole.0 - 1, n - 1)]);
                    assert(g1[cell(n, hole.0 + 1, n - 1)]);
                    assert(open_neighbor_pairs(g1, n, cell(n, hole.0, hole.1)) == 1);
                }
                let root = dfs_seed_cell(seed, h0, n);
                assert forall|r: int, c: int|
                    in_grid(n, r, c) && !self.maze_array@[#[trigger] cell(n, r, c)]
                        implies reachable(self.maze_array@, n, root.0, root.1, r, c) by {
                    lemma_cell_bounds(n, r, c);
                    if cell(n, r, c) == cell(n, hole.0, hole.1) {
                        lemma_cell_injective(n, r, c, hole.0, hole.1);
                        lemma_reachable_keeps_open(
                            g1,
                            n,
                            cell(n, hole.0, hole.1),
                            root.0,
                            root.1,
                            probe.0,
                            probe.1,
                        );
                        lemma_reachable_step(
                            self.maze_array@,
                            n,
                            root.0,
                            root.1,
                            probe.0,
                            probe.1,
                            hole.0,
                            hole.1,
                        );
                    } else {
                        assert(!g1[cell(n, r, c)]);
                        lemma_reachable_keeps_open(
                            g1,
                            n,
                            cell(n, hole.0, hole.1),
                            root.0,
                            root.1,
                            r,
                            c,
                        );
                    }
                }
            }
        }
    }

    /// The start point, column then row.
    pub fn get_start_position(&self) -> (p: PointU32)
        ensures
            p == self.start_position,
    {
        self.start_position
    }

    /// The exit cell, column then row: the open interior cell next to the
    /// pierced hole in the border.
    pub fn get_exit(&self) -> (p: PointU32)
        ensures
            p == self.end_position,
    {
        self.end_position
    }

    /// Which outer border the exit was cut through.
    pub fn get_end_border(&self) -> (d: Direction)
        ensures
            d == self.end_border,
    {
        self.end_border
    }

    /// The grid, row-major; `true` is a wall.
    pub fn get_maze_array(&self) -> (a: &Vec<bool>)
        ensures
            a@ == self.maze_array@,
    {
        &self.maze_array
    }

    /// The effective edge length, after the odd adjustment for RD.
    pub fn get_maze_size(&self) -> (s: usize)
        ensures
            s == self.maze_size,
    {
        self.maze_size
    }
}

/// Determinism: two generators built with the same algorithm, requested
/// size and seed that have each generated their maze hold the identical
/// grid, size, start point, exit point and exit border, because each one
/// equals what the model assigns to those inputs.
pub proof fn lemma_generate_deterministic(
    a: MazeGenerator,
    b: MazeGenerator,
    seed: Seq<char>,
    h0: Seq<(int, int, int)>,
    kind: SelectedGenerator,
    size: int,
)
    requires
        a.models(seed, h0, kind, size),
        b.models(seed, h0, kind, size),
    ensures
        a.maze_array@ == b.maze_array@,
        a.maze_size == b.maze_size,
        a.start_position == b.start_position,
        a.end_position == b.end_position,
        a.end_border == b.end_border,
{
}

} // verus!
