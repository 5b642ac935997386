//! Maze generator that uses the depth-first search algorithm.
//!
//! The grid starts fully walled. A random interior cell is opened, and from
//! one of its neighbours a randomized backtracking run carves passages: a
//! candidate cell is opened only when it lies in the interior, is still a
//! wall, and touches at most one already open cell — the rule that keeps
//! the carved region free of cycles. The pending candidates live in an
//! explicit worklist rather than on the call stack, so large grids cannot
//! exhaust it.
//!
//! The carver addresses the grid as `cell(size, x, y)`, its first
//! coordinate running along the flat index's major axis; the grid is
//! square and the carving symmetric, so the orchestrator reads the result
//! row-major without further ado.

use vstd::pervasive::VecAdditionalExecFns;
use vstd::prelude::*;

use crate::maze_generator::border_all_wall;
use crate::maze_generator::cell;
use crate::maze_generator::count_open;
use crate::maze_generator::count_walls;
use crate::maze_generator::has_open_interior;
use crate::maze_generator::in_grid;
use crate::maze_generator::is_open_interior;
use crate::maze_generator::lemma_all_walls_counts;
use crate::maze_generator::lemma_cell_bounds;
use crate::maze_generator::lemma_cell_injective;
use crate::maze_generator::lemma_cell_row_step;
use crate::maze_generator::lemma_count_open_open;
use crate::maze_generator::lemma_count_walls_open;
use crate::maze_generator::lemma_edges_open;
use crate::maze_generator::open_edges;
use crate::maze_generator::open_neighbor_pairs;
use crate::maze_generator::filled;
use crate::maze_generator::on_ring;
use crate::maze_generator::flood_fill::lemma_reachable_keeps_open;
use crate::maze_generator::flood_fill::lemma_reachable_self;
use crate::maze_generator::flood_fill::lemma_reachable_step;
use crate::maze_generator::flood_fill::reachable;
use crate::maze_generator::random_source::bounded_draw;
use crate::maze_generator::random_source::range_draw;
use crate::maze_generator::random_source::range_event;
use crate::maze_generator::random_source::shuffle_draw;
use crate::maze_generator::random_source::shuffle_event;
use crate::maze_generator::random_source::RandomSource;

verus! {

/// Carver state: the edge length of the maze to produce.
pub struct GeneratorDFS {
    pub maze_size: usize,
}

/// The cell one step away from `(x, y)`, one neighbour per direction
/// code in `0..=3`.
pub open spec fn step_cell(x: int, y: int, code: int) -> (int, int) {
    if code == 0 {
        (x, y - 1)
    } else if code == 1 {
        (x, y + 1)
    } else if code == 2 {
        (x - 1, y)
    } else {
        (x + 1, y)
    }
}

/// How many of the four neighbours of `(x, y)` are already open.
pub open spec fn open_neighbors(grid: Seq<bool>, size: int, x: int, y: int) -> int {
    (if !grid[cell(size, x - 1, y)] {
        1int
    } else {
        0int
    }) + (if !grid[cell(size, x + 1, y)] {
        1int
    } else {
        0int
    }) + (if !grid[cell(size, x, y - 1)] {
        1int
    } else {
        0int
    }) + (if !grid[cell(size, x, y + 1)] {
        1int
    } else {
        0int
    })
}

/// A popped candidate is carved exactly when the grid is well-formed, the
/// candidate lies in the carvable interior, is still a wall, and touches at
/// most one open neighbour.
pub open spec fn carve_taken(grid: Seq<bool>, size: int, x: int, y: int) -> bool {
    &&& 3 <= size
    &&& grid.len() == size * size
    &&& 1 <= x <= size - 2
    &&& 1 <= y <= size - 2
    &&& grid[cell(size, x, y)]
    &&& open_neighbors(grid, size, x, y) <= 1
}

/// A worklist candidate in the carvable interior always touches at least
/// one open cell: it was queued as the neighbour of a just-carved cell,
/// and open cells stay open.
pub open spec fn candidate_touches_open(grid: Seq<bool>, size: int, x: int, y: int) -> bool {
    1 <= x <= size - 2 && 1 <= y <= size - 2 ==> open_neighbors(grid, size, x, y) >= 1
}

/// The four direction codes in their order before shuffling.
pub open spec fn all_direction_codes() -> Seq<u8> {
    seq![0u8, 1u8, 2u8, 3u8]
}

/// What remains of a carve run: `pending` holds the candidate cells still
/// to visit, top at the end. When a candidate is carved, the four
/// directions are drawn in a shuffled order and its neighbours join the
/// worklist, the first drawn direction on top. Returns the grid and the
/// call history once the worklist is exhausted.
pub open spec fn dfs_run(
    seed: Seq<char>,
    size: int,
    grid: Seq<bool>,
    history: Seq<(int, int, int)>,
    pending: Seq<(int, int)>,
) -> (Seq<bool>, Seq<(int, int, int)>)
    decreases count_walls(grid), pending.len(),
{
    if pending.len() == 0 {
        (grid, history)
    } else {
        let x = pending.last().0;
        let y = pending.last().1;
        let rest = pending.drop_last();
        if carve_taken(grid, size, x, y) {
            let opened = grid.update(cell(size, x, y), false);
            let codes = shuffle_draw(seed, history, all_direction_codes());
            let recorded = history.push(shuffle_event(4));
            let children = Seq::new(
                codes.len(),
                |i: int| step_cell(x, y, codes[codes.len() - 1 - i] as int),
            );
            proof {
                lemma_cell_bounds(size, x, y);
                lemma_count_walls_open(grid, cell(size, x, y));
            }
            dfs_run(seed, size, opened, recorded, rest + children)
        } else {
            dfs_run(seed, size, grid, history, rest)
        }
    }
}

/// The grid the carver produces for a seed and a starting call history:
/// draws for the seed cell's coordinates and first direction, then the
/// carve run from that first candidate.
pub open spec fn dfs_model(seed: Seq<char>, h0: Seq<(int, int, int)>, size: int) -> (
    Seq<bool>,
    Seq<(int, int, int)>,
) {
    let walls = Seq::new((size * size) as nat, |i: int| true);
    let x = range_draw(seed, h0, 3, size - 3);
    let h1 = h0.push(range_event(3, size - 3));
    let y = range_draw(seed, h1, 3, size - 3);
    let h2 = h1.push(range_event(3, size - 3));
    let code = range_draw(seed, h2, 0, 3);
    let h3 = h2.push(range_event(0, 3));
    let seeded = walls.update(cell(size, x, y), false);
    dfs_run(seed, size, seeded, h3, seq![step_cell(x, y, code)])
}

/// The interior cell where the carve run begins, for a seed and starting
/// call history: the first two bounded draws, as `(x, y)`.
pub open spec fn dfs_seed_cell(seed: Seq<char>, h0: Seq<(int, int, int)>, size: int) -> (
    int,
    int,
) {
    (
        bounded_draw(seed, h0, 3, size - 3),
        bounded_draw(seed, h0.push(range_event(3, size - 3)), 3, size - 3),
    )
}

/// The worklist seen as ghost coordinates.
pub open spec fn pending_view(pending: Seq<(usize, usize)>) -> Seq<(int, int)> {
    Seq::new(pending.len(), |i: int| (pending[i].0 as int, pending[i].1 as int))
}

/// The cell one step away from `(x, y)`, as `step_cell` gives it.
fn step_from(x: usize, y: usize, code: u8, size: usize) -> (p: (usize, usize))
    requires
        3 <= size,
        1 <= x <= size - 2,
        1 <= y <= size - 2,
    ensures
        (p.0 as int, p.1 as int) == step_cell(x as int, y as int, code as int),
        p.0 <= size - 1,
        p.1 <= size - 1,
{
    if code == 0 {
        (x, y - 1)
    } else if code == 1 {
        (x, y + 1)
    } else if code == 2 {
        (x - 1, y)
    } else {
        (x + 1, y)
    }
}

impl GeneratorDFS {
    /// Remembers the edge length to carve.
    pub fn new(maze_size: usize) -> (r: GeneratorDFS)
        ensures
            r.maze_size == maze_size,
    {
        GeneratorDFS { maze_size }
    }

    /// Carves a fresh maze. The result is exactly what the seeded model
    /// assigns to the source's seed and call history — equal seeds give
    /// equal mazes. Its outer ring is entirely wall, and the open cells
    /// form a perfect maze: every open cell is reachable from the seed
    /// cell, and there is one open edge fewer than there are open cells,
    /// so the open graph is a spanning tree without cycles.
    pub fn generate(&mut self, rng: &mut RandomSource) -> (maze: Vec<bool>)
        requires
            6 <= old(self).maze_size,
            old(self).maze_size * old(self).maze_size <= usize::MAX,
        ensures
            *final(self) == *old(self),
            final(rng).seed() == old(rng).seed(),
            (maze@, final(rng).history()) == dfs_model(
                old(rng).seed(),
                old(rng).history(),
                old(self).maze_size as int,
            ),
            maze@.len() == old(self).maze_size * old(self).maze_size,
            border_all_wall(maze@, old(self).maze_size as int),
            has_open_interior(maze@, old(self).maze_size as int),
            open_edges(maze@, old(self).maze_size as int) == count_open(maze@) - 1,
            forall|r: int, c: int|
                in_grid(old(self).maze_size as int, r, c) && !maze@[#[trigger] cell(
                    old(self).maze_size as int,
                    r,
                    c,
                )] ==> reachable(
                    maze@,
                    old(self).maze_size as int,
                    dfs_seed_cell(
                        old(rng).seed(),
                        old(rng).history(),
                        old(self).maze_size as int,
                    ).0,
                    dfs_seed_cell(
                        old(rng).seed(),
                        old(rng).history(),
                        old(self).maze_size as int,
                    ).1,
                    r,
                    c,
                ),
    {
        let size = self.maze_size;
        let ghost seed = rng.seed();
        let ghost h0 = rng.history();
        let ghost size_i = size as int;

        // Init array (completely filled)
        let mut maze_array = filled(size * size, true);
        let ghost walls0 = maze_array@;

        // Rand starting point and direction
        let x = rng.draw_in_range(3, size - 3);
        let y = rng.draw_in_range(3, size - 3);
        let code = rng.draw_in_range(0, 3);

        // Mark the starting point as empty (visited)
        proof {
            lemma_cell_bounds(size_i, x as int, y as int);
        }
        maze_array.set(x * size + y, false);

        // Visit the first candidate in the selected direction, then keep
        // carving while candidates are pending
        let mut pending: Vec<(usize, usize)> = Vec::new();
        let first = step_from(x, y, code as u8, size);
        pending.push(first);

        let ghost target = dfs_run(
            seed,
            size_i,
            maze_array@,
            rng.history(),
            pending_view(pending@),
        );
        proof {
            assert(walls0 =~= Seq::new((size_i * size_i) as nat, |i: int| true));
            assert(pending_view(pending@) =~= seq![
                step_cell(x as int, y as int, code as int),
            ]);
            assert(target == dfs_model(seed, h0, size_i));
            lemma_all_walls_counts(walls0, size_i, walls0.len() as int);
            lemma_count_open_open(walls0, cell(size_i, x as int, y as int));
            lemma_edges_open(walls0, size_i, cell(size_i, x as int, y as int));
            lemma_cell_bounds(size_i, x as int - 1, y as int);
            lemma_cell_bounds(size_i, x as int + 1, y as int);
            lemma_cell_bounds(size_i, x as int, y as int - 1);
            lemma_cell_bounds(size_i, x as int, y as int + 1);
            lemma_cell_row_step(size_i, x as int, y as int);
            assert(open_neighbor_pairs(walls0, size_i, cell(size_i, x as int, y as int)) == 0);
            assert(count_open(maze_array@) == 1);
            assert(open_edges(maze_array@, size_i) == 0);
            assert((x as int, y as int) == dfs_seed_cell(seed, h0, size_i));
            assert forall|r: int, c: int|
                in_grid(size_i, r, c) && !maze_array@[#[trigger] cell(size_i, r, c)]
                    implies reachable(maze_array@, size_i, x as int, y as int, r, c) by {
                lemma_cell_bounds(size_i, r, c);
                if cell(size_i, r, c) == cell(size_i, x as int, y as int) {
                    lemma_cell_injective(size_i, r, c, x as int, y as int);
                    lemma_reachable_self(maze_array@, size_i, x as int, y as int);
                }
            }
            assert forall|t: int|
                0 <= t < pending@.len() implies candidate_touches_open(
                maze_array@,
                size_i,
                (#[trigger] pending@[t]).0 as int,
                pending@[t].1 as int,
            ) by {
                assert((pending@[t].0 as int, pending@[t].1 as int) == step_cell(
                    x as int,
                    y as int,
                    code as int,
                ));
                assert(!maze_array@[cell(size_i, x as int, y as int)]);
            }
            assert(border_all_wall(maze_array@, size_i)) by {
                assert forall|row: int, col: int|
                    in_grid(size_i, row, col) && on_ring(size_i, row, col)
                        implies #[trigger] maze_array@[cell(size_i, row, col)] by {
                    lemma_cell_bounds(size_i, row, col);
                    if cell(size_i, row, col) == cell(size_i, x as int, y as int) {
                        lemma_cell_injective(size_i, row, col, x as int, y as int);
                    }
                }
            }
        }

        while pending.len() > 0
            invariant
                6 <= size,
                size_i == size as int,
                size * size <= usize::MAX,
                maze_array@.len() == size * size,
                rng.seed() == seed,
                border_all_wall(maze_array@, size_i),
                3 <= x as int <= size_i - 2,
                3 <= y as int <= size_i - 2,
                !maze_array@[cell(size_i, x as int, y as int)],
                open_edges(maze_array@, size_i) == count_open(maze_array@) - 1,
                (x as int, y as int) == dfs_seed_cell(seed, h0, size_i),
                forall|r: int, c: int|
                    in_grid(size_i, r, c) && !maze_array@[#[trigger] cell(size_i, r, c)]
                        ==> reachable(maze_array@, size_i, x as int, y as int, r, c),
                forall|t: int|
                    0 <= t < pending@.len() ==> candidate_touches_open(
                        maze_array@,
                        size_i,
                        (#[trigger] pending@[t]).0 as int,
                        pending@[t].1 as int,
                    ),
                dfs_run(seed, size_i, maze_array@, rng.history(), pending_view(pending@))
                    == target,
            decreases count_walls(maze_array@), pending@.len(),
        {
            let ghost prev_grid = maze_array@;
            let ghost prev_hist = rng.history();
            let ghost prev_pending = pending_view(pending@);
            let ghost prev_vec = pending@;

            let top = match pending.pop() {
                Some(t) => t,
                None => (0, 0),
            };
            let cx = top.0;
            let cy = top.1;
            proof {
                assert(pending_view(pending@) =~= prev_pending.drop_last());
                assert(prev_pending.last() == (cx as int, cy as int));
                assert(candidate_touches_open(prev_grid, size_i, cx as int, cy as int));
            }

            let mut taken = false;
            // Check if we are out of bounds, on an already empty field, or
            // next to more than one empty field; otherwise carve
            if 1 <= cx && cx <= size - 2 && 1 <= cy && cy <= size - 2 {
                proof {
                    lemma_cell_bounds(size_i, cx as int, cy as int);
                    lemma_cell_bounds(size_i, cx as int - 1, cy as int);
                    lemma_cell_bounds(size_i, cx as int + 1, cy as int);
                    lemma_cell_bounds(size_i, cx as int, cy as int - 1);
                    lemma_cell_bounds(size_i, cx as int, cy as int + 1);
                }
                let idx = cx * size + cy;
                if maze_array[idx] {
                    // Count visited neighbours
                    let mut open_count: usize = 0;
                    if !maze_array[(cx - 1) * size + cy] {
                        open_count = open_count + 1;
                    }
                    if !maze_array[(cx + 1) * size + cy] {
                        open_count = open_count + 1;
                    }
                    if !maze_array[cx * size + (cy - 1)] {
                        open_count = open_count + 1;
                    }
                    if !maze_array[cx * size + (cy + 1)] {
                        open_count = open_count + 1;
                    }
                    assert(open_count as int == open_neighbors(
                        maze_array@,
                        size_i,
                        cx as int,
                        cy as int,
                    ));
                    if open_count <= 1 {
                        taken = true;
                        assert(carve_taken(maze_array@, size_i, cx as int, cy as int));

                        // Mark the current point as visited
                        maze_array.set(idx, false);
                        proof {
                            lemma_cell_bounds(size_i, x as int, y as int);
                            lemma_count_walls_open(prev_grid, cell(size_i, cx as int, cy as int));
                            lemma_count_open_open(prev_grid, cell(size_i, cx as int, cy as int));
                            lemma_edges_open(prev_grid, size_i, cell(size_i, cx as int, cy as int));
                            lemma_cell_row_step(size_i, cx as int, cy as int);
                            assert(open_neighbor_pairs(
                                prev_grid,
                                size_i,
                                cell(size_i, cx as int, cy as int),
                            ) == open_neighbors(prev_grid, size_i, cx as int, cy as int));
                            assert(open_neighbors(prev_grid, size_i, cx as int, cy as int) == 1);
                            assert(open_edges(maze_array@, size_i) == count_open(maze_array@) - 1);
                            assert forall|r: int, c: int|
                                in_grid(size_i, r, c) && !maze_array@[#[trigger] cell(
                                    size_i,
                                    r,
                                    c,
                                )] implies reachable(
                                maze_array@,
                                size_i,
                                x as int,
                                y as int,
                                r,
                                c,
                            ) by {
                                lemma_cell_bounds(size_i, r, c);
                                let carved = cell(size_i, cx as int, cy as int);
                                if cell(size_i, r, c) == carved {
                                    lemma_cell_injective(size_i, r, c, cx as int, cy as int);
                                    if !prev_grid[cell(size_i, cx as int - 1, cy as int)] {
                                        lemma_reachable_keeps_open(
                                            prev_grid,
                                            size_i,
                                            carved,
                                            x as int,
                                            y as int,
                                            cx as int - 1,
                                            cy as int,
                                        );
                                        lemma_reachable_step(
                                            maze_array@,
                                            size_i,
                                            x as int,
                                            y as int,
                                            cx as int - 1,
                                            cy as int,
                                            cx as int,
                                            cy as int,
                                        );
                                    } else if !prev_grid[cell(size_i, cx as int + 1, cy as int)] {
                                        lemma_reachable_keeps_open(
                                            prev_grid,
                                            size_i,
                                            carved,
                                            x as int,
                                            y as int,
                                            cx as int + 1,
                                            cy as int,
                                        );
                                        lemma_reachable_step(
                                            maze_array@,
                                            size_i,
                                            x as int,
                                            y as int,
                                            cx as int + 1,
                                            cy as int,
                                            cx as int,
                                            cy as int,
                                        );
                                    } else if !prev_grid[cell(size_i, cx as int, cy as int - 1)] {
                                        lemma_reachable_keeps_open(
                                            prev_grid,
                                            size_i,
                                            carved,
                                            x as int,
                                            y as int,
                                            cx as int,
                                            cy as int - 1,
                                        );
                                        lemma_reachable_step(
                                            maze_array@,
                                            size_i,
                                            x as int,
                                            y as int,
                                            cx as int,
                                            cy as int - 1,
                                            cx as int,
                                            cy as int,
                                        );
                                    } else {
                                        assert(!prev_grid[cell(size_i, cx as int, cy as int + 1)]);
                                        lemma_reachable_keeps_open(
                                            prev_grid,
                                            size_i,
                                            carved,
                                            x as int,
                                            y as int,
                                            cx as int,
                                            cy as int + 1,
                                        );
                                        lemma_reachable_step(
                                            maze_array@,
                                            size_i,
                                            x as int,
                                            y as int,
                                            cx as int,
                                            cy as int + 1,
                                            cx as int,
                                            cy as int,
                                        );
                                    }
                                } else {
                                    assert(!prev_grid[cell(size_i, r, c)]);
                                    lemma_reachable_keeps_open(
                                        prev_grid,
                                        size_i,
                                        carved,
                                        x as int,
                                        y as int,
                                        r,
                                        c,
                                    );
                                }
                            }
                            assert forall|row: int, col: int|
                                in_grid(size_i, row, col) && on_ring(size_i, row, col)
                                    implies #[trigger] maze_array@[cell(size_i, row, col)] by {
                                lemma_cell_bounds(size_i, row, col);
                                if cell(size_i, row, col) == cell(size_i, cx as int, cy as int) {
                                    lemma_cell_injective(size_i, row, col, cx as int, cy as int);
                                }
                            }
                        }

                        // Shuffle the four directions and queue the
                        // neighbours, the first drawn direction on top
                        let mut codes: Vec<u8> = Vec::new();
                        codes.push(0);
                        codes.push(1);
                        codes.push(2);
                        codes.push(3);
                        assert(codes@ =~= all_direction_codes());
                        rng.shuffle(&mut codes);
                        proof {
                            codes@.to_multiset_ensures();
                            all_direction_codes().to_multiset_ensures();
                            assert(codes@.len() == 4);
                        }
                        pending.push(step_from(cx, cy, codes[3], size));
                        pending.push(step_from(cx, cy, codes[2], size));
                        pending.push(step_from(cx, cy, codes[1], size));
                        pending.push(step_from(cx, cy, codes[0], size));
                        proof {
                            let shuffled = shuffle_draw(seed, prev_hist, all_direction_codes());
                            assert(pending_view(pending@) =~= prev_pending.drop_last() + Seq::new(
                                shuffled.len(),
                                |i: int| step_cell(
                                    cx as int,
                                    cy as int,
                                    shuffled[shuffled.len() - 1 - i] as int,
                                ),
                            ));
                            assert forall|t: int|
                                0 <= t < pending@.len() implies candidate_touches_open(
                                maze_array@,
                                size_i,
                                (#[trigger] pending@[t]).0 as int,
                                pending@[t].1 as int,
                            ) by {
                                let px = pending@[t].0 as int;
                                let py = pending@[t].1 as int;
                                if t < prev_vec.len() - 1 {
                                    assert(pending@[t] == prev_vec[t]);
                                    assert(candidate_touches_open(prev_grid, size_i, px, py));
                                    if 1 <= px <= size_i - 2 && 1 <= py <= size_i - 2 {
                                        lemma_cell_bounds(size_i, px - 1, py);
                                        lemma_cell_bounds(size_i, px + 1, py);
                                        lemma_cell_bounds(size_i, px, py - 1);
                                        lemma_cell_bounds(size_i, px, py + 1);
                                        assert(open_neighbors(maze_array@, size_i, px, py)
                                            >= open_neighbors(prev_grid, size_i, px, py));
                                    }
                                } else {
                                    assert(!maze_array@[cell(size_i, cx as int, cy as int)]);
                                    assert((px, py) == step_cell(cx as int, cy as int, codes@[
                                        prev_vec.len() + 2 - t] as int));
                                }
                            }
                        }
                    }
                }
            }
            proof {
                if !taken {
                    assert(!carve_taken(prev_grid, size_i, cx as int, cy as int));
                    assert(maze_array@ == prev_grid);
                    assert(rng.history() == prev_hist);
                }
                assert(dfs_run(seed, size_i, maze_array@, rng.history(), pending_view(pending@))
                    == dfs_run(seed, size_i, prev_grid, prev_hist, prev_pending));
            }
        }

        proof {
            assert(pending_view(pending@) =~= Seq::<(int, int)>::empty());
            assert(dfs_run(seed, size_i, maze_array@, rng.history(), pending_view(pending@)) == (
                maze_array@,
                rng.history(),
            ));
            assert(is_open_interior(maze_array@, size_i, x as int, y as int));
        }

        maze_array
    }
}

} // verus!
