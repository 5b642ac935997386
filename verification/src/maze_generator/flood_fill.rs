//! Flood fill over a maze grid: the traversal that connectivity claims
//! about generated mazes rest on. The fill marks exactly the cells that an
//! open walk from the start cell reaches, and the cover check decides
//! whether those are all the open cells.

use vstd::pervasive::VecAdditionalExecFns;
use vstd::prelude::*;

use crate::maze_generator::cell;
use crate::maze_generator::count_walls;
use crate::maze_generator::filled;
use crate::maze_generator::in_grid;
use crate::maze_generator::lemma_cell_bounds;
use crate::maze_generator::lemma_count_walls_at_most;
use crate::maze_generator::lemma_count_walls_close;

verus! {

/// `(r2, c2)` lies one step up, down, left or right of `(r1, c1)`.
pub open spec fn adjacent(r1: int, c1: int, r2: int, c2: int) -> bool {
    (r1 == r2 && (c2 == c1 + 1 || c2 == c1 - 1)) || (c1 == c2 && (r2 == r1 + 1 || r2 == r1 - 1))
}

/// A walk through open in-grid cells, each step to a neighbour.
pub open spec fn is_open_path(grid: Seq<bool>, size: int, path: Seq<(int, int)>) -> bool {
    &&& path.len() >= 1
    &&& forall|i: int|
        0 <= i < path.len() ==> in_grid(size, (#[trigger] path[i]).0, path[i].1) && !grid[cell(
            size,
            path[i].0,
            path[i].1,
        )]
    &&& forall|i: int|
        0 <= i < path.len() - 1 ==> adjacent(
            (#[trigger] path[i]).0,
            path[i].1,
            path[i + 1].0,
            path[i + 1].1,
        )
}

/// Some open walk joins `(r1, c1)` to `(r2, c2)`.
#[verifier::opaque]
pub open spec fn reachable(grid: Seq<bool>, size: int, r1: int, c1: int, r2: int, c2: int) -> bool {
    exists|path: Seq<(int, int)>|
        is_open_path(grid, size, path) && path.first() == (r1, c1) && path.last() == (r2, c2)
}

/// An open in-grid cell reaches itself.
pub proof fn lemma_reachable_self(grid: Seq<bool>, size: int, r: int, c: int)
    requires
        in_grid(size, r, c),
        !grid[cell(size, r, c)],
    ensures
        reachable(grid, size, r, c, r, c),
{
    reveal(reachable);
    let path: Seq<(int, int)> = seq![(r, c)];
    assert(is_open_path(grid, size, path));
    assert(path.first() == (r, c) && path.last() == (r, c));
}

/// Stepping from a reached cell to an open neighbour reaches it too.
pub proof fn lemma_reachable_step(
    grid: Seq<bool>,
    size: int,
    r1: int,
    c1: int,
    r2: int,
    c2: int,
    r3: int,
    c3: int,
)
    requires
        reachable(grid, size, r1, c1, r2, c2),
        adjacent(r2, c2, r3, c3),
        in_grid(size, r3, c3),
        !grid[cell(size, r3, c3)],
    ensures
        reachable(grid, size, r1, c1, r3, c3),
{
    reveal(reachable);
    let path = choose|path: Seq<(int, int)>|
        is_open_path(grid, size, path) && path.first() == (r1, c1) && path.last() == (r2, c2);
    let extended = path.push((r3, c3));
    assert(is_open_path(grid, size, extended)) by {
        assert(forall|i: int|
            0 <= i < path.len() ==> (#[trigger] extended[i]) == path[i]);
        assert(extended[extended.len() - 1] == (r3, c3));
    }
    assert(extended.first() == (r1, c1) && extended.last() == (r3, c3));
}

/// Opening one more cell keeps every walk open.
#[verifier::rlimit(50)]
pub proof fn lemma_reachable_keeps_open(
    grid: Seq<bool>,
    size: int,
    j: int,
    r1: int,
    c1: int,
    r2: int,
    c2: int,
)
    requires
        grid.len() == size * size,
        reachable(grid, size, r1, c1, r2, c2),
        0 <= j < grid.len(),
    ensures
        reachable(grid.update(j, false), size, r1, c1, r2, c2),
{
    reveal(reachable);
    let opened = grid.update(j, false);
    let path = choose|path: Seq<(int, int)>|
        is_open_path(grid, size, path) && path.first() == (r1, c1) && path.last() == (r2, c2);
    assert(is_open_path(opened, size, path)) by {
        assert forall|i: int|
            0 <= i < path.len() implies in_grid(size, (#[trigger] path[i]).0, path[i].1)
            && !opened[cell(size, path[i].0, path[i].1)] by {
            assert(in_grid(size, path[i].0, path[i].1) && !grid[cell(
                size,
                path[i].0,
                path[i].1,
            )]);
            lemma_cell_bounds(size, path[i].0, path[i].1);
        }
    }
}

/// The marked cells are closed under open steps: every open in-grid
/// neighbour of a marked cell is marked too.
spec fn closed_under_open_steps(grid: Seq<bool>, size: int, marked: Seq<bool>) -> bool {
    forall|r1: int, c1: int, r2: int, c2: int|
        in_grid(size, r1, c1) && marked[cell(size, r1, c1)] && #[trigger] adjacent(r1, c1, r2, c2)
            && in_grid(size, r2, c2) && !grid[cell(size, r2, c2)] ==> marked[cell(size, r2, c2)]
}

/// A set of cells that holds a walk's start and is closed under open
/// steps holds the walk's end.
proof fn lemma_closed_set_covers(
    grid: Seq<bool>,
    size: int,
    marked: Seq<bool>,
    path: Seq<(int, int)>,
)
    requires
        is_open_path(grid, size, path),
        marked[cell(size, path.first().0, path.first().1)],
        closed_under_open_steps(grid, size, marked),
    ensures
        marked[cell(size, path.last().0, path.last().1)],
    decreases path.len(),
{
    if path.len() > 1 {
        let shorter = path.drop_last();
        assert(is_open_path(grid, size, shorter)) by {
            assert(forall|i: int|
                0 <= i < shorter.len() ==> (#[trigger] shorter[i]) == path[i]);
        }
        lemma_closed_set_covers(grid, size, marked, shorter);
        let prev = path[path.len() - 2];
        let last = path[path.len() - 1];
        assert(adjacent(prev.0, prev.1, last.0, last.1));
    }
}

/// The worklist holds `(row, col)`.
#[verifier::opaque]
spec fn work_holds(work: Seq<(usize, usize)>, row: int, col: int) -> bool {
    exists|i: int|
        0 <= i < work.len() && ((#[trigger] work[i]).0 as int, work[i].1 as int) == (row, col)
}

/// Each open in-grid neighbour of `(r, c)` is already marked or waits in
/// the worklist.
spec fn cell_expanded(
    grid: Seq<bool>,
    size: int,
    marked: Seq<bool>,
    work: Seq<(usize, usize)>,
    r: int,
    c: int,
) -> bool {
    &&& (r > 0 && !grid[cell(size, r - 1, c)] ==> marked[cell(size, r - 1, c)] || work_holds(
        work,
        r - 1,
        c,
    ))
    &&& (r < size - 1 && !grid[cell(size, r + 1, c)] ==> marked[cell(size, r + 1, c)]
        || work_holds(work, r + 1, c))
    &&& (c > 0 && !grid[cell(size, r, c - 1)] ==> marked[cell(size, r, c - 1)] || work_holds(
        work,
        r,
        c - 1,
    ))
    &&& (c < size - 1 && !grid[cell(size, r, c + 1)] ==> marked[cell(size, r, c + 1)]
        || work_holds(work, r, c + 1))
}

/// An entry of the worklist, short of the popped top, is still in the
/// shortened worklist; the top itself is covered when it is marked.
proof fn lemma_holds_after_pop(
    work_prev: Seq<(usize, usize)>,
    work_new: Seq<(usize, usize)>,
    marked: Seq<bool>,
    size: int,
    top: (usize, usize),
    r: int,
    c: int,
)
    requires
        work_prev.len() >= 1,
        work_new == work_prev.drop_last(),
        work_prev.last() == top,
        work_holds(work_prev, r, c),
        marked[cell(size, top.0 as int, top.1 as int)],
    ensures
        work_holds(work_new, r, c) || marked[cell(size, r, c)],
{
    reveal(work_holds);
    let i = choose|i: int|
        0 <= i < work_prev.len() && ((#[trigger] work_prev[i]).0 as int, work_prev[i].1 as int)
            == (r, c);
    if i < work_prev.len() - 1 {
        assert(work_new[i] == work_prev[i]);
    }
}

/// Queues a cell, keeping everything already queued.
fn queue_cell(work: &mut Vec<(usize, usize)>, row: usize, col: usize)
    ensures
        final(work)@ == old(work)@.push((row, col)),
        work_holds(final(work)@, row as int, col as int),
        forall|r: int, c: int|
            work_holds(old(work)@, r, c) ==> work_holds(final(work)@, r, c),
{
    work.push((row, col));
    proof {
        reveal(work_holds);
        let ghost appended = work@;
        assert(appended[appended.len() - 1] == (row, col));
        assert forall|r: int, c: int|
            work_holds(old(work)@, r, c) implies work_holds(appended, r, c) by {
            let i = choose|i: int|
                0 <= i < old(work)@.len() && ((#[trigger] old(work)@[i]).0 as int, old(
                work,
                )@[i].1 as int) == (r, c);
            assert(appended[i] == old(work)@[i]);
        }
    }
}

/// Worklist entries are in-grid open cells that a walk from the start
/// reaches.
spec fn work_entries_ok(
    grid: Seq<bool>,
    size: int,
    start_row: int,
    start_col: int,
    work: Seq<(usize, usize)>,
) -> bool {
    forall|i: int|
        0 <= i < work.len() ==> ((#[trigger] work[i]).0 as int) < size && (work[i].1 as int)
            < size && !grid[cell(size, work[i].0 as int, work[i].1 as int)] && reachable(
            grid,
            size,
            start_row,
            start_col,
            work[i].0 as int,
            work[i].1 as int,
        )
}

/// Marked cells are open cells that a walk from the start reaches.
spec fn marked_sound(
    grid: Seq<bool>,
    size: int,
    start_row: int,
    start_col: int,
    marked: Seq<bool>,
) -> bool {
    forall|row: int, col: int|
        in_grid(size, row, col) && #[trigger] marked[cell(size, row, col)] ==> !grid[cell(
            size,
            row,
            col,
        )] && reachable(grid, size, start_row, start_col, row, col)
}

/// Every marked cell has its open neighbours marked or queued.
spec fn marked_expanded(
    grid: Seq<bool>,
    size: int,
    marked: Seq<bool>,
    work: Seq<(usize, usize)>,
) -> bool {
    forall|row: int, col: int|
        in_grid(size, row, col) && #[trigger] marked[cell(size, row, col)] ==> cell_expanded(
            grid,
            size,
            marked,
            work,
            row,
            col,
        )
}

/// Marks the just-popped open cell and queues its open neighbours. The
/// popped worklist together with the popped cell stands in for the list
/// the invariants held of.
#[verifier::rlimit(100)]
fn expand_cell(
    maze_array: &Vec<bool>,
    size: usize,
    start_row: usize,
    start_col: usize,
    visited: &mut Vec<bool>,
    work: &mut Vec<(usize, usize)>,
    row: usize,
    col: usize,
)
    requires
        1 <= size,
        size * size <= usize::MAX,
        maze_array@.len() == size * size,
        row < size,
        col < size,
        !maze_array@[cell(size as int, row as int, col as int)],
        reachable(
            maze_array@,
            size as int,
            start_row as int,
            start_col as int,
            row as int,
            col as int,
        ),
        old(visited)@.len() == size * size,
        !old(visited)@[cell(size as int, row as int, col as int)],
        work_entries_ok(
            maze_array@,
            size as int,
            start_row as int,
            start_col as int,
            old(work)@,
        ),
        marked_sound(maze_array@, size as int, start_row as int, start_col as int, old(visited)@),
        marked_expanded(
            maze_array@,
            size as int,
            old(visited)@,
            old(work)@.push((row, col)),
        ),
    ensures
        final(visited)@.len() == old(visited)@.len(),
        count_walls(final(visited)@) == count_walls(old(visited)@) + 1,
        final(visited)@[cell(size as int, row as int, col as int)],
        forall|i: int| 0 <= i < old(visited)@.len() && old(visited)@[i] ==> final(visited)@[i],
        forall|r: int, c: int|
            work_holds(old(work)@, r, c) ==> work_holds(final(work)@, r, c),
        work_entries_ok(
            maze_array@,
            size as int,
            start_row as int,
            start_col as int,
            final(work)@,
        ),
        marked_sound(
            maze_array@,
            size as int,
            start_row as int,
            start_col as int,
            final(visited)@,
        ),
        marked_expanded(maze_array@, size as int, final(visited)@, final(work)@),
{
    let ghost size_i = size as int;
    let ghost grid = maze_array@;
    let ghost prev_visited = visited@;
    let ghost prev_work = work@.push((row, col));
    let ghost popped = work@;
    let ghost top = (row, col);

    proof {
        lemma_cell_bounds(size_i, row as int, col as int);
        assert(prev_work.last() == top);
        assert(prev_work.drop_last() =~= popped);
    }
    visited.set(row * size + col, true);
    proof {
        lemma_count_walls_close(prev_visited, cell(size_i, row as int, col as int));
    }

    // Queue the open neighbours of the newly marked cell
    if row > 0 {
        proof {
            lemma_cell_bounds(size_i, row as int - 1, col as int);
        }
        if !maze_array[(row - 1) * size + col] {
            queue_cell(work, row - 1, col);
            proof {
                lemma_reachable_step(
                    grid,
                    size_i,
                    start_row as int,
                    start_col as int,
                    row as int,
                    col as int,
                    row as int - 1,
                    col as int,
                );
            }
        }
    }
    if row + 1 < size {
        proof {
            lemma_cell_bounds(size_i, row as int + 1, col as int);
        }
        if !maze_array[(row + 1) * size + col] {
            queue_cell(work, row + 1, col);
            proof {
                lemma_reachable_step(
                    grid,
                    size_i,
                    start_row as int,
                    start_col as int,
                    row as int,
                    col as int,
                    row as int + 1,
                    col as int,
                );
            }
        }
    }
    if col > 0 {
        proof {
            lemma_cell_bounds(size_i, row as int, col as int - 1);
        }
        if !maze_array[row * size + (col - 1)] {
            queue_cell(work, row, col - 1);
            proof {
                lemma_reachable_step(
                    grid,
                    size_i,
                    start_row as int,
                    start_col as int,
                    row as int,
                    col as int,
                    row as int,
                    col as int - 1,
                );
            }
        }
    }
    if col + 1 < size {
        proof {
            lemma_cell_bounds(size_i, row as int, col as int + 1);
        }
        if !maze_array[row * size + (col + 1)] {
            queue_cell(work, row, col + 1);
            proof {
                lemma_reachable_step(
                    grid,
                    size_i,
                    start_row as int,
                    start_col as int,
                    row as int,
                    col as int,
                    row as int,
                    col as int + 1,
                );
            }
        }
    }

    proof {
        assert forall|r: int, c: int|
            in_grid(size_i, r, c) && #[trigger] visited@[cell(size_i, r, c)] implies !grid[cell(
            size_i,
            r,
            c,
        )] && reachable(grid, size_i, start_row as int, start_col as int, r, c) by {
            lemma_cell_bounds(size_i, r, c);
            if (r, c) != (row as int, col as int) {
                assert(prev_visited[cell(size_i, r, c)]);
            }
        }
        assert forall|r: int, c: int|
            in_grid(size_i, r, c) && #[trigger] visited@[cell(size_i, r, c)]
                implies cell_expanded(grid, size_i, visited@, work@, r, c) by {
            lemma_cell_bounds(size_i, r, c);
            if r > 0 {
                lemma_cell_bounds(size_i, r - 1, c);
            }
            if r < size_i - 1 {
                lemma_cell_bounds(size_i, r + 1, c);
            }
            if c > 0 {
                lemma_cell_bounds(size_i, r, c - 1);
            }
            if c < size_i - 1 {
                lemma_cell_bounds(size_i, r, c + 1);
            }
            if (r, c) != (row as int, col as int) {
                assert(prev_visited[cell(size_i, r, c)]);
                assert(cell_expanded(grid, size_i, prev_visited, prev_work, r, c));
                if r > 0 && !grid[cell(size_i, r - 1, c)] && !prev_visited[cell(
                    size_i,
                    r - 1,
                    c,
                )] {
                    lemma_holds_after_pop(prev_work, popped, visited@, size_i, top, r - 1, c);
                }
                if r < size_i - 1 && !grid[cell(size_i, r + 1, c)] && !prev_visited[cell(
                    size_i,
                    r + 1,
                    c,
                )] {
                    lemma_holds_after_pop(prev_work, popped, visited@, size_i, top, r + 1, c);
                }
                if c > 0 && !grid[cell(size_i, r, c - 1)] && !prev_visited[cell(
                    size_i,
                    r,
                    c - 1,
                )] {
                    lemma_holds_after_pop(prev_work, popped, visited@, size_i, top, r, c - 1);
                }
                if c < size_i - 1 && !grid[cell(size_i, r, c + 1)] && !prev_visited[cell(
                    size_i,
                    r,
                    c + 1,
                )] {
                    lemma_holds_after_pop(prev_work, popped, visited@, size_i, top, r, c + 1);
                }
            } else {
                if r > 0 && !grid[cell(size_i, r - 1, c)] {
                    assert(work_holds(work@, r - 1, c));
                }
                if r < size_i - 1 && !grid[cell(size_i, r + 1, c)] {
                    assert(work_holds(work@, r + 1, c));
                }
                if c > 0 && !grid[cell(size_i, r, c - 1)] {
                    assert(work_holds(work@, r, c - 1));
                }
                if c < size_i - 1 && !grid[cell(size_i, r, c + 1)] {
                    assert(work_holds(work@, r, c + 1));
                }
            }
        }
    }
}

/// Marks exactly the cells that an open walk from the open start cell
/// reaches.
#[verifier::rlimit(100)]
pub fn flood_fill_open(
    maze_array: &Vec<bool>,
    size: usize,
    start_row: usize,
    start_col: usize,
) -> (visited: Vec<bool>)
    requires
        1 <= size,
        size * size <= usize::MAX,
        maze_array@.len() == size * size,
        start_row < size,
        start_col < size,
        !maze_array@[cell(size as int, start_row as int, start_col as int)],
    ensures
        visited@.len() == size * size,
        forall|row: int, col: int|
            in_grid(size as int, row, col) ==> (#[trigger] visited@[cell(size as int, row, col)]
                <==> reachable(
                maze_array@,
                size as int,
                start_row as int,
                start_col as int,
                row,
                col,
            )),
{
    let ghost size_i = size as int;
    let ghost grid = maze_array@;

    let mut visited = filled(size * size, false);
    let mut work: Vec<(usize, usize)> = Vec::new();
    work.push((start_row, start_col));
    proof {
        lemma_reachable_self(grid, size_i, start_row as int, start_col as int);
        lemma_count_walls_at_most(visited@);
        assert forall|row: int, col: int|
            in_grid(size_i, row, col) implies !(#[trigger] visited@[cell(size_i, row, col)]) by {
            lemma_cell_bounds(size_i, row, col);
        }
        assert(work@[0] == (start_row, start_col));
        assert(work_holds(work@, start_row as int, start_col as int)) by {
            reveal(work_holds);
        }
    }

    while work.len() > 0
        invariant
            1 <= size,
            size_i == size as int,
            size * size <= usize::MAX,
            maze_array@ == grid,
            grid.len() == size * size,
            visited@.len() == size * size,
            start_row < size,
            start_col < size,
            !grid[cell(size_i, start_row as int, start_col as int)],
            count_walls(visited@) <= visited@.len(),
            work_entries_ok(grid, size_i, start_row as int, start_col as int, work@),
            marked_sound(grid, size_i, start_row as int, start_col as int, visited@),
            visited@[cell(size_i, start_row as int, start_col as int)] || work_holds(
                work@,
                start_row as int,
                start_col as int,
            ),
            marked_expanded(grid, size_i, visited@, work@),
        decreases visited@.len() - count_walls(visited@), work@.len(),
    {
        let ghost prev_visited = visited@;
        let ghost prev_work = work@;
        let top = match work.pop() {
            Some(t) => t,
            None => (0, 0),
        };
        let row = top.0;
        let col = top.1;
        let ghost popped = work@;
        proof {
            lemma_cell_bounds(size_i, row as int, col as int);
            assert(prev_work[prev_work.len() - 1] == top);
            assert(popped.push(top) =~= prev_work);
        }

        if !visited[row * size + col] {
            proof {
                assert(marked_expanded(grid, size_i, visited@, popped.push((row, col))));
            }
            expand_cell(
                maze_array,
                size,
                start_row,
                start_col,
                &mut visited,
                &mut work,
                row,
                col,
            );
            proof {
                lemma_count_walls_at_most(visited@);
                lemma_cell_bounds(size_i, start_row as int, start_col as int);
                if !visited@[cell(size_i, start_row as int, start_col as int)] {
                    assert(!prev_visited[cell(size_i, start_row as int, start_col as int)]);
                    assert(work_holds(prev_work, start_row as int, start_col as int));
                    lemma_holds_after_pop(
                        prev_work,
                        popped,
                        visited@,
                        size_i,
                        top,
                        start_row as int,
                        start_col as int,
                    );
                }
            }
        } else {
            proof {
                assert forall|r: int, c: int|
                    in_grid(size_i, r, c) && #[trigger] visited@[cell(size_i, r, c)]
                        implies cell_expanded(grid, size_i, visited@, work@, r, c) by {
                    lemma_cell_bounds(size_i, r, c);
                    if r > 0 {
                        lemma_cell_bounds(size_i, r - 1, c);
                    }
                    if r < size_i - 1 {
                        lemma_cell_bounds(size_i, r + 1, c);
                    }
                    if c > 0 {
                        lemma_cell_bounds(size_i, r, c - 1);
                    }
                    if c < size_i - 1 {
                        lemma_cell_bounds(size_i, r, c + 1);
                    }
                    assert(cell_expanded(grid, size_i, prev_visited, prev_work, r, c));
                    if r > 0 && !grid[cell(size_i, r - 1, c)] && !visited@[cell(
                        size_i,
                        r - 1,
                        c,
                    )] {
                        lemma_holds_after_pop(prev_work, popped, visited@, size_i, top, r - 1, c);
                    }
                    if r < size_i - 1 && !grid[cell(size_i, r + 1, c)] && !visited@[cell(
                        size_i,
                        r + 1,
                        c,
                    )] {
                        lemma_holds_after_pop(prev_work, popped, visited@, size_i, top, r + 1, c);
                    }
                    if c > 0 && !grid[cell(size_i, r, c - 1)] && !visited@[cell(
                        size_i,
                        r,
                        c - 1,
                    )] {
                        lemma_holds_after_pop(prev_work, popped, visited@, size_i, top, r, c - 1);
                    }
                    if c < size_i - 1 && !grid[cell(size_i, r, c + 1)] && !visited@[cell(
                        size_i,
                        r,
                        c + 1,
                    )] {
                        lemma_holds_after_pop(prev_work, popped, visited@, size_i, top, r, c + 1);
                    }
                }
                if !visited@[cell(size_i, start_row as int, start_col as int)] {
                    lemma_holds_after_pop(
                        prev_work,
                        popped,
                        visited@,
                        size_i,
                        top,
                        start_row as int,
                        start_col as int,
                    );
                }
            }
        }
    }

    proof {
        // The worklist is empty: the marked cells are closed under open
        // steps and hold the start, so they cover everything reachable
        assert(!work_holds(work@, start_row as int, start_col as int)) by {
            reveal(work_holds);
        }
        assert(visited@[cell(size_i, start_row as int, start_col as int)]);
        assert(closed_under_open_steps(grid, size_i, visited@)) by {
            assert forall|r1: int, c1: int, r2: int, c2: int|
                in_grid(size_i, r1, c1) && visited@[cell(size_i, r1, c1)] && #[trigger] adjacent(
                    r1,
                    c1,
                    r2,
                    c2,
                ) && in_grid(size_i, r2, c2) && !grid[cell(size_i, r2, c2)]
                    implies visited@[cell(size_i, r2, c2)] by {
                reveal(work_holds);
                lemma_cell_bounds(size_i, r2, c2);
                assert(cell_expanded(grid, size_i, visited@, work@, r1, c1));
            }
        }
        assert forall|row: int, col: int|
            in_grid(size_i, row, col) && reachable(
                grid,
                size_i,
                start_row as int,
                start_col as int,
                row,
                col,
            ) implies #[trigger] visited@[cell(size_i, row, col)] by {
            reveal(reachable);
            let path = choose|path: Seq<(int, int)>|
                is_open_path(grid, size_i, path) && path.first() == (
                start_row as int,
                start_col as int,
                ) && path.last() == (row, col);
            lemma_closed_set_covers(grid, size_i, visited@, path);
        }
    }

    visited
}

/// Decides whether an open walk from the open start cell reaches every
/// open cell of the grid.
pub fn flood_covers_all_open(
    maze_array: &Vec<bool>,
    size: usize,
    start_row: usize,
    start_col: usize,
) -> (covered: bool)
    requires
        1 <= size,
        size * size <= usize::MAX,
        maze_array@.len() == size * size,
        start_row < size,
        start_col < size,
        !maze_array@[cell(size as int, start_row as int, start_col as int)],
    ensures
        covered == forall|row: int, col: int|
            in_grid(size as int, row, col) && !maze_array@[cell(size as int, row, col)]
                ==> reachable(
                maze_array@,
                size as int,
                start_row as int,
                start_col as int,
                row,
                col,
            ),
{
    let ghost size_i = size as int;
    let visited = flood_fill_open(maze_array, size, start_row, start_col);
    let mut row: usize = 0;
    while row < size
        invariant
            1 <= size,
            size_i == size as int,
            size * size <= usize::MAX,
            maze_array@.len() == size * size,
            visited@.len() == size * size,
            row <= size,
            forall|r: int, c: int|
                in_grid(size_i, r, c) ==> (#[trigger] visited@[cell(size_i, r, c)] <==> reachable(
                    maze_array@,
                    size_i,
                    start_row as int,
                    start_col as int,
                    r,
                    c,
                )),
            forall|r: int, c: int|
                0 <= r < row && 0 <= c < size_i && !maze_array@[#[trigger] cell(size_i, r, c)]
                    ==> visited@[cell(size_i, r, c)],
        decreases size - row,
    {
        let mut col: usize = 0;
        while col < size
            invariant
                1 <= size,
                size_i == size as int,
                size * size <= usize::MAX,
                maze_array@.len() == size * size,
                visited@.len() == size * size,
                row < size,
                col <= size,
                forall|r: int, c: int|
                    in_grid(size_i, r, c) ==> (#[trigger] visited@[cell(size_i, r, c)]
                        <==> reachable(
                        maze_array@,
                        size_i,
                        start_row as int,
                        start_col as int,
                        r,
                        c,
                    )),
                forall|r: int, c: int|
                    0 <= r < row && 0 <= c < size_i && !maze_array@[#[trigger] cell(size_i, r, c)]
                        ==> visited@[cell(size_i, r, c)],
                forall|c: int|
                    0 <= c < col && !maze_array@[#[trigger] cell(size_i, row as int, c)]
                        ==> visited@[cell(size_i, row as int, c)],
            decreases size - col,
        {
            proof {
                lemma_cell_bounds(size_i, row as int, col as int);
            }
            if !maze_array[row * size + col] && !visited[row * size + col] {
                proof {
                    assert(in_grid(size_i, row as int, col as int));
                    assert(!maze_array@[cell(size_i, row as int, col as int)]);
                    assert(!reachable(
                        maze_array@,
                        size_i,
                        start_row as int,
                        start_col as int,
                        row as int,
                        col as int,
                    ));
                }
                return false;
            }
            col = col + 1;
        }
        row = row + 1;
    }
    true
}

} // verus!
