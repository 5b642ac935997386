//! Maze generator that uses the recursive division algorithm.
//!
//! The grid starts fully open with its outer ring drawn as walls. The
//! interior is seen as a coarser chamber space over the odd-indexed cells;
//! the full chamber rectangle is divided recursively: a wall is drawn next
//! to a randomly chosen chamber row or column, one randomly chosen passage
//! is opened in it, and the two resulting chambers are divided in turn.
//! Wider chambers are split vertically, taller ones horizontally, square
//! ones by a draw. Cells with two odd coordinates are never drawn over, so
//! the chamber cells stay open throughout.

use vstd::pervasive::VecAdditionalExecFns;
use vstd::prelude::*;

use crate::maze_generator::border_all_wall;
use crate::maze_generator::cell;
use crate::maze_generator::has_open_interior;
use crate::maze_generator::in_grid;
use crate::maze_generator::is_open_interior;
use crate::maze_generator::lemma_cell_bounds;
use crate::maze_generator::lemma_cell_injective;
use crate::maze_generator::on_ring;
use crate::maze_generator::random_source::bounded_draw;
use crate::maze_generator::random_source::range_event;
use crate::maze_generator::random_source::RandomSource;

verus! {

/// Divider state: the edge length of the maze to produce, expected odd.
pub struct GeneratorRD {
    pub maze_size: usize,
}

/// Which way a chamber is divided.
pub enum Orientation {
    Horizontal,
    Vertical,
}

/// The orientation that a bounded draw in `0..=1` selects.
pub open spec fn orientation_of_code(code: int) -> Orientation {
    if code == 0 {
        Orientation::Horizontal
    } else {
        Orientation::Vertical
    }
}

/// The code of an orientation, inverse of `orientation_of_code`.
pub open spec fn orientation_code(o: Orientation) -> int {
    match o {
        Orientation::Horizontal => 0,
        Orientation::Vertical => 1,
    }
}

/// The flat index `i` lies on the outer ring of the grid.
pub open spec fn ring_index(size: int, i: int) -> bool {
    on_ring(size, i / size, i % size)
}

/// The fully open grid with its outer ring drawn as walls.
pub open spec fn bordered_grid(size: int) -> Seq<bool> {
    Seq::new((size * size) as nat, |i: int| ring_index(size, i))
}

/// `grid` with the cells of row `row`, columns `c0..=c1`, drawn as walls.
pub open spec fn with_row_wall(grid: Seq<bool>, size: int, row: int, c0: int, c1: int) -> Seq<
    bool,
> {
    Seq::new(
        grid.len(),
        |i: int|
            if i / size == row && c0 <= i % size <= c1 {
                true
            } else {
                grid[i]
            },
    )
}

/// `grid` with the cells of column `col`, rows `r0..=r1`, drawn as walls.
pub open spec fn with_col_wall(grid: Seq<bool>, size: int, col: int, r0: int, r1: int) -> Seq<
    bool,
> {
    Seq::new(
        grid.len(),
        |i: int|
            if i % size == col && r0 <= i / size <= r1 {
                true
            } else {
                grid[i]
            },
    )
}

/// The orientation chosen for a chamber of the given spans: vertical when
/// wider, horizontal when taller, a draw when square. Returns the
/// orientation code and the call history.
pub open spec fn orientation_model(
    seed: Seq<char>,
    history: Seq<(int, int, int)>,
    width: int,
    height: int,
) -> (int, Seq<(int, int, int)>) {
    if width > height {
        (1int, history)
    } else if width < height {
        (0int, history)
    } else {
        (bounded_draw(seed, history, 0, 1), history.push(range_event(0, 1)))
    }
}

/// One recursive division of the chamber rectangle `(sx, sy)..=(ex, ey)`
/// in chamber coordinates: nothing when either span is below one chamber;
/// otherwise a wall next to a drawn chamber row or column, a drawn passage
/// opened in it, and the two sub-chambers divided with their own
/// orientations. Returns the grid and the call history.
pub open spec fn rd_divide(
    seed: Seq<char>,
    size: int,
    grid: Seq<bool>,
    history: Seq<(int, int, int)>,
    sx: int,
    sy: int,
    ex: int,
    ey: int,
    orient: int,
) -> (Seq<bool>, Seq<(int, int, int)>)
    decreases (2 * (ex - sx) + 1) * (2 * (ey - sy) + 1),
{
    if ex - sx < 1 || ey - sy < 1 {
        (grid, history)
    } else if orient == 0 {
        let wall_field = bounded_draw(seed, history, sy, ey - 1);
        let h1 = history.push(range_event(sy, ey - 1));
        let wall_row = wall_field * 2 + 2;
        let walled = with_row_wall(grid, size, wall_row, sx * 2 + 1, ex * 2 + 2);
        let passage_field = bounded_draw(seed, h1, sx, ex);
        let h2 = h1.push(range_event(sx, ex));
        let pierced = walled.update(cell(size, wall_row, passage_field * 2 + 1), false);
        let first = orientation_model(seed, h2, ex - sx, wall_field - sy);
        let second = orientation_model(seed, first.1, ex - sx, ey - (wall_field + 1));
        proof {
            lemma_chamber_split(ex - sx, ey - sy, wall_field - sy, ey - (wall_field + 1));
        }
        let upper = rd_divide(seed, size, pierced, second.1, sx, sy, ex, wall_field, first.0);
        rd_divide(seed, size, upper.0, upper.1, sx, wall_field + 1, ex, ey, second.0)
    } else {
        let wall_field = bounded_draw(seed, history, sx, ex - 1);
        let h1 = history.push(range_event(sx, ex - 1));
        let wall_col = wall_field * 2 + 2;
        let walled = with_col_wall(grid, size, wall_col, sy * 2 + 1, ey * 2 + 2);
        let passage_field = bounded_draw(seed, h1, sy, ey);
        let h2 = h1.push(range_event(sy, ey));
        let pierced = walled.update(cell(size, passage_field * 2 + 1, wall_col), false);
        let first = orientation_model(seed, h2, wall_field - sx, ey - sy);
        let second = orientation_model(seed, first.1, ex - (wall_field + 1), ey - sy);
        proof {
            lemma_chamber_split(ey - sy, ex - sx, wall_field - sx, ex - (wall_field + 1));
        }
        let left = rd_divide(seed, size, pierced, second.1, sx, sy, wall_field, ey, first.0);
        rd_divide(seed, size, left.0, left.1, wall_field + 1, sy, ex, ey, second.0)
    }
}

/// Splitting a span of `h` chambers at a drawn row leaves two spans `h1`
/// and `h2` whose measures are both strictly below the chamber's own.
pub proof fn lemma_chamber_split(w: int, h: int, h1: int, h2: int)
    requires
        1 <= w,
        1 <= h,
        h1 <= h - 1,
        h2 <= h - 1,
    ensures
        (2 * w + 1) * (2 * h1 + 1) < (2 * w + 1) * (2 * h + 1),
        (2 * w + 1) * (2 * h2 + 1) < (2 * w + 1) * (2 * h + 1),
        (2 * h1 + 1) * (2 * w + 1) < (2 * h + 1) * (2 * w + 1),
        (2 * h2 + 1) * (2 * w + 1) < (2 * h + 1) * (2 * w + 1),
        (2 * h1 + 1) * (2 * w + 1) < (2 * w + 1) * (2 * h + 1),
        (2 * h2 + 1) * (2 * w + 1) < (2 * w + 1) * (2 * h + 1),
{
    assert((2 * w + 1) * (2 * h1 + 1) < (2 * w + 1) * (2 * h + 1) && (2 * w + 1) * (2 * h2 + 1) < (
    2 * w + 1) * (2 * h + 1) && (2 * h1 + 1) * (2 * w + 1) < (2 * h + 1) * (2 * w + 1) && (2 * h2
        + 1) * (2 * w + 1) < (2 * h + 1) * (2 * w + 1) && (2 * h1 + 1) * (2 * w + 1) < (2 * w + 1)
        * (2 * h + 1) && (2 * h2 + 1) * (2 * w + 1) < (2 * w + 1) * (2 * h + 1)) by (nonlinear_arith)
        requires
            1 <= w,
            1 <= h,
            h1 <= h - 1,
            h2 <= h - 1,
    ;
}

/// The grid the divider produces for a seed and a starting call history:
/// the bordered grid divided from the full chamber rectangle with a drawn
/// first orientation.
pub open spec fn rd_model(seed: Seq<char>, h0: Seq<(int, int, int)>, size: int) -> (
    Seq<bool>,
    Seq<(int, int, int)>,
) {
    let fields = (size - 1) / 2;
    let code = bounded_draw(seed, h0, 0, 1);
    let h1 = h0.push(range_event(0, 1));
    rd_divide(seed, size, bordered_grid(size), h1, 0, 0, fields - 1, fields - 1, code)
}

/// Turns a bounded draw in `0..=1` into an orientation, as the seeded draw
/// of a random orientation does.
fn orientation_from_code(code: u8) -> (o: Orientation)
    ensures
        o == orientation_of_code(code as int),
{
    match code {
        0u8 => Orientation::Horizontal,
        _ => Orientation::Vertical,
    }
}

impl GeneratorRD {
    /// Remembers the edge length to divide.
    pub fn new(maze_size: usize) -> (r: GeneratorRD)
        ensures
            r.maze_size == maze_size,
    {
        GeneratorRD { maze_size }
    }

    /// Divides a fresh maze. The result is exactly what the seeded model
    /// assigns to the source's seed and call history — equal seeds give
    /// equal mazes — its outer ring is entirely wall, and the chamber cell
    /// `(1, 1)` is open.
    pub fn generate(&mut self, rng: &mut RandomSource) -> (maze: Vec<bool>)
        requires
            3 <= old(self).maze_size,
            old(self).maze_size % 2 == 1,
            old(self).maze_size * old(self).maze_size <= usize::MAX,
        ensures
            *final(self) == *old(self),
            final(rng).seed() == old(rng).seed(),
            (maze@, final(rng).history()) == rd_model(
                old(rng).seed(),
                old(rng).history(),
                old(self).maze_size as int,
            ),
            maze@.len() == old(self).maze_size * old(self).maze_size,
            border_all_wall(maze@, old(self).maze_size as int),
            forall|r: int, c: int|
                1 <= r <= old(self).maze_size - 2 && 1 <= c <= old(self).maze_size - 2 && r % 2
                    == 1 && c % 2 == 1 ==> !maze@[#[trigger] cell(old(self).maze_size as int, r, c)],
            has_open_interior(maze@, old(self).maze_size as int),
    {
        let size = self.maze_size;
        let ghost seed = rng.seed();
        let ghost h0 = rng.history();
        let ghost size_i = size as int;

        // Init array: open interior, walls on the outer ring
        let total = size * size;
        let mut maze_array: Vec<bool> = Vec::new();
        let mut i: usize = 0;
        while i < total
            invariant
                i <= total,
                total == size * size,
                3 <= size,
                size_i == size as int,
                maze_array@.len() == i,
                forall|j: int| 0 <= j < i ==> maze_array@[j] == ring_index(size_i, j),
            decreases total - i,
        {
            let row = i / size;
            let col = i % size;
            maze_array.push(row == 0 || row == size - 1 || col == 0 || col == size - 1);
            i = i + 1;
        }
        let ghost bordered0 = maze_array@;
        proof {
            assert(maze_array@ =~= bordered_grid(size_i));
            assert forall|r: int, c: int|
                1 <= r <= size_i - 2 && 1 <= c <= size_i - 2 implies !maze_array@[#[trigger] cell(
                size_i,
                r,
                c,
            )] by {
                lemma_cell_bounds(size_i, r, c);
            }
            assert(border_all_wall(maze_array@, size_i)) by {
                assert forall|row: int, col: int|
                    in_grid(size_i, row, col) && on_ring(size_i, row, col)
                        implies #[trigger] maze_array@[cell(size_i, row, col)] by {
                    lemma_cell_bounds(size_i, row, col);
                }
            }
        }

        // Count of chamber cells per axis: the cells with odd indices
        let maze_fields = (size - 1) / 2;

        let code = rng.draw_in_range(0, 1);
        let orientation = orientation_from_code(code as u8);

        self.divide_chamber(
            0,
            0,
            maze_fields - 1,
            maze_fields - 1,
            orientation,
            &mut maze_array,
            rng,
        );

        proof {
            assert forall|r: int, c: int|
                1 <= r <= size_i - 2 && 1 <= c <= size_i - 2 && r % 2 == 1 && c % 2 == 1
                    implies !maze_array@[#[trigger] cell(size_i, r, c)] by {
                lemma_cell_bounds(size_i, r, c);
                assert(!bordered0[cell(size_i, r, c)]);
            }
            assert(is_open_interior(maze_array@, size_i, 1, 1));
        }
        maze_array
    }

    /// One recursive division step, exactly as the model describes it.
    fn divide_chamber(
        &mut self,
        start_field_x: usize,
        start_field_y: usize,
        end_field_x: usize,
        end_field_y: usize,
        orientation: Orientation,
        maze_array: &mut Vec<bool>,
        rng: &mut RandomSource,
    )
        requires
            3 <= old(self).maze_size,
            start_field_x <= end_field_x,
            start_field_y <= end_field_y,
            2 * end_field_x + 2 < old(self).maze_size,
            2 * end_field_y + 2 < old(self).maze_size,
            old(self).maze_size * old(self).maze_size <= usize::MAX,
            old(maze_array)@.len() == old(self).maze_size * old(self).maze_size,
        ensures
            *final(self) == *old(self),
            final(rng).seed() == old(rng).seed(),
            (final(maze_array)@, final(rng).history()) == rd_divide(
                old(rng).seed(),
                old(self).maze_size as int,
                old(maze_array)@,
                old(rng).history(),
                start_field_x as int,
                start_field_y as int,
                end_field_x as int,
                end_field_y as int,
                orientation_code(orientation),
            ),
            final(maze_array)@.len() == old(maze_array)@.len(),
            border_all_wall(old(maze_array)@, old(self).maze_size as int) ==> border_all_wall(
                final(maze_array)@,
                old(self).maze_size as int,
            ),
            forall|r: int, c: int|
                in_grid(old(self).maze_size as int, r, c) && r % 2 == 1 && c % 2 == 1
                    ==> final(maze_array)@[#[trigger] cell(old(self).maze_size as int, r, c)]
                    == old(maze_array)@[cell(old(self).maze_size as int, r, c)],
        decreases (2 * (end_field_x - start_field_x) + 1) * (2 * (end_field_y - start_field_y)
            + 1),
    {
        let size = self.maze_size;
        let ghost seed = rng.seed();
        let ghost h0 = rng.history();
        let ghost size_i = size as int;
        let ghost g0 = maze_array@;
        let ghost sx = start_field_x as int;
        let ghost sy = start_field_y as int;
        let ghost ex = end_field_x as int;
        let ghost ey = end_field_y as int;

        if end_field_x - start_field_x < 1 || end_field_y - start_field_y < 1 {
            return ;
        }
        match orientation {
            Orientation::Horizontal => {
                let wall_field = rng.draw_in_range(start_field_y, end_field_y - 1);

                // The wall is drawn in the row next to the selected chamber row
                let wall_index = wall_field * 2 + 2;

                // Draw the horizontal wall
                let first_col = start_field_x * 2 + 1;
                let last_col = end_field_x * 2 + 2;
                let mut n = first_col;
                while n <= last_col
                    invariant
                        3 <= size,
                        size_i == size as int,
                        first_col == sx * 2 + 1,
                        last_col == ex * 2 + 2,
                        first_col <= n <= last_col + 1,
                        last_col < size,
                        2 <= wall_index as int == (wall_field as int) * 2 + 2 < size,
                        size * size <= usize::MAX,
                        maze_array@.len() == g0.len() == size * size,
                        forall|j: int|
                            0 <= j < maze_array@.len() ==> maze_array@[j] == (if j / size_i
                                == wall_index as int && first_col <= j % size_i < n {
                                true
                            } else {
                                g0[j]
                            }),
                    decreases last_col + 1 - n,
                {
                    proof {
                        lemma_cell_bounds(size_i, wall_index as int, n as int);
                    }
                    let ghost before = maze_array@;
                    maze_array.set(wall_index * size + n, true);
                    proof {
                        assert(maze_array@ == before.update(
                            cell(size_i, wall_index as int, n as int),
                            true,
                        ));
                        assert forall|j: int| 0 <= j < maze_array@.len() implies maze_array@[j]
                            == (if j / size_i == wall_index as int && first_col <= j % size_i < n
                            + 1 {
                            true
                        } else {
                            g0[j]
                        }) by {
                            vstd::arithmetic::div_mod::lemma_fundamental_div_mod(j, size_i);
                            assert(before[j] == (if j / size_i == wall_index as int && first_col
                                <= j % size_i < n {
                                true
                            } else {
                                g0[j]
                            }));
                            vstd::arithmetic::mul::lemma_mul_is_commutative(size_i, j / size_i);
                        }
                    }
                    n = n + 1;
                }
                proof {
                    assert(maze_array@ =~= with_row_wall(
                        g0,
                        size_i,
                        wall_index as int,
                        sx * 2 + 1,
                        ex * 2 + 2,
                    ));
                }

                // Select the chamber where the passage is opened
                let passage_field = rng.draw_in_range(start_field_x, end_field_x);
                let passage_col = passage_field * 2 + 1;
                proof {
                    lemma_cell_bounds(size_i, wall_index as int, passage_col as int);
                }
                maze_array.set(wall_index * size + passage_col, false);
                proof {
                    assert forall|r: int, c: int|
                        in_grid(size_i, r, c) && r % 2 == 1 && c % 2 == 1
                            implies maze_array@[#[trigger] cell(size_i, r, c)] == g0[cell(
                            size_i,
                            r,
                            c,
                        )] by {
                        lemma_cell_bounds(size_i, r, c);
                        if cell(size_i, r, c) == cell(
                            size_i,
                            wall_index as int,
                            passage_col as int,
                        ) {
                            lemma_cell_injective(
                                size_i,
                                r,
                                c,
                                wall_index as int,
                                passage_col as int,
                            );
                        }
                    }
                    if border_all_wall(g0, size_i) {
                        assert forall|row: int, col: int|
                            in_grid(size_i, row, col) && on_ring(size_i, row, col)
                                implies #[trigger] maze_array@[cell(size_i, row, col)] by {
                            lemma_cell_bounds(size_i, row, col);
                            if cell(size_i, row, col) == cell(
                                size_i,
                                wall_index as int,
                                passage_col as int,
                            ) {
                                lemma_cell_injective(
                                    size_i,
                                    row,
                                    col,
                                    wall_index as int,
                                    passage_col as int,
                                );
                            }
                            assert(g0[cell(size_i, row, col)]);
                        }
                    }
                }

                // The two chambers the wall divides get their own
                // orientations, then their own divisions
                let first_orientation = self.get_orientation(
                    start_field_x,
                    start_field_y,
                    end_field_x,
                    wall_field,
                    rng,
                );
                let second_orientation = self.get_orientation(
                    start_field_x,
                    wall_field + 1,
                    end_field_x,
                    end_field_y,
                    rng,
                );

                proof {
                    lemma_chamber_split(ex - sx, ey - sy, wall_field as int - sy, ey - (
                    wall_field as int + 1));
                }
                self.divide_chamber(
                    start_field_x,
                    start_field_y,
                    end_field_x,
                    wall_field,
                    first_orientation,
                    maze_array,
                    rng,
                );
                self.divide_chamber(
                    start_field_x,
                    wall_field + 1,
                    end_field_x,
                    end_field_y,
                    second_orientation,
                    maze_array,
                    rng,
                );
            },
            Orientation::Vertical => {
                let wall_field = rng.draw_in_range(start_field_x, end_field_x - 1);

                // Same as before but vertically
                let wall_index = wall_field * 2 + 2;

                let first_row = start_field_y * 2 + 1;
                let last_row = end_field_y * 2 + 2;
                let mut n = first_row;
                while n <= last_row
                    invariant
                        3 <= size,
                        size_i == size as int,
                        first_row == sy * 2 + 1,
                        last_row == ey * 2 + 2,
                        first_row <= n <= last_row + 1,
                        last_row < size,
                        2 <= wall_index as int == (wall_field as int) * 2 + 2 < size,
                        size * size <= usize::MAX,
                        maze_array@.len() == g0.len() == size * size,
                        forall|j: int|
                            0 <= j < maze_array@.len() ==> maze_array@[j] == (if j % size_i
                                == wall_index as int && first_row <= j / size_i < n {
                                true
                            } else {
                                g0[j]
                            }),
                    decreases last_row + 1 - n,
                {
                    proof {
                        lemma_cell_bounds(size_i, n as int, wall_index as int);
                    }
                    let ghost before = maze_array@;
                    maze_array.set(n * size + wall_index, true);
                    proof {
                        assert(maze_array@ == before.update(
                            cell(size_i, n as int, wall_index as int),
                            true,
                        ));
                        assert forall|j: int| 0 <= j < maze_array@.len() implies maze_array@[j]
                            == (if j % size_i == wall_index as int && first_row <= j / size_i < n
                            + 1 {
                            true
                        } else {
                            g0[j]
                        }) by {
                            vstd::arithmetic::div_mod::lemma_fundamental_div_mod(j, size_i);
                            assert(before[j] == (if j % size_i == wall_index as int && first_row
                                <= j / size_i < n {
                                true
                            } else {
                                g0[j]
                            }));
                            vstd::arithmetic::mul::lemma_mul_is_commutative(size_i, j / size_i);
                        }
                    }
                    n = n + 1;
                }
                proof {
                    assert(maze_array@ =~= with_col_wall(
                        g0,
                        size_i,
                        wall_index as int,
                        sy * 2 + 1,
                        ey * 2 + 2,
                    ));
                }

                let passage_field = rng.draw_in_range(start_field_y, end_field_y);
                let passage_row = passage_field * 2 + 1;
                proof {
                    lemma_cell_bounds(size_i, passage_row as int, wall_index as int);
                }
                maze_array.set(passage_row * size + wall_index, false);
                proof {
                    assert forall|r: int, c: int|
                        in_grid(size_i, r, c) && r % 2 == 1 && c % 2 == 1
                            implies maze_array@[#[trigger] cell(size_i, r, c)] == g0[cell(
                            size_i,
                            r,
                            c,
                        )] by {
                        lemma_cell_bounds(size_i, r, c);
                        if cell(size_i, r, c) == cell(
                            size_i,
                            passage_row as int,
                            wall_index as int,
                        ) {
                            lemma_cell_injective(
                                size_i,
                                r,
                                c,
                                passage_row as int,
                                wall_index as int,
                            );
                        }
                    }
                    if border_all_wall(g0, size_i) {
                        assert forall|row: int, col: int|
                            in_grid(size_i, row, col) && on_ring(size_i, row, col)
                                implies #[trigger] maze_array@[cell(size_i, row, col)] by {
                            lemma_cell_bounds(size_i, row, col);
                            if cell(size_i, row, col) == cell(
                                size_i,
                                passage_row as int,
                                wall_index as int,
                            ) {
                                lemma_cell_injective(
                                    size_i,
                                    row,
                                    col,
                                    passage_row as int,
                                    wall_index as int,
                                );
                            }
                            assert(g0[cell(size_i, row, col)]);
                        }
                    }
                }

                let first_orientation = self.get_orientation(
                    start_field_x,
                    start_field_y,
                    wall_field,
                    end_field_y,
                    rng,
                );
                let second_orientation = self.get_orientation(
                    wall_field + 1,
                    start_field_y,
                    end_field_x,
                    end_field_y,
                    rng,
                );

                proof {
                    lemma_chamber_split(ey - sy, ex - sx, wall_field as int - sx, ex - (
                    wall_field as int + 1));
                }
                self.divide_chamber(
                    start_field_x,
                    start_field_y,
                    wall_field,
                    end_field_y,
                    first_orientation,
                    maze_array,
                    rng,
                );
                self.divide_chamber(
                    wall_field + 1,
                    start_field_y,
                    end_field_x,
                    end_field_y,
                    second_orientation,
                    maze_array,
                    rng,
                );
            },
        }
    }

    /// The orientation for a chamber: vertical when wider, horizontal when
    /// taller, a draw when square — exactly as the model describes it.
    fn get_orientation(
        &mut self,
        start_field_x: usize,
        start_field_y: usize,
        end_field_x: usize,
        end_field_y: usize,
        rng: &mut RandomSource,
    ) -> (o: Orientation)
        requires
            start_field_x <= end_field_x,
            start_field_y <= end_field_y,
        ensures
            *final(self) == *old(self),
            final(rng).seed() == old(rng).seed(),
            orientation_code(o) == orientation_model(
                old(rng).seed(),
                old(rng).history(),
                end_field_x as int - start_field_x as int,
                end_field_y as int - start_field_y as int,
            ).0,
            final(rng).history() == orientation_model(
                old(rng).seed(),
                old(rng).history(),
                end_field_x as int - start_field_x as int,
                end_field_y as int - start_field_y as int,
            ).1,
    {
        let chamber_width = end_field_x - start_field_x;
        let chamber_height = end_field_y - start_field_y;

        if chamber_width > chamber_height {
            return Orientation::Vertical;
        }
        if chamber_width < chamber_height {
            return Orientation::Horizontal;
        }

        let code = rng.draw_in_range(0, 1);
        orientation_from_code(code as u8)
    }
}

} // verus!
