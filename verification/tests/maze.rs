use glmaze::maze_generator::flood_fill::flood_covers_all_open;
use glmaze::maze_generator::random_source::RandomSource;
use glmaze::maze_generator::{Direction, MazeGenerator, PointU32, SelectedGenerator};

/// Cells reachable from `start` through open cells, 4-adjacency.
fn flood_fill(grid: &Vec<bool>, size: usize, start: (usize, usize)) -> Vec<bool> {
    let mut visited = vec![false; size * size];
    let mut stack = vec![start];
    while let Some((x, y)) = stack.pop() {
        if visited[y * size + x] || grid[y * size + x] {
            continue;
        }
        visited[y * size + x] = true;
        if x > 0 {
            stack.push((x - 1, y));
        }
        if x + 1 < size {
            stack.push((x + 1, y));
        }
        if y > 0 {
            stack.push((x, y - 1));
        }
        if y + 1 < size {
            stack.push((x, y + 1));
        }
    }
    visited
}

fn open_cell_count(grid: &Vec<bool>) -> usize {
    grid.iter().filter(|wall| !**wall).count()
}

/// Number of 4-adjacency edges between open cells.
fn open_edge_count(grid: &Vec<bool>, size: usize) -> usize {
    let mut edges = 0;
    for y in 0..size {
        for x in 0..size {
            if grid[y * size + x] {
                continue;
            }
            if x + 1 < size && !grid[y * size + x + 1] {
                edges += 1;
            }
            if y + 1 < size && !grid[(y + 1) * size + x] {
                edges += 1;
            }
        }
    }
    edges
}

fn generated(kind: SelectedGenerator, size: usize, seed: &str) -> MazeGenerator {
    let mut generator = MazeGenerator::new(kind, size, String::from(seed));
    generator.generate_maze();
    generator
}

#[test]
fn dfs_size_11_seed_abc_generated_twice_is_identical() {
    let a = generated(SelectedGenerator::DFS, 11, "abc");
    let b = generated(SelectedGenerator::DFS, 11, "abc");
    assert_eq!(a.get_maze_array(), b.get_maze_array());
    assert_eq!(a.get_start_position(), b.get_start_position());
    assert_eq!(a.get_exit(), b.get_exit());
    assert_eq!(a.get_end_border(), b.get_end_border());
}

#[test]
fn rd_generated_twice_is_identical() {
    let a = generated(SelectedGenerator::RD, 21, "splitting");
    let b = generated(SelectedGenerator::RD, 21, "splitting");
    assert_eq!(a.get_maze_array(), b.get_maze_array());
    assert_eq!(a.get_start_position(), b.get_start_position());
    assert_eq!(a.get_exit(), b.get_exit());
    assert_eq!(a.get_end_border(), b.get_end_border());
}

#[test]
fn different_seeds_give_different_mazes() {
    let a = generated(SelectedGenerator::DFS, 15, "first seed");
    let b = generated(SelectedGenerator::DFS, 15, "second seed");
    assert_ne!(a.get_maze_array(), b.get_maze_array());
    let c = generated(SelectedGenerator::RD, 15, "first seed");
    let d = generated(SelectedGenerator::RD, 15, "second seed");
    assert_ne!(c.get_maze_array(), d.get_maze_array());
}

#[test]
fn rd_size_10_seed_x_reports_size_11() {
    let generator = generated(SelectedGenerator::RD, 10, "x");
    assert_eq!(generator.get_maze_size(), 11);
}

#[test]
fn rd_even_sizes_are_raised_by_one() {
    for size in [2usize, 4, 8, 20, 36] {
        let generator = generated(SelectedGenerator::RD, size, "even");
        assert_eq!(generator.get_maze_size(), size + 1);
    }
    for size in [3usize, 9, 21] {
        let generator = generated(SelectedGenerator::RD, size, "odd");
        assert_eq!(generator.get_maze_size(), size);
    }
}

#[test]
fn dfs_keeps_the_requested_size() {
    for size in [6usize, 10, 11, 24] {
        let generator = generated(SelectedGenerator::DFS, size, "kept");
        assert_eq!(generator.get_maze_size(), size);
    }
}

#[test]
fn rd_size_25_seed_test_flood_fill_covers_all_open_cells() {
    let generator = generated(SelectedGenerator::RD, 25, "test");
    let size = generator.get_maze_size();
    let grid = generator.get_maze_array();
    let PointU32(sx, sy) = generator.get_start_position();
    let visited = flood_fill(grid, size, (sx as usize, sy as usize));
    let reached = visited.iter().filter(|v| **v).count();
    assert_eq!(reached, open_cell_count(grid));
    let PointU32(ex, ey) = generator.get_exit();
    assert!(visited[ey as usize * size + ex as usize]);
    // The library's own verified traversal agrees
    assert!(flood_covers_all_open(grid, size, sy as usize, sx as usize));
}

#[test]
fn rd_flood_fill_covers_all_open_cells_for_many_seeds() {
    for seed in ["alpha", "beta", "gamma", "delta"] {
        let generator = generated(SelectedGenerator::RD, 17, seed);
        let size = generator.get_maze_size();
        let grid = generator.get_maze_array();
        let PointU32(sx, sy) = generator.get_start_position();
        let visited = flood_fill(grid, size, (sx as usize, sy as usize));
        let reached = visited.iter().filter(|v| **v).count();
        assert_eq!(reached, open_cell_count(grid));
        assert!(flood_covers_all_open(grid, size, sy as usize, sx as usize));
    }
}

#[test]
fn dfs_open_cells_form_a_tree() {
    // A perfect maze: connected, and edge count is open count minus one
    for seed in ["abc", "carver", "tree"] {
        let mut generator = MazeGenerator::new(SelectedGenerator::DFS, 15, String::from(seed));
        generator.generate_maze();
        let size = generator.get_maze_size();
        let grid = generator.get_maze_array();
        let PointU32(sx, sy) = generator.get_start_position();
        let visited = flood_fill(grid, size, (sx as usize, sy as usize));
        let reached = visited.iter().filter(|v| **v).count();
        let opens = open_cell_count(grid);
        assert_eq!(reached, opens);
        assert_eq!(open_edge_count(grid, size), opens - 1);
    }
}

#[test]
fn border_holds_exactly_one_hole_next_to_the_exit() {
    for (kind, size, seed) in [
        (SelectedGenerator::DFS, 11, "abc"),
        (SelectedGenerator::DFS, 20, "edge"),
        (SelectedGenerator::RD, 10, "x"),
        (SelectedGenerator::RD, 33, "ring"),
    ] {
        let generator = generated(kind, size, seed);
        let n = generator.get_maze_size();
        let grid = generator.get_maze_array();
        let mut holes = Vec::new();
        for y in 0..n {
            for x in 0..n {
                let on_ring = x == 0 || x == n - 1 || y == 0 || y == n - 1;
                if on_ring && !grid[y * n + x] {
                    holes.push((x, y));
                }
            }
        }
        assert_eq!(holes.len(), 1);
        let (hx, hy) = holes[0];
        let PointU32(ex, ey) = generator.get_exit();
        let (ex, ey) = (ex as usize, ey as usize);
        let expected_hole = match generator.get_end_border() {
            Direction::Top => (ex, ey - 1),
            Direction::Bottom => (ex, ey + 1),
            Direction::Left => (ex - 1, ey),
            Direction::Right => (ex + 1, ey),
        };
        assert_eq!((hx, hy), expected_hole);
        // The exit cell itself is open and interior
        assert!(!grid[ey * n + ex]);
        assert!(1 <= ex && ex <= n - 2);
        assert!(1 <= ey && ey <= n - 2);
    }
}

#[test]
fn start_is_open_and_interior() {
    for (kind, size, seed) in [
        (SelectedGenerator::DFS, 13, "start"),
        (SelectedGenerator::RD, 13, "start"),
        (SelectedGenerator::RD, 6, "tiny"),
        (SelectedGenerator::DFS, 6, "tiny"),
    ] {
        let generator = generated(kind, size, seed);
        let n = generator.get_maze_size();
        let grid = generator.get_maze_array();
        let PointU32(sx, sy) = generator.get_start_position();
        let (sx, sy) = (sx as usize, sy as usize);
        assert!(1 <= sx && sx <= n - 2);
        assert!(1 <= sy && sy <= n - 2);
        assert!(!grid[sy * n + sx]);
    }
}

#[test]
fn grid_has_size_squared_cells() {
    let generator = generated(SelectedGenerator::RD, 9, "area");
    let n = generator.get_maze_size();
    assert_eq!(generator.get_maze_array().len(), n * n);
    let generator = generated(SelectedGenerator::DFS, 9, "area");
    assert_eq!(generator.get_maze_array().len(), 81);
}

#[test]
fn flood_fill_reports_unreachable_cells() {
    // A walled 3x3 grid with only the centre open is fully covered from it
    let mut grid = vec![true; 9];
    grid[1 * 3 + 1] = false;
    assert!(flood_covers_all_open(&grid, 3, 1, 1));
    // An isolated open corner is not reachable from the centre
    grid[0] = false;
    assert!(!flood_covers_all_open(&grid, 3, 1, 1));
}

#[test]
fn draws_stay_in_their_range() {
    let mut rng = RandomSource::from_seed("bounds");
    for _ in 0..100 {
        let n = rng.draw_in_range(5, 9);
        assert!(5 <= n && n <= 9);
    }
}

#[test]
fn same_seed_gives_the_same_draws() {
    let mut a = RandomSource::from_seed("determined");
    let mut b = RandomSource::from_seed("determined");
    for _ in 0..32 {
        assert_eq!(a.draw_in_range(0, 1000), b.draw_in_range(0, 1000));
    }
    let mut c = RandomSource::from_seed("determined");
    let mut d = RandomSource::from_seed("something else");
    let mut differed = false;
    for _ in 0..32 {
        if c.draw_in_range(0, 1000) != d.draw_in_range(0, 1000) {
            differed = true;
        }
    }
    assert!(differed);
}

#[test]
fn seeded_shuffle_permutes() {
    let mut rng = RandomSource::from_seed("shuffle");
    let mut changed = false;
    for _ in 0..8 {
        let mut codes = vec![0u8, 1, 2, 3];
        rng.shuffle(&mut codes);
        let mut sorted = codes.clone();
        sorted.sort();
        assert_eq!(sorted, vec![0u8, 1, 2, 3]);
        if codes != vec![0u8, 1, 2, 3] {
            changed = true;
        }
    }
    assert!(changed);
}

#[test]
fn rd_chamber_cells_stay_open() {
    // Cells with two odd coordinates are the chamber cells of recursive
    // division; no wall is ever drawn over them
    let generator = generated(SelectedGenerator::RD, 19, "chambers");
    let n = generator.get_maze_size();
    let grid = generator.get_maze_array();
    for y in (1..n - 1).step_by(2) {
        for x in (1..n - 1).step_by(2) {
            assert!(!grid[y * n + x]);
        }
    }
}
