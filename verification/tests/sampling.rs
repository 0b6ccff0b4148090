use cli_boids::boids::sampling::{CENTER, LOCAL_GRID_SIZE, LOCAL_GRID_WIDTH};
use cli_boids::boids::simulation::sample_neighbors;
use cli_boids::boids::{CELLS_IN_RADIUS, MAX_SAMPLES};
use cli_boids::grid::{Grid, EMPTY};

/// A grid of one cell with `count` values in it. Its chain runs from the
/// value added first to the value added last.
fn crowd(count: usize) -> Grid<u8> {
    let mut grid: Grid<u8> = Grid::new(count, 1, 1);
    for _ in 0..count {
        grid.add_val(0, 0, 0);
    }
    grid
}

/// The indices from `from` up to `to`, both included.
fn up(from: usize, to: usize) -> Vec<usize> {
    (from..=to).collect()
}

#[test]
fn window_constants() {
    assert_eq!(CELLS_IN_RADIUS, 2);
    assert_eq!(MAX_SAMPLES, 300);
    assert_eq!(LOCAL_GRID_WIDTH, 2 * CELLS_IN_RADIUS as usize + 1);
    assert_eq!(LOCAL_GRID_SIZE, LOCAL_GRID_WIDTH * LOCAL_GRID_WIDTH);
    assert_eq!(CENTER, LOCAL_GRID_SIZE / 2);
}

#[test]
fn empty_window_gives_nothing() {
    let grid = crowd(0);
    let sample = sample_neighbors(0, &grid, 0, 0);
    assert!(sample.neighbors.is_empty());
    assert_eq!(sample.prev_index, EMPTY);
    assert!(!sample.in_cell);
}

#[test]
fn lone_boid_has_no_neighbors() {
    let grid = crowd(1);
    let sample = sample_neighbors(0, &grid, 0, 0);
    assert!(sample.neighbors.is_empty());
    assert_eq!(sample.prev_index, EMPTY);
    assert!(sample.in_cell);
}

#[test]
fn lone_boid_among_far_boids_has_no_neighbors() {
    let mut grid: Grid<u8> = Grid::new(5, 9, 9);
    grid.add_val(0, 4, 4);
    grid.add_val(0, 1, 4);
    grid.add_val(0, 7, 4);
    grid.add_val(0, 4, 1);
    grid.add_val(0, 4, 7);
    let sample = sample_neighbors(0, &grid, 4, 4);
    assert!(sample.neighbors.is_empty());
    assert_eq!(sample.prev_index, EMPTY);
    assert!(sample.in_cell);
}

#[test]
fn two_boids_in_one_cell_see_each_other() {
    let mut grid: Grid<u8> = Grid::new(2, 5, 5);
    grid.add_val(0, 2, 2);
    grid.add_val(1, 2, 2);
    // The chain of the cell is 0, 1: a new value is put behind the others.
    let first = sample_neighbors(0, &grid, 2, 2);
    assert_eq!(first.neighbors, vec![1]);
    assert_eq!(first.prev_index, EMPTY);
    assert!(first.in_cell);
    let second = sample_neighbors(1, &grid, 2, 2);
    assert_eq!(second.neighbors, vec![0]);
    assert_eq!(second.prev_index, 0);
    assert!(second.in_cell);
}

#[test]
fn two_boids_one_unit_apart_see_each_other() {
    // A world of 20 by 20 with a visible range of 5 has cells of 2.5 by 2.5:
    // the boids at (0, 0) and (1, 0) both lie in the cell at row 0, column 0.
    let mut grid: Grid<u8> = Grid::new(2, 8, 8);
    grid.add_val(0, 0, 0);
    grid.add_val(0, 0, 0);
    for index in 0..2 {
        let sample = sample_neighbors(index, &grid, 0, 0);
        assert_eq!(sample.neighbors, vec![1 - index]);
        assert!(sample.in_cell);
    }
}

#[test]
fn window_reaches_two_cells_and_no_further() {
    let mut grid: Grid<u8> = Grid::new(9, 7, 7);
    grid.add_val(0, 3, 3); // 0: the subject
    grid.add_val(0, 1, 1); // 1: two cells up and left
    grid.add_val(0, 5, 5); // 2: two cells down and right
    grid.add_val(0, 3, 5); // 3: two cells right
    grid.add_val(0, 0, 3); // 4: three cells up
    grid.add_val(0, 3, 6); // 5: three cells right
    grid.add_val(0, 6, 3); // 6: three cells down
    grid.add_val(0, 3, 0); // 7: three cells left
    grid.add_val(0, 0, 0); // 8: three cells up and left
    let sample = sample_neighbors(0, &grid, 3, 3);
    assert_eq!(sample.neighbors, vec![1, 3, 2]);
    assert_eq!(sample.prev_index, EMPTY);
    assert!(sample.in_cell);
}

#[test]
fn window_is_walked_row_by_row() {
    let mut grid: Grid<u8> = Grid::new(6, 7, 7);
    grid.add_val(0, 5, 5); // 0: the last cell of the window
    grid.add_val(0, 3, 3); // 1: the subject's own cell
    grid.add_val(0, 1, 5); // 2: the end of the first row
    grid.add_val(0, 1, 1); // 3: the first cell of the window
    grid.add_val(0, 3, 3); // 4: the subject
    grid.add_val(0, 3, 2); // 5: left of the subject
    let sample = sample_neighbors(4, &grid, 3, 3);
    assert_eq!(sample.neighbors, vec![3, 2, 5, 1, 0]);
    assert_eq!(sample.prev_index, 1);
    assert!(sample.in_cell);
    let other = sample_neighbors(1, &grid, 3, 3);
    assert_eq!(other.neighbors, vec![3, 2, 5, 4, 0]);
    assert_eq!(other.prev_index, EMPTY);
}

#[test]
fn window_at_the_corner_of_the_grid() {
    let mut grid: Grid<u8> = Grid::new(4, 3, 3);
    grid.add_val(0, 0, 0);
    grid.add_val(0, 2, 2);
    grid.add_val(0, 0, 2);
    grid.add_val(0, 2, 0);
    let sample = sample_neighbors(0, &grid, 0, 0);
    assert_eq!(sample.neighbors, vec![2, 3, 1]);
    assert!(sample.in_cell);
    let opposite = sample_neighbors(1, &grid, 2, 2);
    assert_eq!(opposite.neighbors, vec![0, 2, 3]);
    assert!(opposite.in_cell);
}

#[test]
fn boid_outside_of_the_grid_sees_the_cells_in_reach() {
    let mut grid: Grid<u8> = Grid::new(4, 3, 3);
    grid.add_val(0, -1, 1); // 0: the subject, one row above the grid
    grid.add_val(0, 0, 0); // 1
    grid.add_val(0, 1, 2); // 2
    grid.add_val(0, 2, 1); // 3: three rows below the subject
    let sample = sample_neighbors(0, &grid, -1, 1);
    assert_eq!(sample.neighbors, vec![1, 2]);
    assert_eq!(sample.prev_index, EMPTY);
    assert!(!sample.in_cell);
}

#[test]
fn boid_far_outside_of_the_grid_sees_nothing() {
    let mut grid: Grid<u8> = Grid::new(2, 3, 3);
    grid.add_val(0, 100, 100);
    grid.add_val(0, 1, 1);
    for (row, column) in [
        (100, 100),
        (-3, 1),
        (1, 5),
        (i32::MIN, 0),
        (0, i32::MIN),
        (i32::MAX, i32::MAX),
        (i32::MIN + 1, i32::MAX - 1),
    ] {
        let sample = sample_neighbors(0, &grid, row, column);
        assert!(sample.neighbors.is_empty());
        assert_eq!(sample.prev_index, EMPTY);
        assert!(!sample.in_cell);
    }
}

#[test]
fn boid_that_is_not_in_the_named_cell() {
    let mut grid: Grid<u8> = Grid::new(3, 2, 1);
    grid.add_val(0, 0, 0);
    grid.add_val(0, 0, 0);
    grid.add_val(0, 0, 1);
    // The boid 1 lies in the cell at column 0, behind the boid 0.
    let sample = sample_neighbors(1, &grid, 0, 1);
    assert!(!sample.in_cell);
    assert_eq!(sample.neighbors, vec![0, 2]);
    assert_eq!(sample.prev_index, 0);
    let right = sample_neighbors(1, &grid, 0, 0);
    assert!(right.in_cell);
    assert_eq!(right.neighbors, vec![0, 2]);
    assert_eq!(right.prev_index, 0);
}

#[test]
fn window_of_max_samples_is_walked_whole() {
    let grid = crowd(300);
    let first = sample_neighbors(0, &grid, 0, 0);
    assert_eq!(first.neighbors, up(1, 299));
    assert_eq!(first.prev_index, EMPTY);
    assert!(first.in_cell);
    let last = sample_neighbors(299, &grid, 0, 0);
    assert_eq!(last.neighbors, up(0, 298));
    assert_eq!(last.prev_index, 298);
    let middle = sample_neighbors(150, &grid, 0, 0);
    assert_eq!(middle.neighbors.len(), 299);
    assert_eq!(middle.neighbors[149], 149);
    assert_eq!(middle.neighbors[150], 151);
    assert_eq!(middle.prev_index, 149);
}

#[test]
fn window_of_ten_times_max_samples() {
    let grid = crowd(3000);
    // The stride is ten boids: the walk leaves the cell after 300 visits.
    let behind = sample_neighbors(2999, &grid, 0, 0);
    assert_eq!(behind.neighbors, up(0, 299));
    assert_eq!(behind.prev_index, 2998);
    assert!(behind.in_cell);
    let first = sample_neighbors(0, &grid, 0, 0);
    assert_eq!(first.neighbors, up(1, 299));
    assert_eq!(first.prev_index, EMPTY);
    assert!(first.in_cell);
    let visited = sample_neighbors(150, &grid, 0, 0);
    assert_eq!(visited.neighbors.len(), 299);
    assert_eq!(visited.prev_index, 149);
    let edge = sample_neighbors(299, &grid, 0, 0);
    assert_eq!(edge.neighbors, up(0, 298));
    assert_eq!(edge.prev_index, 298);
    let beyond = sample_neighbors(300, &grid, 0, 0);
    assert_eq!(beyond.neighbors, up(0, 299));
    assert_eq!(beyond.prev_index, 299);
}

#[test]
fn window_of_a_thousand_times_max_samples() {
    let grid = crowd(300_000);
    let behind = sample_neighbors(299_999, &grid, 0, 0);
    assert_eq!(behind.neighbors, up(0, 299));
    assert_eq!(behind.prev_index, 299_998);
    assert!(behind.in_cell);
    let first = sample_neighbors(0, &grid, 0, 0);
    assert_eq!(first.neighbors.len(), 299);
    assert_eq!(first.prev_index, EMPTY);
}

#[test]
fn sample_never_exceeds_max_samples() {
    for count in [0, 1, 2, 299, 300, 301, 450, 599, 600, 601, 3000, 3001, 30_000] {
        let grid = crowd(count);
        for index in [0, count / 2, count.saturating_sub(1)] {
            let sample = sample_neighbors(index, &grid, 0, 0);
            assert!(sample.neighbors.len() <= MAX_SAMPLES as usize);
            assert!(sample.neighbors.len() <= count);
            assert!(!sample.neighbors.contains(&index));
            if count <= MAX_SAMPLES as usize && index < count {
                assert_eq!(sample.neighbors.len(), count - 1);
            }
            if index < count {
                assert!(sample.in_cell);
                assert_eq!(sample.prev_index, index as i32 - 1);
            }
        }
    }
}

#[test]
fn stride_between_one_and_two() {
    // 450 boids: a stride of one and a half, so that two of three are visited.
    let grid = crowd(450);
    let sample = sample_neighbors(449, &grid, 0, 0);
    assert_eq!(sample.neighbors, up(0, 299));
    assert_eq!(sample.prev_index, 448);
}

#[test]
fn stride_runs_on_from_cell_to_cell() {
    let mut grid: Grid<u8> = Grid::new(600, 2, 1);
    for _ in 0..400 {
        grid.add_val(0, 0, 0);
    }
    for _ in 0..200 {
        grid.add_val(0, 0, 1);
    }
    // 600 boids give a stride of two. The first cell is left after 200 visits,
    // at a total of 400; the second after 100 more, at a total of 600.
    let first = sample_neighbors(0, &grid, 0, 0);
    let mut expected = up(1, 199);
    expected.extend(up(400, 499));
    assert_eq!(first.neighbors, expected);
    assert_eq!(first.prev_index, EMPTY);
    assert!(first.in_cell);
    // The boid 399 lies behind the visited part of its chain. Meeting it there
    // adds a stride to the total, which costs the second cell one visit.
    let behind = sample_neighbors(399, &grid, 0, 0);
    let mut expected = up(0, 199);
    expected.extend(up(400, 498));
    assert_eq!(behind.neighbors, expected);
    assert_eq!(behind.prev_index, 398);
    assert!(behind.in_cell);
    // Seen from the second cell the first one comes first in the window all the same.
    let other = sample_neighbors(400, &grid, 0, 1);
    let mut expected = up(0, 199);
    expected.extend(up(401, 499));
    assert_eq!(other.neighbors, expected);
    assert_eq!(other.prev_index, EMPTY);
    assert!(other.in_cell);
}

/// The walk with the running total, the stride and the bounds held as
/// floating point numbers of whole boids.
fn float_walk(index: usize, grid: &Grid<u8>, grid_row: i32, grid_column: i32) -> (Vec<usize>, i32) {
    let width = LOCAL_GRID_WIDTH as i32;
    let mut bins = [0.0f32; LOCAL_GRID_SIZE];
    let mut indices = [EMPTY; LOCAL_GRID_SIZE];
    for r_offset in 0..width {
        for c_offset in 0..width {
            let row = grid_row - CELLS_IN_RADIUS + r_offset;
            let column = grid_column - CELLS_IN_RADIUS + c_offset;
            let i = (c_offset + r_offset * width) as usize;
            indices[i] = grid.index_from_pos(row, column);
            let here = match grid.get_grid_node(row, column) {
                Some(node) => node.count as f32,
                None => 0.0,
            };
            bins[i] = here + if i == 0 { 0.0 } else { bins[i - 1] };
        }
    }
    let increment = (bins[LOCAL_GRID_SIZE - 1] / MAX_SAMPLES as f32).max(1.0);
    let mut acc = 0.0f32;
    let mut neighbors = Vec::new();
    let mut prev_index = EMPTY;
    let mut prev_found = false;
    for current_bin in 0..LOCAL_GRID_SIZE {
        let mut local_prev_index = EMPTY;
        let mut cell = grid.iter_from_index(indices[current_bin]);
        while let Some(boid_index) = cell.next() {
            if acc >= bins[current_bin] && (current_bin != CENTER || prev_found) {
                break;
            }
            if boid_index == index {
                prev_found = true;
                acc += increment;
                prev_index = local_prev_index;
                continue;
            }
            local_prev_index = boid_index as i32;
            if acc >= bins[current_bin] {
                continue;
            }
            neighbors.push(boid_index);
            acc += increment;
        }
    }
    (neighbors, prev_index)
}

#[test]
fn exact_strides_agree_with_floating_point() {
    let mut state: u32 = 2024;
    let mut next = move |bound: u32| {
        state = state.wrapping_mul(1664525).wrapping_add(1013904223);
        (state >> 8) % bound
    };
    // No more than 300 boids in all: the stride is one, wherever the window lies.
    for count in [0usize, 1, 7, 150, 300] {
        let mut grid: Grid<u8> = Grid::new(count, 6, 6);
        for _ in 0..count {
            grid.add_val(0, next(8) as i32 - 1, next(8) as i32 - 1);
        }
        for _ in 0..20 {
            let index = if count == 0 { 0 } else { next(count as u32) as usize };
            let row = next(8) as i32 - 1;
            let column = next(8) as i32 - 1;
            let sample = sample_neighbors(index, &grid, row, column);
            let (neighbors, prev_index) = float_walk(index, &grid, row, column);
            assert_eq!(sample.neighbors, neighbors);
            assert_eq!(sample.prev_index, prev_index);
        }
    }
    // All boids in one window, in a number that gives a stride that floating
    // point holds exactly: 1.5, 2, 2.5, 4, 8, 16, 32.
    for count in [450usize, 600, 750, 1200, 2400, 4800, 9600] {
        let mut grid: Grid<u8> = Grid::new(count, 3, 3);
        for _ in 0..count {
            grid.add_val(0, next(3) as i32, next(3) as i32);
        }
        for _ in 0..20 {
            let index = next(count as u32) as usize;
            let sample = sample_neighbors(index, &grid, 1, 1);
            let (neighbors, prev_index) = float_walk(index, &grid, 1, 1);
            assert_eq!(sample.neighbors, neighbors);
            assert_eq!(sample.prev_index, prev_index);
        }
    }
    for count in [300usize, 450, 600, 1200, 2400, 4800, 9600] {
        let grid = crowd(count);
        for index in [0, 1, count / 3, count / 2, count - 2, count - 1] {
            let sample = sample_neighbors(index, &grid, 0, 0);
            let (neighbors, prev_index) = float_walk(index, &grid, 0, 0);
            assert_eq!(sample.neighbors, neighbors);
            assert_eq!(sample.prev_index, prev_index);
        }
    }
}
