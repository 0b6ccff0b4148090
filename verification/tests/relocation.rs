use cli_boids::boids::simulation::{classify, relocate, sample_neighbors, NeighborKind};
use cli_boids::boids::{group_of, resize_grid};
use cli_boids::grid::{Grid, EMPTY};

fn entries(grid: &Grid<u16>, row: i32, column: i32) -> Vec<usize> {
    let mut entries = Vec::new();
    let mut iter = grid.iter_from_pos(column, row);
    while let Some(index) = iter.next() {
        entries.push(index);
    }
    entries
}

#[test]
fn relocate_moves_to_the_tail_of_the_new_cell() {
    let mut grid: Grid<u16> = Grid::new(3, 5, 5);
    grid.add_val(0, 2, 2);
    grid.add_val(1, 2, 2);
    grid.add_val(2, 3, 3);
    let sample = sample_neighbors(1, &grid, 2, 2);
    assert!(sample.in_cell);
    assert_eq!(sample.prev_index, 0);
    relocate(&mut grid, 1, sample.prev_index, 2, 2, 3, 3);
    assert_eq!(entries(&grid, 2, 2), vec![0]);
    assert_eq!(entries(&grid, 3, 3), vec![2, 1]);
    assert_eq!(grid.get_val(1), Ok(&1));
}

#[test]
fn relocate_within_a_cell_moves_to_its_tail() {
    let mut grid: Grid<u16> = Grid::new(3, 2, 2);
    grid.add_val(0, 1, 1);
    grid.add_val(1, 1, 1);
    grid.add_val(2, 1, 1);
    let sample = sample_neighbors(0, &grid, 1, 1);
    assert_eq!(sample.prev_index, EMPTY);
    relocate(&mut grid, 0, sample.prev_index, 1, 1, 1, 1);
    assert_eq!(entries(&grid, 1, 1), vec![1, 2, 0]);
    let sample = sample_neighbors(2, &grid, 1, 1);
    assert_eq!(sample.prev_index, 1);
    relocate(&mut grid, 2, sample.prev_index, 1, 1, 1, 1);
    assert_eq!(entries(&grid, 1, 1), vec![1, 0, 2]);
}

#[test]
fn relocate_out_of_the_grid_and_back() {
    let mut grid: Grid<u16> = Grid::new(2, 2, 2);
    grid.add_val(0, 0, 0);
    grid.add_val(1, 0, 0);
    let sample = sample_neighbors(1, &grid, 0, 0);
    assert!(sample.in_cell);
    relocate(&mut grid, 1, sample.prev_index, 0, 0, 0, -1);
    assert_eq!(entries(&grid, 0, 0), vec![0]);
    assert_eq!(grid.cell_of(1), EMPTY);
    // From outside of the grid to outside of the grid: nothing to do.
    let sample = sample_neighbors(1, &grid, 0, -1);
    assert!(!sample.in_cell);
    assert_eq!(sample.neighbors, vec![0]);
    relocate(&mut grid, 1, sample.prev_index, 0, -1, 0, -2);
    assert_eq!(grid.cell_of(1), EMPTY);
    // And back in.
    let sample = sample_neighbors(1, &grid, 0, -2);
    assert!(!sample.in_cell);
    relocate(&mut grid, 1, sample.prev_index, 0, -2, 1, 1);
    assert_eq!(entries(&grid, 1, 1), vec![1]);
    assert_eq!(grid.cell_of(1), 3);
}

#[test]
fn a_step_moves_every_boid_once() {
    // Every boid moves one column to the right, in arena order, as a step does.
    let columns = 4;
    let count = 12;
    let mut grid: Grid<u16> = Grid::new(count, columns, 1);
    let mut places = Vec::new();
    for index in 0..count {
        let column = (index % columns) as i32;
        grid.add_val(index as u16, 0, column);
        places.push(column);
    }
    for _ in 0..6 {
        for index in 0..count {
            let column = places[index];
            let sample = sample_neighbors(index, &grid, 0, column);
            assert_eq!(sample.in_cell, grid.index_from_pos(0, column) != EMPTY);
            assert!(!sample.neighbors.contains(&index));
            relocate(&mut grid, index, sample.prev_index, 0, column, 0, column + 1);
            places[index] = column + 1;
        }
        let mut linked = 0;
        for column in 0..columns as i32 {
            let chain = entries(&grid, 0, column);
            assert_eq!(grid.grid[column as usize].count as usize, chain.len());
            for index in chain {
                assert_eq!(places[index], column);
                linked += 1;
            }
        }
        let inside = places.iter().filter(|column| **column < columns as i32).count();
        assert_eq!(linked, inside);
    }
    for index in 0..count {
        assert_eq!(grid.cell_of(index), EMPTY);
    }
}

#[test]
fn resize_puts_every_value_in_the_cell_of_its_place() {
    let mut grid: Grid<u16> = Grid::new(6, 2, 2);
    grid.add_val(10, 0, 0);
    grid.add_val(11, 1, 1);
    grid.add_val(12, 5, 5);
    grid.add_val(13, 0, 0);
    grid.add_val(14, 1, 0);
    grid.add_val(15, 0, 0);
    let places = vec![(0, 0), (2, 3), (1, 1), (2, 3), (3, 0), (0, 4)];
    resize_grid(&mut grid, 4, 3, &places);
    assert_eq!(grid.rows, 3);
    assert_eq!(grid.columns, 4);
    assert_eq!(grid.grid.len(), 12);
    assert_eq!(grid.count, 6);
    for (index, place) in places.iter().enumerate() {
        assert_eq!(grid.cell_of(index), grid.index_from_pos(place.0, place.1));
        assert_eq!(grid.get_val(index), Ok(&(10 + index as u16)));
    }
    assert_eq!(grid.cell_of(0), 0);
    assert_eq!(grid.cell_of(1), 11);
    assert_eq!(grid.cell_of(2), 5);
    assert_eq!(grid.cell_of(3), 11);
    assert_eq!(grid.cell_of(4), EMPTY);
    assert_eq!(grid.cell_of(5), EMPTY);
    // Within a cell the values come in arena order.
    assert_eq!(entries(&grid, 2, 3), vec![1, 3]);
    assert_eq!(grid.grid[11].first, 1);
    assert_eq!(grid.grid[11].last, 3);
    assert_eq!(grid.grid[11].count, 2);
}

#[test]
fn resize_to_the_same_size_relinks_the_values() {
    let mut grid: Grid<u16> = Grid::new(3, 2, 2);
    grid.add_val(0, 0, 0);
    grid.add_val(1, 0, 0);
    grid.add_val(2, 0, 0);
    grid.unlink_val(1, 0, 0, 0);
    grid.link_val(1, 0, 0);
    assert_eq!(entries(&grid, 0, 0), vec![0, 2, 1]);
    resize_grid(&mut grid, 2, 2, &vec![(0, 0), (0, 0), (0, 0)]);
    assert_eq!(entries(&grid, 0, 0), vec![0, 1, 2]);
}

#[test]
fn resize_an_empty_grid() {
    let mut grid: Grid<u16> = Grid::new(0, 2, 2);
    resize_grid(&mut grid, 1, 5, &Vec::new());
    assert_eq!(grid.rows, 5);
    assert_eq!(grid.columns, 1);
    assert_eq!(grid.grid.len(), 5);
    assert_eq!(grid.count, 0);
}

#[test]
fn sampling_after_a_resize() {
    let mut grid: Grid<u16> = Grid::new(3, 1, 1);
    grid.add_val(0, 0, 0);
    grid.add_val(1, 0, 0);
    grid.add_val(2, 0, 0);
    resize_grid(&mut grid, 8, 1, &vec![(0, 0), (0, 2), (0, 3)]);
    let sample = sample_neighbors(0, &grid, 0, 0);
    assert_eq!(sample.neighbors, vec![1]);
    assert!(sample.in_cell);
    let sample = sample_neighbors(2, &grid, 0, 3);
    assert_eq!(sample.neighbors, vec![1]);
    assert_eq!(sample.prev_index, EMPTY);
}

#[test]
fn groups_take_turns() {
    assert_eq!(group_of(0, 1), 0);
    assert_eq!(group_of(17, 1), 0);
    assert_eq!(group_of(0, 3), 0);
    assert_eq!(group_of(1, 3), 1);
    assert_eq!(group_of(2, 3), 2);
    assert_eq!(group_of(3, 3), 0);
    assert_eq!(group_of(2999, 7), 3);
    assert_eq!(group_of(usize::MAX, 255), (usize::MAX % 255) as u8);
}

#[test]
fn two_boids_in_protected_range_separate() {
    // Two boids of one group at (0, 0) and (1, 0), with a protected range of 2
    // and a visible range of 5, in a world of 20 by 20: cells of 2.5 by 2.5.
    let protected_range = 2.0f32;
    let visible_range = 5.0f32;
    let separation = 0.05f32;
    let delta = 1.0f32;
    let mut positions = [(0.0f32, 0.0f32), (1.0f32, 0.0f32)];
    let cell = |position: (f32, f32)| {
        ((position.1 / 20.0 * 8.0) as i32, (position.0 / 20.0 * 8.0) as i32)
    };
    let mut grid: Grid<u16> = Grid::new(2, 8, 8);
    for position in positions {
        let (row, column) = cell(position);
        grid.add_val(0, row, column);
    }
    let before = positions[1].0 - positions[0].0;
    let mut accelerations = [0.0f32; 2];
    for index in 0..2 {
        let (row, column) = cell(positions[index]);
        let sample = sample_neighbors(index, &grid, row, column);
        assert_eq!(sample.neighbors, vec![1 - index]);
        let mut sep = 0.0f32;
        let mut prot_count = 0;
        for other in sample.neighbors {
            let diff = positions[other].0 - positions[index].0;
            let distance = diff * diff;
            let kind = classify(
                distance < protected_range * protected_range,
                distance < visible_range * visible_range,
                true,
            );
            assert_eq!(kind, NeighborKind::Protected);
            sep -= diff;
            prot_count += 1;
        }
        assert_eq!(prot_count, 1);
        accelerations[index] = sep / prot_count as f32 * separation;
    }
    // Each boid is pushed away from the other along x.
    assert!(accelerations[0] < 0.0);
    assert!(accelerations[1] > 0.0);
    for index in 0..2 {
        positions[index].0 += accelerations[index] * delta * delta;
    }
    assert!(positions[1].0 - positions[0].0 >= before);
}
