//! What a flock of boids asks of the grid it lives in.
//!
//! A boid looks at the cells around its own, at most [`CELLS_IN_RADIUS`]
//! cells away in each direction, and there at no more than [`MAX_SAMPLES`]
//! other boids, however crowded those cells are. [`sampling`] says which
//! boids these are; [`simulation`] picks them and moves a boid from cell to
//! cell.

use crate::grid::model::{lemma_rebuilt_places, lemma_rebuilt_shape, rebuilt};
use crate::grid::{Grid, ValueNode};
use vstd::prelude::*;

pub mod sampling;
pub mod settings;
pub mod simulation;

verus! {

/// The number of cells that must be checked in any direction to cover the
/// whole visible area of a boid.
pub const CELLS_IN_RADIUS: i32 = 2;

/// The largest number of other boids that a boid looks at in one step.
pub const MAX_SAMPLES: i32 = 300;

/// Resizes the grid to `columns` by `rows` cells and puts every boid into
/// the cell of its place: `places` gives, for each boid in arena order, the
/// row and the column that its position falls into in the new grid. The
/// boids keep their arena indices.
pub fn resize_grid<T>(
    grid: &mut Grid<T>,
    columns: usize,
    rows: usize,
    places: &Vec<(i32, i32)>,
)
    requires
        old(grid).wf(),
        places.len() == old(grid)@.values.len(),
        columns * rows <= i32::MAX,
    ensures
        final(grid).wf(),
        final(grid)@ == rebuilt(
            old(grid)@.values,
            places@,
            rows as nat,
            columns as nat,
            places.len() as nat,
        ),
        final(grid)@.values == old(grid)@.values,
        final(grid)@.rows == rows,
        final(grid)@.columns == columns,
        forall|index: int, cell: int|
            0 <= index < places.len() && 0 <= cell < final(grid)@.chains.len() ==> (
            #[trigger] final(grid)@.chains[cell].contains(index) <==> cell == final(grid)@.cell_index(
                places[index].0 as int,
                places[index].1 as int,
            )),
{
    let ghost values = grid@.values;
    assert(grid.count <= i32::MAX);
    let mut new_grid: Grid<T> = Grid::new(grid.count, columns, rows);
    let mut nodes: Vec<ValueNode<T>> = Vec::new();
    std::mem::swap(&mut grid.values, &mut nodes);
    assert(values =~= nodes@.map_values(|node: ValueNode<T>| node.val));

    // Move the boids from the old grid to the new one.
    let mut index: usize = 0;
    for node in moved: nodes.into_iter()
        invariant
            index == moved.index(),
            moved.seq().len() == places.len(),
            places.len() <= i32::MAX,
            values == moved.seq().map_values(|node: ValueNode<T>| node.val),
            new_grid.wf(),
            new_grid@ == rebuilt(values, places@, rows as nat, columns as nat, index as nat),
    {
        proof {
            lemma_rebuilt_shape(values, places@, rows as nat, columns as nat, index as nat);
        }
        let (grid_row, grid_column) = places[index];
        new_grid.add_val(node.val, grid_row, grid_column);
        index += 1;
    }
    *grid = new_grid;
    proof {
        let n = places.len() as nat;
        lemma_rebuilt_shape(values, places@, rows as nat, columns as nat, n);
        assert(values.take(n as int) =~= values);
        assert forall|index: int, cell: int|
            0 <= index < places.len() && 0 <= cell < grid@.chains.len() implies (
        #[trigger] grid@.chains[cell].contains(index) <==> cell == grid@.cell_index(
            places[index].0 as int,
            places[index].1 as int,
        )) by {
            lemma_rebuilt_places(values, places@, rows as nat, columns as nat, n, index);
        }
    }
}

/// The group of the boid that is created as number `index` among the boids
/// of `group_count` groups: the groups take their turns.
pub fn group_of(index: usize, group_count: u8) -> (group: u8)
    requires
        group_count > 0,
    ensures
        group == index % (group_count as usize),
        group < group_count,
{
    (index % group_count as usize) as u8
}

} // verus!
