//! The part of a boid's step that works on the grid: picking the neighbours
//! that the boid looks at, and moving the boid to the cell of its new place.

use crate::boids::sampling::steps::{
    last_other, lemma_met_at, lemma_part_way_enter, lemma_part_way_leave, lemma_part_way_meet,
    lemma_part_way_pass, lemma_part_way_visit, lemma_take_next, part_way,
};
use crate::boids::sampling::{
    lemma_neighbors_from_window, lemma_sparse_window, lemma_walk_bounded,
    lemma_walk_finds_subject, sample_of, slot_cell, slot_chain, slot_column, slot_row, stride,
    visit_cell, walk, window_count, window_others, Walk, CENTER, LOCAL_GRID_SIZE,
    LOCAL_GRID_WIDTH,
};
use crate::boids::{CELLS_IN_RADIUS, MAX_SAMPLES};
use crate::grid::links::linked;
use crate::grid::{Grid, EMPTY};
use vstd::prelude::*;

verus! {

/// What a boid learns from the grid around it.
pub struct NeighborSample {
    /// The arena indices of the boids that it looks at, in the order of the walk.
    pub neighbors: Vec<usize>,
    /// The arena index of the value before the boid in the chain where the
    /// walk met it, [`Grid::EMPTY`] if it is the first there or was not met.
    pub prev_index: i32,
    /// Whether the walk met the boid in the cell at the centre of the window.
    pub in_cell: bool,
}

/// What a boid makes of another boid that it looks at.
#[derive(Clone, Copy, Debug, PartialEq, Eq)]
pub enum NeighborKind {
    /// The other boid is too close: the boid steers away from it.
    Protected,
    /// The other boid is a visible member of the boid's group: the boid
    /// steers towards it and matches its velocity.
    Visible,
    /// The other boid has no influence on the boid.
    Ignored,
}

/// Decides what a boid makes of another boid, given whether that boid lies
/// within its protected range, whether it lies within its visible range, and
/// whether the two belong to one group. Being too close counts before all else;
/// a boid of another group is never followed.
pub fn classify(in_protected_range: bool, in_visible_range: bool, same_group: bool) -> (kind:
    NeighborKind)
    ensures
        kind is Protected <==> in_protected_range,
        kind is Visible <==> !in_protected_range && in_visible_range && same_group,
        kind is Ignored <==> !in_protected_range && !(in_visible_range && same_group),
{
    if in_protected_range {
        NeighborKind::Protected
    } else if in_visible_range && same_group {
        NeighborKind::Visible
    } else {
        NeighborKind::Ignored
    }
}

/// The arena indices of `indices` as plain numbers.
pub open spec fn as_ints(indices: Seq<usize>) -> Seq<int> {
    indices.map_values(|i: usize| i as int)
}

/// The walk that has gathered what the sampler holds in its variables.
spec fn gathered(
    acc: u64,
    found: bool,
    prev: i32,
    in_cell: bool,
    neighbors: Seq<usize>,
) -> Walk {
    Walk { acc: acc as int, found, prev: prev as int, in_cell, neighbors: as_ints(neighbors) }
}

/// A number that no count of the boids of a window reaches: the window has
/// [`LOCAL_GRID_SIZE`] cells, and a cell counts its boids in 32 bits.
spec fn crowd() -> int {
    25 * 0x1_0000_0000int
}

/// A number that the running total does not pass while the walk is in the
/// first `slots` cells of the window.
spec fn reach(slots: int) -> int {
    MAX_SAMPLES * crowd() + slots * crowd()
}

/// Returns the index of the cell at `row` and `column`, which may lie far
/// off the grid, or [`Grid::EMPTY`] if they do.
fn cell_at<T>(grid: &Grid<T>, row: i64, column: i64) -> (cell: i32)
    requires
        grid.wf(),
    ensures
        cell == grid@.cell_index(row as int, column as int),
        cell == EMPTY || 0 <= cell < grid@.chains.len(),
{
    if row < 0 || row > i32::MAX as i64 || column < 0 || column > i32::MAX as i64 {
        proof {
            if grid@.in_grid(row as int, column as int) {
                grid@.lemma_cell_index(row as int, column as int);
                assert(row * grid@.columns >= row) by (nonlinear_arith)
                    requires
                        row >= 0,
                        grid@.columns >= 1,
                ;
            }
        }
        EMPTY
    } else {
        grid.index_from_pos(row as i32, column as i32)
    }
}

/// Picks the boids that the boid with the given `index` looks at: a sample
/// of those in the cells up to [`CELLS_IN_RADIUS`] away from the cell at
/// `grid_row` and `grid_column`, of no more than [`MAX_SAMPLES`] boids. On
/// the way it finds the value before the boid in the chain of that cell,
/// which [`Grid::unlink_val`] asks for.
pub fn sample_neighbors<T>(index: usize, grid: &Grid<T>, grid_row: i32, grid_column: i32) -> (sample:
    NeighborSample)
    requires
        grid.wf(),
    ensures
        as_ints(sample.neighbors@) == sample_of(
            grid@,
            index as int,
            grid_row as int,
            grid_column as int,
        ).neighbors,
        sample.prev_index == sample_of(
            grid@,
            index as int,
            grid_row as int,
            grid_column as int,
        ).prev,
        sample.in_cell == sample_of(
            grid@,
            index as int,
            grid_row as int,
            grid_column as int,
        ).in_cell,
        sample.neighbors.len() <= MAX_SAMPLES,
        window_count(grid@, grid_row as int, grid_column as int, LOCAL_GRID_SIZE as nat)
            <= MAX_SAMPLES ==> as_ints(sample.neighbors@) == window_others(
            grid@,
            index as int,
            grid_row as int,
            grid_column as int,
            LOCAL_GRID_SIZE as nat,
        ),
        forall|i: int|
            0 <= i < sample.neighbors.len() ==> #[trigger] sample.neighbors[i] != index
                && sample.neighbors[i] < grid@.values.len(),
        sample.in_cell <==> grid@.chain(
            grid@.cell_index(grid_row as int, grid_column as int),
        ).contains(index as int),
        sample.in_cell ==> grid@.precedes(
            grid@.cell_index(grid_row as int, grid_column as int),
            sample.prev_index as int,
            index as int,
        ),
{
    let ghost view = grid@;
    let ghost row = grid_row as int;
    let ghost column = grid_column as int;
    let ghost subject = index as int;
    let left_border = grid_column as i64 - CELLS_IN_RADIUS as i64;
    let top_border = grid_row as i64 - CELLS_IN_RADIUS as i64;

    // Cumulative boid count for density proportional sampling.
    let mut bins = [0u64; LOCAL_GRID_SIZE];
    // Cell indices of the surrounding cells.
    let mut indices = [EMPTY; LOCAL_GRID_SIZE];

    // Collect the cell index and the count of each cell in range.
    let mut slot: usize = 0;
    while slot < LOCAL_GRID_SIZE
        invariant
            grid.wf(),
            view == grid@,
            slot <= LOCAL_GRID_SIZE,
            row == grid_row,
            column == grid_column,
            left_border == column - CELLS_IN_RADIUS,
            top_border == row - CELLS_IN_RADIUS,
            window_count(view, row, column, slot as nat) <= slot * 0x1_0000_0000int,
            forall|s: int|
                0 <= s < slot ==> indices[s] == slot_cell(view, row, column, s) && bins[s]
                    == window_count(view, row, column, (s + 1) as nat) && bins[s] <= crowd(),
        decreases LOCAL_GRID_SIZE - slot,
    {
        let other_row = top_border + (slot / LOCAL_GRID_WIDTH) as i64;
        let other_column = left_border + (slot % LOCAL_GRID_WIDTH) as i64;
        let cell_index = cell_at(grid, other_row, other_column);
        let here = if cell_index != EMPTY {
            assert(linked(
                grid.values@,
                grid.grid[cell_index as int],
                view.chains[cell_index as int],
            ));
            grid.grid[cell_index as usize].count as u64
        } else {
            0
        };
        let before = if slot == 0 {
            0
        } else {
            bins[slot - 1]
        };
        indices[slot] = cell_index;
        bins[slot] = here + before;
        slot += 1;
    }

    let total = bins[LOCAL_GRID_SIZE - 1];
    let increment = if total > MAX_SAMPLES as u64 {
        total
    } else {
        MAX_SAMPLES as u64
    };
    let mut acc: u64 = 0;
    let mut neighbors: Vec<usize> = Vec::new();
    let mut prev_index: i32 = EMPTY;
    let mut prev_found = false;
    let mut in_cell = false;
    let ghost step = stride(window_count(view, row, column, LOCAL_GRID_SIZE as nat));
    assert(step == increment);
    assert(as_ints(neighbors@) =~= Seq::<int>::empty());

    // Walk through the surrounding cells.
    let mut current_bin: usize = 0;
    while current_bin < LOCAL_GRID_SIZE
        invariant
            grid.wf(),
            view == grid@,
            subject == index,
            current_bin <= LOCAL_GRID_SIZE,
            step == increment,
            0 < increment <= crowd(),
            step == stride(window_count(view, row, column, LOCAL_GRID_SIZE as nat)),
            forall|s: int|
                0 <= s < LOCAL_GRID_SIZE ==> indices[s] == slot_cell(view, row, column, s)
                    && bins[s] == window_count(view, row, column, (s + 1) as nat) && bins[s]
                    <= crowd(),
            acc <= reach(current_bin + 1),
            gathered(acc, prev_found, prev_index, in_cell, neighbors@) == walk(
                view,
                subject,
                row,
                column,
                current_bin as nat,
            ),
        decreases LOCAL_GRID_SIZE - current_bin,
    {
        let cell_index = indices[current_bin];
        assert(bins[current_bin as int] <= crowd());
        let bound = bins[current_bin] * MAX_SAMPLES as u64;
        let own = current_bin == CENTER;
        let mut local_prev_index: i32 = EMPTY;
        let ghost before = walk(view, subject, row, column, current_bin as nat);
        let ghost chain = slot_chain(view, row, column, current_bin as int);
        let ghost mut looked: int = 0;
        proof {
            view.lemma_cell_index(
                slot_row(row, current_bin as int),
                slot_column(column, current_bin as int),
            );
        }
        let mut cell_iter = grid.iter_from_index(cell_index);
        proof {
            lemma_part_way_enter(before, chain, bound as int, step, subject, own);
            view.lemma_chain_no_duplicates(slot_cell(view, row, column, current_bin as int));
            assert(chain.skip(0) =~= chain);
        }

        // Look at a part of the boids in the cell.
        loop
            invariant_except_break
                cell_iter.wf(),
                cell_iter.remaining() == chain.skip(looked),
                part_way(
                    before,
                    chain,
                    bound as int,
                    step,
                    subject,
                    own,
                    looked,
                    gathered(acc, prev_found, prev_index, in_cell, neighbors@),
                ),
                local_prev_index == last_other(chain, looked, subject),
                acc <= reach(current_bin + 1) + (if chain.take(looked).contains(subject) {
                    crowd()
                } else {
                    0int
                }),
            invariant
                grid.wf(),
                view == grid@,
                subject == index,
                current_bin < LOCAL_GRID_SIZE,
                own == (current_bin == CENTER),
                step == increment,
                0 < increment <= crowd(),
                bound <= MAX_SAMPLES * crowd(),
                chain.no_duplicates(),
                chain == slot_chain(view, row, column, current_bin as int),
            ensures
                gathered(acc, prev_found, prev_index, in_cell, neighbors@) == visit_cell(
                    before,
                    chain,
                    bound as int,
                    step,
                    subject,
                    own,
                ),
                acc <= reach(current_bin + 2),
            decreases cell_iter.remaining().len(),
        {
            let ghost now = gathered(acc, prev_found, prev_index, in_cell, neighbors@);
            let next = cell_iter.next();
            if next.is_none() {
                proof {
                    lemma_part_way_leave(before, chain, bound as int, step, subject, own, looked, now);
                }
                break;
            }
            let boid_index = next.unwrap();
            proof {
                assert(chain.skip(looked)[0] == chain[looked]);
                assert(chain.skip(looked).skip(1) =~= chain.skip(looked + 1));
                lemma_take_next(chain, looked, subject);
                lemma_met_at(chain, looked);
                if looked > 0 {
                    lemma_met_at(chain, looked - 1);
                }
                assert(0 <= chain[looked] < view.values.len()) by {
                    let cell = slot_cell(view, row, column, current_bin as int);
                    assert(0 <= view.chains[cell][looked] < view.values.len());
                }
            }
            if acc >= bound && (current_bin != CENTER || prev_found) {
                proof {
                    lemma_part_way_leave(before, chain, bound as int, step, subject, own, looked, now);
                }
                break;
            }
            if boid_index == index {
                proof {
                    lemma_part_way_meet(before, chain, bound as int, step, subject, own, looked, now);
                    looked = looked + 1;
                }
                prev_found = true;
                if current_bin == CENTER {
                    in_cell = true;
                }
                acc += increment;
                prev_index = local_prev_index;
                continue;
            }
            local_prev_index = boid_index as i32;

            if acc >= bound {
                // From here on the walk only looks for the boid itself.
                proof {
                    lemma_part_way_pass(before, chain, bound as int, step, subject, own, looked, now);
                    looked = looked + 1;
                }
                continue;
            }
            proof {
                lemma_part_way_visit(before, chain, bound as int, step, subject, own, looked, now);
                looked = looked + 1;
                assert(as_ints(neighbors@.push(boid_index)) =~= as_ints(neighbors@).push(
                    boid_index as int,
                ));
            }
            neighbors.push(boid_index);
            acc += increment;
        }
        current_bin += 1;
    }
    proof {
        lemma_walk_bounded(view, subject, row, column, LOCAL_GRID_SIZE as nat);
        lemma_walk_finds_subject(view, subject, row, column);
        if window_count(view, row, column, LOCAL_GRID_SIZE as nat) <= MAX_SAMPLES {
            lemma_sparse_window(view, subject, row, column, LOCAL_GRID_SIZE as nat);
        }
        assert forall|i: int| 0 <= i < neighbors.len() implies #[trigger] neighbors[i] != index
            && neighbors[i] < view.values.len() by {
            lemma_neighbors_from_window(view, subject, row, column, LOCAL_GRID_SIZE as nat, i);
            let neighbor = as_ints(neighbors@)[i];
            let slot = choose|slot: int|
                0 <= slot < LOCAL_GRID_SIZE && #[trigger] slot_chain(
                    view,
                    row,
                    column,
                    slot,
                ).contains(neighbor);
            let chain = slot_chain(view, row, column, slot);
            let cell = slot_cell(view, row, column, slot);
            let k = choose|k: int| 0 <= k < chain.len() && chain[k] == neighbor;
            assert(0 <= view.chains[cell][k] < view.values.len());
        }
    }
    NeighborSample { neighbors, prev_index, in_cell }
}

/// Moves the value with the given `index` from the chain of the cell at
/// `grid_row` and `grid_column`, where `prev_index` is the entry before it,
/// to the tail of the chain of the cell at `new_grid_row` and
/// `new_grid_column`. A position outside of the grid stands for no chain:
/// coming from there the value is linked only, going there it is unlinked only.
pub fn relocate<T>(
    grid: &mut Grid<T>,
    index: usize,
    prev_index: i32,
    grid_row: i32,
    grid_column: i32,
    new_grid_row: i32,
    new_grid_column: i32,
)
    requires
        old(grid).wf(),
        old(grid)@.in_grid(grid_row as int, grid_column as int) ==> old(grid)@.precedes(
            old(grid)@.cell_index(grid_row as int, grid_column as int),
            prev_index as int,
            index as int,
        ),
        !old(grid)@.in_grid(grid_row as int, grid_column as int) && old(grid)@.in_grid(
            new_grid_row as int,
            new_grid_column as int,
        ) ==> index < old(grid)@.values.len() && !old(grid)@.resident(index as int),
    ensures
        final(grid).wf(),
        final(grid)@ == old(grid)@.unlink(
            index as int,
            old(grid)@.cell_index(grid_row as int, grid_column as int),
        ).link(index as int, old(grid)@.cell_index(new_grid_row as int, new_grid_column as int)),
{
    proof {
        let cell = grid@.cell_index(grid_row as int, grid_column as int);
        grid@.lemma_cell_index(grid_row as int, grid_column as int);
        if grid@.in_grid(grid_row as int, grid_column as int) {
            grid@.lemma_unlink_frees(index as int, cell);
        }
    }
    grid.unlink_val(index, prev_index, grid_row, grid_column);
    grid.link_val(index, new_grid_row, new_grid_column);
}

} // verus!
