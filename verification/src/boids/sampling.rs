//! Which neighbours a boid looks at: the window of cells around it, and the
//! strided walk through the chains of that window.
//!
//! The walk visits the cells of the window in a fixed order and keeps a
//! running total. Each visited boid adds one stride to the total, and the
//! walk leaves a cell as soon as the total has reached the number of boids in
//! the window up to and including that cell. With a stride of one every boid
//! is visited; a longer stride skips the back of each chain, so that a
//! crowded window costs no more than a sparse one.
//!
//! The stride is the boids of the window divided by [`MAX_SAMPLES`], and at
//! least one. To keep it a whole number the total, the stride and the bounds
//! are all counted in units of one boid over [`MAX_SAMPLES`].

use crate::boids::{CELLS_IN_RADIUS, MAX_SAMPLES};
use crate::grid::model::{predecessor, GridView};
use crate::grid::EMPTY;
use vstd::prelude::*;

pub mod steps;

use steps::{lemma_advanced, lemma_take_contains, lemma_taken_len};

verus! {

/// The number of cells across the window, and down it: the central cell and
/// [`CELLS_IN_RADIUS`] cells on either side of it.
pub const LOCAL_GRID_WIDTH: usize = 5;

/// The number of cells in the window.
pub const LOCAL_GRID_SIZE: usize = 25;

/// The place in the window of the cell that the window is centred on.
pub const CENTER: usize = 12;

/// The window is a square around its central cell.
pub proof fn lemma_window_shape()
    ensures
        LOCAL_GRID_WIDTH == 2 * CELLS_IN_RADIUS + 1,
        LOCAL_GRID_SIZE == LOCAL_GRID_WIDTH * LOCAL_GRID_WIDTH,
        CENTER == CELLS_IN_RADIUS * LOCAL_GRID_WIDTH + CELLS_IN_RADIUS,
        forall|row: int| slot_row(row, CENTER as int) == row,
        forall|column: int| slot_column(column, CENTER as int) == column,
{
}

/// The grid row of the window's cell number `slot`, for a window centred on `row`.
pub open spec fn slot_row(row: int, slot: int) -> int {
    row - CELLS_IN_RADIUS + slot / (LOCAL_GRID_WIDTH as int)
}

/// The grid column of the window's cell number `slot`, for a window centred
/// on `column`.
pub open spec fn slot_column(column: int, slot: int) -> int {
    column - CELLS_IN_RADIUS + slot % (LOCAL_GRID_WIDTH as int)
}

/// The cell index of the window's cell number `slot`, [`EMPTY`] where that
/// cell lies outside of the grid.
pub open spec fn slot_cell<T>(grid: GridView<T>, row: int, column: int, slot: int) -> int {
    grid.cell_index(slot_row(row, slot), slot_column(column, slot))
}

/// The chain of the window's cell number `slot`; a cell outside of the grid
/// has no entries.
pub open spec fn slot_chain<T>(grid: GridView<T>, row: int, column: int, slot: int) -> Seq<int> {
    grid.chain(slot_cell(grid, row, column, slot))
}

/// The number of boids in the first `slots` cells of the window.
pub open spec fn window_count<T>(grid: GridView<T>, row: int, column: int, slots: nat) -> nat
    decreases slots,
{
    if slots == 0 {
        0
    } else {
        window_count(grid, row, column, (slots - 1) as nat) + slot_chain(
            grid,
            row,
            column,
            slots - 1,
        ).len()
    }
}

/// The stride of the walk through a window of `total` boids.
pub open spec fn stride(total: nat) -> int {
    if total > MAX_SAMPLES {
        total as int
    } else {
        MAX_SAMPLES as int
    }
}

/// The number of entries that the walk visits in a chain of `len` entries:
/// it enters with a running total of `acc`, adds `step` per entry, and
/// leaves when the total has reached `bound`.
pub open spec fn taken(acc: int, bound: int, step: int, len: nat) -> nat
    decreases len,
{
    if len == 0 || acc >= bound {
        0
    } else {
        1 + taken(acc + step, bound, step, (len - 1) as nat)
    }
}

/// `chain` without the entries that are `subject`.
pub open spec fn without(chain: Seq<int>, subject: int) -> Seq<int> {
    chain.filter(|entry: int| entry != subject)
}

/// What the walk has gathered so far.
pub struct Walk {
    /// The running total.
    pub acc: int,
    /// Whether the subject has been met.
    pub found: bool,
    /// The entry before the subject in the chain where it was met,
    /// [`EMPTY`] if it was the first there or has not been met.
    pub prev: int,
    /// Whether the subject has been met in the cell at the centre of the window.
    pub in_cell: bool,
    /// The boids visited, but for the subject itself, in the order of the visits.
    pub neighbors: Seq<int>,
}

/// The walk before its first cell.
pub open spec fn start() -> Walk {
    Walk { acc: 0, found: false, prev: EMPTY as int, in_cell: false, neighbors: Seq::empty() }
}

/// The walk after one more cell, whose chain is `chain` and whose bound is
/// `bound`; `own` says that this is the cell at the centre of the window.
///
/// The walk visits the entries at the front of the chain until the running
/// total has reached the bound. Where the subject is among them it is met
/// and not counted as a neighbour. In the window's central cell the walk
/// does not stop short of a subject that it has not met yet: it goes on
/// along the chain, visiting no one, until it meets the subject, which then
/// adds one more stride to the total.
pub open spec fn visit_cell(
    walk: Walk,
    chain: Seq<int>,
    bound: int,
    step: int,
    subject: int,
    own: bool,
) -> Walk {
    let visited = taken(walk.acc, bound, step, chain.len());
    let met_in_stride = chain.take(visited as int).contains(subject);
    let met_behind = !met_in_stride && chain.contains(subject) && own && !walk.found;
    let met = met_in_stride || met_behind;
    Walk {
        acc: walk.acc + visited * step + if met_behind {
            step
        } else {
            0
        },
        found: walk.found || met,
        prev: if met {
            predecessor(chain, subject)
        } else {
            walk.prev
        },
        in_cell: walk.in_cell || (own && met),
        neighbors: walk.neighbors + without(chain.take(visited as int), subject),
    }
}

/// The walk of `subject` after the first `slots` cells of the window centred
/// on `(row, column)`.
pub open spec fn walk<T>(
    grid: GridView<T>,
    subject: int,
    row: int,
    column: int,
    slots: nat,
) -> Walk
    decreases slots,
{
    if slots == 0 {
        start()
    } else {
        visit_cell(
            walk(grid, subject, row, column, (slots - 1) as nat),
            slot_chain(grid, row, column, slots - 1),
            MAX_SAMPLES * window_count(grid, row, column, slots),
            stride(window_count(grid, row, column, LOCAL_GRID_SIZE as nat)),
            subject,
            slots - 1 == CENTER,
        )
    }
}

/// The whole walk of `subject` through the window centred on `(row, column)`.
pub open spec fn sample_of<T>(grid: GridView<T>, subject: int, row: int, column: int) -> Walk {
    walk(grid, subject, row, column, LOCAL_GRID_SIZE as nat)
}

/// The boids of the first `slots` cells of the window, cell by cell and in
/// the order of each chain, but for `subject`.
pub open spec fn window_others<T>(
    grid: GridView<T>,
    subject: int,
    row: int,
    column: int,
    slots: nat,
) -> Seq<int>
    decreases slots,
{
    if slots == 0 {
        Seq::empty()
    } else {
        window_others(grid, subject, row, column, (slots - 1) as nat) + without(
            slot_chain(grid, row, column, slots - 1),
            subject,
        )
    }
}

/// More cells of the window hold no fewer boids.
pub proof fn lemma_window_count_grows<T>(
    grid: GridView<T>,
    row: int,
    column: int,
    fewer: nat,
    more: nat,
)
    requires
        fewer <= more,
    ensures
        window_count(grid, row, column, fewer) <= window_count(grid, row, column, more),
    decreases more,
{
    if fewer < more {
        lemma_window_count_grows(grid, row, column, fewer, (more - 1) as nat);
    }
}

/// With `picked` boids visited at `step` each, and a visit that began below
/// a bound of [`MAX_SAMPLES`] times no more than `step`, fewer than
/// [`MAX_SAMPLES`] boids were visited before that visit.
proof fn lemma_stride_cap(picked: int, acc: int, step: int, total: int)
    requires
        0 <= picked,
        picked * step <= acc,
        acc < MAX_SAMPLES * total,
        0 <= total <= step,
    ensures
        picked < MAX_SAMPLES,
{
    assert(picked < 300) by (nonlinear_arith)
        requires
            0 <= picked,
            picked * step < 300 * total,
            0 <= total <= step,
    ;
}

/// **Bounded sampling.** However many boids the window holds, the walk
/// visits no more than [`MAX_SAMPLES`] of them, and none twice over: no more
/// than the window holds.
pub proof fn lemma_walk_bounded<T>(
    grid: GridView<T>,
    subject: int,
    row: int,
    column: int,
    slots: nat,
)
    requires
        slots <= LOCAL_GRID_SIZE,
    ensures
        walk(grid, subject, row, column, slots).neighbors.len() <= MAX_SAMPLES,
        walk(grid, subject, row, column, slots).neighbors.len() <= window_count(
            grid,
            row,
            column,
            slots,
        ),
        walk(grid, subject, row, column, slots).neighbors.len() * stride(
            window_count(grid, row, column, LOCAL_GRID_SIZE as nat),
        ) <= walk(grid, subject, row, column, slots).acc,
    decreases slots,
{
    let total = window_count(grid, row, column, LOCAL_GRID_SIZE as nat);
    let step = stride(total);
    if slots == 0 {
        assert(0 * step == 0) by (nonlinear_arith);
    } else {
        let before = walk(grid, subject, row, column, (slots - 1) as nat);
        let after = walk(grid, subject, row, column, slots);
        let chain = slot_chain(grid, row, column, slots - 1);
        let bound = MAX_SAMPLES * window_count(grid, row, column, slots);
        let visited = taken(before.acc, bound, step, chain.len());
        let picked = before.neighbors.len();
        let gain = without(chain.take(visited as int), subject).len();
        lemma_walk_bounded(grid, subject, row, column, (slots - 1) as nat);
        lemma_window_count_grows(grid, row, column, slots, LOCAL_GRID_SIZE as nat);
        lemma_taken_len(before.acc, bound, step, chain.len());
        lemma_advanced(before.acc, bound, step, chain.len());
        lemma_without_len(chain.take(visited as int), subject);
        assert(gain <= visited);
        assert((picked + gain) * step <= before.acc + visited * step) by (nonlinear_arith)
            requires
                picked * step <= before.acc,
                0 <= gain <= visited,
                step > 0,
        ;
        if visited > 0 {
            assert((picked + visited - 1) * step <= before.acc + (visited - 1) * step)
                by (nonlinear_arith)
                requires
                    picked * step <= before.acc,
            ;
            lemma_stride_cap(
                picked + visited - 1,
                before.acc + (visited - 1) * step,
                step,
                total as int,
            );
        }
    }
}

/// The walk visits every entry of a chain whose bound lies a stride per
/// entry above the running total.
pub proof fn lemma_taken_all(acc: int, step: int, len: nat)
    requires
        step > 0,
    ensures
        taken(acc, acc + len * step, step, len) == len,
    decreases len,
{
    if len > 0 {
        assert(acc + len * step == (acc + step) + (len - 1) * step) by (nonlinear_arith);
        assert(acc < acc + len * step) by (nonlinear_arith)
            requires
                len > 0,
                step > 0,
        ;
        lemma_taken_all(acc + step, step, (len - 1) as nat);
    } else {
        assert(acc + 0 * step == acc) by (nonlinear_arith);
    }
}

/// **A sparse window is walked whole.** Where the window holds no more than
/// [`MAX_SAMPLES`] boids, the walk visits every one of them: the neighbours
/// are all the boids of the window but the subject.
pub proof fn lemma_sparse_window<T>(
    grid: GridView<T>,
    subject: int,
    row: int,
    column: int,
    slots: nat,
)
    requires
        slots <= LOCAL_GRID_SIZE,
        window_count(grid, row, column, LOCAL_GRID_SIZE as nat) <= MAX_SAMPLES,
    ensures
        walk(grid, subject, row, column, slots).neighbors == window_others(
            grid,
            subject,
            row,
            column,
            slots,
        ),
        walk(grid, subject, row, column, slots).acc == MAX_SAMPLES * window_count(
            grid,
            row,
            column,
            slots,
        ),
    decreases slots,
{
    if slots > 0 {
        let before = walk(grid, subject, row, column, (slots - 1) as nat);
        let chain = slot_chain(grid, row, column, slots - 1);
        let step = MAX_SAMPLES as int;
        lemma_sparse_window(grid, subject, row, column, (slots - 1) as nat);
        lemma_taken_all(before.acc, step, chain.len());
        assert(chain.take(chain.len() as int) =~= chain);
    }
}

/// A chain without the subject is no longer than the chain.
pub proof fn lemma_without_len(chain: Seq<int>, subject: int)
    ensures
        without(chain, subject).len() <= chain.len(),
    decreases chain.len(),
{
    reveal(Seq::filter);
    if chain.len() > 0 {
        lemma_without_len(chain.drop_last(), subject);
    }
}

/// What is left of a chain without the subject was in the chain, and is not
/// the subject.
pub proof fn lemma_without(chain: Seq<int>, subject: int, k: int)
    requires
        0 <= k < without(chain, subject).len(),
    ensures
        without(chain, subject)[k] != subject,
        chain.contains(without(chain, subject)[k]),
    decreases chain.len(),
{
    reveal(Seq::filter);
    if chain.len() > 0 {
        let rest = without(chain.drop_last(), subject);
        if k < rest.len() {
            lemma_without(chain.drop_last(), subject, k);
            let j = choose|j: int|
                0 <= j < chain.drop_last().len() && chain.drop_last()[j] == rest[k];
            assert(chain[j] == rest[k]);
        } else {
            assert(chain[chain.len() - 1] == without(chain, subject)[k]);
        }
    }
}

/// The walk takes its neighbours from the chains of the window, and never
/// takes the subject for one.
pub proof fn lemma_neighbors_from_window<T>(
    grid: GridView<T>,
    subject: int,
    row: int,
    column: int,
    slots: nat,
    i: int,
)
    requires
        0 <= i < walk(grid, subject, row, column, slots).neighbors.len(),
    ensures
        walk(grid, subject, row, column, slots).neighbors[i] != subject,
        exists|slot: int|
            0 <= slot < slots && #[trigger] slot_chain(grid, row, column, slot).contains(
                walk(grid, subject, row, column, slots).neighbors[i],
            ),
    decreases slots,
{
    if slots > 0 {
        let before = walk(grid, subject, row, column, (slots - 1) as nat);
        let chain = slot_chain(grid, row, column, slots - 1);
        let bound = MAX_SAMPLES * window_count(grid, row, column, slots);
        let step = stride(window_count(grid, row, column, LOCAL_GRID_SIZE as nat));
        let visited = taken(before.acc, bound, step, chain.len());
        let front = chain.take(visited as int);
        let after = walk(grid, subject, row, column, slots);
        assert(after.neighbors == before.neighbors + without(front, subject));
        let neighbor = after.neighbors[i];
        lemma_taken_len(before.acc, bound, step, chain.len());
        if i < before.neighbors.len() {
            lemma_neighbors_from_window(grid, subject, row, column, (slots - 1) as nat, i);
            let slot = choose|slot: int|
                0 <= slot < slots - 1 && #[trigger] slot_chain(grid, row, column, slot).contains(
                    neighbor,
                );
            assert(slot_chain(grid, row, column, slot).contains(neighbor));
        } else {
            let j = i - before.neighbors.len();
            assert(neighbor == without(front, subject)[j]);
            lemma_without(front, subject, j);
            lemma_take_contains(chain, visited as int, chain.len() as int, neighbor);
            assert(slot_chain(grid, row, column, slots - 1).contains(neighbor));
        }
    }
}

/// **A boid alone in its window has no neighbours.**
pub proof fn lemma_lone_boid<T>(grid: GridView<T>, subject: int, row: int, column: int)
    requires
        forall|slot: int, k: int|
            0 <= slot < LOCAL_GRID_SIZE && 0 <= k < slot_chain(grid, row, column, slot).len()
                ==> #[trigger] slot_chain(grid, row, column, slot)[k] == subject,
    ensures
        sample_of(grid, subject, row, column).neighbors == Seq::<int>::empty(),
{
    let neighbors = sample_of(grid, subject, row, column).neighbors;
    if neighbors.len() > 0 {
        lemma_neighbors_from_window(grid, subject, row, column, LOCAL_GRID_SIZE as nat, 0);
        let slot = choose|slot: int|
            0 <= slot < LOCAL_GRID_SIZE && #[trigger] slot_chain(grid, row, column, slot).contains(
                neighbors[0],
            );
        let chain = slot_chain(grid, row, column, slot);
        let k = choose|k: int| 0 <= k < chain.len() && chain[k] == neighbors[0];
        assert(slot_chain(grid, row, column, slot)[k] == subject);
    }
    assert(neighbors =~= Seq::<int>::empty());
}

/// The window's central cell is the only one of its cells whose chain can
/// hold what the chain of the cell at `(row, column)` holds.
proof fn lemma_only_center<T>(grid: GridView<T>, subject: int, row: int, column: int, slot: int)
    requires
        grid.wf(),
        0 <= slot < LOCAL_GRID_SIZE,
        grid.chain(grid.cell_index(row, column)).contains(subject),
    ensures
        slot == CENTER ==> slot_chain(grid, row, column, slot) == grid.chain(
            grid.cell_index(row, column),
        ),
        slot != CENTER ==> !slot_chain(grid, row, column, slot).contains(subject),
{
    let own = grid.cell_index(row, column);
    let other = slot_cell(grid, row, column, slot);
    grid.lemma_cell_index(row, column);
    grid.lemma_cell_index(slot_row(row, slot), slot_column(column, slot));
    if slot != CENTER && slot_chain(grid, row, column, slot).contains(subject) {
        if other == own {
            grid.lemma_cell_index_injective(
                row,
                column,
                slot_row(row, slot),
                slot_column(column, slot),
            );
        }
        grid.lemma_one_chain(own, other, subject);
    }
}

/// How far the walk has come in meeting its subject, cell by cell: it meets
/// the subject in the window's central cell if the chain of the cell at
/// `(row, column)` holds it, and in that case nowhere else.
proof fn lemma_walk_meets<T>(grid: GridView<T>, subject: int, row: int, column: int, slots: nat)
    requires
        grid.wf(),
        slots <= LOCAL_GRID_SIZE,
    ensures
        slots <= CENTER ==> !walk(grid, subject, row, column, slots).in_cell,
        slots <= CENTER && grid.chain(grid.cell_index(row, column)).contains(subject) ==> !walk(
            grid,
            subject,
            row,
            column,
            slots,
        ).found,
        slots > CENTER ==> (walk(grid, subject, row, column, slots).in_cell <==> grid.chain(
            grid.cell_index(row, column),
        ).contains(subject)),
        slots > CENTER && grid.chain(grid.cell_index(row, column)).contains(subject) ==> walk(
            grid,
            subject,
            row,
            column,
            slots,
        ).found && walk(grid, subject, row, column, slots).prev == predecessor(
            grid.chain(grid.cell_index(row, column)),
            subject,
        ),
    decreases slots,
{
    if slots > 0 {
        let slot = slots - 1;
        let own_chain = grid.chain(grid.cell_index(row, column));
        let before = walk(grid, subject, row, column, slot as nat);
        let chain = slot_chain(grid, row, column, slot);
        let bound = MAX_SAMPLES * window_count(grid, row, column, slots);
        let step = stride(window_count(grid, row, column, LOCAL_GRID_SIZE as nat));
        let visited = taken(before.acc, bound, step, chain.len());
        lemma_walk_meets(grid, subject, row, column, slot as nat);
        lemma_taken_len(before.acc, bound, step, chain.len());
        lemma_window_shape();
        if chain.take(visited as int).contains(subject) {
            lemma_take_contains(chain, visited as int, chain.len() as int, subject);
        }
        if own_chain.contains(subject) {
            lemma_only_center(grid, subject, row, column, slot);
        }
    }
}

/// **The entry before the subject is exact.** The walk meets its subject in
/// the window's central cell if, and only if, the subject lies in the chain
/// of the cell at `(row, column)`. It then names the entry before the
/// subject in that chain, however few of the chain's entries it visits.
pub proof fn lemma_walk_finds_subject<T>(grid: GridView<T>, subject: int, row: int, column: int)
    requires
        grid.wf(),
    ensures
        sample_of(grid, subject, row, column).in_cell <==> grid.chain(
            grid.cell_index(row, column),
        ).contains(subject),
        sample_of(grid, subject, row, column).in_cell ==> grid.precedes(
            grid.cell_index(row, column),
            sample_of(grid, subject, row, column).prev,
            subject,
        ),
{
    lemma_walk_meets(grid, subject, row, column, LOCAL_GRID_SIZE as nat);
}

} // verus!
