//! Values stored in an arena and indexed by the cell of a 2D grid they lie in.
//!
//! All values live in one vector, the arena, and keep their index for as long
//! as the grid lives. Each value carries the arena index of the next value of
//! its cell, so that every cell owns a singly linked chain threaded through
//! the arena. A cell records the first and the last index of its chain and
//! the chain's length. A value may also belong to no cell at all: it is then
//! reachable through [`Grid::iter_all`] and [`Grid::get_val`] only.

use vstd::prelude::*;

pub mod links;
pub mod model;

use links::{chain_of, hop, lemma_linked_end, lemma_linked_unique, linked, run};
use model::GridView;

verus! {

/// The index that stands for "no value": an empty cell, or the end of a chain.
pub const EMPTY: i32 = -1;

/// A stored value, with the arena index of the next value in its chain.
pub struct ValueNode<T> {
    pub next_index: i32,
    pub val: T,
}

/// A cell of the grid: the `first` and `last` arena index of its chain and
/// the `count` of values in it.
#[derive(Clone, Copy)]
pub struct GridNode {
    pub first: i32,
    pub last: i32,
    pub count: u32,
}

/// The arena of values together with the cells that index them.
pub struct Grid<T> {
    /// The arena: every value ever added, in the order of adding.
    pub values: Vec<ValueNode<T>>,
    /// The cells, row by row.
    pub grid: Vec<GridNode>,
    /// The number of values in the arena.
    pub count: usize,
    /// The number of rows of the grid.
    pub rows: usize,
    /// The number of columns of the grid.
    pub columns: usize,
}

impl<T> View for Grid<T> {
    type V = GridView<T>;

    open spec fn view(&self) -> GridView<T> {
        GridView {
            values: Seq::new(self.values.len() as nat, |i: int| self.values[i].val),
            chains: Seq::new(
                self.grid.len() as nat,
                |c: int| chain_of(self.values@, self.grid[c]),
            ),
            rows: self.rows as nat,
            columns: self.columns as nat,
        }
    }
}

impl<T> Grid<T> {
    /// The index that stands for "no value": an empty cell, or the end of a chain.
    pub const EMPTY: i32 = EMPTY;

    /// The invariant of the grid. The count is the arena's length and every
    /// arena index fits the link type; there is one cell per grid position;
    /// the chain read off the links of every cell is laid out as a chain
    /// should be; and no arena index lies in two places.
    pub open spec fn wf(&self) -> bool {
        &&& self.count == self.values.len()
        &&& self.count <= i32::MAX
        &&& self.grid.len() == self.rows * self.columns
        &&& self.grid.len() <= i32::MAX
        &&& forall|c: int|
            0 <= c < self.grid.len() ==> linked(
                self.values@,
                #[trigger] self.grid[c],
                chain_of(self.values@, self.grid[c]),
            )
        &&& self@.wf()
    }

    /// Creates a grid of `columns` by `rows` empty cells, with room for
    /// `max_count` values.
    pub fn new(max_count: usize, columns: usize, rows: usize) -> (grid: Grid<T>)
        requires
            max_count <= i32::MAX,
            columns * rows <= i32::MAX,
        ensures
            grid.wf(),
            grid@ == GridView::<T>::empty(rows as nat, columns as nat),
    {
        let empty = GridNode { first: Self::EMPTY, last: Self::EMPTY, count: 0 };
        let cells = vec![empty; columns * rows];
        let values = Vec::with_capacity(max_count);
        let grid = Grid { values, grid: cells, count: 0, columns, rows };
        proof {
            assert(columns * rows == rows * columns) by (nonlinear_arith);
            assert forall|c: int| 0 <= c < grid.grid.len() implies chain_of(
                grid.values@,
                #[trigger] grid.grid[c],
            ) == Seq::<int>::empty() by {
                assert(chain_of(grid.values@, grid.grid[c]) =~= Seq::<int>::empty());
            }
            assert(grid@.chains =~= GridView::<T>::empty(rows as nat, columns as nat).chains);
            assert(grid@.values =~= Seq::<T>::empty());
        }
        grid
    }

    /// Returns the iterator over all of the values in the grid, in arena
    /// order, whether they lie in a cell or not.
    pub fn iter_all<'a>(&'a self) -> (iter: Iter<'a, T>)
        ensures
            iter.wf(),
            iter.remaining() == self@.values,
    {
        let iter = Iter::new(self);
        assert(iter.remaining() =~= self@.values);
        iter
    }

    /// Returns the iterator over the arena indices of the values in the cell
    /// at `column` and `row`, from the first of its chain to the last. It
    /// yields nothing if the position falls outside of the grid.
    pub fn iter_from_pos<'a>(&'a self, column: i32, row: i32) -> (iter: IndexIter<'a, T>)
        requires
            self.wf(),
        ensures
            iter.wf(),
            iter.remaining() == self@.chain(self@.cell_index(row as int, column as int)),
    {
        let ghost cell = self@.cell_index(row as int, column as int);
        proof {
            self@.lemma_cell_index(row as int, column as int);
        }
        let value_index = if let Some(grid_node) = self.get_grid_node(row, column) {
            assert(linked(self.values@, self.grid[cell], self@.chains[cell]));
            grid_node.first
        } else {
            Self::EMPTY
        };
        IndexIter::new(value_index, self, Ghost(self@.chain(cell)))
    }

    /// Returns the iterator over the arena indices of the values in the cell
    /// with index `cell_index`. See [`Grid::iter_from_pos`]. A negative
    /// `cell_index` stands for a position outside of the grid.
    pub fn iter_from_index<'a>(&'a self, cell_index: i32) -> (iter: IndexIter<'a, T>)
        requires
            self.wf(),
            cell_index < self@.chains.len(),
        ensures
            iter.wf(),
            iter.remaining() == self@.chain(cell_index as int),
    {
        if cell_index < 0 {
            IndexIter::new(Self::EMPTY, self, Ghost(Seq::empty()))
        } else {
            assert(linked(
                self.values@,
                self.grid[cell_index as int],
                self@.chains[cell_index as int],
            ));
            IndexIter::new(
                self.grid[cell_index as usize].first,
                self,
                Ghost(self@.chains[cell_index as int]),
            )
        }
    }

    /// Returns the index of the cell at `row` and `column`, or
    /// [`Grid::EMPTY`] if the position falls outside of the grid.
    pub fn index_from_pos(&self, row: i32, column: i32) -> (index: i32)
        requires
            self.wf(),
        ensures
            index == self@.cell_index(row as int, column as int),
            index == EMPTY || 0 <= index < self.grid.len(),
    {
        if row >= 0 && (row as usize) < self.rows && column >= 0 && (column as usize)
            < self.columns {
            assert(row * self.columns + column < self.rows * self.columns) by (nonlinear_arith)
                requires
                    0 <= row < self.rows,
                    0 <= column < self.columns,
            ;
            assert(0 <= row * self.columns) by (nonlinear_arith)
                requires
                    0 <= row,
            ;
            assert(self.columns <= self.rows * self.columns) by (nonlinear_arith)
                requires
                    0 < self.rows,
            ;
            column + row * self.columns as i32
        } else {
            Self::EMPTY
        }
    }

    /// Gets the value stored under the arena index `index`.
    ///
    /// # Errors
    ///
    /// Fails if no value is stored under `index`.
    pub fn get_val(&self, index: usize) -> (val: Result<&T, ()>)
        requires
            self.wf(),
        ensures
            index < self@.values.len() ==> val == Ok::<&T, ()>(&self@.values[index as int]),
            index >= self@.values.len() ==> val is Err,
    {
        if index < self.count {
            Ok(&self.values[index].val)
        } else {
            Err(())
        }
    }

    /// Stores `val` under the arena index `index`, in place of the value that
    /// is stored there. The value keeps its place in its chain.
    pub fn set_val(&mut self, index: usize, val: T)
        requires
            old(self).wf(),
            index < old(self)@.values.len(),
        ensures
            final(self).wf(),
            final(self)@ == (GridView {
                values: old(self)@.values.update(index as int, val),
                ..old(self)@
            }),
    {
        let ghost pre = *self;
        self.values[index].val = val;
        proof {
            assert forall|c: int| 0 <= c < self.grid.len() implies linked(
                self.values@,
                self.grid[c],
                #[trigger] pre@.chains[c],
            ) by {
                let chain = pre@.chains[c];
                assert(linked(pre.values@, pre.grid[c], chain));
                assert forall|k: int| 0 <= k < chain.len() - 1 implies (
                #[trigger] self.values@[chain[k]]).next_index == chain[k + 1] by {
                    assert(pre.values@[chain[k]].next_index == chain[k + 1]);
                }
            }
            self.lemma_laid_out(pre@.chains);
            assert(self@.values =~= pre@.values.update(index as int, val));
        }
    }

    /// Gets the cell at `row` and `column`, or `None` if the position falls
    /// outside of the grid.
    pub fn get_grid_node(&self, row: i32, column: i32) -> (node: Option<GridNode>)
        requires
            self.wf(),
        ensures
            node == if self@.in_grid(row as int, column as int) {
                Some(self.grid[self@.cell_index(row as int, column as int)])
            } else {
                None
            },
    {
        let grid_index = self.index_from_pos(row, column);
        if grid_index != Self::EMPTY {
            Some(self.grid[grid_index as usize])
        } else {
            None
        }
    }

    /// Where every cell's chain is laid out as `chains` says, `chains` is
    /// what the grid holds.
    proof fn lemma_laid_out(&self, chains: Seq<Seq<int>>)
        requires
            chains.len() == self.grid.len(),
            forall|c: int|
                0 <= c < self.grid.len() ==> linked(
                    self.values@,
                    self.grid[c],
                    #[trigger] chains[c],
                ),
        ensures
            self@.chains == chains,
            forall|c: int|
                0 <= c < self.grid.len() ==> linked(
                    self.values@,
                    #[trigger] self.grid[c],
                    chain_of(self.values@, self.grid[c]),
                ),
    {
        assert forall|c: int| 0 <= c < self.grid.len() implies chain_of(
            self.values@,
            #[trigger] self.grid[c],
        ) == chains[c] by {
            lemma_linked_unique(self.values@, self.grid[c], chains[c]);
        }
        assert(self@.chains =~= chains);
    }

    /// **Chain integrity.** In a well-formed grid the count of every cell is
    /// the length of its chain, the chain is what the links give hop by hop
    /// from the cell's first index, the hop after the last entry ends at
    /// [`EMPTY`], and an index that lies in the chain lies at one place of it and
    /// in no other chain.
    pub proof fn lemma_chain_integrity(&self, cell: int)
        requires
            self.wf(),
            0 <= cell < self.grid.len(),
        ensures
            self.grid[cell].count == self@.chains[cell].len(),
            forall|k: nat|
                k < self.grid[cell].count ==> #[trigger] hop(
                    self.values@,
                    self.grid[cell].first as int,
                    k,
                ) == self@.chains[cell][k as int],
            hop(self.values@, self.grid[cell].first as int, self.grid[cell].count as nat) == EMPTY,
            forall|k: int, other: int, j: int|
                0 <= k < self@.chains[cell].len() && 0 <= other < self.grid.len() && 0 <= j
                    < self@.chains[other].len() && #[trigger] self@.chains[cell][k]
                    == #[trigger] self@.chains[other][j] ==> other == cell && j == k,
    {
        assert(linked(self.values@, self.grid[cell], self@.chains[cell]));
        lemma_linked_end(self.values@, self.grid[cell], self@.chains[cell]);
    }

    /// Finds the cell whose chain holds the value with the given `index`.
    /// Returns the index of that cell, or [`Grid::EMPTY`] if the value lies in
    /// no chain. The search walks the chains one by one.
    pub fn cell_of(&self, index: usize) -> (cell: i32)
        requires
            self.wf(),
        ensures
            cell == EMPTY ==> !self@.resident(index as int),
            cell != EMPTY ==> 0 <= cell < self@.chains.len() && self@.chains[cell as int].contains(
                index as int,
            ),
    {
        let mut cell: usize = 0;
        while cell < self.grid.len()
            invariant
                self.wf(),
                cell <= self.grid.len(),
                forall|c: int|
                    0 <= c < cell ==> !(#[trigger] self@.chains[c]).contains(index as int),
            decreases self.grid.len() - cell,
        {
            let ghost chain = self@.chains[cell as int];
            let ghost mut looked: int = 0;
            let mut entries = self.iter_from_index(cell as i32);
            assert(chain.skip(0) =~= chain);
            loop
                invariant
                    entries.wf(),
                    0 <= looked <= chain.len(),
                    entries.remaining() == chain.skip(looked),
                    forall|k: int| 0 <= k < looked ==> chain[k] != index,
                    chain == self@.chains[cell as int],
                    cell < self.grid.len() <= i32::MAX,
                ensures
                    !chain.contains(index as int),
                decreases entries.remaining().len(),
            {
                let entry = entries.next();
                if entry.is_none() {
                    break;
                }
                proof {
                    assert(chain.skip(looked)[0] == chain[looked]);
                    assert(chain.skip(looked).skip(1) =~= chain.skip(looked + 1));
                }
                if entry.unwrap() == index {
                    assert(chain[looked] == index);
                    return cell as i32;
                }
                proof {
                    looked = looked + 1;
                }
            }
            cell += 1;
        }
        EMPTY
    }

    /// Adds a new `val` to the grid, at the tail of the chain of the cell at
    /// `row` and `column`. If that position does not fall in the grid, the
    /// value is stored in the arena only and joins no chain.
    pub fn add_val(&mut self, val: T, row: i32, column: i32)
        requires
            old(self).wf(),
            old(self)@.values.len() < i32::MAX,
        ensures
            final(self).wf(),
            final(self)@ == old(self)@.add(
                val,
                old(self)@.cell_index(row as int, column as int),
            ),
    {
        let ghost pre = *self;
        let ghost cell = pre@.cell_index(row as int, column as int);
        let index = self.count;
        let node = ValueNode { val, next_index: Self::EMPTY };
        self.values.push(node);
        self.count += 1;
        proof {
            assert forall|c: int| 0 <= c < self.grid.len() implies linked(
                self.values@,
                self.grid[c],
                #[trigger] pre@.chains[c],
            ) by {
                let chain = pre@.chains[c];
                assert(linked(pre.values@, pre.grid[c], chain));
                assert forall|k: int| 0 <= k < chain.len() - 1 implies (
                #[trigger] self.values@[chain[k]]).next_index == chain[k + 1] by {
                    assert(pre.values@[chain[k]].next_index == chain[k + 1]);
                }
            }
            self.lemma_laid_out(pre@.chains);
            pre@.lemma_add_wf(val, cell);
            assert(self@.values =~= pre@.values.push(val));
            assert(self@ == (GridView { values: pre@.values.push(val), ..pre@ }));
        }
        self.link_val(index, row, column);
    }

    /// Unlinks the value with the given `index` from the chain of the cell at
    /// `grid_row` and `grid_column`. The caller names the entry before it in
    /// that chain as `prev_index`, or [`Grid::EMPTY`] if there is none.
    /// Nothing happens if the position does not fall in the grid.
    pub fn unlink_val(&mut self, index: usize, prev_index: i32, grid_row: i32, grid_column: i32)
        requires
            old(self).wf(),
            old(self)@.in_grid(grid_row as int, grid_column as int) ==> old(self)@.precedes(
                old(self)@.cell_index(grid_row as int, grid_column as int),
                prev_index as int,
                index as int,
            ),
        ensures
            final(self).wf(),
            final(self)@ == old(self)@.unlink(
                index as int,
                old(self)@.cell_index(grid_row as int, grid_column as int),
            ),
    {
        let ghost pre = *self;
        let ghost cell = pre@.cell_index(grid_row as int, grid_column as int);
        let ghost after = pre@.unlink(index as int, cell);
        let grid_index = self.index_from_pos(grid_row, grid_column);
        if grid_index >= 0 {
            let ghost chain = pre@.chains[cell];
            let ghost at = chain.index_of(index as int);
            proof {
                assert(linked(pre.values@, pre.grid[cell], chain));
                assert(0 <= at < chain.len() && chain[at] == index);
                assert(0 <= pre@.chains[cell][at] < pre@.values.len());
                if at > 0 {
                    assert(0 <= pre@.chains[cell][at - 1] < pre@.values.len());
                    assert(pre.values@[chain[at - 1]].next_index == chain[at]);
                }
                if at < chain.len() - 1 {
                    assert(pre.values@[chain[at]].next_index == chain[at + 1]);
                    assert(pre@.chains[cell][at] != pre@.chains[cell][chain.len() - 1]);
                }
            }
            let next_index = self.values[index].next_index;
            let grid_index = grid_index as usize;
            if prev_index == Self::EMPTY {
                // The value is the first of its chain.
                self.grid[grid_index].first = next_index;
            } else {
                // Other values come before it in the chain.
                self.values[prev_index as usize].next_index = next_index;
            }
            if self.grid[grid_index].last == index as i32 {
                self.grid[grid_index].last = prev_index;
            }
            self.grid[grid_index].count -= 1;
            proof {
                assert forall|c: int| 0 <= c < self.grid.len() implies linked(
                    self.values@,
                    self.grid[c],
                    #[trigger] after.chains[c],
                ) by {
                    let old_chain = pre@.chains[c];
                    assert(linked(pre.values@, pre.grid[c], old_chain));
                    if c == cell {
                        let new_chain = after.chains[c];
                        assert(new_chain =~= chain.remove(at));
                        assert forall|k: int| 0 <= k < new_chain.len() implies 0
                            <= #[trigger] new_chain[k] < self.values@.len() by {
                            let j = if k >= at { k + 1 } else { k };
                            assert(new_chain[k] == chain[j]);
                        }
                        assert forall|k: int| 0 <= k < new_chain.len() - 1 implies (
                        #[trigger] self.values@[new_chain[k]]).next_index == new_chain[k + 1] by {
                            let j = if k >= at { k + 1 } else { k };
                            assert(new_chain[k] == chain[j]);
                            assert(pre.values@[chain[j]].next_index == chain[j + 1]);
                            if at > 0 && j != at - 1 {
                                assert(pre@.chains[cell][j] != pre@.chains[cell][at - 1]);
                            }
                        }
                        if new_chain.len() > 0 {
                            let end = chain.len() - 1;
                            if at > 0 && at < end {
                                assert(pre@.chains[cell][end] != pre@.chains[cell][at - 1]);
                            }
                        }
                    } else {
                        assert(after.chains[c] == old_chain);
                        assert forall|k: int| 0 <= k < old_chain.len() implies self.values@[
                        #[trigger] old_chain[k]] == pre.values@[old_chain[k]] by {
                            if at > 0 {
                                assert(pre@.chains[c][k] != pre@.chains[cell][at - 1]);
                            }
                        }
                        assert forall|k: int| 0 <= k < old_chain.len() - 1 implies (
                        #[trigger] self.values@[old_chain[k]]).next_index == old_chain[k + 1] by {
                            assert(pre.values@[old_chain[k]].next_index == old_chain[k + 1]);
                        }
                    }
                }
                self.lemma_laid_out(after.chains);
                pre@.lemma_unlink_wf(index as int, cell);
                assert(self@.values =~= after.values);
                assert(self@ == after);
            }
        }
    }

    /// Links a stored value that is in no chain to the tail of the chain of
    /// the cell at `grid_row` and `grid_column`. Nothing happens if the
    /// position does not fall in the grid.
    pub fn link_val(&mut self, index: usize, grid_row: i32, grid_column: i32)
        requires
            old(self).wf(),
            old(self)@.in_grid(grid_row as int, grid_column as int) ==> index < old(
                self
            )@.values.len() && !old(self)@.resident(index as int),
        ensures
            final(self).wf(),
            final(self)@ == old(self)@.link(
                index as int,
                old(self)@.cell_index(grid_row as int, grid_column as int),
            ),
    {
        let ghost pre = *self;
        let ghost cell = pre@.cell_index(grid_row as int, grid_column as int);
        let ghost after = pre@.link(index as int, cell);
        let grid_index = self.index_from_pos(grid_row, grid_column);
        // If the position falls in the grid.
        if grid_index != Self::EMPTY {
            let grid_index = grid_index as usize;
            let ghost chain = pre@.chains[cell];
            proof {
                pre@.lemma_chain_len(cell);
                assert(linked(pre.values@, pre.grid[cell], chain));
            }
            self.values[index].next_index = -1;
            let last_index = self.grid[grid_index].last;
            if last_index >= 0 {
                self.values[last_index as usize].next_index = index as i32;
            } else {
                self.grid[grid_index].first = index as i32;
            }
            self.grid[grid_index].last = index as i32;
            self.grid[grid_index].count += 1;
            proof {
                assert forall|c: int| 0 <= c < self.grid.len() implies linked(
                    self.values@,
                    self.grid[c],
                    #[trigger] after.chains[c],
                ) by {
                    let old_chain = pre@.chains[c];
                    assert(linked(pre.values@, pre.grid[c], old_chain));
                    assert forall|k: int| 0 <= k < old_chain.len() implies #[trigger] old_chain[k]
                        != index by {
                        assert(pre@.chains[c].contains(old_chain[k]));
                    }
                    if c == cell {
                        let new_chain = after.chains[c];
                        assert(new_chain =~= chain.push(index as int));
                        assert forall|k: int| 0 <= k < new_chain.len() - 1 implies (
                        #[trigger] self.values@[new_chain[k]]).next_index == new_chain[k + 1] by {
                            assert(new_chain[k] == chain[k]);
                            if k < chain.len() - 1 {
                                assert(pre.values@[chain[k]].next_index == chain[k + 1]);
                                assert(pre@.chains[cell][k] != pre@.chains[cell][chain.len() - 1]);
                            }
                        }
                    } else {
                        assert(after.chains[c] == old_chain);
                        assert forall|k: int| 0 <= k < old_chain.len() implies self.values@[
                        #[trigger] old_chain[k]] == pre.values@[old_chain[k]] by {
                            if chain.len() > 0 {
                                assert(pre@.chains[c][k] != pre@.chains[cell][chain.len() - 1]);
                            }
                        }
                        assert forall|k: int| 0 <= k < old_chain.len() - 1 implies (
                        #[trigger] self.values@[old_chain[k]]).next_index == old_chain[k + 1] by {
                            assert(pre.values@[old_chain[k]].next_index == old_chain[k + 1]);
                        }
                    }
                }
                self.lemma_laid_out(after.chains);
                pre@.lemma_link_wf(index as int, cell);
                assert(self@.values =~= after.values);
                assert(self@ == after);
            }
        }
    }
}

/// Iterator over the arena indices of the values in one cell of a [`Grid`].
pub struct IndexIter<'a, T> {
    current: i32,
    values: &'a Vec<ValueNode<T>>,
    rest: Ghost<Seq<int>>,
}

impl<'a, T> IndexIter<'a, T> {
    /// The indices still to come, in the order in which they will come.
    pub closed spec fn remaining(&self) -> Seq<int> {
        self.rest@
    }

    /// The indices still to come are the run of the arena from the current index.
    pub closed spec fn wf(&self) -> bool {
        run(self.values@, self.current as int, self.rest@)
    }

    /// Creates the iterator over the run `rest` of the arena of `grid`,
    /// which starts at `value_index`.
    fn new(value_index: i32, grid: &'a Grid<T>, Ghost(rest): Ghost<Seq<int>>) -> (iter: IndexIter<
        'a,
        T,
    >)
        requires
            run(grid.values@, value_index as int, rest),
        ensures
            iter.wf(),
            iter.remaining() == rest,
    {
        IndexIter { current: value_index, values: &grid.values, rest: Ghost(rest) }
    }

    /// Yields the next index of the chain, or `None` at its end.
    pub fn next(&mut self) -> (item: Option<usize>)
        requires
            old(self).wf(),
        ensures
            final(self).wf(),
            old(self).remaining().len() == 0 ==> item is None,
            old(self).remaining().len() == 0 ==> final(self).remaining() == old(self).remaining(),
            old(self).remaining().len() > 0 ==> item == Some(old(self).remaining()[0] as usize),
            old(self).remaining().len() > 0 ==> 0 <= old(self).remaining()[0] <= usize::MAX,
            old(self).remaining().len() > 0 ==> final(self).remaining() == old(
                self
            ).remaining().skip(1),
    {
        if self.current == EMPTY {
            return None;
        }
        // Traverse the cell's chain.
        let ghost rest = self.rest@;
        assert(0 <= rest[0] < self.values@.len());
        let curr_node = &self.values[self.current as usize];
        let current = self.current;
        self.current = curr_node.next_index;
        proof {
            self.rest@ = rest.skip(1);
            if rest.len() > 1 {
                assert(self.values@[rest[0]].next_index == rest[1]);
            }
            assert forall|k: int| 0 <= k < self.rest@.len() - 1 implies (
            #[trigger] self.values@[self.rest@[k]]).next_index == self.rest@[k + 1] by {
                assert(self.values@[rest[k + 1]].next_index == rest[k + 2]);
            }
        }
        Some(current as usize)
    }
}

/// Iterator over all values in a [`Grid`].
pub struct Iter<'a, T> {
    values: &'a Vec<ValueNode<T>>,
    position: usize,
}

impl<'a, T> Iter<'a, T> {
    /// The values still to come, in the order in which they will come.
    pub closed spec fn remaining(&self) -> Seq<T> {
        Seq::new(
            (self.values.len() - self.position) as nat,
            |i: int| self.values[self.position + i].val,
        )
    }

    /// The position lies within the arena or at its end.
    pub closed spec fn wf(&self) -> bool {
        self.position <= self.values.len()
    }

    /// Creates the iterator over all values of `grid`.
    fn new(grid: &'a Grid<T>) -> (iter: Iter<'a, T>)
        ensures
            iter.wf(),
            iter.remaining() == Seq::new(grid.values.len() as nat, |i: int| grid.values[i].val),
    {
        let iter = Iter { values: &grid.values, position: 0 };
        assert(iter.remaining() =~= Seq::new(
            grid.values.len() as nat,
            |i: int| grid.values[i].val,
        ));
        iter
    }

    /// Yields the next value of the arena, or `None` at its end.
    pub fn next(&mut self) -> (item: Option<&'a T>)
        requires
            old(self).wf(),
        ensures
            final(self).wf(),
            old(self).remaining().len() == 0 ==> item is None,
            old(self).remaining().len() == 0 ==> final(self).remaining() == old(self).remaining(),
            old(self).remaining().len() > 0 ==> item == Some(&old(self).remaining()[0]),
            old(self).remaining().len() > 0 ==> final(self).remaining() == old(
                self
            ).remaining().skip(1),
    {
        if self.position < self.values.len() {
            let values: &'a Vec<ValueNode<T>> = self.values;
            let item = &values[self.position].val;
            self.position += 1;
            assert(self.remaining() =~= old(self).remaining().skip(1));
            Some(item)
        } else {
            None
        }
    }
}

} // verus!
