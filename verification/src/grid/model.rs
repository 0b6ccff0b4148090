//! The grid as a mathematical value, and what each operation does to it.

use crate::grid::EMPTY;
use vstd::prelude::*;
use vstd::set_lib::{lemma_int_range, lemma_len_subset, set_int_range};

verus! {

/// What a grid holds: the stored values in arena order, for every cell the
/// arena indices of its chain from first to last, and the grid's dimensions.
pub struct GridView<T> {
    pub values: Seq<T>,
    pub chains: Seq<Seq<int>>,
    pub rows: nat,
    pub columns: nat,
}

/// The entry before `index` in `chain`, [`EMPTY`] where `index` is the first entry.
pub open spec fn predecessor(chain: Seq<int>, index: int) -> int {
    let k = chain.index_of(index);
    if k == 0 {
        EMPTY as int
    } else {
        chain[k - 1]
    }
}

impl<T> GridView<T> {
    /// A grid of the given dimensions with no values and every cell empty.
    pub open spec fn empty(rows: nat, columns: nat) -> Self {
        GridView {
            values: Seq::empty(),
            chains: Seq::new(rows * columns, |c: int| Seq::empty()),
            rows,
            columns,
        }
    }

    /// Whether `(row, column)` names a cell of the grid.
    pub open spec fn in_grid(self, row: int, column: int) -> bool {
        0 <= row < self.rows && 0 <= column < self.columns
    }

    /// The index of the cell at `(row, column)`, [`EMPTY`] outside the grid.
    pub open spec fn cell_index(self, row: int, column: int) -> int {
        if self.in_grid(row, column) {
            column + row * self.columns
        } else {
            EMPTY as int
        }
    }

    /// The chain of cell `cell`; no entries where `cell` is not a cell index.
    pub open spec fn chain(self, cell: int) -> Seq<int> {
        if 0 <= cell < self.chains.len() {
            self.chains[cell]
        } else {
            Seq::empty()
        }
    }

    /// Whether `index` is an entry of some chain.
    pub open spec fn resident(self, index: int) -> bool {
        exists|c: int| 0 <= c < self.chains.len() && #[trigger] self.chains[c].contains(index)
    }

    /// Whether `index` is an entry of the chain of `cell` and `prev` is the
    /// entry before it ([`EMPTY`] for the first entry).
    pub open spec fn precedes(self, cell: int, prev: int, index: int) -> bool {
        &&& 0 <= cell < self.chains.len()
        &&& self.chains[cell].contains(index)
        &&& prev == predecessor(self.chains[cell], index)
    }

    /// There is one chain per cell, every entry is the index of a stored
    /// value, and no index occurs twice, be it in one chain or in two.
    pub open spec fn wf(self) -> bool {
        &&& self.chains.len() == self.rows * self.columns
        &&& forall|c: int, k: int|
            0 <= c < self.chains.len() && 0 <= k < self.chains[c].len() ==> 0
                <= #[trigger] self.chains[c][k] < self.values.len()
        &&& forall|c1: int, k1: int, c2: int, k2: int|
            0 <= c1 < self.chains.len() && 0 <= k1 < self.chains[c1].len() && 0 <= c2
                < self.chains.len() && 0 <= k2 < self.chains[c2].len()
                && #[trigger] self.chains[c1][k1] == #[trigger] self.chains[c2][k2] ==> c1 == c2
                && k1 == k2
    }

    /// A new value is stored under the next arena index and joins the chain
    /// of `cell` at its tail; where `cell` is no cell index it joins no chain.
    pub open spec fn add(self, val: T, cell: int) -> Self {
        GridView {
            values: self.values.push(val),
            chains: if 0 <= cell < self.chains.len() {
                self.chains.update(cell, self.chains[cell].push(self.values.len() as int))
            } else {
                self.chains
            },
            ..self
        }
    }

    /// `index` leaves the chain of `cell`; nothing changes where `cell` is no cell index.
    pub open spec fn unlink(self, index: int, cell: int) -> Self {
        GridView {
            chains: if 0 <= cell < self.chains.len() {
                self.chains.update(cell, self.chains[cell].remove(self.chains[cell].index_of(index)))
            } else {
                self.chains
            },
            ..self
        }
    }

    /// `index` joins the chain of `cell` at its tail; nothing changes where
    /// `cell` is no cell index.
    pub open spec fn link(self, index: int, cell: int) -> Self {
        GridView {
            chains: if 0 <= cell < self.chains.len() {
                self.chains.update(cell, self.chains[cell].push(index))
            } else {
                self.chains
            },
            ..self
        }
    }
}

impl<T> GridView<T> {
    /// A position in the grid has a cell index of its own; a position
    /// outside of it has none.
    pub proof fn lemma_cell_index(self, row: int, column: int)
        requires
            self.chains.len() == self.rows * self.columns,
        ensures
            self.in_grid(row, column) ==> 0 <= self.cell_index(row, column) < self.chains.len(),
            !self.in_grid(row, column) ==> self.cell_index(row, column) == EMPTY,
    {
        if self.in_grid(row, column) {
            assert(0 <= row * self.columns && row * self.columns + self.columns <= self.rows
                * self.columns) by (nonlinear_arith)
                requires
                    0 <= row < self.rows,
            ;
        }
    }

    /// No chain of a well-formed grid is longer than the arena.
    pub proof fn lemma_chain_len(self, cell: int)
        requires
            self.wf(),
            0 <= cell < self.chains.len(),
        ensures
            self.chains[cell].len() <= self.values.len(),
    {
        let chain = self.chains[cell];
        let all = set_int_range(0, self.values.len() as int);
        self.lemma_chain_no_duplicates(cell);
        chain.unique_seq_to_set();
        lemma_int_range(0, self.values.len() as int);
        assert forall|x: int| chain.to_set().contains(x) implies all.contains(x) by {
            let k = choose|k: int| 0 <= k < chain.len() && chain[k] == x;
            assert(0 <= self.chains[cell][k] < self.values.len());
        }
        lemma_len_subset(chain.to_set(), all);
    }

    /// Two positions in the grid with one cell index are one position.
    pub proof fn lemma_cell_index_injective(self, row: int, column: int, row2: int, column2: int)
        requires
            self.in_grid(row, column),
            self.in_grid(row2, column2),
            self.cell_index(row, column) == self.cell_index(row2, column2),
        ensures
            row == row2,
            column == column2,
    {
        if row < row2 {
            assert(row * self.columns + self.columns <= row2 * self.columns) by (nonlinear_arith)
                requires
                    row < row2,
            ;
        } else if row2 < row {
            assert(row2 * self.columns + self.columns <= row * self.columns) by (nonlinear_arith)
                requires
                    row2 < row,
            ;
        }
    }

    /// An index that lies in the chain of one cell lies in the chain of no other.
    pub proof fn lemma_one_chain(self, cell: int, other: int, index: int)
        requires
            self.wf(),
            self.chain(cell).contains(index),
            cell != other,
        ensures
            !self.chain(other).contains(index),
    {
        if self.chain(other).contains(index) {
            let k = choose|k: int| 0 <= k < self.chain(cell).len() && self.chain(cell)[k] == index;
            let j = choose|j: int|
                0 <= j < self.chain(other).len() && self.chain(other)[j] == index;
            assert(self.chains[cell][k] == self.chains[other][j]);
        }
    }

    /// No chain of a well-formed grid holds an index twice.
    pub proof fn lemma_chain_no_duplicates(self, cell: int)
        requires
            self.wf(),
        ensures
            self.chain(cell).no_duplicates(),
    {
        let chain = self.chain(cell);
        assert forall|i: int, j: int|
            0 <= i < chain.len() && 0 <= j < chain.len() && i != j implies chain[i] != chain[j] by {
            if self.chains[cell][i] == self.chains[cell][j] {
                assert(false);
            }
        }
    }

    /// In a well-formed grid an entry of a chain has that one place in it, and
    /// the entry before it, if there is one, comes before it.
    pub proof fn lemma_precedes(self, cell: int, k: int)
        requires
            self.wf(),
            0 <= cell < self.chains.len(),
            0 <= k < self.chains[cell].len(),
        ensures
            self.chains[cell].index_of(self.chains[cell][k]) == k,
            self.precedes(
                cell,
                if k == 0 {
                    EMPTY as int
                } else {
                    self.chains[cell][k - 1]
                },
                self.chains[cell][k],
            ),
    {
        let chain = self.chains[cell];
        let at = chain.index_of(chain[k]);
        assert(0 <= at < chain.len() && chain[at] == chain[k]);
        assert(self.chains[cell][at] == self.chains[cell][k]);
    }

    /// Adding a value keeps the grid well formed. It comes to storing the
    /// value, which then lies in no chain, and linking its index.
    pub proof fn lemma_add_wf(self, val: T, cell: int)
        requires
            self.wf(),
        ensures
            self.add(val, cell).wf(),
            !(GridView { values: self.values.push(val), ..self }).resident(
                self.values.len() as int,
            ),
            self.add(val, cell) == (GridView { values: self.values.push(val), ..self }).link(
                self.values.len() as int,
                cell,
            ),
    {
        let stored = GridView { values: self.values.push(val), ..self };
        assert(stored.wf());
        assert forall|c: int| 0 <= c < stored.chains.len() implies !(
        #[trigger] stored.chains[c]).contains(self.values.len() as int) by {
            if stored.chains[c].contains(self.values.len() as int) {
                let k = choose|k: int|
                    0 <= k < stored.chains[c].len() && stored.chains[c][k] == self.values.len();
                assert(0 <= self.chains[c][k] < self.values.len());
            }
        }
        stored.lemma_link_wf(self.values.len() as int, cell);
    }

    /// Taking an entry out of its chain keeps the grid well formed.
    pub proof fn lemma_unlink_wf(self, index: int, cell: int)
        requires
            self.wf(),
            0 <= cell < self.chains.len() ==> self.chains[cell].contains(index),
        ensures
            self.unlink(index, cell).wf(),
    {
        let after = self.unlink(index, cell);
        if 0 <= cell < self.chains.len() {
            let at = self.chains[cell].index_of(index);
            assert forall|c: int, k: int|
                0 <= c < after.chains.len() && 0 <= k < after.chains[c].len() implies 0
                <= #[trigger] after.chains[c][k] < after.values.len() by {
                let j = if c == cell && k >= at { k + 1 } else { k };
                assert(after.chains[c][k] == self.chains[c][j]);
            }
            assert forall|c1: int, k1: int, c2: int, k2: int|
                0 <= c1 < after.chains.len() && 0 <= k1 < after.chains[c1].len() && 0 <= c2
                    < after.chains.len() && 0 <= k2 < after.chains[c2].len()
                    && #[trigger] after.chains[c1][k1] == #[trigger] after.chains[c2][k2] implies c1
                == c2 && k1 == k2 by {
                let j1 = if c1 == cell && k1 >= at { k1 + 1 } else { k1 };
                let j2 = if c2 == cell && k2 >= at { k2 + 1 } else { k2 };
                assert(after.chains[c1][k1] == self.chains[c1][j1]);
                assert(after.chains[c2][k2] == self.chains[c2][j2]);
            }
        }
    }

    /// An index taken out of its chain lies in no chain.
    pub proof fn lemma_unlink_frees(self, index: int, cell: int)
        requires
            self.wf(),
            self.chain(cell).contains(index),
        ensures
            !self.unlink(index, cell).resident(index),
            0 <= index < self.values.len(),
    {
        let after = self.unlink(index, cell);
        let chain = self.chains[cell];
        let at = chain.index_of(index);
        assert(0 <= self.chains[cell][at] < self.values.len());
        assert forall|c: int| 0 <= c < after.chains.len() implies !(
        #[trigger] after.chains[c]).contains(index) by {
            if after.chains[c].contains(index) {
                if c == cell {
                    let k = choose|k: int|
                        0 <= k < after.chains[c].len() && after.chains[c][k] == index;
                    let j = if k >= at {
                        k + 1
                    } else {
                        k
                    };
                    assert(after.chains[c][k] == self.chains[cell][j]);
                    assert(self.chains[cell][j] == self.chains[cell][at]);
                } else {
                    self.lemma_one_chain(cell, c, index);
                }
            }
        }
    }

    /// Putting an index that lies in no chain at the tail of one keeps the
    /// grid well formed.
    pub proof fn lemma_link_wf(self, index: int, cell: int)
        requires
            self.wf(),
            0 <= cell < self.chains.len() ==> 0 <= index < self.values.len() && !self.resident(
                index,
            ),
        ensures
            self.link(index, cell).wf(),
    {
        let after = self.link(index, cell);
        if 0 <= cell < self.chains.len() {
            assert forall|c: int, k: int|
                0 <= c < after.chains.len() && 0 <= k < after.chains[c].len() implies 0
                <= #[trigger] after.chains[c][k] < after.values.len() by {
                if !(c == cell && k == self.chains[c].len()) {
                    assert(after.chains[c][k] == self.chains[c][k]);
                }
            }
            assert forall|c1: int, k1: int, c2: int, k2: int|
                0 <= c1 < after.chains.len() && 0 <= k1 < after.chains[c1].len() && 0 <= c2
                    < after.chains.len() && 0 <= k2 < after.chains[c2].len()
                    && #[trigger] after.chains[c1][k1] == #[trigger] after.chains[c2][k2] implies c1
                == c2 && k1 == k2 by {
                let new1 = c1 == cell && k1 == self.chains[c1].len();
                let new2 = c2 == cell && k2 == self.chains[c2].len();
                if !new1 {
                    assert(after.chains[c1][k1] == self.chains[c1][k1]);
                    assert(self.chains[c1].contains(self.chains[c1][k1]));
                }
                if !new2 {
                    assert(after.chains[c2][k2] == self.chains[c2][k2]);
                    assert(self.chains[c2].contains(self.chains[c2][k2]));
                }
            }
        }
    }
}

/// The grid of the given dimensions that holds the first `n` of `values`,
/// added one after the other, each to the cell at the `(row, column)` that
/// `places` gives for it.
pub open spec fn rebuilt<T>(
    values: Seq<T>,
    places: Seq<(i32, i32)>,
    rows: nat,
    columns: nat,
    n: nat,
) -> GridView<T>
    decreases n,
{
    if n == 0 {
        GridView::empty(rows, columns)
    } else {
        let before = rebuilt(values, places, rows, columns, (n - 1) as nat);
        before.add(values[n - 1], before.cell_index(places[n - 1].0 as int, places[n - 1].1 as int))
    }
}

/// **A rebuilt grid holds every value in the cell of its place.** The value
/// with index `index` lies in the chain of the cell at its place and in no
/// other; a value whose place is outside of the grid lies in no chain.
pub proof fn lemma_rebuilt_places<T>(
    values: Seq<T>,
    places: Seq<(i32, i32)>,
    rows: nat,
    columns: nat,
    n: nat,
    index: int,
)
    requires
        0 <= index < n,
    ensures
        rebuilt(values, places, rows, columns, n).rows == rows,
        rebuilt(values, places, rows, columns, n).columns == columns,
        rebuilt(values, places, rows, columns, n).chains.len() == rows * columns,
        rebuilt(values, places, rows, columns, n).values.len() == n,
        forall|cell: int|
            0 <= cell < rows * columns ==> (#[trigger] rebuilt(
                values,
                places,
                rows,
                columns,
                n,
            ).chains[cell].contains(index) <==> cell == rebuilt(
                values,
                places,
                rows,
                columns,
                n,
            ).cell_index(places[index].0 as int, places[index].1 as int)),
    decreases n,
{
    lemma_rebuilt_shape(values, places, rows, columns, (n - 1) as nat);
    let before = rebuilt(values, places, rows, columns, (n - 1) as nat);
    let after = rebuilt(values, places, rows, columns, n);
    let target = before.cell_index(places[n - 1].0 as int, places[n - 1].1 as int);
    before.lemma_cell_index(places[n - 1].0 as int, places[n - 1].1 as int);
    if index < n - 1 {
        lemma_rebuilt_places(values, places, rows, columns, (n - 1) as nat, index);
    }
    assert forall|cell: int| 0 <= cell < rows * columns implies (#[trigger] after.chains[cell].contains(
        index,
    ) <==> cell == after.cell_index(places[index].0 as int, places[index].1 as int)) by {
        let old_chain = before.chains[cell];
        let new_chain = after.chains[cell];
        if cell == target {
            assert(new_chain =~= old_chain.push(n - 1));
            if old_chain.contains(index) {
                let k = choose|k: int| 0 <= k < old_chain.len() && old_chain[k] == index;
                assert(new_chain[k] == index);
            }
            if new_chain.contains(index) && index != n - 1 {
                let k = choose|k: int| 0 <= k < new_chain.len() && new_chain[k] == index;
                assert(old_chain[k] == index);
            }
            if index == n - 1 {
                assert(new_chain[old_chain.len() as int] == index);
            }
        } else {
            assert(new_chain == old_chain);
        }
        if index == n - 1 && old_chain.contains(index) {
            let k = choose|k: int| 0 <= k < old_chain.len() && old_chain[k] == index;
            assert(0 <= before.chains[cell][k] < before.values.len());
        }
    }
}

/// A rebuilt grid is well formed, of the dimensions asked for, and holds
/// the values that went into it.
pub proof fn lemma_rebuilt_shape<T>(
    values: Seq<T>,
    places: Seq<(i32, i32)>,
    rows: nat,
    columns: nat,
    n: nat,
)
    ensures
        rebuilt(values, places, rows, columns, n).wf(),
        rebuilt(values, places, rows, columns, n).rows == rows,
        rebuilt(values, places, rows, columns, n).columns == columns,
        rebuilt(values, places, rows, columns, n).chains.len() == rows * columns,
        rebuilt(values, places, rows, columns, n).values.len() == n,
        n <= values.len() ==> rebuilt(values, places, rows, columns, n).values == values.take(
            n as int,
        ),
    decreases n,
{
    if n > 0 {
        let before = rebuilt(values, places, rows, columns, (n - 1) as nat);
        lemma_rebuilt_shape(values, places, rows, columns, (n - 1) as nat);
        before.lemma_add_wf(
            values[n - 1],
            before.cell_index(places[n - 1].0 as int, places[n - 1].1 as int),
        );
        if n <= values.len() {
            assert(values.take(n as int) =~= values.take(n - 1).push(values[n - 1]));
        }
    } else {
        assert(values.take(0) =~= Seq::<T>::empty());
    }
}

} // verus!
