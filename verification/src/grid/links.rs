//! How a chain is read off the `next_index` links of the arena.

use crate::grid::{GridNode, ValueNode, EMPTY};
use vstd::prelude::*;

verus! {

/// The index reached from `start` after `steps` hops along the links.
/// A hop from an index outside the arena ends at [`EMPTY`].
pub open spec fn hop<T>(nodes: Seq<ValueNode<T>>, start: int, steps: nat) -> int
    decreases steps,
{
    if steps == 0 {
        start
    } else {
        let at = hop(nodes, start, (steps - 1) as nat);
        if 0 <= at < nodes.len() {
            nodes[at].next_index as int
        } else {
            EMPTY as int
        }
    }
}

/// The chain of a cell: the indices met on the first `count` hops from `first`.
pub open spec fn chain_of<T>(nodes: Seq<ValueNode<T>>, cell: GridNode) -> Seq<int> {
    Seq::new(cell.count as nat, |k: int| hop(nodes, cell.first as int, k as nat))
}

/// `chain` is a run of the arena from `start`: every entry is an arena index,
/// `start` is the first entry, each entry links to the one after it, and the
/// last entry links to [`EMPTY`]. The empty run starts at [`EMPTY`].
pub open spec fn run<T>(nodes: Seq<ValueNode<T>>, start: int, chain: Seq<int>) -> bool {
    &&& forall|k: int| 0 <= k < chain.len() ==> 0 <= #[trigger] chain[k] < nodes.len()
    &&& forall|k: int|
        0 <= k < chain.len() - 1 ==> (#[trigger] nodes[chain[k]]).next_index == chain[k + 1]
    &&& if chain.len() == 0 {
        start == EMPTY
    } else {
        start == chain[0] && nodes[chain.last()].next_index == EMPTY
    }
}

/// `chain` is laid out in the arena as the chain of `cell`: it is a run from
/// the cell's first index, and the cell records its last entry and its length.
pub open spec fn linked<T>(nodes: Seq<ValueNode<T>>, cell: GridNode, chain: Seq<int>) -> bool {
    &&& run(nodes, cell.first as int, chain)
    &&& chain.len() == cell.count
    &&& cell.last == if chain.len() == 0 {
        EMPTY as int
    } else {
        chain.last()
    }
}

/// A laid-out chain is met entry by entry when hopping from the cell's first index.
pub proof fn lemma_linked_hop<T>(
    nodes: Seq<ValueNode<T>>,
    cell: GridNode,
    chain: Seq<int>,
    k: nat,
)
    requires
        linked(nodes, cell, chain),
        k < chain.len(),
    ensures
        hop(nodes, cell.first as int, k) == chain[k as int],
    decreases k,
{
    if k > 0 {
        lemma_linked_hop(nodes, cell, chain, (k - 1) as nat);
        assert(nodes[chain[k - 1]].next_index == chain[k as int]);
    }
}

/// Hopping once more from the end of a laid-out chain arrives at [`EMPTY`].
pub proof fn lemma_linked_end<T>(nodes: Seq<ValueNode<T>>, cell: GridNode, chain: Seq<int>)
    requires
        linked(nodes, cell, chain),
    ensures
        hop(nodes, cell.first as int, chain.len()) == EMPTY,
{
    if chain.len() > 0 {
        lemma_linked_hop(nodes, cell, chain, (chain.len() - 1) as nat);
    }
}

/// The arena and a cell admit one laid-out chain only: the one read off the links.
pub proof fn lemma_linked_unique<T>(nodes: Seq<ValueNode<T>>, cell: GridNode, chain: Seq<int>)
    requires
        linked(nodes, cell, chain),
    ensures
        chain_of(nodes, cell) == chain,
{
    assert forall|k: int| 0 <= k < chain.len() implies chain_of(nodes, cell)[k] == chain[k] by {
        lemma_linked_hop(nodes, cell, chain, k as nat);
    }
    assert(chain_of(nodes, cell) =~= chain);
}

} // verus!
