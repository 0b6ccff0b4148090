//! The walk through one chain, entry by entry: what holds of the walk while
//! it is part-way through a cell, and that each step of it keeps that up
//! until the walk leaves the cell as [`visit_cell`] says.

use crate::boids::sampling::{taken, visit_cell, without, Walk};
use crate::grid::model::predecessor;
use crate::grid::EMPTY;
use vstd::prelude::*;

verus! {

/// The running total with which the walk leaves a chain of `len` entries
/// that it entered with a total of `acc`.
pub open spec fn advanced(acc: int, bound: int, step: int, len: nat) -> int
    decreases len,
{
    if len == 0 || acc >= bound {
        acc
    } else {
        advanced(acc + step, bound, step, (len - 1) as nat)
    }
}

/// The last of the first `looked` entries of `chain` that is not `subject`,
/// [`EMPTY`] if there is none. The chain holds `subject` once at most.
pub open spec fn last_other(chain: Seq<int>, looked: int, subject: int) -> int {
    if looked <= 0 {
        EMPTY as int
    } else if chain[looked - 1] != subject {
        chain[looked - 1]
    } else if looked == 1 {
        EMPTY as int
    } else {
        chain[looked - 2]
    }
}

/// Whether the walk has come to a halt in the cell it is in.
pub open spec fn halted(now: Walk, bound: int, own: bool) -> bool {
    now.acc >= bound && (!own || now.found)
}

/// The walk `now` stands part-way through a cell that it entered as
/// `before`: it has looked at the first `looked` entries of `chain`.
pub open spec fn part_way(
    before: Walk,
    chain: Seq<int>,
    bound: int,
    step: int,
    subject: int,
    own: bool,
    looked: int,
    now: Walk,
) -> bool {
    let visited = taken(before.acc, bound, step, chain.len());
    let counted = if looked <= visited {
        looked
    } else {
        visited as int
    };
    let met = chain.take(looked).contains(subject);
    &&& 0 <= looked <= chain.len()
    &&& now.found == (before.found || met)
    &&& now.prev == if met {
        predecessor(chain, subject)
    } else {
        before.prev
    }
    &&& now.in_cell == (before.in_cell || (own && met))
    &&& now.neighbors == before.neighbors + without(chain.take(counted), subject)
    &&& looked <= visited ==> {
        &&& visited - looked == taken(now.acc, bound, step, (chain.len() - looked) as nat)
        &&& advanced(before.acc, bound, step, chain.len()) == advanced(
            now.acc,
            bound,
            step,
            (chain.len() - looked) as nat,
        )
    }
    &&& looked > visited ==> {
        &&& own
        &&& !before.found
        &&& !chain.take(looked - 1).contains(subject)
        &&& now.acc >= bound
        &&& now.acc == advanced(before.acc, bound, step, chain.len()) + if met {
            step
        } else {
            0
        }
    }
}

/// The walk visits no more entries than the chain has.
pub proof fn lemma_taken_len(acc: int, bound: int, step: int, len: nat)
    ensures
        taken(acc, bound, step, len) <= len,
    decreases len,
{
    if len > 0 && acc < bound {
        lemma_taken_len(acc + step, bound, step, (len - 1) as nat);
    }
}

/// Each visit adds one stride to the running total. The walk enters its
/// last visit below the bound, and leaves a chain early only with the bound
/// reached.
pub proof fn lemma_advanced(acc: int, bound: int, step: int, len: nat)
    requires
        step > 0,
    ensures
        advanced(acc, bound, step, len) == acc + taken(acc, bound, step, len) * step,
        taken(acc, bound, step, len) > 0 ==> acc + (taken(acc, bound, step, len) - 1) * step
            < bound,
        taken(acc, bound, step, len) < len ==> advanced(acc, bound, step, len) >= bound,
    decreases len,
{
    if len > 0 && acc < bound {
        let rest = taken(acc + step, bound, step, (len - 1) as nat);
        lemma_advanced(acc + step, bound, step, (len - 1) as nat);
        assert(acc + step + rest * step == acc + (1 + rest) * step) by (nonlinear_arith);
        assert(acc + step + (rest - 1) * step == acc + rest * step) by (nonlinear_arith);
        assert(rest == 0 ==> acc + rest * step == acc) by (nonlinear_arith);
    } else {
        assert(acc + 0 * step == acc) by (nonlinear_arith);
    }
}

/// One more entry of a chain: what the longer front holds.
pub proof fn lemma_take_next(chain: Seq<int>, k: int, subject: int)
    requires
        0 <= k < chain.len(),
    ensures
        chain.take(k + 1) == chain.take(k).push(chain[k]),
        chain.take(k + 1).contains(subject) <==> chain.take(k).contains(subject) || chain[k]
            == subject,
        without(chain.take(k + 1), subject) == if chain[k] == subject {
            without(chain.take(k), subject)
        } else {
            without(chain.take(k), subject).push(chain[k])
        },
{
    let longer = chain.take(k + 1);
    assert(longer =~= chain.take(k).push(chain[k]));
    if chain.take(k).contains(subject) {
        let i = choose|i: int| 0 <= i < k && chain.take(k)[i] == subject;
        assert(longer[i] == subject);
    }
    if chain[k] == subject {
        assert(longer[k] == subject);
    }
    reveal(Seq::filter);
    assert(longer.drop_last() =~= chain.take(k));
}

/// A front of a chain holds only what a longer front holds.
pub proof fn lemma_take_contains(chain: Seq<int>, shorter: int, longer: int, subject: int)
    requires
        0 <= shorter <= longer <= chain.len(),
        chain.take(shorter).contains(subject),
    ensures
        chain.take(longer).contains(subject),
        chain.contains(subject),
        chain.index_of(subject) < chain.len(),
{
    let i = choose|i: int| 0 <= i < shorter && chain.take(shorter)[i] == subject;
    assert(chain.take(longer)[i] == subject);
    assert(chain[i] == subject);
}

/// In a chain without repeats an entry is met at its own place only.
pub proof fn lemma_met_at(chain: Seq<int>, k: int)
    requires
        chain.no_duplicates(),
        0 <= k < chain.len(),
    ensures
        chain.contains(chain[k]),
        chain.index_of(chain[k]) == k,
        !chain.take(k).contains(chain[k]),
        predecessor(chain, chain[k]) == if k == 0 {
            EMPTY as int
        } else {
            chain[k - 1]
        },
        forall|n: int| 0 <= n <= chain.len() ==> (chain.take(n).contains(chain[k]) <==> k < n),
{
    let at = chain.index_of(chain[k]);
    assert(0 <= at < chain.len() && chain[at] == chain[k]);
    if chain.take(k).contains(chain[k]) {
        let i = choose|i: int| 0 <= i < k && chain.take(k)[i] == chain[k];
        assert(chain[i] == chain[k]);
    }
    assert forall|n: int| 0 <= n <= chain.len() implies (chain.take(n).contains(chain[k]) <==> k
        < n) by {
        if chain.take(n).contains(chain[k]) {
            let i = choose|i: int| 0 <= i < n && chain.take(n)[i] == chain[k];
            assert(chain[i] == chain[k]);
        }
        if k < n {
            assert(chain.take(n)[k] == chain[k]);
        }
    }
}

/// The walk enters a cell having looked at nothing.
pub proof fn lemma_part_way_enter(
    before: Walk,
    chain: Seq<int>,
    bound: int,
    step: int,
    subject: int,
    own: bool,
)
    ensures
        part_way(before, chain, bound, step, subject, own, 0, before),
{
    reveal(Seq::filter);
    assert(chain.take(0) =~= Seq::<int>::empty());
    assert(before.neighbors + without(chain.take(0), subject) =~= before.neighbors);
}

/// The walk meets the subject at the next entry.
pub proof fn lemma_part_way_meet(
    before: Walk,
    chain: Seq<int>,
    bound: int,
    step: int,
    subject: int,
    own: bool,
    looked: int,
    now: Walk,
)
    requires
        step > 0,
        chain.no_duplicates(),
        part_way(before, chain, bound, step, subject, own, looked, now),
        looked < chain.len(),
        chain[looked] == subject,
        !halted(now, bound, own),
    ensures
        part_way(
            before,
            chain,
            bound,
            step,
            subject,
            own,
            looked + 1,
            Walk {
                acc: now.acc + step,
                found: true,
                prev: last_other(chain, looked, subject),
                in_cell: now.in_cell || own,
                ..now
            },
        ),
{
    let visited = taken(before.acc, bound, step, chain.len());
    lemma_taken_len(before.acc, bound, step, chain.len());
    lemma_met_at(chain, looked);
    lemma_take_next(chain, looked, subject);
    if looked > 0 {
        lemma_met_at(chain, looked - 1);
    }
    if looked < visited {
        assert(now.acc < bound);
    } else if looked == visited {
        assert(now.acc >= bound);
        assert(advanced(now.acc, bound, step, (chain.len() - looked) as nat) == now.acc);
    } else {
        assert(chain.take(looked).contains(subject) <==> chain.take(looked - 1).contains(subject)
            || chain[looked - 1] == subject) by {
            lemma_take_next(chain, looked - 1, subject);
        }
    }
}

/// The walk looks at the next entry, which is not the subject, and passes
/// it by: the running total has reached the bound.
pub proof fn lemma_part_way_pass(
    before: Walk,
    chain: Seq<int>,
    bound: int,
    step: int,
    subject: int,
    own: bool,
    looked: int,
    now: Walk,
)
    requires
        step > 0,
        chain.no_duplicates(),
        part_way(before, chain, bound, step, subject, own, looked, now),
        looked < chain.len(),
        chain[looked] != subject,
        now.acc >= bound,
        !halted(now, bound, own),
    ensures
        part_way(before, chain, bound, step, subject, own, looked + 1, now),
{
    let visited = taken(before.acc, bound, step, chain.len());
    lemma_taken_len(before.acc, bound, step, chain.len());
    lemma_take_next(chain, looked, subject);
    if looked <= visited {
        assert(visited == looked);
        assert(advanced(now.acc, bound, step, (chain.len() - looked) as nat) == now.acc);
    }
}

/// The walk visits the next entry, which is not the subject.
pub proof fn lemma_part_way_visit(
    before: Walk,
    chain: Seq<int>,
    bound: int,
    step: int,
    subject: int,
    own: bool,
    looked: int,
    now: Walk,
)
    requires
        step > 0,
        chain.no_duplicates(),
        part_way(before, chain, bound, step, subject, own, looked, now),
        looked < chain.len(),
        chain[looked] != subject,
        now.acc < bound,
    ensures
        part_way(
            before,
            chain,
            bound,
            step,
            subject,
            own,
            looked + 1,
            Walk { acc: now.acc + step, neighbors: now.neighbors.push(chain[looked]), ..now },
        ),
{
    let visited = taken(before.acc, bound, step, chain.len());
    lemma_taken_len(before.acc, bound, step, chain.len());
    lemma_take_next(chain, looked, subject);
    assert(looked < visited);
    assert((before.neighbors + without(chain.take(looked), subject)).push(chain[looked])
        =~= before.neighbors + without(chain.take(looked), subject).push(chain[looked]));
}

/// Where the walk halts, or has looked at the whole chain, it has done with
/// the cell.
pub proof fn lemma_part_way_leave(
    before: Walk,
    chain: Seq<int>,
    bound: int,
    step: int,
    subject: int,
    own: bool,
    looked: int,
    now: Walk,
)
    requires
        step > 0,
        chain.no_duplicates(),
        part_way(before, chain, bound, step, subject, own, looked, now),
        looked == chain.len() || halted(now, bound, own),
    ensures
        now == visit_cell(before, chain, bound, step, subject, own),
{
    let visited = taken(before.acc, bound, step, chain.len());
    let after = visit_cell(before, chain, bound, step, subject, own);
    lemma_taken_len(before.acc, bound, step, chain.len());
    lemma_advanced(before.acc, bound, step, chain.len());
    assert(chain.take(chain.len() as int) =~= chain);
    if looked <= visited {
        assert(visited == looked);
        assert(advanced(now.acc, bound, step, (chain.len() - looked) as nat) == now.acc);
        if chain.contains(subject) {
            lemma_met_at(chain, chain.index_of(subject));
        }
    } else {
        if chain.take(visited as int).contains(subject) {
            lemma_take_contains(chain, visited as int, looked - 1, subject);
        }
        if chain.take(looked).contains(subject) {
            lemma_take_contains(chain, looked, chain.len() as int, subject);
        }
        if chain.contains(subject) && !chain.take(looked).contains(subject) {
            lemma_met_at(chain, chain.index_of(subject));
        }
    }
    assert(now.neighbors == after.neighbors);
    assert(now.acc == after.acc);
    assert(now.found == after.found);
    assert(now.prev == after.prev);
    assert(now.in_cell == after.in_cell);
}

} // verus!
