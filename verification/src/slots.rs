//! Slot bookkeeping shared by the linked lists, which keep their nodes in an
//! arena and link them by index.

use vstd::prelude::*;
use vstd::set_lib::{lemma_int_range, lemma_len_subset, set_int_range};

verus! {

/// The vacant slots are slots of the arena, none is listed twice, and none is
/// in use.
pub(crate) open spec fn vacant_ok(free: Seq<usize>, order: Seq<int>, slots: int) -> bool {
    &&& free.no_duplicates()
    &&& forall|j: int| 0 <= j < free.len() ==> (#[trigger] free[j]) < slots
    &&& forall|j: int, k: int|
        0 <= j < free.len() && 0 <= k < order.len() ==> #[trigger] free[j] != #[trigger] order[k]
}

/// A slot that leaves the order may join the vacant ones.
pub(crate) proof fn lemma_vacate(
    free: Seq<usize>,
    order: Seq<int>,
    rest: Seq<int>,
    slot: usize,
    slots: int,
)
    requires
        vacant_ok(free, order, slots),
        order.contains(slot as int),
        slot < slots,
        forall|k: int|
            0 <= k < rest.len() ==> order.contains(#[trigger] rest[k]) && rest[k] != slot,
    ensures
        vacant_ok(free.push(slot), rest, slots),
{
    let grown = free.push(slot);
    let at = choose|at: int| 0 <= at < order.len() && order[at] == slot;
    assert forall|i: int, j: int|
        0 <= i < grown.len() && 0 <= j < grown.len() && i != j implies grown[i] != grown[j] by {
        if i == free.len() {
            assert(free[j] != order[at]);
        } else if j == free.len() {
            assert(free[i] != order[at]);
        }
    }
    assert forall|j: int, k: int|
        0 <= j < grown.len() && 0 <= k < rest.len() implies #[trigger] grown[j]
        != #[trigger] rest[k] by {
        if j < free.len() {
            let found = choose|found: int| 0 <= found < order.len() && order[found] == rest[k];
            assert(free[j] != order[found]);
        }
    }
}

/// Distinct indices below `slots` are at most `slots` many.
pub(crate) proof fn lemma_distinct_bound(order: Seq<int>, slots: int)
    requires
        0 <= slots,
        order.no_duplicates(),
        forall|k: int| 0 <= k < order.len() ==> 0 <= #[trigger] order[k] < slots,
    ensures
        order.len() <= slots,
{
    if order.len() > 0 {
        order.unique_seq_to_set();
        lemma_int_range(0, slots);
        lemma_len_subset(order.to_set(), set_int_range(0, slots));
    }
}

/// Puts `node` into the vacant slot that `free` lists last, or into a new slot
/// when it lists none.
pub(crate) fn store<N>(nodes: &mut Vec<N>, free: &mut Vec<usize>, node: N) -> (idx: usize)
    requires
        forall|j: int| 0 <= j < old(free).len() ==> (#[trigger] old(free)[j]) < old(nodes).len(),
    ensures
        idx < final(nodes).len(),
        final(nodes)[idx as int] == node,
        forall|k: int|
            0 <= k < old(nodes).len() && k != idx ==> (#[trigger] final(nodes)[k]) == old(nodes)[k],
        old(free).len() > 0 ==> {
            &&& idx == old(free)@.last()
            &&& final(free)@ == old(free)@.drop_last()
            &&& final(nodes).len() == old(nodes).len()
        },
        old(free).len() == 0 ==> {
            &&& idx == old(nodes).len()
            &&& final(free)@ == old(free)@
            &&& final(nodes).len() == old(nodes).len() + 1
        },
{
    match free.pop() {
        Some(idx) => {
            nodes[idx] = node;
            idx
        },
        None => {
            nodes.push(node);
            nodes.len() - 1
        },
    }
}

} // verus!
