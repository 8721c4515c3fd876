//! The collections the planners keep their search state in: a priority queue
//! of open cells, and hash tables keyed by cell coordinates.
//!
//! Everything here is a thin contract over a collection implemented elsewhere;
//! nothing in this file is proved.

use priority_queue::PriorityQueue;
use rustc_hash::{FxBuildHasher, FxHashMap, FxHashSet};
use std::cmp::Reverse;
use vstd::prelude::*;

verus! {

/// `rustc_hash::FxBuildHasher`, the hasher of the cell sets and maps.
#[verifier::external_type_specification]
#[verifier::external_body]
pub struct ExFxBuildHasher(FxBuildHasher);

/// `std::cmp::Reverse`, which turns the queue of greatest priority into a
/// queue of least estimate.
#[verifier::external_type_specification]
#[verifier::external_body]
#[verifier::reject_recursive_types(T)]
pub struct ExReverse<T>(Reverse<T>);

/// `priority_queue::PriorityQueue`: items with priorities, each item at most
/// once.
#[verifier::external_type_specification]
#[verifier::external_body]
#[verifier::reject_recursive_types(I)]
#[verifier::reject_recursive_types(P)]
#[verifier::reject_recursive_types(H)]
pub struct ExPriorityQueue<I, P, H>(PriorityQueue<I, P, H>);

/// The cells a frontier queue holds, each with the estimate it was queued
/// under.
pub uninterp spec fn frontier_entries(q: PriorityQueue<(i32, i32), Reverse<i64>>) -> Map<
    (i32, i32),
    i64,
>;

/// `PriorityQueue::new`: a queue that holds nothing.
#[verifier::external_body]
pub(crate) fn frontier_new() -> (q: PriorityQueue<(i32, i32), Reverse<i64>>)
    ensures
        frontier_entries(q) == (Map::<(i32, i32), i64>::empty()),
{
    PriorityQueue::new()
}

/// `PriorityQueue::push` with a reversed priority: the cell is queued under
/// `estimate`, replacing the estimate it had if it was already queued.
#[verifier::external_body]
pub(crate) fn frontier_push(
    q: &mut PriorityQueue<(i32, i32), Reverse<i64>>,
    cell: (i32, i32),
    estimate: i64,
)
    ensures
        frontier_entries(*final(q)) == frontier_entries(*old(q)).insert(cell, estimate),
{
    q.push(cell, Reverse(estimate));
}

/// `PriorityQueue::pop` with reversed priorities: nothing when the queue is
/// empty, otherwise some queued cell whose estimate no other queued cell is
/// below, which leaves the queue. Which of several cells with the least
/// estimate leaves is left open.
#[verifier::external_body]
pub(crate) fn frontier_pop(q: &mut PriorityQueue<(i32, i32), Reverse<i64>>) -> (r: Option<
    ((i32, i32), i64),
>)
    ensures
        r is None ==> frontier_entries(*old(q)).dom() =~= (Set::<(i32, i32)>::empty()) && frontier_entries(
            *final(q),
        ) == frontier_entries(*old(q)),
        r matches Some(e) ==> frontier_entries(*old(q)).dom().contains(e.0) && frontier_entries(
            *old(q),
        )[e.0] == e.1 && frontier_entries(*final(q)) == frontier_entries(*old(q)).remove(e.0),
        r matches Some(e) ==> (forall|k: (i32, i32)| #[trigger]
            frontier_entries(*old(q)).dom().contains(k) ==> e.1 <= frontier_entries(*old(q))[k]),
{
    match q.pop() {
        Some((cell, Reverse(estimate))) => Some((cell, estimate)),
        None => None,
    }
}

/// `HashSet::contains` on a set hashed with `FxBuildHasher`.
#[verifier::external_body]
pub(crate) fn cell_set_contains(set: &FxHashSet<(i32, i32)>, cell: (i32, i32)) -> (r: bool)
    ensures
        r == set@.contains(cell),
{
    set.contains(&cell)
}

/// `HashSet::insert` on a set hashed with `FxBuildHasher`.
#[verifier::external_body]
pub(crate) fn cell_set_insert(set: &mut FxHashSet<(i32, i32)>, cell: (i32, i32))
    ensures
        final(set)@ == old(set)@.insert(cell),
{
    set.insert(cell);
}

/// `HashMap::get` on a map hashed with `FxBuildHasher`, copying the value out.
#[verifier::external_body]
pub(crate) fn cell_map_get<V: Copy>(map: &FxHashMap<(i32, i32), V>, cell: (i32, i32)) -> (r:
    Option<V>)
    ensures
        r == (if map@.dom().contains(cell) {
            Some(map@[cell])
        } else {
            None
        }),
{
    map.get(&cell).copied()
}

/// `HashMap::insert` on a map hashed with `FxBuildHasher`.
#[verifier::external_body]
pub(crate) fn cell_map_insert<V>(map: &mut FxHashMap<(i32, i32), V>, cell: (i32, i32), value: V)
    ensures
        final(map)@ == old(map)@.insert(cell, value),
{
    map.insert(cell, value);
}

} // verus!
