//! Work spread over the threads of the process-wide pool.

use rayon::iter::{IndexedParallelIterator, IntoParallelRefIterator, ParallelIterator};
use vstd::prelude::*;

verus! {

/// rayon's `par_iter().map(..).collect_into_vec(..)`: `f` is applied to every
/// item, on whichever thread, and the results stand in the order of the
/// items.
#[verifier::external_body]
pub(crate) fn par_map<T: Sync, U: Send, F: Fn(&T) -> U + Sync + Send>(items: &Vec<T>, f: F) -> (out:
    Vec<U>)
    requires
        forall|i: int| 0 <= i < items@.len() ==> call_requires(f, (&#[trigger] items@[i],)),
    ensures
        out@.len() == items@.len(),
        forall|i: int| 0 <= i < items@.len() ==> call_ensures(f, (&items@[i],), #[trigger] out@[i]),
{
    let mut out = Vec::new();
    items.par_iter().map(f).collect_into_vec(&mut out);
    out
}

} // verus!
