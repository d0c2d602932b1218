//! The data-parallel loop that batch verification runs on.

use rayon::iter::{IntoParallelIterator, ParallelIterator};
use vstd::prelude::*;

verus! {

/// `into_par_iter`, `map` and `collect` of rayon over the indices below `n`:
/// the task is run once for each index, on rayon's thread pool, and the
/// results come back in the order of the indices.
#[verifier::external_body]
pub(crate) fn par_map<U: Send, F: Fn(usize) -> U + Sync + Send>(n: usize, task: F) -> (r: Vec<U>)
    requires
        forall|i: usize| i < n ==> call_requires(task, (i,)),
    ensures
        r@.len() == n,
        forall|i: usize| i < n ==> call_ensures(task, (i,), #[trigger] r@[i as int]),
{
    (0..n).into_par_iter().map(task).collect()
}

} // verus!
