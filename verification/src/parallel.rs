//! Work that is spread over threads.

use rayon::prelude::{IntoParallelIterator, ParallelIterator};
use vstd::prelude::*;

verus! {

/// `rayon`'s `(0..count).into_par_iter().map(job).collect()`.
///
/// The parallel iterator over a range is indexed, and collecting an indexed parallel iterator
/// into a `Vec` keeps its order: element `i` of the result is what `job` returned for `i`,
/// on whichever thread it ran.
#[verifier::external_body]
pub(crate) fn par_map<R: Send, F: Fn(usize) -> R + Send + Sync>(count: usize, job: F) -> (results:
    Vec<R>)
    requires
        forall|i: usize| i < count ==> #[trigger] call_requires(job, (i,)),
    ensures
        results@.len() == count,
        forall|i: int|
            0 <= i < count ==> call_ensures(job, (i as usize,), #[trigger] results@[i]),
{
    (0..count).into_par_iter().map(job).collect()
}

} // verus!
