//! Work shared out over the threads of the global pool.

use rayon::iter::{IntoParallelRefIterator, ParallelIterator};
use vstd::prelude::*;

verus! {

/// Calls `f` once on each of `items` on the `rayon` thread pool and strings the
/// results together.
///
/// Stated of `ParallelIterator::flat_map` and `collect` over a slice's
/// `par_iter`: whatever the threads do, the collected vector holds, in the
/// order of `items`, the vectors that `f` returned for them.
#[verifier::external_body]
pub(crate) fn par_flat_map<T: Sync, U: Send, F: Fn(&T) -> Vec<U> + Sync + Send>(
    items: &[T],
    f: F,
) -> (r: Vec<U>)
    requires
        forall|i: int| 0 <= i < items@.len() ==> call_requires(f, (&#[trigger] items@[i],)),
    ensures
        exists|parts: Seq<Vec<U>>|
            #![trigger parts.len()]
            {
                &&& parts.len() == items@.len()
                &&& forall|i: int|
                    0 <= i < items@.len() ==> call_ensures(f, (&items@[i],), #[trigger] parts[i])
                &&& r@ == parts.map_values(|part: Vec<U>| part@).flatten()
            },
{
    items.par_iter().flat_map(f).collect()
}

} // verus!
