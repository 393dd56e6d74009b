//! Work spread over threads with `rayon`.

use rayon::iter::{IntoParallelRefIterator, ParallelIterator};
use vstd::prelude::*;

verus! {

/// Calls `f` on every item of `items` on rayon's thread pool: `par_iter`,
/// `map` and `collect` into a `Vec`. Rayon's indexed parallel iterators
/// collect their results in the order of the items, so result `i` is the
/// value that `f` returned for item `i`.
#[verifier::external_body]
pub(crate) fn par_map<T: Sync, U: Send, F: Fn(&T) -> U + Sync + Send>(items: &Vec<T>, f: F) -> (out: Vec<U>)
    requires
        forall|i: int| 0 <= i < items.len() ==> #[trigger] f.requires((&items[i],)),
    ensures
        out.len() == items.len(),
        forall|i: int| 0 <= i < items.len() ==> #[trigger] f.ensures((&items[i],), out[i]),
{
    items.par_iter().map(f).collect()
}

} // verus!
