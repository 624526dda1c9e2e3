//! Independent pieces of work, handed out to threads.
use rayon::iter::{IntoParallelIterator, ParallelIterator};
use vstd::prelude::*;

verus! {

/// What `f` gives for `0`, `1`, .. `n - 1`, each on a thread of its own choosing,
/// in this order.
///
/// Calls `map` and `collect` of rayon's parallel iterator over the range. Claimed
/// of them: every index is handed to `f` once, and the results are collected in
/// index order.
#[verifier::external_body]
pub(crate) fn par_map<R: Send, F: Fn(usize) -> R + Sync + Send>(n: usize, f: F) -> (out: Vec<R>)
    requires
        forall|i: usize| i < n ==> call_requires(f, (i,)),
    ensures
        out@.len() == n,
        forall|i: int| 0 <= i < n ==> call_ensures(f, (i as usize,), #[trigger] out@[i]),
{
    (0..n).into_par_iter().map(f).collect()
}

} // verus!
