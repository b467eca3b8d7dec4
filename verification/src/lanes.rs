//! The shared-memory tier: the pool of parallel lanes that rayon provides.

use rayon::iter::IntoParallelIterator;
use rayon::iter::ParallelIterator;
use vstd::layout::size_of;
use vstd::prelude::*;

verus! {

/// Whether one allocation can hold `len` values of `T`: no allocation is
/// larger than `isize::MAX` bytes.
pub open spec fn fits_one_allocation<T>(len: usize) -> bool {
    len * size_of::<T>() <= isize::MAX
}

/// Tells whether one allocation can hold `len` values of `T`.
pub(crate) fn allocation_fits<T>(len: usize) -> (fits: bool)
    ensures
        fits == fits_one_allocation::<T>(len),
{
    match len.checked_mul(core::mem::size_of::<T>()) {
        Some(bytes) => bytes <= isize::MAX as usize,
        None => false,
    }
}

/// Calls `rayon::current_num_threads`: the number of threads in the pool that
/// the calling thread would run parallel work on. Nothing is claimed of the
/// number, which depends on the machine and on how the pool was set up.
#[verifier::external_body]
pub(crate) fn available_lanes() -> (lanes: usize) {
    rayon::current_num_threads()
}

/// Runs `(0..jobs).into_par_iter().map(job).collect()` on rayon's pool.
/// Claimed of rayon: `map` applies `job` to every index below `jobs`, and
/// `collect` into a `Vec` keeps the results in the order of the indices, so
/// the entry at `x` is a result of `job(x)`. Which lane runs which job, and
/// when, is left open. `collect` reserves room for all `jobs` results at
/// once, which is why they have to fit one allocation.
#[verifier::external_body]
pub(crate) fn run_indexed<T: Send, J: Fn(usize) -> T + Sync + Send>(jobs: usize, job: J) -> (out:
    Vec<T>)
    requires
        fits_one_allocation::<T>(jobs),
        forall|x: usize| x < jobs ==> job.requires((x,)),
    ensures
        out.len() == jobs,
        forall|x: int| 0 <= x < jobs ==> job.ensures((x as usize,), #[trigger] out[x]),
{
    (0..jobs).into_par_iter().map(job).collect()
}

} // verus!
