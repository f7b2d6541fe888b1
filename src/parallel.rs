//! The fork-join step of the assignment: each worker thread clusters one
//! contiguous range of the samples.

use vstd::prelude::*;
use crate::color::LAB;
use crate::kmeans::{assign_range, cluster_of};

verus! {

/// Runs `assign_range` on each range of `ranges`, one scoped thread per
/// range, and returns the results in the order of `ranges`.
///
/// Relies on `crossbeam_utils::thread::scope`: every thread spawned in the
/// scope has finished before `scope` returns, and `ScopedJoinHandle::join`
/// hands back the value that the thread's closure returned. Each closure
/// only calls the verified `assign_range`, whose `requires` hold here, so no
/// thread panics; `spawn` itself panics only when the system cannot start a
/// thread.
#[verifier::external_body]
pub(crate) fn assign_ranges_in_parallel(
    pixels: &Vec<LAB>,
    means: &Vec<LAB>,
    ranges: &Vec<(usize, usize)>,
) -> (r: Vec<Vec<Vec<LAB>>>)
    requires
        means.len() > 0,
        forall|w: int| 0 <= w < ranges.len() ==> (#[trigger] ranges[w]).0 <= ranges[w].1 <= pixels.len(),
    ensures
        r.len() == ranges.len(),
        forall|w: int|
            0 <= w < r.len() ==> (#[trigger] r[w]).len() == means.len() && forall|j: int|
                0 <= j < means.len() ==> r[w][j]@ == cluster_of(
                    pixels@.subrange(ranges[w].0 as int, ranges[w].1 as int),
                    means@,
                    j,
                ),
{
    crossbeam_utils::thread::scope(|s| {
        let handles: Vec<_> = ranges.iter().map(
            |&(lo, hi)| s.spawn(move |_| assign_range(pixels, means, lo, hi)),
        ).collect();
        handles.into_iter().map(|h| h.join().unwrap()).collect()
    }).unwrap()
}

} // verus!
