//! Engine configuration and the start-up plan derived from it.
use crate::layout::{fits_usize, Layout};
use crate::range::{all_proper, pairs_of, seg_sum, ProgressEntry};
use crate::slots::{bound, partition, Slot};
use core::time::Duration;
use vstd::prelude::*;

verus! {

/// Relies on `Duration`'s `Clone`: `Duration` is `Copy`, so a clone is the
/// same value.
pub assume_specification[ <core::time::Duration as core::clone::Clone>::clone ](
    d: &core::time::Duration,
) -> (r: core::time::Duration)
    ensures
        r == *d,
;

#[derive(Debug, Clone)]
pub struct DownloadOptions {
    /// The absolute ranges to fetch, in order.
    pub download_chunks: Vec<ProgressEntry>,
    /// Number of workers; at least one.
    pub concurrent: usize,
    /// Pause between retries of a failed read, write or flush.
    pub retry_gap: Duration,
    /// Capacity of the queue between the workers and the writer.
    pub write_queue_cap: usize,
}

/// The shared start-up state: the chunk layout and one slice per worker.
pub struct Plan {
    pub layout: Layout,
    pub slots: Vec<Slot>,
}

impl DownloadOptions {
    /// Builds the layout of `download_chunks` and splits its logical
    /// positions evenly among `concurrent` workers. Fails exactly when there
    /// are no workers, a chunk is empty or reversed, or an offset or the
    /// total length does not fit in a `usize`.
    pub fn plan(&self) -> (r: Option<Plan>)
        ensures
            r.is_some() <==> (self.concurrent >= 1 && all_proper(pairs_of(self.download_chunks@))
                && fits_usize(pairs_of(self.download_chunks@))),
            r matches Some(p) ==> {
                let total = seg_sum(pairs_of(self.download_chunks@));
                &&& p.layout.wf()
                &&& p.layout.chunks() == pairs_of(self.download_chunks@)
                &&& p.layout.total_spec() == total
                &&& p.slots@.len() == self.concurrent
                &&& forall|i: int|
                    0 <= i < p.slots@.len() ==> #[trigger] p.slots@[i] == (Slot {
                        start: bound(total, p.slots@.len() as int, i) as u64,
                        end: bound(total, p.slots@.len() as int, i + 1) as u64,
                    })
            },
    {
        if self.concurrent == 0 {
            return None;
        }
        match Layout::new(&self.download_chunks) {
            None => None,
            Some(layout) => {
                let slots = partition(layout.total_len(), self.concurrent);
                Some(Plan { layout, slots })
            },
        }
    }
}

} // verus!
