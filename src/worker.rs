//! One worker's decisions: what to read next, which part of a received
//! chunk to report and hand to the writer, and when to reload its slice,
//! steal, or stop.
//!
//! The worker walks a plan: the absolute ranges covering its slice at the
//! moment it was loaded. It also tracks `pos`, the logical position of the
//! next byte it will receive.
use crate::layout::{abs_at, cover, lemma_cover_at, Layout};
use crate::range::{all_proper, lemma_seg_sum_front, lemma_seg_sum_prefix, pairs_of, seg_sum, ProgressEntry};
use crate::slots::Slot;
use vstd::prelude::*;

verus! {

/// What the worker does next.
#[derive(Clone, Copy, Debug, PartialEq, Eq, Structural)]
pub enum Step {
    /// The running flag is clear: report `Cancelled` and exit.
    Cancel,
    /// The own slice is empty: take the steal lock and try to steal.
    Steal,
    /// Report `Reading` and open a read of this absolute range.
    Read(ProgressEntry),
    /// Load the slice again and plan from its current start.
    Reload,
}

/// What to do with one received chunk.
#[derive(Clone, Copy, Debug, PartialEq, Eq, Structural)]
pub enum ChunkStep {
    /// The running flag is clear: drop the chunk, report `Cancelled`, exit.
    Cancel,
    /// Report `span` as read and queue the chunk's first `span` bytes for
    /// writing (nothing when `span` is `None`); then reload the slice when
    /// `reload` is set, or wait for the next chunk.
    Take { span: Option<ProgressEntry>, reload: bool },
}

pub struct Worker {
    plan: Vec<ProgressEntry>,
    idx: usize,
    consumed: u64,
    pos: u64,
    plan_start: u64,
    plan_end: u64,
    chunks: Ghost<Seq<(u64, u64)>>,
}

/// Bytes of a chunk of `len` bytes at logical position `pos` that lie
/// before the slice end `end`.
pub open spec fn kept(pos: int, len: int, end: int) -> int {
    if pos >= end {
        0
    } else if len <= end - pos {
        len
    } else {
        end - pos
    }
}

impl Worker {
    /// The absolute ranges planned at the last load.
    pub closed spec fn plan(&self) -> Seq<ProgressEntry> {
        self.plan@
    }

    /// Index of the range being read.
    pub closed spec fn idx(&self) -> int {
        self.idx as int
    }

    /// Bytes received so far of the range being read.
    pub closed spec fn consumed(&self) -> int {
        self.consumed as int
    }

    /// Logical position of the next byte to be received.
    pub closed spec fn pos(&self) -> int {
        self.pos as int
    }

    /// The layout's ranges, as of the last load.
    pub closed spec fn chunks(&self) -> Seq<(u64, u64)> {
        self.chunks@
    }

    /// Logical start of the slice at the last load.
    pub closed spec fn plan_start(&self) -> int {
        self.plan_start as int
    }

    /// Logical end of the slice at the last load.
    pub closed spec fn plan_end(&self) -> int {
        self.plan_end as int
    }

    pub closed spec fn wf(&self) -> bool {
        let p = pairs_of(self.plan@);
        &&& self.idx <= self.plan@.len()
        &&& all_proper(p)
        &&& self.idx < self.plan@.len() ==> self.consumed <= self.plan@[self.idx as int].len_spec()
        &&& self.idx == self.plan@.len() ==> self.consumed == 0
        &&& self.pos + seg_sum(p.skip(self.idx as int)) - self.consumed == self.plan_end
        &&& all_proper(self.chunks@)
        &&& self.plan_start <= self.plan_end
        &&& p == cover(self.chunks@, self.plan_start as int, self.plan_end as int)
        &&& self.pos == self.plan_start + seg_sum(p.take(self.idx as int)) + self.consumed
    }

    /// A worker with nothing planned.
    pub fn new() -> (r: Worker)
        ensures
            r.wf(),
            r.plan().len() == 0,
    {
        let w = Worker {
            plan: Vec::new(),
            idx: 0,
            consumed: 0,
            pos: 0,
            plan_start: 0,
            plan_end: 0,
            chunks: Ghost(Seq::empty()),
        };
        assert(pairs_of(w.plan@).skip(0).len() == 0);
        assert(pairs_of(w.plan@) =~= cover(w.chunks@, 0, 0));
        assert(pairs_of(w.plan@).take(0).len() == 0);
        w
    }

    /// Whether a planned range is being read.
    pub fn reading(&self) -> (r: bool)
        requires
            self.wf(),
        ensures
            r == (self.idx() < self.plan().len()),
    {
        self.idx < self.plan.len()
    }

    /// Bytes of the range being read that have not been received yet.
    pub fn range_left(&self) -> (r: u64)
        requires
            self.wf(),
            self.idx() < self.plan().len(),
        ensures
            r == self.plan()[self.idx()].len_spec() - self.consumed(),
    {
        let range = self.plan[self.idx];
        proof {
            crate::range::lemma_proper_at(self.plan@, self.idx as int);
        }
        range.end - range.start - self.consumed
    }

    /// Top of the worker loop, given the running flag and the worker's slice
    /// as just loaded. With work left, plans the absolute ranges covering the
    /// slice and starts reading the first.
    pub fn begin(&mut self, running: bool, slot: Slot, layout: &Layout) -> (r: Step)
        requires
            old(self).wf(),
            layout.wf(),
            slot.end <= layout.total_spec(),
        ensures
            final(self).wf(),
            !running ==> r == Step::Cancel && *final(self) == *old(self),
            running && slot.start >= slot.end ==> r == Step::Steal && *final(self) == *old(self),
            running && slot.start < slot.end ==> {
                &&& pairs_of(final(self).plan()) == crate::layout::cover(
                    layout.chunks(),
                    slot.start as int,
                    slot.end as int,
                )
                &&& final(self).plan().len() > 0
                &&& r == Step::Read(final(self).plan()[0])
                &&& final(self).idx() == 0
                &&& final(self).consumed() == 0
                &&& final(self).pos() == slot.start
                &&& final(self).plan_start() == slot.start
                &&& final(self).plan_end() == slot.end
                &&& final(self).chunks() == layout.chunks()
            },
    {
        if !running {
            return Step::Cancel;
        }
        if slot.start >= slot.end {
            return Step::Steal;
        }
        let plan = layout.range(slot.start, slot.end);
        proof {
            assert(pairs_of(plan@).skip(0) =~= pairs_of(plan@));
            if plan@.len() == 0 {
                assert(pairs_of(plan@).len() == 0);
            }
            crate::range::lemma_proper_at(plan@, 0);
        }
        let first = plan[0];
        *self = Worker {
            plan,
            idx: 0,
            consumed: 0,
            pos: slot.start,
            plan_start: slot.start,
            plan_end: slot.end,
            chunks: Ghost(layout.chunks()),
        };
        assert(pairs_of(self.plan@).take(0).len() == 0);
        assert(seg_sum(pairs_of(self.plan@).take(0)) == 0);
        Step::Read(first)
    }

    proof fn lemma_rest(&self)
        requires
            self.wf(),
            self.idx() < self.plan().len(),
        ensures
            self.plan()[self.idx()].start < self.plan()[self.idx()].end,
            seg_sum(pairs_of(self.plan()).skip(self.idx() + 1)) >= 0,
            self.pos() + self.plan()[self.idx()].len_spec() - self.consumed() + seg_sum(
                pairs_of(self.plan()).skip(self.idx() + 1),
            ) == self.plan_end(),
    {
        let p = pairs_of(self.plan@);
        let i = self.idx as int;
        crate::range::lemma_proper_at(self.plan@, i);
        lemma_seg_sum_front(p.skip(i));
        assert(p.skip(i).drop_first() =~= p.skip(i + 1));
        let rest = p.skip(i + 1);
        crate::range::lemma_proper_skip(p, i + 1);
        lemma_seg_sum_prefix(rest, 0);
    }

    /// A chunk of `len` bytes was received for the range being read, and the
    /// slice now ends at `end_now` (a thief may have cut it). Only the part
    /// of the chunk before that end is reported and written; the slice is
    /// reloaded once the worker has reached it.
    pub fn on_chunk(&mut self, running: bool, len: u64, end_now: u64) -> (r: ChunkStep)
        requires
            old(self).wf(),
            old(self).idx() < old(self).plan().len(),
            len <= old(self).plan()[old(self).idx()].len_spec() - old(self).consumed(),
        ensures
            final(self).wf(),
            !running ==> r == ChunkStep::Cancel && *final(self) == *old(self),
            running ==> {
                let keep = kept(old(self).pos(), len as int, end_now as int);
                let at = old(self).plan()[old(self).idx()].start + old(self).consumed();
                &&& r == ChunkStep::Take {
                    span: if keep > 0 {
                        Some(ProgressEntry { start: at as u64, end: (at + keep) as u64 })
                    } else {
                        None
                    },
                    reload: old(self).pos() + len >= end_now,
                }
                &&& final(self).plan() == old(self).plan()
                &&& final(self).idx() == old(self).idx()
                &&& final(self).consumed() == old(self).consumed() + len
                &&& final(self).pos() == old(self).pos() + len
                &&& final(self).plan_start() == old(self).plan_start()
                &&& final(self).plan_end() == old(self).plan_end()
                &&& final(self).chunks() == old(self).chunks()
                &&& forall|o: int|
                    0 <= o < keep ==> at + o == #[trigger] abs_at(
                        old(self).chunks(),
                        old(self).pos() + o,
                    )
            },
    {
        if !running {
            return ChunkStep::Cancel;
        }
        proof {
            let p = pairs_of(self.plan@);
            let i = self.idx as int;
            assert(p[i] == self.plan@[i].pair());
            let keep = kept(self.pos as int, len as int, end_now as int);
            assert forall|o: int| 0 <= o < keep implies self.plan@[i].start + self.consumed + o
                == #[trigger] abs_at(self.chunks@, self.pos + o) by {
                lemma_cover_at(
                    self.chunks@,
                    self.plan_start as int,
                    self.plan_end as int,
                    i,
                    self.consumed + o,
                );
            }
        }
        proof {
            self.lemma_rest();
        }
        let range = self.plan[self.idx];
        let at = range.start + self.consumed;
        let keep: u64 = if self.pos >= end_now {
            0
        } else if len <= end_now - self.pos {
            len
        } else {
            end_now - self.pos
        };
        let span = if keep > 0 {
            Some(ProgressEntry { start: at, end: at + keep })
        } else {
            None
        };
        self.consumed = self.consumed + len;
        self.pos = self.pos + len;
        ChunkStep::Take { span, reload: self.pos >= end_now }
    }

    /// The read of the current range has ended. When it delivered the whole
    /// range the worker moves to the next one; a short read reloads the
    /// slice, so that planning starts again at the first byte not received.
    pub fn on_stream_end(&mut self, running: bool) -> (r: Step)
        requires
            old(self).wf(),
            old(self).idx() < old(self).plan().len(),
        ensures
            final(self).wf(),
            old(self).consumed() < old(self).plan()[old(self).idx()].len_spec() ==> r
                == Step::Reload && *final(self) == *old(self),
            old(self).consumed() == old(self).plan()[old(self).idx()].len_spec() ==> {
                &&& r == if !running {
                    Step::Cancel
                } else if old(self).idx() + 1 < old(self).plan().len() {
                    Step::Read(old(self).plan()[old(self).idx() + 1])
                } else {
                    Step::Reload
                }
                &&& final(self).plan() == old(self).plan()
                &&& final(self).idx() == old(self).idx() + 1
                &&& final(self).consumed() == 0
                &&& final(self).pos() == old(self).pos()
                &&& final(self).plan_start() == old(self).plan_start()
                &&& final(self).plan_end() == old(self).plan_end()
                &&& final(self).chunks() == old(self).chunks()
            },
    {
        proof {
            self.lemma_rest();
        }
        let range = self.plan[self.idx];
        if self.consumed < range.end - range.start {
            return Step::Reload;
        }
        let n = self.plan.len();
        proof {
            let p = pairs_of(self.plan@);
            let i = self.idx as int;
            assert(p.take(i + 1).drop_last() =~= p.take(i));
            assert(p[i] == self.plan@[i].pair());
        }
        self.idx = self.idx + 1;
        self.consumed = 0;
        proof {
            if self.idx == n {
                assert(pairs_of(self.plan@).skip(self.idx as int).len() == 0);
                assert(seg_sum(pairs_of(self.plan@).skip(self.idx as int)) == 0);
            } else {
                crate::range::lemma_proper_at(self.plan@, self.idx as int);
            }
        }
        if !running {
            Step::Cancel
        } else if self.idx < self.plan.len() {
            proof {
                crate::range::lemma_proper_at(self.plan@, self.idx as int);
            }
            Step::Read(self.plan[self.idx])
        } else {
            Step::Reload
        }
    }

    /// A read failed and the retry gap has passed. While running, the slice
    /// is reloaded, so the read is retried from the first byte not yet
    /// received; the plan itself is left as it was.
    pub fn on_read_error(&mut self, running: bool) -> (r: Step)
        requires
            old(self).wf(),
        ensures
            final(self).wf(),
            *final(self) == *old(self),
            r == if running {
                Step::Reload
            } else {
                Step::Cancel
            },
    {
        if running {
            Step::Reload
        } else {
            Step::Cancel
        }
    }
}

} // verus!
