//! The flat logical view over an ordered list of absolute byte ranges.
//!
//! Logical position `n` is the `n`-th byte of the concatenation of all the
//! ranges; the layout maps logical intervals back to absolute sub-ranges.
use crate::range::{all_proper, lemma_proper_skip, lemma_seg_sum_front, lemma_seg_sum_prefix, pairs_of, seg_sum, ProgressEntry};
use fast_steal::TaskList;
use vstd::prelude::*;

verus! {

#[verifier::external_type_specification]
#[verifier::external_body]
pub struct ExTaskList(fast_steal::TaskList);

/// The ranges that a `TaskList` was built from, in order.
pub uninterp spec fn list_chunks(t: fast_steal::TaskList) -> Seq<(u64, u64)>;

/// The absolute sub-ranges of `c` that cover logical positions `[lo, hi)`,
/// in order, split at the boundaries between ranges.
pub open spec fn cover(c: Seq<(u64, u64)>, lo: int, hi: int) -> Seq<(u64, u64)>
    decreases c.len(),
{
    if c.len() == 0 {
        Seq::empty()
    } else {
        let l = c[0].1 - c[0].0;
        let s = if lo > 0 { lo } else { 0 };
        let e = if hi < l { hi } else { l };
        let head = if s < e {
            seq![((c[0].0 + s) as u64, (c[0].0 + e) as u64)]
        } else {
            Seq::empty()
        };
        head + cover(c.drop_first(), lo - l, hi - l)
    }
}

/// Every offset of the ranges, and their total length, fit in a `usize`,
/// the coordinate type of `TaskList`.
pub open spec fn fits_usize(c: Seq<(u64, u64)>) -> bool {
    &&& seg_sum(c) <= usize::MAX
    &&& forall|i: int| 0 <= i < c.len() ==> #[trigger] c[i].1 <= usize::MAX
}

/// Relies on `TaskList::from`: the list keeps the given ranges, in order.
/// It adds up their lengths as `usize`; each offset is converted to `usize`,
/// so both must fit.
#[verifier::external_body]
fn build_list(chunks: &Vec<ProgressEntry>) -> (r: TaskList)
    requires
        all_proper(pairs_of(chunks@)),
        fits_usize(pairs_of(chunks@)),
    ensures
        list_chunks(r) == pairs_of(chunks@),
{
    TaskList::from(chunks.iter().map(|c| c.start as usize..c.end as usize).collect::<Vec<_>>())
}

/// Relies on `TaskList::get_range`: the absolute pieces covering the logical
/// positions `lo..hi`, in order, split at range boundaries.
#[verifier::external_body]
fn list_range(t: &TaskList, lo: u64, hi: u64) -> (r: Vec<ProgressEntry>)
    requires
        all_proper(list_chunks(*t)),
        fits_usize(list_chunks(*t)),
        lo <= hi,
        hi <= seg_sum(list_chunks(*t)),
    ensures
        pairs_of(r@) == cover(list_chunks(*t), lo as int, hi as int),
{
    t.get_range(lo as usize..hi as usize).into_iter().map(
        |p| ProgressEntry { start: p.start as u64, end: p.end as u64 },
    ).collect()
}

/// The pieces that cover `[lo, hi)` hold exactly the part of that interval
/// that lies inside the layout, and each of them is proper.
pub proof fn lemma_cover_len(c: Seq<(u64, u64)>, lo: int, hi: int)
    requires
        all_proper(c),
        lo <= hi,
    ensures
        all_proper(cover(c, lo, hi)),
        seg_sum(cover(c, lo, hi)) == {
            let s = if lo > 0 { lo } else { 0 };
            let e = if hi < seg_sum(c) { hi } else { seg_sum(c) };
            if s < e { e - s } else { 0 }
        },
    decreases c.len(),
{
    if c.len() > 0 {
        let l = c[0].1 - c[0].0;
        let rest = c.drop_first();
        lemma_proper_skip(c, 0);
        lemma_cover_len(rest, lo - l, hi - l);
        lemma_seg_sum_front(c);
        lemma_seg_sum_prefix(rest, 0);
        assert(rest.take(0) =~= Seq::<(u64, u64)>::empty());
        let s = if lo > 0 { lo } else { 0 };
        let e = if hi < l { hi } else { l };
        let head = if s < e {
            seq![((c[0].0 + s) as u64, (c[0].0 + e) as u64)]
        } else {
            Seq::<(u64, u64)>::empty()
        };
        let tail = cover(rest, lo - l, hi - l);
        crate::range::lemma_seg_sum_concat(head, tail);
        if s < e {
            assert(head.drop_last().len() == 0);
            assert(c[0].0 + e <= c[0].1);
            assert(head.last().1 == c[0].0 + e);
            assert(head.last().0 == c[0].0 + s);
            assert(seg_sum(head) == seg_sum(head.drop_last()) + (head.last().1 - head.last().0));
            assert(seg_sum(head) == e - s);
        } else {
            assert(seg_sum(head) == 0);
        }
        assert forall|i: int| 0 <= i < (head + tail).len() implies #[trigger] (head + tail)[i].0 < (head
            + tail)[i].1 by {
            if i >= head.len() {
                assert((head + tail)[i] == tail[i - head.len()]);
            }
        }
    }
}

/// Absolute offset of logical position `n`.
pub open spec fn abs_at(c: Seq<(u64, u64)>, n: int) -> int
    decreases c.len(),
{
    if c.len() == 0 {
        0
    } else if n < c[0].1 - c[0].0 {
        c[0].0 + n
    } else {
        abs_at(c.drop_first(), n - (c[0].1 - c[0].0))
    }
}

/// Nothing covers an interval that ends at or before position zero.
pub proof fn lemma_cover_empty(c: Seq<(u64, u64)>, lo: int, hi: int)
    requires
        all_proper(c),
        hi <= 0,
    ensures
        cover(c, lo, hi).len() == 0,
    decreases c.len(),
{
    if c.len() > 0 {
        let l = c[0].1 - c[0].0;
        let rest = c.drop_first();
        lemma_proper_skip(c, 0);
        assert(c[0].0 < c[0].1);
        lemma_cover_empty(rest, lo - l, hi - l);
    }
}

/// Byte `o` of piece `k` of the cover of `[lo, hi)` is the absolute image
/// of the logical position that many bytes past `lo` and the earlier pieces.
#[verifier::rlimit(80)]
#[verifier::spinoff_prover]
pub proof fn lemma_cover_at(c: Seq<(u64, u64)>, lo: int, hi: int, k: int, o: int)
    requires
        all_proper(c),
        lo <= hi,
        0 <= k < cover(c, lo, hi).len(),
        0 <= o < cover(c, lo, hi)[k].1 - cover(c, lo, hi)[k].0,
    ensures
        cover(c, lo, hi)[k].0 + o == abs_at(
            c,
            (if lo > 0 { lo } else { 0 }) + seg_sum(cover(c, lo, hi).take(k)) + o,
        ),
    decreases c.len(),
{
    let l = c[0].1 - c[0].0;
    let rest = c.drop_first();
    lemma_proper_skip(c, 0);
    assert(c[0].0 < c[0].1);
    let s = if lo > 0 { lo } else { 0 };
    let e = if hi < l { hi } else { l };
    let cv = cover(c, lo, hi);
    let tail = cover(rest, lo - l, hi - l);
    lemma_cover_len(rest, lo - l, hi - l);
    if s >= l {
        assert(cv == tail);
        lemma_cover_at(rest, lo - l, hi - l, k, o);
        lemma_seg_sum_prefix(tail, k);
    } else if s < e {
        let head = seq![((c[0].0 + s) as u64, (c[0].0 + e) as u64)];
        assert(cv == head + tail);
        if k == 0 {
            assert(cv.take(0).len() == 0);
            assert(seg_sum(cv.take(0)) == 0);
        } else {
            if hi < l {
                lemma_cover_empty(rest, lo - l, hi - l);
            }
            assert(e == l);
            assert(cv[k] == tail[k - 1]);
            lemma_cover_at(rest, lo - l, hi - l, k - 1, o);
            assert(cv.take(k) =~= head + tail.take(k - 1));
            crate::range::lemma_seg_sum_concat(head, tail.take(k - 1));
            assert(head.drop_last().len() == 0);
            assert(seg_sum(head) == seg_sum(head.drop_last()) + (head.last().1 - head.last().0));
            lemma_seg_sum_prefix(tail, k - 1);
        }
    } else {
        lemma_cover_empty(rest, lo - l, hi - l);
        assert(cv.len() == 0);
    }
}

/// Absolute offset `x` lies in one of the ranges of `c`.
pub open spec fn in_chunks(c: Seq<(u64, u64)>, x: int) -> bool {
    exists|i: int| 0 <= i < c.len() && (#[trigger] c[i]).0 <= x < c[i].1
}

proof fn abs_into(c: Seq<(u64, u64)>, n: int) -> (i: int)
    requires
        all_proper(c),
        0 <= n < seg_sum(c),
    ensures
        0 <= i < c.len(),
        c[i].0 <= abs_at(c, n) < c[i].1,
    decreases c.len(),
{
    let rest = c.drop_first();
    if c.len() == 0 {
        assert(seg_sum(c) == 0);
    }
    lemma_seg_sum_front(c);
    if n < c[0].1 - c[0].0 {
        0
    } else {
        lemma_proper_skip(c, 0);
        let j = abs_into(rest, n - (c[0].1 - c[0].0));
        assert(rest[j] == c[j + 1]);
        j + 1
    }
}

proof fn abs_onto(c: Seq<(u64, u64)>, i: int, x: int) -> (n: int)
    requires
        all_proper(c),
        0 <= i < c.len(),
        c[i].0 <= x < c[i].1,
    ensures
        0 <= n < seg_sum(c),
        abs_at(c, n) == x,
    decreases c.len(),
{
    let rest = c.drop_first();
    let l = c[0].1 - c[0].0;
    lemma_seg_sum_front(c);
    lemma_proper_skip(c, 0);
    lemma_seg_sum_prefix(rest, 0);
    assert(rest.take(0) =~= Seq::<(u64, u64)>::empty());
    if i == 0 {
        x - c[0].0
    } else {
        assert(rest[i - 1] == c[i]);
        let m = abs_onto(rest, i - 1, x);
        m + l
    }
}

/// The logical positions `[0, total)` map onto exactly the absolute offsets
/// of the ranges: every position lands in a range, and every offset of a
/// range is the image of some position.
pub proof fn lemma_abs_covers_chunks(c: Seq<(u64, u64)>)
    requires
        all_proper(c),
    ensures
        forall|n: int| 0 <= n < seg_sum(c) ==> in_chunks(c, #[trigger] abs_at(c, n)),
        forall|x: int| in_chunks(c, x) ==> exists|n: int| 0 <= n < seg_sum(c) && #[trigger] abs_at(c, n) == x,
{
    assert forall|n: int| 0 <= n < seg_sum(c) implies in_chunks(c, #[trigger] abs_at(c, n)) by {
        let i = abs_into(c, n);
        assert(c[i].0 <= abs_at(c, n) < c[i].1);
    }
    assert forall|x: int| in_chunks(c, x) implies exists|n: int| 0 <= n < seg_sum(c) && #[trigger] abs_at(c, n) == x by {
        let i = choose|i: int| 0 <= i < c.len() && (#[trigger] c[i]).0 <= x < c[i].1;
        let n = abs_onto(c, i, x);
        assert(abs_at(c, n) == x);
    }
}

/// Covering every logical position gives back the ranges themselves: read
/// in full, the layout fetches exactly the chunk set, in order.
pub proof fn lemma_cover_whole(c: Seq<(u64, u64)>, lo: int, hi: int)
    requires
        all_proper(c),
        lo <= 0,
        seg_sum(c) <= hi,
    ensures
        cover(c, lo, hi) == c,
    decreases c.len(),
{
    if c.len() > 0 {
        let l = c[0].1 - c[0].0;
        let rest = c.drop_first();
        lemma_proper_skip(c, 0);
        lemma_seg_sum_front(c);
        lemma_seg_sum_prefix(rest, 0);
        assert(rest.take(0) =~= Seq::<(u64, u64)>::empty());
        lemma_cover_whole(rest, lo - l, hi - l);
        assert(c[0].0 < c[0].1);
        assert(cover(c, lo, hi) =~= seq![c[0]] + rest);
        assert(seq![c[0]] + rest =~= c);
    } else {
        assert(cover(c, lo, hi) =~= c);
    }
}

/// The chunk layout: an ordered list of proper absolute ranges and their
/// total length.
pub struct Layout {
    list: TaskList,
    total: u64,
}

impl Layout {
    /// The ranges the layout was built from, as `(start, end)` pairs.
    pub closed spec fn chunks(&self) -> Seq<(u64, u64)> {
        list_chunks(self.list)
    }

    pub closed spec fn total_spec(&self) -> int {
        self.total as int
    }

    pub open spec fn wf(&self) -> bool {
        &&& all_proper(self.chunks())
        &&& fits_usize(self.chunks())
        &&& self.total_spec() == seg_sum(self.chunks())
    }

    /// Builds the layout of `chunks`. Fails exactly when one of them is not
    /// proper, or when an offset or the total length does not fit in a
    /// `usize`.
    pub fn new(chunks: &Vec<ProgressEntry>) -> (r: Option<Layout>)
        ensures
            r.is_some() <==> (all_proper(pairs_of(chunks@)) && fits_usize(pairs_of(chunks@))),
            r matches Some(l) ==> l.wf() && l.chunks() == pairs_of(chunks@),
    {
        let ghost p = pairs_of(chunks@);
        let cap: u64 = usize::MAX as u64;
        let mut total: u64 = 0;
        let mut i: usize = 0;
        while i < chunks.len()
            invariant
                p == pairs_of(chunks@),
                cap == usize::MAX,
                i <= chunks.len(),
                all_proper(p.take(i as int)),
                total == seg_sum(p.take(i as int)),
                total <= cap,
                forall|k: int| 0 <= k < i ==> #[trigger] p[k].1 <= usize::MAX,
            decreases chunks.len() - i,
        {
            let c = chunks[i];
            assert(p.take(i + 1).drop_last() =~= p.take(i as int));
            if c.start >= c.end {
                assert(!(p[i as int].0 < p[i as int].1));
                return None;
            }
            if c.end > cap {
                assert(!(p[i as int].1 <= usize::MAX));
                return None;
            }
            let n = c.end - c.start;
            match total.checked_add(n) {
                Some(t) => {
                    if t > cap {
                        proof {
                            if all_proper(p) {
                                lemma_seg_sum_prefix(p, i + 1);
                            }
                        }
                        return None;
                    }
                    total = t;
                },
                None => {
                    proof {
                        if all_proper(p) {
                            lemma_seg_sum_prefix(p, i + 1);
                        }
                    }
                    return None;
                },
            }
            i = i + 1;
        }
        assert(p.take(i as int) =~= p);
        let list = build_list(chunks);
        Some(Layout { list, total })
    }

    /// Total number of logical positions.
    pub fn total_len(&self) -> (r: u64)
        ensures
            r == self.total_spec(),
    {
        self.total
    }

    /// The absolute pieces covering logical positions `[lo, hi)`, in order.
    /// Their lengths add up to `hi - lo`.
    pub fn range(&self, lo: u64, hi: u64) -> (r: Vec<ProgressEntry>)
        requires
            self.wf(),
            lo <= hi <= self.total_spec(),
        ensures
            pairs_of(r@) == cover(self.chunks(), lo as int, hi as int),
            all_proper(pairs_of(r@)),
            seg_sum(pairs_of(r@)) == hi - lo,
    {
        let r = list_range(&self.list, lo, hi);
        proof {
            lemma_cover_len(self.chunks(), lo as int, hi as int);
        }
        r
    }
}

} // verus!
