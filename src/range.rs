//! Half-open byte intervals.
use vstd::prelude::*;

verus! {

/// The half-open interval `[start, end)` of absolute byte offsets.
#[derive(Clone, Copy, Debug, PartialEq, Eq, Structural)]
pub struct ProgressEntry {
    pub start: u64,
    pub end: u64,
}

impl ProgressEntry {
    pub open spec fn len_spec(self) -> int {
        self.end - self.start
    }

    /// An entry is proper when it holds at least one byte.
    pub open spec fn proper(self) -> bool {
        self.start < self.end
    }

    pub open spec fn pair(self) -> (u64, u64) {
        (self.start, self.end)
    }

    pub fn new(start: u64, end: u64) -> (r: ProgressEntry)
        ensures
            r.start == start,
            r.end == end,
    {
        ProgressEntry { start, end }
    }

    /// Number of bytes in the interval; zero when it is reversed.
    pub fn total(&self) -> (r: u64)
        ensures
            r == if self.start <= self.end { self.len_spec() } else { 0 },
    {
        if self.start <= self.end {
            self.end - self.start
        } else {
            0
        }
    }
}

/// Sum of the lengths of a sequence of `(start, end)` pairs.
pub open spec fn seg_sum(s: Seq<(u64, u64)>) -> int
    decreases s.len(),
{
    if s.len() == 0 {
        0
    } else {
        seg_sum(s.drop_last()) + (s.last().1 - s.last().0)
    }
}

/// Every pair holds at least one position.
pub open spec fn all_proper(s: Seq<(u64, u64)>) -> bool {
    forall|i: int| 0 <= i < s.len() ==> #[trigger] s[i].0 < s[i].1
}

/// The sum can equally be taken from the front.
pub proof fn lemma_seg_sum_front(s: Seq<(u64, u64)>)
    requires
        s.len() > 0,
    ensures
        seg_sum(s) == (s[0].1 - s[0].0) + seg_sum(s.drop_first()),
    decreases s.len(),
{
    assert(seg_sum(s) == seg_sum(s.drop_last()) + (s.last().1 - s.last().0));
    if s.len() > 1 {
        let d = s.drop_last();
        lemma_seg_sum_front(d);
        assert(d.drop_first() =~= s.drop_first().drop_last());
        assert(s.drop_first().last() == s.last());
        assert(d[0] == s[0]);
        assert(seg_sum(s.drop_first()) == seg_sum(s.drop_first().drop_last()) + (s.last().1
            - s.last().0));
    } else {
        assert(s.drop_first().len() == 0);
        assert(s.drop_last().len() == 0);
        assert(seg_sum(s.drop_first()) == 0);
        assert(seg_sum(s.drop_last()) == 0);
        assert(s.last() == s[0]);
    }
}

pub proof fn lemma_seg_sum_concat(a: Seq<(u64, u64)>, b: Seq<(u64, u64)>)
    ensures
        seg_sum(a + b) == seg_sum(a) + seg_sum(b),
    decreases b.len(),
{
    if b.len() == 0 {
        assert(a + b =~= a);
    } else {
        lemma_seg_sum_concat(a, b.drop_last());
        assert((a + b).drop_last() =~= a + b.drop_last());
    }
}

/// With proper pairs, a prefix never sums to more than the whole.
pub proof fn lemma_seg_sum_prefix(s: Seq<(u64, u64)>, j: int)
    requires
        all_proper(s),
        0 <= j <= s.len(),
    ensures
        0 <= seg_sum(s.take(j)) <= seg_sum(s),
    decreases s.len(),
{
    if j == s.len() {
        assert(s.take(j) =~= s);
        if s.len() > 0 {
            lemma_seg_sum_prefix(s.drop_last(), j - 1);
            assert(s.drop_last().take(j - 1) =~= s.drop_last());
            assert(s[s.len() - 1].0 < s[s.len() - 1].1);
        }
    } else {
        lemma_seg_sum_prefix(s.drop_last(), j);
        assert(s.drop_last().take(j) =~= s.take(j));
        assert(s[s.len() - 1].0 < s[s.len() - 1].1);
    }
}

pub open spec fn pairs_of(s: Seq<ProgressEntry>) -> Seq<(u64, u64)> {
    s.map_values(|e: ProgressEntry| e.pair())
}

pub proof fn lemma_proper_at(s: Seq<ProgressEntry>, i: int)
    requires
        all_proper(pairs_of(s)),
        0 <= i < s.len(),
    ensures
        s[i].start < s[i].end,
        pairs_of(s)[i] == s[i].pair(),
{
    assert(pairs_of(s)[i] == s[i].pair());
    assert(pairs_of(s)[i].0 < pairs_of(s)[i].1);
}

/// Dropping a prefix keeps every pair proper.
pub proof fn lemma_proper_skip(s: Seq<(u64, u64)>, j: int)
    requires
        all_proper(s),
        0 <= j <= s.len(),
    ensures
        all_proper(s.skip(j)),
        s.len() > 0 ==> all_proper(s.drop_first()),
{
    assert forall|k: int| 0 <= k < s.skip(j).len() implies #[trigger] s.skip(j)[k].0 < s.skip(j)[k].1 by {
        assert(s.skip(j)[k] == s[k + j]);
    }
    if s.len() > 0 {
        assert forall|k: int| 0 <= k < s.drop_first().len() implies #[trigger] s.drop_first()[k].0
            < s.drop_first()[k].1 by {
            assert(s.drop_first()[k] == s[k + 1]);
        }
    }
}

} // verus!
