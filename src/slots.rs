//! Work slices in logical coordinates: the initial partition among workers
//! and the steal decision.
use vstd::arithmetic::div_mod::{
    lemma_div_is_ordered, lemma_div_multiples_vanish, lemma_fundamental_div_mod,
    lemma_hoist_over_denominator,
};
use vstd::arithmetic::mul::lemma_mul_inequality;
use vstd::prelude::*;

verus! {

/// Remaining work below which a slice is not split.
pub const STEAL_THRESHOLD: u64 = 16 * 1024;

/// A worker's slice `[start, end)` of logical positions. It is empty when
/// `start >= end`.
#[derive(Clone, Copy, Debug, PartialEq, Eq, Structural)]
pub struct Slot {
    pub start: u64,
    pub end: u64,
}

impl Slot {
    pub open spec fn rem_spec(self) -> int {
        if self.start < self.end {
            self.end - self.start
        } else {
            0
        }
    }

    pub open spec fn holds(self, p: int) -> bool {
        self.start <= p < self.end
    }

    /// Positions left in the slice, zero when it is empty.
    pub fn remain(&self) -> (r: u64)
        ensures
            r == self.rem_spec(),
    {
        if self.start < self.end {
            self.end - self.start
        } else {
            0
        }
    }
}

/// Boundary `i` of an even split of `total` positions into `n` slices.
pub open spec fn bound(total: int, n: int, i: int) -> int {
    i * total / n
}

/// Position `p` lies in some slice of the pool.
pub open spec fn pool_holds(pool: Seq<Slot>, p: int) -> bool {
    exists|j: int| 0 <= j < pool.len() && #[trigger] pool[j].holds(p)
}

/// Boundaries grow with their index, start at zero and end at `total`.
pub proof fn lemma_bound_ordered(total: int, n: int, i: int, j: int)
    requires
        n >= 1,
        total >= 0,
        0 <= i <= j <= n,
    ensures
        0 <= bound(total, n, i) <= bound(total, n, j) <= total,
        bound(total, n, 0) == 0,
        bound(total, n, n) == total,
{
    lemma_mul_inequality(0, i, total);
    lemma_mul_inequality(i, j, total);
    lemma_mul_inequality(j, n, total);
    lemma_div_is_ordered(0, i * total, n);
    lemma_div_is_ordered(i * total, j * total, n);
    lemma_div_is_ordered(j * total, n * total, n);
    lemma_div_multiples_vanish(total, n);
    assert(n * total == total * n) by (nonlinear_arith);
    assert(0 * total == 0);
}

/// Each slice of an even split is at least `total / n` long.
pub proof fn lemma_bound_gap(total: int, n: int, i: int)
    requires
        n >= 1,
        total >= 0,
        0 <= i < n,
    ensures
        bound(total, n, i + 1) - bound(total, n, i) >= total / n,
{
    let q = total / n;
    lemma_fundamental_div_mod(total, n);
    assert(q * n <= total) by {
        assert(total % n >= 0);
        assert(n * q == q * n) by (nonlinear_arith);
    }
    assert((i + 1) * total == i * total + total) by (nonlinear_arith);
    lemma_div_is_ordered(i * total + q * n, (i + 1) * total, n);
    lemma_hoist_over_denominator(i * total, q, n as nat);
}

/// When there are at least `threshold` positions per worker, every slice of
/// the even split starts with at least `threshold` positions, so every
/// worker has work of its own to read before it ever needs to steal.
pub proof fn lemma_slices_reach_threshold(total: int, n: int, threshold: int, i: int)
    requires
        n >= 1,
        threshold >= 0,
        total >= n * threshold,
        0 <= i < n,
    ensures
        bound(total, n, i + 1) - bound(total, n, i) >= threshold,
        threshold >= 1 ==> bound(total, n, i) < bound(total, n, i + 1),
{
    lemma_bound_gap(total, n, i);
    assert(n * threshold == threshold * n) by (nonlinear_arith);
    lemma_div_is_ordered(threshold * n, total, n);
    lemma_div_multiples_vanish(threshold, n);
}

/// Splits `total` logical positions into `n` contiguous slices; slice `i`
/// is `[i * total / n, (i + 1) * total / n)`.
pub fn partition(total: u64, n: usize) -> (r: Vec<Slot>)
    requires
        n >= 1,
    ensures
        r@.len() == n,
        forall|i: int|
            0 <= i < n ==> #[trigger] r@[i] == (Slot {
                start: bound(total as int, n as int, i) as u64,
                end: bound(total as int, n as int, i + 1) as u64,
            }),
{
    let mut r: Vec<Slot> = Vec::new();
    let mut lo: u64 = 0;
    let mut i: usize = 0;
    proof {
        lemma_bound_ordered(total as int, n as int, 0, 0);
    }
    while i < n
        invariant
            n >= 1,
            i <= n,
            r@.len() == i,
            lo == bound(total as int, n as int, i as int),
            forall|k: int|
                0 <= k < i ==> #[trigger] r@[k] == (Slot {
                    start: bound(total as int, n as int, k) as u64,
                    end: bound(total as int, n as int, k + 1) as u64,
                }),
        decreases n - i,
    {
        proof {
            lemma_bound_ordered(total as int, n as int, i + 1, n as int);
            lemma_mul_inequality(i + 1, n as int, total as int);
            assert((n as int) * (total as int) <= u64::MAX * u64::MAX) by (nonlinear_arith)
                requires
                    n <= u64::MAX,
                    total <= u64::MAX,
            ;
        }
        let hi_wide: u128 = (i as u128 + 1) * (total as u128) / (n as u128);
        let hi = hi_wide as u64;
        r.push(Slot { start: lo, end: hi });
        lo = hi;
        i = i + 1;
    }
    r
}

/// A pool that holds every position of `[0, total)` and no other.
pub open spec fn pool_tiles(pool: Seq<Slot>, total: int) -> bool {
    forall|p: int| pool_holds(pool, p) <==> 0 <= p < total
}

/// The slices of a partition cover `[0, total)`, each position exactly once.
pub proof fn lemma_partition_tiles(total: int, n: int, pool: Seq<Slot>)
    requires
        n >= 1,
        0 <= total <= u64::MAX,
        pool.len() == n,
        forall|i: int|
            0 <= i < n ==> #[trigger] pool[i] == (Slot {
                start: bound(total, n, i) as u64,
                end: bound(total, n, i + 1) as u64,
            }),
    ensures
        pool_tiles(pool, total),
        forall|i: int, j: int, p: int|
            0 <= i < n && 0 <= j < n && #[trigger] pool[i].holds(p) && #[trigger] pool[j].holds(p) ==> i == j,
{
    assert forall|i: int| 0 <= i < n implies (#[trigger] pool[i]).start == bound(total, n, i)
        && pool[i].end == bound(total, n, i + 1) by {
        lemma_bound_ordered(total, n, i, i + 1);
        lemma_bound_ordered(total, n, i + 1, n);
    }
    assert forall|p: int| pool_holds(pool, p) <==> 0 <= p < total by {
        if pool_holds(pool, p) {
            let j = choose|j: int| 0 <= j < pool.len() && #[trigger] pool[j].holds(p);
            lemma_bound_ordered(total, n, 0, j);
            lemma_bound_ordered(total, n, j + 1, n);
        }
        if 0 <= p < total {
            lemma_bound_ordered(total, n, n, n);
            let j = last_below(total, n, p, n);
            assert(pool[j].holds(p));
        }
    }
    assert forall|i: int, j: int, p: int|
        0 <= i < n && 0 <= j < n && #[trigger] pool[i].holds(p) && #[trigger] pool[j].holds(p) implies i == j by {
        if i < j {
            lemma_bound_ordered(total, n, i + 1, j);
        }
        if j < i {
            lemma_bound_ordered(total, n, j + 1, i);
        }
    }
}

/// The last slice among the first `k` that starts at or before `p`.
proof fn last_below(total: int, n: int, p: int, k: int) -> (j: int)
    requires
        n >= 1,
        0 <= p < total,
        1 <= k <= n,
        p < bound(total, n, k),
    ensures
        0 <= j < k,
        bound(total, n, j) <= p < bound(total, n, j + 1),
    decreases k,
{
    lemma_bound_ordered(total, n, 0, k - 1);
    if bound(total, n, k - 1) <= p {
        k - 1
    } else {
        last_below(total, n, p, k - 1)
    }
}

/// `v` is the first slot of the pool with the most remaining work.
pub open spec fn is_victim(pool: Seq<Slot>, v: int) -> bool {
    &&& 0 <= v < pool.len()
    &&& forall|j: int| 0 <= j < pool.len() ==> (#[trigger] pool[j]).rem_spec() <= pool[v].rem_spec()
    &&& forall|j: int| 0 <= j < v ==> (#[trigger] pool[j]).rem_spec() < pool[v].rem_spec()
}

/// The pool after `thief` took the tail half of the work left to `v`.
pub open spec fn stolen(pool: Seq<Slot>, v: int, thief: int) -> Seq<Slot> {
    let h = pool[v].rem_spec() / 2;
    let e = pool[v].end;
    pool.update(v, Slot { start: pool[v].start, end: (e - h) as u64 }).update(
        thief,
        Slot { start: (e - h) as u64, end: e },
    )
}

/// Takes, for the empty slot `thief`, the tail half of the slot with the
/// most remaining work, provided that slot has at least `threshold`
/// positions left. Returns the victim's index, or `None` when nothing is
/// worth stealing; then the pool is left as it was.
pub fn steal(pool: &mut Vec<Slot>, thief: usize, threshold: u64) -> (r: Option<usize>)
    requires
        thief < old(pool)@.len(),
        old(pool)@[thief as int].rem_spec() == 0,
        threshold >= 1,
    ensures
        r.is_some() <==> exists|j: int|
            0 <= j < old(pool)@.len() && (#[trigger] old(pool)@[j]).rem_spec() >= threshold,
        r matches Some(v) ==> is_victim(old(pool)@, v as int) && v != thief && final(pool)@
            == stolen(old(pool)@, v as int, thief as int),
        r is None ==> final(pool)@ == old(pool)@,
{
    let mut best: usize = 0;
    let mut best_rem: u64 = pool[0].remain();
    let mut i: usize = 1;
    while i < pool.len()
        invariant
            pool@ == old(pool)@,
            1 <= i <= pool@.len(),
            best < i,
            best_rem == pool@[best as int].rem_spec(),
            forall|j: int| 0 <= j < i ==> (#[trigger] pool@[j]).rem_spec() <= best_rem,
            forall|j: int| 0 <= j < best ==> (#[trigger] pool@[j]).rem_spec() < best_rem,
        decreases pool@.len() - i,
    {
        let r = pool[i].remain();
        if r > best_rem {
            best = i;
            best_rem = r;
        }
        i = i + 1;
    }
    if best_rem < threshold {
        return None;
    }
    let victim = pool[best];
    let h = best_rem / 2;
    let cut = victim.end - h;
    pool.set(best, Slot { start: victim.start, end: cut });
    pool.set(thief, Slot { start: cut, end: victim.end });
    Some(best)
}

/// Stealing moves work and neither loses nor duplicates any: the pool holds
/// the same positions afterwards, and the victim's and the thief's remaining
/// work add up to what the victim had, the thief getting half of it.
pub proof fn lemma_steal_keeps_positions(pool: Seq<Slot>, v: int, thief: int)
    requires
        is_victim(pool, v),
        0 <= thief < pool.len(),
        thief != v,
        pool[thief].rem_spec() == 0,
    ensures
        forall|p: int| pool_holds(stolen(pool, v, thief), p) <==> pool_holds(pool, p),
        stolen(pool, v, thief)[v].rem_spec() + stolen(pool, v, thief)[thief].rem_spec()
            == pool[v].rem_spec(),
        stolen(pool, v, thief)[thief].rem_spec() == pool[v].rem_spec() / 2,
{
    let q = stolen(pool, v, thief);
    assert forall|p: int| pool_holds(q, p) <==> pool_holds(pool, p) by {
        if pool_holds(pool, p) {
            let j = choose|j: int| 0 <= j < pool.len() && #[trigger] pool[j].holds(p);
            if j == v {
                if q[v].holds(p) {
                } else {
                    assert(q[thief].holds(p));
                }
            } else {
                assert(q[j] == pool[j]);
                assert(q[j].holds(p));
            }
        }
        if pool_holds(q, p) {
            let j = choose|j: int| 0 <= j < q.len() && #[trigger] q[j].holds(p);
            if j == v || j == thief {
                assert(pool[v].holds(p));
            } else {
                assert(pool[j].holds(p));
            }
        }
    }
}

} // verus!
