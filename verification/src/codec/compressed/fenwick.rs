//! A binary-indexed tree of counts: cumulative counts, their inverse, and
//! increments, each in time logarithmic in the number of entries.

use vstd::prelude::*;

pub mod context_switching;

verus! {

/// The most entries that a tree can hold.
pub const MAX_ENTRIES: usize = 0x1000_0000;

/// The lowest bit that is set in `i`.
pub open spec fn lowbit(i: usize) -> usize {
    i & !((i - 1) as usize)
}

/// Whether `s` is a power of two.
pub open spec fn is_power_of_two(s: usize) -> bool {
    s > 0 && s & ((s - 1) as usize) == 0
}

proof fn lemma_lowbit_bounds(i: usize)
    by (bit_vector)
    requires
        i > 0,
    ensures
        1 <= lowbit(i) <= i,
{
}

proof fn lemma_lowbit_next(i: usize)
    by (bit_vector)
    requires
        0 < i <= 0x2000_0000,
    ensures
        lowbit((i + lowbit(i)) as usize) >= 2 * lowbit(i),
{
}

proof fn lemma_lowbit_between(i: usize, r: usize)
    by (bit_vector)
    requires
        0 < i <= 0x2000_0000,
        0 < r < lowbit(i),
    ensures
        lowbit((i + r) as usize) == lowbit(r),
        lowbit(r) <= r,
{
}

proof fn lemma_power_of_two_doubles(s: usize)
    by (bit_vector)
    requires
        is_power_of_two(s),
        s <= 0x2000_0000,
    ensures
        is_power_of_two((2 * s) as usize),
{
}

proof fn lemma_power_of_two_halves(s: usize, pos: usize)
    by (bit_vector)
    requires
        is_power_of_two(s),
        1 < s <= 0x4000_0000,
        pos <= 0x2000_0000,
        pos & ((s - 1) as usize) == 0,
    ensures
        is_power_of_two(s / 2),
        2 * (s / 2) == s,
        lowbit((pos + s / 2) as usize) == s / 2,
        pos & ((s / 2 - 1) as usize) == 0,
        ((pos + s / 2) as usize) & ((s / 2 - 1) as usize) == 0,
{
}

/// The sum of the counts at indices `lo` up to, not including, `hi`.
pub open spec fn sum_range(counts: Seq<u64>, lo: int, hi: int) -> int
    decreases hi - lo,
{
    if lo >= hi {
        0
    } else {
        sum_range(counts, lo, hi - 1) + counts[hi - 1]
    }
}

/// A sum over a range is the sum over its two parts.
pub proof fn lemma_sum_split(counts: Seq<u64>, lo: int, mid: int, hi: int)
    requires
        lo <= mid <= hi,
    ensures
        sum_range(counts, lo, hi) == sum_range(counts, lo, mid) + sum_range(counts, mid, hi),
    decreases hi - mid,
{
    if mid < hi {
        lemma_sum_split(counts, lo, mid, hi - 1);
    }
}

/// A sum of counts is not negative, and grows with its range.
pub proof fn lemma_sum_monotonic(counts: Seq<u64>, lo: int, mid: int, hi: int)
    requires
        lo <= mid <= hi,
    ensures
        0 <= sum_range(counts, lo, mid) <= sum_range(counts, lo, hi),
        0 <= sum_range(counts, mid, hi) <= sum_range(counts, lo, hi),
    decreases hi - lo,
{
    lemma_sum_split(counts, lo, mid, hi);
    lemma_sum_nonnegative(counts, lo, mid);
    lemma_sum_nonnegative(counts, mid, hi);
}

proof fn lemma_sum_nonnegative(counts: Seq<u64>, lo: int, hi: int)
    ensures
        0 <= sum_range(counts, lo, hi),
    decreases hi - lo,
{
    if lo < hi {
        lemma_sum_nonnegative(counts, lo, hi - 1);
    }
}

/// Changing one count changes the sums over the ranges that hold it, by as
/// much, and no other sum.
pub proof fn lemma_sum_update(counts: Seq<u64>, at: int, value: u64, lo: int, hi: int)
    requires
        0 <= at < counts.len(),
        0 <= lo <= hi <= counts.len(),
    ensures
        sum_range(counts.update(at, value), lo, hi) == sum_range(counts, lo, hi) + if lo <= at < hi {
            value - counts[at]
        } else {
            0
        },
    decreases hi - lo,
{
    if lo < hi {
        lemma_sum_update(counts, at, value, lo, hi - 1);
    }
}

/// Where every count is at least one, a sum is at least the length of its range.
pub proof fn lemma_sum_at_least_length(counts: Seq<u64>, lo: int, hi: int)
    requires
        0 <= lo <= hi <= counts.len(),
        forall|i: int| 0 <= i < counts.len() ==> counts[i] >= 1,
    ensures
        sum_range(counts, lo, hi) >= hi - lo,
    decreases hi - lo,
{
    if lo < hi {
        lemma_sum_at_least_length(counts, lo, hi - 1);
    }
}

/// The sum that the tree keeps at index `m`: that of the `lowbit(m)` counts
/// that end before entry `m`.
pub open spec fn node_sum(counts: Seq<u64>, m: int) -> int {
    sum_range(counts, m - lowbit(m as usize), m)
}

/// Counts over a fixed number of entries, kept together with their sums
/// over the ranges of a binary-indexed tree.
pub struct FenwickTree {
    /// The count of each entry.
    counts: Vec<u64>,
    /// At index i from 1 on: the sum of the `lowbit(i)` counts that end
    /// before entry i.
    tree: Vec<u64>,
    /// The sum of all counts.
    total: u64,
}

impl View for FenwickTree {
    type V = Seq<u64>;

    closed spec fn view(&self) -> Seq<u64> {
        self.counts@
    }
}

impl FenwickTree {
    /// The partial sums agree with the counts.
    pub closed spec fn wf(&self) -> bool {
        &&& self.counts@.len() <= MAX_ENTRIES
        &&& self.tree@.len() == self.counts@.len() + 1
        &&& self.total == sum_range(self.counts@, 0, self.counts@.len() as int)
        &&& forall|i: int|
            1 <= i <= self.counts@.len() ==> #[trigger] self.tree@[i] == node_sum(self.counts@, i)
    }

    /// The sum of all counts.
    pub open spec fn spec_total(&self) -> int {
        sum_range(self@, 0, self@.len() as int)
    }

    /// A tree of `n` entries, each with count zero.
    pub fn zeros(n: usize) -> (tree: Self)
        requires
            n <= MAX_ENTRIES,
        ensures
            tree.wf(),
            tree@.len() == n,
            forall|i: int| 0 <= i < n ==> tree@[i] == 0,
            tree.spec_total() == 0,
    {
        let mut counts: Vec<u64> = Vec::new();
        let mut sums: Vec<u64> = Vec::new();
        sums.push(0);
        let mut i: usize = 0;
        while i < n
            invariant
                i <= n,
                counts@.len() == i,
                sums@.len() == i + 1,
                forall|j: int| 0 <= j < i ==> counts@[j] == 0,
                forall|j: int| 0 <= j <= i ==> sums@[j] == 0,
            decreases n - i,
        {
            counts.push(0);
            sums.push(0);
            i += 1;
        }
        proof {
            assert forall|lo: int, hi: int| 0 <= lo <= hi <= n implies #[trigger] sum_range(
                counts@,
                lo,
                hi,
            ) == 0 by {
                lemma_sum_zero(counts@, lo, hi);
            }
            assert forall|i: int| 1 <= i <= n implies #[trigger] sums@[i] == node_sum(counts@, i) by {
                lemma_lowbit_bounds(i as usize);
            }
        }
        FenwickTree { counts, tree: sums, total: 0 }
    }

    /// The number of entries.
    pub fn len(&self) -> (n: usize)
        ensures
            n == self@.len(),
    {
        self.counts.len()
    }

    /// The sum of all counts.
    pub fn total(&self) -> (total: u64)
        requires
            self.wf(),
        ensures
            total == self.spec_total(),
    {
        self.total
    }

    /// The count of entry `i`.
    pub fn count(&self, i: usize) -> (count: u64)
        requires
            i < self@.len(),
        ensures
            count == self@[i as int],
    {
        self.counts[i]
    }

    /// The sum of the counts of the entries before entry `i`.
    pub fn prefix_sum(&self, i: usize) -> (sum: u64)
        requires
            self.wf(),
            i <= self@.len(),
        ensures
            sum == sum_range(self@, 0, i as int),
    {
        let mut sum: u64 = 0;
        let mut j: usize = i;
        proof {
            lemma_sum_monotonic(self.counts@, 0, i as int, self.counts@.len() as int);
        }
        while j > 0
            invariant
                self.wf(),
                j <= i <= self.counts@.len(),
                sum + sum_range(self.counts@, 0, j as int) == sum_range(self.counts@, 0, i as int),
                sum_range(self.counts@, 0, i as int) <= u64::MAX,
            decreases j,
        {
            proof {
                lemma_lowbit_bounds(j);
                lemma_sum_split(self.counts@, 0, j - lowbit(j), j as int);
                lemma_sum_nonnegative(self.counts@, 0, j - lowbit(j));
            }
            sum = sum + self.tree[j];
            j = j - (j & !(j - 1));
        }
        sum
    }

    /// Adds `delta` to the count of entry `i`.
    pub fn add(&mut self, i: usize, delta: u64)
        requires
            old(self).wf(),
            i < old(self)@.len(),
            old(self).spec_total() + delta <= u64::MAX,
        ensures
            final(self).wf(),
            final(self)@ == old(self)@.update(i as int, (old(self)@[i as int] + delta) as u64),
            final(self).spec_total() == old(self).spec_total() + delta,
    {
        let n = self.counts.len();
        let ghost before = self.counts@;
        let ghost raised = before.update(i as int, (before[i as int] + delta) as u64);
        proof {
            lemma_sum_monotonic(before, 0, i as int, n as int);
            lemma_sum_monotonic(before, i as int, i + 1, n as int);
            lemma_sum_split(before, 0, i as int, n as int);
            assert(sum_range(before, i as int, i + 1) == before[i as int]) by {
                assert(sum_range(before, i as int, i as int) == 0);
            }
            lemma_sum_update(before, i as int, (before[i as int] + delta) as u64, 0, n as int);
        }
        let raised_count = self.counts[i] + delta;
        self.counts[i] = raised_count;
        self.total = self.total + delta;
        let mut j: usize = i + 1;
        proof {
            lemma_lowbit_bounds(j);
            assert forall|m: int| 1 <= m < j implies #[trigger] node_sum(raised, m) == node_sum(
                before,
                m,
            ) by {
                lemma_lowbit_bounds(m as usize);
                lemma_sum_update(
                    before,
                    i as int,
                    (before[i as int] + delta) as u64,
                    m - lowbit(m as usize),
                    m,
                );
            }
        }
        while j <= n
            invariant
                n == before.len(),
                n <= MAX_ENTRIES,
                i < n,
                self.counts@ == raised,
                raised == before.update(i as int, (before[i as int] + delta) as u64),
                self.tree@.len() == n + 1,
                self.total == sum_range(raised, 0, n as int),
                sum_range(before, 0, n as int) + delta <= u64::MAX,
                before[i as int] + delta <= u64::MAX,
                i + 1 <= j <= 0x2000_0000,
                j <= n ==> j - lowbit(j) <= i,
                forall|m: int|
                    1 <= m <= n && m < j ==> #[trigger] self.tree@[m] == node_sum(raised, m),
                forall|m: int|
                    1 <= m <= n && m >= j ==> #[trigger] self.tree@[m] == node_sum(before, m),
            decreases 0x4000_0000 - j,
        {
            let step = j & !(j - 1);
            proof {
                assert(step == lowbit(j));
                lemma_lowbit_bounds(j);
                lemma_lowbit_next(j);
                lemma_sum_update(
                    before,
                    i as int,
                    (before[i as int] + delta) as u64,
                    j - lowbit(j),
                    j as int,
                );
                lemma_sum_monotonic(before, 0, j - lowbit(j), j as int);
                lemma_sum_monotonic(before, 0, j as int, n as int);
                assert forall|m: int| j < m < j + step && m <= n implies #[trigger] node_sum(
                    raised,
                    m,
                ) == node_sum(before, m) by {
                    lemma_lowbit_between(j, (m - j) as usize);
                    lemma_sum_update(
                        before,
                        i as int,
                        (before[i as int] + delta) as u64,
                        m - lowbit(m as usize),
                        m,
                    );
                }
            }
            let sum = self.tree[j] + delta;
            self.tree[j] = sum;
            j = j + step;
        }
    }

    /// The entry in whose share of the total the number `target` falls: the
    /// entries before it count for at most `target`, and together with it
    /// they count for more.
    pub fn find(&self, target: u64) -> (i: usize)
        requires
            self.wf(),
            target < self.spec_total(),
        ensures
            i < self@.len(),
            sum_range(self@, 0, i as int) <= target < sum_range(self@, 0, i + 1),
    {
        let n = self.counts.len();
        let mut span: usize = 1;
        proof {
            assert(is_power_of_two(1usize)) by (bit_vector);
        }
        while span <= n
            invariant
                is_power_of_two(span),
                span <= 0x2000_0000,
                n <= MAX_ENTRIES,
            decreases 0x4000_0000 - span,
        {
            proof {
                lemma_power_of_two_doubles(span);
            }
            span = span * 2;
        }
        let mut pos: usize = 0;
        let mut rest: u64 = target;
        proof {
            assert(pos & ((span - 1) as usize) == 0) by (bit_vector)
                requires
                    pos == 0,
            ;
        }
        while span > 1
            invariant
                self.wf(),
                n == self.counts@.len(),
                is_power_of_two(span),
                span <= 0x4000_0000,
                pos <= n,
                pos & ((span - 1) as usize) == 0,
                sum_range(self.counts@, 0, pos as int) + rest == target,
                target < sum_range(
                    self.counts@,
                    0,
                    if pos + span <= n {
                        pos + span
                    } else {
                        n as int
                    },
                ),
            decreases span,
        {
            let half = span / 2;
            proof {
                lemma_power_of_two_halves(span, pos);
            }
            if pos + half <= n && self.tree[pos + half] <= rest {
                proof {
                    lemma_sum_split(self.counts@, 0, pos as int, pos + half);
                }
                pos = pos + half;
                rest = rest - self.tree[pos];
            } else {
                proof {
                    if pos + half <= n {
                        lemma_sum_split(self.counts@, 0, pos as int, pos + half);
                    }
                }
            }
            span = half;
        }
        proof {
            lemma_sum_nonnegative(self.counts@, 0, pos as int);
        }
        pos
    }
}

proof fn lemma_sum_zero(counts: Seq<u64>, lo: int, hi: int)
    requires
        0 <= lo <= hi <= counts.len(),
        forall|i: int| 0 <= i < counts.len() ==> counts[i] == 0,
    ensures
        sum_range(counts, lo, hi) == 0,
    decreases hi - lo,
{
    if lo < hi {
        lemma_sum_zero(counts, lo, hi - 1);
    }
}

/// Each count halved, rounding up.
pub open spec fn halved(counts: Seq<u64>) -> Seq<u64> {
    Seq::new(counts.len(), |i: int| ((counts[i] + 1) / 2) as u64)
}

/// Halving, rounded up, takes a sum to at most half of itself and of the
/// number of its terms.
pub proof fn lemma_halved_sum(counts: Seq<u64>, hi: int)
    requires
        0 <= hi <= counts.len(),
    ensures
        2 * sum_range(halved(counts), 0, hi) <= sum_range(counts, 0, hi) + hi,
        sum_range(halved(counts), 0, hi) <= sum_range(counts, 0, hi),
    decreases hi,
{
    if hi > 0 {
        lemma_halved_sum(counts, hi - 1);
    }
}

impl FenwickTree {
    /// A tree of `n` entries, each with count one.
    pub fn uniform(n: usize) -> (tree: Self)
        requires
            n <= MAX_ENTRIES,
        ensures
            tree.wf(),
            tree@.len() == n,
            forall|i: int| 0 <= i < n ==> tree@[i] == 1,
            tree.spec_total() == n,
    {
        let mut tree = FenwickTree::zeros(n);
        let mut i: usize = 0;
        while i < n
            invariant
                i <= n <= MAX_ENTRIES,
                tree.wf(),
                tree@.len() == n,
                forall|j: int| 0 <= j < i ==> tree@[j] == 1,
                forall|j: int| i <= j < n ==> tree@[j] == 0,
                tree.spec_total() == i,
            decreases n - i,
        {
            tree.add(i, 1);
            i += 1;
        }
        tree
    }

    /// Halves every count, rounding up, so that no count of at least one
    /// falls to zero.
    pub fn halve(&mut self)
        requires
            old(self).wf(),
        ensures
            final(self).wf(),
            final(self)@ == halved(old(self)@),
            2 * final(self).spec_total() <= old(self).spec_total() + old(self)@.len(),
    {
        let n = self.counts.len();
        let mut tree = FenwickTree::zeros(n);
        let mut i: usize = 0;
        proof {
            assert(sum_range(self.counts@, 0, 0) == 0);
        }
        while i < n
            invariant
                i <= n <= MAX_ENTRIES,
                self.wf(),
                n == self.counts@.len(),
                tree.wf(),
                tree@.len() == n,
                forall|j: int| 0 <= j < i ==> #[trigger] tree@[j] == (self.counts@[j] + 1) / 2,
                forall|j: int| i <= j < n ==> tree@[j] == 0,
                tree.spec_total() <= sum_range(self.counts@, 0, i as int),
            decreases n - i,
        {
            proof {
                lemma_sum_monotonic(self.counts@, 0, i + 1, n as int);
            }
            let half = self.counts[i] / 2 + self.counts[i] % 2;
            tree.add(i, half);
            i += 1;
        }
        proof {
            assert(tree@ =~= halved(self.counts@));
            lemma_halved_sum(self.counts@, n as int);
        }
        *self = tree;
    }
}

} // verus!
