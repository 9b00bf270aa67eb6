//! Counters that a cache keeps of its hits, misses and key events.
use vstd::prelude::*;

verus! {

/// Number of kinds of metric.
pub const METRICS: usize = 5;

/// Number of cells that the counts of one metric are spread over.
pub const CELLS: usize = 256;

/// The kinds of metric.
#[derive(Debug, Clone, Copy)]
pub enum MetricType {
    Hit,
    Miss,
    KeyInsert,
    KeyUpdate,
    KeyEvict,
}

/// The row of the table that counts `metric`.
pub open spec fn row_of(metric: MetricType) -> int {
    match metric {
        MetricType::Hit => 0,
        MetricType::Miss => 1,
        MetricType::KeyInsert => 2,
        MetricType::KeyUpdate => 3,
        MetricType::KeyEvict => 4,
    }
}

/// The cell of a row that counts events of key `k`.
pub open spec fn cell_of(k: u64) -> int {
    (k % 25) * 10
}

/// The sum of the first `n` cells of `row`.
pub open spec fn prefix_sum(row: Seq<usize>, n: int) -> int
    decreases n,
{
    if n <= 0 {
        0
    } else {
        prefix_sum(row, n - 1) + row[n - 1]
    }
}

/// The sum of the cells of `row`.
pub open spec fn row_sum(row: Seq<usize>) -> int {
    prefix_sum(row, row.len() as int)
}

/// Prefix sums grow with the prefix.
pub proof fn lemma_prefix_sum_monotone(row: Seq<usize>, a: int, b: int)
    requires
        0 <= a <= b <= row.len(),
    ensures
        prefix_sum(row, a) <= prefix_sum(row, b),
    decreases b - a,
{
    if a < b {
        lemma_prefix_sum_monotone(row, a, b - 1);
    }
}

/// Writing one cell changes the prefix sums behind it by the difference.
pub proof fn lemma_prefix_sum_update(row: Seq<usize>, idx: int, v: usize, n: int)
    requires
        0 <= idx < row.len(),
        0 <= n <= row.len(),
    ensures
        prefix_sum(row.update(idx, v), n) == prefix_sum(row, n) + if idx < n {
            v - row[idx]
        } else {
            0
        },
    decreases n,
{
    if n > 0 {
        lemma_prefix_sum_update(row, idx, v, n - 1);
    }
}

/// A table of counts: one row for each kind of metric.
pub struct Metrics {
    pub all: Vec<Vec<usize>>,
}

fn zero_row() -> (row: Vec<usize>)
    ensures
        row.len() == CELLS,
        forall|i: int| 0 <= i < CELLS ==> row[i] == 0,
        row_sum(row@) == 0,
{
    let mut row: Vec<usize> = Vec::new();
    let mut i: usize = 0;
    while i < CELLS
        invariant
            i <= CELLS,
            row.len() == i,
            forall|j: int| 0 <= j < i ==> row[j] == 0,
            prefix_sum(row@, i as int) == 0,
        decreases CELLS - i,
    {
        proof {
            let next = row@.push(0usize);
            assert(prefix_sum(next, i as int) == prefix_sum(row@, i as int)) by {
                lemma_prefix_same(row@, next, i as int);
            }
        }
        row.push(0);
        i = i + 1;
    }
    row
}

/// Prefix sums depend only on the prefix.
pub proof fn lemma_prefix_same(a: Seq<usize>, b: Seq<usize>, n: int)
    requires
        0 <= n <= a.len(),
        n <= b.len(),
        forall|i: int| 0 <= i < n ==> a[i] == b[i],
    ensures
        prefix_sum(a, n) == prefix_sum(b, n),
    decreases n,
{
    if n > 0 {
        lemma_prefix_same(a, b, n - 1);
    }
}

fn row_index(metric: MetricType) -> (r: usize)
    ensures
        r == row_of(metric),
        r < METRICS,
{
    match metric {
        MetricType::Hit => 0,
        MetricType::Miss => 1,
        MetricType::KeyInsert => 2,
        MetricType::KeyUpdate => 3,
        MetricType::KeyEvict => 4,
    }
}

impl Metrics {
    /// The table has `METRICS` rows of `CELLS` cells.
    pub open spec fn wf(&self) -> bool {
        &&& self.all.len() == METRICS
        &&& forall|m: int| 0 <= m < METRICS ==> (#[trigger] self.all[m]).len() == CELLS
    }

    /// The count of `metric`.
    pub open spec fn total(&self, metric: MetricType) -> int {
        row_sum(self.all[row_of(metric)]@)
    }

    /// A table of zeros.
    pub fn new() -> (m: Self)
        ensures
            m.wf(),
            forall|metric: MetricType| #[trigger] m.total(metric) == 0,
    {
        let mut all: Vec<Vec<usize>> = Vec::new();
        let mut i: usize = 0;
        while i < METRICS
            invariant
                i <= METRICS,
                all.len() == i,
                forall|m: int| 0 <= m < i ==> (#[trigger] all[m]).len() == CELLS && row_sum(all[m]@) == 0,
            decreases METRICS - i,
        {
            all.push(zero_row());
            i = i + 1;
        }
        Metrics { all }
    }

    /// Adds `delta` to the count of `metric`, in the cell of key `k`.
    pub fn insert(&mut self, metric: MetricType, k: &u64, delta: usize)
        requires
            old(self).wf(),
            old(self).all[row_of(metric)][cell_of(*k)] + delta <= usize::MAX,
        ensures
            final(self).wf(),
            final(self).total(metric) == old(self).total(metric) + delta,
            forall|other: MetricType|
                row_of(other) != row_of(metric) ==> #[trigger] final(self).total(other) == old(
                    self,
                ).total(other),
    {
        let idx = ((*k % 25) * 10) as usize;
        let row = row_index(metric);
        let ghost before = self.all[row as int]@;
        let now = self.all[row][idx] + delta;
        self.all[row][idx] = now;
        proof {
            assert(self.all[row as int]@ =~= before.update(idx as int, now));
            lemma_prefix_sum_update(before, idx as int, now, CELLS as int);
        }
    }

    /// The count of `metric`.
    pub fn get(&self, metric: MetricType) -> (r: usize)
        requires
            self.wf(),
            self.total(metric) <= usize::MAX,
        ensures
            r == self.total(metric),
    {
        let row = row_index(metric);
        let vals = &self.all[row];
        let mut sum: usize = 0;
        let mut i: usize = 0;
        while i < CELLS
            invariant
                i <= CELLS,
                vals.len() == CELLS,
                sum == prefix_sum(vals@, i as int),
                row_sum(vals@) <= usize::MAX,
            decreases CELLS - i,
        {
            proof {
                lemma_prefix_sum_monotone(vals@, i + 1, CELLS as int);
            }
            sum = sum + vals[i];
            i = i + 1;
        }
        sum
    }

    /// The number of hits.
    pub fn hits(&self) -> (r: usize)
        requires
            self.wf(),
            self.total(MetricType::Hit) <= usize::MAX,
        ensures
            r == self.total(MetricType::Hit),
    {
        self.get(MetricType::Hit)
    }

    /// The number of misses.
    pub fn misses(&self) -> (r: usize)
        requires
            self.wf(),
            self.total(MetricType::Miss) <= usize::MAX,
        ensures
            r == self.total(MetricType::Miss),
    {
        self.get(MetricType::Miss)
    }

    /// The number of keys inserted.
    pub fn keys_inserted(&self) -> (r: usize)
        requires
            self.wf(),
            self.total(MetricType::KeyInsert) <= usize::MAX,
        ensures
            r == self.total(MetricType::KeyInsert),
    {
        self.get(MetricType::KeyInsert)
    }

    /// The number of keys updated.
    pub fn keys_updated(&self) -> (r: usize)
        requires
            self.wf(),
            self.total(MetricType::KeyUpdate) <= usize::MAX,
        ensures
            r == self.total(MetricType::KeyUpdate),
    {
        self.get(MetricType::KeyUpdate)
    }

    /// The number of keys evicted.
    pub fn keys_evicted(&self) -> (r: usize)
        requires
            self.wf(),
            self.total(MetricType::KeyEvict) <= usize::MAX,
        ensures
            r == self.total(MetricType::KeyEvict),
    {
        self.get(MetricType::KeyEvict)
    }

    /// Sets every count to zero.
    pub fn clear(&mut self)
        ensures
            final(self).wf(),
            forall|metric: MetricType| #[trigger] final(self).total(metric) == 0,
    {
        let fresh = Metrics::new();
        self.all = fresh.all;
    }
}

} // verus!
