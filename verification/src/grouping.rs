//! Grouping of row positions by destination partition.
//!
//! Rows are counted per partition, the counts are turned into run boundaries
//! by one prefix-sum pass, and the row positions are scattered into a scratch
//! array so that each partition owns one contiguous run.

use crate::batch::as_positions;
use vstd::prelude::*;

verus! {

/// Positions of the rows assigned to `partition`, in ascending order.
pub open spec fn partition_rows(ids: Seq<usize>, partition: int) -> Seq<int>
    decreases ids.len(),
{
    if ids.len() == 0 {
        Seq::empty()
    } else {
        let rest = partition_rows(ids.drop_last(), partition);
        if ids.last() == partition {
            rest.push(ids.len() - 1)
        } else {
            rest
        }
    }
}

/// Number of rows assigned to partitions below `partition`.
pub open spec fn rows_before(ids: Seq<usize>, partition: int) -> nat
    decreases partition,
{
    if partition <= 0 {
        0
    } else {
        rows_before(ids, partition - 1) + partition_rows(ids, partition - 1).len()
    }
}

/// Extending the assignment by one row extends the run of that row's
/// partition by the row's position and leaves every other run alone.
pub proof fn lemma_partition_rows_step(ids: Seq<usize>, k: int, partition: int)
    requires
        0 <= k < ids.len(),
    ensures
        partition_rows(ids.take(k + 1), partition) == if ids[k] == partition {
            partition_rows(ids.take(k), partition).push(k)
        } else {
            partition_rows(ids.take(k), partition)
        },
{
    assert(ids.take(k + 1).drop_last() =~= ids.take(k));
}

/// The run of a partition holds valid, strictly ascending positions, each of
/// a row assigned to that partition.
pub proof fn lemma_partition_rows_sound(ids: Seq<usize>, partition: int)
    ensures
        partition_rows(ids, partition).len() <= ids.len(),
        forall|j: int|
            0 <= j < partition_rows(ids, partition).len() ==> {
                &&& 0 <= (#[trigger] partition_rows(ids, partition)[j]) < ids.len()
                &&& ids[partition_rows(ids, partition)[j]] == partition
            },
        forall|i: int, j: int|
            0 <= i < j < partition_rows(ids, partition).len() ==> partition_rows(ids, partition)[i]
                < partition_rows(ids, partition)[j],
    decreases ids.len(),
{
    if ids.len() > 0 {
        lemma_partition_rows_sound(ids.drop_last(), partition);
    }
}

/// Every row assigned to a partition occurs in that partition's run.
pub proof fn lemma_partition_rows_complete(ids: Seq<usize>, partition: int, row: int)
    requires
        0 <= row < ids.len(),
        ids[row] == partition,
    ensures
        partition_rows(ids, partition).contains(row),
    decreases ids.len(),
{
    let run = partition_rows(ids, partition);
    if row == ids.len() - 1 {
        assert(run[run.len() - 1] == row);
    } else {
        lemma_partition_rows_complete(ids.drop_last(), partition, row);
        let rest = partition_rows(ids.drop_last(), partition);
        let j = choose|j: int| 0 <= j < rest.len() && rest[j] == row;
        assert(run[j] == row);
    }
}

/// The run computed from the first `k` rows is a prefix of the run computed
/// from the first `m` rows.
proof fn lemma_partition_rows_prefix(ids: Seq<usize>, k: int, m: int, partition: int)
    requires
        0 <= k <= m <= ids.len(),
    ensures
        partition_rows(ids.take(k), partition).len() <= partition_rows(ids.take(m), partition).len(),
        forall|j: int|
            0 <= j < partition_rows(ids.take(k), partition).len() ==> partition_rows(
                ids.take(k),
                partition,
            )[j] == partition_rows(ids.take(m), partition)[j],
    decreases m - k,
{
    if k < m {
        lemma_partition_rows_prefix(ids, k, m - 1, partition);
        lemma_partition_rows_step(ids, m - 1, partition);
    }
}

/// Without rows every run is empty.
proof fn lemma_rows_before_empty(ids: Seq<usize>, partition: int)
    requires
        ids.len() == 0,
    ensures
        rows_before(ids, partition) == 0,
    decreases partition,
{
    if partition > 0 {
        lemma_rows_before_empty(ids, partition - 1);
    }
}

/// Run boundaries never decrease with the partition index.
pub proof fn lemma_rows_before_monotone(ids: Seq<usize>, low: int, high: int)
    requires
        low <= high,
    ensures
        rows_before(ids, low) <= rows_before(ids, high),
    decreases high - low,
{
    if low < high {
        lemma_rows_before_monotone(ids, low, high - 1);
    }
}

/// Appending one row moves the boundaries above its partition up by one.
proof fn lemma_rows_before_step(ids: Seq<usize>, partition: int)
    requires
        ids.len() > 0,
    ensures
        rows_before(ids, partition) == rows_before(ids.drop_last(), partition) + if ids.last() < partition {
            1nat
        } else {
            0nat
        },
    decreases partition,
{
    if partition > 0 {
        lemma_rows_before_step(ids, partition - 1);
    }
}

/// The runs of all partitions together hold as many positions as there are
/// rows.
pub proof fn lemma_rows_before_total(ids: Seq<usize>, num_partitions: int)
    requires
        forall|i: int| 0 <= i < ids.len() ==> ids[i] < num_partitions,
    ensures
        rows_before(ids, num_partitions) == ids.len(),
    decreases ids.len(),
{
    if ids.len() == 0 {
        lemma_rows_before_empty(ids, num_partitions);
    } else {
        lemma_rows_before_total(ids.drop_last(), num_partitions);
        lemma_rows_before_step(ids, num_partitions);
    }
}

/// Number of rows among the first `k` that are assigned to `partition`.
spec fn rows_in(ids: Seq<usize>, k: int, partition: int) -> int {
    partition_rows(ids.take(k), partition).len() as int
}

/// The scratch array holds, at offset `j` of the run of `partition`, the
/// `j`-th row assigned to that partition.
spec fn placed(scratch: Seq<usize>, ids: Seq<usize>, partition: int, j: int) -> bool {
    scratch[rows_before(ids, partition) + j] == partition_rows(ids, partition)[j]
}

/// Where row `index` lands: at the offset, within its partition's run, equal
/// to the number of earlier rows of that partition.
proof fn lemma_scatter_slot(ids: Seq<usize>, num_partitions: int, index: int)
    requires
        0 <= index < ids.len(),
        forall|i: int| 0 <= i < ids.len() ==> ids[i] < num_partitions,
    ensures
        forall|p: int|
            #[trigger] rows_in(ids, index + 1, p) == rows_in(ids, index, p) + if p == ids[index] {
                1int
            } else {
                0int
            },
        0 <= rows_in(ids, index, ids[index] as int) < partition_rows(ids, ids[index] as int).len(),
        partition_rows(ids, ids[index] as int)[rows_in(ids, index, ids[index] as int)] == index,
        rows_before(ids, ids[index] as int) + rows_in(ids, index, ids[index] as int) < ids.len(),
{
    let partition = ids[index] as int;
    assert forall|p: int|
        #[trigger] rows_in(ids, index + 1, p) == rows_in(ids, index, p) + if p == ids[index] {
            1int
        } else {
            0int
        } by {
        lemma_partition_rows_step(ids, index, p);
    }
    lemma_partition_rows_step(ids, index, partition);
    lemma_partition_rows_prefix(ids, index + 1, ids.len() as int, partition);
    assert(ids.take(ids.len() as int) =~= ids);
    let slot = rows_in(ids, index, partition);
    assert(partition_rows(ids.take(index + 1), partition)[slot] == index);
    lemma_rows_before_monotone(ids, partition + 1, num_partitions);
    lemma_rows_before_total(ids, num_partitions);
}

/// Writing row `index` into its slot keeps every slot filled so far intact.
proof fn lemma_scatter_step(
    ids: Seq<usize>,
    num_partitions: int,
    before: Seq<usize>,
    after: Seq<usize>,
    index: int,
)
    requires
        0 <= index < ids.len(),
        index <= usize::MAX,
        forall|i: int| 0 <= i < ids.len() ==> ids[i] < num_partitions,
        before.len() == ids.len(),
        forall|p: int, j: int|
            0 <= p < num_partitions && rows_in(ids, index + 1, p) <= j < partition_rows(ids, p).len()
                ==> #[trigger] placed(before, ids, p, j),
        after == before.update(
            rows_before(ids, ids[index] as int) + rows_in(ids, index, ids[index] as int),
            index as usize,
        ),
    ensures
        forall|p: int, j: int|
            0 <= p < num_partitions && rows_in(ids, index, p) <= j < partition_rows(ids, p).len()
                ==> #[trigger] placed(after, ids, p, j),
{
    let partition = ids[index] as int;
    let slot = rows_in(ids, index, partition);
    let end = rows_before(ids, partition) + slot;
    lemma_scatter_slot(ids, num_partitions, index);
    lemma_rows_before_total(ids, num_partitions);
    assert forall|p: int, j: int|
        0 <= p < num_partitions && rows_in(ids, index, p) <= j < partition_rows(ids, p).len() implies #[trigger] placed(
        after,
        ids,
        p,
        j,
    ) by {
        assert(rows_in(ids, index + 1, p) == rows_in(ids, index, p) + if p == ids[index] {
            1int
        } else {
            0int
        });
        lemma_rows_before_monotone(ids, p + 1, num_partitions);
        assert(rows_before(ids, p + 1) == rows_before(ids, p) + partition_rows(ids, p).len());
        if p == partition && j == slot {
            assert(after[end] == index);
        } else {
            assert(placed(before, ids, p, j));
            if p < partition {
                lemma_rows_before_monotone(ids, p + 1, partition);
            } else if p > partition {
                lemma_rows_before_monotone(ids, partition + 1, p);
                assert(rows_before(ids, partition + 1) == rows_before(ids, partition) + partition_rows(
                    ids,
                    partition,
                ).len());
            }
            assert(rows_before(ids, p) + j != end);
            assert(after[rows_before(ids, p) + j] == before[rows_before(ids, p) + j]);
        }
    }
}

/// Row positions grouped by destination partition: partition `p` owns the
/// contiguous run `indices[offsets[p]..offsets[p + 1]]`.
pub struct RowIndexSet {
    indices: Vec<usize>,
    offsets: Vec<usize>,
}

impl View for RowIndexSet {
    type V = Seq<Seq<int>>;

    /// One run of row positions per partition.
    closed spec fn view(&self) -> Seq<Seq<int>> {
        Seq::new(
            (self.offsets@.len() - 1) as nat,
            |p: int| as_positions(self.indices@.subrange(self.offsets@[p] as int, self.offsets@[p + 1] as int)),
        )
    }
}

impl RowIndexSet {
    /// The run boundaries start at zero, never decrease, and end at the
    /// number of positions held, and every position held is the position
    /// of a row.
    pub closed spec fn wf(&self) -> bool {
        &&& forall|i: int| 0 <= i < self.indices@.len() ==> #[trigger] self.indices@[i] < self.indices@.len()
        &&& self.offsets@.len() >= 1
        &&& self.offsets@[0] == 0
        &&& self.offsets@[self.offsets@.len() - 1] == self.indices@.len()
        &&& forall|p: int, q: int|
            0 <= p <= q < self.offsets@.len() ==> self.offsets@[p] <= self.offsets@[q]
    }

    /// Number of partitions.
    pub fn num_partitions(&self) -> (n: usize)
        requires
            self.wf(),
        ensures
            n == self@.len(),
    {
        self.offsets.len() - 1
    }

    /// Total number of row positions held.
    pub fn num_rows(&self) -> (n: usize)
        ensures
            n == self.total_rows(),
    {
        self.indices.len()
    }

    /// Total number of row positions held.
    pub closed spec fn total_rows(&self) -> nat {
        self.indices@.len()
    }

    /// The row positions destined for `partition`.
    pub fn run(&self, partition: usize) -> (run: &[usize])
        requires
            self.wf(),
            partition < self@.len(),
        ensures
            as_positions(run@) == self@[partition as int],
            forall|k: int| 0 <= k < run@.len() ==> #[trigger] run@[k] < self.total_rows(),
    {
        assert(self@.len() == self.offsets.len() - 1);
        let start = self.offsets[partition];
        let end = self.offsets[partition + 1];
        let run = &self.indices[start..end];
        run
    }
}

/// Groups the row positions `0..partition_ids.len()` by partition.
///
/// The run of each partition lists the rows assigned to it in ascending
/// order; callers need only rely on the grouping.
pub fn group_by_partition(partition_ids: &[usize], num_partitions: usize) -> (groups: RowIndexSet)
    requires
        forall|i: int| 0 <= i < partition_ids@.len() ==> partition_ids@[i] < num_partitions,
    ensures
        groups.wf(),
        groups@.len() == num_partitions,
        groups.total_rows() == partition_ids@.len(),
        forall|p: int| 0 <= p < num_partitions ==> #[trigger] groups@[p] == partition_rows(partition_ids@, p),
{
    let ghost ids = partition_ids@;
    let num_rows = partition_ids.len();

    // rows per partition
    let mut partition_counters = vec![0usize; num_partitions];
    let mut row: usize = 0;
    while row < num_rows
        invariant
            ids == partition_ids@,
            num_rows == ids.len(),
            row <= num_rows,
            partition_counters@.len() == num_partitions,
            forall|i: int| 0 <= i < ids.len() ==> ids[i] < num_partitions,
            forall|p: int|
                0 <= p < num_partitions ==> #[trigger] partition_counters@[p] == partition_rows(
                    ids.take(row as int),
                    p,
                ).len(),
        decreases num_rows - row,
    {
        let partition_id = partition_ids[row];
        proof {
            assert forall|p: int| 0 <= p < num_partitions implies partition_rows(ids.take(row + 1), p).len()
                == partition_rows(ids.take(row as int), p).len() + if p == partition_id {
                1int
            } else {
                0int
            } by {
                lemma_partition_rows_step(ids, row as int, p);
            }
            lemma_partition_rows_sound(ids.take(row + 1), partition_id as int);
        }
        partition_counters[partition_id] += 1;
        row += 1;
    }
    assert(ids.take(num_rows as int) =~= ids);

    // running totals: the end of each partition's run
    let mut partition_ends = partition_counters;
    let mut accum: usize = 0;
    let mut partition: usize = 0;
    while partition < num_partitions
        invariant
            partition <= num_partitions,
            partition_ends@.len() == num_partitions,
            num_rows == ids.len(),
            forall|i: int| 0 <= i < ids.len() ==> ids[i] < num_partitions,
            accum == rows_before(ids, partition as int),
            forall|p: int| 0 <= p < partition ==> #[trigger] partition_ends@[p] == rows_before(ids, p + 1),
            forall|p: int|
                partition <= p < num_partitions ==> #[trigger] partition_ends@[p] == partition_rows(ids, p).len(),
        decreases num_partitions - partition,
    {
        proof {
            lemma_rows_before_monotone(ids, partition + 1, num_partitions as int);
            lemma_rows_before_total(ids, num_partitions as int);
        }
        partition_ends[partition] += accum;
        accum = partition_ends[partition];
        partition += 1;
    }

    // scatter the rows from the last to the first, moving each end down
    let mut shuffled_partition_ids = vec![0usize; num_rows];
    let mut remaining: usize = num_rows;
    while remaining > 0
        invariant
            ids == partition_ids@,
            num_rows == ids.len(),
            remaining <= num_rows,
            partition_ends@.len() == num_partitions,
            shuffled_partition_ids@.len() == num_rows,
            forall|e: int| 0 <= e < num_rows ==> #[trigger] shuffled_partition_ids@[e] < num_rows,
            forall|i: int| 0 <= i < ids.len() ==> ids[i] < num_partitions,
            forall|p: int|
                0 <= p < num_partitions ==> #[trigger] partition_ends@[p] == rows_before(ids, p) + rows_in(
                    ids,
                    remaining as int,
                    p,
                ),
            forall|p: int, j: int|
                0 <= p < num_partitions && rows_in(ids, remaining as int, p) <= j < partition_rows(ids, p).len()
                    ==> #[trigger] placed(shuffled_partition_ids@, ids, p, j),
        decreases remaining,
    {
        let index = remaining - 1;
        let partition_id = partition_ids[index];
        let ghost before = shuffled_partition_ids@;
        proof {
            lemma_scatter_slot(ids, num_partitions as int, index as int);
            assert(rows_in(ids, index + 1, partition_id as int) == rows_in(ids, index as int, partition_id as int) + 1);
            assert(partition_ends@[partition_id as int] == rows_before(ids, partition_id as int) + rows_in(
                ids,
                remaining as int,
                partition_id as int,
            ));
        }
        partition_ends[partition_id] -= 1;
        let end = partition_ends[partition_id];
        shuffled_partition_ids[end] = index;
        proof {
            assert(shuffled_partition_ids@ == before.update(end as int, index));
            lemma_scatter_step(ids, num_partitions as int, before, shuffled_partition_ids@, index as int);
        }
        remaining = index;
    }

    // every end has moved down to the start of its run
    let mut partition_starts = partition_ends;
    partition_starts.push(num_rows);

    let groups = RowIndexSet { indices: shuffled_partition_ids, offsets: partition_starts };
    proof {
        lemma_rows_before_total(ids, num_partitions as int);
        assert(ids.take(0) =~= Seq::<usize>::empty());
        assert forall|p: int| 0 <= p <= num_partitions implies #[trigger] groups.offsets@[p] == rows_before(
            ids,
            p,
        ) by {
            if p < num_partitions {
                assert(partition_ends@[p] == rows_before(ids, p) + rows_in(ids, 0, p));
            }
        }
        assert forall|p: int, q: int| 0 <= p <= q < groups.offsets@.len() implies groups.offsets@[p]
            <= groups.offsets@[q] by {
            lemma_rows_before_monotone(ids, p, q);
        }
        assert forall|p: int| 0 <= p < num_partitions implies #[trigger] groups@[p] == partition_rows(ids, p) by {
            let run = groups@[p];
            let expected = partition_rows(ids, p);
            assert(groups.offsets@[p] == rows_before(ids, p));
            assert(groups.offsets@[p + 1] == rows_before(ids, p + 1));
            assert(rows_before(ids, p + 1) == rows_before(ids, p) + expected.len());
            lemma_rows_before_monotone(ids, p + 1, num_partitions as int);
            assert(run.len() == expected.len());
            assert forall|j: int| 0 <= j < run.len() implies run[j] == expected[j] by {
                assert(rows_in(ids, 0, p) == 0);
                assert(placed(groups.indices@, ids, p, j));
            }
            assert(run =~= expected);
        }
    }
    groups
}

} // verus!
