//! The bucket repartitioner: one staging buffer per output partition.
//!
//! The repartitioner never performs a sink write itself. Each operation
//! returns the writes it has decided on, in the order in which the sink must
//! receive them; the caller performs them and treats a failed write as fatal.
//!
//! Every operation on all partitions is a sequence of steps on one partition
//! each, and the steps are public: a caller that has to stop at the first
//! failed write, or that shares the repartitioner with a memory arbiter,
//! takes one step, performs its writes, and only then takes the next.
//! Memory pressure is answered by [`RssBucketShuffleRepartitioner::spill`],
//! which may be called between any two steps.

use crate::assigner::assignment;
use crate::assigner::evaluate_hashes;
use crate::assigner::evaluate_partition_ids;
use crate::assigner::PartitioningScheme;
use crate::batch::select_rows;
use crate::batch::ColumnarBatch;
use crate::batch::Row;
use crate::batch::Schema;
use crate::buffer::chunk;
use crate::buffer::lemma_rss_threshold_bounds;
use crate::buffer::residue;
use crate::buffer::rss_threshold;
use crate::buffer::PartitionBuffer;
use crate::buffer::SinkWrite;
use crate::grouping::group_by_partition;
use crate::grouping::partition_rows;
use crate::grouping::RowIndexSet;
use vstd::prelude::*;

verus! {

/// What the sink receives with one write: the partition and the rows.
pub type WriteView = (usize, Seq<Row>);

/// The rows of a batch that are assigned to `partition`, in batch order.
pub open spec fn rows_of_partition(rows: Seq<Row>, ids: Seq<usize>, partition: int) -> Seq<Row> {
    select_rows(rows, partition_rows(ids, partition))
}

/// The batches that leave for one partition when the run `run` arrives at a
/// buffer staging `staged`.
///
/// An empty run changes nothing. A run shorter than the bulk cutover is
/// staged row by row, and every full run of `threshold` staged rows leaves
/// as one batch. A run of at least `cutover` rows leaves at once as a single
/// batch of its own, past the staged rows.
pub open spec fn run_batches(staged: Seq<Row>, run: Seq<Row>, threshold: int, cutover: int) -> Seq<Seq<Row>> {
    if run.len() == 0 {
        Seq::empty()
    } else if run.len() < cutover {
        Seq::new(((staged + run).len() as int / threshold) as nat, |j: int| chunk(staged + run, threshold, j))
    } else {
        seq![run]
    }
}

/// The rows that stay staged for one partition after the run `run` arrived.
pub open spec fn run_residue(staged: Seq<Row>, run: Seq<Row>, threshold: int, cutover: int) -> Seq<Row> {
    if 0 < run.len() < cutover {
        residue(staged + run, threshold)
    } else {
        staged
    }
}

/// The batches `batches` as writes to `partition`.
pub open spec fn tagged(partition: usize, batches: Seq<Seq<Row>>) -> Seq<WriteView> {
    batches.map_values(|rows: Seq<Row>| (partition, rows))
}

/// The writes decided on when a batch with rows `rows` and partition
/// indices `ids` is inserted, for the partitions below `upto`, in partition
/// order.
pub open spec fn dispatched(
    staged: Seq<Seq<Row>>,
    rows: Seq<Row>,
    ids: Seq<usize>,
    threshold: int,
    cutover: int,
    upto: int,
) -> Seq<WriteView>
    decreases upto,
{
    if upto <= 0 {
        Seq::empty()
    } else {
        dispatched(staged, rows, ids, threshold, cutover, upto - 1) + tagged(
            (upto - 1) as usize,
            run_batches(staged[upto - 1], rows_of_partition(rows, ids, upto - 1), threshold, cutover),
        )
    }
}

/// The writes decided on when the partitions below `upto` are flushed: one
/// per partition that has rows staged, in partition order.
pub open spec fn flushed(staged: Seq<Seq<Row>>, upto: int) -> Seq<WriteView>
    decreases upto,
{
    if upto <= 0 {
        Seq::empty()
    } else if staged[upto - 1].len() > 0 {
        flushed(staged, upto - 1).push(((upto - 1) as usize, staged[upto - 1]))
    } else {
        flushed(staged, upto - 1)
    }
}

/// What the sink receives with each of `writes`.
pub open spec fn write_views(writes: Seq<SinkWrite>) -> Seq<WriteView> {
    writes.map_values(|write: SinkWrite| (write.partition_id, write.batch@.rows()))
}

/// Every one of `writes` is a well-formed batch under the names `names`.
pub open spec fn writes_conform(writes: Seq<SinkWrite>, names: Seq<Seq<char>>) -> bool {
    forall|j: int| 0 <= j < writes.len() ==> (#[trigger] writes[j]).batch.wf() && writes[j].batch@.names == names
}

/// The number of rows staged for the partitions below `upto`.
pub open spec fn staged_count(staged: Seq<Seq<Row>>, upto: int) -> nat
    decreases upto,
{
    if upto <= 0 {
        0
    } else {
        staged_count(staged, upto - 1) + staged[upto - 1].len()
    }
}

/// The memory accounted for `rows` staged rows of `width` columns: eight
/// bytes per cell, capped at `usize::MAX`.
pub open spec fn capped_bytes(width: nat, rows: nat) -> usize {
    let bytes = 8 * width * rows;
    if bytes > usize::MAX {
        usize::MAX
    } else {
        bytes as usize
    }
}

/// The memory accounted for staged rows of `width` columns: eight bytes per
/// staged cell, capped at `usize::MAX`.
pub open spec fn accounted_memory(width: nat, staged: Seq<Seq<Row>>) -> usize {
    capped_bytes(width, staged_count(staged, staged.len() as int))
}

/// Nothing is staged where every buffer is empty.
pub proof fn lemma_staged_count_empty(staged: Seq<Seq<Row>>, upto: int)
    requires
        0 <= upto <= staged.len(),
        forall|p: int| 0 <= p < staged.len() ==> (#[trigger] staged[p]).len() == 0,
    ensures
        staged_count(staged, upto) == 0,
    decreases upto,
{
    if upto > 0 {
        lemma_staged_count_empty(staged, upto - 1);
    }
}

/// Buffers that each stage at most `bound` rows stage at most `bound` rows
/// per buffer in all.
proof fn lemma_staged_count_bound(staged: Seq<Seq<Row>>, upto: int, bound: int)
    requires
        0 <= upto <= staged.len(),
        forall|p: int| 0 <= p < staged.len() ==> (#[trigger] staged[p]).len() <= bound,
    ensures
        staged_count(staged, upto) <= upto * bound,
    decreases upto,
{
    if upto > 0 {
        lemma_staged_count_bound(staged, upto - 1, bound);
        assert((upto - 1) * bound + bound == upto * bound) by (nonlinear_arith);
    } else {
        assert(0 * bound == 0) by (nonlinear_arith);
    }
}

/// Replacing what one buffer stages changes the count by the difference.
proof fn lemma_staged_count_update(staged: Seq<Seq<Row>>, partition: int, rows: Seq<Row>, upto: int)
    requires
        0 <= partition < staged.len(),
        0 <= upto <= staged.len(),
    ensures
        staged_count(staged.update(partition, rows), upto) == if partition < upto {
            staged_count(staged, upto) - staged[partition].len() + rows.len()
        } else {
            staged_count(staged, upto) as int
        },
        partition < upto ==> staged_count(staged, upto) >= staged[partition].len(),
    decreases upto,
{
    if upto > 0 {
        lemma_staged_count_update(staged, partition, rows, upto - 1);
    }
}

/// Computes the memory accounted for `rows` staged rows of `width` columns.
fn memory_of(width: usize, rows: u128) -> (bytes: usize)
    ensures
        bytes == capped_bytes(width as nat, rows as nat),
{
    match rows.checked_mul(width as u128) {
        Some(cells) => match cells.checked_mul(8) {
            Some(bytes) => {
                assert(8 * width * rows == 8 * (rows * width)) by (nonlinear_arith);
                if bytes > usize::MAX as u128 {
                    usize::MAX
                } else {
                    bytes as usize
                }
            },
            None => {
                assert(8 * width * rows == 8 * (rows * width)) by (nonlinear_arith);
                usize::MAX
            },
        },
        None => {
            assert(8 * width * rows >= rows * width) by (nonlinear_arith);
            usize::MAX
        },
    }
}

/// Why a repartitioner cannot be built.
#[derive(Clone, Copy, Debug, PartialEq, Eq, Structural)]
pub enum ConfigError {
    /// The partitioning asks for zero output partitions.
    ZeroPartitions,
    /// The nominal batch size is zero.
    ZeroBatchSize,
    /// A key column of the partitioning does not exist in the schema.
    KeyColumnOutOfRange,
}

/// What to do after the memory arbiter has answered a growth request.
#[derive(Clone, Copy, Debug, PartialEq, Eq, Structural)]
pub enum GrowthStep {
    /// The request was granted: go on with the insert.
    Proceed,
    /// The request was refused: spill, then ask once more.
    SpillAndAskAgain,
    /// The request was refused although everything had been spilled: give
    /// up, the memory is exhausted.
    Fail,
}

/// Decides how to go on after a growth request: a granted request lets the
/// insert proceed; a refused one is answered by one spill and a second
/// request, and fails the task when that is refused too.
pub fn after_growth_request(granted: bool, spilled: bool) -> (step: GrowthStep)
    ensures
        step == if granted {
            GrowthStep::Proceed
        } else if !spilled {
            GrowthStep::SpillAndAskAgain
        } else {
            GrowthStep::Fail
        },
{
    if granted {
        GrowthStep::Proceed
    } else if !spilled {
        GrowthStep::SpillAndAskAgain
    } else {
        GrowthStep::Fail
    }
}

/// The rows staged in each of `buffers`.
spec fn staged_in(buffers: Seq<PartitionBuffer>) -> Seq<Seq<Row>> {
    Seq::new(buffers.len(), |p: int| buffers[p].rows())
}

/// Every one of `buffers` is at rest with the given schema and threshold.
spec fn buffers_in_order(buffers: Seq<PartitionBuffer>, names: Seq<Seq<char>>, threshold: usize) -> bool {
    forall|p: int|
        0 <= p < buffers.len() ==> {
            &&& (#[trigger] buffers[p]).wf()
            &&& buffers[p].threshold() == threshold
            &&& buffers[p].names() == names
        }
}

/// A step on one buffer leaves the others as they were: the buffers stay in
/// order, and what they stage changes at that one place only.
proof fn lemma_one_buffer_changed(
    before: Seq<PartitionBuffer>,
    after: Seq<PartitionBuffer>,
    partition: int,
    names: Seq<Seq<char>>,
    threshold: usize,
)
    requires
        buffers_in_order(before, names, threshold),
        after.len() == before.len(),
        0 <= partition < before.len(),
        forall|q: int| 0 <= q < before.len() && q != partition ==> #[trigger] after[q] == before[q],
        after[partition].wf(),
        after[partition].threshold() == threshold,
        after[partition].names() == names,
    ensures
        buffers_in_order(after, names, threshold),
        staged_in(after) == staged_in(before).update(partition, after[partition].rows()),
        forall|q: int| 0 <= q < before.len() ==> (#[trigger] staged_in(before)[q]).len() < threshold,
        after[partition].rows().len() < threshold,
{
    assert forall|q: int| 0 <= q < after.len() implies {
        &&& (#[trigger] after[q]).wf()
        &&& after[q].threshold() == threshold
        &&& after[q].names() == names
    } by {
        if q != partition {
            assert(after[q] == before[q]);
        }
    }
    assert forall|q: int| 0 <= q < before.len() implies (#[trigger] staged_in(before)[q]).len() < threshold by {
        before[q].lemma_wf_facts();
    }
    after[partition].lemma_wf_facts();
    assert(staged_in(after) =~= staged_in(before).update(partition, after[partition].rows())) by {
        assert forall|q: int| 0 <= q < after.len() implies staged_in(after)[q] == staged_in(before).update(
            partition,
            after[partition].rows(),
        )[q] by {
            if q != partition {
                assert(after[q] == before[q]);
            }
        }
    }
}

/// Repartitions batches by hash into per-partition staging buffers and
/// decides which batches go to the shuffle sink, and when.
pub struct RssBucketShuffleRepartitioner {
    id: usize,
    buffered_partitions: Vec<PartitionBuffer>,
    partitioning: PartitioningScheme,
    num_output_partitions: usize,
    schema: Schema,
    batch_size: usize,
    staged_rows: u128,
    mem_used: usize,
}

impl RssBucketShuffleRepartitioner {
    /// The rows staged for each partition.
    pub closed spec fn buffered(&self) -> Seq<Seq<Row>> {
        staged_in(self.buffered_partitions@)
    }

    /// The number of column builders allocated for each partition.
    pub closed spec fn builders(&self) -> Seq<nat> {
        Seq::new(self.buffered_partitions@.len(), |p: int| self.buffered_partitions@[p].builders())
    }

    /// The flush threshold shared by all partitions.
    pub closed spec fn threshold(&self) -> usize {
        self.buffered_partitions@[0].threshold()
    }

    /// The bulk cutover: the run length from which a run leaves as one batch
    /// of its own instead of being staged. It is the nominal batch size.
    pub closed spec fn cutover(&self) -> usize {
        self.batch_size
    }

    /// The column names of the batches that are accepted and written.
    pub closed spec fn names(&self) -> Seq<Seq<char>> {
        self.schema@
    }

    /// The partitioning scheme.
    pub closed spec fn scheme(&self) -> PartitioningScheme {
        self.partitioning
    }

    /// The accounted memory usage in bytes.
    pub closed spec fn memory(&self) -> usize {
        self.mem_used
    }

    /// The memory consumer id.
    pub closed spec fn consumer_id(&self) -> usize {
        self.id
    }

    /// There is one buffer at rest per partition, at least one partition,
    /// all buffers share the schema and the flush threshold, the threshold
    /// does not exceed the bulk cutover, and the accounted memory usage is
    /// that of the staged rows.
    pub closed spec fn wf(&self) -> bool {
        &&& self.num_output_partitions >= 1
        &&& self.buffered_partitions@.len() == self.num_output_partitions
        &&& self.partitioning.count() == self.num_output_partitions
        &&& self.partitioning.fits(self.schema@.len())
        &&& buffers_in_order(self.buffered_partitions@, self.schema@, self.buffered_partitions@[0].threshold())
        &&& self.buffered_partitions@[0].threshold() <= self.batch_size
        &&& self.staged_rows == staged_count(self.buffered(), self.buffered().len() as int)
        &&& self.mem_used == accounted_memory(self.schema@.len(), self.buffered())
    }

    /// In a well-formed repartitioner the partition count is positive, the
    /// key columns exist, the threshold is at least one row and at most the
    /// bulk cutover, the accounted memory usage reflects exactly the staged
    /// rows, and every partition stages fewer rows than the threshold, with
    /// builders allocated exactly where rows are staged.
    pub proof fn lemma_wf_facts(&self)
        requires
            self.wf(),
        ensures
            self.scheme().count() >= 1,
            self.buffered().len() == self.scheme().count(),
            self.builders().len() == self.scheme().count(),
            self.scheme().fits(self.names().len()),
            1 <= self.threshold() <= self.cutover(),
            self.memory() == accounted_memory(self.names().len(), self.buffered()),
            forall|p: int|
                0 <= p < self.buffered().len() ==> {
                    &&& (#[trigger] self.buffered()[p]).len() < self.threshold()
                    &&& (self.buffered()[p].len() == 0 <==> self.builders()[p] == 0)
                    &&& (self.buffered()[p].len() > 0 ==> self.builders()[p] == self.names().len())
                },
    {
        self.buffered_partitions@[0].lemma_wf_facts();
        assert forall|p: int| 0 <= p < self.buffered().len() implies {
            &&& (#[trigger] self.buffered()[p]).len() < self.threshold()
            &&& (self.buffered()[p].len() == 0 <==> self.builders()[p] == 0)
            &&& (self.buffered()[p].len() > 0 ==> self.builders()[p] == self.names().len())
        } by {
            self.buffered_partitions@[p].lemma_wf_facts();
        }
    }

    /// Builds a repartitioner with one empty buffer per output partition.
    ///
    /// The flush threshold is derived from the nominal batch size; the bulk
    /// cutover is the nominal batch size itself. The configuration is
    /// rejected when the partitioning has no output partition, else when the
    /// nominal batch size is zero, else when a key column lies outside the
    /// schema.
    pub fn new(partition_id: usize, schema: Schema, partitioning: PartitioningScheme, batch_size: usize) -> (result:
        Result<RssBucketShuffleRepartitioner, ConfigError>)
        ensures
            match result {
                Ok(repartitioner) => {
                    &&& partitioning.count() >= 1
                    &&& batch_size >= 1
                    &&& partitioning.fits(schema@.len())
                    &&& repartitioner.wf()
                    &&& repartitioner.consumer_id() == partition_id
                    &&& repartitioner.scheme() == partitioning
                    &&& repartitioner.names() == schema@
                    &&& repartitioner.threshold() == rss_threshold(batch_size)
                    &&& repartitioner.cutover() == batch_size
                    &&& repartitioner.memory() == 0
                    &&& repartitioner.buffered().len() == partitioning.count()
                    &&& forall|p: int|
                        0 <= p < partitioning.count() ==> (#[trigger] repartitioner.buffered()[p]).len() == 0
                    &&& forall|p: int| 0 <= p < partitioning.count() ==> #[trigger] repartitioner.builders()[p] == 0
                },
                Err(ConfigError::ZeroPartitions) => partitioning.count() == 0,
                Err(ConfigError::ZeroBatchSize) => partitioning.count() >= 1 && batch_size == 0,
                Err(ConfigError::KeyColumnOutOfRange) => {
                    &&& partitioning.count() >= 1
                    &&& batch_size >= 1
                    &&& !partitioning.fits(schema@.len())
                },
            },
    {
        let num_output_partitions = partitioning.partition_count();
        if num_output_partitions == 0 {
            return Err(ConfigError::ZeroPartitions);
        }
        if batch_size == 0 {
            return Err(ConfigError::ZeroBatchSize);
        }
        if !partitioning.fits_columns(schema.len()) {
            return Err(ConfigError::KeyColumnOutOfRange);
        }
        let mut buffered_partitions: Vec<PartitionBuffer> = Vec::with_capacity(num_output_partitions);
        let mut p: usize = 0;
        while p < num_output_partitions
            invariant
                batch_size >= 1,
                p <= num_output_partitions,
                buffered_partitions@.len() == p,
                forall|q: int|
                    0 <= q < p ==> {
                        &&& (#[trigger] buffered_partitions@[q]).wf()
                        &&& buffered_partitions@[q].threshold() == rss_threshold(batch_size)
                        &&& buffered_partitions@[q].names() == schema@
                        &&& buffered_partitions@[q].rows().len() == 0
                        &&& buffered_partitions@[q].builders() == 0
                    },
            decreases num_output_partitions - p,
        {
            buffered_partitions.push(PartitionBuffer::new(schema.clone(), batch_size));
            p += 1;
        }
        let repartitioner = RssBucketShuffleRepartitioner {
            id: partition_id,
            buffered_partitions,
            partitioning,
            num_output_partitions,
            schema,
            batch_size,
            staged_rows: 0,
            mem_used: 0,
        };
        proof {
            lemma_rss_threshold_bounds(batch_size);
            lemma_staged_count_empty(repartitioner.buffered(), repartitioner.buffered().len() as int);
            assert(0 == 8 * repartitioner.schema@.len() * 0) by (nonlinear_arith);
        }
        Ok(repartitioner)
    }

    /// The name under which the repartitioner reports itself.
    pub fn name(&self) -> (name: &'static str)
        ensures
            name@ == "bucket rss repartitioner"@,
    {
        "bucket rss repartitioner"
    }

    /// The memory consumer id: the id of the task partition that feeds the
    /// repartitioner.
    pub fn id(&self) -> (id: usize)
        ensures
            id == self.consumer_id(),
    {
        self.id
    }

    /// The accounted memory usage in bytes.
    pub fn mem_used(&self) -> (bytes: usize)
        ensures
            bytes == self.memory(),
    {
        self.mem_used
    }

    /// The number of output partitions.
    pub fn num_output_partitions(&self) -> (n: usize)
        requires
            self.wf(),
        ensures
            n == self.scheme().count(),
            n == self.buffered().len(),
    {
        self.num_output_partitions
    }

    /// The schema of the batches that are accepted and written.
    pub fn schema(&self) -> (schema: &Schema)
        ensures
            schema@ == self.names(),
    {
        &self.schema
    }

    /// The number of rows staged for `partition`.
    pub fn buffered_rows(&self, partition: usize) -> (n: usize)
        requires
            self.wf(),
            partition < self.buffered().len(),
        ensures
            n == self.buffered()[partition as int].len(),
    {
        self.buffered_partitions[partition].num_rows()
    }

    /// The number of column builders allocated for `partition`.
    pub fn buffered_builders(&self, partition: usize) -> (n: usize)
        requires
            self.wf(),
            partition < self.buffered().len(),
        ensures
            n == self.builders()[partition as int],
    {
        self.buffered_partitions[partition].num_builders()
    }

    /// The flush threshold shared by all partitions.
    pub fn rss_batch_size(&self) -> (n: usize)
        requires
            self.wf(),
        ensures
            n == self.threshold(),
    {
        self.buffered_partitions[0].rss_batch_size()
    }

    /// The bulk cutover: the nominal batch size.
    pub fn batch_size(&self) -> (n: usize)
        ensures
            n == self.cutover(),
    {
        self.batch_size
    }

    /// Brings the books up to date after a step on the buffer of
    /// `partition_id`, which staged `staged_before` rows before the step.
    fn settle(&mut self, partition_id: usize, staged_before: usize, Ghost(before): Ghost<Seq<PartitionBuffer>>)
        requires
            old(self).num_output_partitions >= 1,
            old(self).buffered_partitions@.len() == old(self).num_output_partitions,
            old(self).partitioning.count() == old(self).num_output_partitions,
            old(self).partitioning.fits(old(self).schema@.len()),
            before.len() == old(self).buffered_partitions@.len(),
            partition_id < before.len(),
            buffers_in_order(before, old(self).schema@, before[0].threshold()),
            before[0].threshold() <= old(self).batch_size,
            old(self).staged_rows == staged_count(staged_in(before), before.len() as int),
            staged_before == before[partition_id as int].rows().len(),
            forall|q: int|
                0 <= q < before.len() && q != partition_id ==> #[trigger] old(self).buffered_partitions@[q]
                    == before[q],
            old(self).buffered_partitions@[partition_id as int].wf(),
            old(self).buffered_partitions@[partition_id as int].threshold() == before[0].threshold(),
            old(self).buffered_partitions@[partition_id as int].names() == old(self).schema@,
        ensures
            final(self).wf(),
            final(self).buffered_partitions == old(self).buffered_partitions,
            final(self).scheme() == old(self).scheme(),
            final(self).names() == old(self).names(),
            final(self).threshold() == before[0].threshold(),
            final(self).cutover() == old(self).cutover(),
            final(self).consumer_id() == old(self).consumer_id(),
            final(self).buffered() == staged_in(before).update(
                partition_id as int,
                old(self).buffered_partitions@[partition_id as int].rows(),
            ),
    {
        let ghost threshold = before[0].threshold();
        let ghost after = self.buffered_partitions@;
        let ghost count = before.len() as int;
        proof {
            lemma_one_buffer_changed(before, after, partition_id as int, self.schema@, threshold);
            lemma_staged_count_update(staged_in(before), partition_id as int, after[partition_id as int].rows(), count);
            lemma_staged_count_bound(staged_in(after), count, threshold as int);
            assert(count * threshold <= usize::MAX * usize::MAX) by (nonlinear_arith)
                requires
                    0 <= count <= usize::MAX,
                    0 <= threshold <= usize::MAX,
            ;
            assert(usize::MAX * usize::MAX <= u128::MAX) by (nonlinear_arith)
                requires
                    usize::MAX <= 0xffff_ffff_ffff_ffff,
                    u128::MAX == 0xffff_ffff_ffff_ffff_ffff_ffff_ffff_ffff,
            ;
        }
        let staged_after = self.buffered_partitions[partition_id].num_rows();
        self.staged_rows = self.staged_rows - (staged_before as u128) + (staged_after as u128);
        self.mem_used = memory_of(self.schema.len(), self.staged_rows);
    }

    /// Dispatches to one partition its run of the rows of `input`, as
    /// grouped by `groups`.
    ///
    /// An empty run changes nothing. A run shorter than the bulk cutover is
    /// staged row by row, and the writes are the full runs of `threshold`
    /// rows among the rows staged before followed by the new ones; what is
    /// left over stays staged. A run of at least `cutover` rows is selected
    /// column-wise and leaves as one write of its own, past the staged rows.
    pub fn insert_partition(&mut self, input: &ColumnarBatch, groups: &RowIndexSet, partition_id: usize) -> (writes:
        Vec<SinkWrite>)
        requires
            old(self).wf(),
            input.wf(),
            input@.names == old(self).names(),
            groups.wf(),
            groups.total_rows() == input@.num_rows(),
            groups@.len() == old(self).scheme().count(),
            partition_id < old(self).scheme().count(),
        ensures
            final(self).wf(),
            final(self).scheme() == old(self).scheme(),
            final(self).names() == old(self).names(),
            final(self).threshold() == old(self).threshold(),
            final(self).cutover() == old(self).cutover(),
            final(self).consumer_id() == old(self).consumer_id(),
            final(self).memory() == accounted_memory(final(self).names().len(), final(self).buffered()),
            final(self).buffered() == old(self).buffered().update(
                partition_id as int,
                run_residue(
                    old(self).buffered()[partition_id as int],
                    select_rows(input@.rows(), groups@[partition_id as int]),
                    old(self).threshold() as int,
                    old(self).cutover() as int,
                ),
            ),
            write_views(writes@) == tagged(
                partition_id,
                run_batches(
                    old(self).buffered()[partition_id as int],
                    select_rows(input@.rows(), groups@[partition_id as int]),
                    old(self).threshold() as int,
                    old(self).cutover() as int,
                ),
            ),
            writes_conform(writes@, old(self).names()),
    {
        let ghost before = self.buffered_partitions@;
        let ghost staged = self.buffered()[partition_id as int];
        let ghost threshold = self.threshold() as int;
        let ghost cutover = self.batch_size as int;
        let run = groups.run(partition_id);
        let ghost run_rows = select_rows(input@.rows(), groups@[partition_id as int]);
        let staged_before = self.buffered_partitions[partition_id].num_rows();
        let mut writes: Vec<SinkWrite> = Vec::new();
        if run.len() == 0 {
            assert(write_views(writes@) =~= tagged(partition_id, run_batches(staged, run_rows, threshold, cutover)));
        } else if run.len() < self.batch_size {
            writes = self.buffered_partitions[partition_id].append_rows(input, run, partition_id);
            assert(write_views(writes@) =~= tagged(partition_id, run_batches(staged, run_rows, threshold, cutover)));
        } else {
            // a run this long pays for one columnar selection and goes out
            // as a batch of its own, past the builders
            let batch = input.take_rows(run);
            let write = self.buffered_partitions[partition_id].append_batch(batch, partition_id);
            writes.push(write);
            assert(write_views(writes@) =~= tagged(partition_id, run_batches(staged, run_rows, threshold, cutover)));
        }
        self.settle(partition_id, staged_before, Ghost(before));
        writes
    }

    /// Flushes the buffer of one partition: nothing is written for an empty
    /// buffer; otherwise its staged rows leave as one write, and the buffer
    /// is empty again, builders released.
    pub fn flush_partition(&mut self, partition_id: usize) -> (write: Option<SinkWrite>)
        requires
            old(self).wf(),
            partition_id < old(self).scheme().count(),
        ensures
            final(self).wf(),
            final(self).scheme() == old(self).scheme(),
            final(self).names() == old(self).names(),
            final(self).threshold() == old(self).threshold(),
            final(self).cutover() == old(self).cutover(),
            final(self).consumer_id() == old(self).consumer_id(),
            final(self).memory() == accounted_memory(final(self).names().len(), final(self).buffered()),
            final(self).buffered() == old(self).buffered().update(partition_id as int, Seq::empty()),
            final(self).builders() == old(self).builders().update(partition_id as int, 0),
            old(self).buffered()[partition_id as int].len() == 0 <==> write is None,
            write matches Some(w) ==> w.carries(
                partition_id,
                old(self).names(),
                old(self).buffered()[partition_id as int],
            ),
    {
        let ghost before = self.buffered_partitions@;
        let ghost builders = self.builders();
        let staged_before = self.buffered_partitions[partition_id].num_rows();
        let write = self.buffered_partitions[partition_id].flush_to_rss(partition_id);
        self.settle(partition_id, staged_before, Ghost(before));
        proof {
            assert(self.buffered_partitions@[partition_id as int].rows() =~= Seq::<Row>::empty());
            assert(self.builders() =~= builders.update(partition_id as int, 0)) by {
                assert forall|q: int| 0 <= q < before.len() implies self.builders()[q] == builders.update(
                    partition_id as int,
                    0,
                )[q] by {
                    if q != partition_id {
                        assert(self.buffered_partitions@[q] == before[q]);
                    }
                }
            }
        }
        write
    }

    /// Inserts a batch whose rows have already been assigned to partitions:
    /// row `i` goes to partition `partition_ids[i]`.
    ///
    /// The rows are grouped by partition, and every partition takes the
    /// step of [`Self::insert_partition`] on its run, in partition order.
    /// The writes are returned in that order. The accounted memory usage
    /// afterwards is that of the rows left staged.
    pub fn insert_batch_with_partition_ids(&mut self, input: &ColumnarBatch, partition_ids: &[usize]) -> (writes:
        Vec<SinkWrite>)
        requires
            old(self).wf(),
            input.wf(),
            input@.names == old(self).names(),
            partition_ids@.len() == input@.num_rows(),
            forall|i: int| 0 <= i < partition_ids@.len() ==> partition_ids@[i] < old(self).scheme().count(),
        ensures
            final(self).wf(),
            final(self).scheme() == old(self).scheme(),
            final(self).names() == old(self).names(),
            final(self).threshold() == old(self).threshold(),
            final(self).cutover() == old(self).cutover(),
            final(self).consumer_id() == old(self).consumer_id(),
            final(self).memory() == accounted_memory(final(self).names().len(), final(self).buffered()),
            final(self).buffered().len() == old(self).buffered().len(),
            forall|p: int|
                0 <= p < old(self).buffered().len() ==> (#[trigger] final(self).buffered()[p]).len()
                    < old(self).threshold(),
            forall|p: int|
                0 <= p < old(self).buffered().len() ==> #[trigger] final(self).buffered()[p] == run_residue(
                    old(self).buffered()[p],
                    rows_of_partition(input@.rows(), partition_ids@, p),
                    old(self).threshold() as int,
                    old(self).cutover() as int,
                ),
            write_views(writes@) == dispatched(
                old(self).buffered(),
                input@.rows(),
                partition_ids@,
                old(self).threshold() as int,
                old(self).cutover() as int,
                old(self).scheme().count() as int,
            ),
            writes_conform(writes@, old(self).names()),
    {
        let ghost staged = self.buffered();
        let ghost rows = input@.rows();
        let ghost ids = partition_ids@;
        let ghost threshold = self.threshold() as int;
        let ghost cutover = self.cutover() as int;
        let ghost names = self.names();
        let ghost scheme = self.scheme();

        let num_output_partitions = self.num_output_partitions;
        let groups = group_by_partition(partition_ids, num_output_partitions);

        let mut writes: Vec<SinkWrite> = Vec::new();
        let mut partition_id: usize = 0;
        assert(write_views(writes@) =~= dispatched(staged, rows, ids, threshold, cutover, 0));
        while partition_id < num_output_partitions
            invariant
                self.wf(),
                input.wf(),
                groups.wf(),
                rows == input@.rows(),
                groups.total_rows() == input@.num_rows(),
                input@.names == names,
                self.scheme() == scheme,
                self.names() == names,
                self.threshold() == threshold,
                self.cutover() == cutover,
                self.consumer_id() == old(self).consumer_id(),
                num_output_partitions == scheme.count(),
                staged.len() == num_output_partitions,
                self.buffered().len() == num_output_partitions,
                groups@.len() == num_output_partitions,
                forall|p: int| 0 <= p < num_output_partitions ==> #[trigger] groups@[p] == partition_rows(ids, p),
                partition_id <= num_output_partitions,
                forall|p: int|
                    0 <= p < partition_id ==> #[trigger] self.buffered()[p] == run_residue(
                        staged[p],
                        rows_of_partition(rows, ids, p),
                        threshold,
                        cutover,
                    ),
                forall|p: int| partition_id <= p < num_output_partitions ==> #[trigger] self.buffered()[p] == staged[p],
                write_views(writes@) == dispatched(staged, rows, ids, threshold, cutover, partition_id as int),
                writes_conform(writes@, names),
            decreases num_output_partitions - partition_id,
        {
            let ghost written = writes@;
            let ghost staged_now = self.buffered();
            assert(groups@[partition_id as int] == partition_rows(ids, partition_id as int));
            assert(staged_now[partition_id as int] == staged[partition_id as int]);
            let mut step = self.insert_partition(input, &groups, partition_id);
            let ghost emitted = step@;
            writes.append(&mut step);
            proof {
                assert(write_views(writes@) =~= write_views(written) + write_views(emitted));
                assert forall|j: int| 0 <= j < writes@.len() implies (#[trigger] writes@[j]).batch.wf()
                    && writes@[j].batch@.names == names by {
                    if j < written.len() {
                        assert(writes@[j] == written[j]);
                    } else {
                        assert(writes@[j] == emitted[j - written.len()]);
                    }
                }
                assert forall|p: int| 0 <= p < partition_id + 1 implies #[trigger] self.buffered()[p] == run_residue(
                    staged[p],
                    rows_of_partition(rows, ids, p),
                    threshold,
                    cutover,
                ) by {
                    if p != partition_id {
                        assert(staged_now[p] == run_residue(
                            staged[p],
                            rows_of_partition(rows, ids, p),
                            threshold,
                            cutover,
                        ));
                    }
                }
                assert forall|p: int| partition_id + 1 <= p < num_output_partitions implies #[trigger] self.buffered()[p]
                    == staged[p] by {
                    assert(staged_now[p] == staged[p]);
                }
            }
            partition_id += 1;
        }
        proof {
            self.lemma_wf_facts();
        }
        writes
    }

    /// Inserts a batch: hashes every row over the key columns of the
    /// partitioning scheme, reduces the hashes to partition indices, and
    /// dispatches the rows as [`Self::insert_batch_with_partition_ids`] does.
    ///
    /// The caller asks the memory arbiter for `input.memory_size()` bytes
    /// beforehand, goes by [`after_growth_request`] on the answer, and gives
    /// back afterwards what the writes have released.
    pub fn insert_batch(&mut self, input: &ColumnarBatch) -> (writes: Vec<SinkWrite>)
        requires
            old(self).wf(),
            input.wf(),
            input@.names == old(self).names(),
        ensures
            final(self).wf(),
            final(self).scheme() == old(self).scheme(),
            final(self).names() == old(self).names(),
            final(self).threshold() == old(self).threshold(),
            final(self).cutover() == old(self).cutover(),
            final(self).consumer_id() == old(self).consumer_id(),
            final(self).memory() == accounted_memory(final(self).names().len(), final(self).buffered()),
            final(self).buffered().len() == old(self).buffered().len(),
            forall|p: int|
                0 <= p < old(self).buffered().len() ==> (#[trigger] final(self).buffered()[p]).len()
                    < old(self).threshold(),
            forall|p: int|
                0 <= p < old(self).buffered().len() ==> #[trigger] final(self).buffered()[p] == run_residue(
                    old(self).buffered()[p],
                    rows_of_partition(input@.rows(), assignment(input@.rows(), old(self).scheme()), p),
                    old(self).threshold() as int,
                    old(self).cutover() as int,
                ),
            write_views(writes@) == dispatched(
                old(self).buffered(),
                input@.rows(),
                assignment(input@.rows(), old(self).scheme()),
                old(self).threshold() as int,
                old(self).cutover() as int,
                old(self).scheme().count() as int,
            ),
            writes_conform(writes@, old(self).names()),
    {
        let num_output_partitions = self.num_output_partitions;
        let hashes = evaluate_hashes(&self.partitioning, input);
        let partition_ids = evaluate_partition_ids(hashes.as_slice(), num_output_partitions);
        self.insert_batch_with_partition_ids(input, partition_ids.as_slice())
    }

    /// Flushes every buffer in partition order.
    fn flush_partitions(&mut self) -> (writes: Vec<SinkWrite>)
        requires
            old(self).wf(),
        ensures
            final(self).wf(),
            final(self).scheme() == old(self).scheme(),
            final(self).names() == old(self).names(),
            final(self).threshold() == old(self).threshold(),
            final(self).cutover() == old(self).cutover(),
            final(self).consumer_id() == old(self).consumer_id(),
            final(self).memory() == 0,
            final(self).buffered().len() == old(self).buffered().len(),
            forall|p: int| 0 <= p < old(self).buffered().len() ==> (#[trigger] final(self).buffered()[p]).len() == 0,
            forall|p: int| 0 <= p < old(self).buffered().len() ==> #[trigger] final(self).builders()[p] == 0,
            write_views(writes@) == flushed(old(self).buffered(), old(self).scheme().count() as int),
            writes_conform(writes@, old(self).names()),
    {
        let ghost staged = self.buffered();
        let ghost names = self.names();
        let ghost threshold = self.threshold();
        let ghost cutover = self.cutover();
        let num_output_partitions = self.num_output_partitions;
        let mut writes: Vec<SinkWrite> = Vec::new();
        let mut i: usize = 0;
        assert(write_views(writes@) =~= flushed(staged, 0));
        while i < num_output_partitions
            invariant
                self.wf(),
                self.scheme() == old(self).scheme(),
                self.names() == names,
                self.threshold() == threshold,
                self.cutover() == cutover,
                self.consumer_id() == old(self).consumer_id(),
                num_output_partitions == self.scheme().count(),
                staged.len() == num_output_partitions,
                self.buffered().len() == num_output_partitions,
                self.builders().len() == num_output_partitions,
                i <= num_output_partitions,
                forall|p: int| 0 <= p < i ==> (#[trigger] self.buffered()[p]).len() == 0,
                forall|p: int| 0 <= p < i ==> #[trigger] self.builders()[p] == 0,
                forall|p: int| i <= p < num_output_partitions ==> #[trigger] self.buffered()[p] == staged[p],
                write_views(writes@) == flushed(staged, i as int),
                writes_conform(writes@, names),
            decreases num_output_partitions - i,
        {
            let ghost staged_now = self.buffered();
            let ghost builders_now = self.builders();
            let ghost written = writes@;
            assert(staged_now[i as int] == staged[i as int]);
            match self.flush_partition(i) {
                Some(write) => {
                    writes.push(write);
                    proof {
                        assert(write_views(writes@) =~= write_views(written).push((i, staged[i as int])));
                        assert forall|j: int| 0 <= j < writes@.len() implies (#[trigger] writes@[j]).batch.wf()
                            && writes@[j].batch@.names == names by {
                            if j < written.len() {
                                assert(writes@[j] == written[j]);
                            }
                        }
                    }
                },
                None => {},
            }
            proof {
                assert forall|p: int| 0 <= p < i + 1 implies (#[trigger] self.buffered()[p]).len() == 0 by {
                    if p != i {
                        assert(staged_now[p].len() == 0);
                    }
                }
                assert forall|p: int| 0 <= p < i + 1 implies #[trigger] self.builders()[p] == 0 by {
                    if p != i {
                        assert(builders_now[p] == 0);
                    }
                }
                assert forall|p: int| i + 1 <= p < num_output_partitions implies #[trigger] self.buffered()[p]
                    == staged[p] by {
                    assert(staged_now[p] == staged[p]);
                }
            }
            i += 1;
        }
        proof {
            lemma_staged_count_empty(self.buffered(), self.buffered().len() as int);
            assert(0 == 8 * self.names().len() * 0) by (nonlinear_arith);
        }
        writes
    }

    /// Finalizes the shuffle: flushes every buffer in partition order.
    ///
    /// One write is returned for every partition that has rows staged,
    /// carrying exactly those rows; afterwards no partition holds rows or
    /// builders, and no memory is accounted.
    pub fn shuffle_write(&mut self) -> (writes: Vec<SinkWrite>)
        requires
            old(self).wf(),
        ensures
            final(self).wf(),
            final(self).scheme() == old(self).scheme(),
            final(self).names() == old(self).names(),
            final(self).threshold() == old(self).threshold(),
            final(self).cutover() == old(self).cutover(),
            final(self).consumer_id() == old(self).consumer_id(),
            final(self).memory() == 0,
            final(self).buffered().len() == old(self).buffered().len(),
            forall|p: int| 0 <= p < old(self).buffered().len() ==> (#[trigger] final(self).buffered()[p]).len() == 0,
            forall|p: int| 0 <= p < old(self).buffered().len() ==> #[trigger] final(self).builders()[p] == 0,
            write_views(writes@) == flushed(old(self).buffered(), old(self).scheme().count() as int),
            writes_conform(writes@, old(self).names()),
    {
        self.flush_partitions()
    }

    /// Answers a spill request: flushes every buffer as
    /// [`Self::shuffle_write`] does, and reports the bytes that were
    /// accounted before and are released now.
    pub fn spill(&mut self) -> (spilled: Spilled)
        requires
            old(self).wf(),
        ensures
            final(self).wf(),
            final(self).scheme() == old(self).scheme(),
            final(self).names() == old(self).names(),
            final(self).threshold() == old(self).threshold(),
            final(self).cutover() == old(self).cutover(),
            final(self).consumer_id() == old(self).consumer_id(),
            final(self).memory() == 0,
            spilled.freed == old(self).memory(),
            final(self).buffered().len() == old(self).buffered().len(),
            forall|p: int| 0 <= p < old(self).buffered().len() ==> (#[trigger] final(self).buffered()[p]).len() == 0,
            forall|p: int| 0 <= p < old(self).buffered().len() ==> #[trigger] final(self).builders()[p] == 0,
            write_views(spilled.writes@) == flushed(old(self).buffered(), old(self).scheme().count() as int),
            writes_conform(spilled.writes@, old(self).names()),
    {
        let freed = self.mem_used;
        let writes = self.flush_partitions();
        Spilled { freed, writes }
    }
}

/// The outcome of a spill: the bytes released from the accounted memory
/// usage and the writes that carry the spilled rows.
pub struct Spilled {
    pub freed: usize,
    pub writes: Vec<SinkWrite>,
}

} // verus!
