//! Per-partition staging buffers.
//!
//! A buffer collects the rows destined for one output partition in column
//! builders that are allocated on first use. Whenever the number of staged
//! rows reaches the flush threshold the staged rows leave as one batch to be
//! written to the shuffle sink, so a buffer at rest always holds fewer rows
//! than its threshold.

use crate::batch::as_positions;
use crate::batch::select_rows;
use crate::batch::taken_values;
use crate::batch::BatchView;
use crate::batch::Cell;
use crate::batch::ColumnarBatch;
use crate::batch::Row;
use crate::batch::Schema;
use crate::batch::columns_view;
use arrow::array::Int64Builder;
use vstd::arithmetic::div_mod::lemma_fundamental_div_mod_converse;
use vstd::arithmetic::power2::lemma_pow2_unfold;
use vstd::arithmetic::power2::pow2;
use vstd::prelude::*;

verus! {

/// The integer part of the base-2 logarithm of `n`; zero below 2.
pub open spec fn floor_log2(n: nat) -> nat
    decreases n,
{
    if n < 2 {
        0
    } else {
        1 + floor_log2(n / 2)
    }
}

/// The flush threshold derived from the nominal batch size: the batch size
/// divided by the integer base-2 logarithm of the batch size plus one.
pub open spec fn rss_threshold(batch_size: usize) -> int {
    batch_size as int / floor_log2((batch_size + 1) as nat) as int
}

/// `floor_log2(n)` is the exponent of the largest power of two not above `n`.
pub proof fn lemma_floor_log2_bounds(n: nat)
    requires
        n >= 1,
    ensures
        pow2(floor_log2(n)) <= n < 2 * pow2(floor_log2(n)),
    decreases n,
{
    if n < 2 {
        assert(pow2(0) == 1) by {
            vstd::arithmetic::power2::lemma2_to64();
        }
    } else {
        lemma_floor_log2_bounds(n / 2);
        lemma_pow2_unfold(floor_log2(n));
    }
}

/// The logarithm stays below its argument.
pub proof fn lemma_floor_log2_small(n: nat)
    requires
        n >= 1,
    ensures
        floor_log2(n) < n,
    decreases n,
{
    if n >= 2 {
        lemma_floor_log2_small(n / 2);
    }
}

/// For a positive batch size the threshold is at least one row and at most
/// the batch size.
pub proof fn lemma_rss_threshold_bounds(batch_size: usize)
    requires
        batch_size >= 1,
    ensures
        1 <= floor_log2((batch_size + 1) as nat) <= batch_size,
        1 <= rss_threshold(batch_size) <= batch_size,
{
    let log = floor_log2((batch_size + 1) as nat) as int;
    lemma_floor_log2_small((batch_size + 1) as nat);
    assert(1 <= batch_size as int / log <= batch_size) by (nonlinear_arith)
        requires
            1 <= log <= batch_size,
    ;
}

/// From a batch size of three on, the threshold lies strictly below the
/// batch size.
pub proof fn lemma_rss_threshold_below_batch_size(batch_size: usize)
    requires
        batch_size >= 3,
    ensures
        rss_threshold(batch_size) < batch_size,
{
    let log = floor_log2((batch_size + 1) as nat) as int;
    assert(log >= 2) by {
        reveal_with_fuel(floor_log2, 3);
    }
    assert(batch_size as int / log < batch_size) by (nonlinear_arith)
        requires
            log >= 2,
            batch_size >= 3,
    ;
}

/// Computes the flush threshold for a nominal batch size.
pub fn compute_rss_batch_size(batch_size: usize) -> (threshold: usize)
    requires
        batch_size >= 1,
    ensures
        threshold == rss_threshold(batch_size),
        1 <= threshold <= batch_size,
{
    let ghost total = (batch_size + 1) as nat;
    let mut rest: u128 = batch_size as u128 + 1;
    let mut log: usize = 0;
    proof {
        lemma_rss_threshold_bounds(batch_size);
    }
    while rest >= 2
        invariant
            log + floor_log2(rest as nat) == floor_log2(total),
            floor_log2(total) <= batch_size,
        decreases rest,
    {
        rest = rest / 2;
        log += 1;
    }
    batch_size / log
}

/// The `j`-th run of `threshold` rows of `rows`.
pub open spec fn chunk(rows: Seq<Row>, threshold: int, j: int) -> Seq<Row> {
    rows.subrange(j * threshold, j * threshold + threshold)
}

/// What is left of `rows` after all full runs of `threshold` rows.
pub open spec fn residue(rows: Seq<Row>, threshold: int) -> Seq<Row> {
    rows.subrange((rows.len() as int / threshold) * threshold, rows.len() as int)
}

/// One batch to hand to the shuffle sink for one partition.
///
/// Writes are to be performed in the order in which they are returned; a
/// failed write is fatal and the writes after it are abandoned.
pub struct SinkWrite {
    pub partition_id: usize,
    pub batch: ColumnarBatch,
}

impl SinkWrite {
    /// The write goes to `partition_id` and carries exactly `rows` under the
    /// column names `names`.
    pub open spec fn carries(&self, partition_id: usize, names: Seq<Seq<char>>, rows: Seq<Row>) -> bool {
        &&& self.partition_id == partition_id
        &&& self.batch.wf()
        &&& self.batch@.names == names
        &&& self.batch@.rows() == rows
    }
}

/// The rows held by a set of equal-length columns.
pub open spec fn staged_rows(columns: Seq<Seq<Cell>>) -> Seq<Row> {
    BatchView { names: Seq::empty(), columns }.rows()
}

/// The accumulator of one output column: an Arrow `Int64Builder`.
///
/// Trusted: the builder is opaque to the verifier. What it holds is named
/// by [`builder_values`], and the three functions below are the only ones
/// that create or touch one.
#[verifier::external_body]
pub struct ColumnBuilder {
    inner: Int64Builder,
}

/// The cells appended to a builder since it was created or last finished,
/// in the order in which they were appended.
pub uninterp spec fn builder_values(builder: ColumnBuilder) -> Seq<Cell>;

/// The values held by each of `builders`.
pub open spec fn builders_view(builders: Seq<ColumnBuilder>) -> Seq<Seq<Cell>> {
    builders.map_values(|builder: ColumnBuilder| builder_values(builder))
}

/// Creates an empty builder with room for `capacity` values
/// (`Int64Builder::with_capacity`).
///
/// Trusted: a new builder holds no values.
#[verifier::external_body]
fn new_array_builder(capacity: usize) -> (builder: ColumnBuilder)
    ensures
        builder_values(builder) == Seq::<Cell>::empty(),
{
    ColumnBuilder { inner: Int64Builder::with_capacity(capacity) }
}

/// Appends one cell to a builder (`Int64Builder::append_option`).
///
/// Trusted: the cell, value or null, is added behind the cells already
/// held.
#[verifier::external_body]
fn builder_append(builder: &mut ColumnBuilder, value: Cell)
    ensures
        builder_values(*final(builder)) == builder_values(*old(builder)).push(value),
{
    builder.inner.append_option(value)
}

/// Takes the cells out of a builder (`Int64Builder::finish`).
///
/// Trusted: the array built holds the cells of the builder in order, null
/// where a null was appended, and the builder is empty afterwards.
#[verifier::external_body]
fn builder_finish(builder: &mut ColumnBuilder) -> (values: Vec<Cell>)
    ensures
        values@ == builder_values(*old(builder)),
        builder_values(*final(builder)) == Seq::<Cell>::empty(),
{
    builder.inner.finish().iter().collect()
}

/// Appending to every builder the cells of the selected rows appends the
/// selected rows to the staged rows.
proof fn lemma_extend_rows(before: Seq<Seq<Cell>>, after: Seq<Seq<Cell>>, batch: BatchView, indices: Seq<usize>)
    requires
        batch.wf(),
        before.len() == batch.num_columns(),
        after.len() == before.len(),
        before.len() > 0,
        forall|c: int| 0 <= c < before.len() ==> (#[trigger] before[c]).len() == before[0].len(),
        forall|k: int| 0 <= k < indices.len() ==> indices[k] < batch.num_rows(),
        forall|c: int|
            0 <= c < before.len() ==> #[trigger] after[c] == before[c] + taken_values(batch.columns[c], indices),
    ensures
        forall|c: int| 0 <= c < after.len() ==> (#[trigger] after[c]).len() == before[0].len() + indices.len(),
        staged_rows(after) == staged_rows(before) + select_rows(batch.rows(), as_positions(indices)),
{
    let expected = staged_rows(before) + select_rows(batch.rows(), as_positions(indices));
    let got = staged_rows(after);
    assert(after[0] == before[0] + taken_values(batch.columns[0], indices));
    assert(got.len() == expected.len());
    assert forall|r: int| 0 <= r < got.len() implies got[r] == expected[r] by {
        assert forall|c: int| 0 <= c < after.len() implies got[r][c] == expected[r][c] by {
            assert(after[c] == before[c] + taken_values(batch.columns[c], indices));
            assert(before[c].len() == before[0].len());
        }
        assert(got[r] =~= expected[r]);
    }
    assert(got =~= expected);
}

/// One empty builder per column.
fn new_array_builders(num_columns: usize, capacity: usize) -> (builders: Vec<ColumnBuilder>)
    ensures
        builders@.len() == num_columns,
        forall|c: int| 0 <= c < num_columns ==> builder_values(#[trigger] builders@[c]).len() == 0,
{
    let mut builders: Vec<ColumnBuilder> = Vec::with_capacity(num_columns);
    let mut c: usize = 0;
    while c < num_columns
        invariant
            c <= num_columns,
            builders@.len() == c,
            forall|k: int| 0 <= k < c ==> builder_values(#[trigger] builders@[k]).len() == 0,
        decreases num_columns - c,
    {
        builders.push(new_array_builder(capacity));
        c += 1;
    }
    builders
}

/// Appends to `builder` the cells of `column` at the positions `indices`.
fn builder_extend(builder: &mut ColumnBuilder, column: &Vec<Cell>, indices: &[usize])
    requires
        forall|k: int| 0 <= k < indices@.len() ==> indices@[k] < column@.len(),
    ensures
        builder_values(*final(builder)) == builder_values(*old(builder)) + taken_values(column@, indices@),
{
    let ghost start = builder_values(*builder);
    let mut k: usize = 0;
    while k < indices.len()
        invariant
            k <= indices@.len(),
            forall|j: int| 0 <= j < indices@.len() ==> indices@[j] < column@.len(),
            builder_values(*builder) == start + taken_values(column@, indices@.take(k as int)),
        decreases indices@.len() - k,
    {
        builder_append(builder, column[indices[k]]);
        k += 1;
        assert(builder_values(*builder) =~= start + taken_values(column@, indices@.take(k as int)));
    }
    assert(indices@.take(indices@.len() as int) =~= indices@);
}

/// Appends the selected rows of `batch` to the builders, column by column.
fn extend_builders(active: &mut Vec<ColumnBuilder>, batch: &ColumnarBatch, indices: &[usize])
    requires
        batch.wf(),
        old(active)@.len() == batch@.num_columns(),
        forall|k: int| 0 <= k < indices@.len() ==> indices@[k] < batch@.num_rows(),
    ensures
        final(active)@.len() == old(active)@.len(),
        forall|c: int|
            0 <= c < old(active)@.len() ==> builder_values(#[trigger] final(active)@[c]) == builder_values(
                old(active)@[c],
            ) + taken_values(
                batch@.columns[c],
                indices@,
            ),
{
    let ghost before = active@;
    let mut c: usize = 0;
    while c < active.len()
        invariant
            batch.wf(),
            before.len() == batch@.num_columns(),
            active@.len() == before.len(),
            c <= active@.len(),
            forall|k: int| 0 <= k < indices@.len() ==> indices@[k] < batch@.num_rows(),
            forall|j: int|
                0 <= j < c ==> builder_values(#[trigger] active@[j]) == builder_values(before[j]) + taken_values(
                    batch@.columns[j],
                    indices@,
                ),
            forall|j: int| c <= j < active@.len() ==> #[trigger] active@[j] == before[j],
        decreases active@.len() - c,
    {
        let column = batch.column(c);
        builder_extend(&mut active[c], column, indices);
        c += 1;
    }
}

/// The staging buffer of one output partition.
pub struct PartitionBuffer {
    schema: Schema,
    active: Vec<ColumnBuilder>,
    num_active_rows: usize,
    rss_batch_size: usize,
}

impl PartitionBuffer {
    /// The rows staged in the buffer, oldest first.
    pub closed spec fn rows(&self) -> Seq<Row> {
        staged_rows(builders_view(self.active@))
    }

    /// The number of rows at which the buffer flushes.
    pub closed spec fn threshold(&self) -> usize {
        self.rss_batch_size
    }

    /// The column names of the batches that the buffer flushes.
    pub closed spec fn names(&self) -> Seq<Seq<char>> {
        self.schema@
    }

    /// The number of column builders currently allocated.
    pub closed spec fn builders(&self) -> nat {
        self.active@.len()
    }

    /// The buffer is at rest: it holds fewer rows than its threshold, has no
    /// builders while it is empty, and otherwise one builder per column,
    /// each holding one cell per staged row.
    pub closed spec fn wf(&self) -> bool {
        &&& self.rss_batch_size >= 1
        &&& self.num_active_rows < self.rss_batch_size
        &&& self.num_active_rows == 0 ==> self.active@.len() == 0
        &&& self.num_active_rows > 0 ==> self.active@.len() == self.schema@.len() && self.active@.len() > 0
        &&& forall|c: int|
            0 <= c < self.active@.len() ==> builder_values(#[trigger] self.active@[c]).len() == self.num_active_rows
    }

    /// A well-formed buffer holds fewer rows than its threshold, and holds
    /// builders exactly while it holds rows.
    pub proof fn lemma_wf_facts(&self)
        requires
            self.wf(),
        ensures
            self.threshold() >= 1,
            self.rows().len() < self.threshold(),
            self.rows().len() == 0 <==> self.builders() == 0,
            self.rows().len() > 0 ==> self.builders() == self.names().len(),
    {
        if self.active@.len() > 0 {
            assert(builders_view(self.active@)[0] == builder_values(self.active@[0]));
        }
    }

    /// An empty buffer for batches of the given schema whose flush threshold
    /// is derived from the nominal batch size.
    pub fn new(schema: Schema, batch_size: usize) -> (buffer: PartitionBuffer)
        requires
            batch_size >= 1,
        ensures
            buffer.wf(),
            buffer.rows().len() == 0,
            buffer.builders() == 0,
            buffer.threshold() == rss_threshold(batch_size),
            buffer.names() == schema@,
    {
        // flush earlier than the engine's batch size to keep the sink fed
        let rss_batch_size = compute_rss_batch_size(batch_size);
        PartitionBuffer { schema, active: Vec::new(), num_active_rows: 0, rss_batch_size }
    }

    /// Number of rows staged.
    pub fn num_rows(&self) -> (n: usize)
        requires
            self.wf(),
        ensures
            n == self.rows().len(),
    {
        proof {
            if self.active@.len() > 0 {
                assert(builders_view(self.active@)[0] == builder_values(self.active@[0]));
            }
        }
        self.num_active_rows
    }

    /// Number of column builders allocated.
    pub fn num_builders(&self) -> (n: usize)
        ensures
            n == self.builders(),
    {
        self.active.len()
    }

    /// The number of rows at which the buffer flushes.
    pub fn rss_batch_size(&self) -> (n: usize)
        ensures
            n == self.threshold(),
    {
        self.rss_batch_size
    }

    /// The schema of the batches that the buffer flushes.
    pub fn schema(&self) -> (schema: &Schema)
        ensures
            schema@ == self.names(),
    {
        &self.schema
    }
    /// Stages the rows of `batch` at the positions `indices`, in that order.
    ///
    /// Builders are allocated on first use. Each time the staged rows reach
    /// the threshold they leave as one write, so the call returns one write
    /// per full run of `threshold` rows among the rows staged before
    /// followed by the new ones, and keeps what is left over.
    pub fn append_rows(&mut self, batch: &ColumnarBatch, indices: &[usize], partition_id: usize) -> (writes: Vec<
        SinkWrite,
    >)
        requires
            old(self).wf(),
            batch.wf(),
            batch@.num_columns() == old(self).names().len(),
            forall|k: int| 0 <= k < indices@.len() ==> indices@[k] < batch@.num_rows(),
        ensures
            final(self).wf(),
            final(self).threshold() == old(self).threshold(),
            final(self).names() == old(self).names(),
            final(self).rows().len() < final(self).threshold(),
            ({
                let total = old(self).rows() + select_rows(batch@.rows(), as_positions(indices@));
                let threshold = old(self).threshold() as int;
                &&& writes@.len() == total.len() / (threshold as nat)
                &&& forall|j: int|
                    0 <= j < writes@.len() ==> (#[trigger] writes@[j]).carries(
                        partition_id,
                        old(self).names(),
                        chunk(total, threshold, j),
                    )
                &&& final(self).rows() == residue(total, threshold)
            }),
    {
        let ghost total = self.rows() + select_rows(batch@.rows(), as_positions(indices@));
        let ghost threshold = self.rss_batch_size as int;
        let ghost staged_before = self.rows().len() as int;
        let ghost names = self.names();
        let ghost mut flushed: int = 0;
        let mut writes: Vec<SinkWrite> = Vec::new();
        let mut start: usize = 0;
        proof {
            self.lemma_wf_facts();
            assert(self.rows() =~= total.subrange(0, staged_before));
            assert(0 == 0 * threshold) by (nonlinear_arith);
        }
        while start < indices.len()
            invariant
                self.wf(),
                batch.wf(),
                batch@.num_columns() == self.names().len(),
                forall|k: int| 0 <= k < indices@.len() ==> indices@[k] < batch@.num_rows(),
                self.rss_batch_size == threshold,
                self.names() == names,
                total.len() == staged_before + indices@.len(),
                forall|k: int|
                    0 <= k < indices@.len() ==> #[trigger] total[staged_before + k] == batch@.rows()[indices@[k] as int],
                start <= indices@.len(),
                flushed == writes@.len() * threshold,
                0 <= flushed <= staged_before + start,
                self.rows() == total.subrange(flushed, staged_before + start),
                forall|j: int|
                    0 <= j < writes@.len() ==> (#[trigger] writes@[j]).carries(
                        partition_id,
                        names,
                        chunk(total, threshold, j),
                    ),
            decreases indices@.len() - start,
        {
            proof {
                self.lemma_wf_facts();
                assert(indices@[start as int] < batch@.num_rows());
            }
            // builders exist only while rows are staged
            if self.active.is_empty() {
                self.active = new_array_builders(self.schema.len(), self.rss_batch_size);
            }
            let extend_len = min_usize(
                indices.len() - start,
                self.rss_batch_size.saturating_sub(self.num_active_rows),
            );
            let ghost columns_before = builders_view(self.active@);
            let ghost rows_before = staged_rows(columns_before);
            let selected = &indices[start..start + extend_len];
            proof {
                if self.num_active_rows == 0 {
                    assert(rows_before =~= Seq::<Row>::empty());
                } else {
                    assert(columns_before[0] == builder_values(self.active@[0]));
                }
                assert(rows_before == total.subrange(flushed, staged_before + start));
                assert forall|c: int| 0 <= c < columns_before.len() implies (#[trigger] columns_before[c]).len()
                    == columns_before[0].len() by {
                    assert(columns_before[c] == builder_values(self.active@[c]));
                    assert(columns_before[0] == builder_values(self.active@[0]));
                }
            }
            extend_builders(&mut self.active, batch, selected);
            self.num_active_rows += extend_len;
            proof {
                let columns_after = builders_view(self.active@);
                assert forall|c: int| 0 <= c < columns_before.len() implies #[trigger] columns_after[c]
                    == columns_before[c] + taken_values(batch@.columns[c], selected@) by {
                    assert(columns_after[c] == builder_values(self.active@[c]));
                }
                lemma_extend_rows(columns_before, columns_after, batch@, selected@);
                assert forall|c: int| 0 <= c < self.active@.len() implies builder_values(
                    #[trigger] self.active@[c],
                ).len() == self.num_active_rows by {
                    assert(columns_after[c] == builder_values(self.active@[c]));
                }
                assert(staged_rows(columns_after) =~= total.subrange(flushed, staged_before + start + extend_len)) by {
                    let appended = select_rows(batch@.rows(), as_positions(selected@));
                    assert forall|k: int| 0 <= k < appended.len() implies appended[k] == total[staged_before
                        + start + k] by {
                        assert(selected@[k] == indices@[start + k]);
                        assert(total[staged_before + (start + k)] == batch@.rows()[indices@[start + k] as int]);
                    }
                }
            }
            if self.num_active_rows >= self.rss_batch_size {
                let ghost staged = self.rows();
                proof {
                    assert(flushed + threshold == (writes@.len() + 1) * threshold) by (nonlinear_arith)
                        requires
                            flushed == writes@.len() * threshold,
                    ;
                    assert(staged =~= chunk(total, threshold, writes@.len() as int));
                }
                let write = self.flush_rows(partition_id);
                writes.push(write);
                proof {
                    flushed = flushed + threshold;
                    assert(self.rows() =~= total.subrange(flushed, staged_before + start + extend_len));
                }
            }
            start += extend_len;
        }
        proof {
            self.lemma_wf_facts();
            assert(total.len() == writes@.len() * threshold + self.rows().len());
            lemma_fundamental_div_mod_converse(
                total.len() as int,
                threshold,
                writes@.len() as int,
                self.rows().len() as int,
            );
        }
        writes
    }

    /// Hands a whole batch to the sink for `partition_id`, past the staged
    /// rows.
    ///
    /// Rows staged earlier stay staged and leave later, so the rows of one
    /// partition need not reach the sink in the order in which they came;
    /// the sink receives every row exactly once all the same.
    pub fn append_batch(&mut self, batch: ColumnarBatch, partition_id: usize) -> (write: SinkWrite)
        ensures
            *final(self) == *old(self),
            write.partition_id == partition_id,
            write.batch == batch,
    {
        write_batch_to_rss(partition_id, batch)
    }

    /// Takes the staged rows out of a buffer that holds some.
    fn flush_rows(&mut self, partition_id: usize) -> (write: SinkWrite)
        requires
            old(self).rss_batch_size >= 1,
            old(self).num_active_rows > 0,
            old(self).active@.len() == old(self).schema@.len(),
            old(self).active@.len() > 0,
            forall|c: int|
                0 <= c < old(self).active@.len() ==> builder_values(#[trigger] old(self).active@[c]).len() == old(
                    self,
                ).num_active_rows,
        ensures
            final(self).wf(),
            final(self).rows().len() == 0,
            final(self).builders() == 0,
            final(self).threshold() == old(self).threshold(),
            final(self).names() == old(self).names(),
            write.carries(partition_id, old(self).names(), old(self).rows()),
    {
        let mut active: Vec<ColumnBuilder> = Vec::new();
        std::mem::swap(&mut self.active, &mut active);
        self.num_active_rows = 0;
        let ghost held = builders_view(active@);
        let mut columns: Vec<Vec<Cell>> = Vec::with_capacity(active.len());
        let mut c: usize = 0;
        while c < active.len()
            invariant
                c <= active@.len(),
                held.len() == active@.len(),
                columns@.len() == c,
                forall|j: int| 0 <= j < c ==> (#[trigger] columns@[j])@ == held[j],
                forall|j: int| c <= j < active@.len() ==> builder_values(#[trigger] active@[j]) == held[j],
            decreases active@.len() - c,
        {
            let values = builder_finish(&mut active[c]);
            columns.push(values);
            c += 1;
        }
        assert(columns_view(columns@) =~= held);
        let batch = ColumnarBatch::from_columns(self.schema.clone(), columns);
        assert(batch@.rows() =~= staged_rows(held));
        write_batch_to_rss(partition_id, batch)
    }

    /// Flushes the staged rows: nothing is written for an empty buffer,
    /// otherwise the staged rows leave as one write and the buffer is empty
    /// again, builders released.
    pub fn flush_to_rss(&mut self, partition_id: usize) -> (write: Option<SinkWrite>)
        requires
            old(self).wf(),
        ensures
            final(self).wf(),
            final(self).rows().len() == 0,
            final(self).builders() == 0,
            final(self).threshold() == old(self).threshold(),
            final(self).names() == old(self).names(),
            old(self).rows().len() == 0 <==> write is None,
            write matches Some(w) ==> w.carries(partition_id, old(self).names(), old(self).rows()),
    {
        proof {
            self.lemma_wf_facts();
        }
        if self.num_active_rows == 0 {
            return None;
        }
        proof {
            assert(builders_view(self.active@)[0] == builder_values(self.active@[0]));
        }
        Some(self.flush_rows(partition_id))
    }
}

/// The smaller of two counts.
fn min_usize(a: usize, b: usize) -> (m: usize)
    ensures
        m == if a <= b {
            a
        } else {
            b
        },
{
    if a <= b {
        a
    } else {
        b
    }
}

/// Pairs a batch with the partition whose sink stream it belongs to.
pub fn write_batch_to_rss(partition_id: usize, batch: ColumnarBatch) -> (write: SinkWrite)
    ensures
        write.partition_id == partition_id,
        write.batch == batch,
{
    SinkWrite { partition_id, batch }
}

} // verus!
