//! Conservation of rows: what goes into the repartitioner comes out of it,
//! every row exactly once.
//!
//! The statements are about the writes that the operations of the
//! repartitioner decide on, as multisets of rows: the order in which the
//! rows of one partition reach the sink is not part of the contract.

use crate::batch::Row;
use crate::buffer::chunk;
use crate::buffer::residue;
use crate::grouping::lemma_partition_rows_sound;
use crate::repartitioner::dispatched;
use crate::repartitioner::flushed;
use crate::repartitioner::rows_of_partition;
use crate::repartitioner::run_batches;
use crate::repartitioner::run_residue;
use crate::repartitioner::staged_count;
use crate::repartitioner::tagged;
use crate::repartitioner::WriteView;
use vstd::arithmetic::div_mod::lemma_fundamental_div_mod;
use vstd::multiset::Multiset;
use vstd::prelude::*;
use vstd::seq_lib::lemma_multiset_commutative;
use vstd::seq_lib::to_multiset_build;

verus! {

/// The rows carried by a sequence of writes, each as often as it is written.
pub open spec fn written_rows(writes: Seq<WriteView>) -> Multiset<Row>
    decreases writes.len(),
{
    if writes.len() == 0 {
        Multiset::empty()
    } else {
        written_rows(writes.drop_last()).add(writes.last().1.to_multiset())
    }
}

/// The rows staged for the partitions below `upto`, each as often as it is
/// staged.
pub open spec fn staged_total(staged: Seq<Seq<Row>>, upto: int) -> Multiset<Row>
    decreases upto,
{
    if upto <= 0 {
        Multiset::empty()
    } else {
        staged_total(staged, upto - 1).add(staged[upto - 1].to_multiset())
    }
}

/// The rows of a batch that are assigned to the partitions below `upto`,
/// each as often as it occurs.
pub open spec fn assigned_total(rows: Seq<Row>, ids: Seq<usize>, upto: int) -> Multiset<Row>
    decreases upto,
{
    if upto <= 0 {
        Multiset::empty()
    } else {
        assigned_total(rows, ids, upto - 1).add(rows_of_partition(rows, ids, upto - 1).to_multiset())
    }
}

/// The rows written by two sequences of writes, one after the other, are
/// the rows written by the first together with those written by the second.
pub proof fn lemma_written_rows_concat(first: Seq<WriteView>, second: Seq<WriteView>)
    ensures
        written_rows(first + second) =~= written_rows(first).add(written_rows(second)),
    decreases second.len(),
{
    if second.len() == 0 {
        assert(first + second =~= first);
    } else {
        assert((first + second).drop_last() =~= first + second.drop_last());
        lemma_written_rows_concat(first, second.drop_last());
    }
}

/// The first `count` full runs of `threshold` rows carry the first
/// `count * threshold` rows.
proof fn lemma_chunks_carry_prefix(partition: usize, total: Seq<Row>, threshold: int, count: nat)
    requires
        threshold >= 1,
        count * threshold <= total.len(),
    ensures
        written_rows(tagged(partition, Seq::new(count, |j: int| chunk(total, threshold, j)))) =~= total.subrange(
            0,
            count * threshold,
        ).to_multiset(),
    decreases count,
{
    let writes = tagged(partition, Seq::new(count, |j: int| chunk(total, threshold, j)));
    if count == 0 {
        assert(0 * threshold == 0) by (nonlinear_arith);
        assert(total.subrange(0, 0) =~= Seq::<Row>::empty());
        assert(total.subrange(0, 0).to_multiset() =~= Multiset::<Row>::empty()) by {
            total.subrange(0, 0).to_multiset_ensures();
        }
    } else {
        let fewer = (count - 1) as nat;
        assert(fewer * threshold + threshold == count * threshold && fewer * threshold >= 0) by (nonlinear_arith)
            requires
                fewer == count - 1,
                count >= 1,
                threshold >= 1,
        ;
        lemma_chunks_carry_prefix(partition, total, threshold, fewer);
        assert(writes.drop_last() =~= tagged(partition, Seq::new(fewer, |j: int| chunk(total, threshold, j))));
        assert(writes.last().1 == chunk(total, threshold, fewer as int));
        assert(total.subrange(0, count * threshold) =~= total.subrange(0, fewer * threshold) + chunk(
            total,
            threshold,
            fewer as int,
        ));
        lemma_multiset_commutative(total.subrange(0, fewer * threshold), chunk(total, threshold, fewer as int));
    }
}

/// Staging a run at one partition loses and adds nothing: the rows that
/// leave together with the rows that stay are the rows staged before
/// together with the rows of the run.
pub proof fn lemma_run_conserves_rows(
    partition: usize,
    staged: Seq<Row>,
    run: Seq<Row>,
    threshold: int,
    cutover: int,
)
    requires
        threshold >= 1,
    ensures
        written_rows(tagged(partition, run_batches(staged, run, threshold, cutover))).add(
            run_residue(staged, run, threshold, cutover).to_multiset(),
        ) =~= staged.to_multiset().add(run.to_multiset()),
{
    let batches = run_batches(staged, run, threshold, cutover);
    let writes = tagged(partition, batches);
    let kept = run_residue(staged, run, threshold, cutover);
    if run.len() == 0 {
        assert(writes =~= Seq::<WriteView>::empty());
        assert(written_rows(writes) =~= Multiset::<Row>::empty());
        assert(run.to_multiset() =~= Multiset::<Row>::empty()) by {
            run.to_multiset_ensures();
        }
    } else if run.len() < cutover {
        let total = staged + run;
        let count = (total.len() as int / threshold) as nat;
        lemma_fundamental_div_mod(total.len() as int, threshold);
        assert(count * threshold == threshold * (total.len() as int / threshold)) by (nonlinear_arith)
            requires
                count == total.len() as int / threshold,
        ;
        assert(0 <= total.len() as int % threshold);
        lemma_chunks_carry_prefix(partition, total, threshold, count);
        let head = total.subrange(0, count * threshold);
        assert(batches =~= Seq::new(count, |j: int| chunk(total, threshold, j)));
        assert(written_rows(writes) =~= head.to_multiset());
        assert(kept == residue(total, threshold));
        assert(total =~= head + kept);
        lemma_multiset_commutative(head, kept);
        lemma_multiset_commutative(staged, run);
        assert(head.to_multiset().add(kept.to_multiset()) =~= total.to_multiset());
        assert(total.to_multiset() =~= staged.to_multiset().add(run.to_multiset()));
    } else {
        assert(writes.drop_last() =~= Seq::<WriteView>::empty());
        assert(written_rows(writes.drop_last()) =~= Multiset::<Row>::empty());
        assert(writes.last().1 == run);
        assert(written_rows(writes) =~= run.to_multiset());
    }
}

/// Dropping the last row of a batch drops it from the run of its partition
/// and from no other.
proof fn lemma_rows_of_partition_step(rows: Seq<Row>, ids: Seq<usize>, partition: int)
    requires
        rows.len() == ids.len(),
        rows.len() > 0,
    ensures
        rows_of_partition(rows, ids, partition) =~= if ids.last() == partition {
            rows_of_partition(rows.drop_last(), ids.drop_last(), partition).push(rows.last())
        } else {
            rows_of_partition(rows.drop_last(), ids.drop_last(), partition)
        },
{
    lemma_partition_rows_sound(ids.drop_last(), partition);
}

/// Dropping the last row of a batch drops one occurrence of it from the
/// rows assigned to the partitions below `upto` when its partition is among
/// them, and changes nothing otherwise.
proof fn lemma_assigned_total_step(rows: Seq<Row>, ids: Seq<usize>, upto: int)
    requires
        rows.len() == ids.len(),
        rows.len() > 0,
    ensures
        assigned_total(rows, ids, upto) =~= if ids.last() < upto {
            assigned_total(rows.drop_last(), ids.drop_last(), upto).insert(rows.last())
        } else {
            assigned_total(rows.drop_last(), ids.drop_last(), upto)
        },
    decreases upto,
{
    if upto > 0 {
        lemma_assigned_total_step(rows, ids, upto - 1);
        lemma_rows_of_partition_step(rows, ids, upto - 1);
        if ids.last() == upto - 1 {
            to_multiset_build(rows_of_partition(rows.drop_last(), ids.drop_last(), upto - 1), rows.last());
        }
    }
}

/// Without rows nothing is assigned to any partition.
proof fn lemma_assigned_total_empty(rows: Seq<Row>, ids: Seq<usize>, upto: int)
    requires
        rows.len() == 0,
        ids.len() == 0,
    ensures
        assigned_total(rows, ids, upto) =~= Multiset::<Row>::empty(),
    decreases upto,
{
    if upto > 0 {
        lemma_assigned_total_empty(rows, ids, upto - 1);
        let run = rows_of_partition(rows, ids, upto - 1);
        assert(run =~= Seq::<Row>::empty());
        run.to_multiset_ensures();
        assert(run.to_multiset() =~= Multiset::<Row>::empty());
    }
}

/// Partitioning loses and duplicates nothing: the rows assigned to the
/// partitions `0..num_partitions` are, all together, exactly the rows of
/// the batch.
pub proof fn lemma_partitions_cover_batch(rows: Seq<Row>, ids: Seq<usize>, num_partitions: int)
    requires
        rows.len() == ids.len(),
        forall|i: int| 0 <= i < ids.len() ==> ids[i] < num_partitions,
    ensures
        assigned_total(rows, ids, num_partitions) =~= rows.to_multiset(),
    decreases rows.len(),
{
    if rows.len() == 0 {
        lemma_assigned_total_empty(rows, ids, num_partitions);
        rows.to_multiset_ensures();
        assert(rows.to_multiset() =~= Multiset::<Row>::empty());
    } else {
        lemma_partitions_cover_batch(rows.drop_last(), ids.drop_last(), num_partitions);
        lemma_assigned_total_step(rows, ids, num_partitions);
        assert(rows =~= rows.drop_last().push(rows.last()));
        to_multiset_build(rows.drop_last(), rows.last());
    }
}

/// Inserting a batch conserves rows, partition by partition below `upto`:
/// the rows written together with the rows staged afterwards are the rows
/// staged before together with the rows assigned to those partitions.
pub proof fn lemma_dispatch_conserves_rows(
    staged: Seq<Seq<Row>>,
    rows: Seq<Row>,
    ids: Seq<usize>,
    threshold: int,
    cutover: int,
    after: Seq<Seq<Row>>,
    upto: int,
)
    requires
        threshold >= 1,
        0 <= upto <= staged.len(),
        after.len() == staged.len(),
        forall|p: int|
            0 <= p < staged.len() ==> #[trigger] after[p] == run_residue(
                staged[p],
                rows_of_partition(rows, ids, p),
                threshold,
                cutover,
),
    ensures
        written_rows(dispatched(staged, rows, ids, threshold, cutover, upto)).add(staged_total(after, upto)) =~= staged_total(
            staged,
            upto,
        ).add(assigned_total(rows, ids, upto)),
    decreases upto,
{
    if upto > 0 {
        let p = upto - 1;
        let earlier = dispatched(staged, rows, ids, threshold, cutover, p);
        let here = tagged(p as usize, run_batches(staged[p], rows_of_partition(rows, ids, p), threshold, cutover));
        let run = rows_of_partition(rows, ids, p);
        lemma_dispatch_conserves_rows(staged, rows, ids, threshold, cutover, after, p);
        lemma_written_rows_concat(earlier, here);
        lemma_run_conserves_rows(p as usize, staged[p], run, threshold, cutover);
        assert(after[p] == run_residue(staged[p], run, threshold, cutover));
        assert(dispatched(staged, rows, ids, threshold, cutover, upto) == earlier + here);
        assert(written_rows(here).add(after[p].to_multiset()) =~= staged[p].to_multiset().add(run.to_multiset()));
        assert(written_rows(earlier).add(staged_total(after, p)) =~= staged_total(staged, p).add(
            assigned_total(rows, ids, p),
        ));
        assert(staged_total(after, upto) =~= staged_total(after, p).add(after[p].to_multiset()));
        assert(staged_total(staged, upto) =~= staged_total(staged, p).add(staged[p].to_multiset()));
        assert(assigned_total(rows, ids, upto) =~= assigned_total(rows, ids, p).add(run.to_multiset()));
        let left = written_rows(earlier + here).add(staged_total(after, upto));
        let right = staged_total(staged, upto).add(assigned_total(rows, ids, upto));
        assert forall|row: Row| left.count(row) == right.count(row) by {
            assert(written_rows(here).add(after[p].to_multiset()).count(row) == staged[p].to_multiset().add(
                run.to_multiset(),
            ).count(row));
            assert(written_rows(earlier).add(staged_total(after, p)).count(row) == staged_total(staged, p).add(
                assigned_total(rows, ids, p),
            ).count(row));
        }
        assert(left =~= right);
    }
}

/// Flushing writes exactly what is staged, for the partitions below `upto`.
pub proof fn lemma_flush_conserves_rows(staged: Seq<Seq<Row>>, upto: int)
    requires
        0 <= upto <= staged.len(),
    ensures
        written_rows(flushed(staged, upto)) =~= staged_total(staged, upto),
    decreases upto,
{
    if upto > 0 {
        lemma_flush_conserves_rows(staged, upto - 1);
        if staged[upto - 1].len() > 0 {
            assert(flushed(staged, upto).drop_last() =~= flushed(staged, upto - 1));
        } else {
            staged[upto - 1].to_multiset_ensures();
            assert(staged[upto - 1].to_multiset() =~= Multiset::<Row>::empty());
        }
    }
}

/// Nothing is staged where every buffer is empty.
proof fn lemma_staged_total_empty(staged: Seq<Seq<Row>>, upto: int)
    requires
        0 <= upto <= staged.len(),
        forall|p: int| 0 <= p < staged.len() ==> (#[trigger] staged[p]).len() == 0,
    ensures
        staged_total(staged, upto) =~= Multiset::<Row>::empty(),
    decreases upto,
{
    if upto > 0 {
        lemma_staged_total_empty(staged, upto - 1);
        staged[upto - 1].to_multiset_ensures();
        assert(staged[upto - 1].to_multiset() =~= Multiset::<Row>::empty());
    }
}

/// No row is lost and none is duplicated: when a batch is inserted into a
/// repartitioner whose buffers are empty and the repartitioner is then
/// finalized, the rows received by all partitions together, from the writes
/// of the insert and the writes of the finalization, are exactly the rows
/// of the batch.
pub proof fn lemma_insert_then_finalize_delivers_batch(
    staged: Seq<Seq<Row>>,
    rows: Seq<Row>,
    ids: Seq<usize>,
    threshold: int,
    cutover: int,
    after: Seq<Seq<Row>>,
)
    requires
        threshold >= 1,
        staged.len() >= 1,
        forall|p: int| 0 <= p < staged.len() ==> (#[trigger] staged[p]).len() == 0,
        rows.len() == ids.len(),
        forall|i: int| 0 <= i < ids.len() ==> ids[i] < staged.len(),
        after.len() == staged.len(),
        forall|p: int|
            0 <= p < staged.len() ==> #[trigger] after[p] == run_residue(
                staged[p],
                rows_of_partition(rows, ids, p),
                threshold,
                cutover,
),
    ensures
        written_rows(
            dispatched(staged, rows, ids, threshold, cutover, staged.len() as int) + flushed(after, after.len() as int),
        ) =~= rows.to_multiset(),
{
    let n = staged.len() as int;
    let inserted = dispatched(staged, rows, ids, threshold, cutover, n);
    let finalized = flushed(after, n);
    lemma_written_rows_concat(inserted, finalized);
    lemma_dispatch_conserves_rows(staged, rows, ids, threshold, cutover, after, n);
    lemma_flush_conserves_rows(after, n);
    lemma_staged_total_empty(staged, n);
    lemma_partitions_cover_batch(rows, ids, n);
}

/// The rows that a sequence of writes carries to `partition`, each as often
/// as it is written.
pub open spec fn received_by(writes: Seq<WriteView>, partition: usize) -> Multiset<Row>
    decreases writes.len(),
{
    if writes.len() == 0 {
        Multiset::empty()
    } else if writes.last().0 == partition {
        received_by(writes.drop_last(), partition).add(writes.last().1.to_multiset())
    } else {
        received_by(writes.drop_last(), partition)
    }
}

/// What a partition receives from two sequences of writes, one after the
/// other, is what it receives from the first together with what it receives
/// from the second.
pub proof fn lemma_received_by_concat(first: Seq<WriteView>, second: Seq<WriteView>, partition: usize)
    ensures
        received_by(first + second, partition) =~= received_by(first, partition).add(
            received_by(second, partition),
        ),
    decreases second.len(),
{
    if second.len() == 0 {
        assert(first + second =~= first);
    } else {
        assert((first + second).drop_last() =~= first + second.drop_last());
        lemma_received_by_concat(first, second.drop_last(), partition);
    }
}

/// Writes tagged with one partition reach that partition and no other.
proof fn lemma_received_by_tagged(tag: usize, batches: Seq<Seq<Row>>, partition: usize)
    ensures
        received_by(tagged(tag, batches), partition) =~= if tag == partition {
            written_rows(tagged(tag, batches))
        } else {
            Multiset::empty()
        },
    decreases batches.len(),
{
    if batches.len() > 0 {
        assert(tagged(tag, batches).drop_last() =~= tagged(tag, batches.drop_last()));
        lemma_received_by_tagged(tag, batches.drop_last(), partition);
    }
}

/// Of the writes of an insert, a partition receives those that its own run
/// gave rise to.
proof fn lemma_received_from_dispatch(
    staged: Seq<Seq<Row>>,
    rows: Seq<Row>,
    ids: Seq<usize>,
    threshold: int,
    cutover: int,
    upto: int,
    partition: usize,
)
    requires
        0 <= upto <= staged.len() <= usize::MAX,
    ensures
        received_by(dispatched(staged, rows, ids, threshold, cutover, upto), partition) =~= if partition < upto {
            written_rows(
                tagged(
                    partition,
                    run_batches(
                        staged[partition as int],
                        rows_of_partition(rows, ids, partition as int),
                        threshold,
                        cutover,
),
                ),
            )
        } else {
            Multiset::empty()
        },
    decreases upto,
{
    if upto > 0 {
        let q = upto - 1;
        let earlier = dispatched(staged, rows, ids, threshold, cutover, q);
        let here = tagged(q as usize, run_batches(staged[q], rows_of_partition(rows, ids, q), threshold, cutover));
        lemma_received_from_dispatch(staged, rows, ids, threshold, cutover, q, partition);
        lemma_received_by_concat(earlier, here, partition);
        lemma_received_by_tagged(
            q as usize,
            run_batches(staged[q], rows_of_partition(rows, ids, q), threshold, cutover),
            partition,
        );
    }
}

/// Of the writes of a flush, a partition receives what was staged for it.
proof fn lemma_received_from_flush(staged: Seq<Seq<Row>>, upto: int, partition: usize)
    requires
        0 <= upto <= staged.len() <= usize::MAX,
    ensures
        received_by(flushed(staged, upto), partition) =~= if partition < upto {
            staged[partition as int].to_multiset()
        } else {
            Multiset::empty()
        },
    decreases upto,
{
    if upto > 0 {
        lemma_received_from_flush(staged, upto - 1, partition);
        if staged[upto - 1].len() > 0 {
            assert(flushed(staged, upto).drop_last() =~= flushed(staged, upto - 1));
        } else {
            staged[upto - 1].to_multiset_ensures();
            assert(staged[upto - 1].to_multiset() =~= Multiset::<Row>::empty());
        }
    }
}

/// Every partition receives exactly its rows: when a batch is inserted and
/// the repartitioner is then finalized, the writes of both together carry
/// to each partition the rows that were staged for it before and the rows
/// of the batch that are assigned to it, and nothing else.
pub proof fn lemma_partition_receives_its_rows(
    staged: Seq<Seq<Row>>,
    rows: Seq<Row>,
    ids: Seq<usize>,
    threshold: int,
    cutover: int,
    after: Seq<Seq<Row>>,
    partition: usize,
)
    requires
        threshold >= 1,
        staged.len() <= usize::MAX,
        partition < staged.len(),
        after.len() == staged.len(),
        forall|p: int|
            0 <= p < staged.len() ==> #[trigger] after[p] == run_residue(
                staged[p],
                rows_of_partition(rows, ids, p),
                threshold,
                cutover,
),
    ensures
        received_by(
            dispatched(staged, rows, ids, threshold, cutover, staged.len() as int) + flushed(after, after.len() as int),
            partition,
        ) =~= staged[partition as int].to_multiset().add(
            rows_of_partition(rows, ids, partition as int).to_multiset(),
        ),
{
    let n = staged.len() as int;
    let run = rows_of_partition(rows, ids, partition as int);
    lemma_received_by_concat(dispatched(staged, rows, ids, threshold, cutover, n), flushed(after, n), partition);
    lemma_received_from_dispatch(staged, rows, ids, threshold, cutover, n, partition);
    lemma_received_from_flush(after, n, partition);
    lemma_run_conserves_rows(partition, staged[partition as int], run, threshold, cutover);
    assert(after[partition as int] == run_residue(staged[partition as int], run, threshold, cutover));
}

/// The staged rows, counted as a multiset, are as many as counted buffer by
/// buffer.
proof fn lemma_staged_total_len(staged: Seq<Seq<Row>>, upto: int)
    requires
        0 <= upto <= staged.len(),
    ensures
        staged_total(staged, upto).len() == staged_count(staged, upto),
    decreases upto,
{
    broadcast use vstd::multiset::group_multiset_axioms;

    if upto > 0 {
        lemma_staged_total_len(staged, upto - 1);
        staged[upto - 1].to_multiset_ensures();
    }
}

/// An insert balances the books: the rows staged afterwards and the rows
/// written are together as many as the rows staged before and the rows of
/// the batch. The accounted memory usage, eight bytes per staged cell,
/// therefore grows by the footprint of the batch and shrinks by the footprint
/// of what was written.
pub proof fn lemma_insert_balances_rows(
    staged: Seq<Seq<Row>>,
    rows: Seq<Row>,
    ids: Seq<usize>,
    threshold: int,
    cutover: int,
    after: Seq<Seq<Row>>,
)
    requires
        threshold >= 1,
        rows.len() == ids.len(),
        forall|i: int| 0 <= i < ids.len() ==> ids[i] < staged.len(),
        after.len() == staged.len(),
        forall|p: int|
            0 <= p < staged.len() ==> #[trigger] after[p] == run_residue(
                staged[p],
                rows_of_partition(rows, ids, p),
                threshold,
                cutover,
),
    ensures
        staged_count(after, after.len() as int) + written_rows(
            dispatched(staged, rows, ids, threshold, cutover, staged.len() as int),
        ).len() == staged_count(staged, staged.len() as int) + rows.len(),
{
    broadcast use vstd::multiset::group_multiset_axioms;

    let n = staged.len() as int;
    lemma_dispatch_conserves_rows(staged, rows, ids, threshold, cutover, after, n);
    lemma_partitions_cover_batch(rows, ids, n);
    lemma_staged_total_len(staged, n);
    lemma_staged_total_len(after, n);
    rows.to_multiset_ensures();
    let written = written_rows(dispatched(staged, rows, ids, threshold, cutover, n));
    assert(written.add(staged_total(after, n)).len() == written.len() + staged_total(after, n).len());
    assert(staged_total(staged, n).add(assigned_total(rows, ids, n)).len() == staged_total(staged, n).len()
        + assigned_total(rows, ids, n).len());
}

} // verus!
