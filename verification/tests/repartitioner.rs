use rss_shuffle::assigner::evaluate_hashes;
use rss_shuffle::assigner::evaluate_partition_ids;
use rss_shuffle::assigner::PartitioningScheme;
use rss_shuffle::batch::ColumnarBatch;
use rss_shuffle::batch::Schema;
use rss_shuffle::buffer::SinkWrite;
use rss_shuffle::grouping::group_by_partition;
use rss_shuffle::repartitioner::after_growth_request;
use rss_shuffle::repartitioner::ConfigError;
use rss_shuffle::repartitioner::GrowthStep;
use rss_shuffle::repartitioner::RssBucketShuffleRepartitioner;

fn cells(values: Vec<i64>) -> Vec<Option<i64>> {
    values.into_iter().map(Some).collect()
}

fn cells_of(columns: Vec<Vec<i64>>) -> Vec<Vec<Option<i64>>> {
    columns.into_iter().map(cells).collect()
}

fn names_of(names: &[&str]) -> Schema {
    Schema::new(names.iter().map(|name| name.to_string()).collect())
}

fn input_of(names: &[&str], columns: Vec<Vec<i64>>) -> ColumnarBatch {
    match ColumnarBatch::try_new(names_of(names), cells_of(columns)) {
        Ok(batch) => batch,
        Err(error) => panic!("unexpected {:?}", error),
    }
}

fn repartitioner_of(names: &[&str], keys: Vec<usize>, partitions: usize, batch_size: usize) -> RssBucketShuffleRepartitioner {
    let scheme = PartitioningScheme::new(keys, 0, partitions);
    match RssBucketShuffleRepartitioner::new(0, names_of(names), scheme, batch_size) {
        Ok(repartitioner) => repartitioner,
        Err(error) => panic!("unexpected {:?}", error),
    }
}

fn written_rows(writes: &[SinkWrite]) -> Vec<Vec<Option<i64>>> {
    let mut rows = Vec::new();
    for write in writes {
        for row in 0..write.batch.num_rows() {
            rows.push((0..write.batch.num_columns()).map(|column| write.batch.value(row, column)).collect());
        }
    }
    rows
}

fn rows_written_to(writes: &[SinkWrite], partition: usize) -> Vec<Vec<Option<i64>>> {
    let mut rows = Vec::new();
    for write in writes {
        if write.partition_id == partition {
            for row in 0..write.batch.num_rows() {
                rows.push((0..write.batch.num_columns()).map(|column| write.batch.value(row, column)).collect());
            }
        }
    }
    rows
}

fn batch_rows(batch: &ColumnarBatch) -> Vec<Vec<Option<i64>>> {
    (0..batch.num_rows())
        .map(|row| (0..batch.num_columns()).map(|column| batch.value(row, column)).collect())
        .collect()
}

fn sorted(mut rows: Vec<Vec<Option<i64>>>) -> Vec<Vec<Option<i64>>> {
    rows.sort();
    rows
}

#[test]
fn new_rejects_zero_partitions() {
    let scheme = PartitioningScheme::new(vec![0], 0, 0);
    let result = RssBucketShuffleRepartitioner::new(1, names_of(&["a"]), scheme, 16);
    assert!(matches!(result, Err(ConfigError::ZeroPartitions)));
}

#[test]
fn new_rejects_zero_batch_size() {
    let scheme = PartitioningScheme::new(vec![0], 0, 4);
    let result = RssBucketShuffleRepartitioner::new(1, names_of(&["a"]), scheme, 0);
    assert!(matches!(result, Err(ConfigError::ZeroBatchSize)));
}

#[test]
fn new_rejects_key_column_outside_schema() {
    let scheme = PartitioningScheme::new(vec![0, 1], 0, 4);
    let result = RssBucketShuffleRepartitioner::new(1, names_of(&["a"]), scheme, 16);
    assert!(matches!(result, Err(ConfigError::KeyColumnOutOfRange)));
}

#[test]
fn new_reports_zero_partitions_first() {
    let scheme = PartitioningScheme::new(vec![5], 0, 0);
    let result = RssBucketShuffleRepartitioner::new(1, names_of(&["a"]), scheme, 0);
    assert!(matches!(result, Err(ConfigError::ZeroPartitions)));
    let scheme = PartitioningScheme::new(vec![5], 0, 2);
    let result = RssBucketShuffleRepartitioner::new(1, names_of(&["a"]), scheme, 0);
    assert!(matches!(result, Err(ConfigError::ZeroBatchSize)));
}

#[test]
fn new_repartitioner_is_empty() {
    let scheme = PartitioningScheme::new(vec![1], 42, 3);
    let repartitioner = match RssBucketShuffleRepartitioner::new(17, names_of(&["a", "b"]), scheme, 8192) {
        Ok(repartitioner) => repartitioner,
        Err(error) => panic!("unexpected {:?}", error),
    };
    assert_eq!(repartitioner.id(), 17);
    assert_eq!(repartitioner.name(), "bucket rss repartitioner");
    assert_eq!(repartitioner.num_output_partitions(), 3);
    assert_eq!(repartitioner.rss_batch_size(), 630);
    assert_eq!(repartitioner.mem_used(), 0);
    assert!(repartitioner.schema().same_as(&names_of(&["a", "b"])));
    for partition in 0..3 {
        assert_eq!(repartitioner.buffered_rows(partition), 0);
        assert_eq!(repartitioner.buffered_builders(partition), 0);
    }
}

#[test]
fn eight_rows_over_four_buckets_give_four_writes_of_two() {
    let mut repartitioner = repartitioner_of(&["v"], vec![0], 4, 8192);
    let input = input_of(&["v"], vec![vec![10, 11, 12, 13, 14, 15, 16, 17]]);
    let writes = repartitioner.insert_batch_with_partition_ids(&input, &[0, 1, 2, 3, 0, 1, 2, 3]);
    assert!(writes.is_empty());
    for partition in 0..4 {
        assert_eq!(repartitioner.buffered_rows(partition), 2);
    }
    let writes = repartitioner.shuffle_write();
    assert_eq!(writes.len(), 4);
    for (partition, write) in writes.iter().enumerate() {
        assert_eq!(write.partition_id, partition);
        assert_eq!(write.batch.num_rows(), 2);
    }
    assert_eq!(writes[0].batch.column(0), &cells(vec![10, 14]));
    assert_eq!(writes[1].batch.column(0), &cells(vec![11, 15]));
    assert_eq!(writes[2].batch.column(0), &cells(vec![12, 16]));
    assert_eq!(writes[3].batch.column(0), &cells(vec![13, 17]));
}

#[test]
fn hashed_insert_follows_the_assignment() {
    let mut repartitioner = repartitioner_of(&["k"], vec![0], 4, 8192);
    let input = input_of(&["k"], vec![vec![0, 1, 2, 3, 4, 5, 6, 7]]);
    let scheme = PartitioningScheme::new(vec![0], 0, 4);
    let ids = evaluate_partition_ids(&evaluate_hashes(&scheme, &input), 4);
    assert_eq!(ids, vec![0, 1, 2, 3, 0, 1, 2, 3]);
    assert!(repartitioner.insert_batch(&input).is_empty());
    let writes = repartitioner.shuffle_write();
    assert_eq!(writes.len(), 4);
    assert_eq!(writes[0].batch.column(0), &cells(vec![0, 4]));
    assert_eq!(writes[1].batch.column(0), &cells(vec![1, 5]));
    assert_eq!(writes[2].batch.column(0), &cells(vec![2, 6]));
    assert_eq!(writes[3].batch.column(0), &cells(vec![3, 7]));
}

#[test]
fn ten_rows_for_one_bucket_flush_twice_and_leave_two() {
    let mut repartitioner = repartitioner_of(&["a"], vec![0], 3, 12);
    assert_eq!(repartitioner.rss_batch_size(), 4);
    assert_eq!(repartitioner.batch_size(), 12);
    let input = input_of(&["a"], vec![(0..10).collect()]);
    let writes = repartitioner.insert_batch_with_partition_ids(&input, &[0; 10]);
    assert_eq!(writes.len(), 2);
    assert_eq!(writes[0].partition_id, 0);
    assert_eq!(writes[0].batch.column(0), &cells(vec![0, 1, 2, 3]));
    assert_eq!(writes[1].partition_id, 0);
    assert_eq!(writes[1].batch.column(0), &cells(vec![4, 5, 6, 7]));
    assert_eq!(repartitioner.buffered_rows(0), 2);
    assert_eq!(repartitioner.buffered_rows(1), 0);
    assert_eq!(repartitioner.buffered_rows(2), 0);
    assert_eq!(repartitioner.mem_used(), 16);
    let last = repartitioner.shuffle_write();
    assert_eq!(last.len(), 1);
    assert_eq!(last[0].partition_id, 0);
    assert_eq!(last[0].batch.column(0), &cells(vec![8, 9]));
    assert_eq!(repartitioner.buffered_rows(0), 0);
}

#[test]
fn ten_hashed_rows_for_a_single_bucket_flush_twice_and_leave_two() {
    let mut repartitioner = repartitioner_of(&["a"], vec![0], 1, 12);
    let input = input_of(&["a"], vec![(0..10).collect()]);
    let mut writes = repartitioner.insert_batch(&input);
    assert_eq!(writes.len(), 2);
    assert!(writes.iter().all(|write| write.partition_id == 0 && write.batch.num_rows() == 4));
    assert_eq!(repartitioner.buffered_rows(0), 2);
    let last = repartitioner.shuffle_write();
    assert_eq!(last.len(), 1);
    assert_eq!(last[0].batch.num_rows(), 2);
    writes.extend(last);
    assert_eq!(sorted(written_rows(&writes)), sorted(batch_rows(&input)));
}

#[test]
fn run_below_the_cutover_is_staged_even_above_the_threshold() {
    let mut repartitioner = repartitioner_of(&["a"], vec![0], 2, 16);
    assert_eq!(repartitioner.rss_batch_size(), 4);
    let input = input_of(&["a"], vec![(0..15).collect()]);
    let writes = repartitioner.insert_batch_with_partition_ids(&input, &[1; 15]);
    assert_eq!(writes.len(), 3);
    assert!(writes.iter().all(|write| write.partition_id == 1 && write.batch.num_rows() == 4));
    assert_eq!(repartitioner.buffered_rows(1), 3);
}

#[test]
fn long_run_goes_through_the_bulk_path() {
    let mut repartitioner = repartitioner_of(&["a", "b"], vec![0], 2, 8);
    assert_eq!(repartitioner.rss_batch_size(), 2);
    assert_eq!(repartitioner.batch_size(), 8);
    let input = input_of(&["a", "b"], vec![(0..10).collect(), (0..10).map(|v| 100 - v).collect()]);
    let writes = repartitioner.insert_batch_with_partition_ids(&input, &[0; 10]);
    assert_eq!(writes.len(), 1);
    assert_eq!(writes[0].partition_id, 0);
    assert_eq!(writes[0].batch.num_rows(), 10);
    assert_eq!(sorted(written_rows(&writes)), sorted(batch_rows(&input)));
    assert_eq!(repartitioner.buffered_rows(0), 0);
    assert_eq!(repartitioner.buffered_rows(1), 0);
    assert!(repartitioner.shuffle_write().is_empty());
}

#[test]
fn run_of_exactly_cutover_rows_goes_through_the_bulk_path() {
    let mut repartitioner = repartitioner_of(&["a"], vec![0], 2, 4);
    assert_eq!(repartitioner.rss_batch_size(), 2);
    let input = input_of(&["a"], vec![vec![5, 6, 7, 8, 9]]);
    let writes = repartitioner.insert_batch_with_partition_ids(&input, &[1, 1, 0, 1, 1]);
    assert_eq!(writes.len(), 1);
    assert_eq!(writes[0].partition_id, 1);
    assert_eq!(writes[0].batch.column(0), &cells(vec![5, 6, 8, 9]));
    assert_eq!(repartitioner.buffered_rows(0), 1);
    assert_eq!(repartitioner.buffered_rows(1), 0);
}

#[test]
fn run_one_short_of_the_cutover_is_staged() {
    let mut repartitioner = repartitioner_of(&["a"], vec![0], 1, 4);
    let input = input_of(&["a"], vec![vec![5, 6, 7]]);
    let writes = repartitioner.insert_batch_with_partition_ids(&input, &[0, 0, 0]);
    assert_eq!(writes.len(), 1);
    assert_eq!(writes[0].batch.column(0), &cells(vec![5, 6]));
    assert_eq!(repartitioner.buffered_rows(0), 1);
}

#[test]
fn bulk_path_leaves_staged_rows_in_place() {
    let mut repartitioner = repartitioner_of(&["a"], vec![0], 1, 8);
    let first = input_of(&["a"], vec![vec![1]]);
    assert!(repartitioner.insert_batch_with_partition_ids(&first, &[0]).is_empty());
    let second = input_of(&["a"], vec![vec![10, 11, 12, 13, 14, 15, 16, 17]]);
    let writes = repartitioner.insert_batch_with_partition_ids(&second, &[0; 8]);
    assert_eq!(writes.len(), 1);
    assert_eq!(writes[0].batch.column(0), &cells(vec![10, 11, 12, 13, 14, 15, 16, 17]));
    assert_eq!(repartitioner.buffered_rows(0), 1);
    let rest = repartitioner.shuffle_write();
    assert_eq!(rest.len(), 1);
    assert_eq!(rest[0].batch.column(0), &cells(vec![1]));
}

#[test]
fn short_runs_flush_when_the_threshold_is_reached() {
    let mut repartitioner = repartitioner_of(&["a"], vec![0], 2, 16);
    let mut all_writes = Vec::new();
    for round in 0..5i64 {
        let input = input_of(&["a"], vec![vec![round * 10, round * 10 + 1, round * 10 + 2]]);
        let writes = repartitioner.insert_batch_with_partition_ids(&input, &[0, 0, 1]);
        all_writes.extend(writes);
        assert!(repartitioner.buffered_rows(0) < 4);
        assert!(repartitioner.buffered_rows(1) < 4);
    }
    assert_eq!(all_writes.len(), 3);
    assert_eq!(all_writes[0].partition_id, 0);
    assert_eq!(all_writes[0].batch.column(0), &cells(vec![0, 1, 10, 11]));
    assert_eq!(all_writes[1].partition_id, 0);
    assert_eq!(all_writes[1].batch.column(0), &cells(vec![20, 21, 30, 31]));
    assert_eq!(all_writes[2].partition_id, 1);
    assert_eq!(all_writes[2].batch.column(0), &cells(vec![2, 12, 22, 32]));
    assert_eq!(repartitioner.buffered_rows(0), 2);
    assert_eq!(repartitioner.buffered_rows(1), 1);
}

#[test]
fn no_row_is_lost_or_duplicated() {
    for partitions in 1..6usize {
        let mut repartitioner = repartitioner_of(&["k", "v"], vec![0, 1], partitions, 16);
        let input = input_of(
            &["k", "v"],
            vec![(0..97).map(|v| (v * 37) % 11 - 5).collect(), (0..97).map(|v| v % 3).collect()],
        );
        let mut writes = repartitioner.insert_batch(&input);
        writes.extend(repartitioner.shuffle_write());
        assert_eq!(sorted(written_rows(&writes)), sorted(batch_rows(&input)));
        let scheme = PartitioningScheme::new(vec![0, 1], 0, partitions);
        let ids = evaluate_partition_ids(&evaluate_hashes(&scheme, &input), partitions);
        for partition in 0..partitions {
            let expected: Vec<Vec<Option<i64>>> = batch_rows(&input)
                .into_iter()
                .zip(ids.iter())
                .filter(|(_, &id)| id == partition)
                .map(|(row, _)| row)
                .collect();
            assert_eq!(sorted(rows_written_to(&writes, partition)), sorted(expected));
        }
    }
}

#[test]
fn after_finalize_every_buffer_is_empty() {
    let mut repartitioner = repartitioner_of(&["a"], vec![0], 3, 8192);
    let input = input_of(&["a"], vec![(0..20).collect()]);
    let ids: Vec<usize> = (0..20).map(|i| i % 3).collect();
    assert!(repartitioner.insert_batch_with_partition_ids(&input, &ids).is_empty());
    assert_eq!(repartitioner.buffered_builders(0), 1);
    let writes = repartitioner.shuffle_write();
    assert_eq!(writes.len(), 3);
    for partition in 0..3 {
        assert_eq!(repartitioner.buffered_rows(partition), 0);
        assert_eq!(repartitioner.buffered_builders(partition), 0);
    }
    assert!(repartitioner.shuffle_write().is_empty());
}

#[test]
fn finalize_skips_empty_partitions() {
    let mut repartitioner = repartitioner_of(&["a"], vec![0], 4, 8192);
    let input = input_of(&["a"], vec![vec![1, 2, 3]]);
    assert!(repartitioner.insert_batch_with_partition_ids(&input, &[3, 1, 3]).is_empty());
    assert_eq!(repartitioner.buffered_builders(0), 0);
    assert_eq!(repartitioner.buffered_builders(2), 0);
    let writes = repartitioner.shuffle_write();
    assert_eq!(writes.len(), 2);
    assert_eq!(writes[0].partition_id, 1);
    assert_eq!(writes[0].batch.column(0), &cells(vec![2]));
    assert_eq!(writes[1].partition_id, 3);
    assert_eq!(writes[1].batch.column(0), &cells(vec![1, 3]));
}

#[test]
fn finalizing_a_fresh_repartitioner_writes_nothing() {
    let mut repartitioner = repartitioner_of(&["a"], vec![0], 4, 16);
    assert!(repartitioner.shuffle_write().is_empty());
    let spilled = repartitioner.spill();
    assert!(spilled.writes.is_empty());
    assert_eq!(spilled.freed, 0);
}

#[test]
fn inserting_an_empty_batch_changes_nothing() {
    let mut repartitioner = repartitioner_of(&["a"], vec![0], 4, 16);
    let input = input_of(&["a"], vec![vec![]]);
    assert!(repartitioner.insert_batch(&input).is_empty());
    assert_eq!(repartitioner.mem_used(), 0);
    assert!(repartitioner.shuffle_write().is_empty());
}

#[test]
fn memory_follows_the_staged_rows_and_spill_resets_it() {
    let mut repartitioner = repartitioner_of(&["a", "b"], vec![0], 2, 8192);
    let input = input_of(&["a", "b"], vec![vec![1, 2, 3], vec![4, 5, 6]]);
    assert_eq!(input.memory_size(), 48);
    assert!(repartitioner.insert_batch_with_partition_ids(&input, &[0, 1, 0]).is_empty());
    assert_eq!(repartitioner.mem_used(), 48);
    assert!(repartitioner.insert_batch_with_partition_ids(&input, &[1, 1, 1]).is_empty());
    assert_eq!(repartitioner.mem_used(), 96);
    let spilled = repartitioner.spill();
    assert_eq!(spilled.freed, 96);
    assert_eq!(repartitioner.mem_used(), 0);
    assert_eq!(spilled.writes.len(), 2);
    assert_eq!(spilled.writes[0].partition_id, 0);
    assert_eq!(spilled.writes[0].batch.column(0), &cells(vec![1, 3]));
    assert_eq!(spilled.writes[1].partition_id, 1);
    assert_eq!(spilled.writes[1].batch.column(1), &cells(vec![5, 4, 5, 6]));
    for partition in 0..2 {
        assert_eq!(repartitioner.buffered_rows(partition), 0);
        assert_eq!(repartitioner.buffered_builders(partition), 0);
    }
    let again = repartitioner.spill();
    assert_eq!(again.freed, 0);
    assert!(again.writes.is_empty());
}

#[test]
fn memory_drops_when_rows_are_written() {
    let mut repartitioner = repartitioner_of(&["a"], vec![0], 2, 16);
    let three = input_of(&["a"], vec![vec![1, 2, 3]]);
    assert!(repartitioner.insert_batch_with_partition_ids(&three, &[0, 0, 0]).is_empty());
    assert_eq!(repartitioner.mem_used(), 24);
    let writes = repartitioner.insert_batch_with_partition_ids(&three, &[0, 0, 1]);
    assert_eq!(writes.len(), 1);
    assert_eq!(writes[0].batch.num_rows(), 4);
    assert_eq!(repartitioner.buffered_rows(0), 1);
    assert_eq!(repartitioner.buffered_rows(1), 1);
    assert_eq!(repartitioner.mem_used(), 16);
}

#[test]
fn bulk_path_accounts_no_memory() {
    let mut repartitioner = repartitioner_of(&["a", "b"], vec![0], 1, 8);
    let input = input_of(&["a", "b"], vec![(0..10).collect(), (0..10).collect()]);
    assert_eq!(input.memory_size(), 160);
    let writes = repartitioner.insert_batch_with_partition_ids(&input, &[0; 10]);
    assert_eq!(writes.len(), 1);
    assert_eq!(repartitioner.mem_used(), 0);
}

#[test]
fn finalize_releases_the_accounted_memory() {
    let mut repartitioner = repartitioner_of(&["a"], vec![0], 2, 8192);
    let input = input_of(&["a"], vec![vec![1, 2, 3]]);
    assert!(repartitioner.insert_batch(&input).is_empty());
    assert_eq!(repartitioner.mem_used(), 24);
    assert_eq!(repartitioner.shuffle_write().len(), 2);
    assert_eq!(repartitioner.mem_used(), 0);
}

#[test]
fn spill_between_inserts_loses_nothing() {
    let mut repartitioner = repartitioner_of(&["a"], vec![0], 3, 16);
    let first = input_of(&["a"], vec![(0..7).collect()]);
    let second = input_of(&["a"], vec![(100..105).collect()]);
    let mut writes = repartitioner.insert_batch(&first);
    writes.extend(repartitioner.spill().writes);
    writes.extend(repartitioner.insert_batch(&second));
    writes.extend(repartitioner.shuffle_write());
    let mut expected = batch_rows(&first);
    expected.extend(batch_rows(&second));
    assert_eq!(sorted(written_rows(&writes)), sorted(expected));
}

#[test]
fn writes_carry_the_schema() {
    let mut repartitioner = repartitioner_of(&["left", "right"], vec![1], 1, 8);
    let input = input_of(&["left", "right"], vec![(0..9).collect(), (0..9).collect()]);
    let bulk = repartitioner.insert_batch(&input);
    assert_eq!(bulk.len(), 1);
    assert!(bulk[0].batch.schema().same_as(&names_of(&["left", "right"])));
    let small = input_of(&["left", "right"], vec![vec![1], vec![2]]);
    assert!(repartitioner.insert_batch(&small).is_empty());
    let rest = repartitioner.shuffle_write();
    assert_eq!(rest.len(), 1);
    assert!(rest[0].batch.schema().same_as(&names_of(&["left", "right"])));
    assert_eq!(rest[0].batch.column(1), &cells(vec![2]));
}

#[test]
fn schema_without_columns_stages_nothing() {
    let mut repartitioner = repartitioner_of(&[], vec![], 3, 16);
    let input = input_of(&[], vec![]);
    assert_eq!(input.num_rows(), 0);
    assert!(repartitioner.insert_batch(&input).is_empty());
    assert_eq!(repartitioner.mem_used(), 0);
    for partition in 0..3 {
        assert_eq!(repartitioner.buffered_rows(partition), 0);
        assert_eq!(repartitioner.buffered_builders(partition), 0);
    }
    assert!(repartitioner.shuffle_write().is_empty());
}

#[test]
fn batch_size_one_writes_every_run_at_once() {
    let mut repartitioner = repartitioner_of(&["a"], vec![0], 2, 1);
    assert_eq!(repartitioner.rss_batch_size(), 1);
    let input = input_of(&["a"], vec![vec![7, 8, 9]]);
    let writes = repartitioner.insert_batch_with_partition_ids(&input, &[1, 0, 1]);
    assert_eq!(writes.len(), 2);
    assert_eq!(writes[0].partition_id, 0);
    assert_eq!(writes[0].batch.column(0), &cells(vec![8]));
    assert_eq!(writes[1].partition_id, 1);
    assert_eq!(writes[1].batch.column(0), &cells(vec![7, 9]));
    assert_eq!(repartitioner.mem_used(), 0);
    assert!(repartitioner.shuffle_write().is_empty());
}

#[test]
fn partition_steps_add_up_to_the_insert() {
    let input = input_of(&["a"], vec![(0..23).collect()]);
    let ids: Vec<usize> = (0..23).map(|i| if i < 14 { 0 } else if i < 20 { 1 } else { 2 }).collect();
    let mut whole = repartitioner_of(&["a"], vec![0], 4, 12);
    let expected = whole.insert_batch_with_partition_ids(&input, &ids);

    let mut stepwise = repartitioner_of(&["a"], vec![0], 4, 12);
    let groups = group_by_partition(&ids, 4);
    let mut writes = Vec::new();
    for partition in 0..4 {
        writes.extend(stepwise.insert_partition(&input, &groups, partition));
    }
    assert_eq!(writes.len(), expected.len());
    for (got, want) in writes.iter().zip(expected.iter()) {
        assert_eq!(got.partition_id, want.partition_id);
        assert_eq!(got.batch.column(0), want.batch.column(0));
    }
    for partition in 0..4 {
        assert_eq!(stepwise.buffered_rows(partition), whole.buffered_rows(partition));
    }
    assert_eq!(stepwise.mem_used(), whole.mem_used());
}

#[test]
fn partition_step_touches_one_partition_only() {
    let mut repartitioner = repartitioner_of(&["a"], vec![0], 3, 12);
    let input = input_of(&["a"], vec![(0..16).collect()]);
    let ids: Vec<usize> = (0..16).map(|i| if i < 13 { 1 } else { 2 }).collect();
    let groups = group_by_partition(&ids, 3);
    let writes = repartitioner.insert_partition(&input, &groups, 2);
    assert!(writes.is_empty());
    assert_eq!(repartitioner.buffered_rows(0), 0);
    assert_eq!(repartitioner.buffered_rows(1), 0);
    assert_eq!(repartitioner.buffered_rows(2), 3);
    assert_eq!(repartitioner.mem_used(), 24);
    let writes = repartitioner.insert_partition(&input, &groups, 1);
    assert_eq!(writes.len(), 1);
    assert_eq!(writes[0].partition_id, 1);
    assert_eq!(writes[0].batch.column(0), &cells((0..13).collect()));
    assert_eq!(repartitioner.buffered_rows(1), 0);
    assert_eq!(repartitioner.buffered_rows(2), 3);
    assert!(repartitioner.insert_partition(&input, &groups, 0).is_empty());
    assert_eq!(repartitioner.mem_used(), 24);
}

#[test]
fn flush_partition_empties_one_partition() {
    let mut repartitioner = repartitioner_of(&["a"], vec![0], 3, 8192);
    let input = input_of(&["a"], vec![vec![1, 2, 3, 4, 5]]);
    assert!(repartitioner.insert_batch_with_partition_ids(&input, &[0, 2, 2, 0, 2]).is_empty());
    assert_eq!(repartitioner.mem_used(), 40);
    assert!(repartitioner.flush_partition(1).is_none());
    assert_eq!(repartitioner.mem_used(), 40);
    let write = match repartitioner.flush_partition(2) {
        Some(write) => write,
        None => panic!("expected a write"),
    };
    assert_eq!(write.partition_id, 2);
    assert_eq!(write.batch.column(0), &cells(vec![2, 3, 5]));
    assert_eq!(repartitioner.buffered_rows(2), 0);
    assert_eq!(repartitioner.buffered_builders(2), 0);
    assert_eq!(repartitioner.buffered_rows(0), 2);
    assert_eq!(repartitioner.mem_used(), 16);
    assert!(repartitioner.flush_partition(2).is_none());
}

#[test]
fn growth_request_is_retried_once_after_a_spill() {
    assert_eq!(after_growth_request(true, false), GrowthStep::Proceed);
    assert_eq!(after_growth_request(true, true), GrowthStep::Proceed);
    assert_eq!(after_growth_request(false, false), GrowthStep::SpillAndAskAgain);
    assert_eq!(after_growth_request(false, true), GrowthStep::Fail);
}

#[test]
fn cutover_is_the_batch_size_and_not_below_the_threshold() {
    for batch_size in 1..200usize {
        let repartitioner = repartitioner_of(&["a"], vec![0], 1, batch_size);
        assert_eq!(repartitioner.batch_size(), batch_size);
        assert!(repartitioner.rss_batch_size() <= repartitioner.batch_size());
    }
}

#[test]
fn rows_with_null_cells_are_delivered_once() {
    let mut repartitioner = repartitioner_of(&["k", "v"], vec![0], 3, 8);
    let input = match ColumnarBatch::try_new(
        names_of(&["k", "v"]),
        vec![
            (0..30).map(|v| if v % 4 == 0 { None } else { Some(v % 7) }).collect(),
            (0..30).map(|v| if v % 5 == 0 { None } else { Some(v) }).collect(),
        ],
    ) {
        Ok(batch) => batch,
        Err(error) => panic!("unexpected {:?}", error),
    };
    let mut writes = repartitioner.insert_batch(&input);
    writes.extend(repartitioner.shuffle_write());
    assert_eq!(sorted(written_rows(&writes)), sorted(batch_rows(&input)));
}
