use rss_shuffle::assigner::compute_bucket;
use rss_shuffle::assigner::evaluate_hashes;
use rss_shuffle::assigner::evaluate_partition_ids;
use rss_shuffle::assigner::mix_cell;
use rss_shuffle::assigner::PartitioningScheme;
use rss_shuffle::batch::ColumnarBatch;
use rss_shuffle::batch::Schema;

fn cells(values: Vec<i64>) -> Vec<Option<i64>> {
    values.into_iter().map(Some).collect()
}

fn cells_of(columns: Vec<Vec<i64>>) -> Vec<Vec<Option<i64>>> {
    columns.into_iter().map(cells).collect()
}

fn batch(names: &[&str], columns: Vec<Vec<i64>>) -> ColumnarBatch {
    let schema = Schema::new(names.iter().map(|name| name.to_string()).collect());
    match ColumnarBatch::try_new(schema, cells_of(columns)) {
        Ok(batch) => batch,
        Err(error) => panic!("unexpected {:?}", error),
    }
}

#[test]
fn compute_bucket_is_remainder_modulo_partition_count() {
    assert_eq!(compute_bucket(0, 4), 0);
    assert_eq!(compute_bucket(7, 4), 3);
    assert_eq!(compute_bucket(4294967295, 4), 3);
    assert_eq!(compute_bucket(4294967295, 1000), 295);
    assert_eq!(compute_bucket(12345, usize::MAX), 12345);
    assert_eq!(compute_bucket(u64::MAX, 1000), 615);
    assert_eq!(compute_bucket(u64::MAX, 7), 1);
}

#[test]
fn single_partition_maps_every_hash_to_zero() {
    assert_eq!(compute_bucket(0, 1), 0);
    assert_eq!(compute_bucket(1, 1), 0);
    assert_eq!(compute_bucket(u64::MAX, 1), 0);
    assert_eq!(evaluate_partition_ids(&[5, 6, 7, u64::MAX], 1), vec![0, 0, 0, 0]);
}

#[test]
fn mix_cell_exact_values() {
    assert_eq!(mix_cell(0, Some(0)), 2147483648);
    assert_eq!(mix_cell(0, Some(5)), 2147483653);
    assert_eq!(mix_cell(1, Some(0)), 2147483679);
    assert_eq!(mix_cell(42, Some(-1)), 2147484948);
    assert_eq!(mix_cell(0, Some(i64::MIN)), 0);
    assert_eq!(mix_cell(0, Some(i64::MAX)), 4294967294);
    assert_eq!(mix_cell(u32::MAX, Some(i64::MAX)), 4294967263);
}

#[test]
fn evaluate_hashes_folds_key_columns_in_order() {
    let input = batch(&["a", "b"], vec![vec![0, 5], vec![7, 9]]);
    let keys_a = PartitioningScheme::new(vec![0], 0, 4);
    assert_eq!(evaluate_hashes(&keys_a, &input), vec![2147483648, 2147483653]);
    let keys_ab = PartitioningScheme::new(vec![0, 1], 0, 4);
    assert_eq!(
        evaluate_hashes(&keys_ab, &input),
        vec![mix_cell(2147483648, Some(7)) as u64, mix_cell(2147483653, Some(9)) as u64]
    );
    let keys_ba = PartitioningScheme::new(vec![1, 0], 0, 4);
    assert_eq!(
        evaluate_hashes(&keys_ba, &input),
        vec![mix_cell(mix_cell(0, Some(7)), Some(0)) as u64, mix_cell(mix_cell(0, Some(9)), Some(5)) as u64]
    );
}

#[test]
fn evaluate_hashes_without_keys_yields_the_seed() {
    let input = batch(&["a"], vec![vec![1, 2, 3]]);
    let scheme = PartitioningScheme::new(vec![], 42, 4);
    assert_eq!(evaluate_hashes(&scheme, &input), vec![42, 42, 42]);
}

#[test]
fn evaluate_hashes_of_empty_batch_is_empty() {
    let input = batch(&["a"], vec![vec![]]);
    let scheme = PartitioningScheme::new(vec![0], 42, 4);
    assert!(evaluate_hashes(&scheme, &input).is_empty());
    assert!(evaluate_partition_ids(&[], 4).is_empty());
}

#[test]
fn evaluate_hashes_ignores_columns_that_are_not_keys() {
    let first = batch(&["k", "v"], vec![vec![1, 2, 3], vec![10, 20, 30]]);
    let second = batch(&["k", "v"], vec![vec![1, 2, 3], vec![-1, -2, -3]]);
    let scheme = PartitioningScheme::new(vec![0], 7, 16);
    assert_eq!(evaluate_hashes(&scheme, &first), evaluate_hashes(&scheme, &second));
}

#[test]
fn bucket_assignment_is_deterministic() {
    let input = batch(&["a", "b"], vec![(0..50).collect(), (0..50).map(|v| v * v - 17).collect()]);
    let scheme = PartitioningScheme::new(vec![1, 0], 42, 7);
    let first = evaluate_partition_ids(&evaluate_hashes(&scheme, &input), 7);
    let second = evaluate_partition_ids(&evaluate_hashes(&scheme, &input), 7);
    assert_eq!(first, second);
    assert_eq!(first.len(), 50);
    assert!(first.iter().all(|&id| id < 7));
}

#[test]
fn evaluate_partition_ids_reduces_each_hash() {
    assert_eq!(evaluate_partition_ids(&[0, 1, 2, 3, 4, 5, 6, 7], 4), vec![0, 1, 2, 3, 0, 1, 2, 3]);
    assert_eq!(evaluate_partition_ids(&[2147483648, 2147483653], 4), vec![0, 1]);
    assert_eq!(evaluate_partition_ids(&[u64::MAX, 1 << 40, (1 << 40) + 5], 3), vec![0, 1, 0]);
}

#[test]
fn scheme_accessors_return_what_was_given() {
    let scheme = PartitioningScheme::new(vec![2, 0], 42, 9);
    assert_eq!(scheme.partition_count(), 9);
    assert_eq!(scheme.seed(), 42);
    assert_eq!(scheme.key_columns(), &vec![2, 0]);
    assert!(scheme.fits_columns(3));
    assert!(!scheme.fits_columns(2));
    assert!(!scheme.fits_columns(0));
}

#[test]
fn null_cells_hash_like_the_smallest_value() {
    assert_eq!(mix_cell(0, None), 0);
    assert_eq!(mix_cell(3, None), 93);
    assert_eq!(mix_cell(3, None), mix_cell(3, Some(i64::MIN)));
    let schema = Schema::new(vec!["k".to_string()]);
    let input = match ColumnarBatch::try_new(schema, vec![vec![Some(5), None, Some(0)]]) {
        Ok(batch) => batch,
        Err(error) => panic!("unexpected {:?}", error),
    };
    let scheme = PartitioningScheme::new(vec![0], 0, 4);
    assert_eq!(evaluate_hashes(&scheme, &input), vec![2147483653, 0, 2147483648]);
}
