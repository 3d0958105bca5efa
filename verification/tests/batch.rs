use rss_shuffle::batch::BatchError;
use rss_shuffle::batch::ColumnarBatch;
use rss_shuffle::batch::Schema;

fn cells(values: Vec<i64>) -> Vec<Option<i64>> {
    values.into_iter().map(Some).collect()
}

fn cells_of(columns: Vec<Vec<i64>>) -> Vec<Vec<Option<i64>>> {
    columns.into_iter().map(cells).collect()
}

fn schema(names: &[&str]) -> Schema {
    Schema::new(names.iter().map(|name| name.to_string()).collect())
}

#[test]
fn schema_reports_names_in_order() {
    let s = schema(&["id", "amount"]);
    assert_eq!(s.len(), 2);
    assert_eq!(s.name(0), "id");
    assert_eq!(s.name(1), "amount");
}

#[test]
fn schema_clone_keeps_names() {
    let s = schema(&["a", "b", "c"]);
    let copy = s.clone();
    assert!(s.same_as(&copy));
    assert_eq!(copy.name(2), "c");
}

#[test]
fn schema_same_as_tells_names_and_lengths_apart() {
    assert!(schema(&[]).same_as(&schema(&[])));
    assert!(!schema(&["a"]).same_as(&schema(&["b"])));
    assert!(!schema(&["a"]).same_as(&schema(&["a", "b"])));
    assert!(!schema(&["a", "b"]).same_as(&schema(&["b", "a"])));
}

#[test]
fn try_new_accepts_equal_length_columns() {
    let batch = ColumnarBatch::try_new(schema(&["a", "b"]), cells_of(vec![vec![1, 2, 3], vec![10, 20, 30]]));
    let batch = match batch {
        Ok(batch) => batch,
        Err(error) => panic!("unexpected {:?}", error),
    };
    assert_eq!(batch.num_rows(), 3);
    assert_eq!(batch.num_columns(), 2);
    assert_eq!(batch.column(1), &cells(vec![10, 20, 30]));
    assert_eq!(batch.value(2, 0), Some(3));
    assert_eq!(batch.value(0, 1), Some(10));
    assert!(batch.schema().same_as(&schema(&["a", "b"])));
}

#[test]
fn try_new_rejects_column_count_mismatch() {
    let result = ColumnarBatch::try_new(schema(&["a", "b"]), cells_of(vec![vec![1, 2, 3]]));
    assert!(matches!(result, Err(BatchError::ColumnCountMismatch)));
}

#[test]
fn try_new_rejects_column_length_mismatch() {
    let result = ColumnarBatch::try_new(schema(&["a", "b"]), cells_of(vec![vec![1, 2, 3], vec![1, 2]]));
    assert!(matches!(result, Err(BatchError::ColumnLengthMismatch)));
}

#[test]
fn try_new_reports_count_mismatch_before_length_mismatch() {
    let result = ColumnarBatch::try_new(schema(&["a"]), cells_of(vec![vec![1, 2, 3], vec![1, 2]]));
    assert!(matches!(result, Err(BatchError::ColumnCountMismatch)));
}

#[test]
fn batch_without_columns_has_no_rows() {
    let batch = ColumnarBatch::try_new(schema(&[]), cells_of(vec![]));
    let batch = match batch {
        Ok(batch) => batch,
        Err(error) => panic!("unexpected {:?}", error),
    };
    assert_eq!(batch.num_rows(), 0);
    assert_eq!(batch.num_columns(), 0);
    assert_eq!(batch.memory_size(), 0);
}

#[test]
fn memory_size_is_eight_bytes_per_cell() {
    let batch = ColumnarBatch::try_new(schema(&["a", "b"]), cells_of(vec![vec![1, 2, 3], vec![4, 5, 6]]));
    let batch = match batch {
        Ok(batch) => batch,
        Err(error) => panic!("unexpected {:?}", error),
    };
    assert_eq!(batch.memory_size(), 48);
}

#[test]
fn take_rows_selects_in_index_order() {
    let batch = ColumnarBatch::try_new(
        schema(&["a", "b"]), cells_of(vec![vec![10, 11, 12, 13, 14], vec![-10, -11, -12, -13, -14]]));
    let batch = match batch {
        Ok(batch) => batch,
        Err(error) => panic!("unexpected {:?}", error),
    };
    let taken = batch.take_rows(&[4, 0, 2, 2]);
    assert_eq!(taken.num_rows(), 4);
    assert_eq!(taken.num_columns(), 2);
    assert_eq!(taken.column(0), &cells(vec![14, 10, 12, 12]));
    assert_eq!(taken.column(1), &cells(vec![-14, -10, -12, -12]));
    assert!(taken.schema().same_as(batch.schema()));
}

#[test]
fn take_rows_with_no_indices_is_empty() {
    let batch = ColumnarBatch::try_new(schema(&["a"]), cells_of(vec![vec![1, 2, 3]]));
    let batch = match batch {
        Ok(batch) => batch,
        Err(error) => panic!("unexpected {:?}", error),
    };
    let taken = batch.take_rows(&[]);
    assert_eq!(taken.num_rows(), 0);
    assert_eq!(taken.num_columns(), 1);
}

#[test]
fn take_rows_keeps_extreme_values() {
    let batch = ColumnarBatch::try_new(schema(&["a"]), cells_of(vec![vec![i64::MIN, 0, i64::MAX]]));
    let batch = match batch {
        Ok(batch) => batch,
        Err(error) => panic!("unexpected {:?}", error),
    };
    let taken = batch.take_rows(&[2, 0]);
    assert_eq!(taken.column(0), &cells(vec![i64::MAX, i64::MIN]));
}

#[test]
fn take_rows_keeps_null_cells() {
    let batch = ColumnarBatch::try_new(
        schema(&["a", "b"]),
        vec![vec![Some(1), None, Some(3), None], vec![None, Some(20), Some(30), None]],
    );
    let batch = match batch {
        Ok(batch) => batch,
        Err(error) => panic!("unexpected {:?}", error),
    };
    assert_eq!(batch.value(1, 0), None);
    assert_eq!(batch.value(1, 1), Some(20));
    let taken = batch.take_rows(&[3, 1, 0, 1]);
    assert_eq!(taken.column(0), &vec![None, None, Some(1), None]);
    assert_eq!(taken.column(1), &vec![None, Some(20), None, Some(20)]);
    assert_eq!(batch.memory_size(), 64);
}
