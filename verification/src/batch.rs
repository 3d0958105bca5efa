//! Columnar batches: named, equal-length columns of nullable 64-bit values.
//!
//! A batch is immutable once built. Its mathematical view lists the column
//! names and the column contents; rows are read off the columns.

use arrow::array::AsArray;
use arrow::array::Int64Array;
use arrow::array::UInt64Array;
use arrow::datatypes::Int64Type;
use vstd::prelude::*;

verus! {

/// A cell of a batch: a 64-bit value, or null.
pub type Cell = Option<i64>;

/// A row of a batch: one cell per column, in column order.
pub type Row = Seq<Cell>;

/// Row positions as mathematical integers.
pub open spec fn as_positions(indices: Seq<usize>) -> Seq<int> {
    indices.map_values(|index: usize| index as int)
}

/// The rows of `rows` at `positions`, in the order of `positions`.
pub open spec fn select_rows(rows: Seq<Row>, positions: Seq<int>) -> Seq<Row> {
    Seq::new(positions.len(), |k: int| rows[positions[k]])
}

/// The ordered column names of a batch.
pub struct Schema {
    names: Vec<String>,
}

impl View for Schema {
    type V = Seq<Seq<char>>;

    closed spec fn view(&self) -> Seq<Seq<char>> {
        self.names@.map_values(|name: String| name@)
    }
}

impl Schema {
    /// A schema with the given column names, in order.
    pub fn new(names: Vec<String>) -> (schema: Schema)
        ensures
            schema@ == names@.map_values(|name: String| name@),
    {
        Schema { names }
    }

    /// Number of columns.
    pub fn len(&self) -> (n: usize)
        ensures
            n == self@.len(),
    {
        self.names.len()
    }

    /// Name of column `index`.
    pub fn name(&self, index: usize) -> (name: &String)
        requires
            index < self@.len(),
        ensures
            name@ == self@[index as int],
    {
        &self.names[index]
    }
}

impl Schema {
    /// Whether two schemas list the same column names in the same order.
    pub fn same_as(&self, other: &Schema) -> (same: bool)
        ensures
            same == (self@ == other@),
    {
        if self.names.len() != other.names.len() {
            assert(self@.len() != other@.len());
            return false;
        }
        let mut i: usize = 0;
        while i < self.names.len()
            invariant
                self.names@.len() == other.names@.len(),
                i <= self.names@.len(),
                forall|k: int| 0 <= k < i ==> self@[k] == other@[k],
            decreases self.names@.len() - i,
        {
            if self.names[i] != other.names[i] {
                assert(self@[i as int] != other@[i as int]);
                return false;
            }
            i += 1;
        }
        assert(self@ =~= other@);
        true
    }
}

impl Clone for Schema {
    fn clone(&self) -> (copy: Self)
        ensures
            copy@ == self@,
    {
        let mut names: Vec<String> = Vec::with_capacity(self.names.len());
        let mut i: usize = 0;
        while i < self.names.len()
            invariant
                i <= self.names.len(),
                names@ == self.names@.take(i as int),
            decreases self.names.len() - i,
        {
            names.push(self.names[i].clone());
            i += 1;
        }
        assert(names@ == self.names@);
        Schema { names }
    }
}

/// Mathematical content of a batch: column names and column values.
pub struct BatchView {
    pub names: Seq<Seq<char>>,
    pub columns: Seq<Seq<Cell>>,
}

impl BatchView {
    pub open spec fn num_columns(self) -> nat {
        self.columns.len()
    }

    /// Common length of the columns; a batch without columns has no rows.
    pub open spec fn num_rows(self) -> nat {
        if self.columns.len() == 0 {
            0
        } else {
            self.columns[0].len()
        }
    }

    /// One name per column, and all columns of equal length.
    pub open spec fn wf(self) -> bool {
        &&& self.names.len() == self.columns.len()
        &&& forall|c: int| 0 <= c < self.columns.len() ==> (#[trigger] self.columns[c]).len() == self.num_rows()
    }

    pub open spec fn row(self, r: int) -> Row {
        Seq::new(self.columns.len(), |c: int| self.columns[c][r])
    }

    /// The rows of the batch, top to bottom.
    pub open spec fn rows(self) -> Seq<Row> {
        Seq::new(self.num_rows(), |r: int| self.row(r))
    }

    /// Estimated memory footprint in bytes: eight bytes per cell, null or
    /// not.
    pub open spec fn footprint(self) -> nat {
        8 * self.num_columns() * self.num_rows()
    }
}

/// Views of a vector of columns.
pub open spec fn columns_view(columns: Seq<Vec<Cell>>) -> Seq<Seq<Cell>> {
    columns.map_values(|column: Vec<Cell>| column@)
}

/// Why a set of columns does not form a batch.
#[derive(Clone, Copy, Debug, PartialEq, Eq, Structural)]
pub enum BatchError {
    /// The number of columns differs from the number of names in the schema.
    ColumnCountMismatch,
    /// Two columns differ in length.
    ColumnLengthMismatch,
}

/// An immutable batch of rows stored column by column.
pub struct ColumnarBatch {
    schema: Schema,
    columns: Vec<Vec<Cell>>,
}

impl View for ColumnarBatch {
    type V = BatchView;

    closed spec fn view(&self) -> BatchView {
        BatchView { names: self.schema@, columns: columns_view(self.columns@) }
    }
}

impl ColumnarBatch {
    /// Every batch handed out by this module is well formed.
    pub open spec fn wf(&self) -> bool {
        self@.wf()
    }

    /// Builds a batch from a schema and one column per name.
    ///
    /// Fails when the column count does not match the schema, or, failing
    /// that, when the columns are not all of one length.
    pub fn try_new(schema: Schema, columns: Vec<Vec<Cell>>) -> (result: Result<ColumnarBatch, BatchError>)
        ensures
            match result {
                Ok(batch) => {
                    &&& batch.wf()
                    &&& batch@.names == schema@
                    &&& batch@.columns == columns_view(columns@)
                },
                Err(BatchError::ColumnCountMismatch) => columns@.len() != schema@.len(),
                Err(BatchError::ColumnLengthMismatch) => {
                    &&& columns@.len() == schema@.len()
                    &&& exists|c: int| 0 <= c < columns@.len() && (#[trigger] columns@[c])@.len() != columns@[0]@.len()
                },
            },
    {
        if columns.len() != schema.len() {
            return Err(BatchError::ColumnCountMismatch);
        }
        let mut c: usize = 1;
        while c < columns.len()
            invariant
                1 <= c,
                columns@.len() == schema@.len(),
                forall|k: int| 0 <= k < c && k < columns@.len() ==> (#[trigger] columns@[k])@.len() == columns@[0]@.len(),
            decreases columns.len() - c,
        {
            if columns[c].len() != columns[0].len() {
                return Err(BatchError::ColumnLengthMismatch);
            }
            c += 1;
        }
        Ok(ColumnarBatch::from_columns(schema, columns))
    }

    /// Assembles a batch from columns that are known to match the schema.
    pub(crate) fn from_columns(schema: Schema, columns: Vec<Vec<Cell>>) -> (batch: ColumnarBatch)
        requires
            columns@.len() == schema@.len(),
            forall|c: int| 0 <= c < columns@.len() ==> (#[trigger] columns@[c])@.len() == columns@[0]@.len(),
        ensures
            batch.wf(),
            batch@.names == schema@,
            batch@.columns == columns_view(columns@),
    {
        let batch = ColumnarBatch { schema, columns };
        assert(batch@.wf()) by {
            assert forall|k: int| 0 <= k < batch@.columns.len() implies (#[trigger] batch@.columns[k]).len()
                == batch@.num_rows() by {
                assert(batch@.columns[k] == columns@[k]@);
                assert(batch@.columns[0] == columns@[0]@);
            }
        }
        batch
    }

    /// The schema of the batch.
    pub fn schema(&self) -> (schema: &Schema)
        ensures
            schema@ == self@.names,
    {
        &self.schema
    }

    /// Number of columns.
    pub fn num_columns(&self) -> (n: usize)
        ensures
            n == self@.num_columns(),
    {
        self.columns.len()
    }

    /// Number of rows.
    pub fn num_rows(&self) -> (n: usize)
        ensures
            n == self@.num_rows(),
    {
        if self.columns.len() == 0 {
            0
        } else {
            assert(self@.columns[0] == self.columns@[0]@);
            self.columns[0].len()
        }
    }

    /// The values of column `index`, top to bottom.
    pub fn column(&self, index: usize) -> (column: &Vec<Cell>)
        requires
            index < self@.num_columns(),
        ensures
            column@ == self@.columns[index as int],
    {
        &self.columns[index]
    }

    /// The cell at row `row` of column `column`.
    pub fn value(&self, row: usize, column: usize) -> (cell: Cell)
        requires
            self.wf(),
            row < self@.num_rows(),
            column < self@.num_columns(),
        ensures
            cell == self@.rows()[row as int][column as int],
    {
        assert(self@.columns[column as int] == self.columns@[column as int]@);
        self.columns[column][row]
    }

    /// Estimated memory footprint of the batch in bytes, eight per cell,
    /// capped at `usize::MAX`.
    pub fn memory_size(&self) -> (bytes: usize)
        ensures
            bytes == if self@.footprint() > usize::MAX {
                usize::MAX as nat
            } else {
                self@.footprint()
            },
    {
        let columns = self.num_columns();
        let rows = self.num_rows();
        match columns.checked_mul(rows) {
            Some(cells) => match cells.checked_mul(8) {
                Some(bytes) => {
                    assert(8 * (columns * rows) == 8 * columns * rows) by (nonlinear_arith);
                    bytes
                },
                None => {
                    assert(8 * (columns * rows) == 8 * columns * rows) by (nonlinear_arith);
                    usize::MAX
                },
            },
            None => {
                assert(8 * columns * rows >= columns * rows) by (nonlinear_arith);
                usize::MAX
            },
        }
    }

    /// The rows at positions `indices`, in that order, as a batch of their
    /// own under the same schema: column-wise bulk selection.
    pub fn take_rows(&self, indices: &[usize]) -> (taken: ColumnarBatch)
        requires
            self.wf(),
            forall|k: int| 0 <= k < indices@.len() ==> indices@[k] < self@.num_rows(),
        ensures
            taken.wf(),
            taken@.names == self@.names,
            taken@.num_columns() == self@.num_columns(),
            taken@.rows() == select_rows(self@.rows(), as_positions(indices@)),
    {
        let mut columns: Vec<Vec<Cell>> = Vec::with_capacity(self.columns.len());
        let mut c: usize = 0;
        while c < self.columns.len()
            invariant
                self.wf(),
                c <= self.columns@.len(),
                columns@.len() == c,
                forall|k: int| 0 <= k < indices@.len() ==> indices@[k] < self@.num_rows(),
                forall|j: int| 0 <= j < c ==> (#[trigger] columns@[j])@ == taken_values(
                    self.columns@[j]@,
                    indices@,
                ),
            decreases self.columns@.len() - c,
        {
            assert(self@.columns[c as int] == self.columns@[c as int]@);
            let column = take_values(&self.columns[c], indices);
            columns.push(column);
            c += 1;
        }
        let taken = ColumnarBatch::from_columns(self.schema.clone(), columns);
        proof {
            assert forall|r: int| 0 <= r < indices@.len() implies #[trigger] taken@.rows()[r] == select_rows(
                self@.rows(),
                as_positions(indices@),
            )[r] by {
                assert forall|k: int| 0 <= k < self@.columns.len() implies taken@.rows()[r][k]
                    == self@.rows()[indices@[r] as int][k] by {
                    assert(taken@.columns[k] == columns@[k]@);
                    assert(self@.columns[k] == self.columns@[k]@);
                }
                assert(taken@.rows()[r] =~= self@.rows()[indices@[r] as int]);
            }
            if taken@.columns.len() > 0 {
                assert(taken@.columns[0] == columns@[0]@);
            } else if indices@.len() > 0 {
                assert(indices@[0] < self@.num_rows());
            }
            assert(taken@.rows() =~= select_rows(self@.rows(), as_positions(indices@)));
        }
        taken
    }
}

/// The values of `values` at the positions `indices`, in the order of
/// `indices`.
pub open spec fn taken_values(values: Seq<Cell>, indices: Seq<usize>) -> Seq<Cell> {
    Seq::new(indices.len(), |k: int| values[indices[k] as int])
}

/// Selects the cells of one column at the given positions with Arrow's
/// `take` kernel (`arrow::compute::take`), on an `Int64` array and non-null
/// `UInt64` indices.
///
/// Trusted: for in-bounds positions the kernel returns one cell per
/// position, the cell found at that position, null where that cell is null,
/// in the order of the positions. Out-of-bounds positions make the kernel
/// panic and are excluded.
#[verifier::external_body]
fn take_values(values: &Vec<Cell>, indices: &[usize]) -> (taken: Vec<Cell>)
    requires
        forall|k: int| 0 <= k < indices@.len() ==> indices@[k] < values@.len(),
    ensures
        taken@ == taken_values(values@, indices@),
{
    let source = Int64Array::from(values.clone());
    let positions = UInt64Array::from_iter_values(indices.iter().map(|&index| index as u64));
    let picked = arrow::compute::take(&source, &positions, None).expect("take on a primitive column");
    picked.as_primitive::<Int64Type>().iter().collect()
}

} // verus!
