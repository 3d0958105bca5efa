//! Assignment of rows to output partitions.
//!
//! Every row gets a hash of its key cells, and the hash is reduced to a
//! partition index by the remainder modulo the partition count. Both steps
//! are pure functions of their arguments. Hashes are carried in 64 bits, so
//! that hashes computed elsewhere are reduced by the same rule; the hash of
//! this module fills the lower 32 of them.

use crate::batch::Cell;
use crate::batch::ColumnarBatch;
use crate::batch::Row;
use vstd::prelude::*;

verus! {

/// How rows are spread over output partitions: the key columns that are
/// hashed, the seed the hash starts from, and the number of partitions.
pub struct PartitioningScheme {
    key_columns: Vec<usize>,
    seed: u32,
    num_partitions: usize,
}

impl PartitioningScheme {
    /// A hash partitioning over `key_columns` into `num_partitions` parts.
    pub fn new(key_columns: Vec<usize>, seed: u32, num_partitions: usize) -> (scheme: PartitioningScheme)
        ensures
            scheme.keys() == key_columns@,
            scheme.hash_seed() == seed,
            scheme.count() == num_partitions,
    {
        PartitioningScheme { key_columns, seed, num_partitions }
    }

    /// The hashed columns, in hashing order.
    pub closed spec fn keys(&self) -> Seq<usize> {
        self.key_columns@
    }

    /// The value every row hash starts from.
    pub closed spec fn hash_seed(&self) -> u32 {
        self.seed
    }

    /// The number of output partitions.
    pub closed spec fn count(&self) -> usize {
        self.num_partitions
    }

    /// Every key column exists in a batch of `num_columns` columns.
    pub open spec fn fits(&self, num_columns: nat) -> bool {
        forall|k: int| 0 <= k < self.keys().len() ==> self.keys()[k] < num_columns
    }

    /// The number of output partitions.
    pub fn partition_count(&self) -> (n: usize)
        ensures
            n == self.count(),
    {
        self.num_partitions
    }

    /// The hashed columns, in hashing order.
    pub fn key_columns(&self) -> (keys: &Vec<usize>)
        ensures
            keys@ == self.keys(),
    {
        &self.key_columns
    }

    /// The value every row hash starts from.
    pub fn seed(&self) -> (seed: u32)
        ensures
            seed == self.hash_seed(),
    {
        self.seed
    }

    /// Whether every key column exists in a batch of `num_columns` columns.
    pub fn fits_columns(&self, num_columns: usize) -> (ok: bool)
        ensures
            ok == self.fits(num_columns as nat),
    {
        let mut k: usize = 0;
        while k < self.key_columns.len()
            invariant
                k <= self.key_columns@.len(),
                forall|j: int| 0 <= j < k ==> self.key_columns@[j] < num_columns,
            decreases self.key_columns@.len() - k,
        {
            if self.key_columns[k] >= num_columns {
                assert(self.keys()[k as int] >= num_columns);
                return false;
            }
            k += 1;
        }
        true
    }
}

/// The number that stands for a cell in the hash: the offset of its value
/// from `i64::MIN`, and zero for null.
pub open spec fn cell_code(cell: Cell) -> int {
    match cell {
        Some(value) => value - i64::MIN,
        None => 0,
    }
}

/// Folds one cell into a running hash: the hash times 31, plus the low and
/// the high half of the cell's code, modulo 2^32.
pub open spec fn mix(hash: u32, cell: Cell) -> u32 {
    let code = cell_code(cell);
    ((hash * 31 + code % 0x1_0000_0000 + code / 0x1_0000_0000) % 0x1_0000_0000) as u32
}

/// The hash of a row: the seed with the row's key cells folded in, in key
/// order.
pub open spec fn row_hash(row: Row, keys: Seq<usize>, seed: u32) -> u32
    decreases keys.len(),
{
    if keys.len() == 0 {
        seed
    } else {
        mix(row_hash(row, keys.drop_last(), seed), row[keys.last() as int])
    }
}

/// One hash per row.
pub open spec fn batch_hashes(rows: Seq<Row>, keys: Seq<usize>, seed: u32) -> Seq<u64> {
    Seq::new(rows.len(), |r: int| row_hash(rows[r], keys, seed) as u64)
}

/// The partition that a row with hash `hash` belongs to among `n`
/// partitions: the remainder of the unsigned hash modulo `n`.
pub open spec fn bucket_of(hash: u64, n: usize) -> int {
    hash as int % n as int
}

/// One partition index per hash.
pub open spec fn partition_ids_of(hashes: Seq<u64>, n: usize) -> Seq<usize> {
    Seq::new(hashes.len(), |i: int| bucket_of(hashes[i], n) as usize)
}

/// The partition indices of the rows of a batch under a scheme.
pub open spec fn assignment(rows: Seq<Row>, scheme: PartitioningScheme) -> Seq<usize> {
    partition_ids_of(batch_hashes(rows, scheme.keys(), scheme.hash_seed()), scheme.count())
}

/// Every partition index lies in `[0, n)`; with a single partition every row
/// goes to partition 0.
pub proof fn lemma_partition_ids_in_range(hashes: Seq<u64>, n: usize)
    requires
        n >= 1,
    ensures
        partition_ids_of(hashes, n).len() == hashes.len(),
        forall|i: int| 0 <= i < hashes.len() ==> 0 <= #[trigger] partition_ids_of(hashes, n)[i] < n,
        n == 1 ==> forall|i: int| 0 <= i < hashes.len() ==> #[trigger] partition_ids_of(hashes, n)[i] == 0,
{
}

/// Assignment is deterministic: computing the partition indices of the same
/// rows under the same scheme twice gives the same index for every row.
pub proof fn lemma_assignment_deterministic(
    rows: Seq<Row>,
    scheme: PartitioningScheme,
    first: Seq<usize>,
    second: Seq<usize>,
)
    requires
        first == assignment(rows, scheme),
        second == assignment(rows, scheme),
    ensures
        first == second,
{
}

/// Folds one cell into a running hash.
pub fn mix_cell(hash: u32, cell: Cell) -> (mixed: u32)
    ensures
        mixed == mix(hash, cell),
{
    let code: u64 = match cell {
        Some(value) => (value as i128 + 0x8000_0000_0000_0000i128) as u64,
        None => 0,
    };
    let low: u64 = code % 0x1_0000_0000;
    let high: u64 = code / 0x1_0000_0000;
    let sum: u64 = (hash as u64) * 31 + low + high;
    (sum % 0x1_0000_0000) as u32
}

/// Reduces a row hash to a partition index in `[0, num_partitions)`.
pub fn compute_bucket(hash: u64, num_partitions: usize) -> (bucket: usize)
    requires
        num_partitions >= 1,
    ensures
        bucket == bucket_of(hash, num_partitions),
        bucket < num_partitions,
{
    let reduced: u64 = hash % (num_partitions as u64);
    reduced as usize
}

/// Hashes every row of `batch` over the key columns of `partitioning`.
///
/// The result depends on nothing but the key cells, the key order and the
/// seed; an empty batch yields no hashes.
pub fn evaluate_hashes(partitioning: &PartitioningScheme, batch: &ColumnarBatch) -> (hashes: Vec<u64>)
    requires
        batch.wf(),
        partitioning.fits(batch@.num_columns()),
    ensures
        hashes@ == batch_hashes(batch@.rows(), partitioning.keys(), partitioning.hash_seed()),
{
    let num_rows = batch.num_rows();
    let ghost rows = batch@.rows();
    let ghost keys = partitioning.keys();
    let seed = partitioning.seed;
    let mut hashes_buf = vec![seed as u64; num_rows];
    assert(keys.take(0) =~= Seq::<usize>::empty());
    let mut k: usize = 0;
    while k < partitioning.key_columns.len()
        invariant
            batch.wf(),
            partitioning.fits(batch@.num_columns()),
            rows == batch@.rows(),
            keys == partitioning.keys(),
            seed == partitioning.hash_seed(),
            num_rows == batch@.num_rows(),
            k <= keys.len(),
            hashes_buf@.len() == num_rows,
            forall|r: int| 0 <= r < num_rows ==> #[trigger] hashes_buf@[r] == row_hash(rows[r], keys.take(k as int), seed),
            forall|r: int| 0 <= r < num_rows ==> #[trigger] hashes_buf@[r] <= u32::MAX,
        decreases keys.len() - k,
    {
        let key = partitioning.key_columns[k];
        let column = batch.column(key);
        let ghost before = hashes_buf@;
        assert(keys.take(k + 1).drop_last() =~= keys.take(k as int));
        let mut r: usize = 0;
        while r < num_rows
            invariant
                batch.wf(),
                rows == batch@.rows(),
                num_rows == batch@.num_rows(),
                key < batch@.num_columns(),
                column@ == batch@.columns[key as int],
                r <= num_rows,
                hashes_buf@.len() == num_rows,
                before.len() == num_rows,
                forall|i: int| 0 <= i < num_rows ==> #[trigger] before[i] <= u32::MAX,
                forall|i: int| 0 <= i < r ==> #[trigger] hashes_buf@[i] == mix(before[i] as u32, rows[i][key as int]),
                forall|i: int| r <= i < num_rows ==> #[trigger] hashes_buf@[i] == before[i],
            decreases num_rows - r,
        {
            let mixed = mix_cell(hashes_buf[r] as u32, column[r]);
            hashes_buf[r] = mixed as u64;
            r += 1;
        }
        k += 1;
    }
    assert(keys.take(keys.len() as int) =~= keys);
    assert(hashes_buf@ =~= batch_hashes(rows, keys, seed));
    hashes_buf
}

/// Reduces every hash to its partition index.
pub fn evaluate_partition_ids(hashes: &[u64], num_partitions: usize) -> (partition_ids: Vec<usize>)
    requires
        num_partitions >= 1,
    ensures
        partition_ids@ == partition_ids_of(hashes@, num_partitions),
        forall|i: int| 0 <= i < partition_ids@.len() ==> partition_ids@[i] < num_partitions,
{
    let mut partition_ids: Vec<usize> = Vec::with_capacity(hashes.len());
    let mut i: usize = 0;
    while i < hashes.len()
        invariant
            num_partitions >= 1,
            i <= hashes@.len(),
            partition_ids@.len() == i,
            forall|j: int| 0 <= j < i ==> #[trigger] partition_ids@[j] == bucket_of(hashes@[j], num_partitions),
        decreases hashes@.len() - i,
    {
        partition_ids.push(compute_bucket(hashes[i], num_partitions));
        i += 1;
    }
    assert(partition_ids@ =~= partition_ids_of(hashes@, num_partitions));
    partition_ids
}

} // verus!
