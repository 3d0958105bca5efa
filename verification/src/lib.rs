//! A verified bucket repartitioner for shuffle writes.
//!
//! Batches of rows are assigned to output partitions by hash, staged in one
//! column-oriented buffer per partition, and released to a shuffle sink when
//! a buffer reaches its flush threshold, when memory has to be given back,
//! or when the shuffle is finalized.
//!
//! The library decides and never writes: every operation returns the sink
//! writes it has decided on, and the caller performs them in order. Every
//! operation over all partitions is also available one partition at a
//! time, for callers that write, and may fail, between the steps.
//!
//! * [`batch`]: columnar batches and bulk row selection.
//! * [`assigner`]: row hashes and their reduction to partition indices.
//! * [`grouping`]: grouping of row positions by partition.
//! * [`buffer`]: the staging buffer of one partition, its Arrow column
//!   builders and its threshold.
//! * [`repartitioner`]: the repartitioner over all partitions, with its
//!   memory accounting.
//! * [`conservation`]: proofs that no row is lost or duplicated on the way
//!   to the sink.

pub mod assigner;
pub mod batch;
pub mod buffer;
pub mod conservation;
pub mod grouping;
pub mod repartitioner;
