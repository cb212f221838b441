//! Free probability combinatorics: non-crossing partitions of {1, ..., n}, their
//! enumeration, the Möbius function on the non-crossing lattice, Catalan numbers
//! and binomial coefficients, with their contracts proved by Verus.

pub mod complement;
pub mod counting;
pub mod kreweras;
pub mod enumeration;
pub mod numbers;
pub mod partition;
pub mod rng;
pub mod sets;
pub mod theorems;

pub use numbers::binomial;
pub use partition::{catalan, nc_partition_count, NCPartition, PartitionError};
