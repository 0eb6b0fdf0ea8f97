//! Least-significant-digit radix sorts over `i32`, verified with Verus.
//!
//! Two functions sort a slice in place, in ascending order:
//! [`radix_sort`] distributes the elements into 256 growable buckets per
//! pass; [`faster_radix_sort`] counts the digits in advance and writes each
//! element straight to its place in a second buffer. Both make four passes,
//! one per byte from the least to the most significant, and both are proved
//! to leave in the slice the values it held, in ascending order
//! ([`order::is_sort_of`]).
//!
//! - [`digit`]: the byte-wise digits of a key, and their extraction.
//! - [`pass`]: one pass as a function on sequences, and why four passes sort.
//! - [`order`]: what "sorted" means, and what holds of every sort.
//! - [`bucket_sort`], [`counting_sort`]: the two sorts.
//! - [`generator`]: reproducible input for tests and benchmarks.

pub mod bucket_sort;
pub mod counting_sort;
pub mod digit;
pub mod generator;
pub mod order;
pub mod pass;

pub use bucket_sort::radix_sort;
pub use counting_sort::faster_radix_sort;
pub use generator::generate_unsorted;
