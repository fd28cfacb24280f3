//! Partitioned prime search.
//!
//! A dataset of integers is cut into contiguous slices, one per worker; each
//! worker collects the primes of its slice, and the per-worker counts are
//! summed into a grand total. Every function here is pure: the callers decide
//! how the workers are scheduled and where the rendered lines are written.

pub mod oracle;
pub mod error;
pub mod partition;
pub mod worker;
pub mod coordinator;
pub mod input;
pub mod sink;
pub mod interleave;
