//! A cuckoo filter: a compact probabilistic set that answers approximate
//! membership queries with no false negatives and a bounded false-positive
//! rate, while supporting deletion.

pub mod buckets;
pub mod filter;
pub mod hashing;
pub mod render;

pub use filter::CuckooFilter;
