//! Data structures and algorithms with contracts that the verifier checks:
//! search trees, hash maps, a graph with its searches, a prefix code, and
//! routines that sort and search lists.

pub mod algoritms;
pub mod data_structures;
pub mod order;
pub mod slices;
pub mod std_specs;
