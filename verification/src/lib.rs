//! Marshalling layer for density-based clustering over a host-language
//! boundary.
//!
//! The clustering algorithms themselves (DBSCAN, HDBSCAN, OPTICS) are an
//! external collaborator; this crate states and proves the data-marshalling
//! contract around them: converting a column-major host matrix into a native
//! array without reordering values, renumbering cluster assignments into
//! contiguous 1-based labels with explicit missing markers, and translating
//! partial seed labels between the host's 1-based and the native 0-based
//! index convention.

pub mod cluster;
pub mod error;
pub mod labels;
pub mod matrix;
pub mod metric;
