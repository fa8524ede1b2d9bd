use vstd::prelude::*;

verus! {

/// Faults raised at the host boundary.
///
/// Every variant marks a caller-contract violation, never a data-quality
/// condition: the caller must validate its input before invoking this layer,
/// so no retry or recovery path exists and no partial result is returned
/// alongside one of these.
#[derive(Clone, Copy, Debug, PartialEq, Eq, Structural)]
pub enum MarshalError {
    /// The metric name matched none of the supported metrics exactly.
    UnknownMetric,
    /// A partial-label group name is not a decimal cluster id that fits the
    /// native index type.
    LabelNameNotNumeric,
    /// A partial-label point index is not a representable 1-based index.
    LabelIndexOutOfRange,
}

} // verus!
