use vstd::prelude::*;

verus! {

/// The error kinds reported by the interval engine.
///
/// `InvalidRange` covers empty or negative-length intervals, a non-positive
/// bin or record length, and a negative alignment. `NormalizationFailure`
/// is returned when a division's denominator is exactly zero: a track
/// normalized by a zero weighted sum, or an overlap ratio over an empty
/// refinement. `OrderingViolation` is returned by the streaming merge zipper when a
/// source breaks the sortedness, alignment or record-length invariants.
/// `SourceEmpty` is returned where at least one source is required and none
/// was supplied. `Overflow` is returned when an exact rational computation
/// does not fit the fixed-width representation.
#[derive(Clone, Copy, Debug, PartialEq, Eq, Structural)]
pub enum Error {
    InvalidRange,
    NormalizationFailure,
    OrderingViolation,
    SourceEmpty,
    Overflow,
}

} // verus!
