//! Error values returned by the library.

use vstd::prelude::*;

verus! {

/// A call was made with arguments that break the callee's stated conditions.
#[derive(Debug, Clone, Copy, PartialEq, Eq, Structural)]
pub enum InvalidArgument {
    /// Two sequences that must be aligned index for index differ in length.
    LengthMismatch,
    /// The simplification tolerance is below zero.
    NegativeTolerance,
    /// An unsigned sequence that must never decrease does so.
    Decreasing,
    /// A difference or a running sum does not fit the element type.
    OutOfRange,
}

/// A numeric conversion could not produce a representable value.
#[derive(Debug, Clone, Copy, PartialEq, Eq, Structural)]
pub enum ValueError {
    /// The instant lies before the epoch, so it has no unsigned second count.
    TimestampOutOfRange,
    /// The decimal coordinate cannot be held as a 64-bit count of microdegrees.
    CoordinateOutOfRange,
}

} // verus!
