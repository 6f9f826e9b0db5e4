//! The record that is handed to a serializer.

use vstd::prelude::*;

verus! {

/// Three parallel sequences in the shape of the wire message: latitudes and
/// longitudes in microdegrees, timestamps in seconds. The entries are
/// absolute values or first differences, as the producer says.
#[derive(Debug, Clone, PartialEq, Eq)]
pub struct Trajectory {
    pub latitudes: Vec<i64>,
    pub longitudes: Vec<i64>,
    pub timestamps: Vec<u64>,
}

} // verus!
