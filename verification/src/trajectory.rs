//! Trajectories: three parallel sequences of fixed-point samples.

use crate::delta::{
    decode_i64, decode_u64, deltas, encode_i64, encode_u64, fits_i64, fits_u64, non_decreasing,
    prefix_sums, signed_ints, unsigned_ints,
};
use crate::error::{InvalidArgument, ValueError};
use crate::filter::{filter, retained};
use crate::point::Point;
use crate::proto;
use vstd::prelude::*;

verus! {

/// One fixed-point sample: microdegrees and whole seconds since the epoch.
#[derive(Debug, Clone, Copy, PartialEq, Eq, Structural)]
pub struct Sample {
    pub latitude: i64,
    pub longitude: i64,
    pub timestamp: u64,
}

/// A sequence of samples, held as three sequences that correspond index by
/// index.
#[derive(Debug, Clone, PartialEq, Eq)]
pub struct Trajectory {
    /// Latitudes in microdegrees.
    pub latitudes: Vec<i64>,
    /// Longitudes in microdegrees.
    pub longitudes: Vec<i64>,
    /// Whole seconds since the Unix epoch.
    pub timestamps: Vec<u64>,
}

/// The fixed-point sample of a raw sample, or why it has none.
///
/// The timestamp must not lie before the epoch, and both coordinates must
/// have a 64-bit microdegree count. The timestamp is looked at first.
pub open spec fn sample_of(point: Point) -> Result<Sample, ValueError> {
    if point.timestamp < 0 {
        Err(ValueError::TimestampOutOfRange)
    } else {
        match (point.latitude.coordinate(), point.longitude.coordinate()) {
            (Some(latitude), Some(longitude)) => Ok(
                Sample { latitude, longitude, timestamp: point.timestamp as u64 },
            ),
            _ => Err(ValueError::CoordinateOutOfRange),
        }
    }
}

/// Raw sample `i` is the first that has no fixed-point sample, and `e` is why.
pub open spec fn first_failure(points: Seq<Point>, i: int, e: ValueError) -> bool {
    &&& 0 <= i < points.len()
    &&& sample_of(points[i]) == Err::<Sample, ValueError>(e)
    &&& forall|j: int| 0 <= j < i ==> sample_of(#[trigger] points[j]) is Ok
}

impl Sample {
    /// Converts a raw sample to fixed point.
    pub fn build(point: &Point) -> (r: Result<Sample, ValueError>)
        ensures
            r == sample_of(*point),
    {
        if point.timestamp < 0 {
            return Err(ValueError::TimestampOutOfRange);
        }
        let latitude = match point.latitude.scale_coordinate() {
            Some(v) => v,
            None => {
                return Err(ValueError::CoordinateOutOfRange);
            },
        };
        let longitude = match point.longitude.scale_coordinate() {
            Some(v) => v,
            None => {
                return Err(ValueError::CoordinateOutOfRange);
            },
        };
        Ok(Sample { latitude, longitude, timestamp: point.timestamp as u64 })
    }
}

impl Trajectory {
    /// The three sequences have one length.
    pub open spec fn wf(&self) -> bool {
        self.latitudes@.len() == self.longitudes@.len() && self.latitudes@.len()
            == self.timestamps@.len()
    }

    /// The number of samples of a well-formed trajectory.
    pub open spec fn spec_len(&self) -> nat {
        self.latitudes@.len()
    }

    /// Every first difference of the latitudes and of the longitudes fits an
    /// `i64`.
    pub open spec fn coordinate_steps_fit(&self) -> bool {
        fits_i64(deltas(signed_ints(self.latitudes@))) && fits_i64(
            deltas(signed_ints(self.longitudes@)),
        )
    }

    /// Sample `i` of a well-formed trajectory.
    pub open spec fn sample(&self, i: int) -> Sample {
        Sample {
            latitude: self.latitudes@[i],
            longitude: self.longitudes@[i],
            timestamp: self.timestamps@[i],
        }
    }

    /// Converts raw samples to a trajectory, in their order.
    ///
    /// Succeeds exactly when every raw sample has a fixed-point sample;
    /// otherwise the first that has none decides the error.
    pub fn new(points: Vec<Point>) -> (r: Result<Trajectory, ValueError>)
        ensures
            r is Ok <==> forall|i: int|
                0 <= i < points@.len() ==> sample_of(#[trigger] points@[i]) is Ok,
            r matches Ok(t) ==> t.wf() && t.spec_len() == points@.len(),
            r matches Ok(t) ==> forall|i: int|
                0 <= i < points@.len() ==> sample_of(#[trigger] points@[i]) == Ok::<Sample, ValueError>(
                    t.sample(i),
                ),
            r matches Err(e) ==> exists|i: int| first_failure(points@, i, e),
    {
        let capacity = points.len();
        let mut trajectory = Trajectory {
            latitudes: Vec::with_capacity(capacity),
            longitudes: Vec::with_capacity(capacity),
            timestamps: Vec::with_capacity(capacity),
        };
        let mut i: usize = 0;
        while i < points.len()
            invariant
                i <= points.len(),
                trajectory.wf(),
                trajectory.spec_len() == i,
                forall|j: int|
                    0 <= j < i ==> sample_of(#[trigger] points@[j]) == Ok::<Sample, ValueError>(
                        trajectory.sample(j),
                    ),
            decreases points.len() - i,
        {
            match Sample::build(&points[i]) {
                Ok(sample) => {
                    trajectory.latitudes.push(sample.latitude);
                    trajectory.longitudes.push(sample.longitude);
                    trajectory.timestamps.push(sample.timestamp);
                },
                Err(e) => {
                    assert(first_failure(points@, i as int, e));
                    return Err(e);
                },
            }
            i += 1;
        }
        Ok(trajectory)
    }

    /// The trajectory with only the samples that `mask` keeps, in order.
    ///
    /// Fails exactly when one of the three sequences differs in length from
    /// the mask.
    pub fn filter(&self, mask: &[bool]) -> (r: Result<Trajectory, InvalidArgument>)
        ensures
            r is Ok <==> self.latitudes@.len() == mask@.len() && self.longitudes@.len()
                == mask@.len() && self.timestamps@.len() == mask@.len(),
            r matches Ok(t) ==> t.wf(),
            r matches Ok(t) ==> t.latitudes@ == retained(self.latitudes@, mask@),
            r matches Ok(t) ==> t.longitudes@ == retained(self.longitudes@, mask@),
            r matches Ok(t) ==> t.timestamps@ == retained(self.timestamps@, mask@),
            r matches Err(e) ==> e == InvalidArgument::LengthMismatch,
    {
        let latitudes = match filter(self.latitudes.as_slice(), mask) {
            Ok(v) => v,
            Err(e) => {
                return Err(e);
            },
        };
        let longitudes = match filter(self.longitudes.as_slice(), mask) {
            Ok(v) => v,
            Err(e) => {
                return Err(e);
            },
        };
        let timestamps = match filter(self.timestamps.as_slice(), mask) {
            Ok(v) => v,
            Err(e) => {
                return Err(e);
            },
        };
        Ok(Trajectory { latitudes, longitudes, timestamps })
    }

    /// The record of first differences of the three sequences.
    ///
    /// Succeeds exactly when every difference of latitudes and of longitudes
    /// fits an `i64` and the timestamps never decrease. Coordinates are
    /// looked at first.
    pub fn to_delta_proto(&self) -> (r: Result<proto::Trajectory, InvalidArgument>)
        ensures
            r is Ok <==> self.coordinate_steps_fit() && non_decreasing(self.timestamps@),
            r matches Ok(record) ==> signed_ints(record.latitudes@) == deltas(
                signed_ints(self.latitudes@),
            ),
            r matches Ok(record) ==> signed_ints(record.longitudes@) == deltas(
                signed_ints(self.longitudes@),
            ),
            r matches Ok(record) ==> unsigned_ints(record.timestamps@) == deltas(
                unsigned_ints(self.timestamps@),
            ),
            r matches Err(e) ==> e == (if self.coordinate_steps_fit() {
                InvalidArgument::Decreasing
            } else {
                InvalidArgument::OutOfRange
            }),
    {
        let latitudes = match encode_i64(self.latitudes.as_slice()) {
            Ok(v) => v,
            Err(e) => {
                return Err(e);
            },
        };
        let longitudes = match encode_i64(self.longitudes.as_slice()) {
            Ok(v) => v,
            Err(e) => {
                return Err(e);
            },
        };
        let timestamps = match encode_u64(self.timestamps.as_slice()) {
            Ok(v) => v,
            Err(e) => {
                return Err(e);
            },
        };
        Ok(proto::Trajectory { latitudes, longitudes, timestamps })
    }

    /// The trajectory whose first differences `record` holds.
    ///
    /// Succeeds exactly when every running sum fits its element type.
    pub fn from_delta_proto(record: &proto::Trajectory) -> (r: Result<Trajectory, InvalidArgument>)
        ensures
            r is Ok <==> fits_i64(prefix_sums(signed_ints(record.latitudes@))) && fits_i64(
                prefix_sums(signed_ints(record.longitudes@)),
            ) && fits_u64(prefix_sums(unsigned_ints(record.timestamps@))),
            r matches Ok(t) ==> signed_ints(t.latitudes@) == prefix_sums(
                signed_ints(record.latitudes@),
            ),
            r matches Ok(t) ==> signed_ints(t.longitudes@) == prefix_sums(
                signed_ints(record.longitudes@),
            ),
            r matches Ok(t) ==> unsigned_ints(t.timestamps@) == prefix_sums(
                unsigned_ints(record.timestamps@),
            ),
            r matches Err(e) ==> e == InvalidArgument::OutOfRange,
    {
        let latitudes = match decode_i64(record.latitudes.as_slice()) {
            Ok(v) => v,
            Err(e) => {
                return Err(e);
            },
        };
        let longitudes = match decode_i64(record.longitudes.as_slice()) {
            Ok(v) => v,
            Err(e) => {
                return Err(e);
            },
        };
        let timestamps = match decode_u64(record.timestamps.as_slice()) {
            Ok(v) => v,
            Err(e) => {
                return Err(e);
            },
        };
        Ok(Trajectory { latitudes, longitudes, timestamps })
    }

    /// The record of the three sequences as they are.
    pub fn to_proto(&self) -> (record: proto::Trajectory)
        ensures
            record.latitudes@ == self.latitudes@,
            record.longitudes@ == self.longitudes@,
            record.timestamps@ == self.timestamps@,
    {
        let latitudes = self.latitudes.clone();
        let longitudes = self.longitudes.clone();
        let timestamps = self.timestamps.clone();
        assert(latitudes@ =~= self.latitudes@);
        assert(longitudes@ =~= self.longitudes@);
        assert(timestamps@ =~= self.timestamps@);
        proto::Trajectory { latitudes, longitudes, timestamps }
    }
}

} // verus!
