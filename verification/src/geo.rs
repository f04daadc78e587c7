use vstd::prelude::*;

verus! {

/// Latitude bound, in microdegrees.
pub const LAT_LIMIT: i64 = 90_000_000;
/// Longitude bound, in microdegrees.
pub const LON_LIMIT: i64 = 180_000_000;

/// A point on the surface, held in microdegrees so that the registry's
/// geometry is exact integer arithmetic.
#[derive(Clone, Copy, PartialEq, Eq, Structural, Debug)]
pub struct Position {
    pub lat_micro: i64,
    pub lon_micro: i64,
}

impl Position {
    /// Coordinates lie on the globe.
    pub open spec fn wf(self) -> bool {
        &&& -LAT_LIMIT <= self.lat_micro <= LAT_LIMIT
        &&& -LON_LIMIT <= self.lon_micro <= LON_LIMIT
    }
}

/// Grid distance between a position and the observer: the sum of the absolute
/// coordinate differences, in microdegrees. One distance unit is one
/// microdegree of combined offset; the measure is deterministic and total.
pub open spec fn distance_spec(p: Position, observer: Position) -> int {
    abs_diff(p.lat_micro as int, observer.lat_micro as int)
        + abs_diff(p.lon_micro as int, observer.lon_micro as int)
}

/// The absolute difference of two integers.
pub open spec fn abs_diff(a: int, b: int) -> int {
    if a >= b {
        a - b
    } else {
        b - a
    }
}

/// Computes the grid distance between a position and the observer.
pub fn distance(p: &Position, observer: &Position) -> (d: u64)
    requires
        p.wf(),
        observer.wf(),
    ensures
        d == distance_spec(*p, *observer),
{
    let dlat: i64 = if p.lat_micro >= observer.lat_micro {
        p.lat_micro - observer.lat_micro
    } else {
        observer.lat_micro - p.lat_micro
    };
    let dlon: i64 = if p.lon_micro >= observer.lon_micro {
        p.lon_micro - observer.lon_micro
    } else {
        observer.lon_micro - p.lon_micro
    };
    (dlat + dlon) as u64
}

} // verus!
