//! Geographic coordinates in exact integer nanodegrees.

use vstd::prelude::*;

verus! {

/// Scale factor between degrees and the stored integer representation:
/// one unit is 1e-9 degree (a "nanodegree").
pub const NANO_PER_DEGREE: i64 = 1_000_000_000;

/// Largest legal latitude, in nanodegrees (90 degrees).
pub const LAT_LIMIT_NANO: i64 = 90_000_000_000;

/// Largest legal longitude, in nanodegrees (180 degrees).
pub const LON_LIMIT_NANO: i64 = 180_000_000_000;

/// A geographic coordinate. Values are degrees scaled by 1e9, so equality
/// is exact field comparison and range checks are integer comparisons.
#[derive(Clone, Copy, PartialEq, Eq, Structural, Debug)]
pub struct Coord {
    pub lat_nano: i64,
    pub lon_nano: i64,
}

impl Coord {
    /// A coordinate is valid when it lies on the globe:
    /// |lat| <= 90 degrees and |lon| <= 180 degrees.
    pub open spec fn valid(self) -> bool {
        &&& -LAT_LIMIT_NANO <= self.lat_nano <= LAT_LIMIT_NANO
        &&& -LON_LIMIT_NANO <= self.lon_nano <= LON_LIMIT_NANO
    }

    pub fn new(lat_nano: i64, lon_nano: i64) -> (c: Coord)
        ensures
            c == (Coord { lat_nano, lon_nano }),
    {
        Coord { lat_nano, lon_nano }
    }
}

impl Default for Coord {
    /// The default coordinate is the origin (0, 0).
    fn default() -> (c: Coord)
        ensures
            c == (Coord { lat_nano: 0, lon_nano: 0 }),
    {
        Coord { lat_nano: 0, lon_nano: 0 }
    }
}

} // verus!
