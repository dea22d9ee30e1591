//! The records that flow through the pipeline.

use vstd::prelude::*;
use crate::points::{GeoPoint, valid_lat, valid_lon};
use crate::fixed::VAL_LIMIT;

verus! {

/// Largest travel time a record may carry, in micro-seconds.
pub const TIME_LIMIT: i64 = 10_000_000_000_000;

/// Largest phase velocity a record may carry, in micro-kilometres per second.
pub const PHV_LIMIT: i64 = 1_000_000_000;

/// Largest epicentral distance a record may carry, in micro-kilometres.
pub const EPI_LIMIT: i64 = 100_000_000_000;

/// Distance information linking one event to one station: the event and
/// station identifiers, the epicentral distance in micro-kilometres, and the
/// station coordinates in micro-degrees.
#[derive(Debug, Clone)]
pub struct DistRecord {
    pub event: Vec<u8>,
    pub station: Vec<u8>,
    pub dist: i64,
    pub lon: i64,
    pub lat: i64,
}

impl DistRecord {
    /// Coordinates and distance lie within the ranges the pipeline stores.
    pub open spec fn wf(&self) -> bool {
        valid_lat(self.lat as int) && valid_lon(self.lon as int) && 0 <= self.dist <= EPI_LIMIT
    }
}

/// One station's measurement at one period: station coordinates in
/// micro-degrees, travel time in micro-seconds, phase velocity in
/// micro-kilometres per second, and amplitude in micro-units.
#[derive(Debug, Clone, Copy, PartialEq, Eq, Structural)]
pub struct PhRecord {
    pub lon: i64,
    pub lat: i64,
    pub time: i64,
    pub phv: i64,
    pub amp: i64,
}

impl PhRecord {
    /// Coordinates within range, time and velocity positive and bounded,
    /// amplitude bounded: what every record the pipeline produces satisfies.
    pub open spec fn wf(&self) -> bool {
        valid_lat(self.lat as int) && valid_lon(self.lon as int) && 0 < self.time <= TIME_LIMIT
            && 0 < self.phv <= PHV_LIMIT && -VAL_LIMIT <= self.amp <= VAL_LIMIT
    }

    /// The record's location, without identity.
    pub fn to_geo_point(&self) -> (p: GeoPoint)
        ensures
            p.lat == self.lat,
            p.lon == self.lon,
            p.id is None,
            p.code is None,
    {
        GeoPoint { id: None, code: None, lon: self.lon, lat: self.lat }
    }
}

/// Every record of the sequence is well formed.
pub open spec fn all_wf(s: Seq<PhRecord>) -> bool {
    forall|i: int| 0 <= i < s.len() ==> (#[trigger] s[i]).wf()
}

} // verus!
