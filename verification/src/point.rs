//! The fixed-point coordinate pair that every operation works on.
use vstd::prelude::*;

verus! {

/// A geographic point in fixed-point form: latitude and longitude in
/// degrees multiplied by 10^5 and truncated to a signed 32-bit integer.
/// The algorithms treat the fields as opaque integers; validity of the
/// ranges is the caller's concern.
#[derive(Clone, Copy, PartialEq, Eq, Structural)]
pub struct IntPoint {
    pub lat: i32,
    pub lng: i32,
}

impl IntPoint {
    pub fn new(lat: i32, lng: i32) -> (p: IntPoint)
        ensures
            p.lat == lat,
            p.lng == lng,
    {
        IntPoint { lat, lng }
    }
}

} // verus!
