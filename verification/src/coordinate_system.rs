//! Bounding boxes: on the globe in degrees, and in the world in blocks.

use crate::ieee754::{
    is_less, lemma_units_ordered, lemma_whole, magnitude, units, ONE_SHIFT, SIGN,
};
use vstd::arithmetic::power2::*;
use vstd::prelude::*;

verus! {

/// The bits of the double 90.
pub const NINETY: u64 = 0x4056_8000_0000_0000;

/// The bits of the double 180.
pub const ONE_EIGHTY: u64 = 0x4066_8000_0000_0000;

/// A point on the globe. Latitude and longitude are degrees, held as the bits of
/// doubles.
#[derive(Clone, Copy, Debug, PartialEq, Eq, Structural)]
pub struct LLPoint {
    pub lat: u64,
    pub lng: u64,
}

impl LLPoint {
    /// The latitude is from -90 to 90, the longitude from -180 to 180.
    pub open spec fn in_range(self) -> bool {
        &&& magnitude(self.lat) <= NINETY
        &&& magnitude(self.lng) <= ONE_EIGHTY
    }
}

/// Why four numbers make no bounding box.
#[derive(Clone, Copy, Debug, PartialEq, Eq, Structural)]
pub enum InvalidBounds {
    /// A latitude or a longitude that is not on the globe, or no number.
    OutOfRange,
    /// A maximum that is not above its minimum.
    Empty,
}

/// A bounding box on the globe.
#[derive(Clone, Copy, Debug, PartialEq, Eq, Structural)]
pub struct LLBBox {
    pub min: LLPoint,
    pub max: LLPoint,
}

impl LLBBox {
    /// Both corners are on the globe, and the box is not empty.
    #[verifier::opaque]
    pub open spec fn well_formed(self) -> bool {
        &&& self.min.in_range()
        &&& self.max.in_range()
        &&& units(self.min.lat) < units(self.max.lat)
        &&& units(self.min.lng) < units(self.max.lng)
    }

    /// The box holds the point.
    pub open spec fn holds(self, lat: u64, lng: u64) -> bool {
        &&& units(self.min.lat) <= units(lat) <= units(self.max.lat)
        &&& units(self.min.lng) <= units(lng) <= units(self.max.lng)
    }

    /// The bounding box with the given edges, in degrees.
    pub fn new(min_lat: u64, min_lng: u64, max_lat: u64, max_lng: u64) -> (result: Result<
        LLBBox,
        InvalidBounds,
    >)
        ensures
            ({
                let bounds = LLBBox {
                    min: LLPoint { lat: min_lat, lng: min_lng },
                    max: LLPoint { lat: max_lat, lng: max_lng },
                };
                result == if bounds.well_formed() {
                    Ok::<LLBBox, InvalidBounds>(bounds)
                } else if bounds.min.in_range() && bounds.max.in_range() {
                    Err(InvalidBounds::Empty)
                } else {
                    Err(InvalidBounds::OutOfRange)
                }
            }),
    {
        proof {
            reveal(LLBBox::well_formed);
        }
        let min = LLPoint { lat: min_lat, lng: min_lng };
        let max = LLPoint { lat: max_lat, lng: max_lng };
        if min_lat % SIGN > NINETY || max_lat % SIGN > NINETY || min_lng % SIGN > ONE_EIGHTY
            || max_lng % SIGN > ONE_EIGHTY {
            return Err(InvalidBounds::OutOfRange);
        }
        if !is_less(min_lat, max_lat) || !is_less(min_lng, max_lng) {
            return Err(InvalidBounds::Empty);
        }
        Ok(LLBBox { min, max })
    }
}

/// A rectangle of blocks in the world, with both of its edges.
#[derive(Clone, Copy, Debug, PartialEq, Eq, Structural)]
pub struct XZBBox {
    pub min_x: i32,
    pub max_x: i32,
    pub min_z: i32,
    pub max_z: i32,
}

impl XZBBox {
    /// The rectangle has a block.
    pub open spec fn well_formed(self) -> bool {
        &&& self.min_x <= self.max_x
        &&& self.min_z <= self.max_z
    }

    /// The rectangle holds the column of blocks at the given place.
    pub open spec fn holds(self, x: int, z: int) -> bool {
        &&& self.min_x <= x <= self.max_x
        &&& self.min_z <= z <= self.max_z
    }
}

/// Four edges make a bounding box exactly if the latitudes are from -90 to 90, the longitudes
/// from -180 to 180, and each lower edge is below the upper one.
pub proof fn law_bounds_on_the_globe(bbox: LLBBox)
    ensures
        ({
            let one = pow2(ONE_SHIFT as nat);
            bbox.well_formed() <==> {
                &&& -(90 * one) <= units(bbox.min.lat) < units(bbox.max.lat) <= 90 * one
                &&& -(180 * one) <= units(bbox.min.lng) < units(bbox.max.lng) <= 180 * one
            }
        }),
{
    reveal(LLBBox::well_formed);
    lemma2_to64_rest();
    lemma_whole(NINETY as nat, 90, 46);
    lemma_whole(ONE_EIGHTY as nat, 180, 45);
    lemma_units_ordered(NINETY as nat, magnitude(bbox.min.lat));
    lemma_units_ordered(NINETY as nat, magnitude(bbox.max.lat));
    lemma_units_ordered(ONE_EIGHTY as nat, magnitude(bbox.min.lng));
    lemma_units_ordered(ONE_EIGHTY as nat, magnitude(bbox.max.lng));
}

} // verus!
