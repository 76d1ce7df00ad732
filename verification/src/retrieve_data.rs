//! Getting OpenStreetMap data: what is asked of the Overpass servers, how a large
//! area is cut into tiles, and how the replies are put together.

pub mod adaptive;
pub mod area_name;
pub mod course;
pub mod coverage;
pub mod overpass;
pub mod reports;
pub mod responses;
pub mod servers;
pub mod tiles;
