//! Turning map elements into a world.

pub mod drawing;
pub mod elements;
pub mod generation;
pub mod ground;
pub mod preview;
pub mod stages;
