//! The decision making of a generator that turns OpenStreetMap data into
//! Minecraft worlds: what is downloaded and how replies are combined, which
//! generator draws which map element, how the ground is laid, and what a chunk
//! of a saved world holds.

pub mod blocks;
pub mod coordinate_system;
pub mod data_processing;
pub mod ieee754;
pub mod json;
pub mod nbt;
pub mod progress;
pub mod retrieve_data;
pub mod text;
pub mod world_editor;
