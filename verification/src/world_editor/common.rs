//! Chunks of a world, and the sections that they are made of.

use crate::nbt::{Compound, Tag};
use vstd::prelude::*;

verus! {

/// A kind of block that occurs in a section.
#[derive(Debug)]
pub struct PaletteItem {
    pub name: String,
    pub properties: Option<Tag>,
}

/// The blocks of a section: their kinds, and the packed numbers of the kinds.
#[derive(Debug)]
pub struct Blockstates {
    pub palette: Vec<PaletteItem>,
    pub data: Option<Vec<i64>>,
    pub other: Compound,
}

/// A cube of 16 blocks each way. `y` counts sections.
#[derive(Debug)]
pub struct Section {
    pub block_states: Blockstates,
    pub y: i8,
    pub other: Compound,
}

/// A column of sections, as it is saved.
#[derive(Debug)]
pub struct Chunk {
    pub sections: Vec<Section>,
    pub x_pos: i32,
    pub z_pos: i32,
    pub is_light_on: u8,
    pub other: Compound,
}

/// What was placed in a chunk.
#[derive(Debug)]
pub struct ChunkToModify {
    pub sections: Vec<Section>,
    pub other: Compound,
}

} // verus!
