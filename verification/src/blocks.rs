//! Blocks, and where they are placed.

use vstd::prelude::*;

verus! {

/// A kind of block. The kinds that the ground is made of have names; any other kind has a
/// number.
#[derive(Clone, Copy, Debug, PartialEq, Eq, Structural)]
pub enum Block {
    Bedrock,
    Dirt,
    GrassBlock,
    SmoothStone,
    Stone,
    Other(u16),
}

/// A block that is placed in the world.
#[derive(Clone, Copy, Debug, PartialEq, Eq, Structural)]
pub struct Placement {
    pub x: i32,
    pub y: i32,
    pub z: i32,
    pub block: Block,
}

} // verus!
