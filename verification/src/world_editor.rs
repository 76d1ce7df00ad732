//! Saving worlds.

pub mod common;
pub mod java;
pub mod region;
