//! Grid primitives shared by the level generator.

pub mod floodfill;
pub mod grid;
