//! Procedural generation of cave levels on a hexagonal grid, and the linking
//! of successive levels through a shared exit position.

pub mod level;
pub mod util;
