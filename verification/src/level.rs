//! Level generation: carving caves, cleaning them up and linking levels.

pub mod basic;
pub mod exit;
pub mod random;
pub mod tile;
