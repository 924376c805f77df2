//! Cell contents of a level, and what the generator needs to know of them.

use crate::level::basic::Tile;
use vstd::prelude::*;

verus! {

/// A cell value that the connectivity rules can classify.
///
/// Everything that is not floor counts as wall when floor regions are told
/// apart.
pub trait Ground: Copy {
    /// Whether the value is open floor.
    spec fn is_floor_spec(&self) -> bool;

    /// Whether the value is open floor.
    fn is_floor(&self) -> (floor: bool)
        ensures
            floor == self.is_floor_spec(),
    ;
}

/// The terrain of a finished level: a cave tile or one end of a link between
/// two levels.
#[derive(PartialEq, Eq, Debug, Copy, Clone, Structural)]
pub enum Terrain {
    Wall,
    Floor,
    Exit,
    Entrance,
}

impl Ground for Tile {
    open spec fn is_floor_spec(&self) -> bool {
        *self == Tile::Floor
    }

    fn is_floor(&self) -> (floor: bool) {
        *self == Tile::Floor
    }
}

impl Ground for Terrain {
    open spec fn is_floor_spec(&self) -> bool {
        *self == Terrain::Floor
    }

    fn is_floor(&self) -> (floor: bool) {
        *self == Terrain::Floor
    }
}

impl Terrain {
    /// The terrain that a freshly generated tile becomes.
    pub open spec fn of_tile(tile: Tile) -> Terrain {
        match tile {
            Tile::Wall => Terrain::Wall,
            Tile::Floor => Terrain::Floor,
        }
    }

    /// The terrain that a freshly generated tile becomes.
    pub fn from_tile(tile: Tile) -> (terrain: Terrain)
        ensures
            terrain == Terrain::of_tile(tile),
            terrain.is_floor_spec() == tile.is_floor_spec(),
    {
        match tile {
            Tile::Wall => Terrain::Wall,
            Tile::Floor => Terrain::Floor,
        }
    }
}

} // verus!
