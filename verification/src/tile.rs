//! The tiles that a map cell can hold.
//!
//! Tiles never hold references to each other: every link between tiles is a
//! coordinate key, resolved through the owning map's lookup. The map keeps
//! every such link mirrored, so a tile's coordinate sets can be trusted by
//! whoever reads them.

use vstd::prelude::*;

use crate::{Building, Coord2, Orientation};

verus! {

/// A building, together with the coordinate of its one entrance.
#[derive(Debug)]
pub struct BuildingTile {
    pub building: Building,
    pub entryway_pos: Coord2,
}

/// The cell connecting a building to its access road.
#[derive(Debug)]
pub struct EntranceTile {
    pub orientation: Orientation,
    pub road_pos: Coord2,
    pub building_pos: Coord2,
}

/// A paved road cell: the entrances reachable from it and the neighbouring
/// paved cells (both kept free of duplicates by the map).
#[derive(Debug)]
pub struct PavingTile {
    pub entryways_pos: Vec<Coord2>,
    pub pavings_pos: Vec<Coord2>,
}

/// A rail cell. The simulation treats rails as fixed scenery: no traversal
/// and no deletion, and the core never links rails to each other.
#[derive(Debug)]
pub struct RailsTile {
    pub is_station: bool,
    pub orientation: Orientation,
    pub rails_pos: Vec<Coord2>,
}

/// One cell's content.
#[derive(Debug)]
pub enum Tile {
    Building(BuildingTile),
    Entrance(EntranceTile),
    Paving(PavingTile),
    Rails(RailsTile),
}

impl Tile {
    /// Whether this tile is a paved road cell.
    pub fn is_paving(&self) -> (r: bool)
        ensures
            r == (self is Paving),
    {
        match self {
            Tile::Paving(_) => true,
            _ => false,
        }
    }
}

} // verus!
