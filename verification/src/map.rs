//! The map: a grid of tiles keyed by coordinate, with a secondary index of
//! building coordinates by building kind.
//!
//! Every link between tiles (paving to entrance, entrance to building, and
//! so on) is a coordinate key. The map's invariant [`TileMap::inv`] states
//! that all links are mirrored and never dangle: each mutator both requires
//! and re-establishes it, so a map built through this interface never holds
//! a reference to a missing tile.

use std::collections::HashMap;

use vstd::prelude::*;

use crate::tile::{BuildingTile, EntranceTile, PavingTile, RailsTile, Tile};
use crate::{
    adjacent, lemma_neighbours_adjacent, lemma_neighbours_no_dup, spec_neighbours, Building,
    Coord2, Orientation,
};

verus! {

broadcast use vstd::std_specs::hash::group_hash_axioms;

/// Why a map edit was refused.
#[derive(Copy, Clone, Debug, PartialEq, Eq, Structural)]
pub enum MapError {
    /// The requested deletion is not supported for the tile found there
    /// (rails are fixed scenery).
    UnsupportedDelete,
}

/// Packs a coordinate into a single integer key for the tile lookup.
pub open spec fn enc(c: Coord2) -> u128 {
    (c.x as u128 * 0x1_0000_0000_0000_0000 + c.y as u128) as u128
}

/// Distinct coordinates pack to distinct keys.
pub proof fn lemma_enc_injective(a: Coord2, b: Coord2)
    ensures
        enc(a) == enc(b) ==> a == b,
{
    if enc(a) == enc(b) {
        assert(a.x == b.x && a.y == b.y) by (nonlinear_arith)
            requires
                a.x as u128 * 0x1_0000_0000_0000_0000 + a.y as u128 == b.x as u128
                    * 0x1_0000_0000_0000_0000 + b.y as u128,
                a.y < 0x1_0000_0000_0000_0000,
                b.y < 0x1_0000_0000_0000_0000,
        ;
    }
}

/// The tile lookup that a raw key-value map denotes.
pub open spec fn grid_raw(tiles: Map<u128, Tile>) -> Map<Coord2, Tile> {
    Map::new(|c: Coord2| tiles.contains_key(enc(c)), |c: Coord2| tiles[enc(c)])
}

proof fn lemma_grid_insert(tiles: Map<u128, Tile>, c: Coord2, tile: Tile)
    ensures
        grid_raw(tiles.insert(enc(c), tile)) =~= grid_raw(tiles).insert(c, tile),
{
    assert forall|d: Coord2|
        grid_raw(tiles.insert(enc(c), tile)).contains_key(d) == grid_raw(tiles).insert(
            c,
            tile,
        ).contains_key(d) by {
        lemma_enc_injective(c, d);
    }
    assert forall|d: Coord2|
        grid_raw(tiles.insert(enc(c), tile)).contains_key(d) implies grid_raw(
        tiles.insert(enc(c), tile),
    )[d] == grid_raw(tiles).insert(c, tile)[d] by {
        lemma_enc_injective(c, d);
    }
}

proof fn lemma_grid_remove(tiles: Map<u128, Tile>, c: Coord2)
    ensures
        grid_raw(tiles.remove(enc(c))) =~= grid_raw(tiles).remove(c),
{
    assert forall|d: Coord2|
        grid_raw(tiles.remove(enc(c))).contains_key(d) == grid_raw(tiles).remove(
            c,
        ).contains_key(d) by {
        lemma_enc_injective(c, d);
    }
    assert forall|d: Coord2|
        grid_raw(tiles.remove(enc(c))).contains_key(d) implies grid_raw(tiles.remove(enc(c)))[d]
        == grid_raw(tiles).remove(c)[d] by {
        lemma_enc_injective(c, d);
    }
}

/// A paved road cell stands at `c`.
pub open spec fn paving_at(g: Map<Coord2, Tile>, c: Coord2) -> bool {
    g.contains_key(c) && g[c] is Paving
}

/// An entrance stands at `c`.
pub open spec fn entrance_at(g: Map<Coord2, Tile>, c: Coord2) -> bool {
    g.contains_key(c) && g[c] is Entrance
}

/// A building stands at `c`.
pub open spec fn building_at(g: Map<Coord2, Tile>, c: Coord2) -> bool {
    g.contains_key(c) && g[c] is Building
}

/// The building record at `c` (meaningful only when `building_at`).
pub open spec fn building_of(g: Map<Coord2, Tile>, c: Coord2) -> BuildingTile {
    match g[c] {
        Tile::Building(bt) => bt,
        _ => arbitrary(),
    }
}

/// The entrance record at `c` (meaningful only when `entrance_at`).
pub open spec fn entrance_of(g: Map<Coord2, Tile>, c: Coord2) -> EntranceTile {
    match g[c] {
        Tile::Entrance(e) => e,
        _ => arbitrary(),
    }
}

/// The entrance coordinates registered on the paving at `c`.
pub open spec fn paving_entries(g: Map<Coord2, Tile>, c: Coord2) -> Seq<Coord2> {
    match g[c] {
        Tile::Paving(p) => p.entryways_pos@,
        _ => Seq::empty(),
    }
}

/// The neighbouring paving coordinates registered on the paving at `c`.
pub open spec fn paving_links(g: Map<Coord2, Tile>, c: Coord2) -> Seq<Coord2> {
    match g[c] {
        Tile::Paving(p) => p.pavings_pos@,
        _ => Seq::empty(),
    }
}

/// The grid of tiles, keyed by coordinate, together with the per-kind index
/// of building coordinates.
#[derive(Debug)]
pub struct TileMap {
    /// The editing cursor; presentation-layer state with no bearing on the
    /// simulation's invariants.
    pub cursor: Coord2,
    dimensions: Coord2,
    tiles: HashMap<u128, Tile>,
    houses: Vec<Coord2>,
    saloons: Vec<Coord2>,
    factories: Vec<Coord2>,
    general_stores: Vec<Coord2>,
    train_stations: Vec<Coord2>,
}

impl TileMap {
    /// The tile standing at each occupied coordinate.
    pub closed spec fn grid(self) -> Map<Coord2, Tile> {
        grid_raw(self.tiles@)
    }

    /// The map's dimensions: cells with both components below these bounds
    /// count as in bounds.
    pub closed spec fn dims(self) -> Coord2 {
        self.dimensions
    }

    /// The indexed coordinates of the buildings of kind `b`, oldest first.
    pub closed spec fn building_seq(self, b: Building) -> Seq<Coord2> {
        match b {
            Building::House => self.houses@,
            Building::Saloon => self.saloons@,
            Building::Factory => self.factories@,
            Building::GeneralStore => self.general_stores@,
            Building::TrainStation => self.train_stations@,
        }
    }

    /// Whether `c` lies within the map's dimensions.
    pub open spec fn spec_is_bounded(self, c: Coord2) -> bool {
        c.x < self.dims().x && c.y < self.dims().y
    }

    /// The tile at `c` keeps all its coordinate links mirrored.
    pub open spec fn tile_ok(self, c: Coord2) -> bool {
        let g = self.grid();
        match g[c] {
            Tile::Building(bt) => {
                &&& adjacent(c, bt.entryway_pos)
                &&& entrance_at(g, bt.entryway_pos)
                &&& entrance_of(g, bt.entryway_pos).building_pos == c
                &&& self.building_seq(bt.building).contains(c)
            },
            Tile::Entrance(e) => {
                &&& adjacent(c, e.road_pos)
                &&& adjacent(c, e.building_pos)
                &&& paving_at(g, e.road_pos)
                &&& paving_entries(g, e.road_pos).contains(c)
                &&& building_at(g, e.building_pos)
                &&& building_of(g, e.building_pos).entryway_pos == c
            },
            Tile::Paving(p) => {
                &&& p.entryways_pos@.no_duplicates()
                &&& p.pavings_pos@.no_duplicates()
                &&& forall|i: int|
                    0 <= i < p.entryways_pos@.len() ==> {
                        let e = #[trigger] p.entryways_pos@[i];
                        &&& adjacent(c, e)
                        &&& entrance_at(g, e)
                        &&& entrance_of(g, e).road_pos == c
                    }
                &&& forall|i: int|
                    0 <= i < p.pavings_pos@.len() ==> {
                        let q = #[trigger] p.pavings_pos@[i];
                        &&& adjacent(c, q)
                        &&& paving_at(g, q)
                        &&& paving_links(g, q).contains(c)
                    }
            },
            Tile::Rails(rt) => rt.rails_pos@.len() == 0,
        }
    }

    /// The map's structural invariant: every coordinate link is mirrored,
    /// adjacent pavings are always linked, rails carry no links, and the
    /// building index lists exactly the building tiles of each kind.
    pub open spec fn inv(self) -> bool {
        let g = self.grid();
        &&& forall|c: Coord2| #[trigger] g.contains_key(c) ==> self.tile_ok(c)
        &&& forall|c: Coord2, d: Coord2|
            #[trigger] paving_at(g, c) && #[trigger] paving_at(g, d) && adjacent(c, d)
                ==> paving_links(g, c).contains(d)
        &&& forall|b: Building, i: int|
            0 <= i < self.building_seq(b).len() ==> {
                let bc = #[trigger] self.building_seq(b)[i];
                &&& building_at(g, bc)
                &&& building_of(g, bc).building == b
            }
        &&& forall|b: Building| (#[trigger] self.building_seq(b)).no_duplicates()
    }

    /// A fresh map of the given dimensions, holding a single unconnected
    /// paving cell at the middle of its north edge (the settlement's seed
    /// road, where the railway will deliver residents).
    pub fn new(dimensions: Coord2) -> (r: TileMap)
        ensures
            r.inv(),
            r.dims() == dimensions,
            r.grid().dom() =~= set![Coord2 { x: dimensions.x / 2, y: 0 }],
            paving_at(r.grid(), Coord2 { x: dimensions.x / 2, y: 0 }),
            paving_entries(r.grid(), Coord2 { x: dimensions.x / 2, y: 0 }) =~= Seq::empty(),
            paving_links(r.grid(), Coord2 { x: dimensions.x / 2, y: 0 }) =~= Seq::empty(),
            forall|b: Building| (#[trigger] r.building_seq(b)).len() == 0,
    {
        let cursor = Coord2 { x: 0, y: 0 };
        let seed = Coord2 { x: dimensions.x / 2, y: 0 };
        let mut tiles: HashMap<u128, Tile> = HashMap::new();
        tiles.insert(
            key_of(seed),
            Tile::Paving(PavingTile { entryways_pos: Vec::new(), pavings_pos: Vec::new() }),
        );
        let r = TileMap {
            cursor,
            dimensions,
            tiles,
            houses: Vec::new(),
            saloons: Vec::new(),
            factories: Vec::new(),
            general_stores: Vec::new(),
            train_stations: Vec::new(),
        };
        proof {
            lemma_grid_insert(Map::empty(), seed, r.tiles@[enc(seed)]);
            assert(grid_raw(Map::<u128, Tile>::empty()) =~= Map::<Coord2, Tile>::empty());
            assert(r.grid() =~= Map::<Coord2, Tile>::empty().insert(seed, r.tiles@[enc(seed)]));
            assert(r.grid().dom() =~= set![seed]);
            assert forall|c: Coord2| r.grid().contains_key(c) implies r.tile_ok(c) by {
                assert(c == seed);
            }
        }
        r
    }

    /// The vertical extent of the map.
    pub fn height(&self) -> (r: u64)
        ensures
            r == self.dims().y,
    {
        self.dimensions.y
    }

    /// The horizontal extent of the map.
    pub fn width(&self) -> (r: u64)
        ensures
            r == self.dims().x,
    {
        self.dimensions.x
    }

    /// The tile at `location`, if one is present. Out-of-bounds or empty
    /// cells are absent, never an error.
    pub fn get(&self, location: Coord2) -> (r: Option<&Tile>)
        ensures
            r is Some <==> self.grid().contains_key(location),
            r is Some ==> *r.unwrap() == self.grid()[location],
    {
        self.tiles.get(&key_of(location))
    }

    /// Whether `location` lies within the map's dimensions.
    pub fn is_bounded(&self, location: Coord2) -> (r: bool)
        ensures
            r == self.spec_is_bounded(location),
    {
        location.x < self.dimensions.x && location.y < self.dimensions.y
    }

    /// The indexed coordinates of the buildings of kind `building`, in the
    /// order they were built.
    pub fn buildings_of(&self, building: Building) -> (r: &Vec<Coord2>)
        ensures
            r@ == self.building_seq(building),
    {
        match building {
            Building::House => &self.houses,
            Building::Saloon => &self.saloons,
            Building::Factory => &self.factories,
            Building::GeneralStore => &self.general_stores,
            Building::TrainStation => &self.train_stations,
        }
    }
}

impl TileMap {
    /// The paving check that `pave` requires: every neighbour of `c` is
    /// either empty or itself a paving. (This map lets an unconnected cell
    /// be paved; connectivity to an existing road is not demanded.)
    pub open spec fn spec_can_pave(self, c: Coord2) -> bool {
        forall|d: Coord2|
            #[trigger] adjacent(c, d) ==> !self.grid().contains_key(d) || self.grid()[d] is Paving
    }

    /// Whether the router may step onto `c` as open ground: in bounds, and
    /// nothing around it blocks walking.
    pub open spec fn spec_can_walk(self, c: Coord2) -> bool {
        self.spec_is_bounded(c) && self.spec_can_pave(c)
    }

    /// The axis-aligned cells at distance two from `location` that hold a
    /// paving (a road an entrance could connect to), in the order north,
    /// south, east, west.
    pub open spec fn spec_roads(self, location: Coord2) -> Seq<Coord2> {
        let g = self.grid();
        let north: Seq<Coord2> = if location.y >= 2 && paving_at(
            g,
            Coord2 { x: location.x, y: (location.y - 2) as u64 },
        ) {
            seq![Coord2 { x: location.x, y: (location.y - 2) as u64 }]
        } else {
            Seq::empty()
        };
        let south: Seq<Coord2> = if location.y + 2 <= u64::MAX && paving_at(
            g,
            Coord2 { x: location.x, y: (location.y + 2) as u64 },
        ) {
            seq![Coord2 { x: location.x, y: (location.y + 2) as u64 }]
        } else {
            Seq::empty()
        };
        let east: Seq<Coord2> = if location.x + 2 <= u64::MAX && paving_at(
            g,
            Coord2 { x: (location.x + 2) as u64, y: location.y },
        ) {
            seq![Coord2 { x: (location.x + 2) as u64, y: location.y }]
        } else {
            Seq::empty()
        };
        let west: Seq<Coord2> = if location.x >= 2 && paving_at(
            g,
            Coord2 { x: (location.x - 2) as u64, y: location.y },
        ) {
            seq![Coord2 { x: (location.x - 2) as u64, y: location.y }]
        } else {
            Seq::empty()
        };
        north + south + east + west
    }

    /// The road, entrance cell and orientation an entrance would use to
    /// connect `location` to the road at `road` (which must lie at distance
    /// two along one axis): the entrance sits on the midpoint cell.
    pub open spec fn entry_for(location: Coord2, road: Coord2) -> (Coord2, Coord2, Orientation) {
        if road.x == location.x {
            if road.y < location.y {
                (road, Coord2 { x: location.x, y: (location.y - 1) as u64 }, Orientation::Vertical)
            } else {
                (road, Coord2 { x: location.x, y: (location.y + 1) as u64 }, Orientation::Vertical)
            }
        } else {
            if road.x < location.x {
                (
                    road,
                    Coord2 { x: (location.x - 1) as u64, y: location.y },
                    Orientation::Horizontal,
                )
            } else {
                (
                    road,
                    Coord2 { x: (location.x + 1) as u64, y: location.y },
                    Orientation::Horizontal,
                )
            }
        }
    }

    /// Every way to connect a building at `location` to a nearby road, one
    /// entry per road of `spec_roads`.
    pub open spec fn spec_entryways(self, location: Coord2) -> Seq<(Coord2, Coord2, Orientation)> {
        self.spec_roads(location).map_values(|road: Coord2| Self::entry_for(location, road))
    }

    /// The building check that `build` tests: all four neighbours empty and
    /// at least one road to connect an entrance to.
    pub open spec fn spec_can_build(self, location: Coord2) -> bool {
        &&& forall|d: Coord2| #[trigger] adjacent(location, d) ==> !self.grid().contains_key(d)
        &&& self.spec_roads(location).len() > 0
    }

    /// The neighbours of `location` that hold a paving, without duplicates.
    fn neighbouring_pavings(&self, location: Coord2) -> (r: Vec<Coord2>)
        ensures
            r@.no_duplicates(),
            forall|c: Coord2|
                #[trigger] r@.contains(c) <==> adjacent(location, c) && paving_at(self.grid(), c),
    {
        let around = location.neighbours();
        let mut r: Vec<Coord2> = Vec::new();
        let mut i: usize = 0;
        proof {
            lemma_neighbours_no_dup(location);
        }
        while i < around.len()
            invariant
                around@ == spec_neighbours(location),
                around@.no_duplicates(),
                forall|d: Coord2| around@.contains(d) <==> adjacent(location, d),
                0 <= i <= around@.len(),
                forall|k: int|
                    0 <= k < r@.len() ==> {
                        let c = #[trigger] r@[k];
                        &&& adjacent(location, c)
                        &&& paving_at(self.grid(), c)
                        &&& exists|j: int| 0 <= j < i && around@[j] == c
                    },
                forall|j: int|
                    0 <= j < i && paving_at(self.grid(), #[trigger] around@[j]) ==> r@.contains(
                        around@[j],
                    ),
                r@.no_duplicates(),
            decreases around@.len() - i,
        {
            let candidate = around[i];
            let hit = match self.get(candidate) {
                Some(t) => t.is_paving(),
                None => false,
            };
            if hit {
                proof {
                    assert(around@.contains(around@[i as int]));
                    if r@.contains(candidate) {
                        let k = choose|k: int| 0 <= k < r@.len() && r@[k] == candidate;
                        let j = choose|j: int| 0 <= j < i && around@[j] == r@[k];
                        assert(around@[j] == around@[i as int]);
                        assert(false);
                    }
                }
                let ghost old_r = r@;
                r.push(candidate);
                proof {
                    assert(r@[r@.len() - 1] == candidate);
                    assert(around@[i as int] == candidate);
                    assert forall|j: int|
                        0 <= j < i + 1 && paving_at(
                            self.grid(),
                            #[trigger] around@[j],
                        ) implies r@.contains(around@[j]) by {
                        if j < i {
                            let k = choose|k: int|
                                0 <= k < old_r.len() && old_r[k] == around@[j];
                            assert(r@[k] == around@[j]);
                        } else {
                            assert(r@[r@.len() - 1] == around@[j]);
                        }
                    }
                }
            } else {
                proof {
                    assert(around@.contains(around@[i as int]));
                    assert(!paving_at(self.grid(), around@[i as int]));
                }
            }
            i = i + 1;
        }
        proof {
            assert forall|c: Coord2|
                #[trigger] r@.contains(c) <==> adjacent(location, c) && paving_at(
                    self.grid(),
                    c,
                ) by {
                if r@.contains(c) {
                    let k = choose|k: int| 0 <= k < r@.len() && r@[k] == c;
                    assert(adjacent(location, c) && paving_at(self.grid(), c));
                }
                if adjacent(location, c) && paving_at(self.grid(), c) {
                    assert(around@.contains(c));
                    let j = choose|j: int| 0 <= j < around@.len() && around@[j] == c;
                    assert(paving_at(self.grid(), around@[j]));
                    assert(r@.contains(c));
                }
            }
        }
        r
    }

    /// The nearby roads a new building at `location` could take its
    /// entrance from.
    fn roads_to_enter_from(&self, location: Coord2) -> (r: Vec<Coord2>)
        ensures
            r@ == self.spec_roads(location),
    {
        let mut locations: Vec<Coord2> = Vec::new();
        if location.y >= 2 {
            let road = Coord2 { x: location.x, y: location.y - 2 };
            if self.get_is_paving(road) {
                locations.push(road);
            }
        }
        if location.y <= u64::MAX - 2 {
            let road = Coord2 { x: location.x, y: location.y + 2 };
            if self.get_is_paving(road) {
                locations.push(road);
            }
        }
        if location.x <= u64::MAX - 2 {
            let road = Coord2 { x: location.x + 2, y: location.y };
            if self.get_is_paving(road) {
                locations.push(road);
            }
        }
        if location.x >= 2 {
            let road = Coord2 { x: location.x - 2, y: location.y };
            if self.get_is_paving(road) {
                locations.push(road);
            }
        }
        proof {
            assert(locations@ =~= self.spec_roads(location));
        }
        locations
    }

    /// Whether a paving stands at `c`.
    fn get_is_paving(&self, c: Coord2) -> (r: bool)
        ensures
            r == paving_at(self.grid(), c),
    {
        match self.get(c) {
            Some(t) => t.is_paving(),
            None => false,
        }
    }

    /// Every road, entrance cell and orientation a building at `location`
    /// could be connected by, one per nearby road.
    fn entryways_to_build_from(&self, location: Coord2) -> (r: Vec<(Coord2, Coord2, Orientation)>)
        ensures
            r@ == self.spec_entryways(location),
    {
        let nsew_nearby_roads = self.roads_to_enter_from(location);
        let mut entryway_coords: Vec<(Coord2, Coord2, Orientation)> = Vec::new();
        let mut i: usize = 0;
        while i < nsew_nearby_roads.len()
            invariant
                nsew_nearby_roads@ == self.spec_roads(location),
                0 <= i <= nsew_nearby_roads@.len(),
                entryway_coords@.len() == i,
                forall|j: int|
                    0 <= j < i ==> entryway_coords@[j] == Self::entry_for(
                        location,
                        nsew_nearby_roads@[j],
                    ),
            decreases nsew_nearby_roads@.len() - i,
        {
            let road = nsew_nearby_roads[i];
            proof {
                lemma_spec_roads_axis(*self, location, i as int);
            }
            let entryway: (Coord2, Coord2, Orientation) = if road.x == location.x {
                if road.y < location.y {
                    (road, Coord2 { x: location.x, y: location.y - 1 }, Orientation::Vertical)
                } else {
                    (road, Coord2 { x: location.x, y: location.y + 1 }, Orientation::Vertical)
                }
            } else {
                if road.x < location.x {
                    (road, Coord2 { x: location.x - 1, y: location.y }, Orientation::Horizontal)
                } else {
                    (road, Coord2 { x: location.x + 1, y: location.y }, Orientation::Horizontal)
                }
            };
            entryway_coords.push(entryway);
            i = i + 1;
        }
        proof {
            assert(entryway_coords@ =~= self.spec_entryways(location));
        }
        entryway_coords
    }

    /// Whether a building could be placed at `location`: all four
    /// neighbours must be empty and a nearby road must offer an entrance.
    pub fn can_build(&self, location: Coord2) -> (r: bool)
        ensures
            r == self.spec_can_build(location),
    {
        let around = location.neighbours();
        let mut i: usize = 0;
        while i < around.len()
            invariant
                around@ == spec_neighbours(location),
                forall|d: Coord2| around@.contains(d) <==> adjacent(location, d),
                0 <= i <= around@.len(),
                forall|j: int| 0 <= j < i ==> !self.grid().contains_key(around@[j]),
            decreases around@.len() - i,
        {
            if self.get(around[i]).is_some() {
                proof {
                    assert(around@.contains(around@[i as int]));
                    assert(adjacent(location, around@[i as int]));
                    assert(self.grid().contains_key(around@[i as int]));
                }
                return false;
            }
            i = i + 1;
        }
        proof {
            assert forall|d: Coord2| #[trigger] adjacent(location, d) implies !self.grid()
                .contains_key(d) by {
                assert(around@.contains(d));
                let j = choose|j: int| 0 <= j < around@.len() && around@[j] == d;
                assert(!self.grid().contains_key(around@[j]));
            }
        }
        // Must have a nearby road to build an entrance from.
        !self.roads_to_enter_from(location).is_empty()
    }

    /// Whether `location` could be paved: every neighbour must be empty or
    /// already paved.
    pub fn can_pave(&self, location: Coord2) -> (r: bool)
        ensures
            r == self.spec_can_pave(location),
    {
        let around = location.neighbours();
        let mut i: usize = 0;
        while i < around.len()
            invariant
                around@ == spec_neighbours(location),
                forall|d: Coord2| around@.contains(d) <==> adjacent(location, d),
                0 <= i <= around@.len(),
                forall|j: int|
                    0 <= j < i ==> !self.grid().contains_key(around@[j]) || self.grid()[around@[j]]
                        is Paving,
            decreases around@.len() - i,
        {
            let blocked = match self.get(around[i]) {
                None => false,
                Some(t) => !t.is_paving(),
            };
            if blocked {
                proof {
                    assert(around@.contains(around@[i as int]));
                    assert(adjacent(location, around@[i as int]));
                    assert(self.grid().contains_key(around@[i as int]) && !(self.grid()[around@[
                        i as int
                    ]] is Paving));
                }
                return false;
            }
            i = i + 1;
        }
        proof {
            assert forall|d: Coord2| #[trigger] adjacent(location, d) implies !self.grid()
                .contains_key(d) || self.grid()[d] is Paving by {
                assert(around@.contains(d));
                let j = choose|j: int| 0 <= j < around@.len() && around@[j] == d;
            }
        }
        true
    }

    /// Whether the router may cross `c` as open ground.
    pub fn can_walk(&self, location: Coord2) -> (r: bool)
        ensures
            r == self.spec_can_walk(location),
    {
        self.is_bounded(location) && self.can_pave(location)
    }
}

/// The rails record at `c` (meaningful only when a rails tile stands there).
pub open spec fn rails_of(g: Map<Coord2, Tile>, c: Coord2) -> RailsTile {
    match g[c] {
        Tile::Rails(rt) => rt,
        _ => arbitrary(),
    }
}

/// Whether `v` holds `c`.
pub(crate) fn coord_vec_contains(v: &Vec<Coord2>, c: Coord2) -> (r: bool)
    ensures
        r == v@.contains(c),
{
    let mut i: usize = 0;
    while i < v.len()
        invariant
            0 <= i <= v@.len(),
            forall|j: int| 0 <= j < i ==> v@[j] != c,
        decreases v@.len() - i,
    {
        if v[i].x == c.x && v[i].y == c.y {
            proof {
                assert(v@[i as int] == c);
            }
            return true;
        }
        i = i + 1;
    }
    false
}

impl TileMap {
    /// Records `to` on the paving at `road`, if it is not recorded yet.
    fn add_paving_link(&mut self, road: Coord2, to: Coord2)
        requires
            paving_at(old(self).grid(), road),
        ensures
            final(self).dims() == old(self).dims(),
            forall|b: Building| final(self).building_seq(b) == old(self).building_seq(b),
            final(self).grid().dom() =~= old(self).grid().dom(),
            forall|c: Coord2|
                old(self).grid().contains_key(c) && c != road ==> final(self).grid()[c] == old(
                    self,
                ).grid()[c],
            paving_at(final(self).grid(), road),
            paving_entries(final(self).grid(), road) == paving_entries(old(self).grid(), road),
            paving_links(final(self).grid(), road) == if paving_links(
                old(self).grid(),
                road,
            ).contains(to) {
                paving_links(old(self).grid(), road)
            } else {
                paving_links(old(self).grid(), road).push(to)
            },
    {
        let ghost g0 = old(self).grid();
        let ghost tiles0 = old(self).tiles@;
        let removed = self.tiles.remove(&key_of(road));
        match removed {
            Some(Tile::Paving(mut p)) => {
                proof {
                    assert(p == g0[road]->Paving_0);
                }
                if !coord_vec_contains(&p.pavings_pos, to) {
                    p.pavings_pos.push(to);
                }
                let tile = Tile::Paving(p);
                self.tiles.insert(key_of(road), tile);
                proof {
                    lemma_grid_remove(tiles0, road);
                    lemma_grid_insert(tiles0.remove(enc(road)), road, tile);
                    assert(self.grid() =~= g0.remove(road).insert(road, tile));
                    assert(self.grid().dom() =~= g0.dom());
                }
            },
            _ => {
                proof {
                    assert(false);
                }
            },
        }
    }

    /// Inserts a paving tile at `location`, linking it both ways with every
    /// already-paved neighbour. An unconnected cell may be paved; the check
    /// required is exactly `spec_can_pave`.
    pub fn pave(&mut self, location: Coord2)
        requires
            old(self).inv(),
            old(self).spec_can_pave(location),
        ensures
            final(self).inv(),
            final(self).dims() == old(self).dims(),
            forall|b: Building| final(self).building_seq(b) == old(self).building_seq(b),
            final(self).grid().dom() =~= old(self).grid().dom().insert(location),
            paving_at(final(self).grid(), location),
            paving_entries(final(self).grid(), location) == Seq::<Coord2>::empty(),
            forall|c: Coord2|
                paving_links(final(self).grid(), location).contains(c) <==> adjacent(location, c)
                    && paving_at(old(self).grid(), c),
            forall|c: Coord2|
                old(self).grid().contains_key(c) && c != location && !(adjacent(location, c)
                    && paving_at(old(self).grid(), c)) ==> final(self).grid()[c] == old(
                    self,
                ).grid()[c],
            forall|c: Coord2|
                adjacent(location, c) && paving_at(old(self).grid(), c) ==> {
                    &&& paving_at(final(self).grid(), c)
                    &&& paving_entries(final(self).grid(), c) == paving_entries(
                        old(self).grid(),
                        c,
                    )
                    &&& forall|d: Coord2|
                        paving_links(final(self).grid(), c).contains(d) <==> paving_links(
                            old(self).grid(),
                            c,
                        ).contains(d) || d == location
                },
    {
        let ghost g0 = old(self).grid();
        let neighbouring_pavings = self.neighbouring_pavings(location);
        let mut i: usize = 0;
        while i < neighbouring_pavings.len()
            invariant
                old(self).inv(),
                old(self).spec_can_pave(location),
                neighbouring_pavings@.no_duplicates(),
                forall|c: Coord2|
                    #[trigger] neighbouring_pavings@.contains(c) <==> adjacent(location, c)
                        && paving_at(g0, c),
                0 <= i <= neighbouring_pavings@.len(),
                g0 == old(self).grid(),
                self.dims() == old(self).dims(),
                forall|b: Building| self.building_seq(b) == old(self).building_seq(b),
                self.grid().dom() =~= g0.dom(),
                forall|c: Coord2|
                    g0.contains_key(c) && !neighbouring_pavings@.subrange(0, i as int).contains(c)
                        ==> self.grid()[c] == g0[c],
                forall|j: int|
                    0 <= j < i ==> {
                        let n = #[trigger] neighbouring_pavings@[j];
                        &&& paving_at(self.grid(), n)
                        &&& paving_entries(self.grid(), n) == paving_entries(g0, n)
                        &&& paving_links(self.grid(), n) == if paving_links(g0, n).contains(
                            location,
                        ) {
                            paving_links(g0, n)
                        } else {
                            paving_links(g0, n).push(location)
                        }
                    },
            decreases neighbouring_pavings@.len() - i,
        {
            let n = neighbouring_pavings[i];
            proof {
                assert(neighbouring_pavings@.contains(neighbouring_pavings@[i as int]));
                assert(paving_at(g0, n));
                if neighbouring_pavings@.subrange(0, i as int).contains(n) {
                    let j = choose|j: int| 0 <= j < i && neighbouring_pavings@[j] == n;
                    assert(neighbouring_pavings@[j] == neighbouring_pavings@[i as int]);
                    assert(false);
                }
                assert(self.grid()[n] == g0[n]);
                assert(paving_at(self.grid(), n));
            }
            let ghost mid = self.grid();
            self.add_paving_link(n, location);
            proof {
                assert forall|c: Coord2|
                    g0.contains_key(c) && !neighbouring_pavings@.subrange(
                        0,
                        i + 1 as int,
                    ).contains(c) implies self.grid()[c] == g0[c] by {
                    assert(c != n) by {
                        assert(neighbouring_pavings@.subrange(0, i + 1 as int)[i as int]
                            == neighbouring_pavings@[i as int]);
                    }
                    if neighbouring_pavings@.subrange(0, i as int).contains(c) {
                        let j = choose|j: int|
                            0 <= j < i && neighbouring_pavings@.subrange(0, i as int)[j] == c;
                        assert(neighbouring_pavings@.subrange(0, i + 1 as int)[j] == c);
                        assert(false);
                    }
                    assert(mid[c] == g0[c]);
                }
                assert forall|j: int| 0 <= j < i + 1 implies {
                    let n2 = #[trigger] neighbouring_pavings@[j];
                    &&& paving_at(self.grid(), n2)
                    &&& paving_entries(self.grid(), n2) == paving_entries(g0, n2)
                    &&& paving_links(self.grid(), n2) == if paving_links(g0, n2).contains(
                        location,
                    ) {
                        paving_links(g0, n2)
                    } else {
                        paving_links(g0, n2).push(location)
                    }
                } by {
                    let n2 = neighbouring_pavings@[j];
                    if j < i {
                        assert(n2 != n) by {
                            if n2 == n {
                                assert(neighbouring_pavings@[j]
                                    == neighbouring_pavings@[i as int]);
                            }
                        }
                        assert(self.grid()[n2] == mid[n2]);
                    }
                }
            }
            i = i + 1;
        }
        // Insert the new paving tile itself, linked to every paved neighbour.
        let ghost mid = self.grid();
        let ghost mid_tiles = self.tiles@;
        let ghost np = neighbouring_pavings@;
        let tile = Tile::Paving(
            PavingTile { entryways_pos: Vec::new(), pavings_pos: neighbouring_pavings },
        );
        let ghost tile_g = tile;
        self.tiles.insert(key_of(location), tile);
        proof {
            lemma_grid_insert(mid_tiles, location, tile_g);
            assert(self.grid() =~= mid.insert(location, tile_g));
            let g0 = old(self).grid();
            let g1 = self.grid();
            lemma_can_pave_no_near_refs(*old(self), location);
            assert(np.subrange(0, np.len() as int) =~= np);
            // Membership form of the per-neighbour loop facts.
            assert forall|n: Coord2| #[trigger] np.contains(n) implies paving_at(mid, n)
                && paving_entries(mid, n) == paving_entries(g0, n) && paving_links(mid, n)
                == (if paving_links(g0, n).contains(location) {
                paving_links(g0, n)
            } else {
                paving_links(g0, n).push(location)
            }) by {
                let j = choose|j: int| 0 <= j < np.len() && np[j] == n;
                assert(np[j] == n);
            }
            // Pavingness at cells other than `location` is what it was.
            assert forall|c: Coord2| c != location implies paving_at(mid, c) == paving_at(
                g0,
                c,
            ) by {
                if np.contains(c) {
                } else {
                    if g0.contains_key(c) {
                        assert(mid[c] == g0[c]);
                    }
                }
            }
            // Every updated neighbour records the new paving.
            assert forall|n: Coord2| #[trigger] np.contains(n) implies paving_links(
                mid,
                n,
            ).contains(location) by {
                let links0 = paving_links(g0, n);
                if links0.contains(location) {
                } else {
                    assert(links0.push(location)[links0.len() as int] == location);
                }
            }
            // Links only grow on updated neighbours.
            assert forall|n: Coord2, d: Coord2|
                np.contains(n) && paving_links(g0, n).contains(d) implies #[trigger] paving_links(
                mid,
                n,
            ).contains(d) by {
                let links0 = paving_links(g0, n);
                let j = choose|j: int| 0 <= j < links0.len() && links0[j] == d;
                if !links0.contains(location) {
                    assert(links0.push(location)[j] == d);
                }
            }
            assert forall|n: Coord2, d: Coord2|
                np.contains(n) && #[trigger] paving_links(mid, n).contains(d) implies paving_links(
                g0,
                n,
            ).contains(d) || d == location by {
                let links0 = paving_links(g0, n);
                if !links0.contains(location) {
                    let j = choose|j: int|
                        0 <= j < paving_links(mid, n).len() && paving_links(mid, n)[j] == d;
                    if j < links0.len() {
                        assert(links0[j] == d);
                    }
                }
            }
            // Each tile of the new grid keeps its links mirrored.
            assert forall|c: Coord2| g1.contains_key(c) implies self.tile_ok(c) by {
                if c == location {
                    assert(g1[c] == tile_g);
                    assert forall|k: int| 0 <= k < np.len() implies {
                        let q = #[trigger] np[k];
                        &&& adjacent(location, q)
                        &&& paving_at(g1, q)
                        &&& paving_links(g1, q).contains(location)
                    } by {
                        let q = np[k];
                        assert(np.contains(q));
                        assert(adjacent(location, q) && paving_at(g0, q));
                        assert(q != location);
                        assert(g1[q] == mid[q]);
                    }
                } else {
                    assert(mid.contains_key(c));
                    assert(g0.contains_key(c));
                    assert(old(self).tile_ok(c));
                    if np.contains(c) {
                        // A neighbouring paving, updated to record `location`.
                        let p1 = g1[c]->Paving_0;
                        assert(g1[c] == mid[c]);
                        assert(paving_at(mid, c));
                        let entries = paving_entries(g0, c);
                        assert(p1.entryways_pos@ == entries);
                        assert forall|i2: int| 0 <= i2 < entries.len() implies {
                            let e = #[trigger] entries[i2];
                            &&& adjacent(c, e)
                            &&& entrance_at(g1, e)
                            &&& entrance_of(g1, e).road_pos == c
                        } by {
                            let e = entries[i2];
                            assert(entrance_at(g0, e));
                            assert(e != location);
                            assert(!paving_at(g0, e));
                            assert(!np.contains(e));
                            assert(g1[e] == mid[e] && mid[e] == g0[e]);
                        }
                        let links1 = paving_links(mid, c);
                        let links0 = paving_links(g0, c);
                        assert(links1.no_duplicates()) by {
                            if !links0.contains(location) {
                                assert forall|a2: int, b2: int|
                                    0 <= a2 < links1.len() && 0 <= b2 < links1.len() && a2
                                        != b2 implies links1[a2] != links1[b2] by {
                                    if a2 < links0.len() && b2 < links0.len() {
                                        assert(links0[a2] == links1[a2]);
                                        assert(links0[b2] == links1[b2]);
                                    } else if a2 < links0.len() {
                                        assert(links0.contains(links0[a2]));
                                        assert(adjacent(c, links1[a2]));
                                    } else if b2 < links0.len() {
                                        assert(links0.contains(links0[b2]));
                                        assert(adjacent(c, links1[b2]));
                                    }
                                }
                            }
                        }
                        assert forall|i2: int| 0 <= i2 < links1.len() implies {
                            let q = #[trigger] links1[i2];
                            &&& adjacent(c, q)
                            &&& paving_at(g1, q)
                            &&& paving_links(g1, q).contains(c)
                        } by {
                            let q = links1[i2];
                            assert(links1.contains(q));
                            if q == location {
                                assert(adjacent(location, c));
                                assert(paving_at(g1, location));
                                assert(paving_links(g1, location) == np);
                                assert(np.contains(c));
                            } else {
                                assert(links0.contains(q));
                                assert(adjacent(c, q) && paving_at(g0, q) && paving_links(
                                    g0,
                                    q,
                                ).contains(c));
                                assert(paving_at(g1, q)) by {
                                    assert(paving_at(mid, q));
                                    assert(g1[q] == mid[q]);
                                }
                                if np.contains(q) {
                                    assert(paving_links(mid, q).contains(c));
                                    assert(g1[q] == mid[q]);
                                } else {
                                    assert(mid[q] == g0[q]);
                                    assert(g1[q] == mid[q]);
                                }
                            }
                        }
                    } else {
                        assert(mid[c] == g0[c]);
                        assert(g1[c] == g0[c]);
                        match g0[c] {
                            Tile::Building(bt) => {
                                let e = bt.entryway_pos;
                                assert(entrance_at(g0, e));
                                assert(e != location);
                                assert(!paving_at(g0, e));
                                assert(!np.contains(e));
                                assert(g1[e] == mid[e] && mid[e] == g0[e]);
                            },
                            Tile::Entrance(et) => {
                                let r = et.road_pos;
                                let b = et.building_pos;
                                assert(entrance_at(g0, c));
                                assert(r != location && b != location);
                                assert(paving_at(g0, r));
                                assert(paving_at(g1, r)) by {
                                    assert(paving_at(mid, r));
                                    assert(g1[r] == mid[r]);
                                }
                                assert(paving_entries(g1, r) == paving_entries(g0, r)) by {
                                    if np.contains(r) {
                                    } else {
                                        assert(mid[r] == g0[r]);
                                    }
                                    assert(g1[r] == mid[r]);
                                }
                                assert(building_at(g0, b));
                                assert(!paving_at(g0, b));
                                assert(!np.contains(b));
                                assert(g1[b] == mid[b] && mid[b] == g0[b]);
                            },
                            Tile::Paving(p) => {
                                assert(!np.contains(c));
                                assert(!adjacent(location, c));
                                assert forall|i2: int|
                                    0 <= i2 < p.entryways_pos@.len() implies {
                                    let e = #[trigger] p.entryways_pos@[i2];
                                    &&& adjacent(c, e)
                                    &&& entrance_at(g1, e)
                                    &&& entrance_of(g1, e).road_pos == c
                                } by {
                                    let e = p.entryways_pos@[i2];
                                    assert(entrance_at(g0, e));
                                    assert(e != location);
                                    assert(!paving_at(g0, e));
                                    assert(!np.contains(e));
                                    assert(g1[e] == mid[e] && mid[e] == g0[e]);
                                }
                                assert forall|i2: int| 0 <= i2 < p.pavings_pos@.len() implies {
                                    let q = #[trigger] p.pavings_pos@[i2];
                                    &&& adjacent(c, q)
                                    &&& paving_at(g1, q)
                                    &&& paving_links(g1, q).contains(c)
                                } by {
                                    let q = p.pavings_pos@[i2];
                                    assert(adjacent(c, q) && paving_at(g0, q) && paving_links(
                                        g0,
                                        q,
                                    ).contains(c));
                                    assert(q != location) by {
                                        if q == location {
                                            assert(adjacent(location, c));
                                            assert(np.contains(c));
                                        }
                                    }
                                    assert(paving_at(g1, q)) by {
                                        assert(paving_at(mid, q));
                                        assert(g1[q] == mid[q]);
                                    }
                                    if np.contains(q) {
                                        assert(paving_links(mid, q).contains(c));
                                        assert(g1[q] == mid[q]);
                                    } else {
                                        assert(mid[q] == g0[q]);
                                        assert(g1[q] == mid[q]);
                                    }
                                }
                            },
                            Tile::Rails(rt) => {},
                        }
                    }
                }
            }
            // Adjacent pavings remain mutually linked.
            assert forall|c: Coord2, d: Coord2|
                #[trigger] paving_at(g1, c) && #[trigger] paving_at(g1, d) && adjacent(
                    c,
                    d,
                ) implies paving_links(g1, c).contains(d) by {
                if c == location {
                    assert(d != location);
                    assert(paving_at(mid, d)) by {
                        assert(g1[d] == mid[d]);
                    }
                    assert(paving_at(g0, d));
                    assert(np.contains(d));
                    assert(paving_links(g1, location) == np);
                } else if d == location {
                    assert(paving_at(g0, c)) by {
                        assert(g1[c] == mid[c]);
                    }
                    assert(adjacent(location, c));
                    assert(np.contains(c));
                    assert(paving_links(mid, c).contains(location));
                    assert(g1[c] == mid[c]);
                } else {
                    assert(paving_at(g0, c)) by {
                        assert(g1[c] == mid[c]);
                    }
                    assert(paving_at(g0, d)) by {
                        assert(g1[d] == mid[d]);
                    }
                    assert(paving_links(g0, c).contains(d));
                    if np.contains(c) {
                        assert(paving_links(mid, c).contains(d));
                        assert(g1[c] == mid[c]);
                    } else {
                        assert(mid[c] == g0[c]);
                        assert(g1[c] == mid[c]);
                    }
                }
            }
            // The building index is untouched and still points at buildings.
            assert forall|b: Building, i2: int|
                0 <= i2 < self.building_seq(b).len() implies {
                let bc = #[trigger] self.building_seq(b)[i2];
                &&& building_at(g1, bc)
                &&& building_of(g1, bc).building == b
            } by {
                let bc = self.building_seq(b)[i2];
                assert(old(self).building_seq(b)[i2] == bc);
                assert(building_at(g0, bc) && building_of(g0, bc).building == b);
                assert(bc != location);
                assert(!paving_at(g0, bc));
                assert(!np.contains(bc));
                assert(g1[bc] == mid[bc] && mid[bc] == g0[bc]);
            }
        }
    }
}

impl TileMap {
    /// Inserts a rails tile at the empty cell `location`. Rail tiles carry
    /// no adjacency: the core never routes or builds along rails.
    pub fn rail(&mut self, location: Coord2)
        requires
            old(self).inv(),
            !old(self).grid().contains_key(location),
        ensures
            final(self).inv(),
            final(self).dims() == old(self).dims(),
            forall|b: Building| final(self).building_seq(b) == old(self).building_seq(b),
            final(self).grid().dom() =~= old(self).grid().dom().insert(location),
            final(self).grid().contains_key(location),
            final(self).grid()[location] is Rails,
            rails_of(final(self).grid(), location).rails_pos@.len() == 0,
            rails_of(final(self).grid(), location).orientation == Orientation::Horizontal,
            !rails_of(final(self).grid(), location).is_station,
            forall|c: Coord2|
                old(self).grid().contains_key(c) ==> final(self).grid()[c] == old(self).grid()[c],
    {
        let ghost tiles0 = self.tiles@;
        let tile = Tile::Rails(
            RailsTile {
                is_station: false,
                orientation: Orientation::Horizontal,
                rails_pos: Vec::new(),
            },
        );
        let ghost tile_g = tile;
        self.tiles.insert(key_of(location), tile);
        proof {
            lemma_grid_insert(tiles0, location, tile_g);
            let g0 = old(self).grid();
            let g1 = self.grid();
            assert(g1 =~= g0.insert(location, tile_g));
            assert forall|c: Coord2| g1.contains_key(c) implies self.tile_ok(c) by {
                if c == location {
                    assert(g1[c] == tile_g);
                } else {
                    assert(g0.contains_key(c));
                    assert(old(self).tile_ok(c));
                    lemma_tile_ok_extend(*old(self), *self, c);
                }
            }
            assert forall|c: Coord2, d: Coord2|
                #[trigger] paving_at(g1, c) && #[trigger] paving_at(g1, d) && adjacent(
                    c,
                    d,
                ) implies paving_links(g1, c).contains(d) by {
                assert(c != location && d != location);
                assert(paving_at(g0, c) && paving_at(g0, d));
            }
            assert forall|b: Building, i2: int|
                0 <= i2 < self.building_seq(b).len() implies {
                let bc = #[trigger] self.building_seq(b)[i2];
                &&& building_at(g1, bc)
                &&& building_of(g1, bc).building == b
            } by {
                let bc = self.building_seq(b)[i2];
                assert(old(self).building_seq(b)[i2] == bc);
                assert(building_at(g0, bc) && building_of(g0, bc).building == b);
                assert(g1[bc] == g0[bc]);
            }
        }
    }

    /// Appends `to` to the entrance list of the paving at `road`.
    fn add_paving_entry(&mut self, road: Coord2, to: Coord2)
        requires
            paving_at(old(self).grid(), road),
        ensures
            final(self).dims() == old(self).dims(),
            forall|b: Building| final(self).building_seq(b) == old(self).building_seq(b),
            final(self).grid().dom() =~= old(self).grid().dom(),
            forall|c: Coord2|
                old(self).grid().contains_key(c) && c != road ==> final(self).grid()[c] == old(
                    self,
                ).grid()[c],
            paving_at(final(self).grid(), road),
            paving_links(final(self).grid(), road) == paving_links(old(self).grid(), road),
            paving_entries(final(self).grid(), road) == paving_entries(old(self).grid(), road).push(
                to,
            ),
    {
        let ghost g0 = old(self).grid();
        let ghost tiles0 = old(self).tiles@;
        let removed = self.tiles.remove(&key_of(road));
        match removed {
            Some(Tile::Paving(mut p)) => {
                proof {
                    assert(p == g0[road]->Paving_0);
                }
                p.entryways_pos.push(to);
                let tile = Tile::Paving(p);
                self.tiles.insert(key_of(road), tile);
                proof {
                    lemma_grid_remove(tiles0, road);
                    lemma_grid_insert(tiles0.remove(enc(road)), road, tile);
                    assert(self.grid() =~= g0.remove(road).insert(road, tile));
                    assert(self.grid().dom() =~= g0.dom());
                }
            },
            _ => {
                proof {
                    assert(false);
                }
            },
        }
    }

    /// Places a building of kind `building` at `location`, if the site
    /// allows it: all four neighbours empty and a road at distance two
    /// along an axis to take the entrance from. On success the building,
    /// its entrance on the midpoint cell toward the first such road (in
    /// north, south, east, west order), and the road's entrance record are
    /// all inserted, and `location` is appended to the building index. On
    /// failure the map is unchanged and `false` comes back.
    pub fn build(&mut self, location: Coord2, building: Building) -> (r: bool)
        requires
            old(self).inv(),
        ensures
            final(self).inv(),
            r == old(self).spec_can_build(location),
            !r ==> *final(self) == *old(self),
            final(self).dims() == old(self).dims(),
            r ==> {
                let (road, entry, orient) = old(self).spec_entryways(location)[0];
                &&& final(self).grid().dom() =~= old(self).grid().dom().insert(location).insert(
                    entry,
                )
                &&& building_at(final(self).grid(), location)
                &&& building_of(final(self).grid(), location) == (BuildingTile {
                    building,
                    entryway_pos: entry,
                })
                &&& entrance_at(final(self).grid(), entry)
                &&& entrance_of(final(self).grid(), entry) == (EntranceTile {
                    orientation: orient,
                    road_pos: road,
                    building_pos: location,
                })
                &&& paving_at(final(self).grid(), road)
                &&& paving_links(final(self).grid(), road) == paving_links(old(self).grid(), road)
                &&& paving_entries(final(self).grid(), road) == paving_entries(
                    old(self).grid(),
                    road,
                ).push(entry)
                &&& forall|c: Coord2|
                    old(self).grid().contains_key(c) && c != road && c != location
                        ==> final(self).grid()[c] == old(self).grid()[c]
                &&& final(self).building_seq(building) == old(self).building_seq(building).push(
                    location,
                )
                &&& forall|b: Building|
                    b != building ==> final(self).building_seq(b) == old(self).building_seq(b)
            },
    {
        if !self.can_build(location) {
            return false;
        }
        let ghost g0 = self.grid();
        let possible_entryways = self.entryways_to_build_from(location);
        let (road_pos, entryway_pos, orientation) = possible_entryways[0];
        proof {
            lemma_spec_roads_axis(*self, location, 0);
            assert(old(self).spec_entryways(location)[0] == (road_pos, entryway_pos, orientation));
            assert(adjacent(location, entryway_pos));
            assert(adjacent(road_pos, entryway_pos));
            assert(paving_at(g0, road_pos));
            assert(!g0.contains_key(entryway_pos));
            lemma_can_pave_no_near_refs(*old(self), location);
        }

        // Insert the new building and index it.
        let ghost tiles0 = self.tiles@;
        let building_tile = Tile::Building(BuildingTile { building, entryway_pos });
        let ghost building_tile_g = building_tile;
        self.tiles.insert(key_of(location), building_tile);
        match building {
            Building::House => self.houses.push(location),
            Building::Saloon => self.saloons.push(location),
            Building::Factory => self.factories.push(location),
            Building::GeneralStore => self.general_stores.push(location),
            Building::TrainStation => self.train_stations.push(location),
        }
        proof {
            lemma_grid_insert(tiles0, location, building_tile_g);
        }

        // Insert the new entrance.
        let ghost tiles1 = self.tiles@;
        let ghost g1 = self.grid();
        let entrance_tile = Tile::Entrance(
            EntranceTile { road_pos, building_pos: location, orientation },
        );
        let ghost entrance_tile_g = entrance_tile;
        self.tiles.insert(key_of(entryway_pos), entrance_tile);
        proof {
            lemma_grid_insert(tiles1, entryway_pos, entrance_tile_g);
            assert(self.grid() =~= g0.insert(location, building_tile_g).insert(
                entryway_pos,
                entrance_tile_g,
            ));
            assert(paving_at(self.grid(), road_pos)) by {
                assert(road_pos != location && road_pos != entryway_pos);
            }
        }

        // Record the new entrance on its road.
        let ghost g2 = self.grid();
        self.add_paving_entry(road_pos, entryway_pos);
        proof {
            self.lemma_build_restores_inv(
                *old(self),
                location,
                building,
                road_pos,
                entryway_pos,
                orientation,
                g2,
            );
        }
        true
    }

    /// The invariant-restoration argument behind `build`.
    proof fn lemma_build_restores_inv(
        &self,
        m0: TileMap,
        location: Coord2,
        building: Building,
        road_pos: Coord2,
        entryway_pos: Coord2,
        orientation: Orientation,
        g2: Map<Coord2, Tile>,
    )
        requires
            m0.inv(),
            m0.spec_can_build(location),
            paving_at(m0.grid(), road_pos),
            !m0.grid().contains_key(entryway_pos),
            adjacent(location, entryway_pos),
            adjacent(road_pos, entryway_pos),
            road_pos != location,
            !adjacent(location, road_pos),
            g2 == m0.grid().insert(
                location,
                Tile::Building(BuildingTile { building, entryway_pos }),
            ).insert(
                entryway_pos,
                Tile::Entrance(EntranceTile { road_pos, building_pos: location, orientation }),
            ),
            // What `add_paving_entry` guarantees, phrased against `g2`:
            self.dims() == m0.dims(),
            self.grid().dom() =~= g2.dom(),
            forall|c: Coord2|
                g2.contains_key(c) && c != road_pos ==> self.grid()[c] == g2[c],
            paving_at(self.grid(), road_pos),
            paving_links(self.grid(), road_pos) == paving_links(m0.grid(), road_pos),
            paving_entries(self.grid(), road_pos) == paving_entries(m0.grid(), road_pos).push(
                entryway_pos,
            ),
            self.building_seq(building) == m0.building_seq(building).push(location),
            forall|b: Building| b != building ==> self.building_seq(b) == m0.building_seq(b),
        ensures
            self.inv(),
    {
        let g0 = m0.grid();
        let g3 = self.grid();
        // Nothing in the old map referenced `location` or `entryway_pos`.
        assert(!building_at(g0, location) && !entrance_at(g0, location)) by {
            if building_at(g0, location) {
                assert(m0.tile_ok(location));
                let bt = g0[location]->Building_0;
                assert(adjacent(location, bt.entryway_pos));
                assert(entrance_at(g0, bt.entryway_pos));
                assert(false);
            }
            if entrance_at(g0, location) {
                assert(m0.tile_ok(location));
                let et = g0[location]->Entrance_0;
                assert(adjacent(location, et.building_pos));
                assert(building_at(g0, et.building_pos));
                assert(false);
            }
        }
        assert forall|c: Coord2| #[trigger] entrance_at(g0, c) implies c != location && c
            != entryway_pos && entrance_of(g0, c).road_pos != location && entrance_of(
            g0,
            c,
        ).building_pos != location by {
            assert(g0.contains_key(c));
            assert(m0.tile_ok(c));
            let et = g0[c]->Entrance_0;
            if et.road_pos == location || et.building_pos == location {
                assert(adjacent(location, c));
                assert(false);
            }
        }
        assert forall|c: Coord2| #[trigger] building_at(g0, c) implies c != location
            && building_of(g0, c).entryway_pos != location by {
            assert(g0.contains_key(c));
            assert(m0.tile_ok(c));
            let bt = g0[c]->Building_0;
            if bt.entryway_pos == location {
                assert(entrance_at(g0, location));
                assert(false);
            }
        }
        assert forall|c: Coord2| #[trigger] paving_at(g0, c) implies !paving_links(
            g0,
            c,
        ).contains(location) && !paving_entries(g0, c).contains(location) by {
            assert(g0.contains_key(c));
            assert(m0.tile_ok(c));
            let p = g0[c]->Paving_0;
            if p.pavings_pos@.contains(location) {
                let i = choose|i: int|
                    0 <= i < p.pavings_pos@.len() && p.pavings_pos@[i] == location;
                assert(adjacent(c, location));
                assert(adjacent(location, c));
                assert(false);
            }
            if p.entryways_pos@.contains(location) {
                let i = choose|i: int|
                    0 <= i < p.entryways_pos@.len() && p.entryways_pos@[i] == location;
                assert(entrance_at(g0, location));
                assert(false);
            }
        }
        // The new entrance is not among the road's old entrances.
        assert(!paving_entries(g0, road_pos).contains(entryway_pos)) by {
            if paving_entries(g0, road_pos).contains(entryway_pos) {
                assert(m0.tile_ok(road_pos));
                let p = g0[road_pos]->Paving_0;
                let i = choose|i: int|
                    0 <= i < p.entryways_pos@.len() && p.entryways_pos@[i] == entryway_pos;
                assert(entrance_at(g0, entryway_pos));
                assert(false);
            }
        }
        let entries3 = paving_entries(g3, road_pos);
        let entries0 = paving_entries(g0, road_pos);
        assert(entries3 == entries0.push(entryway_pos));
        assert(entries3.contains(entryway_pos)) by {
            assert(entries3[entries3.len() - 1] == entryway_pos);
        }
        assert forall|x: Coord2| entries0.contains(x) implies #[trigger] entries3.contains(x) by {
            let i = choose|i: int| 0 <= i < entries0.len() && entries0[i] == x;
            assert(entries3[i] == x);
        }
        assert forall|x: Coord2| #[trigger] entries3.contains(x) implies entries0.contains(x) || x
            == entryway_pos by {
            let i = choose|i: int| 0 <= i < entries3.len() && entries3[i] == x;
            if i < entries0.len() {
                assert(entries0[i] == x);
            }
        }
        // The three touched cells, and framing for every other cell.
        assert(entryway_pos != road_pos);
        assert(entryway_pos != location);
        assert(g2.contains_key(location) && g2.contains_key(entryway_pos));
        assert(g3[location] == g2[location] && g3[entryway_pos] == g2[entryway_pos]);
        assert(building_at(g3, location));
        assert(entrance_at(g3, entryway_pos));
        assert(!paving_at(g3, location) && !paving_at(g3, entryway_pos));
        assert(g3.contains_key(location) && g3.contains_key(entryway_pos) && g3.contains_key(
            road_pos,
        ));
        assert forall|c: Coord2|
            #[trigger] g0.contains_key(c) && c != location && c != entryway_pos && c
                != road_pos implies g3.contains_key(c) && g3[c] == g0[c] by {
            assert(g2.contains_key(c));
            assert(g2[c] == g0[c]);
            assert(g3[c] == g2[c]);
        }
        // Tile-by-tile check.
        assert forall|c: Coord2| g3.contains_key(c) implies self.tile_ok(c) by {
            if c == location {
                assert(g3[c] == g2[c]);
                assert(g3[c] == (Tile::Building(BuildingTile { building, entryway_pos })));
                assert(entrance_at(g3, entryway_pos)) by {
                    assert(g3[entryway_pos] == g2[entryway_pos]);
                }
                assert(self.building_seq(building).contains(location)) by {
                    let s = self.building_seq(building);
                    assert(s[s.len() - 1] == location);
                }
            } else if c == entryway_pos {
                assert(g3[c] == g2[c]);
                assert(paving_at(g3, road_pos));
                assert(entries3.contains(entryway_pos));
                assert(building_at(g3, location)) by {
                    assert(g3[location] == g2[location]);
                }
            } else if c == road_pos {
                let p3 = g3[road_pos]->Paving_0;
                assert(m0.tile_ok(road_pos));
                let p0 = g0[road_pos]->Paving_0;
                assert(p3.entryways_pos@ == entries0.push(entryway_pos));
                assert(p3.pavings_pos@ == p0.pavings_pos@);
                assert(p3.entryways_pos@.no_duplicates()) by {
                    assert forall|a2: int, b2: int|
                        0 <= a2 < entries3.len() && 0 <= b2 < entries3.len() && a2
                            != b2 implies entries3[a2] != entries3[b2] by {
                        if a2 < entries0.len() && b2 < entries0.len() {
                            assert(entries0[a2] == entries3[a2]);
                            assert(entries0[b2] == entries3[b2]);
                        } else if a2 < entries0.len() {
                            assert(entries0.contains(entries0[a2]));
                        } else if b2 < entries0.len() {
                            assert(entries0.contains(entries0[b2]));
                        }
                    }
                }
                assert forall|i: int| 0 <= i < p3.entryways_pos@.len() implies {
                    let e = #[trigger] p3.entryways_pos@[i];
                    &&& adjacent(road_pos, e)
                    &&& entrance_at(g3, e)
                    &&& entrance_of(g3, e).road_pos == road_pos
                } by {
                    let e = p3.entryways_pos@[i];
                    if i < entries0.len() {
                        assert(entries0[i] == e);
                        assert(entrance_at(g0, e));
                        assert(e != location && e != entryway_pos);
                        assert(g3[e] == g2[e] && g2[e] == g0[e]);
                    } else {
                        assert(e == entryway_pos);
                        assert(g3[e] == g2[e]);
                    }
                }
                assert forall|i: int| 0 <= i < p3.pavings_pos@.len() implies {
                    let q = #[trigger] p3.pavings_pos@[i];
                    &&& adjacent(road_pos, q)
                    &&& paving_at(g3, q)
                    &&& paving_links(g3, q).contains(road_pos)
                } by {
                    let q = p3.pavings_pos@[i];
                    assert(p0.pavings_pos@[i] == q);
                    assert(adjacent(road_pos, q) && paving_at(g0, q) && paving_links(
                        g0,
                        q,
                    ).contains(road_pos));
                    assert(q != location) by {
                        if q == location {
                            assert(adjacent(location, road_pos));
                        }
                    }
                    assert(q != entryway_pos);
                    if q == road_pos {
                    } else {
                        assert(g3[q] == g2[q] && g2[q] == g0[q]);
                    }
                }
            } else {
                // An untouched tile.
                assert(g3[c] == g2[c] && g2[c] == g0[c]);
                assert(g0.contains_key(c));
                assert(m0.tile_ok(c));
                match g0[c] {
                    Tile::Building(bt) => {
                        let e = bt.entryway_pos;
                        assert(entrance_at(g0, e));
                        assert(e != location && e != entryway_pos);
                        if e == road_pos {
                            assert(paving_at(g0, road_pos));
                            assert(false);
                        }
                        assert(g3[e] == g2[e] && g2[e] == g0[e]);
                        assert(self.building_seq(bt.building).contains(c)) by {
                            let s0 = m0.building_seq(bt.building);
                            let s3 = self.building_seq(bt.building);
                            let i = choose|i: int| 0 <= i < s0.len() && s0[i] == c;
                            assert(s3[i] == c);
                        }
                    },
                    Tile::Entrance(et) => {
                        let rp = et.road_pos;
                        let b = et.building_pos;
                        assert(paving_at(g0, rp));
                        assert(rp != location && rp != entryway_pos);
                        if rp == road_pos {
                            assert(paving_entries(g0, road_pos).contains(c));
                            assert(entries3.contains(c));
                        } else {
                            assert(g3[rp] == g2[rp] && g2[rp] == g0[rp]);
                        }
                        assert(building_at(g0, b));
                        assert(b != location);
                        assert(b != entryway_pos && b != road_pos);
                        assert(g3[b] == g2[b] && g2[b] == g0[b]);
                    },
                    Tile::Paving(p) => {
                        assert forall|i: int| 0 <= i < p.entryways_pos@.len() implies {
                            let e = #[trigger] p.entryways_pos@[i];
                            &&& adjacent(c, e)
                            &&& entrance_at(g3, e)
                            &&& entrance_of(g3, e).road_pos == c
                        } by {
                            let e = p.entryways_pos@[i];
                            assert(entrance_at(g0, e));
                            assert(e != location && e != entryway_pos && e != road_pos);
                            assert(g3[e] == g2[e] && g2[e] == g0[e]);
                        }
                        assert forall|i: int| 0 <= i < p.pavings_pos@.len() implies {
                            let q = #[trigger] p.pavings_pos@[i];
                            &&& adjacent(c, q)
                            &&& paving_at(g3, q)
                            &&& paving_links(g3, q).contains(c)
                        } by {
                            let q = p.pavings_pos@[i];
                            assert(adjacent(c, q) && paving_at(g0, q) && paving_links(
                                g0,
                                q,
                            ).contains(c));
                            assert(q != location && q != entryway_pos);
                            if q == road_pos {
                                assert(paving_links(g3, road_pos) == paving_links(g0, road_pos));
                            } else {
                                assert(g3[q] == g2[q] && g2[q] == g0[q]);
                            }
                        }
                    },
                    Tile::Rails(rt) => {},
                }
            }
        }
        // Adjacent pavings stay mutually linked.
        assert forall|c: Coord2, d: Coord2|
            #[trigger] paving_at(g3, c) && #[trigger] paving_at(g3, d) && adjacent(
                c,
                d,
            ) implies paving_links(g3, c).contains(d) by {
            assert(c != location && c != entryway_pos);
            assert(d != location && d != entryway_pos);
            assert(paving_at(g0, c)) by {
                if c != road_pos {
                    assert(g3[c] == g2[c] && g2[c] == g0[c]);
                }
            }
            assert(paving_at(g0, d)) by {
                if d != road_pos {
                    assert(g3[d] == g2[d] && g2[d] == g0[d]);
                }
            }
            assert(paving_links(g0, c).contains(d));
            if c == road_pos {
                assert(paving_links(g3, road_pos) == paving_links(g0, road_pos));
            } else {
                assert(g3[c] == g2[c] && g2[c] == g0[c]);
            }
        }
        // The building index still lists exactly building tiles.
        assert forall|b: Building, i2: int|
            0 <= i2 < self.building_seq(b).len() implies {
            let bc = #[trigger] self.building_seq(b)[i2];
            &&& building_at(g3, bc)
            &&& building_of(g3, bc).building == b
        } by {
            let bc = self.building_seq(b)[i2];
            if b == building && i2 == self.building_seq(b).len() - 1 {
                assert(bc == location);
                assert(g3[location] == g2[location]);
            } else {
                assert(m0.building_seq(b)[i2] == bc);
                assert(building_at(g0, bc) && building_of(g0, bc).building == b);
                assert(bc != location);
                assert(bc != entryway_pos && bc != road_pos);
                assert(g3[bc] == g2[bc] && g2[bc] == g0[bc]);
            }
        }
        assert forall|b: Building| (#[trigger] self.building_seq(b)).no_duplicates() by {
            let s0 = m0.building_seq(b);
            if b == building {
                let s3 = self.building_seq(b);
                assert(!s0.contains(location)) by {
                    if s0.contains(location) {
                        let i = choose|i: int| 0 <= i < s0.len() && s0[i] == location;
                        assert(building_at(g0, location));
                        assert(false);
                    }
                }
                assert forall|a2: int, b2: int|
                    0 <= a2 < s3.len() && 0 <= b2 < s3.len() && a2 != b2 implies s3[a2]
                    != s3[b2] by {
                    if a2 < s0.len() && b2 < s0.len() {
                        assert(s0[a2] == s3[a2]);
                        assert(s0[b2] == s3[b2]);
                    } else if a2 < s0.len() {
                        assert(s0.contains(s0[a2]));
                    } else if b2 < s0.len() {
                        assert(s0.contains(s0[b2]));
                    }
                }
            }
        }
    }
}

/// Removing one index from a duplicate-free sequence removes exactly that
/// element from its membership.
proof fn lemma_seq_remove_membership(s: Seq<Coord2>, i: int)
    requires
        0 <= i < s.len(),
        s.no_duplicates(),
    ensures
        s.remove(i).no_duplicates(),
        forall|x: Coord2| s.remove(i).contains(x) <==> s.contains(x) && x != s[i],
{
    let t = s.remove(i);
    assert forall|x: Coord2| t.contains(x) implies s.contains(x) && x != s[i] by {
        let j = choose|j: int| 0 <= j < t.len() && t[j] == x;
        if j < i {
            assert(s[j] == x);
        } else {
            assert(s[j + 1] == x);
        }
    }
    assert forall|x: Coord2| s.contains(x) && x != s[i] implies t.contains(x) by {
        let j = choose|j: int| 0 <= j < s.len() && s[j] == x;
        if j < i {
            assert(t[j] == x);
        } else {
            assert(t[j - 1] == x);
        }
    }
    assert forall|a2: int, b2: int|
        0 <= a2 < t.len() && 0 <= b2 < t.len() && a2 != b2 implies t[a2] != t[b2] by {
        let sa = if a2 < i {
            a2
        } else {
            a2 + 1
        };
        let sb = if b2 < i {
            b2
        } else {
            b2 + 1
        };
        assert(t[a2] == s[sa] && t[b2] == s[sb]);
    }
}

/// Removes `c` from `v`, which must hold no duplicates: the one index
/// holding `c` is removed and everything else keeps its order.
fn remove_coord(v: &mut Vec<Coord2>, c: Coord2)
    requires
        old(v)@.no_duplicates(),
    ensures
        final(v)@.no_duplicates(),
        forall|x: Coord2| final(v)@.contains(x) <==> old(v)@.contains(x) && x != c,
        old(v)@.contains(c) ==> exists|j: int|
            0 <= j < old(v)@.len() && old(v)@[j] == c && final(v)@ == old(v)@.remove(j),
        !old(v)@.contains(c) ==> final(v)@ == old(v)@,
{
    let mut i: usize = 0;
    while i < v.len()
        invariant
            v@ == old(v)@,
            old(v)@.no_duplicates(),
            0 <= i <= v@.len(),
            forall|j: int| 0 <= j < i ==> v@[j] != c,
        decreases v@.len() - i,
    {
        if v[i].x == c.x && v[i].y == c.y {
            let ghost iv = i as int;
            proof {
                assert(v@[iv] == c);
                assert(old(v)@.contains(c));
            }
            v.remove(i);
            proof {
                lemma_seq_remove_membership(old(v)@, iv);
                assert(0 <= iv < old(v)@.len() && old(v)@[iv] == c && v@ == old(v)@.remove(iv));
            }
            return;
        }
        i = i + 1;
    }
    proof {
        assert forall|x: Coord2| v@.contains(x) <==> old(v)@.contains(x) && x != c by {
            if v@.contains(x) {
                let j = choose|j: int| 0 <= j < v@.len() && v@[j] == x;
                assert(x != c);
            }
        }
    }
}

impl TileMap {
    /// Strikes `pos` off the index list for buildings of kind `kind`.
    fn remove_from_index(&mut self, kind: Building, pos: Coord2)
        requires
            old(self).building_seq(kind).no_duplicates(),
        ensures
            final(self).dims() == old(self).dims(),
            final(self).grid() == old(self).grid(),
            final(self).building_seq(kind).no_duplicates(),
            forall|x: Coord2|
                final(self).building_seq(kind).contains(x) <==> old(self).building_seq(
                    kind,
                ).contains(x) && x != pos,
            old(self).building_seq(kind).contains(pos) ==> exists|j: int|
                0 <= j < old(self).building_seq(kind).len() && old(self).building_seq(kind)[j]
                    == pos && final(self).building_seq(kind) == old(self).building_seq(
                    kind,
                ).remove(j),
            !old(self).building_seq(kind).contains(pos) ==> final(self).building_seq(kind) == old(
                self,
            ).building_seq(kind),
            forall|b: Building|
                b != kind ==> final(self).building_seq(b) == old(self).building_seq(b),
    {
        match kind {
            Building::House => remove_coord(&mut self.houses, pos),
            Building::Saloon => remove_coord(&mut self.saloons, pos),
            Building::Factory => remove_coord(&mut self.factories, pos),
            Building::GeneralStore => remove_coord(&mut self.general_stores, pos),
            Building::TrainStation => remove_coord(&mut self.train_stations, pos),
        }
    }

    /// Strikes `from` off the paving links recorded on the paving at `road`.
    fn remove_paving_link(&mut self, road: Coord2, from: Coord2)
        requires
            paving_at(old(self).grid(), road),
            paving_links(old(self).grid(), road).no_duplicates(),
        ensures
            final(self).dims() == old(self).dims(),
            forall|b: Building| final(self).building_seq(b) == old(self).building_seq(b),
            final(self).grid().dom() =~= old(self).grid().dom(),
            forall|c: Coord2|
                old(self).grid().contains_key(c) && c != road ==> final(self).grid()[c] == old(
                    self,
                ).grid()[c],
            paving_at(final(self).grid(), road),
            paving_entries(final(self).grid(), road) == paving_entries(old(self).grid(), road),
            paving_links(final(self).grid(), road).no_duplicates(),
            forall|x: Coord2|
                paving_links(final(self).grid(), road).contains(x) <==> paving_links(
                    old(self).grid(),
                    road,
                ).contains(x) && x != from,
    {
        let ghost g0 = old(self).grid();
        let ghost tiles0 = old(self).tiles@;
        let removed = self.tiles.remove(&key_of(road));
        match removed {
            Some(Tile::Paving(mut p)) => {
                proof {
                    assert(p == g0[road]->Paving_0);
                }
                remove_coord(&mut p.pavings_pos, from);
                let tile = Tile::Paving(p);
                self.tiles.insert(key_of(road), tile);
                proof {
                    lemma_grid_remove(tiles0, road);
                    lemma_grid_insert(tiles0.remove(enc(road)), road, tile);
                    assert(self.grid() =~= g0.remove(road).insert(road, tile));
                    assert(self.grid().dom() =~= g0.dom());
                }
            },
            _ => {
                proof {
                    assert(false);
                }
            },
        }
    }

    /// Strikes `e` off the entrance records of the paving at `road`.
    fn remove_paving_entry(&mut self, road: Coord2, e: Coord2)
        requires
            paving_at(old(self).grid(), road),
            paving_entries(old(self).grid(), road).no_duplicates(),
        ensures
            final(self).dims() == old(self).dims(),
            forall|b: Building| final(self).building_seq(b) == old(self).building_seq(b),
            final(self).grid().dom() =~= old(self).grid().dom(),
            forall|c: Coord2|
                old(self).grid().contains_key(c) && c != road ==> final(self).grid()[c] == old(
                    self,
                ).grid()[c],
            paving_at(final(self).grid(), road),
            paving_links(final(self).grid(), road) == paving_links(old(self).grid(), road),
            paving_entries(final(self).grid(), road).no_duplicates(),
            forall|x: Coord2|
                paving_entries(final(self).grid(), road).contains(x) <==> paving_entries(
                    old(self).grid(),
                    road,
                ).contains(x) && x != e,
            paving_entries(old(self).grid(), road).contains(e) ==> exists|j: int|
                0 <= j < paving_entries(old(self).grid(), road).len() && paving_entries(
                    old(self).grid(),
                    road,
                )[j] == e && paving_entries(final(self).grid(), road) == paving_entries(
                    old(self).grid(),
                    road,
                ).remove(j),
            !paving_entries(old(self).grid(), road).contains(e) ==> paving_entries(
                final(self).grid(),
                road,
            ) == paving_entries(old(self).grid(), road),
    {
        let ghost g0 = old(self).grid();
        let ghost tiles0 = old(self).tiles@;
        let removed = self.tiles.remove(&key_of(road));
        match removed {
            Some(Tile::Paving(mut p)) => {
                proof {
                    assert(p == g0[road]->Paving_0);
                }
                remove_coord(&mut p.entryways_pos, e);
                let tile = Tile::Paving(p);
                self.tiles.insert(key_of(road), tile);
                proof {
                    lemma_grid_remove(tiles0, road);
                    lemma_grid_insert(tiles0.remove(enc(road)), road, tile);
                    assert(self.grid() =~= g0.remove(road).insert(road, tile));
                    assert(self.grid().dom() =~= g0.dom());
                }
            },
            _ => {
                proof {
                    assert(false);
                }
            },
        }
    }
}

/// What deleting the building at `building_pos` (with its entrance at
/// `entryway_pos`) leaves behind: both tiles gone, the entrance struck off
/// its road's records and the building struck off the index, and every
/// other tile untouched.
pub open spec fn deleted_building_post(
    m0: TileMap,
    m1: TileMap,
    building_pos: Coord2,
    entryway_pos: Coord2,
) -> bool {
    let g0 = m0.grid();
    let g1 = m1.grid();
    let road = entrance_of(g0, entryway_pos).road_pos;
    let kind = building_of(g0, building_pos).building;
    &&& g1.dom() =~= g0.dom().remove(building_pos).remove(entryway_pos)
    &&& forall|c: Coord2| g1.contains_key(c) && c != road ==> g1[c] == g0[c]
    &&& paving_at(g1, road)
    &&& paving_links(g1, road) == paving_links(g0, road)
    &&& forall|x: Coord2|
        paving_entries(g1, road).contains(x) <==> paving_entries(g0, road).contains(x) && x
            != entryway_pos
    &&& exists|j: int|
        0 <= j < paving_entries(g0, road).len() && #[trigger] paving_entries(g0, road)[j]
            == entryway_pos && paving_entries(g1, road) == paving_entries(g0, road).remove(j)
    &&& forall|x: Coord2|
        m1.building_seq(kind).contains(x) <==> m0.building_seq(kind).contains(x) && x
            != building_pos
    &&& exists|j: int|
        0 <= j < m0.building_seq(kind).len() && #[trigger] m0.building_seq(kind)[j]
            == building_pos && m1.building_seq(kind) == m0.building_seq(kind).remove(j)
    &&& forall|b: Building| b != kind ==> m1.building_seq(b) == m0.building_seq(b)
    &&& m1.dims() == m0.dims()
}

impl TileMap {
    /// Deletes the building at `building_pos` together with its entrance at
    /// `entryway_pos`, unhooking both from the road and the index. The
    /// precondition asks for a real building-entrance pair; `delete` checks
    /// it before calling, and so must any direct caller.
    pub fn delete_building(&mut self, building_pos: Coord2, entryway_pos: Coord2)
        requires
            old(self).inv(),
            entrance_at(old(self).grid(), entryway_pos),
            entrance_of(old(self).grid(), entryway_pos).building_pos == building_pos,
        ensures
            final(self).inv(),
            deleted_building_post(*old(self), *final(self), building_pos, entryway_pos),
    {
        let ghost g0 = old(self).grid();
        proof {
            assert(old(self).tile_ok(entryway_pos));
            assert(building_at(g0, building_pos));
            assert(old(self).tile_ok(building_pos));
            assert(building_of(g0, building_pos).entryway_pos == entryway_pos);
        }
        // Strike the entrance off its road's records.
        let road_pos = match self.get(entryway_pos) {
            Some(Tile::Entrance(et)) => et.road_pos,
            _ => {
                proof {
                    assert(false);
                }
                Coord2 { x: 0, y: 0 }
            },
        };
        proof {
            assert(paving_at(g0, road_pos));
            assert(old(self).tile_ok(road_pos));
            assert(paving_entries(g0, road_pos).no_duplicates());
        }
        self.remove_paving_entry(road_pos, entryway_pos);
        // Strike the building off the index.
        let kind = match self.get(building_pos) {
            Some(Tile::Building(bt)) => bt.building,
            _ => {
                proof {
                    assert(building_pos != road_pos);
                    assert(self.grid()[building_pos] == g0[building_pos]);
                    assert(false);
                }
                Building::House
            },
        };
        proof {
            assert(building_pos != road_pos);
            assert(self.grid()[building_pos] == g0[building_pos]);
            assert(kind == building_of(g0, building_pos).building);
        }
        self.remove_from_index(kind, building_pos);
        // Remove the building and entrance tiles themselves.
        let ghost tiles2 = self.tiles@;
        let ghost g2 = self.grid();
        self.tiles.remove(&key_of(building_pos));
        let ghost tiles3 = self.tiles@;
        self.tiles.remove(&key_of(entryway_pos));
        proof {
            lemma_grid_remove(tiles2, building_pos);
            lemma_grid_remove(tiles3, entryway_pos);
            assert(self.grid() =~= g2.remove(building_pos).remove(entryway_pos));
            self.lemma_delete_building_restores_inv(
                *old(self),
                building_pos,
                entryway_pos,
                road_pos,
                kind,
                g2,
            );
        }
    }

    /// The invariant-restoration argument behind `delete_building`.
    proof fn lemma_delete_building_restores_inv(
        &self,
        m0: TileMap,
        building_pos: Coord2,
        entryway_pos: Coord2,
        road_pos: Coord2,
        kind: Building,
        g2: Map<Coord2, Tile>,
    )
        requires
            m0.inv(),
            entrance_at(m0.grid(), entryway_pos),
            entrance_of(m0.grid(), entryway_pos).building_pos == building_pos,
            entrance_of(m0.grid(), entryway_pos).road_pos == road_pos,
            building_at(m0.grid(), building_pos),
            building_of(m0.grid(), building_pos).entryway_pos == entryway_pos,
            building_of(m0.grid(), building_pos).building == kind,
            // What the two strike-off helpers guarantee, phrased on `g2`:
            g2.dom() =~= m0.grid().dom(),
            forall|c: Coord2|
                m0.grid().contains_key(c) && c != road_pos ==> g2[c] == m0.grid()[c],
            paving_at(g2, road_pos),
            paving_links(g2, road_pos) == paving_links(m0.grid(), road_pos),
            paving_entries(g2, road_pos).no_duplicates(),
            forall|x: Coord2|
                paving_entries(g2, road_pos).contains(x) <==> paving_entries(
                    m0.grid(),
                    road_pos,
                ).contains(x) && x != entryway_pos,
            exists|j: int|
                0 <= j < paving_entries(m0.grid(), road_pos).len() && #[trigger] paving_entries(
                    m0.grid(),
                    road_pos,
                )[j] == entryway_pos && paving_entries(g2, road_pos) == paving_entries(
                    m0.grid(),
                    road_pos,
                ).remove(j),
            self.dims() == m0.dims(),
            self.building_seq(kind).no_duplicates(),
            forall|x: Coord2|
                self.building_seq(kind).contains(x) <==> m0.building_seq(kind).contains(x) && x
                    != building_pos,
            exists|j: int|
                0 <= j < m0.building_seq(kind).len() && #[trigger] m0.building_seq(kind)[j]
                    == building_pos && self.building_seq(kind) == m0.building_seq(kind).remove(j),
            forall|b: Building| b != kind ==> self.building_seq(b) == m0.building_seq(b),
            self.grid() == g2.remove(building_pos).remove(entryway_pos),
        ensures
            self.inv(),
            deleted_building_post(m0, *self, building_pos, entryway_pos),
    {
        let g0 = m0.grid();
        let g3 = self.grid();
        assert(building_pos != entryway_pos && building_pos != road_pos && entryway_pos
            != road_pos);
        assert(m0.tile_ok(road_pos));
        assert(paving_at(g3, road_pos)) by {
            assert(g3[road_pos] == g2[road_pos]);
        }
        assert(g3.dom() =~= g0.dom().remove(building_pos).remove(entryway_pos));
        assert forall|c: Coord2| #[trigger] g3.contains_key(c) && c != road_pos implies g3[c]
            == g0[c] by {
            assert(g2[c] == g0[c]);
        }
        assert(g3[road_pos] == g2[road_pos]);
        assert(paving_entries(g3, road_pos) == paving_entries(g2, road_pos));
        {
            let j1 = choose|j: int|
                0 <= j < paving_entries(g0, road_pos).len() && #[trigger] paving_entries(
                    g0,
                    road_pos,
                )[j] == entryway_pos && paving_entries(g2, road_pos) == paving_entries(
                    g0,
                    road_pos,
                ).remove(j);
            assert(0 <= j1 < paving_entries(g0, road_pos).len() && paving_entries(g0, road_pos)[j1]
                == entryway_pos && paving_entries(g3, road_pos) == paving_entries(
                g0,
                road_pos,
            ).remove(j1));
        }
        // No other tile referenced the deleted pair.
        assert forall|c: Coord2| #[trigger] entrance_at(g0, c) && c != entryway_pos implies
            entrance_of(g0, c).building_pos != building_pos && entrance_of(g0, c).road_pos
            != building_pos && entrance_of(g0, c).building_pos != entryway_pos && entrance_of(
            g0,
            c,
        ).road_pos != entryway_pos by {
            assert(g0.contains_key(c));
            assert(m0.tile_ok(c));
            let et = g0[c]->Entrance_0;
            if et.building_pos == building_pos {
                assert(building_of(g0, building_pos).entryway_pos == c);
            }
            assert(paving_at(g0, et.road_pos));
        }
        assert forall|c: Coord2| #[trigger] building_at(g0, c) && c != building_pos implies
            building_of(g0, c).entryway_pos != entryway_pos && building_of(g0, c).entryway_pos
            != building_pos by {
            assert(g0.contains_key(c));
            assert(m0.tile_ok(c));
            let bt = g0[c]->Building_0;
            if bt.entryway_pos == entryway_pos {
                assert(entrance_of(g0, entryway_pos).building_pos == c);
            }
            assert(entrance_at(g0, bt.entryway_pos));
        }
        assert forall|c: Coord2| #[trigger] paving_at(g0, c) implies !paving_links(g0, c).contains(
            building_pos,
        ) && !paving_links(g0, c).contains(entryway_pos) && (c != road_pos
            ==> !paving_entries(g0, c).contains(entryway_pos)) by {
            assert(g0.contains_key(c));
            assert(m0.tile_ok(c));
            let p = g0[c]->Paving_0;
            if p.pavings_pos@.contains(building_pos) {
                let i = choose|i: int|
                    0 <= i < p.pavings_pos@.len() && p.pavings_pos@[i] == building_pos;
                assert(paving_at(g0, building_pos));
                assert(false);
            }
            if p.pavings_pos@.contains(entryway_pos) {
                let i = choose|i: int|
                    0 <= i < p.pavings_pos@.len() && p.pavings_pos@[i] == entryway_pos;
                assert(paving_at(g0, entryway_pos));
                assert(false);
            }
            if c != road_pos && p.entryways_pos@.contains(entryway_pos) {
                let i = choose|i: int|
                    0 <= i < p.entryways_pos@.len() && p.entryways_pos@[i] == entryway_pos;
                assert(entrance_of(g0, entryway_pos).road_pos == c);
                assert(false);
            }
        }
        // Tile-by-tile check.
        assert forall|c: Coord2| g3.contains_key(c) implies self.tile_ok(c) by {
            assert(c != building_pos && c != entryway_pos);
            if c == road_pos {
                let p3 = g3[road_pos]->Paving_0;
                let p0 = g0[road_pos]->Paving_0;
                assert(p3.entryways_pos@ == paving_entries(g3, road_pos));
                assert(p3.pavings_pos@ == paving_links(g0, road_pos));
                assert forall|i: int| 0 <= i < p3.entryways_pos@.len() implies {
                    let e = #[trigger] p3.entryways_pos@[i];
                    &&& adjacent(road_pos, e)
                    &&& entrance_at(g3, e)
                    &&& entrance_of(g3, e).road_pos == road_pos
                } by {
                    let e = p3.entryways_pos@[i];
                    assert(p3.entryways_pos@.contains(e));
                    assert(paving_entries(g0, road_pos).contains(e) && e != entryway_pos);
                    assert(entrance_at(g0, e) && adjacent(road_pos, e) && entrance_of(
                        g0,
                        e,
                    ).road_pos == road_pos);
                    assert(e != building_pos);
                    assert(g3.contains_key(e));
                    assert(g3[e] == g0[e]);
                }
                assert forall|i: int| 0 <= i < p3.pavings_pos@.len() implies {
                    let q = #[trigger] p3.pavings_pos@[i];
                    &&& adjacent(road_pos, q)
                    &&& paving_at(g3, q)
                    &&& paving_links(g3, q).contains(road_pos)
                } by {
                    let q = p3.pavings_pos@[i];
                    assert(p0.pavings_pos@[i] == q);
                    assert(adjacent(road_pos, q) && paving_at(g0, q) && paving_links(
                        g0,
                        q,
                    ).contains(road_pos));
                    assert(q != building_pos && q != entryway_pos);
                    assert(g3.contains_key(q));
                    if q != road_pos {
                        assert(g3[q] == g0[q]);
                    }
                }
            } else {
                assert(g3[c] == g0[c]);
                assert(g0.contains_key(c));
                assert(m0.tile_ok(c));
                match g0[c] {
                    Tile::Building(bt) => {
                        let e = bt.entryway_pos;
                        assert(building_at(g0, c));
                        assert(entrance_at(g0, e));
                        assert(e != entryway_pos && e != building_pos);
                        assert(e != road_pos);
                        assert(g3.contains_key(e));
                        assert(g3[e] == g0[e]);
                        assert(self.building_seq(bt.building).contains(c)) by {
                            if bt.building == kind {
                                assert(m0.building_seq(kind).contains(c));
                            }
                        }
                    },
                    Tile::Entrance(et) => {
                        assert(entrance_at(g0, c));
                        let rp = et.road_pos;
                        let b = et.building_pos;
                        assert(rp != building_pos && rp != entryway_pos);
                        assert(b != building_pos && b != entryway_pos);
                        assert(paving_at(g0, rp));
                        assert(g3.contains_key(rp));
                        if rp == road_pos {
                            assert(paving_entries(g0, road_pos).contains(c));
                            assert(paving_entries(g3, road_pos).contains(c));
                        } else {
                            assert(g3[rp] == g0[rp]);
                        }
                        assert(building_at(g0, b));
                        assert(b != road_pos);
                        assert(g3.contains_key(b));
                        assert(g3[b] == g0[b]);
                    },
                    Tile::Paving(p) => {
                        assert(paving_at(g0, c));
                        assert forall|i: int| 0 <= i < p.entryways_pos@.len() implies {
                            let e = #[trigger] p.entryways_pos@[i];
                            &&& adjacent(c, e)
                            &&& entrance_at(g3, e)
                            &&& entrance_of(g3, e).road_pos == c
                        } by {
                            let e = p.entryways_pos@[i];
                            assert(p.entryways_pos@.contains(e));
                            assert(entrance_at(g0, e));
                            assert(e != entryway_pos) by {
                                if e == entryway_pos {
                                    assert(entrance_of(g0, entryway_pos).road_pos == c);
                                }
                            }
                            assert(e != building_pos);
                            assert(e != road_pos);
                            assert(g3.contains_key(e));
                            assert(g3[e] == g0[e]);
                        }
                        assert forall|i: int| 0 <= i < p.pavings_pos@.len() implies {
                            let q = #[trigger] p.pavings_pos@[i];
                            &&& adjacent(c, q)
                            &&& paving_at(g3, q)
                            &&& paving_links(g3, q).contains(c)
                        } by {
                            let q = p.pavings_pos@[i];
                            assert(p.pavings_pos@.contains(q));
                            assert(adjacent(c, q) && paving_at(g0, q) && paving_links(
                                g0,
                                q,
                            ).contains(c));
                            assert(q != building_pos && q != entryway_pos);
                            assert(g3.contains_key(q));
                            if q == road_pos {
                                assert(paving_links(g3, road_pos) == paving_links(g0, road_pos));
                            } else {
                                assert(g3[q] == g0[q]);
                            }
                        }
                    },
                    Tile::Rails(rt) => {},
                }
            }
        }
        // Adjacent pavings stay mutually linked.
        assert forall|c: Coord2, d: Coord2|
            #[trigger] paving_at(g3, c) && #[trigger] paving_at(g3, d) && adjacent(
                c,
                d,
            ) implies paving_links(g3, c).contains(d) by {
            assert(paving_at(g0, c)) by {
                if c != road_pos {
                    assert(g3[c] == g0[c]);
                }
            }
            assert(paving_at(g0, d)) by {
                if d != road_pos {
                    assert(g3[d] == g0[d]);
                }
            }
            assert(paving_links(g0, c).contains(d));
            if c == road_pos {
                assert(paving_links(g3, road_pos) == paving_links(g0, road_pos));
            } else {
                assert(g3[c] == g0[c]);
            }
        }
        // The building index still lists exactly building tiles.
        assert forall|b: Building, i2: int|
            0 <= i2 < self.building_seq(b).len() implies {
            let bc = #[trigger] self.building_seq(b)[i2];
            &&& building_at(g3, bc)
            &&& building_of(g3, bc).building == b
        } by {
            let bc = self.building_seq(b)[i2];
            assert(self.building_seq(b).contains(bc));
            assert(m0.building_seq(b).contains(bc)) by {
                if b == kind {
                } else {
                }
            }
            let i0 = choose|i0: int|
                0 <= i0 < m0.building_seq(b).len() && m0.building_seq(b)[i0] == bc;
            assert(building_at(g0, bc) && building_of(g0, bc).building == b);
            assert(bc != building_pos) by {
                if b == kind {
                    assert(self.building_seq(kind).contains(bc));
                } else {
                    assert(building_of(g0, building_pos).building == kind);
                }
            }
            assert(bc != entryway_pos);
            assert(bc != road_pos);
            assert(g3.contains_key(bc));
            assert(g3[bc] == g0[bc]);
        }
        assert forall|b: Building| (#[trigger] self.building_seq(b)).no_duplicates() by {
            if b != kind {
                assert(self.building_seq(b) == m0.building_seq(b));
            }
        }
    }
}

/// Everything that deleting the paving at `location` removes: the paving
/// itself, every entrance registered on it, and each such entrance's
/// building.
pub open spec fn paving_cascade_removed(g0: Map<Coord2, Tile>, location: Coord2) -> Set<Coord2> {
    set![location].union(paving_entries(g0, location).to_set()).union(
        paving_entries(g0, location).to_set().map(|e: Coord2| entrance_of(g0, e).building_pos),
    )
}

/// What deleting the paving at `location` leaves behind: the paving, its
/// entrances and their buildings are gone, every neighbouring paving has
/// the deleted cell struck off its links, the index has lost exactly the
/// deleted buildings, and every other tile is untouched.
pub open spec fn deleted_paving_post(m0: TileMap, m1: TileMap, location: Coord2) -> bool {
    let g0 = m0.grid();
    let g1 = m1.grid();
    let removed = paving_cascade_removed(g0, location);
    &&& g1.dom() =~= g0.dom().difference(removed)
    &&& forall|c: Coord2|
        g1.contains_key(c) && !(adjacent(location, c) && paving_at(g0, c)) ==> g1[c] == g0[c]
    &&& forall|c: Coord2|
        g1.contains_key(c) && adjacent(location, c) && paving_at(g0, c) ==> {
            &&& paving_at(g1, c)
            &&& paving_entries(g1, c) == paving_entries(g0, c)
            &&& forall|x: Coord2|
                paving_links(g1, c).contains(x) <==> paving_links(g0, c).contains(x) && x
                    != location
        }
    &&& forall|b: Building, x: Coord2|
        m1.building_seq(b).contains(x) <==> m0.building_seq(b).contains(x) && !removed.contains(x)
    &&& m1.dims() == m0.dims()
}

impl TileMap {
    /// Deletes the tile at `location`, cascading so that no link is left
    /// dangling. A building goes together with its entrance; an entrance is
    /// deleted by deleting the building it serves; a paving takes every
    /// entrance registered on it (and so each such entrance's building)
    /// with it, and is struck off every neighbouring paving's records.
    /// Deleting rails is unsupported and reports an explicit error; an
    /// empty cell is left as it is.
    pub fn delete(&mut self, location: Coord2) -> (r: Result<(), MapError>)
        requires
            old(self).inv(),
        ensures
            final(self).inv(),
            final(self).dims() == old(self).dims(),
            !old(self).grid().contains_key(location) ==> r is Ok && *final(self) == *old(self),
            old(self).grid().contains_key(location) && old(self).grid()[location] is Rails ==> r
                == Err::<(), MapError>(MapError::UnsupportedDelete) && *final(self) == *old(self),
            building_at(old(self).grid(), location) ==> r is Ok && deleted_building_post(
                *old(self),
                *final(self),
                location,
                building_of(old(self).grid(), location).entryway_pos,
            ),
            entrance_at(old(self).grid(), location) ==> r is Ok && deleted_building_post(
                *old(self),
                *final(self),
                entrance_of(old(self).grid(), location).building_pos,
                location,
            ),
            paving_at(old(self).grid(), location) ==> r is Ok && deleted_paving_post(
                *old(self),
                *final(self),
                location,
            ),
    {
        let ghost g0 = old(self).grid();
        let mut building_entry: Option<Coord2> = None;
        let mut entrance_building: Option<Coord2> = None;
        let mut found_paving: bool = false;
        let mut found_rails: bool = false;
        let mut present: bool = false;
        match self.get(location) {
            None => {},
            Some(Tile::Building(bt)) => {
                present = true;
                building_entry = Some(bt.entryway_pos);
            },
            Some(Tile::Entrance(et)) => {
                present = true;
                entrance_building = Some(et.building_pos);
            },
            Some(Tile::Paving(_)) => {
                present = true;
                found_paving = true;
            },
            Some(Tile::Rails(_)) => {
                present = true;
                found_rails = true;
            },
        }
        if !present {
            return Ok(());
        }
        if found_rails {
            return Err(MapError::UnsupportedDelete);
        }
        if let Some(e) = building_entry {
            proof {
                assert(old(self).tile_ok(location));
                assert(entrance_at(g0, e));
                assert(entrance_of(g0, e).building_pos == location);
            }
            self.delete_building(location, e);
            return Ok(());
        }
        if let Some(b) = entrance_building {
            proof {
                assert(old(self).tile_ok(location));
                assert(entrance_of(g0, location).building_pos == b);
            }
            self.delete_building(b, location);
            return Ok(());
        }
        // A paving: cascade.
        self.delete_paving(location);
        Ok(())
    }

    /// Deletes the paving at `location`: every entrance registered on it
    /// (with its building) goes first, then the paving is struck off every
    /// neighbouring paving's records and removed itself.
    fn delete_paving(&mut self, location: Coord2)
        requires
            old(self).inv(),
            paving_at(old(self).grid(), location),
        ensures
            final(self).inv(),
            deleted_paving_post(*old(self), *final(self), location),
    {
        let ghost g0 = old(self).grid();
        let ghost m0 = *old(self);
        proof {
            assert(old(self).tile_ok(location));
        }
        let ghost tiles0 = self.tiles@;
        let removed_tile = self.tiles.remove(&key_of(location));
        match removed_tile {
            Some(Tile::Paving(p)) => {
                proof {
                    lemma_grid_remove(tiles0, location);
                    assert(self.grid() =~= g0.remove(location));
                    assert(p == g0[location]->Paving_0);
                }
                let ghost entries = p.entryways_pos@;
                let ghost links = p.pavings_pos@;
                // Entrances of `location` have pairwise distinct buildings.
                proof {
                    assert forall|a2: int, b2: int|
                        0 <= a2 < entries.len() && 0 <= b2 < entries.len() && a2
                            != b2 implies entrance_of(g0, entries[a2]).building_pos
                        != entrance_of(g0, entries[b2]).building_pos by {
                        let ea = entries[a2];
                        let eb = entries[b2];
                        assert(entrance_at(g0, ea) && entrance_at(g0, eb));
                        assert(m0.tile_ok(ea) && m0.tile_ok(eb));
                        if entrance_of(g0, ea).building_pos == entrance_of(g0, eb).building_pos {
                            let bp = entrance_of(g0, ea).building_pos;
                            assert(building_of(g0, bp).entryway_pos == ea);
                            assert(building_of(g0, bp).entryway_pos == eb);
                        }
                    }
                }
                // Phase one: delete each registered entrance and its building.
                proof {
                    assert forall|b: Building|
                        (#[trigger] self.building_seq(b)).no_duplicates() by {
                        assert(self.building_seq(b) == m0.building_seq(b));
                    }
                }
                let mut i: usize = 0;
                while i < p.entryways_pos.len()
                    invariant
                        m0.inv(),
                        g0 == m0.grid(),
                        paving_at(g0, location),
                        entries == p.entryways_pos@,
                        links == p.pavings_pos@,
                        entries == paving_entries(g0, location),
                        links == paving_links(g0, location),
                        0 <= i <= entries.len(),
                        forall|a2: int, b2: int|
                            0 <= a2 < entries.len() && 0 <= b2 < entries.len() && a2 != b2
                                ==> entrance_of(g0, #[trigger] entries[a2]).building_pos
                                != entrance_of(g0, #[trigger] entries[b2]).building_pos,
                        self.dims() == m0.dims(),
                        forall|c: Coord2|
                            #[trigger] self.grid().contains_key(c) <==> g0.contains_key(c) && c
                                != location && !(exists|j: int|
                                0 <= j < i && (entries[j] == c || entrance_of(
                                    g0,
                                    #[trigger] entries[j],
                                ).building_pos == c)),
                        forall|c: Coord2|
                            #[trigger] self.grid().contains_key(c) ==> self.grid()[c] == g0[c],
                        forall|b: Building| (#[trigger] self.building_seq(b)).no_duplicates(),
                        forall|b: Building, x: Coord2|
                            #[trigger] self.building_seq(b).contains(x) <==> m0.building_seq(
                                b,
                            ).contains(x) && !(exists|j: int|
                                0 <= j < i && entrance_of(
                                    g0,
                                    #[trigger] entries[j],
                                ).building_pos == x),
                    decreases entries.len() - i,
                {
                    let ghost m_iter = *self;
                    let e = p.entryways_pos[i];
                    proof {
                        assert(entries[i as int] == e);
                        assert(m0.tile_ok(location));
                        assert(entrance_at(g0, e));
                        assert(m0.tile_ok(e));
                        assert(self.grid().contains_key(e)) by {
                            assert(!paving_at(g0, e));
                            if exists|j: int|
                                0 <= j < i && (entries[j] == e || entrance_of(
                                    g0,
                                    entries[j],
                                ).building_pos == e) {
                                let j = choose|j: int|
                                    0 <= j < i && (entries[j] == e || entrance_of(
                                        g0,
                                        entries[j],
                                    ).building_pos == e);
                                if entries[j] == e {
                                    assert(m0.tile_ok(location));
                                    let p0 = g0[location]->Paving_0;
                                    assert(p0.entryways_pos@.no_duplicates());
                                    assert(false);
                                } else {
                                    assert(building_at(
                                        g0,
                                        entrance_of(g0, entries[j]).building_pos,
                                    )) by {
                                        assert(entrance_at(g0, entries[j]));
                                        assert(m0.tile_ok(entries[j]));
                                    }
                                    assert(false);
                                }
                            }
                        }
                    }
                    let b = match self.get(e) {
                        Some(Tile::Entrance(et)) => et.building_pos,
                        _ => {
                            proof {
                                assert(false);
                            }
                            Coord2 { x: 0, y: 0 }
                        },
                    };
                    proof {
                        assert(b == entrance_of(g0, e).building_pos);
                        assert(building_at(g0, b));
                        assert(m0.tile_ok(b));
                        assert(self.grid().contains_key(b)) by {
                            assert(!paving_at(g0, b));
                            if exists|j: int|
                                0 <= j < i && (entries[j] == b || entrance_of(
                                    g0,
                                    entries[j],
                                ).building_pos == b) {
                                let j = choose|j: int|
                                    0 <= j < i && (entries[j] == b || entrance_of(
                                        g0,
                                        entries[j],
                                    ).building_pos == b);
                                if entries[j] == b {
                                    assert(entrance_at(g0, entries[j]));
                                    assert(false);
                                } else {
                                    assert(entrance_of(g0, entries[j]).building_pos == b);
                                    assert(building_of(g0, b).entryway_pos == entries[j]) by {
                                        assert(entrance_at(g0, entries[j]));
                                        assert(m0.tile_ok(entries[j]));
                                    }
                                    assert(building_of(g0, b).entryway_pos == e);
                                    assert(entries[j] == e);
                                    assert(false);
                                }
                            }
                        }
                    }
                    let kind = match self.get(b) {
                        Some(Tile::Building(bt)) => bt.building,
                        _ => {
                            proof {
                                assert(false);
                            }
                            Building::House
                        },
                    };
                    proof {
                        assert(kind == building_of(g0, b).building);
                    }
                    let ghost tiles_a = self.tiles@;
                    let ghost grid_a = self.grid();
                    self.tiles.remove(&key_of(e));
                    let ghost tiles_b = self.tiles@;
                    self.tiles.remove(&key_of(b));
                    proof {
                        lemma_grid_remove(tiles_a, e);
                        lemma_grid_remove(tiles_b, b);
                        assert(self.grid() =~= grid_a.remove(e).remove(b));
                    }
                    proof {
                        assert(self.building_seq(kind) == m_iter.building_seq(kind));
                        assert(m_iter.building_seq(kind).no_duplicates());
                        assert forall|b2: Building|
                            (#[trigger] self.building_seq(b2)) == m_iter.building_seq(b2) by {
                        }
                    }
                    let ghost m_mid = *self;
                    self.remove_from_index(kind, b);
                    proof {
                        assert forall|b2: Building|
                            (#[trigger] self.building_seq(b2)).no_duplicates() by {
                            if b2 != kind {
                                assert(self.building_seq(b2) == m_mid.building_seq(b2));
                                assert(m_mid.building_seq(b2) == m_iter.building_seq(b2));
                            }
                        }
                        assert(self.grid() == m_mid.grid());
                        assert forall|c: Coord2|
                            #[trigger] self.grid().contains_key(c) <==> g0.contains_key(c) && c
                                != location && !(exists|j: int|
                                0 <= j < i + 1 && (entries[j] == c || entrance_of(
                                    g0,
                                    entries[j],
                                ).building_pos == c)) by {
                            if self.grid().contains_key(c) {
                                assert(grid_a.contains_key(c) && c != e && c != b);
                                if exists|j: int|
                                    0 <= j < i + 1 && (entries[j] == c || entrance_of(
                                        g0,
                                        entries[j],
                                    ).building_pos == c) {
                                    let j = choose|j: int|
                                        0 <= j < i + 1 && (entries[j] == c || entrance_of(
                                            g0,
                                            entries[j],
                                        ).building_pos == c);
                                    if j < i {
                                        assert(false);
                                    } else {
                                        assert(entries[j] == e);
                                        assert(false);
                                    }
                                }
                            } else {
                                if g0.contains_key(c) && c != location && !(exists|j: int|
                                0 <= j < i + 1 && (entries[j] == c || entrance_of(
                                    g0,
                                    entries[j],
                                ).building_pos == c)) {
                                    assert(grid_a.contains_key(c)) by {
                                        if exists|j: int|
                                            0 <= j < i && (entries[j] == c || entrance_of(
                                                g0,
                                                entries[j],
                                            ).building_pos == c) {
                                            let j = choose|j: int|
                                                0 <= j < i && (entries[j] == c || entrance_of(
                                                    g0,
                                                    entries[j],
                                                ).building_pos == c);
                                            assert(0 <= j < i + 1 && (entries[j] == c
                                                || entrance_of(g0, entries[j]).building_pos == c));
                                            assert(false);
                                        }
                                    }
                                    assert(c != e) by {
                                        if c == e {
                                            assert(0 <= i < i + 1 && entries[i as int] == c);
                                            assert(false);
                                        }
                                    }
                                    assert(c != b) by {
                                        if c == b {
                                            assert(0 <= i < i + 1 && entrance_of(
                                                g0,
                                                entries[i as int],
                                            ).building_pos == c);
                                            assert(false);
                                        }
                                    }
                                    assert(false);
                                }
                            }
                        }
                        assert forall|b2: Building, x: Coord2|
                            #[trigger] self.building_seq(b2).contains(x) <==> m0.building_seq(
                                b2,
                            ).contains(x) && !(exists|j: int|
                                0 <= j < i + 1 && entrance_of(g0, entries[j]).building_pos
                                    == x) by {
                            if self.building_seq(b2).contains(x) {
                                assert(m_iter.building_seq(b2).contains(x)) by {
                                    if b2 == kind {
                                    } else {
                                        assert(self.building_seq(b2) == m_mid.building_seq(b2));
                                        assert(m_mid.building_seq(b2) == m_iter.building_seq(b2));
                                    }
                                }
                                assert(m0.building_seq(b2).contains(x));
                                if exists|j: int|
                                    0 <= j < i + 1 && entrance_of(g0, entries[j]).building_pos
                                        == x {
                                    let j = choose|j: int|
                                        0 <= j < i + 1 && entrance_of(g0, entries[j]).building_pos
                                            == x;
                                    if j < i {
                                        assert(!m_iter.building_seq(b2).contains(x)) by {
                                            assert(exists|j2: int|
                                                0 <= j2 < i && entrance_of(
                                                    g0,
                                                    entries[j2],
                                                ).building_pos == x);
                                        }
                                        assert(false);
                                    } else {
                                        assert(x == b);
                                        if b2 == kind {
                                            assert(!self.building_seq(kind).contains(b));
                                            assert(false);
                                        } else {
                                            let i0 = choose|i0: int|
                                                0 <= i0 < m0.building_seq(b2).len()
                                                    && m0.building_seq(b2)[i0] == x;
                                            assert(m0.building_seq(b2)[i0] == x);
                                            assert(building_of(g0, x).building == b2);
                                            assert(building_of(g0, b).building == kind);
                                            assert(false);
                                        }
                                    }
                                }
                            } else {
                                if m0.building_seq(b2).contains(x) && !(exists|j: int|
                                0 <= j < i + 1 && entrance_of(g0, entries[j]).building_pos == x) {
                                    assert(!(exists|j: int|
                                        0 <= j < i && entrance_of(g0, entries[j]).building_pos
                                            == x)) by {
                                        if exists|j: int|
                                            0 <= j < i && entrance_of(g0, entries[j]).building_pos
                                                == x {
                                            let j = choose|j: int|
                                                0 <= j < i && entrance_of(
                                                    g0,
                                                    entries[j],
                                                ).building_pos == x;
                                            assert(0 <= j < i + 1 && entrance_of(
                                                g0,
                                                entries[j],
                                            ).building_pos == x);
                                            assert(false);
                                        }
                                    }
                                    assert(m_iter.building_seq(b2).contains(x));
                                    assert(x != b) by {
                                        if x == b {
                                            assert(0 <= i < i + 1 && entrance_of(
                                                g0,
                                                entries[i as int],
                                            ).building_pos == x);
                                            assert(false);
                                        }
                                    }
                                    if b2 == kind {
                                        assert(self.building_seq(kind).contains(x));
                                        assert(false);
                                    } else {
                                        assert(self.building_seq(b2) == m_mid.building_seq(b2));
                                        assert(m_mid.building_seq(b2) == m_iter.building_seq(b2));
                                        assert(false);
                                    }
                                }
                            }
                        }
                    }
                    i = i + 1;
                }
                // Bridge: the cells gone so far are exactly the cascade set.
                proof {
                    let removed = paving_cascade_removed(g0, location);
                    assert forall|c: Coord2| #[trigger] removed.contains(c) <==> (c == location
                        || (exists|j2: int|
                        0 <= j2 < entries.len() && (entries[j2] == c || entrance_of(
                            g0,
                            #[trigger] entries[j2],
                        ).building_pos == c))) by {
                        if removed.contains(c) {
                            if c == location {
                            } else if entries.to_set().contains(c) {
                                assert(entries.contains(c));
                                let j2 = choose|j2: int|
                                    0 <= j2 < entries.len() && entries[j2] == c;
                                assert(entries[j2] == c);
                            } else {
                                let e2 = choose|e2: Coord2|
                                    entries.to_set().contains(e2) && entrance_of(
                                        g0,
                                        e2,
                                    ).building_pos == c;
                                assert(entries.contains(e2));
                                let j2 = choose|j2: int|
                                    0 <= j2 < entries.len() && entries[j2] == e2;
                                assert(entrance_of(g0, entries[j2]).building_pos == c);
                            }
                        } else {
                            if c != location && exists|j2: int|
                                0 <= j2 < entries.len() && (entries[j2] == c || entrance_of(
                                    g0,
                                    entries[j2],
                                ).building_pos == c) {
                                let j2 = choose|j2: int|
                                    0 <= j2 < entries.len() && (entries[j2] == c || entrance_of(
                                        g0,
                                        entries[j2],
                                    ).building_pos == c);
                                if entries[j2] == c {
                                    assert(entries.contains(c));
                                    assert(entries.to_set().contains(c));
                                } else {
                                    assert(entries.to_set().contains(entries[j2]));
                                    assert(entries.to_set().map(
                                        |e2: Coord2| entrance_of(g0, e2).building_pos,
                                    ).contains(c));
                                }
                                assert(false);
                            }
                        }
                    }
                }
                // Phase two: strike this cell off every neighbouring paving.
                let mut j: usize = 0;
                while j < p.pavings_pos.len()
                    invariant
                        m0.inv(),
                        g0 == m0.grid(),
                        paving_at(g0, location),
                        entries == p.entryways_pos@,
                        links == p.pavings_pos@,
                        entries == paving_entries(g0, location),
                        links == paving_links(g0, location),
                        links.no_duplicates(),
                        0 <= j <= links.len(),
                        self.dims() == m0.dims(),
                        forall|c: Coord2|
                            #[trigger] self.grid().contains_key(c) <==> g0.contains_key(c)
                                && !paving_cascade_removed(g0, location).contains(c),
                        forall|c: Coord2|
                            #[trigger] self.grid().contains_key(c) && !links.subrange(
                                0,
                                j as int,
                            ).contains(c) ==> self.grid()[c] == g0[c],
                        forall|k: int|
                            0 <= k < j ==> {
                                let q = #[trigger] links[k];
                                &&& paving_at(self.grid(), q)
                                &&& paving_entries(self.grid(), q) == paving_entries(g0, q)
                                &&& paving_links(self.grid(), q).no_duplicates()
                                &&& forall|x: Coord2|
                                    paving_links(self.grid(), q).contains(x) <==> paving_links(
                                        g0,
                                        q,
                                    ).contains(x) && x != location
                            },
                        forall|b: Building| (#[trigger] self.building_seq(b)).no_duplicates(),
                        forall|b: Building, x: Coord2|
                            #[trigger] self.building_seq(b).contains(x) <==> m0.building_seq(
                                b,
                            ).contains(x) && !paving_cascade_removed(g0, location).contains(x),
                    decreases links.len() - j,
                {
                    let q = p.pavings_pos[j];
                    proof {
                        assert(links[j as int] == q);
                        assert(m0.tile_ok(location));
                        assert(paving_at(g0, q) && adjacent(location, q));
                        assert(!paving_cascade_removed(g0, location).contains(q)) by {
                            assert(q != location);
                            if paving_entries(g0, location).to_set().contains(q) {
                                assert(entries.contains(q));
                                let k = choose|k: int|
                                    0 <= k < entries.len() && entries[k] == q;
                                assert(entrance_at(g0, entries[k]));
                                assert(false);
                            }
                            if paving_entries(g0, location).to_set().map(
                                |e2: Coord2| entrance_of(g0, e2).building_pos,
                            ).contains(q) {
                                let e2 = choose|e2: Coord2|
                                    paving_entries(g0, location).to_set().contains(e2)
                                        && entrance_of(g0, e2).building_pos == q;
                                assert(entries.contains(e2));
                                let k = choose|k: int|
                                    0 <= k < entries.len() && entries[k] == e2;
                                assert(entrance_at(g0, e2));
                                assert(m0.tile_ok(e2));
                                assert(building_at(g0, q));
                                assert(false);
                            }
                        }
                        assert(self.grid().contains_key(q));
                        assert(self.grid()[q] == g0[q]) by {
                            if links.subrange(0, j as int).contains(q) {
                                let k = choose|k: int|
                                    0 <= k < j && links.subrange(0, j as int)[k] == q;
                                assert(links[k] == links[j as int]);
                                assert(false);
                            }
                        }
                        assert(m0.tile_ok(q));
                        assert(paving_links(g0, q).no_duplicates());
                    }
                    let ghost grid_b = self.grid();
                    self.remove_paving_link(q, location);
                    proof {
                        assert forall|c: Coord2|
                            #[trigger] self.grid().contains_key(c) && !links.subrange(
                                0,
                                (j + 1) as int,
                            ).contains(c) implies self.grid()[c] == g0[c] by {
                            assert(c != q) by {
                                assert(links.subrange(0, (j + 1) as int)[j as int] == q);
                            }
                            if links.subrange(0, j as int).contains(c) {
                                let k = choose|k: int|
                                    0 <= k < j && links.subrange(0, j as int)[k] == c;
                                assert(links.subrange(0, (j + 1) as int)[k] == c);
                                assert(false);
                            }
                            assert(grid_b[c] == g0[c]);
                        }
                        assert forall|k: int| 0 <= k < j + 1 implies {
                            let q2 = #[trigger] links[k];
                            &&& paving_at(self.grid(), q2)
                            &&& paving_entries(self.grid(), q2) == paving_entries(g0, q2)
                            &&& paving_links(self.grid(), q2).no_duplicates()
                            &&& forall|x: Coord2|
                                paving_links(self.grid(), q2).contains(x) <==> paving_links(
                                    g0,
                                    q2,
                                ).contains(x) && x != location
                        } by {
                            let q2 = links[k];
                            if k < j {
                                assert(q2 != q) by {
                                    if q2 == q {
                                        assert(links[k] == links[j as int]);
                                    }
                                }
                                assert(self.grid()[q2] == grid_b[q2]);
                            }
                        }
                    }
                    j = j + 1;
                }
                proof {
                    assert(links.subrange(0, links.len() as int) =~= links);
                    assert forall|q: Coord2| #[trigger] links.contains(q) implies {
                        &&& paving_at(self.grid(), q)
                        &&& paving_entries(self.grid(), q) == paving_entries(g0, q)
                        &&& paving_links(self.grid(), q).no_duplicates()
                        &&& forall|x: Coord2|
                            paving_links(self.grid(), q).contains(x) <==> paving_links(
                                g0,
                                q,
                            ).contains(x) && x != location
                    } by {
                        let k = choose|k: int| 0 <= k < links.len() && links[k] == q;
                        assert(links[k] == q);
                    }
                    self.lemma_delete_paving_restores_inv(m0, location);
                }
            },
            _ => {
                proof {
                    assert(false);
                }
            },
        }
    }

    /// The invariant-restoration argument behind `delete_paving`.
    proof fn lemma_delete_paving_restores_inv(&self, m0: TileMap, location: Coord2)
        requires
            m0.inv(),
            paving_at(m0.grid(), location),
            self.dims() == m0.dims(),
            forall|c: Coord2|
                #[trigger] self.grid().contains_key(c) <==> m0.grid().contains_key(c)
                    && !paving_cascade_removed(m0.grid(), location).contains(c),
            forall|c: Coord2|
                #[trigger] self.grid().contains_key(c) && !paving_links(
                    m0.grid(),
                    location,
                ).contains(c) ==> self.grid()[c] == m0.grid()[c],
            forall|q: Coord2|
                #[trigger] paving_links(m0.grid(), location).contains(q) ==> {
                    &&& paving_at(self.grid(), q)
                    &&& paving_entries(self.grid(), q) == paving_entries(m0.grid(), q)
                    &&& paving_links(self.grid(), q).no_duplicates()
                    &&& forall|x: Coord2|
                        paving_links(self.grid(), q).contains(x) <==> paving_links(
                            m0.grid(),
                            q,
                        ).contains(x) && x != location
                },
            forall|b: Building| (#[trigger] self.building_seq(b)).no_duplicates(),
            forall|b: Building, x: Coord2|
                #[trigger] self.building_seq(b).contains(x) <==> m0.building_seq(b).contains(x)
                    && !paving_cascade_removed(m0.grid(), location).contains(x),
        ensures
            self.inv(),
            deleted_paving_post(m0, *self, location),
    {
        let g0 = m0.grid();
        let g1 = self.grid();
        let removed = paving_cascade_removed(g0, location);
        let entries = paving_entries(g0, location);
        let links = paving_links(g0, location);
        assert(m0.tile_ok(location));
        // What the cascade set holds, by kind.
        assert(removed.contains(location));
        assert forall|e: Coord2| entries.contains(e) implies #[trigger] removed.contains(e)
            && removed.contains(entrance_of(g0, e).building_pos) && entrance_at(g0, e)
            && entrance_of(g0, e).road_pos == location by {
            let k = choose|k: int| 0 <= k < entries.len() && entries[k] == e;
            assert(entries[k] == e);
            assert(entries.to_set().contains(e));
            assert(entries.to_set().map(|e2: Coord2| entrance_of(g0, e2).building_pos).contains(
                entrance_of(g0, e).building_pos,
            ));
        }
        assert forall|x: Coord2| #[trigger] removed.contains(x) implies x == location
            || entrance_at(g0, x) || (building_at(g0, x) && entries.contains(
            building_of(g0, x).entryway_pos,
        )) by {
            if x != location {
                if entries.to_set().contains(x) {
                    assert(entries.contains(x));
                } else {
                    let e2 = choose|e2: Coord2|
                        entries.to_set().contains(e2) && entrance_of(g0, e2).building_pos == x;
                    assert(entries.contains(e2));
                    assert(entrance_at(g0, e2));
                    assert(m0.tile_ok(e2));
                    assert(building_at(g0, x));
                    assert(building_of(g0, x).entryway_pos == e2);
                }
            }
        }
        // The links of the deleted paving are exactly its paved neighbours.
        assert forall|c: Coord2| #[trigger] links.contains(c) <==> adjacent(location, c)
            && paving_at(g0, c) by {
            if links.contains(c) {
                let k = choose|k: int| 0 <= k < links.len() && links[k] == c;
                assert(links[k] == c);
            }
            if adjacent(location, c) && paving_at(g0, c) {
                assert(paving_at(g0, location));
                assert(adjacent(location, c));
            }
        }
        // A surviving tile never links into the cascade set.
        assert forall|c: Coord2| #[trigger] entrance_at(g0, c) && !removed.contains(c) implies
            entrance_of(g0, c).road_pos != location && !removed.contains(
            entrance_of(g0, c).road_pos,
        ) && !removed.contains(entrance_of(g0, c).building_pos) by {
            assert(m0.tile_ok(c));
            let et = g0[c]->Entrance_0;
            if et.road_pos == location {
                assert(paving_entries(g0, location).contains(c));
            }
            assert(paving_at(g0, et.road_pos));
            if removed.contains(et.road_pos) {
                assert(et.road_pos == location || entrance_at(g0, et.road_pos) || building_at(
                    g0,
                    et.road_pos,
                ));
                assert(false);
            }
            assert(building_at(g0, et.building_pos));
            if removed.contains(et.building_pos) {
                if entries.contains(building_of(g0, et.building_pos).entryway_pos) {
                    let e2 = building_of(g0, et.building_pos).entryway_pos;
                    assert(m0.tile_ok(et.building_pos));
                    assert(e2 == c);
                    assert(removed.contains(c));
                }
                assert(false);
            }
        }
        assert forall|c: Coord2| #[trigger] building_at(g0, c) && !removed.contains(c) implies
            !removed.contains(building_of(g0, c).entryway_pos) by {
            assert(m0.tile_ok(c));
            let bt = g0[c]->Building_0;
            assert(entrance_at(g0, bt.entryway_pos));
            if removed.contains(bt.entryway_pos) {
                if entries.contains(bt.entryway_pos) {
                    assert(entrance_of(g0, bt.entryway_pos).building_pos == c) by {
                        assert(m0.tile_ok(c));
                    }
                    assert(removed.contains(c));
                }
                assert(false);
            }
        }
        // Pavingness is preserved for every surviving cell.
        assert forall|c: Coord2| #[trigger] g1.contains_key(c) implies paving_at(g1, c)
            == paving_at(g0, c) by {
            if links.contains(c) {
            } else {
                assert(g1[c] == g0[c]);
            }
        }
        // Tile-by-tile check.
        assert forall|c: Coord2| g1.contains_key(c) implies self.tile_ok(c) by {
            assert(g0.contains_key(c) && !removed.contains(c));
            assert(m0.tile_ok(c));
            if links.contains(c) {
                // A neighbouring paving with `location` struck off.
                let p1 = g1[c]->Paving_0;
                let p0 = g0[c]->Paving_0;
                assert(p1.entryways_pos@ == p0.entryways_pos@);
                assert forall|i: int| 0 <= i < p1.entryways_pos@.len() implies {
                    let e = #[trigger] p1.entryways_pos@[i];
                    &&& adjacent(c, e)
                    &&& entrance_at(g1, e)
                    &&& entrance_of(g1, e).road_pos == c
                } by {
                    let e = p1.entryways_pos@[i];
                    assert(p0.entryways_pos@[i] == e);
                    assert(entrance_at(g0, e) && adjacent(c, e) && entrance_of(g0, e).road_pos
                        == c);
                    assert(!removed.contains(e)) by {
                        if entries.contains(e) {
                            assert(entrance_of(g0, e).road_pos == location);
                            assert(c != location);
                        }
                        if removed.contains(e) {
                            assert(e == location || entrance_at(g0, e) || building_at(g0, e));
                            if e == location {
                                assert(paving_at(g0, location));
                            }
                            if building_at(g0, e) {
                            }
                            assert(entries.contains(e) || e == location || building_at(g0, e));
                            assert(false);
                        }
                    }
                    assert(g1.contains_key(e));
                    assert(!links.contains(e));
                    assert(g1[e] == g0[e]);
                }
                assert forall|i: int| 0 <= i < p1.pavings_pos@.len() implies {
                    let q = #[trigger] p1.pavings_pos@[i];
                    &&& adjacent(c, q)
                    &&& paving_at(g1, q)
                    &&& paving_links(g1, q).contains(c)
                } by {
                    let q = p1.pavings_pos@[i];
                    assert(paving_links(g1, c).contains(q));
                    assert(paving_links(g0, c).contains(q) && q != location);
                    let k0 = choose|k0: int|
                        0 <= k0 < p0.pavings_pos@.len() && p0.pavings_pos@[k0] == q;
                    assert(p0.pavings_pos@[k0] == q);
                    assert(adjacent(c, q) && paving_at(g0, q) && paving_links(g0, q).contains(c));
                    assert(!removed.contains(q)) by {
                        if removed.contains(q) {
                            assert(q == location || entrance_at(g0, q) || building_at(g0, q));
                        }
                    }
                    assert(g1.contains_key(q));
                    if links.contains(q) {
                        assert(paving_links(g1, q).contains(c)) by {
                            assert(c != location);
                        }
                    } else {
                        assert(g1[q] == g0[q]);
                    }
                }
            } else {
                assert(g1[c] == g0[c]);
                match g0[c] {
                    Tile::Building(bt) => {
                        assert(building_at(g0, c));
                        let e = bt.entryway_pos;
                        assert(entrance_at(g0, e));
                        assert(!removed.contains(e));
                        assert(g1.contains_key(e));
                        assert(!links.contains(e)) by {
                            if links.contains(e) {
                                assert(paving_at(g0, e));
                            }
                        }
                        assert(g1[e] == g0[e]);
                        assert(self.building_seq(bt.building).contains(c));
                    },
                    Tile::Entrance(et) => {
                        assert(entrance_at(g0, c));
                        let rp = et.road_pos;
                        let b = et.building_pos;
                        assert(rp != location && !removed.contains(rp) && !removed.contains(b));
                        assert(paving_at(g0, rp));
                        assert(g1.contains_key(rp));
                        if links.contains(rp) {
                            assert(paving_entries(g1, rp) == paving_entries(g0, rp));
                            assert(paving_at(g1, rp));
                        } else {
                            assert(g1[rp] == g0[rp]);
                        }
                        assert(building_at(g0, b));
                        assert(g1.contains_key(b));
                        assert(!links.contains(b)) by {
                            if links.contains(b) {
                                assert(paving_at(g0, b));
                            }
                        }
                        assert(g1[b] == g0[b]);
                    },
                    Tile::Paving(p) => {
                        assert(paving_at(g0, c));
                        assert(!adjacent(location, c)) by {
                            if adjacent(location, c) {
                                assert(links.contains(c));
                            }
                        }
                        assert forall|i: int| 0 <= i < p.entryways_pos@.len() implies {
                            let e = #[trigger] p.entryways_pos@[i];
                            &&& adjacent(c, e)
                            &&& entrance_at(g1, e)
                            &&& entrance_of(g1, e).road_pos == c
                        } by {
                            let e = p.entryways_pos@[i];
                            assert(p.entryways_pos@.contains(e));
                            assert(entrance_at(g0, e) && adjacent(c, e) && entrance_of(
                                g0,
                                e,
                            ).road_pos == c);
                            assert(!removed.contains(e)) by {
                                if entries.contains(e) {
                                    assert(entrance_of(g0, e).road_pos == location);
                                    assert(c != location) by {
                                        assert(g1.contains_key(c));
                                    }
                                }
                                if removed.contains(e) {
                                    assert(e == location || entrance_at(g0, e) || building_at(
                                        g0,
                                        e,
                                    ));
                                    if e == location {
                                        assert(paving_at(g0, location));
                                    }
                                    assert(false);
                                }
                            }
                            assert(g1.contains_key(e));
                            assert(!links.contains(e)) by {
                                if links.contains(e) {
                                    assert(paving_at(g0, e));
                                }
                            }
                            assert(g1[e] == g0[e]);
                        }
                        assert forall|i: int| 0 <= i < p.pavings_pos@.len() implies {
                            let q = #[trigger] p.pavings_pos@[i];
                            &&& adjacent(c, q)
                            &&& paving_at(g1, q)
                            &&& paving_links(g1, q).contains(c)
                        } by {
                            let q = p.pavings_pos@[i];
                            assert(p.pavings_pos@.contains(q));
                            assert(adjacent(c, q) && paving_at(g0, q) && paving_links(
                                g0,
                                q,
                            ).contains(c));
                            assert(q != location) by {
                                if q == location {
                                    assert(adjacent(c, location));
                                }
                            }
                            assert(!removed.contains(q)) by {
                                if removed.contains(q) {
                                    assert(q == location || entrance_at(g0, q) || building_at(
                                        g0,
                                        q,
                                    ));
                                }
                            }
                            assert(g1.contains_key(q));
                            if links.contains(q) {
                                assert(paving_links(g1, q).contains(c)) by {
                                    assert(c != location);
                                }
                                assert(paving_at(g1, q));
                            } else {
                                assert(g1[q] == g0[q]);
                            }
                        }
                    },
                    Tile::Rails(rt) => {},
                }
            }
        }
        // Adjacent pavings stay mutually linked.
        assert forall|c: Coord2, d: Coord2|
            #[trigger] paving_at(g1, c) && #[trigger] paving_at(g1, d) && adjacent(
                c,
                d,
            ) implies paving_links(g1, c).contains(d) by {
            assert(g1.contains_key(c) && g1.contains_key(d));
            assert(paving_at(g0, c) && paving_at(g0, d));
            assert(paving_links(g0, c).contains(d));
            assert(d != location) by {
                assert(!removed.contains(d));
            }
            if links.contains(c) {
                assert(paving_links(g1, c).contains(d));
            } else {
                assert(g1[c] == g0[c]);
            }
        }
        // The building index lists exactly the surviving buildings.
        assert forall|b: Building, i2: int|
            0 <= i2 < self.building_seq(b).len() implies {
            let bc = #[trigger] self.building_seq(b)[i2];
            &&& building_at(g1, bc)
            &&& building_of(g1, bc).building == b
        } by {
            let bc = self.building_seq(b)[i2];
            assert(self.building_seq(b).contains(bc));
            assert(m0.building_seq(b).contains(bc) && !removed.contains(bc));
            let i0 = choose|i0: int|
                0 <= i0 < m0.building_seq(b).len() && m0.building_seq(b)[i0] == bc;
            assert(building_at(g0, bc) && building_of(g0, bc).building == b);
            assert(g1.contains_key(bc));
            assert(!links.contains(bc)) by {
                if links.contains(bc) {
                    assert(paving_at(g0, bc));
                }
            }
            assert(g1[bc] == g0[bc]);
        }
        // The stated shape of the result.
        assert(g1.dom() =~= g0.dom().difference(removed));
        assert forall|c: Coord2|
            g1.contains_key(c) && !(adjacent(location, c) && paving_at(g0, c)) implies g1[c]
                == g0[c] by {
            assert(!links.contains(c));
        }
    }
}

/// Each road offered by `spec_roads` lies at distance exactly two along one
/// axis, with the midpoint cell representable.
pub proof fn lemma_spec_roads_axis(m: TileMap, location: Coord2, i: int)
    requires
        0 <= i < m.spec_roads(location).len(),
    ensures
        paving_at(m.grid(), m.spec_roads(location)[i]),
        ({
            let road = m.spec_roads(location)[i];
            ||| road.x == location.x && road.y + 2 == location.y
            ||| road.x == location.x && location.y + 2 == road.y
            ||| road.y == location.y && road.x + 2 == location.x
            ||| road.y == location.y && location.x + 2 == road.x
        }),
{
}

/// A paving at `d` survives from `g0` to `g1` with at least its old
/// entrances and links still recorded.
pub open spec fn paving_extended(g0: Map<Coord2, Tile>, g1: Map<Coord2, Tile>, d: Coord2) -> bool {
    &&& paving_at(g0, d)
    &&& paving_at(g1, d)
    &&& forall|x: Coord2|
        paving_entries(g0, d).contains(x) ==> #[trigger] paving_entries(g1, d).contains(x)
    &&& forall|x: Coord2|
        paving_links(g0, d).contains(x) ==> #[trigger] paving_links(g1, d).contains(x)
}

/// A tile whose cell is unchanged keeps its links mirrored, provided every
/// cell it could link to is either unchanged or a paving that only gained
/// records, and the building index only grew.
proof fn lemma_tile_ok_extend(m0: TileMap, m1: TileMap, c: Coord2)
    requires
        m0.grid().contains_key(c),
        m0.tile_ok(c),
        m1.grid().contains_key(c),
        m1.grid()[c] == m0.grid()[c],
        forall|d: Coord2| #[trigger] m0.grid().contains_key(d) ==> m1.grid().contains_key(d),
        forall|d: Coord2|
            #[trigger] m0.grid().contains_key(d) ==> m1.grid()[d] == m0.grid()[d]
                || paving_extended(m0.grid(), m1.grid(), d),
        forall|b: Building, x: Coord2|
            m0.building_seq(b).contains(x) ==> #[trigger] m1.building_seq(b).contains(x),
    ensures
        m1.tile_ok(c),
{
    let g0 = m0.grid();
    let g1 = m1.grid();
    match g1[c] {
        Tile::Building(bt) => {
            let e = bt.entryway_pos;
            assert(entrance_at(g0, e));
            assert(g0.contains_key(e));
            assert(g1[e] == g0[e]);
            assert(m0.building_seq(bt.building).contains(c));
        },
        Tile::Entrance(et) => {
            assert(paving_at(g0, et.road_pos));
            assert(g0.contains_key(et.road_pos));
            if g1[et.road_pos] == g0[et.road_pos] {
                assert(paving_entries(g1, et.road_pos).contains(c));
            } else {
                assert(paving_extended(g0, g1, et.road_pos));
                assert(paving_entries(g0, et.road_pos).contains(c));
                assert(paving_entries(g1, et.road_pos).contains(c));
            }
            assert(building_at(g0, et.building_pos));
            assert(g0.contains_key(et.building_pos));
            assert(g1[et.building_pos] == g0[et.building_pos]);
        },
        Tile::Paving(p) => {
            assert forall|i: int| 0 <= i < p.entryways_pos@.len() implies {
                let e = #[trigger] p.entryways_pos@[i];
                &&& adjacent(c, e)
                &&& entrance_at(g1, e)
                &&& entrance_of(g1, e).road_pos == c
            } by {
                let e = p.entryways_pos@[i];
                assert(entrance_at(g0, e));
                assert(g0.contains_key(e));
                assert(g1[e] == g0[e]);
            }
            assert forall|i: int| 0 <= i < p.pavings_pos@.len() implies {
                let q = #[trigger] p.pavings_pos@[i];
                &&& adjacent(c, q)
                &&& paving_at(g1, q)
                &&& paving_links(g1, q).contains(c)
            } by {
                let q = p.pavings_pos@[i];
                assert(paving_at(g0, q));
                assert(g0.contains_key(q));
                assert(paving_links(g0, q).contains(c));
                if g1[q] == g0[q] {
                } else {
                    assert(paving_extended(g0, g1, q));
                    assert(paving_links(g1, q).contains(c));
                }
            }
        },
        Tile::Rails(rt) => {},
    }
}

/// Law: a map meeting the invariant holds zero dangling coordinate keys.
/// Every coordinate a tile references — a building's entrance, an
/// entrance's road and building, a paving's registered entrances and
/// linked pavings — names a cell that is itself occupied, by a tile of the
/// expected kind; and since every mutator re-establishes the invariant,
/// this holds after any editing sequence, cascading deletions included.
pub proof fn lemma_no_dangling_links(m: TileMap, c: Coord2)
    requires
        m.inv(),
        m.grid().contains_key(c),
    ensures
        match m.grid()[c] {
            Tile::Building(bt) => entrance_at(m.grid(), bt.entryway_pos),
            Tile::Entrance(et) => paving_at(m.grid(), et.road_pos) && building_at(
                m.grid(),
                et.building_pos,
            ),
            Tile::Paving(p) => (forall|i: int|
                0 <= i < p.entryways_pos@.len() ==> entrance_at(
                    m.grid(),
                    #[trigger] p.entryways_pos@[i],
                )) && (forall|i: int|
                0 <= i < p.pavings_pos@.len() ==> paving_at(
                    m.grid(),
                    #[trigger] p.pavings_pos@[i],
                )),
            Tile::Rails(rt) => rt.rails_pos@.len() == 0,
        },
{
    assert(m.tile_ok(c));
}

/// On a map meeting the invariant, a cell that passes the paving check has
/// no entrance or building on or next to it, so no tile links into it
/// except a neighbouring paving; and if the cell itself holds a paving,
/// that paving has no entrances registered.
pub proof fn lemma_can_pave_no_near_refs(m: TileMap, location: Coord2)
    requires
        m.inv(),
        m.spec_can_pave(location),
    ensures
        forall|c: Coord2|
            #[trigger] entrance_at(m.grid(), c) ==> c != location && entrance_of(
                m.grid(),
                c,
            ).road_pos != location && entrance_of(m.grid(), c).building_pos != location,
        forall|c: Coord2|
            #[trigger] building_at(m.grid(), c) ==> c != location && building_of(
                m.grid(),
                c,
            ).entryway_pos != location,
        paving_at(m.grid(), location) ==> paving_entries(m.grid(), location) =~= Seq::<
            Coord2,
        >::empty(),
{
    let g = m.grid();
    assert forall|c: Coord2| #[trigger] entrance_at(g, c) implies c != location && entrance_of(
        g,
        c,
    ).road_pos != location && entrance_of(g, c).building_pos != location by {
        assert(g.contains_key(c));
        assert(m.tile_ok(c));
        let et = g[c]->Entrance_0;
        if c == location {
            assert(adjacent(location, et.building_pos));
            assert(building_at(g, et.building_pos));
            assert(false);
        }
        if et.road_pos == location {
            assert(adjacent(location, c));
            assert(false);
        }
        if et.building_pos == location {
            assert(adjacent(location, c));
            assert(false);
        }
    }
    assert forall|c: Coord2| #[trigger] building_at(g, c) implies c != location && building_of(
        g,
        c,
    ).entryway_pos != location by {
        assert(g.contains_key(c));
        assert(m.tile_ok(c));
        let bt = g[c]->Building_0;
        if c == location {
            assert(adjacent(location, bt.entryway_pos));
            assert(entrance_at(g, bt.entryway_pos));
            assert(false);
        }
        if bt.entryway_pos == location {
            assert(entrance_at(g, location));
            assert(false);
        }
    }
    if paving_at(g, location) {
        assert(g.contains_key(location));
        assert(m.tile_ok(location));
        let p = g[location]->Paving_0;
        assert forall|i: int| 0 <= i < p.entryways_pos@.len() implies p.entryways_pos@[i]
            != p.entryways_pos@[i] by {
            let e = p.entryways_pos@[i];
            assert(adjacent(location, e));
            assert(entrance_at(g, e));
        }
        assert(p.entryways_pos@.len() == 0) by {
            if p.entryways_pos@.len() > 0 {
                let e0 = p.entryways_pos@[0];
                assert(e0 == p.entryways_pos@[0]);
            }
        }
        assert(paving_entries(g, location) =~= Seq::<Coord2>::empty());
    }
}

/// Packs a coordinate into the tile lookup's key type.
pub(crate) fn key_of(c: Coord2) -> (k: u128)
    ensures
        k == enc(c),
{
    c.x as u128 * 0x1_0000_0000_0000_0000 + c.y as u128
}

} // verus!
