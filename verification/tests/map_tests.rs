use tilewater::map::{MapError, TileMap};
use tilewater::tile::Tile;
use tilewater::{Building, Coord2, Direction, Orientation, Path};

fn c(x: u64, y: u64) -> Coord2 {
    Coord2 { x, y }
}

#[test]
fn it_works() {}

#[test]
fn new_map_has_seed_paving() {
    let map = TileMap::new(c(80, 80));
    assert_eq!(map.width(), 80);
    assert_eq!(map.height(), 80);
    match map.get(c(40, 0)) {
        Some(Tile::Paving(p)) => {
            assert!(p.entryways_pos.is_empty());
            assert!(p.pavings_pos.is_empty());
        }
        _ => panic!("expected the seed paving at the north edge middle"),
    }
    assert!(map.get(c(0, 0)).is_none());
    assert!(map.is_bounded(c(79, 79)));
    assert!(!map.is_bounded(c(80, 0)));
}

#[test]
fn pave_links_both_ways() {
    let mut map = TileMap::new(c(80, 80));
    assert!(map.can_pave(c(40, 1)));
    map.pave(c(40, 1));
    match map.get(c(40, 0)) {
        Some(Tile::Paving(p)) => assert!(p.pavings_pos.contains(&c(40, 1))),
        _ => panic!("seed paving is gone"),
    }
    match map.get(c(40, 1)) {
        Some(Tile::Paving(p)) => {
            assert!(p.pavings_pos.contains(&c(40, 0)));
            assert_eq!(p.pavings_pos.len(), 1);
            assert!(p.entryways_pos.is_empty());
        }
        _ => panic!("new paving is missing"),
    }
}

#[test]
fn can_pave_refuses_blocked_neighbourhoods() {
    let mut map = TileMap::new(c(80, 80));
    for y in 1..5 {
        assert!(map.can_pave(c(40, y)));
        map.pave(c(40, y));
    }
    assert!(map.build(c(42, 2), Building::House));
    // The entrance at (41, 2) blocks paving beside it.
    assert!(!map.can_pave(c(41, 1)));
    // Far away open ground is pavable (no connection required).
    assert!(map.can_pave(c(10, 10)));
}

#[test]
fn build_fails_when_a_neighbour_is_occupied() {
    let mut map = TileMap::new(c(80, 80));
    for y in 1..6 {
        map.pave(c(40, y));
    }
    // (41, 2) has the paving (40, 2) as a neighbour, so the site is
    // blocked even though a road lies at distance two.
    assert!(!map.can_build(c(41, 2)));
    assert!(!map.build(c(41, 2), Building::House));
    assert!(map.get(c(41, 2)).is_none());
}

#[test]
fn build_fails_without_a_road_at_distance_two() {
    let mut map = TileMap::new(c(80, 80));
    // Nothing anywhere near (10, 10).
    assert!(!map.can_build(c(10, 10)));
    assert!(!map.build(c(10, 10), Building::House));
    assert!(map.get(c(10, 10)).is_none());
    assert!(map.buildings_of(Building::House).is_empty());
}

#[test]
fn build_places_building_entrance_and_road_record() {
    let mut map = TileMap::new(c(80, 80));
    for y in 1..6 {
        map.pave(c(40, y));
    }
    assert!(map.can_build(c(42, 3)));
    assert!(map.build(c(42, 3), Building::House));
    match map.get(c(42, 3)) {
        Some(Tile::Building(bt)) => {
            assert_eq!(bt.building, Building::House);
            assert_eq!(bt.entryway_pos, c(41, 3));
        }
        _ => panic!("expected the new house"),
    }
    match map.get(c(41, 3)) {
        Some(Tile::Entrance(et)) => {
            assert_eq!(et.road_pos, c(40, 3));
            assert_eq!(et.building_pos, c(42, 3));
            assert_eq!(et.orientation, Orientation::Horizontal);
        }
        _ => panic!("expected the new entrance"),
    }
    match map.get(c(40, 3)) {
        Some(Tile::Paving(p)) => assert!(p.entryways_pos.contains(&c(41, 3))),
        _ => panic!("road record is missing"),
    }
    assert_eq!(map.buildings_of(Building::House).len(), 1);
    assert_eq!(map.buildings_of(Building::House)[0], c(42, 3));
}

#[test]
fn delete_building_removes_building_entrance_and_records() {
    let mut map = TileMap::new(c(80, 80));
    for y in 1..6 {
        map.pave(c(40, y));
    }
    assert!(map.build(c(42, 3), Building::Saloon));
    assert!(map.delete(c(42, 3)).is_ok());
    assert!(map.get(c(42, 3)).is_none());
    assert!(map.get(c(41, 3)).is_none());
    match map.get(c(40, 3)) {
        Some(Tile::Paving(p)) => assert!(p.entryways_pos.is_empty()),
        _ => panic!("road should survive the deletion"),
    }
    assert!(map.buildings_of(Building::Saloon).is_empty());
}

#[test]
fn delete_entrance_deletes_its_building() {
    let mut map = TileMap::new(c(80, 80));
    for y in 1..6 {
        map.pave(c(40, y));
    }
    assert!(map.build(c(42, 3), Building::GeneralStore));
    assert!(map.delete(c(41, 3)).is_ok());
    assert!(map.get(c(41, 3)).is_none());
    assert!(map.get(c(42, 3)).is_none());
    assert!(map.buildings_of(Building::GeneralStore).is_empty());
}

#[test]
fn delete_paving_cascades_to_two_entrances_and_buildings() {
    let mut map = TileMap::new(c(80, 80));
    for y in 1..6 {
        map.pave(c(40, y));
    }
    // Two buildings served by entrances on the same paving (40, 3).
    assert!(map.build(c(42, 3), Building::House));
    assert!(map.build(c(38, 3), Building::Factory));
    assert!(map.delete(c(40, 3)).is_ok());
    // The paving, both entrances and both buildings are gone.
    assert!(map.get(c(40, 3)).is_none());
    assert!(map.get(c(41, 3)).is_none());
    assert!(map.get(c(42, 3)).is_none());
    assert!(map.get(c(39, 3)).is_none());
    assert!(map.get(c(38, 3)).is_none());
    assert!(map.buildings_of(Building::House).is_empty());
    assert!(map.buildings_of(Building::Factory).is_empty());
    // No neighbouring paving still points at the deleted cell.
    match map.get(c(40, 2)) {
        Some(Tile::Paving(p)) => assert!(!p.pavings_pos.contains(&c(40, 3))),
        _ => panic!("paving north of the deleted cell should survive"),
    }
    match map.get(c(40, 4)) {
        Some(Tile::Paving(p)) => assert!(!p.pavings_pos.contains(&c(40, 3))),
        _ => panic!("paving south of the deleted cell should survive"),
    }
}

#[test]
fn delete_rails_is_an_explicit_unsupported_error() {
    let mut map = TileMap::new(c(80, 80));
    map.rail(c(0, 0));
    assert!(matches!(map.get(c(0, 0)), Some(Tile::Rails(_))));
    assert_eq!(map.delete(c(0, 0)), Err(MapError::UnsupportedDelete));
    assert!(matches!(map.get(c(0, 0)), Some(Tile::Rails(_))));
}

#[test]
fn delete_of_an_empty_cell_is_a_quiet_ok() {
    let mut map = TileMap::new(c(80, 80));
    assert_eq!(map.delete(c(5, 5)), Ok(()));
    assert!(map.get(c(5, 5)).is_none());
}

#[test]
fn coord_flip_and_neighbours() {
    assert_eq!(c(3, 9).flip(), c(9, 3));
    let ns = c(5, 5).neighbours();
    assert_eq!(ns, vec![c(5, 4), c(4, 5), c(5, 6), c(6, 5)]);
    let origin_ns = c(0, 0).neighbours();
    assert_eq!(origin_ns, vec![c(0, 1), c(1, 0)]);
}

#[test]
fn orientation_queries() {
    assert_eq!(Orientation::from_coord2(c(0, 2)), Some(Orientation::Vertical));
    assert_eq!(Orientation::from_coord2(c(2, 0)), Some(Orientation::Horizontal));
    assert_eq!(Orientation::from_coord2(c(0, 0)), None);
    assert_eq!(Orientation::from_coord2(c(1, 1)), None);
    assert_eq!(
        Orientation::between_coord2s(c(4, 2), c(4, 7)),
        Some(Orientation::Vertical)
    );
    assert_eq!(
        Orientation::between_coord2s(c(1, 2), c(4, 2)),
        Some(Orientation::Horizontal)
    );
    assert_eq!(Orientation::between_coord2s(c(4, 2), c(4, 2)), None);
    assert_eq!(Orientation::Vertical.as_offset(), c(0, 1));
    assert_eq!(Orientation::Horizontal.as_offset(), c(1, 0));
}

#[test]
fn direction_queries() {
    assert_eq!(Direction::between_coord2s(c(5, 5), c(2, 5)), Some(Direction::West));
    assert_eq!(Direction::between_coord2s(c(5, 5), c(9, 5)), Some(Direction::East));
    assert_eq!(Direction::between_coord2s(c(5, 5), c(5, 1)), Some(Direction::North));
    assert_eq!(Direction::between_coord2s(c(5, 5), c(5, 9)), Some(Direction::South));
    assert_eq!(Direction::between_coord2s(c(5, 5), c(5, 5)), None);
    assert_eq!(Direction::between_coord2s(c(5, 5), c(6, 6)), None);
    assert_eq!(Direction::North.as_offset(), (0, -1));
    assert_eq!(Direction::East.as_offset(), (1, 0));
    assert_eq!(Direction::South.as_offset(), (0, 1));
    assert_eq!(Direction::West.as_offset(), (-1, 0));
}

#[test]
fn path_cells_and_queries() {
    let path = Path {
        start: c(3, 4),
        orientation: Orientation::Horizontal,
        length: 3,
    };
    assert!(!path.is_empty());
    assert_eq!(path.coords(), vec![c(3, 4), c(4, 4), c(5, 4)]);
    assert!(path.contains(c(4, 4)));
    assert!(!path.contains(c(6, 4)));
    assert_eq!(path.end(), c(6, 4));
    let advanced = path.advance().expect("a longer path advances");
    assert_eq!(advanced.start, c(4, 4));
    assert_eq!(advanced.length, 2);
    let last = Path {
        start: c(0, 0),
        orientation: Orientation::Vertical,
        length: 1,
    };
    assert!(last.advance().is_none());
    let empty = Path {
        start: c(0, 0),
        orientation: Orientation::Vertical,
        length: 0,
    };
    assert!(empty.is_empty());
    for n in path.neighbours() {
        assert!(!path.contains(n));
    }
    assert!(path.neighbours().contains(&c(3, 3)));
}

#[test]
fn building_codes_round_trip() {
    for b in [
        Building::House,
        Building::Saloon,
        Building::Factory,
        Building::GeneralStore,
        Building::TrainStation,
    ] {
        assert_eq!(Building::from_code(b.code()), Some(b));
    }
    assert_eq!(Building::from_code('h'), Some(Building::House));
    assert_eq!(Building::from_code('s'), Some(Building::Saloon));
    assert_eq!(Building::from_code('f'), Some(Building::Factory));
    assert_eq!(Building::from_code('g'), Some(Building::GeneralStore));
    assert_eq!(Building::from_code('r'), Some(Building::TrainStation));
    assert_eq!(Building::from_code('x'), None);
    assert_eq!(Building::House.code(), 'h');
}

#[test]
fn cursor_is_plain_editor_state() {
    let mut map = TileMap::new(c(80, 80));
    map.cursor = c(7, 9);
    assert_eq!(map.cursor, c(7, 9));
}

#[test]
fn deleting_an_entrance_equals_deleting_its_building() {
    let build_town = || {
        let mut map = TileMap::new(c(80, 80));
        for y in 1..6 {
            map.pave(c(40, y));
        }
        assert!(map.build(c(42, 2), Building::House));
        assert!(map.build(c(42, 4), Building::House));
        map
    };
    let mut via_building = build_town();
    let mut via_entrance = build_town();
    assert!(via_building.delete(c(42, 2)).is_ok());
    assert!(via_entrance.delete(c(41, 2)).is_ok());
    // Same tiles cell for cell, and the same index.
    for y in 0..8 {
        for x in 36..46 {
            let a = via_building.get(c(x, y)).is_some();
            let b = via_entrance.get(c(x, y)).is_some();
            assert_eq!(a, b, "presence differs at ({}, {})", x, y);
        }
    }
    match (via_building.get(c(40, 2)), via_entrance.get(c(40, 2))) {
        (Some(Tile::Paving(p1)), Some(Tile::Paving(p2))) => {
            assert_eq!(p1.entryways_pos, p2.entryways_pos);
            assert_eq!(p1.pavings_pos, p2.pavings_pos);
        }
        _ => panic!("the road should survive both deletions"),
    }
    assert_eq!(
        via_building.buildings_of(Building::House),
        via_entrance.buildings_of(Building::House)
    );
}
