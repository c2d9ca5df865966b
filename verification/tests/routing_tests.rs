use tilewater::map::TileMap;
use tilewater::routing::{closest_building, direction_of_route, route, route_to_any, route_to_building, Route, RouteDirection};
use tilewater::{Building, Coord2, Direction};

fn c(x: u64, y: u64) -> Coord2 {
    Coord2 { x, y }
}

/// A map with a paved column at x = 40 from y = 0 down to y = 9.
fn column_map() -> TileMap {
    let mut map = TileMap::new(c(80, 80));
    for y in 1..10 {
        assert!(map.can_pave(c(40, y)));
        map.pave(c(40, y));
    }
    map
}

#[test]
fn adjacent_pavings_route_directly() {
    let map = column_map();
    let r = route(&map, c(40, 3), c(40, 4));
    assert_eq!(r, Route::Tiles(vec![c(40, 3), c(40, 4)]));
}

#[test]
fn route_to_self_is_complete_without_search() {
    let map = column_map();
    assert_eq!(route(&map, c(40, 3), c(40, 3)), Route::Complete);
    // Even a cell with no tile at all: nothing has to be walked.
    assert_eq!(route(&map, c(7, 7), c(7, 7)), Route::Complete);
}

#[test]
fn route_to_an_empty_cell_is_not_routeable() {
    let map = column_map();
    assert_eq!(route(&map, c(40, 3), c(79, 79)), Route::NotRouteable);
}

#[test]
fn route_follows_the_road() {
    let map = column_map();
    match route(&map, c(40, 0), c(40, 9)) {
        Route::Tiles(path) => {
            assert_eq!(path.len(), 10);
            assert_eq!(path[0], c(40, 0));
            assert_eq!(path[9], c(40, 9));
            for (i, cell) in path.iter().enumerate() {
                assert_eq!(*cell, c(40, i as u64));
            }
        }
        other => panic!("expected a road path, got {:?}", other),
    }
}

#[test]
fn route_enters_a_building_through_its_entrance() {
    let mut map = column_map();
    assert!(map.build(c(42, 3), Building::Saloon));
    match route(&map, c(40, 0), c(42, 3)) {
        Route::Tiles(path) => {
            assert_eq!(path[0], c(40, 0));
            assert_eq!(*path.last().unwrap(), c(42, 3));
            assert!(path.contains(&c(41, 3)), "the path must use the entrance");
        }
        other => panic!("expected a path to the saloon, got {:?}", other),
    }
}

#[test]
fn direction_of_route_reports_the_first_step() {
    let map = column_map();
    assert_eq!(
        direction_of_route(&map, c(40, 3), c(40, 9)),
        RouteDirection::Direction(Direction::South)
    );
    assert_eq!(
        direction_of_route(&map, c(40, 9), c(40, 0)),
        RouteDirection::Direction(Direction::North)
    );
    assert_eq!(direction_of_route(&map, c(40, 3), c(40, 3)), RouteDirection::Complete);
    assert_eq!(
        direction_of_route(&map, c(40, 3), c(70, 70)),
        RouteDirection::NotRouteable
    );
}

#[test]
fn route_to_any_is_complete_when_start_is_a_goal() {
    let map = column_map();
    let goals = vec![c(40, 5), c(40, 3)];
    assert_eq!(route_to_any(&map, c(40, 3), &goals), Route::Complete);
}

#[test]
fn route_to_any_picks_the_fewest_tiles() {
    let map = column_map();
    let goals = vec![c(40, 9), c(40, 2)];
    match route_to_any(&map, c(40, 0), &goals) {
        Route::Tiles(path) => {
            assert_eq!(path.len(), 3);
            assert_eq!(*path.last().unwrap(), c(40, 2));
        }
        other => panic!("expected the nearer goal's path, got {:?}", other),
    }
}

#[test]
fn route_to_any_with_no_reachable_goal() {
    let map = column_map();
    let goals = vec![c(70, 70), c(71, 71)];
    assert_eq!(route_to_any(&map, c(40, 0), &goals), Route::NotRouteable);
    let no_goals: Vec<Coord2> = vec![];
    assert_eq!(route_to_any(&map, c(40, 0), &no_goals), Route::NotRouteable);
}

#[test]
fn closest_building_finds_the_nearest_of_a_kind() {
    let mut map = column_map();
    assert!(map.build(c(42, 8), Building::Saloon));
    assert!(map.build(c(42, 2), Building::Saloon));
    assert_eq!(closest_building(&map, c(40, 0), Building::Saloon), Some(c(42, 2)));
    assert_eq!(closest_building(&map, c(40, 0), Building::Factory), None);
    assert_eq!(
        route_to_building(&map, c(40, 0), Building::GeneralStore),
        Route::NotRouteable
    );
}

#[test]
fn route_crosses_open_ground_as_a_fallback() {
    let mut map = TileMap::new(c(80, 80));
    // A second, unconnected paving two cells south of the seed.
    map.pave(c(40, 2));
    match route(&map, c(40, 0), c(40, 2)) {
        Route::Tiles(path) => {
            assert_eq!(path[0], c(40, 0));
            assert_eq!(*path.last().unwrap(), c(40, 2));
            assert_eq!(path.len(), 3);
        }
        other => panic!("expected a walk across open ground, got {:?}", other),
    }
}
