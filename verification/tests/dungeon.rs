use dungeon_feature::dungeon::{CurrentFloor, FloorMap, Room, TileKind};

fn make_floor_map(width: i32, height: i32, tiles: Vec<TileKind>) -> FloorMap {
    FloorMap {
        width,
        height,
        tiles,
        rooms: vec![],
        spawn_point: (0, 0),
        stairs_position: None,
        treasure_chest_position: None,
    }
}

#[test]
fn test_current_floor_reset() {
    let mut floor = CurrentFloor::default();
    floor.advance();
    floor.advance();
    assert_eq!(floor.number(), 2);
    floor.reset();
    assert_eq!(floor.number(), 0);
}

#[test]
fn test_is_walkable_treasure_chest() {
    let tiles = vec![TileKind::TreasureChest];
    let map = make_floor_map(1, 1, tiles);
    assert!(map.is_walkable(0, 0));
}

#[test]
fn test_line_of_sight_open_space() {
    let map = make_floor_map(3, 3, vec![TileKind::Floor; 9]);
    assert!(map.has_line_of_sight_tiles((0, 0), (2, 2)));
    assert!(map.has_line_of_sight_tiles((0, 0), (2, 0)));
    assert!(map.has_line_of_sight_tiles((0, 0), (0, 2)));
}

#[test]
fn test_line_of_sight_blocked_by_wall() {
    let mut tiles = vec![TileKind::Floor; 9];
    tiles[4] = TileKind::Wall;
    let map = make_floor_map(3, 3, tiles);
    assert!(!map.has_line_of_sight_tiles((0, 0), (2, 2)));
}

#[test]
fn test_line_of_sight_same_position() {
    let map = make_floor_map(3, 3, vec![TileKind::Floor; 9]);
    assert!(map.has_line_of_sight_tiles((1, 1), (1, 1)));
}

#[test]
fn out_of_bounds_is_not_walkable() {
    let map = make_floor_map(2, 2, vec![TileKind::Floor; 4]);
    assert!(!map.is_walkable(-1, 0));
    assert!(!map.is_walkable(0, 2));
    assert_eq!(map.tile_at(2, 0), None);
    assert_eq!(map.tile_at(1, 1), Some(TileKind::Floor));
}

#[test]
fn walls_are_not_walkable_stairs_are() {
    let map = make_floor_map(2, 1, vec![TileKind::Wall, TileKind::Stairs]);
    assert!(!map.is_walkable(0, 0));
    assert!(map.is_walkable(1, 0));
}

#[test]
fn line_of_sight_needs_walkable_endpoints() {
    let map = make_floor_map(3, 1, vec![TileKind::Wall, TileKind::Floor, TileKind::Floor]);
    assert!(!map.has_line_of_sight_tiles((0, 0), (2, 0)));
    assert!(!map.has_line_of_sight_tiles((2, 0), (0, 0)));
    assert!(map.has_line_of_sight_tiles((1, 0), (2, 0)));
}

#[test]
fn room_centre_and_intersection() {
    let a = Room { x: 2, y: 3, width: 5, height: 4 };
    assert_eq!(a.center(), (4, 5));
    let b = Room { x: 6, y: 6, width: 3, height: 3 };
    let c = Room { x: 7, y: 3, width: 3, height: 3 };
    assert!(a.intersects(&b));
    assert!(b.intersects(&a));
    assert!(!a.intersects(&c));
    assert!(!c.intersects(&a));
}

#[test]
fn last_floor_check() {
    let mut floor = CurrentFloor::default();
    assert_eq!(floor.number(), 0);
    floor.advance();
    assert!(!floor.is_last(2));
    floor.advance();
    assert!(floor.is_last(2));
}

#[test]
fn every_pair_sees_each_other_on_an_open_map() {
    let (w, h) = (7, 5);
    let map = make_floor_map(w, h, vec![TileKind::Floor; (w * h) as usize]);
    for fx in 0..w {
        for fy in 0..h {
            for tx in 0..w {
                for ty in 0..h {
                    assert!(map.has_line_of_sight_tiles((fx, fy), (tx, ty)));
                }
            }
        }
    }
}
