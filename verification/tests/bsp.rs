use dungeon_feature::bsp::{generate_bsp_floor, select_different_room_index};
use dungeon_feature::dungeon::{FloorMap, TileKind};
use rand::rngs::StdRng;
use rand::SeedableRng;

fn make_rng(seed: u64) -> StdRng {
    StdRng::seed_from_u64(seed)
}

fn reachable_from_spawn(floor: &FloorMap) -> Vec<bool> {
    let mut visited = vec![false; (floor.width * floor.height) as usize];
    let mut stack = vec![floor.spawn_point];
    while let Some((x, y)) = stack.pop() {
        if x < 0 || y < 0 || x >= floor.width || y >= floor.height {
            continue;
        }
        let idx = (y * floor.width + x) as usize;
        if visited[idx] {
            continue;
        }
        match floor.tiles[idx] {
            TileKind::Floor | TileKind::Stairs | TileKind::TreasureChest => {}
            TileKind::Wall => continue,
        }
        visited[idx] = true;
        stack.push((x - 1, y));
        stack.push((x + 1, y));
        stack.push((x, y - 1));
        stack.push((x, y + 1));
    }
    visited
}

#[test]
fn test_generates_multiple_rooms() {
    let mut rng = make_rng(42);
    let floor = generate_bsp_floor(48, 48, &mut rng, 5, 15, false);
    assert!(floor.rooms.len() >= 2, "Expected >= 2 rooms, got {}", floor.rooms.len());
}

#[test]
fn test_spawn_and_stairs_different() {
    let mut rng = make_rng(42);
    let floor = generate_bsp_floor(48, 48, &mut rng, 5, 15, false);
    let stairs = floor.stairs_position.expect("Non-last floor should have stairs");
    assert_ne!(floor.spawn_point, stairs, "Spawn and stairs should be at different positions");
}

#[test]
fn test_last_floor_no_stairs() {
    let mut rng = make_rng(42);
    let floor = generate_bsp_floor(48, 48, &mut rng, 5, 15, true);
    assert!(floor.stairs_position.is_none(), "Last floor should have no stairs");
}

#[test]
fn test_deterministic_with_seed() {
    let mut rng1 = make_rng(123);
    let floor1 = generate_bsp_floor(48, 48, &mut rng1, 5, 15, false);
    let mut rng2 = make_rng(123);
    let floor2 = generate_bsp_floor(48, 48, &mut rng2, 5, 15, false);
    assert_eq!(floor1.tiles, floor2.tiles, "Same seed should produce same floor");
    assert_eq!(floor1.spawn_point, floor2.spawn_point);
    assert_eq!(floor1.stairs_position, floor2.stairs_position);
}

#[test]
fn test_all_rooms_accessible() {
    let mut rng = make_rng(42);
    let floor = generate_bsp_floor(48, 48, &mut rng, 5, 15, false);
    let visited = reachable_from_spawn(&floor);
    for (i, tile) in floor.tiles.iter().enumerate() {
        if matches!(tile, TileKind::Floor | TileKind::Stairs | TileKind::TreasureChest) {
            assert!(
                visited[i],
                "Tile at ({}, {}) is not reachable from spawn",
                i as i32 % floor.width,
                i as i32 / floor.width
            );
        }
    }
}

#[test]
fn test_spawn_on_floor_tile() {
    let mut rng = make_rng(42);
    let floor = generate_bsp_floor(48, 48, &mut rng, 5, 15, false);
    let (sx, sy) = floor.spawn_point;
    let tile = floor.tile_at(sx, sy);
    assert_eq!(tile, Some(TileKind::Floor), "Spawn point must be a Floor tile");
}

#[test]
fn test_no_out_of_bounds_tiles() {
    let mut rng = make_rng(42);
    let floor = generate_bsp_floor(48, 48, &mut rng, 5, 15, false);
    assert_eq!(
        floor.tiles.len(),
        (floor.width * floor.height) as usize,
        "Tile count must match map dimensions"
    );
    for room in &floor.rooms {
        assert!(room.x >= 0, "Room x out of bounds");
        assert!(room.y >= 0, "Room y out of bounds");
        assert!(room.x + room.width <= floor.width, "Room extends beyond map width");
        assert!(room.y + room.height <= floor.height, "Room extends beyond map height");
    }
}

#[test]
fn test_minimum_map_size_fallback() {
    let mut rng = make_rng(42);
    let floor = generate_bsp_floor(8, 8, &mut rng, 5, 15, false);
    assert!(!floor.rooms.is_empty(), "Fallback should create at least 1 room");
    assert!(floor.stairs_position.is_some(), "Non-last floor should have stairs");

    let (sx, sy) = floor.spawn_point;
    assert!(floor.is_walkable(sx, sy), "Spawn point must be walkable in fallback");
}

#[test]
fn test_last_floor_has_treasure_chest() {
    let mut rng = make_rng(42);
    let floor = generate_bsp_floor(48, 48, &mut rng, 5, 15, true);
    assert!(floor.treasure_chest_position.is_some(), "Last floor should have a treasure chest");
    let (cx, cy) = floor.treasure_chest_position.unwrap();
    assert_eq!(
        floor.tile_at(cx, cy),
        Some(TileKind::TreasureChest),
        "treasure_chest_position must point to a TreasureChest tile"
    );
}

#[test]
fn test_treasure_chest_reachable_from_spawn() {
    let mut rng = make_rng(42);
    let floor = generate_bsp_floor(48, 48, &mut rng, 5, 15, true);
    let chest_pos = floor.treasure_chest_position.expect("Should have treasure chest");
    let visited = reachable_from_spawn(&floor);
    let chest_idx = (chest_pos.1 * floor.width + chest_pos.0) as usize;
    assert!(
        visited[chest_idx],
        "TreasureChest at ({}, {}) must be reachable from spawn",
        chest_pos.0,
        chest_pos.1,
    );
}

#[test]
fn test_non_last_floor_no_treasure_chest() {
    let mut rng = make_rng(42);
    let floor = generate_bsp_floor(48, 48, &mut rng, 5, 15, false);
    assert!(floor.treasure_chest_position.is_none(), "Non-last floor should not have a treasure chest");
}

#[test]
fn test_select_different_room_index_two_rooms() {
    let mut rng = make_rng(99);
    assert_eq!(select_different_room_index(&mut rng, 2, 0), 1);
    assert_eq!(select_different_room_index(&mut rng, 2, 1), 0);
}

#[test]
fn test_select_different_room_index_one_room() {
    let mut rng = make_rng(99);
    assert_eq!(select_different_room_index(&mut rng, 1, 0), 0);
}

#[test]
fn test_select_different_room_index_many_rooms() {
    let mut rng = make_rng(42);
    let total = 10;
    for exclude in 0..total {
        let result = select_different_room_index(&mut rng, total, exclude);
        assert_ne!(result, exclude, "Must select a different room");
        assert!(result < total, "Index must be in range");
    }
}

#[test]
fn test_randomized_spawn_deterministic_with_seed() {
    let mut rng1 = make_rng(777);
    let floor1 = generate_bsp_floor(48, 48, &mut rng1, 5, 15, false);
    let mut rng2 = make_rng(777);
    let floor2 = generate_bsp_floor(48, 48, &mut rng2, 5, 15, false);
    assert_eq!(floor1.spawn_point, floor2.spawn_point);
    assert_eq!(floor1.stairs_position, floor2.stairs_position);
}

#[test]
fn test_treasure_chest_not_at_spawn() {
    for seed in 0..20u64 {
        let mut rng = make_rng(seed);
        let floor = generate_bsp_floor(48, 48, &mut rng, 5, 15, true);
        if floor.rooms.len() > 1 {
            let chest = floor.treasure_chest_position.expect("Last floor should have chest");
            assert_ne!(floor.spawn_point, chest, "Treasure chest should not be at spawn (seed={})", seed);
        }
    }
}

#[test]
fn rooms_do_not_overlap_and_respect_sizes() {
    for seed in 0..10u64 {
        let mut rng = make_rng(seed);
        let floor = generate_bsp_floor(48, 48, &mut rng, 5, 15, false);
        for (i, a) in floor.rooms.iter().enumerate() {
            if floor.rooms.len() > 1 {
                assert!(a.width >= 5 && a.width <= 15 && a.height >= 5 && a.height <= 15);
            }
            for b in floor.rooms.iter().skip(i + 1) {
                assert!(!a.intersects(b));
            }
        }
    }
}

#[test]
fn tiny_map_gets_the_single_room_fallback() {
    let mut rng = make_rng(1);
    let floor = generate_bsp_floor(8, 8, &mut rng, 5, 15, true);
    assert_eq!(floor.rooms.len(), 1);
    assert!(floor.stairs_position.is_none());
    assert_eq!(floor.rooms[0].x, 2);
    assert_eq!(floor.rooms[0].width, 4);
    // on an 8x8 map the chest corner of the 4x4 room is its centre, where the player spawns
    assert_eq!(floor.treasure_chest_position, Some((4, 4)));
    assert_eq!(floor.spawn_point, (4, 4));
    assert_eq!(floor.tile_at(4, 4), Some(TileKind::TreasureChest));
}

#[test]
fn every_walkable_tile_is_reachable_across_sizes_and_seeds() {
    let sizes = [(1, 1), (2, 3), (5, 5), (8, 8), (12, 9), (20, 30), (48, 48), (64, 40)];
    for &(w, h) in sizes.iter() {
        for seed in 0..8u64 {
            for last in [false, true] {
                let mut rng = make_rng(seed);
                let floor = generate_bsp_floor(w, h, &mut rng, 5, 15, last);
                let visited = reachable_from_spawn(&floor);
                for (i, tile) in floor.tiles.iter().enumerate() {
                    if *tile != TileKind::Wall {
                        assert!(visited[i], "{}x{} seed {}: tile {} unreachable", w, h, seed, i);
                    }
                }
            }
        }
    }
}

#[test]
fn small_map_fallback_floor_is_exact() {
    let mut rng = make_rng(42);
    let r = generate_bsp_floor(8, 8, &mut rng, 5, 15, false);
    assert_eq!(r.tiles.len(), 64);
    assert_eq!(r.rooms.len(), 1);
    let room = r.rooms[0];
    assert_eq!((room.x, room.y, room.width, room.height), (2, 2, 4, 4));
    assert_eq!(r.spawn_point, (4, 4));
    assert_eq!(r.stairs_position, Some((3, 3)));
    assert!(r.treasure_chest_position.is_none());
    assert_eq!(r.tile_at(3, 3), Some(TileKind::Stairs));
    assert_eq!(r.tile_at(4, 4), Some(TileKind::Floor));
    assert_eq!(r.tile_at(1, 1), Some(TileKind::Wall));
}

#[test]
fn exactly_one_stairs_or_chest_tile() {
    for seed in 0..6u64 {
        for last in [false, true] {
            for &(w, h) in [(8, 8), (48, 48), (30, 20)].iter() {
                let mut rng = make_rng(seed);
                let r = generate_bsp_floor(w, h, &mut rng, 5, 15, last);
                let markers = r
                    .tiles
                    .iter()
                    .filter(|t| **t == TileKind::Stairs || **t == TileKind::TreasureChest)
                    .count();
                assert_eq!(markers, 1);
            }
        }
    }
}

#[test]
fn partitioned_rooms_keep_their_sizes_and_border() {
    for seed in 0..6u64 {
        let mut rng = make_rng(seed);
        let r = generate_bsp_floor(48, 48, &mut rng, 5, 15, false);
        assert!(!r.rooms.is_empty());
        for room in &r.rooms {
            assert!(room.x >= 2 && room.y >= 2);
            assert!(room.x + room.width <= 47 && room.y + room.height <= 47);
            assert!((5..=15).contains(&room.width) && (5..=15).contains(&room.height));
        }
    }
}

#[test]
fn border_band_stays_wall() {
    for seed in 0..6u64 {
        let mut rng = make_rng(seed);
        let r = generate_bsp_floor(48, 40, &mut rng, 5, 15, seed % 2 == 0);
        for y in 0..40 {
            for x in 0..48 {
                if x < 2 || y < 2 || x >= 47 || y >= 39 {
                    assert_eq!(r.tile_at(x, y), Some(TileKind::Wall), "({}, {})", x, y);
                }
            }
        }
    }
}
