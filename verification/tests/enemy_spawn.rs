use dungeon_feature::dungeon::Room;
use dungeon_feature::enemy_spawn::{enemy_spawn_rooms, random_inner_cell};
use rand::rngs::StdRng;
use rand::SeedableRng;

fn room(x: i32, y: i32) -> Room {
    Room { x, y, width: 5, height: 4 }
}

#[test]
fn enemies_skip_the_first_room_unless_it_is_alone() {
    let rooms = vec![room(2, 2), room(10, 2), room(20, 8)];
    assert_eq!(enemy_spawn_rooms(&rooms), vec![room(10, 2), room(20, 8)]);
    assert_eq!(enemy_spawn_rooms(&vec![room(2, 2)]), vec![room(2, 2)]);
    assert!(enemy_spawn_rooms(&Vec::new()).is_empty());
}

#[test]
fn inner_cells_keep_off_the_walls() {
    let mut rng = StdRng::seed_from_u64(7);
    let r = room(10, 20);
    for _ in 0..200 {
        let (x, y) = random_inner_cell(&mut rng, &r);
        assert!((11..14).contains(&x));
        assert!((21..23).contains(&y));
    }
}
