use rand::rngs::StdRng;
use vstd::prelude::*;
use crate::dungeon::{Room, fits_i32};
use crate::rng::random_range_i32;

verus! {

/// The rooms enemies spawn in: every room but the first (where the floor's
/// first room is kept for the player), or the only room when there is one.
pub fn enemy_spawn_rooms(rooms: &Vec<Room>) -> (r: Vec<Room>)
    ensures
        r@ == if rooms@.len() > 1 { rooms@.skip(1) } else { rooms@ },
{
    if rooms.len() <= 1 {
        return rooms.clone();
    }
    let mut r: Vec<Room> = Vec::new();
    let mut i: usize = 1;
    while i < rooms.len()
        invariant
            1 <= i <= rooms@.len(),
            r@ == rooms@.subrange(1, i as int),
        decreases rooms@.len() - i,
    {
        r.push(rooms[i]);
        assert(rooms@.subrange(1, i + 1) =~= rooms@.subrange(1, i as int).push(rooms@[i as int]));
        i = i + 1;
    }
    assert(rooms@.subrange(1, rooms@.len() as int) =~= rooms@.skip(1));
    r
}

/// A random cell strictly inside the room, one cell in from each of its
/// walls: the column is drawn first, then the row.
pub fn random_inner_cell(rng: &mut StdRng, room: &Room) -> (r: (i32, i32))
    requires
        room.width >= 3,
        room.height >= 3,
        fits_i32(room.x + room.width),
        fits_i32(room.y + room.height),
    ensures
        room.x + 1 <= r.0 < room.x + room.width - 1,
        room.y + 1 <= r.1 < room.y + room.height - 1,
{
    let x = random_range_i32(rng, room.x + 1, room.x + room.width - 1);
    let y = random_range_i32(rng, room.y + 1, room.y + room.height - 1);
    (x, y)
}

} // verus!
