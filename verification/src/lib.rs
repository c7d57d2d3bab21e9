//! Game rules of a floor-by-floor dungeon crawler: items and equipment,
//! inventory, item transfer between floors and runs, combat arithmetic,
//! BSP floor generation, and the sprite asset tooling.

pub mod item;
pub mod sprite;
pub mod player_state;
pub mod combat;
pub mod dungeon;
pub mod rng;
pub mod bsp;
pub mod transfer;
pub mod text;
pub mod inventory;
pub mod ending;
pub mod reach;
pub mod ai;
pub mod enemy_spawn;
