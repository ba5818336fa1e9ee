//! Game-world logic of a small farming game: a rectangular tile grid,
//! objects standing on tiles, items lying in the world, the player's
//! inventory, and the queue of world events through which tools change the
//! world. Drawing, input devices, file loading and randomness of positions
//! are left to the program that uses this library.

pub mod event;
pub mod game;
pub mod grid;
pub mod input;
pub mod item;
pub mod map;
pub mod player;
pub mod position;
pub mod render;
pub mod system;
pub mod tile_object;
pub mod world;
