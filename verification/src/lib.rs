//! Core of a turn-based text adventure: a player walks a graph of rooms,
//! collects and uses items, fights enemies turn by turn, and advances through
//! a sequence of world maps gated by quest items.
//!
//! Everything here is pure game logic over plain values; reading commands,
//! terminal colouring and file persistence live outside the library.
use vstd::prelude::*;

pub mod codec;
pub mod combat;
pub mod commands;
pub mod enemies;
pub mod items;
pub mod map;
pub mod player;
pub mod progress;
pub mod text;
pub mod world;

verus! {

} // verus!
