//! Routing over a graph of sectors linked by pairs of gates: the cheapest
//! route from a position in one sector to another sector, and the sectors
//! within a number of hops that satisfy a predicate. Beside it, a few plain
//! rules and records of the game around it.

pub mod game_data;
pub mod gui;
pub mod pathfinding;
pub mod persistence;
pub mod position;
pub mod sector;
pub mod utils;
