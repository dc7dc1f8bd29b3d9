//! Agents on a grid: scouts explore, gatherers carry material from deposits to
//! a base, and a coordinator advances them one tick at a time.
//!
//! - `grid`: cells, their terrain and freshness, decay and observation.
//! - `pathfinder`: breadth-first search over passable cells.
//! - `resources`: deposits and clamped extraction.
//! - `scout`, `gatherer`: each agent's decision for one tick.
//! - `game`: the coordinator, its tick, display and setup.
//! - `laws`: properties that hold across operations.
//! - `chance`: the random draws the agents make.
use vstd::prelude::*;

pub mod chance;
pub mod events;
pub mod game;
pub mod gatherer;
pub mod grid;
pub mod id_generator;
pub mod laws;
pub mod pathfinder;
pub mod resources;
pub mod scout;

verus! {

} // verus!
