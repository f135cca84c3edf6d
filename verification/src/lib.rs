use vstd::prelude::*;

pub mod constants;
pub mod arena;
pub mod pathfinding;
pub mod stats;
pub mod components;
pub mod match_rules;
pub mod deployment;
pub mod deck;
pub mod combat;
pub mod movement;

verus! {

} // verus!
