//! Grid navigation core: tile map, neighbourhood topologies, A* planning,
//! a path cache, a decaying occupancy field, reversible move commands and
//! the per-agent lifecycle.

pub mod random;
pub mod grid;
pub mod topology;
pub mod pathfinding;
pub mod path_cache;
pub mod world;
pub mod pheromone;
pub mod command;
pub mod observer;
pub mod agent;
pub mod projection;
pub mod factory;
pub mod behavior;
