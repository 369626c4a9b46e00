//! A grid-world simulation library: agents gather resources, craft items and
//! build structures; animals wander, flee and hunt. The crate holds the
//! simulation's rules, each with a contract checked by Verus.

pub mod actions;
pub mod counts;
pub mod text;
pub mod components;
pub mod errors;
pub mod recipes;
pub mod map;
pub mod brain;
pub mod player;
pub mod ecs;
pub mod events;
pub mod systems;
pub mod config;
pub mod map_generator;
pub mod roads;
pub mod animal;
pub mod dropped_item;
pub mod pathfinding;
pub mod fov;
pub mod animals;
pub mod chance;
