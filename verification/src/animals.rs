//! Animal behaviour: wandering and fleeing pigs, hunting wolves and wolf packs.

pub mod pig;
pub mod wolf;
pub mod pack;
