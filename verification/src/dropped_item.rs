//! An item lying on the ground, as an entity of the text simulation.

use vstd::prelude::*;
use crate::actions::Action;
use crate::errors::SimulationError;

verus! {

/// Items lying at a place of the map.
pub struct DroppedItem {
    pub id: u32,
    pub x: u32,
    pub y: u32,
    pub item: String,
    pub quantity: u32,
}

impl DroppedItem {
    /// The item's identifier.
    pub fn get_id(&self) -> (r: u32)
        ensures
            r == self.id,
    {
        self.id
    }

    /// Where the item lies.
    pub fn get_position(&self) -> (r: (u32, u32))
        ensures
            r == (self.x, self.y),
    {
        (self.x, self.y)
    }

    /// Dropped items cannot be destroyed: their health is always one.
    pub fn get_health(&self) -> (r: i32)
        ensures
            r == 1,
    {
        1
    }

    /// Dropped items are always there.
    pub fn is_alive(&self) -> (r: bool)
        ensures
            r,
    {
        true
    }

    /// Dropped items are passive: they never act.
    pub fn update(&mut self) -> (r: Result<Option<Action>, SimulationError>)
        ensures
            r matches Ok(None),
            *final(self) == *old(self),
    {
        Ok(None)
    }
}

} // verus!
