//! Things that happened in the world, queued for the systems that react to them.

use vstd::prelude::*;
use crate::components::{Entity, Position};
use crate::map::Tile;

verus! {

/// Something that happened in the world.
#[derive(Debug)]
#[allow(inconsistent_fields)]
pub enum Event {
    /// A chunk of the map was generated, at this chunk position.
    ChunkGenerated { position: (u32, u32), tiles: Vec<Vec<Tile>> },
    /// An entity died.
    EntityDied(Entity),
    /// An agent built a foundation at a position.
    FoundationBuilt { builder: Entity, position: Position },
}

/// The events published and not yet taken, oldest first.
pub struct EventBus {
    pub events: Vec<Event>,
}

impl EventBus {
    /// A bus with no events.
    pub fn new() -> (r: Self)
        ensures
            r.events@.len() == 0,
    {
        EventBus { events: Vec::new() }
    }

    /// Queues an event after those already queued.
    pub fn publish(&mut self, event: Event)
        ensures
            final(self).events@ == old(self).events@.push(event),
    {
        self.events.push(event);
    }

    /// Hands over every queued event, oldest first, and empties the queue.
    pub fn take_events(&mut self) -> (r: Vec<Event>)
        ensures
            r@ == old(self).events@,
            final(self).events@.len() == 0,
    {
        let mut out: Vec<Event> = Vec::new();
        std::mem::swap(&mut out, &mut self.events);
        out
    }
}

} // verus!
