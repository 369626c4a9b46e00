//! Player agents and what each of them has seen of the map.

use vstd::prelude::*;
use crate::map::TileState;

verus! {

/// How much a player has seen of each tile of the map, by row and then column.
pub struct SightMap {
    pub width: u32,
    pub height: u32,
    pub grid: Vec<Vec<TileState>>,
}

impl SightMap {
    /// The grid has `height` rows of `width` tiles each.
    pub open spec fn well_formed(&self) -> bool {
        &&& self.grid@.len() == self.height
        &&& forall|y: int| 0 <= y < self.grid@.len() ==> (#[trigger] self.grid@[y])@.len() == self.width
    }

    /// The state of tile `(x, y)`.
    pub open spec fn at(&self, x: int, y: int) -> TileState {
        self.grid@[y]@[x]
    }

    /// A `width` by `height` map of unseen tiles.
    pub fn new(width: u32, height: u32) -> (r: Self)
        ensures
            r.well_formed(),
            r.width == width,
            r.height == height,
            forall|x: int, y: int| 0 <= x < width && 0 <= y < height ==> #[trigger] r.at(x, y) == TileState::Unseen,
    {
        let mut grid: Vec<Vec<TileState>> = Vec::new();
        let mut y: u32 = 0;
        while y < height
            invariant
                y <= height,
                grid@.len() == y,
                forall|i: int| 0 <= i < y ==> (#[trigger] grid@[i])@.len() == width,
                forall|i: int, j: int| 0 <= i < y && 0 <= j < width ==> #[trigger] grid@[i]@[j] == TileState::Unseen,
            decreases height - y,
        {
            let mut row: Vec<TileState> = Vec::new();
            let mut x: u32 = 0;
            while x < width
                invariant
                    x <= width,
                    row@.len() == x,
                    forall|j: int| 0 <= j < x ==> #[trigger] row@[j] == TileState::Unseen,
                decreases width - x,
            {
                row.push(TileState::Unseen);
                x = x + 1;
            }
            grid.push(row);
            y = y + 1;
        }
        SightMap { width, height, grid }
    }
}

/// A player agent.
pub struct Player {
    pub id: u32,
    /// The item in the player's hand, if any.
    pub held_item: Option<String>,
    /// What the player has seen of the map.
    pub mental_map: SightMap,
}

impl Player {
    /// Player `id`, empty-handed, having seen nothing of a `map_width` by
    /// `map_height` map.
    pub fn new(id: u32, map_width: u32, map_height: u32) -> (r: Self)
        ensures
            r.id == id,
            r.held_item is None,
            r.mental_map.well_formed(),
            r.mental_map.width == map_width,
            r.mental_map.height == map_height,
            forall|x: int, y: int| 0 <= x < map_width && 0 <= y < map_height ==> #[trigger] r.mental_map.at(x, y) == TileState::Unseen,
    {
        Player { id, held_item: None, mental_map: SightMap::new(map_width, map_height) }
    }

    /// Empties the player's hand.
    pub fn reset(&mut self)
        ensures
            final(self).held_item is None,
            final(self).id == old(self).id,
            final(self).mental_map == old(self).mental_map,
    {
        self.held_item = None;
    }
}

} // verus!
