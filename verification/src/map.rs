//! The game world: tiles, grouped into square chunks.

use vstd::prelude::*;
use crate::text::owned;
use crate::components::Entity;
use crate::map_generator::{Biome, grid_of};

verus! {

/// The side of a square chunk, in tiles.
pub const CHUNK_SIZE: u32 = 16;

/// How much a player has seen of a tile.
#[derive(Debug, Clone, Copy, PartialEq, Eq, Structural)]
pub enum TileState {
    Unseen,
    Explored,
    Visible,
}

/// The mathematical value of a [`Tile`].
pub struct TileView {
    pub tile_type: char,
    pub biome: Seq<char>,
    pub original_tile_type: char,
    pub health: Option<u64>,
}

/// A single tile of the map.
#[derive(Debug)]
pub struct Tile {
    /// The character that shows the tile's terrain.
    pub tile_type: char,
    /// The biome the tile belongs to.
    pub biome: String,
    /// The terrain the tile had when it was made.
    pub original_tile_type: char,
    /// The tile's remaining health, held as the bit pattern of an `f64`.
    pub health: Option<u64>,
}

impl View for Tile {
    type V = TileView;

    open spec fn view(&self) -> TileView {
        TileView {
            tile_type: self.tile_type,
            biome: self.biome@,
            original_tile_type: self.original_tile_type,
            health: self.health,
        }
    }
}

impl Clone for Tile {
    fn clone(&self) -> (r: Self)
        ensures
            r@ == self@,
    {
        Tile {
            tile_type: self.tile_type,
            biome: self.biome.clone(),
            original_tile_type: self.original_tile_type,
            health: self.health,
        }
    }
}

impl Tile {
    /// A fresh tile of the given terrain and biome, remembering its terrain
    /// as the original one, with no health.
    pub fn new(tile_type: char, biome: String) -> (r: Self)
        ensures
            r.tile_type == tile_type,
            r.biome == biome,
            r.original_tile_type == tile_type,
            r.health is None,
    {
        Tile { tile_type, biome, original_tile_type: tile_type, health: None }
    }

    /// A blank tile: no terrain, biome "none".
    pub fn blank() -> (r: Self)
        ensures
            r.tile_type == ' ',
            r.biome@ == "none"@,
            r.original_tile_type == ' ',
            r.health is None,
    {
        Tile::new(' ', owned("none"))
    }
}

/// The number of tiles in a chunk.
pub open spec fn chunk_cells() -> int {
    CHUNK_SIZE as int * CHUNK_SIZE as int
}

/// A square block of tiles, with the entities standing on each of its tiles.
pub struct MapChunk {
    /// The tiles, by local row and then local column.
    pub tiles: Vec<Vec<Tile>>,
    /// For each local tile (row times the chunk size, plus column), the
    /// entities recorded there; `None` until the first entity is recorded.
    pub spatial_map: Vec<Option<Vec<Entity>>>,
}

impl MapChunk {
    /// A chunk of blank tiles with no entities recorded.
    pub fn new() -> (r: Self)
        ensures
            r.tiles@.len() == CHUNK_SIZE,
            forall|i: int| 0 <= i < CHUNK_SIZE ==> (#[trigger] r.tiles@[i])@.len() == CHUNK_SIZE,
            forall|i: int, j: int|
                0 <= i < CHUNK_SIZE && 0 <= j < CHUNK_SIZE ==> (#[trigger] r.tiles@[i]@[j])@.tile_type == ' '
                    && r.tiles@[i]@[j]@.biome == "none"@,
            r.spatial_map@.len() == chunk_cells(),
            forall|i: int| 0 <= i < chunk_cells() ==> (#[trigger] r.spatial_map@[i]) is None,
    {
        let mut tiles: Vec<Vec<Tile>> = Vec::new();
        let mut y: u32 = 0;
        while y < CHUNK_SIZE
            invariant
                y <= CHUNK_SIZE,
                tiles@.len() == y,
                forall|i: int| 0 <= i < y ==> (#[trigger] tiles@[i])@.len() == CHUNK_SIZE,
                forall|i: int, j: int|
                    0 <= i < y && 0 <= j < CHUNK_SIZE ==> (#[trigger] tiles@[i]@[j])@.tile_type == ' '
                        && tiles@[i]@[j]@.biome == "none"@,
            decreases CHUNK_SIZE - y,
        {
            let mut row: Vec<Tile> = Vec::new();
            let mut x: u32 = 0;
            while x < CHUNK_SIZE
                invariant
                    x <= CHUNK_SIZE,
                    row@.len() == x,
                    forall|j: int| 0 <= j < x ==> (#[trigger] row@[j])@.tile_type == ' ' && row@[j]@.biome == "none"@,
                decreases CHUNK_SIZE - x,
            {
                row.push(Tile::blank());
                x = x + 1;
            }
            tiles.push(row);
            y = y + 1;
        }
        let mut spatial_map: Vec<Option<Vec<Entity>>> = Vec::new();
        let mut k: u32 = 0;
        while k < CHUNK_SIZE * CHUNK_SIZE
            invariant
                k <= CHUNK_SIZE * CHUNK_SIZE,
                spatial_map@.len() == k,
                forall|i: int| 0 <= i < k ==> (#[trigger] spatial_map@[i]) is None,
            decreases CHUNK_SIZE * CHUNK_SIZE - k,
        {
            spatial_map.push(None);
            k = k + 1;
        }
        MapChunk { tiles, spatial_map }
    }
}

impl Default for MapChunk {
    fn default() -> (r: Self)
        ensures
            r.tiles@.len() == CHUNK_SIZE,
            forall|i: int| 0 <= i < CHUNK_SIZE ==> (#[trigger] r.tiles@[i])@.len() == CHUNK_SIZE,
            forall|i: int, j: int|
                0 <= i < CHUNK_SIZE && 0 <= j < CHUNK_SIZE ==> (#[trigger] r.tiles@[i]@[j])@.tile_type == ' '
                    && r.tiles@[i]@[j]@.biome == "none"@,
            r.spatial_map@.len() == chunk_cells(),
            forall|i: int| 0 <= i < chunk_cells() ==> (#[trigger] r.spatial_map@[i]) is None,
    {
        MapChunk::new()
    }
}

/// The tile a biome shows: the chosen one, or the first when none was chosen.
pub open spec fn biome_tile(biomes: Seq<Biome>, choice: Option<usize>) -> TileView {
    let b = match choice {
        Some(i) => biomes[i as int],
        None => biomes[0],
    };
    TileView { tile_type: b.tile_type, biome: b.name@, original_tile_type: b.tile_type, health: None }
}

/// The number of chunks needed to cover `n` tiles.
pub open spec fn chunks_for(n: u32) -> int {
    (n as int + CHUNK_SIZE - 1) / CHUNK_SIZE as int
}

/// The world map: a `width` by `height` grid of tiles, stored as chunks.
pub struct GameMap {
    pub width: u32,
    pub height: u32,
    /// Chunks by chunk row and then chunk column.
    pub chunks: Vec<Vec<MapChunk>>,
}

impl GameMap {
    /// The chunk holding `(x, y)`, if the position is on the map and the chunk exists.
    pub open spec fn chunk_at(&self, x: u32, y: u32) -> Option<MapChunk> {
        if x >= self.width || y >= self.height {
            None
        } else {
            let cy = (y / CHUNK_SIZE) as int;
            let cx = (x / CHUNK_SIZE) as int;
            if cy < self.chunks@.len() && cx < self.chunks@[cy]@.len() {
                Some(self.chunks@[cy]@[cx])
            } else {
                None
            }
        }
    }

    /// The tile at `(x, y)`, if the map holds one there.
    pub open spec fn tile_at(&self, x: u32, y: u32) -> Option<TileView> {
        match self.chunk_at(x, y) {
            Some(c) => {
                let ly = (y % CHUNK_SIZE) as int;
                let lx = (x % CHUNK_SIZE) as int;
                if ly < c.tiles@.len() && lx < c.tiles@[ly]@.len() {
                    Some(c.tiles@[ly]@[lx]@)
                } else {
                    None
                }
            },
            None => None,
        }
    }

    /// The entities recorded at `(x, y)`; `None` when the position is off
    /// the map or nothing was ever recorded there.
    pub open spec fn entities_at(&self, x: u32, y: u32) -> Option<Seq<Entity>> {
        match self.chunk_at(x, y) {
            Some(c) => {
                let k = ((y % CHUNK_SIZE) * CHUNK_SIZE + (x % CHUNK_SIZE)) as int;
                if k < c.spatial_map@.len() {
                    match c.spatial_map@[k] {
                        Some(v) => Some(v@),
                        None => None,
                    }
                } else {
                    None
                }
            },
            None => None,
        }
    }

    /// The map has a place to record entities at `(x, y)`: the position is on
    /// the map and its chunk exists with a record cell for it.
    pub open spec fn holds_records_at(&self, x: u32, y: u32) -> bool {
        self.chunk_at(x, y) matches Some(c) && (((y % CHUNK_SIZE) * CHUNK_SIZE + (x % CHUNK_SIZE)) as int) < c.spatial_map@.len()
    }

    /// On a well-formed map, every position on it has a place for records.
    pub proof fn lemma_records_at(&self, x: u32, y: u32)
        ensures
            self.well_formed() ==> (self.holds_records_at(x, y) <==> (x < self.width && y < self.height)),
    {
        if self.well_formed() && x < self.width && y < self.height {
            assert(x / CHUNK_SIZE < chunks_for(self.width)) by (nonlinear_arith)
                requires x < self.width;
            assert(y / CHUNK_SIZE < chunks_for(self.height)) by (nonlinear_arith)
                requires y < self.height;
            let k = ((y % CHUNK_SIZE) * CHUNK_SIZE + (x % CHUNK_SIZE)) as int;
            assert(0 <= k < chunk_cells());
        }
    }

    /// Whether the map holds a chunk for every chunk position and each chunk
    /// is complete.
    pub open spec fn well_formed(&self) -> bool {
        &&& self.chunks@.len() == chunks_for(self.height)
        &&& forall|cy: int| 0 <= cy < self.chunks@.len() ==> (#[trigger] self.chunks@[cy])@.len() == chunks_for(self.width)
        &&& forall|cy: int, cx: int|
            0 <= cy < self.chunks@.len() && 0 <= cx < self.chunks@[cy]@.len() ==> {
                let c = #[trigger] self.chunks@[cy]@[cx];
                &&& c.tiles@.len() == CHUNK_SIZE
                &&& forall|i: int| 0 <= i < CHUNK_SIZE ==> (#[trigger] c.tiles@[i])@.len() == CHUNK_SIZE
                &&& c.spatial_map@.len() == chunk_cells()
            }
    }

    /// A `width` by `height` map of blank tiles with no entities recorded.
    pub fn new(width: u32, height: u32) -> (r: Self)
        ensures
            r.width == width,
            r.height == height,
            r.well_formed(),
            forall|x: u32, y: u32| x < width && y < height ==> ((#[trigger] r.tile_at(x, y)) matches Some(t)
                && t.tile_type == ' ' && t.biome == "none"@),
            forall|x: u32, y: u32| #[trigger] r.entities_at(x, y) is None,
    {
        let chunks_x: usize = (width / CHUNK_SIZE) as usize + if width % CHUNK_SIZE != 0 { 1 } else { 0 };
        let chunks_y: usize = (height / CHUNK_SIZE) as usize + if height % CHUNK_SIZE != 0 { 1 } else { 0 };
        proof {
            assert(chunks_x == chunks_for(width));
            assert(chunks_y == chunks_for(height));
        }
        let mut chunks: Vec<Vec<MapChunk>> = Vec::new();
        let mut cy: usize = 0;
        while cy < chunks_y
            invariant
                cy <= chunks_y,
                chunks@.len() == cy,
                forall|i: int| 0 <= i < cy ==> (#[trigger] chunks@[i])@.len() == chunks_x,
                forall|i: int, j: int|
                    0 <= i < cy && 0 <= j < chunks_x ==> {
                        let c = #[trigger] chunks@[i]@[j];
                        &&& c.tiles@.len() == CHUNK_SIZE
                        &&& forall|a: int| 0 <= a < CHUNK_SIZE ==> (#[trigger] c.tiles@[a])@.len() == CHUNK_SIZE
                        &&& forall|a: int, b: int|
                            0 <= a < CHUNK_SIZE && 0 <= b < CHUNK_SIZE ==> (#[trigger] c.tiles@[a]@[b])@.tile_type == ' '
                                && c.tiles@[a]@[b]@.biome == "none"@
                        &&& c.spatial_map@.len() == chunk_cells()
                        &&& forall|a: int| 0 <= a < chunk_cells() ==> (#[trigger] c.spatial_map@[a]) is None
                    },
            decreases chunks_y - cy,
        {
            let mut row: Vec<MapChunk> = Vec::new();
            let mut cx: usize = 0;
            while cx < chunks_x
                invariant
                    cx <= chunks_x,
                    row@.len() == cx,
                    forall|j: int| 0 <= j < cx ==> {
                        let c = #[trigger] row@[j];
                        &&& c.tiles@.len() == CHUNK_SIZE
                        &&& forall|a: int| 0 <= a < CHUNK_SIZE ==> (#[trigger] c.tiles@[a])@.len() == CHUNK_SIZE
                        &&& forall|a: int, b: int|
                            0 <= a < CHUNK_SIZE && 0 <= b < CHUNK_SIZE ==> (#[trigger] c.tiles@[a]@[b])@.tile_type == ' '
                                && c.tiles@[a]@[b]@.biome == "none"@
                        &&& c.spatial_map@.len() == chunk_cells()
                        &&& forall|a: int| 0 <= a < chunk_cells() ==> (#[trigger] c.spatial_map@[a]) is None
                    },
                decreases chunks_x - cx,
            {
                row.push(MapChunk::new());
                cx = cx + 1;
            }
            chunks.push(row);
            cy = cy + 1;
        }
        let r = GameMap { width, height, chunks };
        proof {
            assert forall|x: u32, y: u32| x < width && y < height implies ((#[trigger] r.tile_at(x, y)) matches Some(t)
                && t.tile_type == ' ' && t.biome == "none"@) by {
                assert((y / CHUNK_SIZE) < chunks_y);
                assert((x / CHUNK_SIZE) < chunks_x);
                let c = r.chunks@[(y / CHUNK_SIZE) as int]@[(x / CHUNK_SIZE) as int];
                assert(c.tiles@[(y % CHUNK_SIZE) as int]@.len() == CHUNK_SIZE);
            }
            assert forall|x: u32, y: u32| #[trigger] r.entities_at(x, y) is None by {
                if x < width && y < height {
                    assert((y / CHUNK_SIZE) < chunks_y);
                    assert((x / CHUNK_SIZE) < chunks_x);
                    let k = ((y % CHUNK_SIZE) * CHUNK_SIZE + (x % CHUNK_SIZE)) as int;
                    assert(0 <= k < chunk_cells());
                }
            }
        }
        r
    }

    /// A `width` by `height` map whose tile at `(x, y)` shows the biome
    /// chosen for it, or the first biome when none was chosen, with no
    /// entities recorded.
    pub fn with_biomes(width: u32, height: u32, biomes: &Vec<Biome>, choice: &Vec<Vec<Option<usize>>>) -> (r: Self)
        requires
            grid_of(choice@, width, height),
            forall|y: int, x: int| 0 <= y < height && 0 <= x < width ==> match #[trigger] choice@[y]@[x] {
                Some(i) => i < biomes@.len(),
                None => biomes@.len() > 0,
            },
        ensures
            r.width == width,
            r.height == height,
            r.well_formed(),
            forall|x: u32, y: u32| x < width && y < height ==> #[trigger] r.tile_at(x, y) == Some(biome_tile(biomes@, choice@[y as int]@[x as int])),
            forall|x: u32, y: u32| #[trigger] r.entities_at(x, y) is None,
    {
        let mut map = GameMap::new(width, height);
        let mut y: u32 = 0;
        while y < height
            invariant
                y <= height,
                map.width == width,
                map.height == height,
                map.well_formed(),
                grid_of(choice@, width, height),
                forall|y: int, x: int| 0 <= y < height && 0 <= x < width ==> match #[trigger] choice@[y]@[x] {
                    Some(i) => i < biomes@.len(),
                    None => biomes@.len() > 0,
                },
                forall|qx: u32, qy: u32| qx < width && qy < y ==> #[trigger] map.tile_at(qx, qy) == Some(biome_tile(biomes@, choice@[qy as int]@[qx as int])),
                forall|qx: u32, qy: u32| qx < width && y <= qy < height ==> (#[trigger] map.tile_at(qx, qy)) is Some,
                forall|qx: u32, qy: u32| #[trigger] map.entities_at(qx, qy) is None,
            decreases height - y,
        {
            let mut x: u32 = 0;
            while x < width
                invariant
                    x <= width,
                    y < height,
                    map.width == width,
                    map.height == height,
                    map.well_formed(),
                    grid_of(choice@, width, height),
                    forall|y: int, x: int| 0 <= y < height && 0 <= x < width ==> match #[trigger] choice@[y]@[x] {
                        Some(i) => i < biomes@.len(),
                        None => biomes@.len() > 0,
                    },
                    forall|qx: u32, qy: u32| qx < width && (qy < y || (qy == y && qx < x)) ==> #[trigger] map.tile_at(qx, qy) == Some(biome_tile(biomes@, choice@[qy as int]@[qx as int])),
                    forall|qx: u32, qy: u32| qx < width && y <= qy < height ==> (#[trigger] map.tile_at(qx, qy)) is Some,
                    forall|qx: u32, qy: u32| #[trigger] map.entities_at(qx, qy) is None,
                decreases width - x,
            {
                let k = match choice[y as usize][x as usize] {
                    Some(i) => i,
                    None => 0,
                };
                let tile = Tile::new(biomes[k].tile_type, biomes[k].name.clone());
                let ghost before = map;
                proof {
                    assert(before.tile_at(x, y) is Some);
                }
                map.set_tile(x, y, tile);
                x = x + 1;
            }
            y = y + 1;
        }
        map
    }

    /// The number of chunk columns.
    pub fn width_in_chunks(&self) -> (r: u32)
        ensures
            r == chunks_for(self.width),
    {
        self.width / CHUNK_SIZE + if self.width % CHUNK_SIZE != 0 { 1 } else { 0 }
    }

    /// The number of chunk rows.
    pub fn height_in_chunks(&self) -> (r: u32)
        ensures
            r == chunks_for(self.height),
    {
        self.height / CHUNK_SIZE + if self.height % CHUNK_SIZE != 0 { 1 } else { 0 }
    }

    /// The chunk column and row of `(x, y)`, if the position is on the map.
    pub fn get_chunk_index(&self, x: u32, y: u32) -> (r: Option<(usize, usize)>)
        ensures
            r == if x >= self.width || y >= self.height {
                None
            } else {
                Some(((x / CHUNK_SIZE) as usize, (y / CHUNK_SIZE) as usize))
            },
    {
        if x >= self.width || y >= self.height {
            return None;
        }
        Some(((x / CHUNK_SIZE) as usize, (y / CHUNK_SIZE) as usize))
    }

    /// A copy of the tile at `(x, y)`, if the map holds one there.
    pub fn get_tile(&self, x: u32, y: u32) -> (r: Option<Tile>)
        ensures
            match r {
                Some(t) => self.tile_at(x, y) == Some(t@),
                None => self.tile_at(x, y) is None,
            },
    {
        let (chunk_x, chunk_y) = match self.get_chunk_index(x, y) {
            Some(c) => c,
            None => return None,
        };
        if chunk_y >= self.chunks.len() || chunk_x >= self.chunks[chunk_y].len() {
            return None;
        }
        let chunk = &self.chunks[chunk_y][chunk_x];
        let local_x = (x % CHUNK_SIZE) as usize;
        let local_y = (y % CHUNK_SIZE) as usize;
        if local_y < chunk.tiles.len() && local_x < chunk.tiles[local_y].len() {
            Some(chunk.tiles[local_y][local_x].clone())
        } else {
            None
        }
    }

    /// Whether one can walk on `(x, y)`: grass, path or forest floor.
    pub fn is_walkable(&self, x: u32, y: u32) -> (r: bool)
        ensures
            r == (self.tile_at(x, y) matches Some(t) && (t.tile_type == '.' || t.tile_type == ','
                || t.tile_type == 'f')),
    {
        match self.get_tile(x, y) {
            Some(tile) => tile.tile_type == '.' || tile.tile_type == ',' || tile.tile_type == 'f',
            None => false,
        }
    }

    /// Replaces the tile at `(x, y)`. Returns `None`, changing nothing, when
    /// the position is off the map, its chunk is missing or the chunk lacks
    /// the tile's row; when only the column is missing nothing changes either.
    pub fn set_tile(&mut self, x: u32, y: u32, tile: Tile) -> (r: Option<()>)
        ensures
            final(self).width == old(self).width,
            final(self).height == old(self).height,
            r is Some <==> (old(self).chunk_at(x, y) matches Some(c) && ((y % CHUNK_SIZE) as int) < c.tiles@.len()),
            forall|qx: u32, qy: u32| #[trigger] final(self).tile_at(qx, qy) == if qx == x && qy == y && old(self).tile_at(x, y) is Some {
                Some(tile@)
            } else {
                old(self).tile_at(qx, qy)
            },
            forall|qx: u32, qy: u32| #[trigger] final(self).entities_at(qx, qy) == old(self).entities_at(qx, qy),
            old(self).well_formed() ==> final(self).well_formed(),
    {
        let (chunk_x, chunk_y) = match self.get_chunk_index(x, y) {
            Some(c) => c,
            None => return None,
        };
        if chunk_y >= self.chunks.len() || chunk_x >= self.chunks[chunk_y].len() {
            return None;
        }
        let local_x = (x % CHUNK_SIZE) as usize;
        let local_y = (y % CHUNK_SIZE) as usize;
        if local_y >= self.chunks[chunk_y][chunk_x].tiles.len() {
            return None;
        }
        if local_x < self.chunks[chunk_y][chunk_x].tiles[local_y].len() {
            let ghost before = *self;
            self.chunks[chunk_y][chunk_x].tiles[local_y][local_x] = tile;
            proof {
                assert forall|qx: u32, qy: u32| #[trigger] self.tile_at(qx, qy) == if qx == x && qy == y && before.tile_at(x, y) is Some {
                    Some(tile@)
                } else {
                    before.tile_at(qx, qy)
                } by {
                    lemma_same_spot(x, y, qx, qy);
                }
                assert forall|qx: u32, qy: u32| #[trigger] self.entities_at(qx, qy) == before.entities_at(qx, qy) by {}
            }
        }
        Some(())
    }

    /// Records `entity` at `(x, y)`, after those already recorded there.
    /// Returns `None`, changing nothing, when the position is off the map or
    /// its chunk is missing.
    pub fn add_entity_to_spatial_map(&mut self, entity: Entity, x: u32, y: u32) -> (r: Option<()>)
        ensures
            old(self).well_formed() ==> final(self).well_formed(),
            final(self).width == old(self).width,
            final(self).height == old(self).height,
            r is Some <==> old(self).holds_records_at(x, y),
            old(self).well_formed() ==> (r is Some <==> (x < old(self).width && y < old(self).height)),
            forall|qx: u32, qy: u32| #[trigger] final(self).tile_at(qx, qy) == old(self).tile_at(qx, qy),
            forall|qx: u32, qy: u32| #[trigger] final(self).entities_at(qx, qy) == if qx == x && qy == y && r is Some {
                Some(
                    match old(self).entities_at(x, y) {
                        Some(v) => v,
                        None => Seq::empty(),
                    }.push(entity),
                )
            } else {
                old(self).entities_at(qx, qy)
            },
    {
        let (chunk_x, chunk_y) = match self.get_chunk_index(x, y) {
            Some(c) => c,
            None => return None,
        };
        proof {
            self.lemma_records_at(x, y);
        }
        if chunk_y >= self.chunks.len() || chunk_x >= self.chunks[chunk_y].len() {
            return None;
        }
        let local_x = x % CHUNK_SIZE;
        let local_y = y % CHUNK_SIZE;
        let k = (local_y * CHUNK_SIZE + local_x) as usize;
        if k >= self.chunks[chunk_y][chunk_x].spatial_map.len() {
            return None;
        }
        let ghost before = *self;
        let cell = &mut self.chunks[chunk_y][chunk_x].spatial_map[k];
        match cell {
            Some(v) => {
                v.push(entity);
            },
            None => {
                let mut v: Vec<Entity> = Vec::new();
                v.push(entity);
                *cell = Some(v);
            },
        }
        proof {
            assert forall|qx: u32, qy: u32| #[trigger] self.entities_at(qx, qy) == if qx == x && qy == y {
                Some(
                    match before.entities_at(x, y) {
                        Some(v) => v,
                        None => Seq::empty(),
                    }.push(entity),
                )
            } else {
                before.entities_at(qx, qy)
            } by {
                lemma_same_spot(x, y, qx, qy);
            }
            assert forall|qx: u32, qy: u32| #[trigger] self.tile_at(qx, qy) == before.tile_at(qx, qy) by {}
        }
        Some(())
    }

    /// Removes every record of `entity` at `(x, y)`. Returns `None`,
    /// changing nothing, when the position is off the map or its chunk is missing.
    pub fn remove_entity_from_spatial_map(&mut self, entity: Entity, x: u32, y: u32) -> (r: Option<()>)
        ensures
            old(self).well_formed() ==> final(self).well_formed(),
            final(self).width == old(self).width,
            final(self).height == old(self).height,
            r is Some <==> old(self).holds_records_at(x, y),
            old(self).well_formed() ==> (r is Some <==> (x < old(self).width && y < old(self).height)),
            forall|qx: u32, qy: u32| #[trigger] final(self).tile_at(qx, qy) == old(self).tile_at(qx, qy),
            forall|qx: u32, qy: u32| #[trigger] final(self).entities_at(qx, qy) == if qx == x && qy == y {
                match old(self).entities_at(x, y) {
                    Some(v) => Some(without_entity(v, entity)),
                    None => None,
                }
            } else {
                old(self).entities_at(qx, qy)
            },
    {
        let (chunk_x, chunk_y) = match self.get_chunk_index(x, y) {
            Some(c) => c,
            None => return None,
        };
        proof {
            self.lemma_records_at(x, y);
        }
        if chunk_y >= self.chunks.len() || chunk_x >= self.chunks[chunk_y].len() {
            return None;
        }
        let local_x = x % CHUNK_SIZE;
        let local_y = y % CHUNK_SIZE;
        let k = (local_y * CHUNK_SIZE + local_x) as usize;
        if k >= self.chunks[chunk_y][chunk_x].spatial_map.len() {
            return None;
        }
        let ghost before = *self;
        let cell = &mut self.chunks[chunk_y][chunk_x].spatial_map[k];
        match cell {
            Some(v) => {
                let kept = without(v, entity);
                *v = kept;
            },
            None => {},
        }
        proof {
            assert forall|qx: u32, qy: u32| #[trigger] self.entities_at(qx, qy) == if qx == x && qy == y {
                match before.entities_at(x, y) {
                    Some(v) => Some(without_entity(v, entity)),
                    None => None,
                }
            } else {
                before.entities_at(qx, qy)
            } by {
                lemma_same_spot(x, y, qx, qy);
            }
            assert forall|qx: u32, qy: u32| #[trigger] self.tile_at(qx, qy) == before.tile_at(qx, qy) by {}
        }
        Some(())
    }

    /// A copy of the entities recorded at `(x, y)`.
    pub fn get_entities_at(&self, x: u32, y: u32) -> (r: Option<Vec<Entity>>)
        ensures
            match r {
                Some(v) => self.entities_at(x, y) == Some(v@),
                None => self.entities_at(x, y) is None,
            },
    {
        let (chunk_x, chunk_y) = match self.get_chunk_index(x, y) {
            Some(c) => c,
            None => return None,
        };
        if chunk_y >= self.chunks.len() || chunk_x >= self.chunks[chunk_y].len() {
            return None;
        }
        let local_x = x % CHUNK_SIZE;
        let local_y = y % CHUNK_SIZE;
        let k = (local_y * CHUNK_SIZE + local_x) as usize;
        if k >= self.chunks[chunk_y][chunk_x].spatial_map.len() {
            return None;
        }
        match &self.chunks[chunk_y][chunk_x].spatial_map[k] {
            Some(v) => Some(copy_entities(v)),
            None => None,
        }
    }
}

/// The entities of `s` other than `entity`, in order.
pub open spec fn without_entity(s: Seq<Entity>, entity: Entity) -> Seq<Entity> {
    s.filter(|e: Entity| e != entity)
}

/// Recording an entity and then removing its records leaves the other
/// entities as they were.
pub proof fn lemma_record_then_remove(v: Seq<Entity>, entity: Entity)
    ensures
        without_entity(v.push(entity), entity) == without_entity(v, entity),
{
    reveal_with_fuel(Seq::filter, 1);
    assert(v.push(entity).drop_last() =~= v);
}

/// The entities of `v` other than `entity`, in order.
pub fn without(v: &Vec<Entity>, entity: Entity) -> (r: Vec<Entity>)
    ensures
        r@ == without_entity(v@, entity),
{
    let mut r: Vec<Entity> = Vec::new();
    let mut i: usize = 0;
    while i < v.len()
        invariant
            i <= v@.len(),
            r@ == without_entity(v@.take(i as int), entity),
        decreases v@.len() - i,
    {
        proof {
            reveal_with_fuel(Seq::filter, 1);
            assert(v@.take(i as int + 1).drop_last() =~= v@.take(i as int));
        }
        if v[i] != entity {
            r.push(v[i]);
        }
        i = i + 1;
    }
    proof {
        assert(v@.take(v@.len() as int) =~= v@);
    }
    r
}

/// A copy of a list of entities.
pub fn copy_entities(v: &Vec<Entity>) -> (r: Vec<Entity>)
    ensures
        r@ == v@,
{
    let mut r: Vec<Entity> = Vec::new();
    let mut i: usize = 0;
    while i < v.len()
        invariant
            i <= v@.len(),
            r@ == v@.take(i as int),
        decreases v@.len() - i,
    {
        r.push(v[i]);
        proof {
            assert(v@.take(i as int + 1) =~= v@.take(i as int).push(v@[i as int]));
        }
        i = i + 1;
    }
    proof {
        assert(v@.take(v@.len() as int) =~= v@);
    }
    r
}

/// A well-formed map holds a tile at every position on it.
pub proof fn lemma_tile_present(map: GameMap, x: u32, y: u32)
    requires
        map.well_formed(),
        x < map.width,
        y < map.height,
    ensures
        map.tile_at(x, y) is Some,
{
    assert(x / CHUNK_SIZE < chunks_for(map.width)) by (nonlinear_arith)
        requires x < map.width;
    assert(y / CHUNK_SIZE < chunks_for(map.height)) by (nonlinear_arith)
        requires y < map.height;
    let c = map.chunks@[(y / CHUNK_SIZE) as int]@[(x / CHUNK_SIZE) as int];
    assert(c.tiles@[(y % CHUNK_SIZE) as int]@.len() == CHUNK_SIZE);
}

/// Two positions in the same chunk and at the same local place are the same position.
pub proof fn lemma_same_spot(x: u32, y: u32, qx: u32, qy: u32)
    ensures
        (x / CHUNK_SIZE == qx / CHUNK_SIZE && y / CHUNK_SIZE == qy / CHUNK_SIZE && x % CHUNK_SIZE
            == qx % CHUNK_SIZE && y % CHUNK_SIZE == qy % CHUNK_SIZE) <==> (x == qx && y == qy),
{
}

} // verus!
