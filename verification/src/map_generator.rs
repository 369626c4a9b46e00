//! Island generation: the map's tiles, chunk by chunk, from a biome chosen
//! for each tile and a seeded roll that turns some plains into forest.

use vstd::prelude::*;
use rand::rngs::StdRng;
use rand::{Rng, SeedableRng};
use crate::map::{Tile, TileView, CHUNK_SIZE, chunks_for};
use crate::text::{owned, str_eq};

verus! {

#[verifier::external_type_specification]
#[verifier::external_body]
pub struct ExStdRng(StdRng);

/// A kind of terrain: its name and the character that shows it.
pub struct Biome {
    pub name: String,
    pub tile_type: char,
}

/// A seed drawn at random.
///
/// Calls `rand::random::<u32>()`; nothing is claimed of the value.
#[verifier::external_body]
fn random_seed() -> (r: u32) {
    rand::random::<u32>()
}

/// A generator seeded with `seed`.
///
/// Calls `StdRng::seed_from_u64`; the generator is opaque here, so nothing is
/// claimed of it beyond its type.
#[verifier::external_body]
fn seeded_rng(seed: u64) -> (r: StdRng) {
    StdRng::seed_from_u64(seed)
}

/// A draw from `0..n` of the generator.
///
/// Calls `Rng::random_range(0..n)` on the generator; rand documents that the
/// value lies in the half-open range and that the range must not be empty.
#[verifier::external_body]
fn roll_below(rng: &mut StdRng, n: u32) -> (r: u32)
    requires
        n > 0,
    ensures
        r < n,
{
    rng.random_range(0..n)
}

/// The forest rolls of a `width` by `height` map, drawn row by row from a
/// generator seeded with `seed`: each lies below one hundred.
pub fn island_rolls(seed: u32, width: u32, height: u32) -> (r: Vec<Vec<u32>>)
    ensures
        r@.len() == height,
        forall|y: int| 0 <= y < height ==> (#[trigger] r@[y])@.len() == width,
        forall|y: int, x: int| 0 <= y < height && 0 <= x < width ==> #[trigger] r@[y]@[x] < 100,
{
    let mut rng = seeded_rng(seed as u64);
    let mut rows: Vec<Vec<u32>> = Vec::new();
    let mut y: u32 = 0;
    while y < height
        invariant
            y <= height,
            rows@.len() == y,
            forall|i: int| 0 <= i < y ==> (#[trigger] rows@[i])@.len() == width,
            forall|i: int, x: int| 0 <= i < y && 0 <= x < width ==> #[trigger] rows@[i]@[x] < 100,
        decreases height - y,
    {
        let mut row: Vec<u32> = Vec::new();
        let mut x: u32 = 0;
        while x < width
            invariant
                x <= width,
                row@.len() == x,
                forall|j: int| 0 <= j < x ==> #[trigger] row@[j] < 100,
            decreases width - x,
        {
            row.push(roll_below(&mut rng, 100));
            x = x + 1;
        }
        rows.push(row);
        y = y + 1;
    }
    rows
}

/// The biome chosen for tile `(x, y)`, as terrain and name; no biome, or an
/// index past the list, gives blank terrain named "none".
pub open spec fn chosen(biomes: Seq<Biome>, choice: Seq<Seq<Option<usize>>>, x: int, y: int) -> (char, Seq<char>) {
    match choice[y][x] {
        Some(i) => if i < biomes.len() {
            (biomes[i as int].tile_type, biomes[i as int].name@)
        } else {
            (' ', "none"@)
        },
        None => (' ', "none"@),
    }
}

/// The terrain and biome of island tile `(x, y)`: the chosen biome, with
/// plains grass turned to forest where the tile's roll is below five.
pub open spec fn island_cell(
    biomes: Seq<Biome>,
    choice: Seq<Seq<Option<usize>>>,
    rolls: Seq<Seq<u32>>,
    x: int,
    y: int,
) -> (char, Seq<char>) {
    let c = chosen(biomes, choice, x, y);
    if c.1 == "plains"@ && c.0 == '.' && rolls[y][x] < 5 {
        ('f', c.1)
    } else {
        c
    }
}

/// The tile a map of `width` by `height` shows at `(x, y)`: the island tile
/// on the map, a blank "none" tile off it.
pub open spec fn island_tile(
    width: u32,
    height: u32,
    biomes: Seq<Biome>,
    choice: Seq<Seq<Option<usize>>>,
    rolls: Seq<Seq<u32>>,
    x: int,
    y: int,
) -> TileView {
    let c = if x < width && y < height {
        island_cell(biomes, choice, rolls, x, y)
    } else {
        (' ', "none"@)
    };
    TileView { tile_type: c.0, biome: c.1, original_tile_type: c.0, health: None }
}

/// `grid` has `height` rows of `width` entries.
pub open spec fn grid_of<T>(grid: Seq<Vec<T>>, width: u32, height: u32) -> bool {
    &&& grid.len() == height
    &&& forall|y: int| 0 <= y < height ==> (#[trigger] grid[y])@.len() == width
}

/// The rows of `rows`, one after another.
pub open spec fn flat<A>(rows: Seq<Seq<A>>) -> Seq<A>
    decreases rows.len(),
{
    if rows.len() == 0 {
        Seq::empty()
    } else {
        flat(rows.drop_last()) + rows.last()
    }
}

/// Chunk `c` sits at chunk column `cx` and row `cy` of a `width` by
/// `height` island, and holds its tiles.
pub open spec fn island_chunk(
    c: ((u32, u32), Vec<Vec<Tile>>),
    cx: int,
    cy: int,
    width: u32,
    height: u32,
    biomes: Seq<Biome>,
    choice: Seq<Seq<Option<usize>>>,
    rolls: Seq<Seq<u32>>,
) -> bool {
    &&& c.0 == (cx as u32, cy as u32)
    &&& c.1@.len() == CHUNK_SIZE
    &&& forall|ly: int| 0 <= ly < CHUNK_SIZE ==> (#[trigger] c.1@[ly])@.len() == CHUNK_SIZE
    &&& forall|ly: int, lx: int|
        0 <= ly < CHUNK_SIZE && 0 <= lx < CHUNK_SIZE ==> (#[trigger] c.1@[ly]@[lx])@ == island_tile(
            width,
            height,
            biomes,
            choice,
            rolls,
            cx * CHUNK_SIZE + lx,
            cy * CHUNK_SIZE + ly,
        )
}

/// `chunks` lists, chunk row by chunk row, each chunk of a `width` by
/// `height` island with its chunk position and its tiles.
pub open spec fn island_chunks(
    chunks: Seq<((u32, u32), Vec<Vec<Tile>>)>,
    width: u32,
    height: u32,
    biomes: Seq<Biome>,
    choice: Seq<Seq<Option<usize>>>,
    rolls: Seq<Seq<u32>>,
) -> bool {
    exists|rows: Seq<Seq<((u32, u32), Vec<Vec<Tile>>)>>| {
        &&& rows.len() == chunks_for(height)
        &&& forall|cy: int| 0 <= cy < rows.len() ==> (#[trigger] rows[cy]).len() == chunks_for(width)
        &&& forall|cy: int, cx: int|
            0 <= cy < rows.len() && 0 <= cx < chunks_for(width) ==> island_chunk(
                #[trigger] rows[cy][cx],
                cx,
                cy,
                width,
                height,
                biomes,
                choice,
                rolls,
            )
        &&& chunks == flat(rows)
    }
}

/// The terrain and biome of island tile `(x, y)`.
fn island_cell_of(
    biomes: &Vec<Biome>,
    choice: &Vec<Vec<Option<usize>>>,
    rolls: &Vec<Vec<u32>>,
    x: u32,
    y: u32,
) -> (r: (char, String))
    requires
        y < choice@.len() && x < choice@[y as int]@.len(),
        y < rolls@.len() && x < rolls@[y as int]@.len(),
    ensures
        r.0 == island_cell(biomes@, choice@.map_values(|row: Vec<Option<usize>>| row@), rolls@.map_values(|row: Vec<u32>| row@), x as int, y as int).0,
        r.1@ == island_cell(biomes@, choice@.map_values(|row: Vec<Option<usize>>| row@), rolls@.map_values(|row: Vec<u32>| row@), x as int, y as int).1,
{
    proof {
        reveal_strlit("none");
        reveal_strlit("plains");
    }
    let (c, name) = match choice[y as usize][x as usize] {
        Some(i) => if i < biomes.len() {
            (biomes[i].tile_type, biomes[i].name.clone())
        } else {
            (' ', owned("none"))
        },
        None => (' ', owned("none")),
    };
    if str_eq(name.as_str(), "plains") && c == '.' && rolls[y as usize][x as usize] < 5 {
        ('f', name)
    } else {
        (c, name)
    }
}

/// The chunks of a `width` by `height` island, chunk row by chunk row, each
/// with its chunk position and its tiles: on the map each tile shows the
/// biome chosen for it, with plains grass turned to forest where the tile's
/// roll is below five; the rest of a chunk is blank.
pub fn assemble_island_chunks(
    width: u32,
    height: u32,
    biomes: &Vec<Biome>,
    choice: &Vec<Vec<Option<usize>>>,
    rolls: &Vec<Vec<u32>>,
) -> (r: Vec<((u32, u32), Vec<Vec<Tile>>)>)
    requires
        width <= u32::MAX - CHUNK_SIZE,
        height <= u32::MAX - CHUNK_SIZE,
        grid_of(choice@, width, height),
        grid_of(rolls@, width, height),
    ensures
        island_chunks(
            r@,
            width,
            height,
            biomes@,
            choice@.map_values(|row: Vec<Option<usize>>| row@),
            rolls@.map_values(|row: Vec<u32>| row@),
        ),
{
    let ghost cs = choice@.map_values(|row: Vec<Option<usize>>| row@);
    let ghost rs = rolls@.map_values(|row: Vec<u32>| row@);
    let wc: u32 = width / CHUNK_SIZE + if width % CHUNK_SIZE != 0 { 1 } else { 0 };
    let hc: u32 = height / CHUNK_SIZE + if height % CHUNK_SIZE != 0 { 1 } else { 0 };
    assert(wc == chunks_for(width) && hc == chunks_for(height));
    let mut out: Vec<((u32, u32), Vec<Vec<Tile>>)> = Vec::new();
    let ghost mut rows: Seq<Seq<((u32, u32), Vec<Vec<Tile>>)>> = Seq::empty();
    let mut cy: u32 = 0;
    while cy < hc
        invariant
            cy <= hc,
            wc == chunks_for(width),
            hc == chunks_for(height),
            width <= u32::MAX - CHUNK_SIZE,
            height <= u32::MAX - CHUNK_SIZE,
            grid_of(choice@, width, height),
            grid_of(rolls@, width, height),
            cs == choice@.map_values(|row: Vec<Option<usize>>| row@),
            rs == rolls@.map_values(|row: Vec<u32>| row@),
            rows.len() == cy,
            forall|i: int| 0 <= i < rows.len() ==> (#[trigger] rows[i]).len() == wc,
            forall|i: int, j: int| 0 <= i < rows.len() && 0 <= j < wc ==> island_chunk(#[trigger] rows[i][j], j, i, width, height, biomes@, cs, rs),
            out@ == flat(rows),
        decreases hc - cy,
    {
        let ghost mut current: Seq<((u32, u32), Vec<Vec<Tile>>)> = Seq::empty();
        proof {
            assert(cy * CHUNK_SIZE < height) by (nonlinear_arith)
                requires cy < hc, hc == chunks_for(height);
        }
        let mut cx: u32 = 0;
        while cx < wc
            invariant
                cy < hc,
                cx <= wc,
                wc == chunks_for(width),
                hc == chunks_for(height),
                cy * CHUNK_SIZE < height,
                width <= u32::MAX - CHUNK_SIZE,
                height <= u32::MAX - CHUNK_SIZE,
                grid_of(choice@, width, height),
                grid_of(rolls@, width, height),
                cs == choice@.map_values(|row: Vec<Option<usize>>| row@),
                rs == rolls@.map_values(|row: Vec<u32>| row@),
                current.len() == cx,
                forall|j: int| 0 <= j < cx ==> island_chunk(#[trigger] current[j], j, cy as int, width, height, biomes@, cs, rs),
                out@ == flat(rows) + current,
            decreases wc - cx,
        {
            proof {
                assert(cx * CHUNK_SIZE < width) by (nonlinear_arith)
                    requires cx < wc, wc == chunks_for(width);
            }
            let base_x = cx * CHUNK_SIZE;
            let base_y = cy * CHUNK_SIZE;
            let mut tiles: Vec<Vec<Tile>> = Vec::new();
            let mut ly: u32 = 0;
            while ly < CHUNK_SIZE
                invariant
                    ly <= CHUNK_SIZE,
                    base_x == cx * CHUNK_SIZE,
                    base_y == cy * CHUNK_SIZE,
                    base_x < width,
                    base_y < height,
                    width <= u32::MAX - CHUNK_SIZE,
                    height <= u32::MAX - CHUNK_SIZE,
                    grid_of(choice@, width, height),
                    grid_of(rolls@, width, height),
                    cs == choice@.map_values(|row: Vec<Option<usize>>| row@),
                    rs == rolls@.map_values(|row: Vec<u32>| row@),
                    tiles@.len() == ly,
                    forall|a: int| 0 <= a < ly ==> (#[trigger] tiles@[a])@.len() == CHUNK_SIZE,
                    forall|a: int, b: int| 0 <= a < ly && 0 <= b < CHUNK_SIZE ==> (#[trigger] tiles@[a]@[b])@ == island_tile(
                        width, height, biomes@, cs, rs, base_x + b, base_y + a),
                decreases CHUNK_SIZE - ly,
            {
                let mut row: Vec<Tile> = Vec::new();
                let mut lx: u32 = 0;
                while lx < CHUNK_SIZE
                    invariant
                        lx <= CHUNK_SIZE,
                        ly < CHUNK_SIZE,
                        base_x < width,
                        base_y < height,
                        width <= u32::MAX - CHUNK_SIZE,
                        height <= u32::MAX - CHUNK_SIZE,
                        grid_of(choice@, width, height),
                        grid_of(rolls@, width, height),
                        cs == choice@.map_values(|row: Vec<Option<usize>>| row@),
                        rs == rolls@.map_values(|row: Vec<u32>| row@),
                        row@.len() == lx,
                        forall|b: int| 0 <= b < lx ==> (#[trigger] row@[b])@ == island_tile(
                            width, height, biomes@, cs, rs, base_x + b, base_y + ly),
                    decreases CHUNK_SIZE - lx,
                {
                    let x_abs = base_x + lx;
                    let y_abs = base_y + ly;
                    if x_abs < width && y_abs < height {
                        proof {
                            assert(cs[y_abs as int] == choice@[y_abs as int]@);
                            assert(rs[y_abs as int] == rolls@[y_abs as int]@);
                        }
                        let (c, name) = island_cell_of(biomes, choice, rolls, x_abs, y_abs);
                        row.push(Tile::new(c, name));
                    } else {
                        proof {
                            reveal_strlit("none");
                        }
                        row.push(Tile::new(' ', owned("none")));
                    }
                    lx = lx + 1;
                }
                tiles.push(row);
                ly = ly + 1;
            }
            out.push(((cx, cy), tiles));
            proof {
                current = current.push(((cx, cy), tiles));
                assert(island_chunk(current[cx as int], cx as int, cy as int, width, height, biomes@, cs, rs));
            }
            cx = cx + 1;
        }
        proof {
            assert(rows.push(current).drop_last() =~= rows);
            rows = rows.push(current);
        }
        cy = cy + 1;
    }
    out
}

/// The chunks of a `width` by `height` island, with the biome chosen for
/// each tile and forest rolls drawn from a generator seeded with `seed`, or
/// with a seed drawn at random when none is given.
pub fn generate_island_map(
    width: u32,
    height: u32,
    biomes: &Vec<Biome>,
    seed: Option<u32>,
    choice: &Vec<Vec<Option<usize>>>,
) -> (r: Vec<((u32, u32), Vec<Vec<Tile>>)>)
    requires
        width <= u32::MAX - CHUNK_SIZE,
        height <= u32::MAX - CHUNK_SIZE,
        grid_of(choice@, width, height),
    ensures
        exists|rolls: Seq<Seq<u32>>|
            rolls.len() == height && (forall|y: int, x: int| 0 <= y < height && 0 <= x < width ==> #[trigger] rolls[y][x] < 100)
                && island_chunks(r@, width, height, biomes@, choice@.map_values(|row: Vec<Option<usize>>| row@), rolls),
{
    let seed_val = match seed {
        Some(s) => s,
        None => random_seed(),
    };
    let rolls = island_rolls(seed_val, width, height);
    let r = assemble_island_chunks(width, height, biomes, choice, &rolls);
    proof {
        let rs = rolls@.map_values(|row: Vec<u32>| row@);
        assert forall|y: int, x: int| 0 <= y < height && 0 <= x < width implies #[trigger] rs[y][x] < 100 by {
            assert(rs[y] == rolls@[y]@);
        }
        assert(rs.len() == height);
        assert(island_chunks(r@, width, height, biomes@, choice@.map_values(|row: Vec<Option<usize>>| row@), rs));
    }
    r
}

} // verus!
