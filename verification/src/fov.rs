//! Field of view by recursive shadowcasting.

use vstd::prelude::*;
use crate::components::Position;
use crate::map::GameMap;

verus! {

/// Maps a column and row of octant 0's frame into the octant's offset from the viewer.
pub open spec fn octant_offset(x: int, y: int, octant: u8) -> (int, int) {
    if octant == 0 {
        (x, -y)
    } else if octant == 1 {
        (y, -x)
    } else if octant == 2 {
        (y, x)
    } else if octant == 3 {
        (x, y)
    } else if octant == 4 {
        (-x, y)
    } else if octant == 5 {
        (-y, x)
    } else if octant == 6 {
        (-y, -x)
    } else {
        (-x, -y)
    }
}

/// Maps a column and row into the given octant's offset from the viewer.
pub fn transform_octant(x: i32, y: i32, octant: u8) -> (r: (i32, i32))
    requires
        x > i32::MIN,
        y > i32::MIN,
    ensures
        (r.0 as int, r.1 as int) == octant_offset(x as int, y as int, octant),
{
    match octant {
        0 => (x, -y),
        1 => (y, -x),
        2 => (y, x),
        3 => (x, y),
        4 => (-x, y),
        5 => (-y, x),
        6 => (-y, -x),
        _ => (-x, -y),
    }
}

/// Terrain that blocks sight: walls, forests and trees.
pub open spec fn blocks_sight(t: char) -> bool {
    t == '#' || t == 'f' || t == 'T'
}

/// `(x, y)` lies on the map, with the map's size read as `i32` the way the
/// scan compares it.
pub open spec fn on_map(map: GameMap, x: int, y: int) -> bool {
    0 <= x && x < map.width as i32 && 0 <= y && y < map.height as i32
}

/// `(x, y)` is within `radius` of the viewer.
pub open spec fn within(player: Position, radius: i32, x: int, y: int) -> bool {
    (x - player.x) * (x - player.x) + (y - player.y) * (y - player.y) <= radius * radius
}

/// The map holds a tile at `(x, y)` that does not block sight.
pub open spec fn transparent(map: GameMap, x: int, y: int) -> bool {
    map.tile_at(x as u32, y as u32) matches Some(t) && !blocks_sight(t.tile_type)
}

/// Nothing blocks sight anywhere on the map within `radius` of the viewer.
pub open spec fn clear_around(map: GameMap, player: Position, radius: i32) -> bool {
    forall|x: int, y: int| on_map(map, x, y) && within(player, radius, x, y) ==> #[trigger] transparent(map, x, y)
}

/// The map position of the cell at `col`, `row` of an octant.
pub open spec fn cell_of(player: Position, col: int, row: int, octant: u8) -> (int, int) {
    let d = octant_offset(col, row, octant);
    (player.x + d.0, player.y + d.1)
}

/// `a/b < c/d` for positive denominators.
pub open spec fn slope_lt(a: (int, int), b: (int, int)) -> bool {
    a.0 * b.1 < b.0 * a.1
}

/// The lower edge slope of the cell at `col`, `row` of an octant.
pub open spec fn lower_slope(col: int, row: int) -> (int, int) {
    (2 * col - 1, 2 * row)
}

/// The upper edge slope of the cell at `col`, `row` of an octant.
pub open spec fn upper_slope(col: int, row: int) -> (int, int) {
    (2 * col + 1, 2 * row)
}

/// A slope held as machine integers, read as a pair of integers.
pub open spec fn slope_val(t: (i64, i64)) -> (int, int) {
    (t.0 as int, t.1 as int)
}

/// How many rows a scan of `radius` goes out: its absolute value.
pub open spec fn reach_of(radius: i32) -> int {
    if radius < 0 {
        -(radius as int)
    } else {
        radius as int
    }
}

/// The positions that a scan of one octant sees from `row` outwards, in the
/// window from the upper slope `s` down to the lower slope `e`: nothing when
/// the window is empty, else the rows one after another.
pub open spec fn scan_seen(
    m: GameMap,
    p: Position,
    rad: i32,
    reach: int,
    o: u8,
    row: int,
    s: (int, int),
    e: (int, int),
) -> Set<Position>
    decreases reach - row + 1, 2int, 0int,
{
    if slope_lt(s, e) {
        Set::empty()
    } else {
        rows_seen(m, p, rad, reach, o, row, s, e)
    }
}

/// The rows from `r` to `reach` of a scan: each row is walked from its
/// highest column down; the scan goes on to the next row, with the window's
/// upper slope as the row left it, unless the row ended in shadow.
pub open spec fn rows_seen(
    m: GameMap,
    p: Position,
    rad: i32,
    reach: int,
    o: u8,
    r: int,
    s: (int, int),
    e: (int, int),
) -> Set<Position>
    decreases reach - r + 1, 1int, 0int,
{
    if r > reach {
        Set::empty()
    } else {
        let out = row_seen(m, p, rad, reach, o, r, r, s, e, s, false);
        if out.2 {
            out.0
        } else {
            out.0.union(rows_seen(m, p, rad, reach, o, r + 1, out.1, e))
        }
    }
}

/// The rest of row `r` from column `col` down, with the window's upper
/// slope `s`, the slope `ns` where the window resumes below a run of opaque
/// cells, and whether the walk is in such a run: what is seen, the upper
/// slope for the next row, and whether the row ended in shadow.
///
/// A cell off the map, beyond the radius or above the window is passed
/// over; the first cell below the window ends the row. Every other cell is
/// seen. An opaque cell that starts a run of shadow sends a scan of the
/// next rows into the window above it; the cell after a run, if clear,
/// lowers the window to the run's last edge.
pub open spec fn row_seen(
    m: GameMap,
    p: Position,
    rad: i32,
    reach: int,
    o: u8,
    r: int,
    col: int,
    s: (int, int),
    e: (int, int),
    ns: (int, int),
    blocked: bool,
) -> (Set<Position>, (int, int), bool)
    decreases reach - r + 1, 0int, col + 1,
{
    if col < 0 || r > reach {
        (Set::empty(), s, blocked)
    } else {
        let c = cell_of(p, col, r, o);
        if !on_map(m, c.0, c.1) || !within(p, rad, c.0, c.1) || slope_lt(s, lower_slope(col, r)) {
            row_seen(m, p, rad, reach, o, r, col - 1, s, e, ns, blocked)
        } else if slope_lt(upper_slope(col, r), e) {
            (Set::empty(), s, blocked)
        } else {
            let opaque = !transparent(m, c.0, c.1);
            let rest = if blocked {
                if opaque {
                    row_seen(m, p, rad, reach, o, r, col - 1, s, e, lower_slope(col, r), true)
                } else {
                    row_seen(m, p, rad, reach, o, r, col - 1, ns, e, ns, false)
                }
            } else if opaque && r < reach {
                row_seen(m, p, rad, reach, o, r, col - 1, s, e, lower_slope(col, r), true)
            } else {
                row_seen(m, p, rad, reach, o, r, col - 1, s, e, ns, false)
            };
            let child = if !blocked && opaque && r < reach {
                scan_seen(m, p, rad, reach, o, r + 1, s, upper_slope(col, r))
            } else {
                Set::empty()
            };
            (rest.0.insert(position_of(c)).union(child), rest.1, rest.2)
        }
    }
}

/// The viewer's own position and what the scans of the first `k` octants see.
pub open spec fn octants_seen(m: GameMap, p: Position, rad: i32, k: int) -> Set<Position>
    decreases k,
{
    if k <= 0 {
        Set::empty().insert(p)
    } else {
        octants_seen(m, p, rad, k - 1).union(
            scan_seen(m, p, rad, reach_of(rad), (k - 1) as u8, 1, (1, 1), (0, 1)),
        )
    }
}

/// The field of view from `p` with radius `rad` on `m`: the viewer's
/// position and what the shadowcasting scans of all eight octants see.
pub open spec fn view_set(m: GameMap, p: Position, rad: i32) -> Set<Position> {
    octants_seen(m, p, rad, 8)
}

/// `a/b <= c/d` for positive denominators.
pub open spec fn slope_le(a: (int, int), b: (int, int)) -> bool {
    a.0 * b.1 <= b.0 * a.1
}

/// `q` is the position of the cell at `c`, `j` of octant `o`: on the map,
/// in a row from `row` to `reach`, and with slopes that meet the window
/// from `s` down to `e`.
pub open spec fn in_window(
    m: GameMap,
    p: Position,
    reach: int,
    o: u8,
    row: int,
    s: (int, int),
    e: (int, int),
    q: Position,
    c: int,
    j: int,
) -> bool {
    &&& row <= j <= reach
    &&& 0 <= c <= j
    &&& on_map(m, cell_of(p, c, j, o).0, cell_of(p, c, j, o).1)
    &&& q == position_of(cell_of(p, c, j, o))
    &&& slope_le(lower_slope(c, j), s)
    &&& slope_le(e, upper_slope(c, j))
}

proof fn lemma_slope_le_trans(a: (int, int), b: (int, int), c: (int, int))
    requires
        a.1 > 0,
        b.1 > 0,
        c.1 > 0,
        slope_le(a, b),
        slope_le(b, c),
    ensures
        slope_le(a, c),
{
    let (a0, a1, b0, b1, c0, c1) = (a.0, a.1, b.0, b.1, c.0, c.1);
    assert(a0 * b1 * c1 <= b0 * a1 * c1) by (nonlinear_arith)
        requires
            a0 * b1 <= b0 * a1,
            c1 > 0,
    ;
    assert(b0 * c1 * a1 <= c0 * b1 * a1) by (nonlinear_arith)
        requires
            b0 * c1 <= c0 * b1,
            a1 > 0,
    ;
    assert(a0 * c1 <= c0 * a1) by (nonlinear_arith)
        requires
            a0 * b1 * c1 <= b0 * a1 * c1,
            b0 * c1 * a1 <= c0 * b1 * a1,
            b1 > 0,
    ;
}

/// What a scan sees are cells of its octant within its rows and window.
pub proof fn lemma_scan_cells(
    m: GameMap,
    p: Position,
    rad: i32,
    reach: int,
    o: u8,
    row: int,
    s: (int, int),
    e: (int, int),
    q: Position,
)
    requires
        row >= 1,
        s.1 > 0,
        e.1 > 0,
        scan_seen(m, p, rad, reach, o, row, s, e).contains(q),
    ensures
        exists|c: int, j: int| #[trigger] in_window(m, p, reach, o, row, s, e, q, c, j),
    decreases reach - row + 1, 2int, 0int,
{
    lemma_rows_cells(m, p, rad, reach, o, row, s, e, q);
}

/// What the rows of a scan see are cells of its octant within its rows and window.
pub proof fn lemma_rows_cells(
    m: GameMap,
    p: Position,
    rad: i32,
    reach: int,
    o: u8,
    r: int,
    s: (int, int),
    e: (int, int),
    q: Position,
)
    requires
        r >= 1,
        s.1 > 0,
        e.1 > 0,
        rows_seen(m, p, rad, reach, o, r, s, e).contains(q),
    ensures
        exists|c: int, j: int| #[trigger] in_window(m, p, reach, o, r, s, e, q, c, j),
    decreases reach - r + 1, 1int, 0int,
{
    if r <= reach {
        let out = row_seen(m, p, rad, reach, o, r, r, s, e, s, false);
        lemma_row_cells(m, p, rad, reach, o, r, r, s, e, s, false, q);
        if !out.0.contains(q) {
            lemma_rows_cells(m, p, rad, reach, o, r + 1, out.1, e, q);
            let (c, j) = choose|c: int, j: int| #[trigger] in_window(m, p, reach, o, r + 1, out.1, e, q, c, j);
            lemma_slope_le_trans(lower_slope(c, j), out.1, s);
            assert(in_window(m, p, reach, o, r, s, e, q, c, j));
        }
    }
}

/// The rest of a row's walk sees cells of that row, or cells that its
/// scans into later rows see, all within the window; and the upper slope
/// it hands to the next row is no higher than the window's.
pub proof fn lemma_row_cells(
    m: GameMap,
    p: Position,
    rad: i32,
    reach: int,
    o: u8,
    r: int,
    col: int,
    s: (int, int),
    e: (int, int),
    ns: (int, int),
    blocked: bool,
    q: Position,
)
    requires
        r >= 1,
        s.1 > 0,
        e.1 > 0,
        ns.1 > 0,
        slope_le(ns, s),
        col <= r,
    ensures
        ({
            let out = row_seen(m, p, rad, reach, o, r, col, s, e, ns, blocked);
            &&& out.1.1 > 0
            &&& slope_le(out.1, s)
            &&& out.0.contains(q) ==> exists|c: int, j: int| #[trigger] in_window(m, p, reach, o, r, s, e, q, c, j)
        }),
    decreases reach - r + 1, 0int, col + 1,
{
    assert(slope_le(s, s)) by (nonlinear_arith);
    if col < 0 || r > reach {
    } else {
        let c = cell_of(p, col, r, o);
        if !on_map(m, c.0, c.1) || !within(p, rad, c.0, c.1) || slope_lt(s, lower_slope(col, r)) {
            lemma_row_cells(m, p, rad, reach, o, r, col - 1, s, e, ns, blocked, q);
        } else if slope_lt(upper_slope(col, r), e) {
        } else {
            let opaque = !transparent(m, c.0, c.1);
            if q == position_of(c) {
                assert(in_window(m, p, reach, o, r, s, e, q, col, r));
            }
            if blocked {
                if opaque {
                    lemma_row_cells(m, p, rad, reach, o, r, col - 1, s, e, lower_slope(col, r), true, q);
                } else {
                    let rest = row_seen(m, p, rad, reach, o, r, col - 1, ns, e, ns, false);
                    assert(slope_le(ns, ns)) by (nonlinear_arith);
                    lemma_row_cells(m, p, rad, reach, o, r, col - 1, ns, e, ns, false, q);
                    lemma_slope_le_trans(rest.1, ns, s);
                    if rest.0.contains(q) {
                        let (c1, j1) = choose|c1: int, j1: int| #[trigger] in_window(m, p, reach, o, r, ns, e, q, c1, j1);
                        lemma_slope_le_trans(lower_slope(c1, j1), ns, s);
                        assert(in_window(m, p, reach, o, r, s, e, q, c1, j1));
                    }
                }
            } else if opaque && r < reach {
                lemma_row_cells(m, p, rad, reach, o, r, col - 1, s, e, lower_slope(col, r), true, q);
                let child = scan_seen(m, p, rad, reach, o, r + 1, s, upper_slope(col, r));
                if child.contains(q) {
                    lemma_scan_cells(m, p, rad, reach, o, r + 1, s, upper_slope(col, r), q);
                    let (c1, j1) = choose|c1: int, j1: int| #[trigger] in_window(m, p, reach, o, r + 1, s, upper_slope(col, r), q, c1, j1);
                    lemma_slope_le_trans(e, upper_slope(col, r), upper_slope(c1, j1));
                    assert(in_window(m, p, reach, o, r, s, e, q, c1, j1));
                }
            } else {
                lemma_row_cells(m, p, rad, reach, o, r, col - 1, s, e, ns, false, q);
            }
        }
    }
}

/// The cell at `c`, `j` of octant `o` is on the map, within the radius, and
/// blocks sight.
pub open spec fn cell_blocks(m: GameMap, p: Position, rad: i32, o: u8, c: int, j: int) -> bool {
    let x = cell_of(p, c, j, o);
    on_map(m, x.0, x.1) && within(p, rad, x.0, x.1) && !transparent(m, x.0, x.1)
}

/// The cell at `c`, `j` lies inside the shadow that the cell at `c0`,
/// `j0` casts: further out, with both its edges strictly between that
/// cell's edges.
pub open spec fn shadowed_by(c0: int, j0: int, c: int, j: int) -> bool {
    &&& j0 < j
    &&& slope_lt(lower_slope(c0, j0), lower_slope(c, j))
    &&& slope_lt(upper_slope(c, j), upper_slope(c0, j0))
}

/// No blocking cell of octant `o` in the rows from `lo` up to the cell's
/// own row casts a shadow over the cell at `c`, `j`.
pub open spec fn unshadowed(m: GameMap, p: Position, rad: i32, o: u8, lo: int, c: int, j: int) -> bool {
    forall|c0: int, j0: int|
        lo <= j0 < j && 0 <= c0 <= j0 && #[trigger] cell_blocks(m, p, rad, o, c0, j0) ==> !shadowed_by(c0, j0, c, j)
}

/// The cell at `c`, `j` lies outside the window from `s` down to `e`.
pub open spec fn outside(s: (int, int), e: (int, int), c: int, j: int) -> bool {
    slope_lt(s, lower_slope(c, j)) || slope_lt(upper_slope(c, j), e)
}

/// Every cell from row `hi` to `reach` that a blocking cell of the rows
/// from `lo` to below `hi` shadows lies outside the window.
pub open spec fn excluded(m: GameMap, p: Position, rad: i32, reach: int, o: u8, lo: int, hi: int, s: (int, int), e: (int, int)) -> bool {
    forall|c0: int, j0: int, c: int, j: int|
        lo <= j0 < hi && 0 <= c0 <= j0 && #[trigger] cell_blocks(m, p, rad, o, c0, j0) && hi <= j <= reach && 0 <= c <= j
            && #[trigger] shadowed_by(c0, j0, c, j) ==> outside(s, e, c, j)
}

/// Every cell beyond row `r` that a blocking cell of row `r` above column
/// `col` shadows lies outside the window.
pub open spec fn row_guard(m: GameMap, p: Position, rad: i32, reach: int, o: u8, r: int, col: int, s: (int, int), e: (int, int)) -> bool {
    forall|c0: int, c: int, j: int|
        col < c0 <= r && #[trigger] cell_blocks(m, p, rad, o, c0, r) && r < j <= reach && 0 <= c <= j
            && #[trigger] shadowed_by(c0, r, c, j) ==> outside(s, e, c, j)
}

proof fn lemma_slope_le_lt(a: (int, int), b: (int, int), c: (int, int))
    requires
        a.1 > 0,
        b.1 > 0,
        c.1 > 0,
        slope_le(a, b),
        slope_lt(b, c),
    ensures
        slope_lt(a, c),
{
    let (a0, a1, b0, b1, c0, c1) = (a.0, a.1, b.0, b.1, c.0, c.1);
    assert(a0 * b1 * c1 <= b0 * a1 * c1) by (nonlinear_arith)
        requires
            a0 * b1 <= b0 * a1,
            c1 > 0,
    ;
    assert(b0 * c1 * a1 < c0 * b1 * a1) by (nonlinear_arith)
        requires
            b0 * c1 < c0 * b1,
            a1 > 0,
    ;
    assert(a0 * c1 < c0 * a1) by (nonlinear_arith)
        requires
            a0 * b1 * c1 <= b0 * a1 * c1,
            b0 * c1 * a1 < c0 * b1 * a1,
            b1 > 0,
    ;
}

proof fn lemma_slope_lt_le(a: (int, int), b: (int, int), c: (int, int))
    requires
        a.1 > 0,
        b.1 > 0,
        c.1 > 0,
        slope_lt(a, b),
        slope_le(b, c),
    ensures
        slope_lt(a, c),
{
    let (a0, a1, b0, b1, c0, c1) = (a.0, a.1, b.0, b.1, c.0, c.1);
    assert(a0 * b1 * c1 < b0 * a1 * c1) by (nonlinear_arith)
        requires
            a0 * b1 < b0 * a1,
            c1 > 0,
    ;
    assert(b0 * c1 * a1 <= c0 * b1 * a1) by (nonlinear_arith)
        requires
            b0 * c1 <= c0 * b1,
            a1 > 0,
    ;
    assert(a0 * c1 < c0 * a1) by (nonlinear_arith)
        requires
            a0 * b1 * c1 < b0 * a1 * c1,
            b0 * c1 * a1 <= c0 * b1 * a1,
            b1 > 0,
    ;
}

/// A smaller window leaves outside what a larger one did.
proof fn lemma_outside_shrinks(s: (int, int), s2: (int, int), e: (int, int), c: int, j: int)
    requires
        s.1 > 0,
        s2.1 > 0,
        e.1 > 0,
        j >= 1,
        slope_le(s2, s),
        outside(s, e, c, j),
    ensures
        outside(s2, e, c, j),
{
    if slope_lt(s, lower_slope(c, j)) {
        lemma_slope_le_lt(s2, s, lower_slope(c, j));
    }
}

/// Along one row, edges grow with the column.
proof fn lemma_row_edges(c0: int, c: int, r: int)
    requires
        r >= 1,
        c0 <= c,
    ensures
        slope_le(upper_slope(c0, r), upper_slope(c, r)),
        c0 < c ==> slope_lt(lower_slope(c0, r), lower_slope(c, r)),
        c0 < c ==> slope_lt(upper_slope(c0, r), lower_slope(c, r)) || slope_le(upper_slope(c0, r), lower_slope(c, r)),
{
    assert((2 * c0 + 1) * (2 * r) <= (2 * c + 1) * (2 * r)) by (nonlinear_arith)
        requires
            c0 <= c,
            r >= 1,
    ;
    if c0 < c {
        assert((2 * c0 - 1) * (2 * r) < (2 * c - 1) * (2 * r)) by (nonlinear_arith)
            requires
                c0 < c,
                r >= 1,
        ;
        assert((2 * c0 + 1) * (2 * r) <= (2 * c - 1) * (2 * r)) by (nonlinear_arith)
            requires
                c0 < c,
                r >= 1,
        ;
    }
}

/// What a scan sees are cells of its octant within its window that no
/// blocking cell of its rows shadows.
pub proof fn lemma_scan_unshadowed(
    m: GameMap,
    p: Position,
    rad: i32,
    reach: int,
    o: u8,
    row: int,
    s: (int, int),
    e: (int, int),
    q: Position,
)
    requires
        row >= 1,
        s.1 > 0,
        e.1 > 0,
        scan_seen(m, p, rad, reach, o, row, s, e).contains(q),
    ensures
        exists|c: int, j: int| #[trigger] in_window(m, p, reach, o, row, s, e, q, c, j) && unshadowed(m, p, rad, o, row, c, j),
    decreases reach - row + 1, 2int, 0int,
{
    lemma_rows_unshadowed(m, p, rad, reach, o, row, row, s, e, q);
}

/// What the rows of a scan from row `r` see, when the window leaves out
/// every shadow cast from the rows `lo` to below `r`, are cells within the
/// window that no blocking cell from row `lo` on shadows.
pub proof fn lemma_rows_unshadowed(
    m: GameMap,
    p: Position,
    rad: i32,
    reach: int,
    o: u8,
    lo: int,
    r: int,
    s: (int, int),
    e: (int, int),
    q: Position,
)
    requires
        1 <= lo <= r,
        s.1 > 0,
        e.1 > 0,
        excluded(m, p, rad, reach, o, lo, r, s, e),
        rows_seen(m, p, rad, reach, o, r, s, e).contains(q),
    ensures
        exists|c: int, j: int| #[trigger] in_window(m, p, reach, o, r, s, e, q, c, j) && unshadowed(m, p, rad, o, lo, c, j),
    decreases reach - r + 1, 1int, 0int,
{
    if r <= reach {
        let out = row_seen(m, p, rad, reach, o, r, r, s, e, s, false);
        assert(slope_le(s, s)) by (nonlinear_arith);
        lemma_row_unshadowed(m, p, rad, reach, o, lo, r, r, s, e, s, false, q);
        if !out.0.contains(q) {
            lemma_rows_unshadowed(m, p, rad, reach, o, lo, r + 1, out.1, e, q);
            let (c, j) = choose|c: int, j: int| #[trigger] in_window(m, p, reach, o, r + 1, out.1, e, q, c, j) && unshadowed(m, p, rad, o, lo, c, j);
            lemma_slope_le_trans(lower_slope(c, j), out.1, s);
            assert(in_window(m, p, reach, o, r, s, e, q, c, j));
        }
    }
}

/// The rest of a row's walk, when the window leaves out every shadow cast
/// from the earlier rows and, in this row, above column `col`: what it sees
/// lies within the window and in no shadow from row `lo` on; and when the
/// row does not end in shadow, the window it hands on leaves out every
/// shadow cast from the rows `lo` to `r`.
#[verifier::spinoff_prover]
#[verifier::rlimit(100)]
pub proof fn lemma_row_unshadowed(
    m: GameMap,
    p: Position,
    rad: i32,
    reach: int,
    o: u8,
    lo: int,
    r: int,
    col: int,
    s: (int, int),
    e: (int, int),
    ns: (int, int),
    blocked: bool,
    q: Position,
)
    requires
        1 <= lo <= r,
        s.1 > 0,
        e.1 > 0,
        ns.1 > 0,
        slope_le(ns, s),
        col <= r,
        excluded(m, p, rad, reach, o, lo, r, s, e),
        row_guard(m, p, rad, reach, o, r, col, if blocked { ns } else { s }, e),
        blocked ==> slope_le(lower_slope(col + 1, r), ns),
    ensures
        ({
            let out = row_seen(m, p, rad, reach, o, r, col, s, e, ns, blocked);
            &&& out.1.1 > 0
            &&& slope_le(out.1, s)
            &&& out.0.contains(q) ==> exists|c: int, j: int| #[trigger] in_window(m, p, reach, o, r, s, e, q, c, j) && unshadowed(m, p, rad, o, lo, c, j)
            &&& !out.2 ==> excluded(m, p, rad, reach, o, lo, r + 1, out.1, e)
        }),
    decreases reach - r + 1, 0int, col + 1,
{
    let se = if blocked { ns } else { s };
    assert(slope_le(s, s)) by (nonlinear_arith);
    assert(slope_le(se, s));
    if col < 0 || r > reach {
        if !blocked {
            assert forall|c0: int, j0: int, c: int, j: int|
                lo <= j0 < r + 1 && 0 <= c0 <= j0 && #[trigger] cell_blocks(m, p, rad, o, c0, j0) && r + 1 <= j <= reach && 0 <= c <= j
                    && #[trigger] shadowed_by(c0, j0, c, j) implies outside(s, e, c, j) by {
                if j0 < r {
                } else {
                    assert(cell_blocks(m, p, rad, o, c0, r) && shadowed_by(c0, r, c, j));
                }
            }
        }
    } else {
        let cc = cell_of(p, col, r, o);
        let lw = lower_slope(col, r);
        lemma_row_edges(col, col + 1, r);
        if !on_map(m, cc.0, cc.1) || !within(p, rad, cc.0, cc.1) || slope_lt(s, lw) {
            assert forall|c0: int, c: int, j: int|
                col - 1 < c0 <= r && #[trigger] cell_blocks(m, p, rad, o, c0, r) && r < j <= reach && 0 <= c <= j
                    && #[trigger] shadowed_by(c0, r, c, j) implies outside(se, e, c, j) by {
                if c0 == col {
                    lemma_slope_le_lt(se, s, lw);
                    assert(slope_le(lw, lower_slope(c, j)));
                    lemma_slope_lt_le(se, lw, lower_slope(c, j));
                }
            }
            if blocked {
                lemma_row_edges(col, col + 1, r);
                assert(slope_lt(lw, lower_slope(col + 1, r)));
                lemma_slope_lt_le(lw, lower_slope(col + 1, r), ns);
                assert(slope_le(lw, ns));
            }
            lemma_row_unshadowed(m, p, rad, reach, o, lo, r, col - 1, s, e, ns, blocked, q);
        } else if slope_lt(upper_slope(col, r), e) {
            if !blocked {
                assert forall|c0: int, j0: int, c: int, j: int|
                    lo <= j0 < r + 1 && 0 <= c0 <= j0 && #[trigger] cell_blocks(m, p, rad, o, c0, j0) && r + 1 <= j <= reach && 0 <= c <= j
                        && #[trigger] shadowed_by(c0, j0, c, j) implies outside(s, e, c, j) by {
                    if j0 < r {
                    } else if c0 > col {
                        assert(cell_blocks(m, p, rad, o, c0, r) && shadowed_by(c0, r, c, j));
                    } else {
                        lemma_row_edges(c0, col, r);
                        lemma_slope_lt_le(upper_slope(c, j), upper_slope(c0, r), upper_slope(col, r));
                        assert(slope_le(upper_slope(col, r), e));
                        lemma_slope_lt_le(upper_slope(c, j), upper_slope(col, r), e);
                    }
                }
            }
        } else {
            let opaque = !transparent(m, cc.0, cc.1);
            assert(slope_le(lw, s));
            assert(slope_le(e, upper_slope(col, r)));
            if q == position_of(cc) {
                assert forall|c0: int, j0: int|
                    lo <= j0 < r && 0 <= c0 <= j0 && #[trigger] cell_blocks(m, p, rad, o, c0, j0) implies !shadowed_by(c0, j0, col, r) by {
                    if shadowed_by(c0, j0, col, r) {
                        assert(outside(s, e, col, r));
                    }
                }
                assert(in_window(m, p, reach, o, r, s, e, q, col, r));
            }
            assert(slope_le(lw, lw)) by (nonlinear_arith);
            if blocked {
                if opaque {
                    lemma_slope_lt_le(lw, lower_slope(col + 1, r), ns);
                    assert forall|c0: int, c: int, j: int|
                        col - 1 < c0 <= r && #[trigger] cell_blocks(m, p, rad, o, c0, r) && r < j <= reach && 0 <= c <= j
                            && #[trigger] shadowed_by(c0, r, c, j) implies outside(lw, e, c, j) by {
                        if c0 > col {
                            assert(outside(ns, e, c, j));
                            assert(slope_le(lw, ns));
                            lemma_outside_shrinks(ns, lw, e, c, j);
                        }
                    }
                    lemma_row_unshadowed(m, p, rad, reach, o, lo, r, col - 1, s, e, lw, true, q);
                } else {
                    let rest = row_seen(m, p, rad, reach, o, r, col - 1, ns, e, ns, false);
                    assert(slope_le(ns, ns)) by (nonlinear_arith);
                    assert forall|c0: int, j0: int, c: int, j: int|
                        lo <= j0 < r && 0 <= c0 <= j0 && #[trigger] cell_blocks(m, p, rad, o, c0, j0) && r <= j <= reach && 0 <= c <= j
                            && #[trigger] shadowed_by(c0, j0, c, j) implies outside(ns, e, c, j) by {
                        lemma_outside_shrinks(s, ns, e, c, j);
                    }
                    lemma_row_unshadowed(m, p, rad, reach, o, lo, r, col - 1, ns, e, ns, false, q);
                    lemma_slope_le_trans(rest.1, ns, s);
                    if rest.0.contains(q) {
                        let (c1, j1) = choose|c1: int, j1: int| #[trigger] in_window(m, p, reach, o, r, ns, e, q, c1, j1) && unshadowed(m, p, rad, o, lo, c1, j1);
                        lemma_slope_le_trans(lower_slope(c1, j1), ns, s);
                        assert(in_window(m, p, reach, o, r, s, e, q, c1, j1));
                    }
                }
            } else if opaque && r < reach {
                assert forall|c0: int, c: int, j: int|
                    col - 1 < c0 <= r && #[trigger] cell_blocks(m, p, rad, o, c0, r) && r < j <= reach && 0 <= c <= j
                        && #[trigger] shadowed_by(c0, r, c, j) implies outside(lw, e, c, j) by {
                    if c0 > col {
                        lemma_outside_shrinks(s, lw, e, c, j);
                    }
                }
                lemma_row_unshadowed(m, p, rad, reach, o, lo, r, col - 1, s, e, lw, true, q);
                let up = upper_slope(col, r);
                let child = scan_seen(m, p, rad, reach, o, r + 1, s, up);
                if child.contains(q) {
                    lemma_scan_unshadowed(m, p, rad, reach, o, r + 1, s, up, q);
                    let (c1, j1) = choose|c1: int, j1: int| #[trigger] in_window(m, p, reach, o, r + 1, s, up, q, c1, j1) && unshadowed(m, p, rad, o, r + 1, c1, j1);
                    lemma_slope_le_trans(e, up, upper_slope(c1, j1));
                    assert forall|c0: int, j0: int|
                        lo <= j0 < j1 && 0 <= c0 <= j0 && #[trigger] cell_blocks(m, p, rad, o, c0, j0) implies !shadowed_by(c0, j0, c1, j1) by {
                        if shadowed_by(c0, j0, c1, j1) {
                            if j0 < r {
                                assert(outside(s, e, c1, j1));
                            } else if j0 == r {
                                if c0 > col {
                                    assert(outside(s, e, c1, j1));
                                } else {
                                    lemma_row_edges(c0, col, r);
                                    lemma_slope_lt_le(upper_slope(c1, j1), upper_slope(c0, r), up);
                                    lemma_slope_lt_le(upper_slope(c1, j1), up, upper_slope(c1, j1));
                                }
                            }
                        }
                    }
                    assert(in_window(m, p, reach, o, r, s, e, q, c1, j1));
                }
            } else {
                assert forall|c0: int, c: int, j: int|
                    col - 1 < c0 <= r && #[trigger] cell_blocks(m, p, rad, o, c0, r) && r < j <= reach && 0 <= c <= j
                        && #[trigger] shadowed_by(c0, r, c, j) implies outside(s, e, c, j) by {
                }
                lemma_row_unshadowed(m, p, rad, reach, o, lo, r, col - 1, s, e, ns, false, q);
            }
        }
    }
}

/// The tile at `(x, y)` is on the map, within `rad` of the viewer, and
/// blocks sight.
pub open spec fn blocks_at(m: GameMap, p: Position, rad: i32, x: int, y: int) -> bool {
    on_map(m, x, y) && within(p, rad, x, y) && !transparent(m, x, y)
}

/// `q` lies two steps from the viewer in one of the eight directions, and
/// the tile one step that way blocks sight.
pub open spec fn behind_neighbour(m: GameMap, p: Position, rad: i32, q: Position) -> bool {
    let dx = q.x - p.x;
    let dy = q.y - p.y;
    &&& (dx == -2 || dx == 0 || dx == 2)
    &&& (dy == -2 || dy == 0 || dy == 2)
    &&& (dx != 0 || dy != 0)
    &&& blocks_at(m, p, rad, p.x + dx / 2, p.y + dy / 2)
}

/// A position of a cell on the map is the cell read back as a position.
proof fn lemma_position_of_cell(m: GameMap, c: (int, int), q: Position)
    requires
        on_map(m, c.0, c.1),
        q == position_of(c),
    ensures
        q.x as int == c.0,
        q.y as int == c.1,
{
}

/// The cell two steps out along a king's step lies in row two of an
/// octant, at column zero or two, and half of it is the cell one step out.
proof fn lemma_two_steps(c: int, j: int, o: u8, dx: int, dy: int)
    requires
        o < 8,
        0 <= c <= j,
        j >= 1,
        -1 <= dx <= 1,
        -1 <= dy <= 1,
        octant_offset(c, j, o) == (2 * dx, 2 * dy),
    ensures
        j == 2,
        c == 0 || c == 2,
        octant_offset(c / 2, 1, o) == (dx, dy),
{
}

/// A blocking tile at the diagonal neighbour of an octant's first row hides
/// the cell two steps out on that diagonal from the octant's scan.
proof fn lemma_diagonal_shadow_octant(m: GameMap, p: Position, rad: i32, o: u8, q: Position)
    requires
        o < 8,
        blocks_at(m, p, rad, cell_of(p, 1, 1, o).0, cell_of(p, 1, 1, o).1),
        (q.x as int, q.y as int) == cell_of(p, 2, 2, o),
    ensures
        !scan_seen(m, p, rad, reach_of(rad), o, 1, (1, 1), (0, 1)).contains(q),
{
    let reach = reach_of(rad);
    let s = (1int, 1int);
    let e = (0int, 1int);
    let n = cell_of(p, 1, 1, o);
    let n0 = cell_of(p, 0, 1, o);
    let rr = rad as int;
    let d = octant_offset(1, 1, o);
    assert(d.0 == 1 || d.0 == -1);
    assert(d.1 == 1 || d.1 == -1);
    assert(n.0 - p.x == d.0 && n.1 - p.y == d.1);
    assert(d.0 * d.0 == 1 && d.1 * d.1 == 1) by (nonlinear_arith)
        requires
            d.0 == 1 || d.0 == -1,
            d.1 == 1 || d.1 == -1,
    ;
    assert(2 <= rr * rr);
    assert(reach >= 2) by (nonlinear_arith)
        requires
            2 <= rr * rr,
            reach == (if rr < 0 { -rr } else { rr }),
    ;
    let child1 = scan_seen(m, p, rad, reach, o, 2, s, upper_slope(1, 1));
    assert(child1 =~= Set::<Position>::empty());
    let rest0 = row_seen(m, p, rad, reach, o, 1, 0, s, e, lower_slope(1, 1), true);
    let out = row_seen(m, p, rad, reach, o, 1, 1, s, e, s, false);
    assert(out == (rest0.0.insert(position_of(n)).union(child1), rest0.1, rest0.2));
    let fin_stop = row_seen(m, p, rad, reach, o, 1, -1, s, e, lower_slope(1, 1), true);
    let fin_open = row_seen(m, p, rad, reach, o, 1, -1, lower_slope(1, 1), e, lower_slope(1, 1), false);
    let fin_opaque = row_seen(m, p, rad, reach, o, 1, -1, s, e, lower_slope(0, 1), true);
    assert(fin_stop == (Set::<Position>::empty(), s, true));
    assert(fin_open == (Set::<Position>::empty(), lower_slope(1, 1), false));
    assert(fin_opaque == (Set::<Position>::empty(), s, true));
    assert(forall|x: Position| #[trigger] rest0.0.contains(x) ==> x == position_of(n0) && on_map(m, n0.0, n0.1));
    assert(rest0.2 || rest0.1 == lower_slope(1, 1));
    if scan_seen(m, p, rad, reach, o, 1, s, e).contains(q) {
        assert(rows_seen(m, p, rad, reach, o, 1, s, e).contains(q));
        if out.0.contains(q) {
            if q == position_of(n) {
                lemma_position_of_cell(m, n, q);
            } else {
                assert(rest0.0.contains(q));
                lemma_position_of_cell(m, n0, q);
            }
        } else {
            assert(!out.2);
            lemma_rows_cells(m, p, rad, reach, o, 2, out.1, e, q);
            let (c, j) = choose|c: int, j: int| #[trigger] in_window(m, p, reach, o, 2, out.1, e, q, c, j);
            lemma_position_of_cell(m, cell_of(p, c, j, o), q);
        }
    }
}

/// A blocking tile at the straight neighbour of an octant's first row hides
/// the cell two steps out in that direction from the octant's scan.
proof fn lemma_straight_shadow_octant(m: GameMap, p: Position, rad: i32, o: u8, q: Position)
    requires
        o < 8,
        blocks_at(m, p, rad, cell_of(p, 0, 1, o).0, cell_of(p, 0, 1, o).1),
        (q.x as int, q.y as int) == cell_of(p, 0, 2, o),
    ensures
        !scan_seen(m, p, rad, reach_of(rad), o, 1, (1, 1), (0, 1)).contains(q),
{
    let reach = reach_of(rad);
    let s = (1int, 1int);
    let e = (0int, 1int);
    let n1 = cell_of(p, 1, 1, o);
    let n = cell_of(p, 0, 1, o);
    let rr = rad as int;
    let d = octant_offset(0, 1, o);
    assert((d.0 == 0 && (d.1 == 1 || d.1 == -1)) || (d.1 == 0 && (d.0 == 1 || d.0 == -1)));
    assert(n.0 - p.x == d.0 && n.1 - p.y == d.1);
    assert(d.0 * d.0 + d.1 * d.1 == 1) by (nonlinear_arith)
        requires
            (d.0 == 0 && (d.1 == 1 || d.1 == -1)) || (d.1 == 0 && (d.0 == 1 || d.0 == -1)),
    ;
    assert(1 <= rr * rr);
    assert(reach >= 1) by (nonlinear_arith)
        requires
            1 <= rr * rr,
            reach == (if rr < 0 { -rr } else { rr }),
    ;
    let child1 = scan_seen(m, p, rad, reach, o, 2, s, upper_slope(1, 1));
    assert(child1 =~= Set::<Position>::empty());
    let child0 = scan_seen(m, p, rad, reach, o, 2, s, upper_slope(0, 1));
    let open0 = row_seen(m, p, rad, reach, o, 1, 0, s, e, s, false);
    let shut0 = row_seen(m, p, rad, reach, o, 1, 0, s, e, lower_slope(1, 1), true);
    let out = row_seen(m, p, rad, reach, o, 1, 1, s, e, s, false);
    let end_shut = row_seen(m, p, rad, reach, o, 1, -1, s, e, lower_slope(0, 1), true);
    let end_open = row_seen(m, p, rad, reach, o, 1, -1, s, e, s, false);
    assert(end_shut == (Set::<Position>::empty(), s, true));
    assert(end_open == (Set::<Position>::empty(), s, false));
    assert(shut0 == (Set::<Position>::empty().insert(position_of(n)), s, true));
    if reach > 1 {
        assert(open0 == (Set::<Position>::empty().insert(position_of(n)).union(child0), s, true));
    } else {
        assert(open0 == (Set::<Position>::empty().insert(position_of(n)), s, false));
    }
    let v1 = on_map(m, n1.0, n1.1) && within(p, rad, n1.0, n1.1);
    assert(v1 ==> out.0 == open0.0.insert(position_of(n1)) || out.0 == shut0.0.insert(position_of(n1)).union(child1));
    assert(!v1 ==> out.0 == open0.0);
    assert(out.2 || reach == 1);
    assert(rows_seen(m, p, rad, reach, o, 2, out.1, e) =~= Set::<Position>::empty() || out.2);
    if scan_seen(m, p, rad, reach, o, 1, s, e).contains(q) {
        assert(rows_seen(m, p, rad, reach, o, 1, s, e).contains(q));
        assert(out.0.contains(q));
        if q == position_of(n) {
            lemma_position_of_cell(m, n, q);
        } else if v1 && q == position_of(n1) {
            lemma_position_of_cell(m, n1, q);
        } else {
            assert(child0.contains(q));
            lemma_scan_cells(m, p, rad, reach, o, 2, s, upper_slope(0, 1), q);
            let (c, j) = choose|c: int, j: int| #[trigger] in_window(m, p, reach, o, 2, s, upper_slope(0, 1), q, c, j);
            lemma_position_of_cell(m, cell_of(p, c, j, o), q);
        }
    }
}

/// A cell `k` steps out along a king's step lies in row `k` of an octant,
/// on its axis or its diagonal, and the same octant has the cell `jb` steps
/// out on that ray in row `jb`.
proof fn lemma_ray_cells(c: int, j: int, o: u8, dx: int, dy: int, k: int, jb: int)
    requires
        o < 8,
        0 <= c <= j,
        j >= 1,
        -1 <= dx <= 1,
        -1 <= dy <= 1,
        dx != 0 || dy != 0,
        k >= 1,
        jb >= 1,
        octant_offset(c, j, o) == (k * dx, k * dy),
    ensures
        j == k,
        c == 0 || c == k,
        octant_offset(if c == 0 { 0 } else { jb }, jb, o) == (jb * dx, jb * dy),
{
    assert(k * dx == (if dx == 1 { k } else if dx == -1 { -k } else { 0 })) by (nonlinear_arith)
        requires
            -1 <= dx <= 1,
    ;
    assert(k * dy == (if dy == 1 { k } else if dy == -1 { -k } else { 0 })) by (nonlinear_arith)
        requires
            -1 <= dy <= 1,
    ;
    assert(jb * dx == (if dx == 1 { jb } else if dx == -1 { -jb } else { 0 })) by (nonlinear_arith)
        requires
            -1 <= dx <= 1,
    ;
    assert(jb * dy == (if dy == 1 { jb } else if dy == -1 { -jb } else { 0 })) by (nonlinear_arith)
        requires
            -1 <= dy <= 1,
    ;
}

/// A cell nearer out on an axis or a diagonal casts its shadow over every
/// cell further out on it.
proof fn lemma_ray_shadow(j: int, k: int, diagonal: bool)
    requires
        1 <= j < k,
    ensures
        diagonal ==> shadowed_by(j, j, k, k),
        !diagonal ==> shadowed_by(0, j, 0, k),
{
    assert((2 * j - 1) * (2 * k) < (2 * k - 1) * (2 * j)) by (nonlinear_arith)
        requires
            1 <= j < k,
    ;
    assert((2 * k + 1) * (2 * j) < (2 * j + 1) * (2 * k)) by (nonlinear_arith)
        requires
            1 <= j < k,
    ;
    assert((2 * 0 - 1) * (2 * k) < (2 * 0 - 1) * (2 * j)) by (nonlinear_arith)
        requires
            1 <= j < k,
    ;
    assert((2 * 0 + 1) * (2 * j) < (2 * 0 + 1) * (2 * k)) by (nonlinear_arith)
        requires
            1 <= j < k,
    ;
}

/// The tile `j` king's steps out from the viewer in direction `(dx, dy)`
/// is on the map, within the radius and blocks sight, and `q` lies further
/// out, `k` steps, in the same direction.
pub open spec fn ray_blocked(m: GameMap, p: Position, rad: i32, q: Position, dx: int, dy: int, j: int, k: int) -> bool {
    &&& -1 <= dx <= 1
    &&& -1 <= dy <= 1
    &&& (dx != 0 || dy != 0)
    &&& 1 <= j < k
    &&& blocks_at(m, p, rad, p.x + j * dx, p.y + j * dy)
    &&& q.x == p.x + k * dx
    &&& q.y == p.y + k * dy
}

/// Some tile that blocks sight stands between the viewer and `q` on a ray
/// along an axis or a diagonal.
pub open spec fn behind_blocker(m: GameMap, p: Position, rad: i32, q: Position) -> bool {
    exists|dx: int, dy: int, j: int, k: int| #[trigger] ray_blocked(m, p, rad, q, dx, dy, j, k)
}

/// A tile that blocks sight hides every tile behind it on the same ray from
/// the viewer: if the tile `j` king's steps out in some direction is on the
/// map, within the radius and blocks sight, no tile further out in that
/// direction is in the field of view.
pub proof fn lemma_blocker_hides_ray(m: GameMap, p: Position, rad: i32, q: Position, dx: int, dy: int, j: int, k: int)
    requires
        -1 <= dx <= 1,
        -1 <= dy <= 1,
        dx != 0 || dy != 0,
        1 <= j < k,
        blocks_at(m, p, rad, p.x + j * dx, p.y + j * dy),
        q.x == p.x + k * dx,
        q.y == p.y + k * dy,
    ensures
        !view_set(m, p, rad).contains(q),
{
    if view_set(m, p, rad).contains(q) {
        lemma_octants_seen_from(m, p, rad, 8, q);
        assert(k * dx != 0 || k * dy != 0) by (nonlinear_arith)
            requires
                dx != 0 || dy != 0,
                k >= 1,
        ;
        assert(q != p);
        let o = choose|o: int| 0 <= o < 8 && #[trigger] scan_seen(m, p, rad, reach_of(rad), o as u8, 1, (1, 1), (0, 1)).contains(q);
        lemma_scan_unshadowed(m, p, rad, reach_of(rad), o as u8, 1, (1, 1), (0, 1), q);
        let (c, jj) = choose|c: int, jj: int| #[trigger] in_window(m, p, reach_of(rad), o as u8, 1, (1, 1), (0, 1), q, c, jj)
            && unshadowed(m, p, rad, o as u8, 1, c, jj);
        lemma_position_of_cell(m, cell_of(p, c, jj, o as u8), q);
        lemma_ray_cells(c, jj, o as u8, dx, dy, k, j);
        let c0 = if c == 0 { 0 } else { j };
        assert(cell_of(p, c0, j, o as u8) == (p.x + j * dx, p.y + j * dy));
        assert(cell_blocks(m, p, rad, o as u8, c0, j));
        lemma_ray_shadow(j, k, c != 0);
        assert(shadowed_by(c0, j, c, jj));
    }
}

/// The field of view holds the viewer and what the octant scans see.
proof fn lemma_octants_seen_from(m: GameMap, p: Position, rad: i32, k: int, q: Position)
    requires
        0 <= k <= 8,
        octants_seen(m, p, rad, k).contains(q),
    ensures
        q == p || exists|o: int| 0 <= o < k && #[trigger] scan_seen(m, p, rad, reach_of(rad), o as u8, 1, (1, 1), (0, 1)).contains(q),
    decreases k,
{
    if k > 0 && !scan_seen(m, p, rad, reach_of(rad), (k - 1) as u8, 1, (1, 1), (0, 1)).contains(q) {
        lemma_octants_seen_from(m, p, rad, k - 1, q);
    }
}

/// A tile next to the viewer that blocks sight hides the tile straight
/// behind it, two steps from the viewer in the same direction.
pub proof fn lemma_neighbour_casts_shadow(m: GameMap, p: Position, rad: i32, q: Position)
    requires
        behind_neighbour(m, p, rad, q),
    ensures
        !view_set(m, p, rad).contains(q),
{
    let dx = (q.x - p.x) / 2;
    let dy = (q.y - p.y) / 2;
    if view_set(m, p, rad).contains(q) {
        lemma_octants_seen_from(m, p, rad, 8, q);
        assert(q != p);
        let o = choose|o: int| 0 <= o < 8 && #[trigger] scan_seen(m, p, rad, reach_of(rad), o as u8, 1, (1, 1), (0, 1)).contains(q);
        lemma_scan_cells(m, p, rad, reach_of(rad), o as u8, 1, (1, 1), (0, 1), q);
        let (c, j) = choose|c: int, j: int| #[trigger] in_window(m, p, reach_of(rad), o as u8, 1, (1, 1), (0, 1), q, c, j);
        lemma_position_of_cell(m, cell_of(p, c, j, o as u8), q);
        lemma_two_steps(c, j, o as u8, dx, dy);
        if c == 2 {
            lemma_diagonal_shadow_octant(m, p, rad, o as u8, q);
        } else {
            lemma_straight_shadow_octant(m, p, rad, o as u8, q);
        }
    }
}

/// Whether `(x, y)` blocks sight: a wall, forest or tree, or no tile at all.
fn is_opaque(x: u32, y: u32, map: &GameMap) -> (r: bool)
    ensures
        r == !(map.tile_at(x, y) matches Some(t) && !blocks_sight(t.tile_type)),
{
    match map.get_tile(x, y) {
        Some(tile) => tile.tile_type == '#' || tile.tile_type == 'f' || tile.tile_type == 'T',
        None => true,
    }
}

/// Adds `p` to the set of positions unless it is already there.
fn insert_position(set: &mut Vec<Position>, p: Position)
    requires
        old(set)@.no_duplicates(),
    ensures
        final(set)@.no_duplicates(),
        forall|q: Position| final(set)@.contains(q) <==> (old(set)@.contains(q) || q == p),
        final(set)@.to_set() == old(set)@.to_set().insert(p),
{
    let mut i: usize = 0;
    while i < set.len()
        invariant
            i <= set@.len(),
            set@ == old(set)@,
            set@.no_duplicates(),
            forall|j: int| 0 <= j < i ==> set@[j] != p,
        decreases set@.len() - i,
    {
        if set[i].x == p.x && set[i].y == p.y {
            assert(set@.contains(p));
            assert(set@.to_set() =~= old(set)@.to_set().insert(p));
            return;
        }
        i = i + 1;
    }
    set.push(p);
    proof {
        assert forall|q: Position| set@.contains(q) <==> (old(set)@.contains(q) || q == p) by {
            if set@.contains(q) {
                let j = choose|j: int| 0 <= j < set@.len() && set@[j] == q;
                if j < old(set)@.len() {
                    assert(old(set)@[j] == q);
                }
            }
            if old(set)@.contains(q) {
                let j = choose|j: int| 0 <= j < old(set)@.len() && old(set)@[j] == q;
                assert(set@[j] == q);
            }
            if q == p {
                assert(set@[set@.len() - 1] == p);
            }
        }
        assert(set@.to_set() =~= old(set)@.to_set().insert(p));
    }
}

/// A slope's numerator and denominator stay small enough to compare exactly.
pub open spec fn slope_ok(s: (i64, i64)) -> bool {
    -1 <= s.0 <= 70000 && 1 <= s.1 <= 70000
}

/// The position of a cell, as a map position.
pub open spec fn position_of(c: (int, int)) -> Position {
    Position { x: c.0 as u32, y: c.1 as u32 }
}

proof fn lemma_small_product(a: int, b: int)
    requires
        -70000 <= a <= 70000,
        -70000 <= b <= 70000,
    ensures
        -4_900_000_000 <= a * b <= 4_900_000_000,
{
    assert(-4_900_000_000 <= a * b <= 4_900_000_000) by (nonlinear_arith)
        requires
            -70000 <= a <= 70000,
            -70000 <= b <= 70000,
    ;
}

proof fn lemma_square_bound(a: int, r: int)
    requires
        -r <= a <= r,
        0 <= r <= 32767,
    ensures
        0 <= a * a <= 32767 * 32767,
{
    assert(0 <= a * a <= r * r) by (nonlinear_arith)
        requires
            -r <= a <= r,
            0 <= r,
    ;
    assert(r * r <= 32767 * 32767) by (nonlinear_arith)
        requires
            0 <= r <= 32767,
    ;
}

/// What is left of a row's walk: nothing once the row has ended, else the
/// walk from column `col` down.
pub open spec fn row_rest(
    m: GameMap,
    p: Position,
    rad: i32,
    reach: int,
    o: u8,
    r: int,
    col: int,
    s: (int, int),
    e: (int, int),
    ns: (int, int),
    blocked: bool,
    done: bool,
) -> (Set<Position>, (int, int), bool) {
    if done {
        (Set::empty(), s, blocked)
    } else {
        row_seen(m, p, rad, reach, o, r, col, s, e, ns, blocked)
    }
}

/// Scans the rows of one octant from `row` outwards, between the slopes
/// `start` (upper) and `end` (lower), adding what it sees to `visible`.
/// An opaque tile casts a shadow: the part of the next rows behind it is
/// scanned by a recursive call bounded by the tile's edge.
#[verifier::spinoff_prover]
#[verifier::rlimit(40)]
fn scan(
    row: i32,
    start_slope: (i64, i64),
    end_slope: (i64, i64),
    player: Position,
    radius: i32,
    reach: i32,
    octant: u8,
    map: &GameMap,
    visible: &mut Vec<Position>,
)
    requires
        1 <= row <= reach + 1,
        0 <= reach <= 32767,
        -32767 <= radius <= 32767,
        radius * radius == reach * reach,
        player.x < 0x7fff_8000,
        player.y < 0x7fff_8000,
        slope_ok(start_slope),
        slope_ok(end_slope),
        old(visible)@.no_duplicates(),
    ensures
        final(visible)@.no_duplicates(),
        forall|q: Position| old(visible)@.contains(q) ==> final(visible)@.contains(q),
        forall|q: Position|
            #[trigger] final(visible)@.contains(q) ==> old(visible)@.contains(q) || (on_map(*map, q.x as int, q.y as int)
                && within(player, radius, q.x as int, q.y as int)),
        (clear_around(*map, player, radius) && start_slope == (1i64, 1i64) && end_slope == (0i64, 1i64)) ==> forall|
            j: int,
            c: int,
        |
            row <= j <= reach && 0 <= c <= j && on_map(*map, #[trigger] cell_of(player, c, j, octant).0, cell_of(player, c, j, octant).1)
                && within(player, radius, cell_of(player, c, j, octant).0, cell_of(player, c, j, octant).1) ==> final(visible)@.contains(
                position_of(cell_of(player, c, j, octant)),
            ),
        final(visible)@.to_set() == old(visible)@.to_set().union(
            scan_seen(*map, player, radius, reach as int, octant, row as int, slope_val(start_slope), slope_val(end_slope)),
        ),
    decreases reach - row + 1,
{
    let ghost clear_case = clear_around(*map, player, radius) && start_slope == (1i64, 1i64) && end_slope == (0i64, 1i64);
    proof {
        lemma_small_product(start_slope.0 as int, end_slope.1 as int);
        lemma_small_product(end_slope.0 as int, start_slope.1 as int);
    }
    let ghost total = rows_seen(*map, player, radius, reach as int, octant, row as int, slope_val(start_slope), slope_val(end_slope));
    if start_slope.0 * end_slope.1 < end_slope.0 * start_slope.1 {
        assert(visible@.to_set() =~= old(visible)@.to_set().union(Set::empty()));
        return;
    }
    assert(visible@.to_set().union(total) =~= old(visible)@.to_set().union(total));
    let mut start = start_slope;
    let mut r = row;
    let mut stop = false;
    while r <= reach && !stop
        invariant
            1 <= row <= r <= reach + 1,
            0 <= reach <= 32767,
            -32767 <= radius <= 32767,
            radius * radius == reach * reach,
            player.x < 0x7fff_8000,
            player.y < 0x7fff_8000,
            slope_ok(start),
            slope_ok(end_slope),
            visible@.no_duplicates(),
            forall|q: Position| old(visible)@.contains(q) ==> visible@.contains(q),
            forall|q: Position|
                #[trigger] visible@.contains(q) ==> old(visible)@.contains(q) || (on_map(*map, q.x as int, q.y as int)
                    && within(player, radius, q.x as int, q.y as int)),
            clear_case == (clear_around(*map, player, radius) && start_slope == (1i64, 1i64) && end_slope == (0i64, 1i64)),
            clear_case ==> start == (1i64, 1i64) && !stop && end_slope == (0i64, 1i64),
            clear_case ==> forall|j: int, c: int|
                row <= j < r && 0 <= c <= j && on_map(*map, #[trigger] cell_of(player, c, j, octant).0, cell_of(player, c, j, octant).1)
                    && within(player, radius, cell_of(player, c, j, octant).0, cell_of(player, c, j, octant).1) ==> visible@.contains(
                    position_of(cell_of(player, c, j, octant)),
                ),
            total == rows_seen(*map, player, radius, reach as int, octant, row as int, slope_val(start_slope), slope_val(end_slope)),
            visible@.to_set().union(
                if stop {
                    Set::empty()
                } else {
                    rows_seen(*map, player, radius, reach as int, octant, r as int, slope_val(start), slope_val(end_slope))
                },
            ) == old(visible)@.to_set().union(total),
        decreases reach - r + 1,
    {
        let ghost vrow = visible@;
        let ghost srow = start;
        let ghost rs = row_seen(*map, player, radius, reach as int, octant, r as int, r as int, slope_val(start), slope_val(end_slope), slope_val(start), false);
        let mut blocked = false;
        let mut next_start = start;
        let mut col: i32 = r;
        let mut row_done = false;
        while col >= 0 && !row_done
            invariant
                1 <= row <= r <= reach,
                -1 <= col,
                col <= r,
                -32767 <= radius <= 32767,
                0 <= reach <= 32767,
                radius * radius == reach * reach,
                player.x < 0x7fff_8000,
                player.y < 0x7fff_8000,
                slope_ok(start),
                slope_ok(next_start),
                slope_ok(end_slope),
                visible@.no_duplicates(),
                forall|q: Position| old(visible)@.contains(q) ==> visible@.contains(q),
                forall|q: Position|
                    #[trigger] visible@.contains(q) ==> old(visible)@.contains(q) || (on_map(*map, q.x as int, q.y as int)
                        && within(player, radius, q.x as int, q.y as int)),
                clear_case == (clear_around(*map, player, radius) && start_slope == (1i64, 1i64) && end_slope == (0i64, 1i64)),
                clear_case ==> start == (1i64, 1i64) && !blocked && !row_done && end_slope == (0i64, 1i64),
                clear_case ==> forall|j: int, c: int|
                    row <= j < r && 0 <= c <= j && on_map(*map, #[trigger] cell_of(player, c, j, octant).0, cell_of(player, c, j, octant).1)
                        && within(player, radius, cell_of(player, c, j, octant).0, cell_of(player, c, j, octant).1) ==> visible@.contains(
                        position_of(cell_of(player, c, j, octant)),
                    ),
                clear_case ==> forall|c: int|
                    col < c <= r && on_map(*map, #[trigger] cell_of(player, c, r as int, octant).0, cell_of(player, c, r as int, octant).1)
                        && within(player, radius, cell_of(player, c, r as int, octant).0, cell_of(player, c, r as int, octant).1) ==> visible@.contains(
                        position_of(cell_of(player, c, r as int, octant)),
                    ),
            rs == row_seen(*map, player, radius, reach as int, octant, r as int, r as int, slope_val(srow), slope_val(end_slope), slope_val(srow), false),
            ({
                let cur = row_rest(*map, player, radius, reach as int, octant, r as int, col as int, slope_val(start), slope_val(end_slope), slope_val(next_start), blocked, row_done);
                &&& visible@.to_set().union(cur.0) == vrow.to_set().union(rs.0)
                &&& cur.1 == rs.1
                &&& cur.2 == rs.2
            }),
            decreases col + 1,
        {
            let ghost vcol = visible@;
            let ghost cur0 = row_seen(*map, player, radius, reach as int, octant, r as int, col as int, slope_val(start), slope_val(end_slope), slope_val(next_start), blocked);
            let (dx, dy) = transform_octant(col, r, octant);
            proof {
                lemma_square_bound(dx as int, reach as int);
                lemma_square_bound(dy as int, reach as int);
                lemma_square_bound(radius as int, 32767);
            }
            let x = player.x as i32 + dx;
            let y = player.y as i32 + dy;
            let ghost mut added: Set<Position> = Set::empty();
            assert(cell_of(player, col as int, r as int, octant) == (x as int, y as int));
            let off_map = x < 0 || x >= map.width as i32 || y < 0 || y >= map.height as i32;
            let too_far = dx * dx + dy * dy > radius * radius;
            if !off_map && !too_far {
                let slope: (i64, i64) = (2 * (col as i64) - 1, 2 * (r as i64));
                let next_slope: (i64, i64) = (2 * (col as i64) + 1, 2 * (r as i64));
                proof {
                    lemma_small_product(slope.0 as int, start.1 as int);
                    lemma_small_product(start.0 as int, slope.1 as int);
                    lemma_small_product(next_slope.0 as int, end_slope.1 as int);
                    lemma_small_product(end_slope.0 as int, next_slope.1 as int);
                }
                if slope.0 * start.1 > start.0 * slope.1 {
                    // The cell lies wholly above the scanned range.
                } else if next_slope.0 * end_slope.1 < end_slope.0 * next_slope.1 {
                    // This cell and the rest of the row lie below it.
                    row_done = true;
                } else {
                    let pos = Position { x: x as u32, y: y as u32 };
                    proof {
                        assert(pos == position_of(cell_of(player, col as int, r as int, octant)));
                    }
                    insert_position(visible, pos);
                    proof {
                        added = Set::empty().insert(pos);
                    }
                    let opaque = is_opaque(pos.x, pos.y, map);
                    proof {
                        if clear_case {
                            assert(on_map(*map, x as int, y as int));
                            assert(within(player, radius, x as int, y as int));
                            assert(transparent(*map, x as int, y as int));
                            assert(!opaque);
                        }
                    }
                    if blocked {
                        if opaque {
                            next_start = slope;
                        } else {
                            blocked = false;
                            start = next_start;
                        }
                    } else if opaque && r < reach {
                        blocked = true;
                        scan(r + 1, start, next_slope, player, radius, reach, octant, map, visible);
                        proof {
                            added = added.union(
                                scan_seen(*map, player, radius, reach as int, octant, (r + 1) as int, slope_val(start), slope_val(next_slope)),
                            );
                        }
                        next_start = slope;
                    }
                }
            }
            col = col - 1;
            proof {
                let cur = row_rest(*map, player, radius, reach as int, octant, r as int, col as int, slope_val(start), slope_val(end_slope), slope_val(next_start), blocked, row_done);
                assert(visible@.to_set() =~= vcol.to_set().union(added));
                assert(cur0.0 =~= cur.0.union(added));
                assert(cur0.1 == cur.1 && cur0.2 == cur.2);
                assert(visible@.to_set().union(cur.0) =~= vrow.to_set().union(rs.0));
            }
        }
        proof {
            assert(visible@.to_set() =~= vrow.to_set().union(rs.0));
        }
        if blocked {
            stop = true;
        }
        r = r + 1;
        proof {
            let later = if stop {
                Set::empty()
            } else {
                rows_seen(*map, player, radius, reach as int, octant, r as int, slope_val(start), slope_val(end_slope))
            };
            assert(rows_seen(*map, player, radius, reach as int, octant, (r - 1) as int, slope_val(srow), slope_val(end_slope))
                =~= rs.0.union(later));
            assert(visible@.to_set().union(later) =~= old(visible)@.to_set().union(total));
        }
    }
    proof {
        assert(visible@.to_set() =~= old(visible)@.to_set().union(total));
    }
}

/// Picks an octant, column and row whose cell is at offset `(dx, dy)`.
proof fn lemma_octant_cover(dx: int, dy: int) -> (r: (u8, int, int))
    requires
        dx != 0 || dy != 0,
    ensures
        r.0 < 8,
        0 <= r.1 <= r.2,
        r.2 >= 1,
        r.2 * r.2 <= dx * dx + dy * dy,
        octant_offset(r.1, r.2, r.0) == (dx, dy),
{
    let ax = if dx >= 0 { dx } else { -dx };
    let ay = if dy >= 0 { dy } else { -dy };
    assert(ax * ax == dx * dx) by (nonlinear_arith)
        requires
            ax == dx || ax == -dx,
    ;
    assert(ay * ay == dy * dy) by (nonlinear_arith)
        requires
            ay == dy || ay == -dy,
    ;
    assert(0 <= ax * ax && 0 <= ay * ay) by (nonlinear_arith);
    if ax <= ay {
        let o: u8 = if dx >= 0 && dy < 0 {
            0
        } else if dx >= 0 {
            3
        } else if dy >= 0 {
            4
        } else {
            7
        };
        (o, ax, ay)
    } else {
        let o: u8 = if dy <= 0 && dx > 0 {
            1
        } else if dx > 0 {
            2
        } else if dy > 0 {
            5
        } else {
            6
        };
        (o, ay, ax)
    }
}

/// The larger of the absolute values of `dx` and `dy`: the ring, counted
/// in king's steps, that the offset lies on.
pub open spec fn ring_of(dx: int, dy: int) -> int {
    let ax = if dx >= 0 { dx } else { -dx };
    let ay = if dy >= 0 { dy } else { -dy };
    if ax >= ay { ax } else { ay }
}

/// The eight octants cover each ring around the viewer: every offset on
/// ring `r` is the cell of row `r`, at some column from 0 to `r`, of some
/// octant; and every such cell lies on ring `r`, at the squared distance
/// of its column and row.
pub proof fn lemma_octants_cover_ring(dx: int, dy: int, r: int, o: u8, c: int)
    requires
        r >= 1,
    ensures
        ring_of(dx, dy) == r ==> exists|o2: u8, c2: int|
            o2 < 8 && 0 <= c2 <= r && #[trigger] octant_offset(c2, r, o2) == (dx, dy),
        o < 8 && 0 <= c <= r ==> ring_of(octant_offset(c, r, o).0, octant_offset(c, r, o).1) == r && octant_offset(c, r, o).0
            * octant_offset(c, r, o).0 + octant_offset(c, r, o).1 * octant_offset(c, r, o).1 == c * c + r * r,
{
    if ring_of(dx, dy) == r {
        let (o2, c2, j2) = lemma_octant_cover(dx, dy);
        assert(j2 == r);
        assert(octant_offset(c2, r, o2) == (dx, dy));
    }
    if o < 8 && 0 <= c <= r {
        let d = octant_offset(c, r, o);
        assert((d.0 == c || d.0 == -c || d.0 == r || d.0 == -r) && (d.1 == c || d.1 == -c || d.1 == r || d.1 == -r));
        assert(d.0 * d.0 + d.1 * d.1 == c * c + r * r) by (nonlinear_arith)
            requires
                (d.0 == c || d.0 == -c) && (d.1 == r || d.1 == -r) || (d.0 == r || d.0 == -r) && (d.1 == c || d.1 == -c),
        ;
    }
}

/// Every position that the viewer at `player_pos` can see within `radius`,
/// by recursive shadowcasting: exactly [`view_set`], the viewer's own
/// position and what the scans of the eight octants see. Each octant is
/// scanned row by row; an opaque tile (wall, forest, tree) is itself seen
/// and hides what lies behind it. So only map positions within the radius
/// are seen, all of them where nothing blocks sight, and a blocking tile at
/// any distance hides every tile behind it on its ray along an axis or a
/// diagonal.
pub fn field_of_view(player_pos: &Position, radius: i32, map: &GameMap) -> (r: Vec<Position>)
    requires
        player_pos.x < 0x7fff_8000,
        player_pos.y < 0x7fff_8000,
        -32767 <= radius <= 32767,
    ensures
        r@.no_duplicates(),
        r@.contains(*player_pos),
        forall|q: Position|
            #[trigger] r@.contains(q) ==> q == *player_pos || (on_map(*map, q.x as int, q.y as int) && within(
                *player_pos,
                radius,
                q.x as int,
                q.y as int,
            )),
        clear_around(*map, *player_pos, radius) ==> forall|q: Position|
            on_map(*map, q.x as int, q.y as int) && within(*player_pos, radius, q.x as int, q.y as int)
                ==> #[trigger] r@.contains(q),
        r@.to_set() == view_set(*map, *player_pos, radius),
        forall|q: Position| #[trigger] behind_neighbour(*map, *player_pos, radius, q) ==> !r@.contains(q),
        forall|q: Position| #[trigger] behind_blocker(*map, *player_pos, radius, q) ==> !r@.contains(q),
{
    let mut visible_tiles: Vec<Position> = Vec::new();
    visible_tiles.push(*player_pos);
    assert(visible_tiles@[0] == *player_pos);
    let reach: i32 = if radius < 0 { -radius } else { radius };
    assert(radius * radius == reach * reach) by (nonlinear_arith)
        requires
            reach == radius || reach == -radius,
    ;
    let player = *player_pos;
    assert(visible_tiles@.to_set() =~= octants_seen(*map, player, radius, 0));
    let mut octant: u8 = 0;
    while octant < 8
        invariant
            octant <= 8,
            0 <= reach <= 32767,
            -32767 <= radius <= 32767,
            radius * radius == reach * reach,
            player == *player_pos,
            player.x < 0x7fff_8000,
            player.y < 0x7fff_8000,
            visible_tiles@.no_duplicates(),
            visible_tiles@.contains(player),
            forall|q: Position|
                #[trigger] visible_tiles@.contains(q) ==> q == player || (on_map(*map, q.x as int, q.y as int) && within(
                    player,
                    radius,
                    q.x as int,
                    q.y as int,
                )),
            clear_around(*map, player, radius) ==> forall|o: u8, j: int, c: int|
                o < octant && 1 <= j <= reach && 0 <= c <= j && on_map(*map, #[trigger] cell_of(player, c, j, o).0, cell_of(player, c, j, o).1)
                    && within(player, radius, cell_of(player, c, j, o).0, cell_of(player, c, j, o).1) ==> visible_tiles@.contains(
                    position_of(cell_of(player, c, j, o)),
                ),
            reach == reach_of(radius),
            visible_tiles@.to_set() == octants_seen(*map, player, radius, octant as int),
        decreases 8 - octant,
    {
        let ghost before = visible_tiles@;
        scan(1, (1, 1), (0, 1), player, radius, reach, octant, map, &mut visible_tiles);
        proof {
            assert forall|q: Position| #[trigger] visible_tiles@.contains(q) implies q == player || (on_map(*map, q.x as int, q.y as int) && within(
                player,
                radius,
                q.x as int,
                q.y as int,
            )) by {
                if before.contains(q) {
                }
            }
        }
        proof {
            assert(slope_val((1i64, 1i64)) == (1int, 1int));
            assert(slope_val((0i64, 1i64)) == (0int, 1int));
            assert(((octant as int + 1) - 1) as u8 == octant);
            assert(visible_tiles@.to_set() =~= octants_seen(*map, player, radius, octant as int + 1));
        }
        octant = octant + 1;
    }
    proof {
        if clear_around(*map, player, radius) {
            assert forall|q: Position| on_map(*map, q.x as int, q.y as int) && within(player, radius, q.x as int, q.y as int)
                implies #[trigger] visible_tiles@.contains(q) by {
                if q != player {
                    let dx = q.x - player.x;
                    let dy = q.y - player.y;
                    if dx == 0 && dy == 0 {
                        assert(q.x == player.x && q.y == player.y);
                    } else {
                        let (o, c, j) = lemma_octant_cover(dx, dy);
                        assert(j * j <= reach * reach);
                        assert(j <= reach) by (nonlinear_arith)
                            requires
                                j * j <= reach * reach,
                                j >= 1,
                                reach >= 0,
                        ;
                        assert(cell_of(player, c, j, o) == (q.x as int, q.y as int));
                        assert(position_of(cell_of(player, c, j, o)) == q);
                    }
                }
            }
        }
    }
    proof {
        assert forall|q: Position| #[trigger] behind_neighbour(*map, *player_pos, radius, q) implies !visible_tiles@.contains(q) by {
            lemma_neighbour_casts_shadow(*map, *player_pos, radius, q);
            assert(!visible_tiles@.to_set().contains(q));
        }
        assert forall|q: Position| #[trigger] behind_blocker(*map, *player_pos, radius, q) implies !visible_tiles@.contains(q) by {
            let (dx, dy, j, k) = choose|dx: int, dy: int, j: int, k: int| #[trigger] ray_blocked(*map, *player_pos, radius, q, dx, dy, j, k);
            lemma_blocker_hides_ray(*map, *player_pos, radius, q, dx, dy, j, k);
            assert(!visible_tiles@.to_set().contains(q));
        }
    }
    visible_tiles
}

} // verus!
