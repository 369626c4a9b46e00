//! A* search over an agent's remembered map.

use vstd::prelude::*;
use crate::brain::MemoryTile;

verus! {

/// `p` lies on a `width` by `height` map.
pub open spec fn in_bounds(p: (u32, u32), width: u32, height: u32) -> bool {
    p.0 < width && p.1 < height
}

/// Terrain that no one can walk through: walls, trees and mountains.
pub open spec fn blocks_movement(t: char) -> bool {
    t == '#' || t == 'T' || t == 'M'
}

/// The agent remembers `p` and remembers it as impassable; a tile it does
/// not remember counts as passable.
pub open spec fn known_impassable(mental_map: Seq<Vec<Option<MemoryTile>>>, p: (u32, u32)) -> bool {
    &&& (p.1 as int) < mental_map.len()
    &&& (p.0 as int) < mental_map[p.1 as int]@.len()
    &&& mental_map[p.1 as int]@[p.0 as int] matches Some(t)
    &&& blocks_movement(t.tile.tile_type)
}

/// `b` is one of the four orthogonal neighbours of `a`.
pub open spec fn adjacent(a: (u32, u32), b: (u32, u32)) -> bool {
    ||| b.0 == a.0 && (b.1 == a.1 + 1 || a.1 == b.1 + 1)
    ||| b.1 == a.1 && (b.0 == a.0 + 1 || a.0 == b.0 + 1)
}

/// One move from `a` to `b`: to an orthogonal neighbour on the map that is
/// not known to be impassable.
pub open spec fn step(
    mental_map: Seq<Vec<Option<MemoryTile>>>,
    width: u32,
    height: u32,
    a: (u32, u32),
    b: (u32, u32),
) -> bool {
    adjacent(a, b) && in_bounds(b, width, height) && !known_impassable(mental_map, b)
}

/// `path` walks from `start` to `goal`, one move at a time.
pub open spec fn is_path(
    mental_map: Seq<Vec<Option<MemoryTile>>>,
    width: u32,
    height: u32,
    start: (u32, u32),
    goal: (u32, u32),
    path: Seq<(u32, u32)>,
) -> bool {
    &&& path.len() >= 1
    &&& path[0] == start
    &&& path.last() == goal
    &&& forall|i: int| 0 <= i < path.len() - 1 ==> #[trigger] step(mental_map, width, height, path[i], path[i + 1])
}

/// Some path leads from `start` to `goal`.
pub open spec fn reachable(
    mental_map: Seq<Vec<Option<MemoryTile>>>,
    width: u32,
    height: u32,
    start: (u32, u32),
    goal: (u32, u32),
) -> bool {
    exists|path: Seq<(u32, u32)>| is_path(mental_map, width, height, start, goal, path)
}

/// The `k`-th candidate neighbour of `p`, in the order down, up, right, left
/// of the map's rows and columns.
pub open spec fn candidate(p: (u32, u32), k: int) -> (int, int) {
    if k == 0 {
        (p.0 as int, p.1 + 1)
    } else if k == 1 {
        (p.0 as int, p.1 - 1)
    } else if k == 2 {
        (p.0 + 1, p.1 as int)
    } else {
        (p.0 - 1, p.1 as int)
    }
}

/// The candidate lies on the map and is not known to be impassable.
pub open spec fn candidate_open(
    mental_map: Seq<Vec<Option<MemoryTile>>>,
    width: u32,
    height: u32,
    p: (u32, u32),
    k: int,
) -> bool {
    let c = candidate(p, k);
    0 <= c.0 < width && 0 <= c.1 < height && !known_impassable(mental_map, (c.0 as u32, c.1 as u32))
}

/// The open candidates among the first `k`, in candidate order.
pub open spec fn neighbors_upto(
    mental_map: Seq<Vec<Option<MemoryTile>>>,
    width: u32,
    height: u32,
    p: (u32, u32),
    k: int,
) -> Seq<(u32, u32)>
    decreases k,
{
    if k <= 0 {
        Seq::empty()
    } else {
        let prev = neighbors_upto(mental_map, width, height, p, k - 1);
        if candidate_open(mental_map, width, height, p, k - 1) {
            let c = candidate(p, k - 1);
            prev.push((c.0 as u32, c.1 as u32))
        } else {
            prev
        }
    }
}

/// The positions one move away from `p`, in candidate order.
pub open spec fn neighbors(
    mental_map: Seq<Vec<Option<MemoryTile>>>,
    width: u32,
    height: u32,
    p: (u32, u32),
) -> Seq<(u32, u32)> {
    neighbors_upto(mental_map, width, height, p, 4)
}

/// The neighbour list holds exactly the positions one move away.
pub proof fn lemma_neighbors_are_steps(
    mental_map: Seq<Vec<Option<MemoryTile>>>,
    width: u32,
    height: u32,
    p: (u32, u32),
)
    ensures
        forall|b: (u32, u32)|
            neighbors(mental_map, width, height, p).contains(b) <==> #[trigger] step(
                mental_map,
                width,
                height,
                p,
                b,
            ),
{
    let n0 = neighbors_upto(mental_map, width, height, p, 0);
    let n1 = neighbors_upto(mental_map, width, height, p, 1);
    let n2 = neighbors_upto(mental_map, width, height, p, 2);
    let n3 = neighbors_upto(mental_map, width, height, p, 3);
    let n4 = neighbors_upto(mental_map, width, height, p, 4);
    assert forall|b: (u32, u32)| n4.contains(b) <==> #[trigger] step(mental_map, width, height, p, b) by {
        let in_k = |k: int| candidate_open(mental_map, width, height, p, k) && candidate(p, k) == (b.0 as int, b.1 as int);
        assert(n1.contains(b) <==> in_k(0)) by {
            if n1.contains(b) {
                let i = choose|i: int| 0 <= i < n1.len() && n1[i] == b;
            }
            if in_k(0) {
                assert(n1[n1.len() - 1] == b);
            }
        }
        assert(n2.contains(b) <==> (in_k(0) || in_k(1))) by {
            if n2.contains(b) {
                let i = choose|i: int| 0 <= i < n2.len() && n2[i] == b;
                if i < n1.len() {
                    assert(n1[i] == b);
                }
            }
            if in_k(0) {
                let i = choose|i: int| 0 <= i < n1.len() && n1[i] == b;
                assert(n2[i] == b);
            }
            if in_k(1) {
                assert(n2[n2.len() - 1] == b);
            }
        }
        assert(n3.contains(b) <==> (in_k(0) || in_k(1) || in_k(2))) by {
            if n3.contains(b) {
                let i = choose|i: int| 0 <= i < n3.len() && n3[i] == b;
                if i < n2.len() {
                    assert(n2[i] == b);
                }
            }
            if in_k(0) || in_k(1) {
                let i = choose|i: int| 0 <= i < n2.len() && n2[i] == b;
                assert(n3[i] == b);
            }
            if in_k(2) {
                assert(n3[n3.len() - 1] == b);
            }
        }
        assert(n4.contains(b) <==> (in_k(0) || in_k(1) || in_k(2) || in_k(3))) by {
            if n4.contains(b) {
                let i = choose|i: int| 0 <= i < n4.len() && n4[i] == b;
                if i < n3.len() {
                    assert(n3[i] == b);
                }
            }
            if in_k(0) || in_k(1) || in_k(2) {
                let i = choose|i: int| 0 <= i < n3.len() && n3[i] == b;
                assert(n4[i] == b);
            }
            if in_k(3) {
                assert(n4[n4.len() - 1] == b);
            }
        }
    }
}

/// Whether the agent remembers `(x, y)` as impassable.
fn is_known_impassable(mental_map: &Vec<Vec<Option<MemoryTile>>>, x: u32, y: u32) -> (r: bool)
    ensures
        r == known_impassable(mental_map@, (x, y)),
{
    let yu = y as usize;
    let xu = x as usize;
    if yu < mental_map.len() && xu < mental_map[yu].len() {
        match &mental_map[yu][xu] {
            Some(memory_tile) => {
                let t = memory_tile.tile.tile_type;
                t == '#' || t == 'T' || t == 'M'
            },
            None => false,
        }
    } else {
        false
    }
}

fn push_if_open(
    neighbors: &mut Vec<(u32, u32)>,
    new_x: i32,
    new_y: i32,
    mental_map: &Vec<Vec<Option<MemoryTile>>>,
    width: u32,
    height: u32,
)
    ensures
        final(neighbors)@ == if 0 <= new_x < width && 0 <= new_y < height && !known_impassable(
            mental_map@,
            (new_x as u32, new_y as u32),
        ) {
            old(neighbors)@.push((new_x as u32, new_y as u32))
        } else {
            old(neighbors)@
        },
{
    if new_x >= 0 && (new_x as i64) < (width as i64) && new_y >= 0 && (new_y as i64) < (height as i64) {
        let new_pos = (new_x as u32, new_y as u32);
        if !is_known_impassable(mental_map, new_pos.0, new_pos.1) {
            neighbors.push(new_pos);
        }
    }
}

/// The positions one move away from `position`: its orthogonal neighbours
/// on the map, unless the agent remembers them as impassable.
pub fn get_neighbors(
    position: (u32, u32),
    mental_map: &Vec<Vec<Option<MemoryTile>>>,
    width: u32,
    height: u32,
) -> (r: Vec<(u32, u32)>)
    requires
        position.0 < 0x7fff_ffff,
        position.1 < 0x7fff_ffff,
    ensures
        r@ == neighbors(mental_map@, width, height, position),
{
    let mut neighbors: Vec<(u32, u32)> = Vec::new();
    let (x, y) = position;
    let xi = x as i32;
    let yi = y as i32;
    push_if_open(&mut neighbors, xi, yi + 1, mental_map, width, height);
    push_if_open(&mut neighbors, xi, yi - 1, mental_map, width, height);
    push_if_open(&mut neighbors, xi + 1, yi, mental_map, width, height);
    push_if_open(&mut neighbors, xi - 1, yi, mental_map, width, height);
    proof {
        reveal_with_fuel(neighbors_upto, 5);
    }
    neighbors
}

/// The absolute value of a difference of two integers.
pub open spec fn abs_diff(a: int, b: int) -> int {
    if a >= b {
        a - b
    } else {
        b - a
    }
}

/// The Manhattan distance between two positions, with coordinates read as
/// `i32` the way the estimate computes them.
pub open spec fn manhattan(a: (u32, u32), b: (u32, u32)) -> int {
    abs_diff(a.0 as i32 as int, b.0 as i32 as int) + abs_diff(a.1 as i32 as int, b.1 as i32 as int)
}

/// The Manhattan-distance estimate between two positions.
pub fn heuristic(a: (u32, u32), b: (u32, u32)) -> (r: u32)
    requires
        i32::MIN <= (a.0 as i32) - (b.0 as i32) <= i32::MAX,
        i32::MIN <= (a.1 as i32) - (b.1 as i32) <= i32::MAX,
        manhattan(a, b) <= u32::MAX,
    ensures
        r == manhattan(a, b),
{
    let dx: i32 = (a.0 as i32) - (b.0 as i32);
    let dy: i32 = (a.1 as i32) - (b.1 as i32);
    let ax: u32 = if dx >= 0 {
        dx as u32
    } else {
        (-(dx as i64)) as u32
    };
    let ay: u32 = if dy >= 0 {
        dy as u32
    } else {
        (-(dy as i64)) as u32
    };
    ax + ay
}

/// The cell of an on-map position in a row-major table.
pub open spec fn cell(p: (u32, u32), width: u32) -> int {
    p.1 as int * width as int + p.0 as int
}

/// The sentinel for a cell whose cost is not yet known.
pub open spec fn unknown_cost() -> u32 {
    u32::MAX
}

/// The search has a cost for `p`: an on-map position whose cell holds one.
pub open spec fn has_cost(g: Seq<u32>, width: u32, height: u32, p: (u32, u32)) -> bool {
    in_bounds(p, width, height) && g[cell(p, width)] != unknown_cost()
}

/// `p` has been reached: it is the start or has a cost.
pub open spec fn reached(g: Seq<u32>, width: u32, height: u32, start: (u32, u32), p: (u32, u32)) -> bool {
    p == start || has_cost(g, width, height, p)
}

/// The cost recorded for a reached position; an off-map start costs nothing.
pub open spec fn cost(g: Seq<u32>, width: u32, height: u32, p: (u32, u32)) -> int {
    if in_bounds(p, width, height) {
        g[cell(p, width)] as int
    } else {
        0
    }
}

/// How many cells hold a cost.
pub open spec fn count_known(g: Seq<u32>) -> nat
    decreases g.len(),
{
    if g.len() == 0 {
        0
    } else {
        count_known(g.drop_last()) + if g.last() != unknown_cost() {
            1nat
        } else {
            0nat
        }
    }
}

/// The sum, over the cells, of the cost or `cap` for an unknown cost.
pub open spec fn potential(g: Seq<u32>, cap: nat) -> nat
    decreases g.len(),
{
    if g.len() == 0 {
        0
    } else {
        potential(g.drop_last(), cap) + if g.last() == unknown_cost() {
            cap
        } else {
            g.last() as nat
        }
    }
}

proof fn lemma_count_known_bound(g: Seq<u32>)
    ensures
        count_known(g) <= g.len(),
    decreases g.len(),
{
    if g.len() > 0 {
        lemma_count_known_bound(g.drop_last());
    }
}

proof fn lemma_count_known_unknown(g: Seq<u32>, i: int)
    requires
        0 <= i < g.len(),
        g[i] == unknown_cost(),
    ensures
        count_known(g) < g.len(),
    decreases g.len(),
{
    if i < g.len() - 1 {
        lemma_count_known_unknown(g.drop_last(), i);
    } else {
        lemma_count_known_bound(g.drop_last());
    }
}

proof fn lemma_update(g: Seq<u32>, i: int, v: u32, cap: nat)
    requires
        0 <= i < g.len(),
    ensures
        count_known(g.update(i, v)) == count_known(g) - (if g[i] != unknown_cost() {
            1int
        } else {
            0int
        }) + (if v != unknown_cost() {
            1int
        } else {
            0int
        }),
        potential(g.update(i, v), cap) == potential(g, cap) - (if g[i] == unknown_cost() {
            cap as int
        } else {
            g[i] as int
        }) + (if v == unknown_cost() {
            cap as int
        } else {
            v as int
        }),
    decreases g.len(),
{
    let u = g.update(i, v);
    if i < g.len() - 1 {
        lemma_update(g.drop_last(), i, v, cap);
        assert(u.drop_last() =~= g.drop_last().update(i, v));
    } else {
        assert(u.drop_last() =~= g.drop_last());
    }
}

proof fn lemma_cell_bounds(p: (u32, u32), width: u32, height: u32)
    requires
        in_bounds(p, width, height),
    ensures
        0 <= cell(p, width) < (width as int) * (height as int),
{
    assert((p.1 as int * width as int + p.0 as int) < width as int * height as int) by (nonlinear_arith)
        requires
            p.0 < width,
            p.1 < height,
    ;
    assert(0 <= p.1 as int * width as int) by (nonlinear_arith);
}

proof fn lemma_cell_injective(p: (u32, u32), q: (u32, u32), width: u32, height: u32)
    requires
        in_bounds(p, width, height),
        in_bounds(q, width, height),
        cell(p, width) == cell(q, width),
    ensures
        p == q,
{
    if p.1 < q.1 {
        assert((p.1 as int * width as int + p.0 as int) < q.1 as int * width as int) by (nonlinear_arith)
            requires
                p.0 < width,
                p.1 < q.1,
        ;
    } else if q.1 < p.1 {
        assert((q.1 as int * width as int + q.0 as int) < p.1 as int * width as int) by (nonlinear_arith)
            requires
                q.0 < width,
                q.1 < p.1,
        ;
    }
}

proof fn lemma_cell_distinct(p: (u32, u32), q: (u32, u32), width: u32, height: u32)
    requires
        in_bounds(p, width, height),
        in_bounds(q, width, height),
        p != q,
    ensures
        cell(p, width) != cell(q, width),
        0 <= cell(p, width) < (width as int) * (height as int),
        0 <= cell(q, width) < (width as int) * (height as int),
{
    lemma_cell_bounds(p, width, height);
    lemma_cell_bounds(q, width, height);
    if cell(p, width) == cell(q, width) {
        lemma_cell_injective(p, q, width, height);
    }
}

/// Some entry of the open list is at `p`.
pub open spec fn queued(open: Seq<((u32, u32), u32)>, p: (u32, u32)) -> bool {
    exists|i: int| 0 <= i < open.len() && (#[trigger] open[i]).0 == p
}

/// If every move out of a reached position leads to a reached position,
/// then every position along a path from the start is reached.
proof fn lemma_closed_set_holds_paths(
    mental_map: Seq<Vec<Option<MemoryTile>>>,
    width: u32,
    height: u32,
    g: Seq<u32>,
    start: (u32, u32),
    goal: (u32, u32),
    path: Seq<(u32, u32)>,
    i: int,
)
    requires
        is_path(mental_map, width, height, start, goal, path),
        0 <= i < path.len(),
        forall|p: (u32, u32), b: (u32, u32)|
            #[trigger] reached(g, width, height, start, p) && #[trigger] step(mental_map, width, height, p, b)
                ==> reached(g, width, height, start, b),
    ensures
        reached(g, width, height, start, path[i]),
    decreases i,
{
    if i > 0 {
        lemma_closed_set_holds_paths(mental_map, width, height, g, start, goal, path, i - 1);
        let j = i - 1;
        assert(step(mental_map, width, height, path[j], path[j + 1]));
        assert(path[j + 1] == path[i]);
    }
}

proof fn lemma_count_known_none(g: Seq<u32>)
    requires
        forall|j: int| 0 <= j < g.len() ==> g[j] == unknown_cost(),
    ensures
        count_known(g) == 0,
    decreases g.len(),
{
    if g.len() > 0 {
        lemma_count_known_none(g.drop_last());
    }
}

/// The index of an entry with the least estimate.
fn index_of_min(open: &Vec<((u32, u32), u32)>) -> (r: usize)
    requires
        open@.len() > 0,
    ensures
        r < open@.len(),
        forall|i: int| 0 <= i < open@.len() ==> open@[r as int].1 <= #[trigger] open@[i].1,
{
    let mut best: usize = 0;
    let mut i: usize = 1;
    while i < open.len()
        invariant
            1 <= i <= open@.len(),
            best < open@.len(),
            forall|j: int| 0 <= j < i ==> open@[best as int].1 <= #[trigger] open@[j].1,
        decreases open@.len() - i,
    {
        if open[i].1 < open[best].1 {
            best = i;
        }
        i = i + 1;
    }
    best
}

/// The start's cell, when on the map, costs nothing.
#[verifier::opaque]
pub open spec fn inv_start(g: Seq<u32>, width: u32, height: u32, start: (u32, u32)) -> bool {
    in_bounds(start, width, height) ==> g[cell(start, width)] == 0
}

/// Every recorded cost is below the number of reached positions.
#[verifier::opaque]
pub open spec fn inv_bound(g: Seq<u32>, width: u32, height: u32, off: nat) -> bool {
    forall|p: (u32, u32)|
        #[trigger] has_cost(g, width, height, p) ==> g[cell(p, width)] < count_known(g) + off
}

/// Every position with a cost, other than the start, records a reached
/// predecessor of lower cost from which it is one move away.
#[verifier::opaque]
pub open spec fn inv_came(
    mental_map: Seq<Vec<Option<MemoryTile>>>,
    g: Seq<u32>,
    came: Seq<(u32, u32)>,
    width: u32,
    height: u32,
    start: (u32, u32),
) -> bool {
    forall|p: (u32, u32)|
        #[trigger] has_cost(g, width, height, p) && p != start ==> {
            let q = came[cell(p, width)];
            &&& reached(g, width, height, start, q)
            &&& cost(g, width, height, q) < g[cell(p, width)]
            &&& step(mental_map, width, height, q, p)
        }
}

/// Every queued entry is at a reached position.
#[verifier::opaque]
pub open spec fn inv_open(g: Seq<u32>, open: Seq<((u32, u32), u32)>, width: u32, height: u32, start: (u32, u32)) -> bool {
    forall|i: int| 0 <= i < open.len() ==> reached(g, width, height, start, (#[trigger] open[i]).0)
}

/// Every move out of a reached position that is no longer queued (other
/// than `exempt`) leads to a reached position.
#[verifier::opaque]
pub open spec fn inv_closed(
    mental_map: Seq<Vec<Option<MemoryTile>>>,
    g: Seq<u32>,
    open: Seq<((u32, u32), u32)>,
    width: u32,
    height: u32,
    start: (u32, u32),
    exempt: Option<(u32, u32)>,
) -> bool {
    forall|p: (u32, u32), b: (u32, u32)|
        #[trigger] reached(g, width, height, start, p) && #[trigger] step(mental_map, width, height, p, b)
            && !queued(open, p) && exempt != Some(p) ==> reached(g, width, height, start, b)
}

/// A reached goal is queued.
#[verifier::opaque]
pub open spec fn inv_goal(g: Seq<u32>, open: Seq<((u32, u32), u32)>, width: u32, height: u32, start: (u32, u32), goal: (u32, u32)) -> bool {
    reached(g, width, height, start, goal) ==> queued(open, goal)
}

/// Some queued entry at `p` estimates exactly its recorded cost plus its
/// distance to the goal.
pub open spec fn fresh(
    g: Seq<u32>,
    open: Seq<((u32, u32), u32)>,
    width: u32,
    height: u32,
    goal: (u32, u32),
    p: (u32, u32),
) -> bool {
    exists|i: int| 0 <= i < open.len() && (#[trigger] open[i]).0 == p && open[i].1 <= cost(g, width, height, p) + manhattan(p, goal)
}

/// No queued entry estimates less than its position's cost plus its
/// distance to the goal.
#[verifier::opaque]
pub open spec fn inv_estimates(g: Seq<u32>, open: Seq<((u32, u32), u32)>, width: u32, height: u32, goal: (u32, u32)) -> bool {
    forall|i: int| 0 <= i < open.len() ==> (#[trigger] open[i]).1 >= cost(g, width, height, open[i].0) + manhattan(open[i].0, goal)
}

/// Every move out of a reached position without a fresh entry (other than
/// `exempt`) leads to a reached position that costs at most one more.
#[verifier::opaque]
pub open spec fn inv_tight(
    mental_map: Seq<Vec<Option<MemoryTile>>>,
    g: Seq<u32>,
    open: Seq<((u32, u32), u32)>,
    width: u32,
    height: u32,
    start: (u32, u32),
    goal: (u32, u32),
    exempt: Option<(u32, u32)>,
) -> bool {
    forall|p: (u32, u32), b: (u32, u32)|
        #[trigger] reached(g, width, height, start, p) && #[trigger] step(mental_map, width, height, p, b)
            && !fresh(g, open, width, height, goal, p) && exempt != Some(p) ==> reached(g, width, height, start, b)
            && cost(g, width, height, b) <= cost(g, width, height, p) + 1
}

/// A reached goal has a fresh entry.
#[verifier::opaque]
pub open spec fn inv_fresh_goal(g: Seq<u32>, open: Seq<((u32, u32), u32)>, width: u32, height: u32, start: (u32, u32), goal: (u32, u32)) -> bool {
    reached(g, width, height, start, goal) ==> fresh(g, open, width, height, goal, goal)
}

/// All the search invariants, with `exempt` the position being expanded.
pub open spec fn search_inv(
    mental_map: Seq<Vec<Option<MemoryTile>>>,
    g: Seq<u32>,
    came: Seq<(u32, u32)>,
    open: Seq<((u32, u32), u32)>,
    width: u32,
    height: u32,
    start: (u32, u32),
    goal: (u32, u32),
    off: nat,
    exempt: Option<(u32, u32)>,
) -> bool {
    &&& g.len() == width as int * height as int
    &&& came.len() == width as int * height as int
    &&& inv_start(g, width, height, start)
    &&& inv_bound(g, width, height, off)
    &&& inv_came(mental_map, g, came, width, height, start)
    &&& inv_open(g, open, width, height, start)
    &&& inv_closed(mental_map, g, open, width, height, start, exempt)
    &&& inv_goal(g, open, width, height, start, goal)
    &&& inv_estimates(g, open, width, height, goal)
    &&& inv_tight(mental_map, g, open, width, height, start, goal, exempt)
    &&& inv_fresh_goal(g, open, width, height, start, goal)
}

/// The costs after recording `t` for an on-map position `nb`.
proof fn lemma_cost_update(g: Seq<u32>, width: u32, height: u32, nb: (u32, u32), t: u32, q: (u32, u32))
    requires
        in_bounds(nb, width, height),
        g.len() == width as int * height as int,
    ensures
        cost(g.update(cell(nb, width), t), width, height, q) == if q == nb { t as int } else { cost(g, width, height, q) },
{
    if in_bounds(q, width, height) && q != nb {
        lemma_cell_distinct(q, nb, width, height);
    }
    lemma_cell_bounds(nb, width, height);
}

/// Lowering the cost of `nb` to one more than that of `current`, recording
/// `current` as its predecessor and queueing it keeps the invariants and
/// lowers the potential.
#[verifier::rlimit(50)]
proof fn lemma_relax(
    mental_map: Seq<Vec<Option<MemoryTile>>>,
    g: Seq<u32>,
    came: Seq<(u32, u32)>,
    open: Seq<((u32, u32), u32)>,
    width: u32,
    height: u32,
    start: (u32, u32),
    goal: (u32, u32),
    off: nat,
    current: (u32, u32),
    nb: (u32, u32),
    f: u32,
)
    requires
        search_inv(mental_map, g, came, open, width, height, start, goal, off, Some(current)),
        off == if in_bounds(start, width, height) { 0nat } else { 1nat },
        reached(g, width, height, start, current),
        step(mental_map, width, height, current, nb),
        cost(g, width, height, current) + 1 < g[cell(nb, width)],
        f == cost(g, width, height, current) + 1 + manhattan(nb, goal),
    ensures
        ({
            let g2 = g.update(cell(nb, width), (cost(g, width, height, current) + 1) as u32);
            let came2 = came.update(cell(nb, width), current);
            let open2 = open.push((nb, f));
            &&& search_inv(mental_map, g2, came2, open2, width, height, start, goal, off, Some(current))
            &&& forall|p: (u32, u32)| reached(g, width, height, start, p) ==> #[trigger] reached(g2, width, height, start, p)
            &&& forall|p: (u32, u32)| #[trigger] queued(open, p) ==> queued(open2, p)
            &&& potential(g2, (width as int * height as int + 1) as nat) < potential(g, (width as int * height as int + 1) as nat)
            &&& cost(g2, width, height, current) == cost(g, width, height, current)
            &&& reached(g2, width, height, start, nb)
            &&& cost(g, width, height, current) + 1 <= width as int * height as int
            &&& cost(g2, width, height, nb) == cost(g, width, height, current) + 1
            &&& forall|q: (u32, u32)| #[trigger] cost(g2, width, height, q) <= cost(g, width, height, q)
        }),
{
    reveal(inv_start);
    reveal(inv_bound);
    reveal(inv_came);
    reveal(inv_open);
    reveal(inv_closed);
    reveal(inv_goal);
    let n = width as int * height as int;
    let cap = (n + 1) as nat;
    let gc = cost(g, width, height, current);
    let t = (gc + 1) as u32;
    let ni = cell(nb, width);
    let g2 = g.update(ni, t);
    let came2 = came.update(ni, current);
    let open2 = open.push((nb, f));
    lemma_cell_bounds(nb, width, height);
    lemma_count_known_bound(g);
    if in_bounds(current, width, height) {
        assert(has_cost(g, width, height, current));
    }
    assert(gc < count_known(g) + off);
    if g[ni] == unknown_cost() {
        lemma_count_known_unknown(g, ni);
    } else {
        assert(has_cost(g, width, height, nb));
    }
    assert(gc + 1 <= n);
    lemma_update(g, ni, t, cap);
    assert forall|p: (u32, u32)| #[trigger] has_cost(g2, width, height, p) && p != nb implies g[cell(p, width)] == g2[cell(p, width)] && has_cost(g, width, height, p) by {
        lemma_cell_distinct(p, nb, width, height);
        lemma_cell_bounds(p, width, height);
    }
    assert forall|p: (u32, u32)| reached(g, width, height, start, p) implies #[trigger] reached(g2, width, height, start, p) by {
        if has_cost(g, width, height, p) && p != nb {
            lemma_cell_distinct(p, nb, width, height);
        }
    }
    assert(cost(g2, width, height, current) == gc) by {
        if in_bounds(current, width, height) {
            lemma_cell_distinct(current, nb, width, height);
        }
    }
    if in_bounds(start, width, height) && start != nb {
        lemma_cell_distinct(start, nb, width, height);
    }
    assert(inv_start(g2, width, height, start));
    assert(inv_bound(g2, width, height, off));
    assert forall|p: (u32, u32)| #[trigger] has_cost(g2, width, height, p) && p != start implies {
        let q = came2[cell(p, width)];
        &&& reached(g2, width, height, start, q)
        &&& cost(g2, width, height, q) < g2[cell(p, width)]
        &&& step(mental_map, width, height, q, p)
    } by {
        if p != nb {
            lemma_cell_distinct(p, nb, width, height);
            let q = came[cell(p, width)];
            assert(came2[cell(p, width)] == q);
            assert(reached(g2, width, height, start, q));
            if in_bounds(q, width, height) && q != nb {
                lemma_cell_distinct(q, nb, width, height);
            }
        }
    }
    assert(inv_came(mental_map, g2, came2, width, height, start));
    assert forall|i: int| 0 <= i < open2.len() implies reached(g2, width, height, start, (#[trigger] open2[i]).0) by {
        if i < open.len() {
            assert(open2[i] == open[i]);
            assert(reached(g, width, height, start, open[i].0));
        }
    }
    assert(inv_open(g2, open2, width, height, start));
    assert forall|p: (u32, u32)| #[trigger] queued(open, p) implies queued(open2, p) by {
        let i = choose|i: int| 0 <= i < open.len() && (#[trigger] open[i]).0 == p;
        assert(open2[i] == open[i]);
    }
    assert(open2[open.len() as int].0 == nb);
    assert(queued(open2, nb));
    assert forall|p: (u32, u32), b: (u32, u32)|
        #[trigger] reached(g2, width, height, start, p) && #[trigger] step(mental_map, width, height, p, b)
            && !queued(open2, p) && Some(current) != Some(p) implies reached(g2, width, height, start, b) by {
        if p != nb {
            if has_cost(g2, width, height, p) {
                lemma_cell_distinct(p, nb, width, height);
            }
            assert(reached(g, width, height, start, p));
            assert(!queued(open, p));
            assert(reached(g, width, height, start, b));
        }
    }
    assert(inv_closed(mental_map, g2, open2, width, height, start, Some(current)));
    assert(inv_goal(g2, open2, width, height, start, goal)) by {
        if reached(g2, width, height, start, goal) && goal != nb {
            if has_cost(g2, width, height, goal) {
                lemma_cell_distinct(goal, nb, width, height);
            }
            assert(reached(g, width, height, start, goal));
        }
    }
    reveal(inv_estimates);
    reveal(inv_tight);
    reveal(inv_fresh_goal);
    assert forall|q: (u32, u32)| #[trigger] cost(g2, width, height, q) <= cost(g, width, height, q) by {
        lemma_cost_update(g, width, height, nb, t, q);
    }
    assert(cost(g2, width, height, nb) == gc + 1) by {
        lemma_cost_update(g, width, height, nb, t, nb);
    }
    assert forall|i: int| 0 <= i < open2.len() implies (#[trigger] open2[i]).1 >= cost(g2, width, height, open2[i].0) + manhattan(open2[i].0, goal) by {
        if i < open.len() {
            assert(open2[i] == open[i]);
            assert(cost(g2, width, height, open[i].0) <= cost(g, width, height, open[i].0));
        }
    }
    assert(inv_estimates(g2, open2, width, height, goal));
    assert forall|p: (u32, u32)| p != nb && #[trigger] fresh(g, open, width, height, goal, p) implies fresh(g2, open2, width, height, goal, p) by {
        let i = choose|i: int| 0 <= i < open.len() && (#[trigger] open[i]).0 == p && open[i].1 <= cost(g, width, height, p) + manhattan(p, goal);
        lemma_cost_update(g, width, height, nb, t, p);
        assert(open2[i] == open[i]);
    }
    assert(fresh(g2, open2, width, height, goal, nb)) by {
        assert(open2[open.len() as int] == (nb, f));
    }
    assert forall|p: (u32, u32), b: (u32, u32)|
        #[trigger] reached(g2, width, height, start, p) && #[trigger] step(mental_map, width, height, p, b)
            && !fresh(g2, open2, width, height, goal, p) && Some(current) != Some(p) implies reached(g2, width, height, start, b)
            && cost(g2, width, height, b) <= cost(g2, width, height, p) + 1 by {
        assert(p != nb);
        if has_cost(g2, width, height, p) {
            lemma_cell_distinct(p, nb, width, height);
        }
        assert(reached(g, width, height, start, p));
        assert(!fresh(g, open, width, height, goal, p));
        lemma_cost_update(g, width, height, nb, t, p);
        lemma_cost_update(g, width, height, nb, t, b);
        assert(reached(g, width, height, start, b));
    }
    assert(inv_tight(mental_map, g2, open2, width, height, start, goal, Some(current)));
    assert(inv_fresh_goal(g2, open2, width, height, start, goal)) by {
        if reached(g2, width, height, start, goal) && goal != nb {
            if has_cost(g2, width, height, goal) {
                lemma_cell_distinct(goal, nb, width, height);
            }
            assert(reached(g, width, height, start, goal));
            assert(fresh(g, open, width, height, goal, goal));
        }
    }
}

/// Taking entry `m` off the queue keeps the invariants, with the taken
/// position exempt from the closure until its moves are processed.
proof fn lemma_pop(
    mental_map: Seq<Vec<Option<MemoryTile>>>,
    g: Seq<u32>,
    came: Seq<(u32, u32)>,
    open: Seq<((u32, u32), u32)>,
    width: u32,
    height: u32,
    start: (u32, u32),
    goal: (u32, u32),
    off: nat,
    m: int,
)
    requires
        search_inv(mental_map, g, came, open, width, height, start, goal, off, None),
        0 <= m < open.len(),
        open[m].0 != goal,
    ensures
        search_inv(mental_map, g, came, open.remove(m), width, height, start, goal, off, Some(open[m].0)),
        reached(g, width, height, start, open[m].0),
        forall|p: (u32, u32)| p != open[m].0 && #[trigger] queued(open, p) ==> queued(open.remove(m), p),
{
    reveal(inv_open);
    reveal(inv_closed);
    reveal(inv_goal);
    let cur = open[m].0;
    let o2 = open.remove(m);
    assert forall|p: (u32, u32)| p != cur && #[trigger] queued(open, p) implies queued(o2, p) by {
        let i = choose|i: int| 0 <= i < open.len() && (#[trigger] open[i]).0 == p;
        if i < m {
            assert(o2[i] == open[i]);
        } else {
            assert(i != m);
            assert(o2[i - 1] == open[i]);
        }
    }
    assert forall|i: int| 0 <= i < o2.len() implies reached(g, width, height, start, (#[trigger] o2[i]).0) by {
        if i < m {
            assert(o2[i] == open[i]);
        } else {
            assert(o2[i] == open[i + 1]);
        }
    }
    assert forall|p: (u32, u32), b: (u32, u32)|
        #[trigger] reached(g, width, height, start, p) && #[trigger] step(mental_map, width, height, p, b)
            && !queued(o2, p) && Some(cur) != Some(p) implies reached(g, width, height, start, b) by {
        assert(!queued(open, p));
    }
    assert(reached(g, width, height, start, open[m].0));
    reveal(inv_estimates);
    reveal(inv_tight);
    reveal(inv_fresh_goal);
    assert forall|i: int| 0 <= i < o2.len() implies (#[trigger] o2[i]).1 >= cost(g, width, height, o2[i].0) + manhattan(o2[i].0, goal) by {
        if i < m {
            assert(o2[i] == open[i]);
        } else {
            assert(o2[i] == open[i + 1]);
        }
    }
    assert forall|p: (u32, u32)| p != cur && #[trigger] fresh(g, open, width, height, goal, p) implies fresh(g, o2, width, height, goal, p) by {
        let i = choose|i: int| 0 <= i < open.len() && (#[trigger] open[i]).0 == p && open[i].1 <= cost(g, width, height, p) + manhattan(p, goal);
        if i < m {
            assert(o2[i] == open[i]);
        } else {
            assert(i != m);
            assert(o2[i - 1] == open[i]);
        }
    }
    assert forall|p: (u32, u32), b: (u32, u32)|
        #[trigger] reached(g, width, height, start, p) && #[trigger] step(mental_map, width, height, p, b)
            && !fresh(g, o2, width, height, goal, p) && Some(cur) != Some(p) implies reached(g, width, height, start, b)
            && cost(g, width, height, b) <= cost(g, width, height, p) + 1 by {
        assert(!fresh(g, open, width, height, goal, p));
    }
    assert(inv_fresh_goal(g, o2, width, height, start, goal)) by {
        if reached(g, width, height, start, goal) {
            assert(fresh(g, open, width, height, goal, goal));
        }
    }
}

/// Once every move out of the exempt position reaches a reached position,
/// the exemption can be dropped.
proof fn lemma_close(
    mental_map: Seq<Vec<Option<MemoryTile>>>,
    g: Seq<u32>,
    came: Seq<(u32, u32)>,
    open: Seq<((u32, u32), u32)>,
    width: u32,
    height: u32,
    start: (u32, u32),
    goal: (u32, u32),
    off: nat,
    current: (u32, u32),
)
    requires
        search_inv(mental_map, g, came, open, width, height, start, goal, off, Some(current)),
        forall|b: (u32, u32)| #[trigger] step(mental_map, width, height, current, b) ==> reached(g, width, height, start, b)
            && cost(g, width, height, b) <= cost(g, width, height, current) + 1,
    ensures
        search_inv(mental_map, g, came, open, width, height, start, goal, off, None),
{
    reveal(inv_closed);
    reveal(inv_tight);
}

/// Along a path, the distance to its end is at most the number of moves left.
proof fn lemma_manhattan_along(
    mental_map: Seq<Vec<Option<MemoryTile>>>,
    width: u32,
    height: u32,
    start: (u32, u32),
    goal: (u32, u32),
    path: Seq<(u32, u32)>,
    i: int,
)
    requires
        is_path(mental_map, width, height, start, goal, path),
        0 <= i < path.len(),
        width <= 0x4000_0000,
        height <= 0x4000_0000,
        start.0 < 0x4000_0000,
        start.1 < 0x4000_0000,
    ensures
        manhattan(path[i], goal) <= path.len() - 1 - i,
    decreases path.len() - i,
{
    if i < path.len() - 1 {
        lemma_manhattan_along(mental_map, width, height, start, goal, path, i + 1);
        assert(step(mental_map, width, height, path[i], path[i + 1]));
        if i > 0 {
            let k = i - 1;
            assert(step(mental_map, width, height, path[k], path[k + 1]));
            assert(path[k + 1] == path[i]);
        }
    }
}

/// Where no position of a path before index `i` has a fresh entry and a
/// cost at most its index, every position up to `i` is reached at a cost at
/// most its index.
proof fn lemma_witness(
    mental_map: Seq<Vec<Option<MemoryTile>>>,
    g: Seq<u32>,
    came: Seq<(u32, u32)>,
    open: Seq<((u32, u32), u32)>,
    width: u32,
    height: u32,
    start: (u32, u32),
    goal: (u32, u32),
    off: nat,
    path: Seq<(u32, u32)>,
    i: int,
)
    requires
        search_inv(mental_map, g, came, open, width, height, start, goal, off, None),
        is_path(mental_map, width, height, start, goal, path),
        0 <= i < path.len(),
        forall|j: int| 0 <= j < i ==> !(#[trigger] fresh(g, open, width, height, goal, path[j]) && cost(g, width, height, path[j]) <= j),
    ensures
        reached(g, width, height, start, path[i]),
        cost(g, width, height, path[i]) <= i,
    decreases i,
{
    reveal(inv_start);
    reveal(inv_tight);
    if i > 0 {
        lemma_witness(mental_map, g, came, open, width, height, start, goal, off, path, i - 1);
        let j = i - 1;
        assert(step(mental_map, width, height, path[j], path[j + 1]));
        assert(!fresh(g, open, width, height, goal, path[j]));
    }
}

/// When the entry with the least estimate is at the goal, no path to the
/// goal has fewer positions than the goal's cost plus one.
proof fn lemma_no_shortcut(
    mental_map: Seq<Vec<Option<MemoryTile>>>,
    g: Seq<u32>,
    came: Seq<(u32, u32)>,
    open: Seq<((u32, u32), u32)>,
    width: u32,
    height: u32,
    start: (u32, u32),
    goal: (u32, u32),
    off: nat,
    other: Seq<(u32, u32)>,
    m: int,
)
    requires
        search_inv(mental_map, g, came, open, width, height, start, goal, off, None),
        is_path(mental_map, width, height, start, goal, other),
        0 <= m < open.len(),
        open[m].0 == goal,
        forall|i: int| 0 <= i < open.len() ==> open[m].1 <= #[trigger] open[i].1,
        width <= 0x4000_0000,
        height <= 0x4000_0000,
        start.0 < 0x4000_0000,
        start.1 < 0x4000_0000,
    ensures
        cost(g, width, height, goal) + 1 <= other.len(),
{
    reveal(inv_estimates);
    reveal(inv_fresh_goal);
    let len = other.len() as int;
    if forall|j: int| 0 <= j < len ==> !(#[trigger] fresh(g, open, width, height, goal, other[j]) && cost(g, width, height, other[j]) <= j) {
        lemma_witness(mental_map, g, came, open, width, height, start, goal, off, other, len - 1);
        assert(other[len - 1] == goal);
        assert(fresh(g, open, width, height, goal, goal));
        assert(!(fresh(g, open, width, height, goal, other[len - 1]) && cost(g, width, height, other[len - 1]) <= len - 1));
    }
    let j = choose|j: int| 0 <= j < len && #[trigger] fresh(g, open, width, height, goal, other[j]) && cost(g, width, height, other[j]) <= j;
    let p = other[j];
    let i = choose|i: int| 0 <= i < open.len() && (#[trigger] open[i]).0 == p && open[i].1 <= cost(g, width, height, p) + manhattan(p, goal);
    lemma_manhattan_along(mental_map, width, height, start, goal, other, j);
    assert(open[m].1 <= open[i].1);
    assert(open[m].1 >= cost(g, width, height, goal) + manhattan(goal, goal));
}

/// The agent remembers `p` as a wall (`'#'`), a tree (`'T'`) or a mountain
/// (`'M'`).
pub open spec fn remembered_as_barrier(mental_map: Seq<Vec<Option<MemoryTile>>>, p: (u32, u32)) -> bool {
    &&& (p.1 as int) < mental_map.len()
    &&& (p.0 as int) < mental_map[p.1 as int]@.len()
    &&& mental_map[p.1 as int]@[p.0 as int] matches Some(t)
    &&& (t.tile.tile_type == '#' || t.tile.tile_type == 'T' || t.tile.tile_type == 'M')
}

/// A move to an orthogonal neighbour on the map is allowed exactly when the
/// agent does not remember that tile as a wall, a tree or a mountain: any
/// other remembered terrain (grass, forest, water, ...) and any tile it
/// does not remember can be walked.
pub proof fn lemma_only_barriers_block(
    mental_map: Seq<Vec<Option<MemoryTile>>>,
    width: u32,
    height: u32,
    a: (u32, u32),
    b: (u32, u32),
)
    requires
        adjacent(a, b),
        in_bounds(b, width, height),
    ensures
        step(mental_map, width, height, a, b) <==> !remembered_as_barrier(mental_map, b),
{
}

/// A row of the map from `x0` to `x1` that holds no remembered wall, tree
/// or mountain can be walked end to end, in `x1 - x0` moves.
pub proof fn lemma_open_row_is_walkable(
    mental_map: Seq<Vec<Option<MemoryTile>>>,
    width: u32,
    height: u32,
    y: u32,
    x0: u32,
    x1: u32,
)
    requires
        x0 <= x1 < width,
        y < height,
        forall|x: u32| x0 <= x <= x1 ==> !#[trigger] remembered_as_barrier(mental_map, (x, y)),
    ensures
        ({
            let path = Seq::new((x1 - x0 + 1) as nat, |i: int| ((x0 + i) as u32, y));
            is_path(mental_map, width, height, (x0, y), (x1, y), path) && path.len() == x1 - x0 + 1
        }),
        reachable(mental_map, width, height, (x0, y), (x1, y)),
{
    let path = Seq::new((x1 - x0 + 1) as nat, |i: int| ((x0 + i) as u32, y));
    assert forall|i: int| 0 <= i < path.len() - 1 implies #[trigger] step(mental_map, width, height, path[i], path[i + 1]) by {
        let b = ((x0 + i + 1) as u32, y);
        assert(path[i + 1] == b);
        assert(!remembered_as_barrier(mental_map, b));
        lemma_only_barriers_block(mental_map, width, height, path[i], b);
    }
    assert(path.last() == (x1, y));
    assert(is_path(mental_map, width, height, (x0, y), (x1, y), path));
}

/// An A* search, guided by Manhattan distance, from `start` to `goal` over the agent's memory of
/// the map, moving orthogonally and avoiding tiles remembered as walls,
/// trees or mountains; tiles the agent does not remember count as open.
///
/// Returns a path that starts at `start`, ends at `goal` and makes only
/// such moves, with no such path shorter, or `None` when no such path exists.
///
/// The search keeps dense tables with one entry per tile, indexed by
/// `usize`, so the map has fewer than 2^31 tiles; positions lie below 2^30,
/// which keeps every cost plus estimate within the `u32` the search counts in.
pub fn find_path(
    start: (u32, u32),
    goal: (u32, u32),
    mental_map: &Vec<Vec<Option<MemoryTile>>>,
    width: u32,
    height: u32,
) -> (r: Option<Vec<(u32, u32)>>)
    requires
        width <= 0x4000_0000,
        height <= 0x4000_0000,
        (width as int) * (height as int) < 0x8000_0000,
        start.0 < 0x4000_0000,
        start.1 < 0x4000_0000,
        goal.0 < 0x4000_0000,
        goal.1 < 0x4000_0000,
    ensures
        match r {
            Some(path) => is_path(mental_map@, width, height, start, goal, path@) && forall|other: Seq<(u32, u32)>|
                #[trigger] is_path(mental_map@, width, height, start, goal, other) ==> path@.len() <= other.len(),
            None => !reachable(mental_map@, width, height, start, goal),
        },
{
    let ghost mm = mental_map@;
    let n: usize = (width as usize) * (height as usize);
    let ghost cap: nat = (n + 1) as nat;
    let ghost off: nat = if in_bounds(start, width, height) { 0nat } else { 1nat };
    let mut g_costs: Vec<u32> = Vec::new();
    let mut came_from: Vec<(u32, u32)> = Vec::new();
    let mut k: usize = 0;
    while k < n
        invariant
            k <= n,
            g_costs@.len() == k,
            came_from@.len() == k,
            forall|j: int| 0 <= j < k ==> g_costs@[j] == unknown_cost(),
        decreases n - k,
    {
        g_costs.push(u32::MAX);
        came_from.push((0, 0));
        k = k + 1;
    }
    proof {
        lemma_count_known_none(g_costs@);
    }
    let ghost g_init = g_costs@;
    if start.0 < width && start.1 < height {
        proof {
            lemma_cell_bounds(start, width, height);
            assert((start.1 as int) * (width as int) <= cell(start, width));
        }
        let si = (start.1 as usize) * (width as usize) + (start.0 as usize);
        proof {
            lemma_update(g_costs@, si as int, 0, cap);
        }
        g_costs.set(si, 0);
    }
    let mut open_list: Vec<((u32, u32), u32)> = Vec::new();
    open_list.push((start, heuristic(start, goal)));
    proof {
        reveal(inv_start);
        reveal(inv_bound);
        reveal(inv_came);
        reveal(inv_open);
        reveal(inv_closed);
        reveal(inv_goal);
        assert forall|p: (u32, u32)| #[trigger] has_cost(g_costs@, width, height, p) implies p == start && in_bounds(start, width, height) by {
            lemma_cell_bounds(p, width, height);
            if in_bounds(start, width, height) && p != start {
                lemma_cell_distinct(p, start, width, height);
                assert(g_costs@[cell(p, width)] == g_init[cell(p, width)]);
            }
        }
        assert(open_list@[0].0 == start);
        assert(queued(open_list@, start));
        assert forall|p: (u32, u32)| #[trigger] reached(g_costs@, width, height, start, p) implies p == start by {}
        reveal(inv_estimates);
        reveal(inv_tight);
        reveal(inv_fresh_goal);
        assert(cost(g_costs@, width, height, start) == 0);
        assert(fresh(g_costs@, open_list@, width, height, goal, start));
        assert(search_inv(mm, g_costs@, came_from@, open_list@, width, height, start, goal, off, None));
    }
    while open_list.len() > 0
        invariant
            mm == mental_map@,
            width <= 0x4000_0000,
            height <= 0x4000_0000,
            n == width as int * height as int,
            n < 0x8000_0000,
            cap == n + 1,
            start.0 < 0x4000_0000,
            start.1 < 0x4000_0000,
            goal.0 < 0x4000_0000,
            goal.1 < 0x4000_0000,
            off == if in_bounds(start, width, height) { 0nat } else { 1nat },
            search_inv(mm, g_costs@, came_from@, open_list@, width, height, start, goal, off, None),
        decreases potential(g_costs@, cap), open_list@.len(),
    {
        let m = index_of_min(&open_list);
        let ghost open_before = open_list@;
        let ghost pot_before = potential(g_costs@, cap);
        let entry = open_list.remove(m);
        let current = entry.0;
        if current.0 == goal.0 && current.1 == goal.1 {
            proof {
                reveal(inv_open);
                reveal(inv_came);
                reveal(inv_start);
                assert(reached(g_costs@, width, height, start, open_before[m as int].0));
            }
            let path = self::trace_back(start, goal, &came_from, &g_costs, mental_map, width, height);
            proof {
                assert forall|other: Seq<(u32, u32)>| #[trigger] is_path(mm, width, height, start, goal, other) implies path@.len()
                    <= other.len() by {
                    lemma_no_shortcut(mm, g_costs@, came_from@, open_before, width, height, start, goal, off, other, m as int);
                }
            }
            return Some(path);
        }
        proof {
            lemma_pop(mm, g_costs@, came_from@, open_before, width, height, start, goal, off, m as int);
            assert(open_list@ == open_before.remove(m as int));
        }
        let gcur: u32 = if current.0 < width && current.1 < height {
            proof {
                lemma_cell_bounds(current, width, height);
                assert((current.1 as int) * (width as int) <= cell(current, width));
            }
            g_costs[(current.1 as usize) * (width as usize) + (current.0 as usize)]
        } else {
            0
        };
        proof {
            reveal(inv_start);
            reveal(inv_bound);
            lemma_count_known_bound(g_costs@);
            if in_bounds(current, width, height) {
                assert(has_cost(g_costs@, width, height, current));
            }
            assert(gcur == cost(g_costs@, width, height, current));
            assert(gcur <= n);
        }
        let nbs = get_neighbors(current, mental_map, width, height);
        proof {
            lemma_neighbors_are_steps(mm, width, height, current);
        }
        let ghost open_after_pop = open_list@;
        let mut t: usize = 0;
        while t < nbs.len()
            invariant
                mm == mental_map@,
                width <= 0x4000_0000,
                height <= 0x4000_0000,
                n == width as int * height as int,
                n < 0x8000_0000,
                cap == n + 1,
                goal.0 < 0x4000_0000,
                goal.1 < 0x4000_0000,
                off == if in_bounds(start, width, height) { 0nat } else { 1nat },
                t <= nbs@.len(),
                forall|b: (u32, u32)| nbs@.contains(b) <==> #[trigger] step(mm, width, height, current, b),
                reached(g_costs@, width, height, start, current),
                gcur == cost(g_costs@, width, height, current),
                gcur <= n,
                search_inv(mm, g_costs@, came_from@, open_list@, width, height, start, goal, off, Some(current)),
                forall|i: int| 0 <= i < t ==> reached(g_costs@, width, height, start, #[trigger] nbs@[i])
                    && cost(g_costs@, width, height, nbs@[i]) <= gcur + 1,
                potential(g_costs@, cap) <= pot_before,
                potential(g_costs@, cap) == pot_before ==> open_list@.len() == open_after_pop.len(),
                open_after_pop.len() < open_before.len(),
            decreases nbs@.len() - t,
        {
            let nb = nbs[t];
            proof {
                assert(nbs@.contains(nb));
                assert(step(mm, width, height, current, nb));
                lemma_cell_bounds(nb, width, height);
                assert((nb.1 as int) * (width as int) <= cell(nb, width));
            }
            let ni = (nb.1 as usize) * (width as usize) + (nb.0 as usize);
            let tentative = gcur + 1;
            if tentative < g_costs[ni] {
                let ghost g_prev = g_costs@;
                let ghost came_prev = came_from@;
                let ghost open_prev = open_list@;
                let h = heuristic(nb, goal);
                proof {
                    lemma_relax(mm, g_prev, came_prev, open_prev, width, height, start, goal, off, current, nb, (tentative + h) as u32);
                }
                came_from.set(ni, current);
                g_costs.set(ni, tentative);
                open_list.push((nb, tentative + h));
                proof {
                    assert(g_costs@ == g_prev.update(cell(nb, width), tentative));
                    assert(came_from@ == came_prev.update(cell(nb, width), current));
                    assert forall|i: int| 0 <= i < t + 1 implies reached(g_costs@, width, height, start, #[trigger] nbs@[i])
                        && cost(g_costs@, width, height, nbs@[i]) <= gcur + 1 by {
                        if i < t {
                            assert(reached(g_prev, width, height, start, nbs@[i]));
                            assert(cost(g_costs@, width, height, nbs@[i]) <= cost(g_prev, width, height, nbs@[i]));
                        }
                    }
                }
            } else {
                proof {
                    assert(has_cost(g_costs@, width, height, nb));
                    assert(cost(g_costs@, width, height, nb) <= gcur + 1);
                }
            }
            t = t + 1;
        }
        proof {
            assert forall|b: (u32, u32)| #[trigger] step(mm, width, height, current, b) implies reached(g_costs@, width, height, start, b)
                && cost(g_costs@, width, height, b) <= cost(g_costs@, width, height, current) + 1 by {
                assert(nbs@.contains(b));
                let i = choose|i: int| 0 <= i < nbs@.len() && nbs@[i] == b;
                assert(reached(g_costs@, width, height, start, nbs@[i]));
            }
            lemma_close(mm, g_costs@, came_from@, open_list@, width, height, start, goal, off, current);
        }
    }
    proof {
        reveal(inv_closed);
        if reachable(mm, width, height, start, goal) {
            let path = choose|path: Seq<(u32, u32)>| is_path(mm, width, height, start, goal, path);
            assert forall|p: (u32, u32), b: (u32, u32)|
                #[trigger] reached(g_costs@, width, height, start, p) && #[trigger] step(mm, width, height, p, b)
                    implies reached(g_costs@, width, height, start, b) by {
                assert(!queued(open_list@, p));
            }
            lemma_closed_set_holds_paths(mm, width, height, g_costs@, start, goal, path, path.len() - 1);
            reveal(inv_goal);
            assert(queued(open_list@, goal));
            let i = choose|i: int| 0 <= i < open_list@.len() && (#[trigger] open_list@[i]).0 == goal;
        }
    }
    None
}

/// Follows the recorded predecessors back from the goal to the start and
/// returns the path in walking order.
fn trace_back(
    start: (u32, u32),
    goal: (u32, u32),
    came_from: &Vec<(u32, u32)>,
    g_costs: &Vec<u32>,
    mental_map: &Vec<Vec<Option<MemoryTile>>>,
    width: u32,
    height: u32,
) -> (path: Vec<(u32, u32)>)
    requires
        g_costs@.len() == width as int * height as int,
        came_from@.len() == width as int * height as int,
        (width as int) * (height as int) < 0x8000_0000,
        inv_start(g_costs@, width, height, start),
        inv_came(mental_map@, g_costs@, came_from@, width, height, start),
        reached(g_costs@, width, height, start, goal),
    ensures
        is_path(mental_map@, width, height, start, goal, path@),
        path@.len() <= cost(g_costs@, width, height, goal) + 1,
{
    let ghost mm = mental_map@;
    proof {
        reveal(inv_came);
        reveal(inv_start);
    }
    let mut rev: Vec<(u32, u32)> = Vec::new();
    let mut cur = goal;
    while !(cur.0 == start.0 && cur.1 == start.1)
        invariant
            mm == mental_map@,
            g_costs@.len() == width as int * height as int,
            came_from@.len() == width as int * height as int,
            (width as int) * (height as int) < 0x8000_0000,
            inv_came(mm, g_costs@, came_from@, width, height, start),
            reached(g_costs@, width, height, start, cur),
            rev@.len() > 0 ==> rev@[0] == goal,
            rev@.len() > 0 ==> step(mm, width, height, cur, rev@.last()),
            rev@.len() == 0 ==> cur == goal,
            forall|i: int| 0 <= i < rev@.len() - 1 ==> #[trigger] step(mm, width, height, rev@[i + 1], rev@[i]),
            rev@.len() + cost(g_costs@, width, height, cur) <= cost(g_costs@, width, height, goal),
        decreases cost(g_costs@, width, height, cur),
    {
        proof {
            reveal(inv_came);
            assert(cur != start);
            assert(has_cost(g_costs@, width, height, cur));
            lemma_cell_bounds(cur, width, height);
            assert((cur.1 as int) * (width as int) <= cell(cur, width));
        }
        let ghost old_rev = rev@;
        rev.push(cur);
        let ci = (cur.1 as usize) * (width as usize) + (cur.0 as usize);
        let next = came_from[ci];
        proof {
            assert forall|i: int| 0 <= i < rev@.len() - 1 implies #[trigger] step(mm, width, height, rev@[i + 1], rev@[i]) by {
                if i < old_rev.len() - 1 {
                    assert(rev@[i] == old_rev[i]);
                    assert(rev@[i + 1] == old_rev[i + 1]);
                    assert(step(mm, width, height, old_rev[i + 1], old_rev[i]));
                } else {
                    assert(rev@[i] == old_rev.last());
                }
            }
            if old_rev.len() > 0 {
                assert(rev@[0] == old_rev[0]);
            }
        }
        cur = next;
    }
    proof {
        reveal(inv_start);
        assert(cost(g_costs@, width, height, cur) == 0);
    }
    let ghost rv = rev@;
    let mut path: Vec<(u32, u32)> = Vec::new();
    path.push(start);
    let mut j: usize = rev.len();
    while j > 0
        invariant
            j <= rv.len(),
            rv == rev@,
            path@.len() == rv.len() - j + 1,
            path@[0] == start,
            forall|i: int| 1 <= i < path@.len() ==> path@[i] == rv[rv.len() - i],
        decreases j,
    {
        j = j - 1;
        path.push(rev[j]);
    }
    proof {
        assert(cur == start);
        assert forall|i: int| 0 <= i < path@.len() - 1 implies #[trigger] step(mm, width, height, path@[i], path@[i + 1]) by {
            if i == 0 {
                assert(path@[1] == rv[rv.len() - 1]);
            } else {
                let k = rv.len() - i - 1;
                assert(path@[i] == rv[k + 1]);
                assert(path@[i + 1] == rv[k]);
                assert(step(mm, width, height, rv[k + 1], rv[k]));
            }
        }
        if rv.len() > 0 {
            assert(path@.last() == rv[0]);
        }
    }
    path
}

} // verus!
