//! Roads between the known places of the map, and paving their tiles.

use vstd::prelude::*;
use crate::errors::SimulationError;
use crate::map::{GameMap, TileView};
use crate::text::{owned, str_eq};

verus! {

/// The known places roads run between, with their coordinates.
pub open spec fn city_table() -> Seq<(Seq<char>, (i32, i32))> {
    seq![
        ("CityA"@, (20i32, 20i32)),
        ("CityB"@, (80i32, 30i32)),
        ("CityC"@, (30i32, 70i32)),
        ("CityD"@, (90i32, 85i32)),
        ("Old_Mine"@, (50i32, 90i32)),
    ]
}

/// The coordinates of the place named `name`, if it is known.
pub open spec fn city_at(name: Seq<char>) -> Option<(i32, i32)> {
    if exists|i: int| 0 <= i < city_table().len() && city_table()[i].0 == name {
        Some(city_table()[choose|i: int| 0 <= i < city_table().len() && city_table()[i].0 == name].1)
    } else {
        None
    }
}

/// The coordinates of the place named `name`; an unknown name is an error
/// that names it.
pub fn city_location(name: &str) -> (r: Result<(i32, i32), SimulationError>)
    ensures
        match r {
            Ok(p) => city_at(name@) == Some(p),
            Err(SimulationError::CityNotFound(n)) => n@ == name@ && city_at(name@) is None,
            Err(_) => false,
        },
{
    proof {
        reveal_strlit("CityA");
        reveal_strlit("CityB");
        reveal_strlit("CityC");
        reveal_strlit("CityD");
        reveal_strlit("Old_Mine");
        let t = city_table();
        assert(t[0].0[4] == 'A' && t[1].0[4] == 'B' && t[2].0[4] == 'C' && t[3].0[4] == 'D');
        assert(t[0].0.len() == 5 && t[1].0.len() == 5 && t[2].0.len() == 5 && t[3].0.len() == 5 && t[4].0.len() == 8);
    }
    if str_eq(name, "CityA") {
        proof { assert(city_table()[0].0 == name@); }
        Ok((20, 20))
    } else if str_eq(name, "CityB") {
        proof { assert(city_table()[1].0 == name@); }
        Ok((80, 30))
    } else if str_eq(name, "CityC") {
        proof { assert(city_table()[2].0 == name@); }
        Ok((30, 70))
    } else if str_eq(name, "CityD") {
        proof { assert(city_table()[3].0 == name@); }
        Ok((90, 85))
    } else if str_eq(name, "Old_Mine") {
        proof { assert(city_table()[4].0 == name@); }
        Ok((50, 90))
    } else {
        Err(SimulationError::CityNotFound(owned(name)))
    }
}

/// Whether `(x, y)` is among `cells`.
pub open spec fn paved_cell(cells: Seq<(u32, u32)>, x: u32, y: u32) -> bool {
    exists|i: int| 0 <= i < cells.len() && cells[i] == (x, y)
}

/// Paves the tiles of a road: each listed tile of the map shows road
/// terrain and keeps its biome; other tiles do not change.
pub fn pave_road(map: &mut GameMap, cells: &Vec<(u32, u32)>)
    requires
        old(map).well_formed(),
    ensures
        final(map).well_formed(),
        final(map).width == old(map).width,
        final(map).height == old(map).height,
        forall|x: u32, y: u32| #[trigger] final(map).tile_at(x, y) == if paved_cell(cells@, x, y) && old(map).tile_at(x, y) is Some {
            Some(TileView { tile_type: '=', ..old(map).tile_at(x, y)->0 })
        } else {
            old(map).tile_at(x, y)
        },
        forall|x: u32, y: u32| #[trigger] final(map).entities_at(x, y) == old(map).entities_at(x, y),
{
    let ghost start = *map;
    let mut i: usize = 0;
    while i < cells.len()
        invariant
            i <= cells@.len(),
            map.well_formed(),
            map.width == start.width,
            map.height == start.height,
            forall|x: u32, y: u32| #[trigger] map.tile_at(x, y) == if paved_cell(cells@.take(i as int), x, y) && start.tile_at(x, y) is Some {
                Some(TileView { tile_type: '=', ..start.tile_at(x, y)->0 })
            } else {
                start.tile_at(x, y)
            },
            forall|x: u32, y: u32| #[trigger] map.entities_at(x, y) == start.entities_at(x, y),
        decreases cells@.len() - i,
    {
        let (x, y) = cells[i];
        let ghost before = *map;
        if let Some(mut tile) = map.get_tile(x, y) {
            tile.tile_type = '=';
            map.set_tile(x, y, tile);
        }
        proof {
            let t1 = cells@.take(i as int + 1);
            let t0 = cells@.take(i as int);
            assert forall|qx: u32, qy: u32| #[trigger] map.tile_at(qx, qy) == if paved_cell(t1, qx, qy) && start.tile_at(qx, qy) is Some {
                Some(TileView { tile_type: '=', ..start.tile_at(qx, qy)->0 })
            } else {
                start.tile_at(qx, qy)
            } by {
                if qx == x && qy == y {
                    assert(t1[i as int] == (x, y));
                } else {
                    if paved_cell(t1, qx, qy) {
                        let k = choose|k: int| 0 <= k < t1.len() && t1[k] == (qx, qy);
                        assert(t0[k] == (qx, qy));
                    }
                    if paved_cell(t0, qx, qy) {
                        let k = choose|k: int| 0 <= k < t0.len() && t0[k] == (qx, qy);
                        assert(t1[k] == (qx, qy));
                    }
                }
            }
        }
        i = i + 1;
    }
    proof {
        assert(cells@.take(cells@.len() as int) =~= cells@);
    }
}

} // verus!
