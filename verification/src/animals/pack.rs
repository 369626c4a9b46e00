//! Wolves band together into packs of up to three.

use vstd::prelude::*;
use crate::components::{Entity, Position};
use crate::animals::wolf::{dist2, position_in, distinct_entities, find_position, distance2};

verus! {

/// The most wolves a pack takes.
pub const MAX_PACK_SIZE: usize = 3;

/// Kills a wolf needs to lead a pack it founds.
pub const LEADER_KILL_THRESHOLD: u32 = 2;

/// A wolf joins another wolf, or a pack's leader, closer than five tiles.
pub open spec fn close_enough(a: Position, b: Position) -> bool {
    dist2(a, b) < 25
}

/// A pack of wolves and its leader.
#[derive(Debug, Clone)]
pub struct Pack {
    pub members: Vec<Entity>,
    pub leader: Option<Entity>,
}

/// A lone wolf as pack forming sees it: the wolf, where it stands, and its kills.
pub type LoneWolf = (Entity, Position, u32);

/// The first wolf from index `j` on that is close enough to wolf `i`.
pub open spec fn first_partner(lone: Seq<LoneWolf>, i: int, j: int) -> Option<int>
    decreases lone.len() - j,
{
    if j < 0 || j >= lone.len() {
        None
    } else if close_enough(lone[i].1, lone[j].1) {
        Some(j)
    } else {
        first_partner(lone, i, j + 1)
    }
}

/// Who leads a new pack of wolves `a` and `b`: the first with enough kills,
/// and `a` when neither has them.
pub open spec fn pack_leader(a: LoneWolf, b: LoneWolf) -> Entity {
    if a.2 >= LEADER_KILL_THRESHOLD {
        a.0
    } else if b.2 >= LEADER_KILL_THRESHOLD {
        b.0
    } else {
        a.0
    }
}

/// The packs formed from the lone wolves, scanning from wolf `i`: each wolf
/// pairs with the first later wolf close enough; a pair leaves the list and
/// the scan resumes from the list's second wolf.
pub open spec fn packs_from(lone: Seq<LoneWolf>, i: int) -> Seq<(Entity, Entity, Entity)>
    decreases lone.len(), lone.len() - i,
{
    if i < 0 || i >= lone.len() {
        Seq::empty()
    } else {
        match first_partner(lone, i, i + 1) {
            Some(j) => {
                if i < j < lone.len() {
                    seq![(pack_leader(lone[i], lone[j]), lone[i].0, lone[j].0)] + packs_from(
                        lone.remove(j).remove(i),
                        1,
                    )
                } else {
                    Seq::empty()
                }
            },
            None => packs_from(lone, i + 1),
        }
    }
}

proof fn lemma_first_partner_range(lone: Seq<LoneWolf>, i: int, j: int)
    ensures
        first_partner(lone, i, j) matches Some(k) ==> j <= k < lone.len() && close_enough(lone[i].1, lone[k].1),
    decreases lone.len() - j,
{
    if 0 <= j < lone.len() && !close_enough(lone[i].1, lone[j].1) {
        lemma_first_partner_range(lone, i, j + 1);
    }
}

/// The entities of the lone wolves, in order.
pub open spec fn wolf_ids(lone: Seq<LoneWolf>) -> Seq<Entity> {
    lone.map_values(|w: LoneWolf| w.0)
}

/// The members of the new packs, pack by pack.
pub open spec fn pack_members(packs: Seq<(Entity, Entity, Entity)>) -> Seq<Entity>
    decreases packs.len(),
{
    if packs.len() == 0 {
        Seq::empty()
    } else {
        seq![packs[0].1, packs[0].2] + pack_members(packs.drop_first())
    }
}

/// Where the wolf at index `m` of the list without the wolves at `i` and
/// `j` stood in the full list.
proof fn lemma_removed_twice(lone: Seq<LoneWolf>, i: int, j: int, m: int)
    requires
        0 <= i < j < lone.len(),
        0 <= m < lone.len() - 2,
    ensures
        lone.remove(j).remove(i)[m] == lone[if m < i { m } else if m + 1 < j { m + 1 } else { m + 2 }],
{
}

/// Forming packs puts no wolf into two packs, and only listed wolves into
/// packs, when no wolf is listed twice.
pub proof fn lemma_packs_are_disjoint(lone: Seq<LoneWolf>, i: int)
    requires
        wolf_ids(lone).no_duplicates(),
        0 <= i,
    ensures
        pack_members(packs_from(lone, i)).no_duplicates(),
        forall|x: Entity| #[trigger] pack_members(packs_from(lone, i)).contains(x) ==> wolf_ids(lone).contains(x),
    decreases lone.len(), lone.len() - i,
{
    if i >= lone.len() {
        assert(pack_members(packs_from(lone, i)) =~= Seq::<Entity>::empty());
    } else {
        lemma_first_partner_range(lone, i, i + 1);
        match first_partner(lone, i, i + 1) {
            Some(j) => {
                let rest_lone = lone.remove(j).remove(i);
                let ids = wolf_ids(lone);
                let rest_ids = wolf_ids(rest_lone);
                assert forall|m: int| 0 <= m < rest_ids.len() implies {
                    let k = if m < i { m } else if m + 1 < j { m + 1 } else { m + 2 };
                    &&& 0 <= k < lone.len() && k != i && k != j
                    &&& #[trigger] rest_ids[m] == ids[k]
                } by {
                    lemma_removed_twice(lone, i, j, m);
                }
                assert(rest_ids.no_duplicates()) by {
                    assert forall|a: int, b: int| 0 <= a < rest_ids.len() && 0 <= b < rest_ids.len() && a != b implies rest_ids[a] != rest_ids[b] by {
                        let ka = if a < i { a } else if a + 1 < j { a + 1 } else { a + 2 };
                        let kb = if b < i { b } else if b + 1 < j { b + 1 } else { b + 2 };
                        assert(rest_ids[a] == ids[ka]);
                        assert(rest_ids[b] == ids[kb]);
                    }
                }
                lemma_packs_are_disjoint(rest_lone, 1);
                let rest = packs_from(rest_lone, 1);
                let first = (pack_leader(lone[i], lone[j]), lone[i].0, lone[j].0);
                let all = seq![first] + rest;
                assert(packs_from(lone, i) == all);
                assert(all.drop_first() =~= rest);
                let pm = pack_members(all);
                let rm = pack_members(rest);
                assert(pm == seq![lone[i].0, lone[j].0] + rm);
                assert(ids[i] == lone[i].0 && ids[j] == lone[j].0);
                assert forall|x: Entity| #[trigger] rm.contains(x) implies x != lone[i].0 && x != lone[j].0 && ids.contains(x) by {
                    assert(rest_ids.contains(x));
                    let m = choose|m: int| 0 <= m < rest_ids.len() && rest_ids[m] == x;
                    let k = if m < i { m } else if m + 1 < j { m + 1 } else { m + 2 };
                    assert(rest_ids[m] == ids[k]);
                }
                assert forall|a: int, b: int| 0 <= a < pm.len() && 0 <= b < pm.len() && a != b implies pm[a] != pm[b] by {
                    if a >= 2 {
                        assert(rm.contains(pm[a]));
                    }
                    if b >= 2 {
                        assert(rm.contains(pm[b]));
                    }
                }
                assert forall|x: Entity| #[trigger] pm.contains(x) implies ids.contains(x) by {
                    let k = choose|k: int| 0 <= k < pm.len() && pm[k] == x;
                    if k >= 2 {
                        assert(rm[k - 2] == x);
                        assert(rm.contains(x));
                    }
                }
            },
            None => {
                lemma_packs_are_disjoint(lone, i + 1);
            },
        }
    }
}

/// Pairs up lone wolves into new packs. Each wolf in turn pairs with the
/// first later wolf within five tiles; the pair leaves the list, and the
/// scan resumes from the list's second wolf. The leader is the first of the
/// two with at least two kills, or the first of the two. Returns the new
/// packs as leader and the two members.
pub fn form_new_packs_system(lone_wolves: &Vec<LoneWolf>) -> (r: Vec<(Entity, Entity, Entity)>)
    ensures
        r@ == packs_from(lone_wolves@, 0),
{
    let mut lone: Vec<LoneWolf> = Vec::new();
    let mut k: usize = 0;
    while k < lone_wolves.len()
        invariant
            k <= lone_wolves@.len(),
            lone@ == lone_wolves@.take(k as int),
        decreases lone_wolves@.len() - k,
    {
        lone.push(lone_wolves[k]);
        proof {
            assert(lone_wolves@.take(k as int + 1) =~= lone_wolves@.take(k as int).push(lone_wolves@[k as int]));
        }
        k = k + 1;
    }
    proof {
        assert(lone_wolves@.take(k as int) =~= lone_wolves@);
    }
    let mut packs: Vec<(Entity, Entity, Entity)> = Vec::new();
    let mut i: usize = 0;
    while i < lone.len()
        invariant
            packs@ + packs_from(lone@, i as int) == packs_from(lone_wolves@, 0),
        decreases lone@.len(), lone@.len() - i,
    {
        let ghost before = lone@;
        let ghost bi = i as int;
        let mut j = i + 1;
        let mut found = false;
        while j < lone.len() && !found
            invariant
                found ==> lone@.len() + 2 == before.len() && i == 1 && packs@ + packs_from(lone@, 1) == packs_from(lone_wolves@, 0),
                !found ==> bi == i && i < lone@.len() && i + 1 <= j <= lone@.len() && lone@ == before
                    && first_partner(before, bi, bi + 1) == first_partner(before, bi, j as int)
                    && packs@ + packs_from(before, bi) == packs_from(lone_wolves@, 0),
            decreases if found { 0int } else { lone@.len() - j + 1 },
        {
            let (a_entity, a_pos, a_kills) = lone[i];
            let (b_entity, b_pos, b_kills) = lone[j];
            let close = distance2(a_pos, b_pos) < 25;
            if close {
                let leader = if a_kills >= LEADER_KILL_THRESHOLD {
                    a_entity
                } else if b_kills >= LEADER_KILL_THRESHOLD {
                    b_entity
                } else {
                    a_entity
                };
                proof {
                    lemma_first_partner_range(before, bi, bi + 1);
                    assert(first_partner(before, bi, j as int) == Some(j as int));
                }
                packs.push((leader, a_entity, b_entity));
                lone.remove(j);
                lone.remove(i);
                proof {
                    let p = packs@;
                    assert(p.drop_last() + packs_from(before, bi) == packs_from(lone_wolves@, 0));
                    assert(packs_from(before, bi) == seq![(pack_leader(before[bi], before[j as int]), before[bi].0, before[j as int].0)]
                        + packs_from(before.remove(j as int).remove(bi), 1));
                    assert(lone@ =~= before.remove(j as int).remove(bi));
                    assert(p =~= p.drop_last() + seq![(pack_leader(before[bi], before[j as int]), before[bi].0, before[j as int].0)]);
                    assert(p + packs_from(lone@, 1) =~= p.drop_last() + packs_from(before, bi));
                }
                i = 1;
                found = true;
            } else {
                j = j + 1;
            }
        }
        if !found {
            proof {
                lemma_first_partner_range(before, bi, bi + 1);
                assert(first_partner(before, bi, j as int) is None);
                assert(packs_from(before, bi) == packs_from(before, bi + 1));
            }
            i = i + 1;
        }
    }
    proof {
        assert(packs_from(lone@, i as int) == Seq::<(Entity, Entity, Entity)>::empty());
        assert(packs@ + Seq::<(Entity, Entity, Entity)>::empty() =~= packs@);
    }
    packs
}

/// A pack as the joining rule sees it: the pack's entity, its members and
/// its leader.
pub type PackState = (Entity, Seq<Entity>, Option<Entity>);

/// The packs as plain values.
pub open spec fn pack_states(packs: Seq<(Entity, Pack)>) -> Seq<PackState> {
    packs.map_values(|p: (Entity, Pack)| (p.0, p.1.members@, p.1.leader))
}

/// A pack takes a wolf standing at `w` when it has room, and its leader is a
/// wolf with a known position within five tiles of `w`.
pub open spec fn accepts(pack: PackState, w: Position, positions: Seq<(Entity, Position)>) -> bool {
    &&& pack.1.len() < MAX_PACK_SIZE
    &&& pack.2 matches Some(l)
    &&& position_in(positions, l) matches Some(lp)
    &&& close_enough(w, lp)
}

/// The first pack, from index `k` on, that takes a wolf standing at `w`.
pub open spec fn first_accepting(packs: Seq<PackState>, w: Position, positions: Seq<(Entity, Position)>, k: int) -> Option<int>
    decreases packs.len() - k,
{
    if k < 0 || k >= packs.len() {
        None
    } else if accepts(packs[k], w, positions) {
        Some(k)
    } else {
        first_accepting(packs, w, positions, k + 1)
    }
}

/// The packs and assignments after each lone wolf in turn joined the first
/// pack that takes it.
pub open spec fn joined(packs: Seq<PackState>, lone: Seq<(Entity, Position)>, positions: Seq<(Entity, Position)>) -> (Seq<PackState>, Seq<(Entity, Entity)>)
    decreases lone.len(),
{
    if lone.len() == 0 {
        (packs, Seq::empty())
    } else {
        let (before, assigned) = joined(packs, lone.drop_last(), positions);
        let w = lone.last();
        match first_accepting(before, w.1, positions, 0) {
            Some(k) => (
                before.update(k, (before[k].0, before[k].1.push(w.0), before[k].2)),
                assigned.push((w.0, before[k].0)),
            ),
            None => (before, assigned),
        }
    }
}

proof fn lemma_first_accepting_range(packs: Seq<PackState>, w: Position, positions: Seq<(Entity, Position)>, k: int)
    requires
        0 <= k,
    ensures
        first_accepting(packs, w, positions, k) matches Some(j) ==> k <= j < packs.len() && accepts(packs[j], w, positions),
        first_accepting(packs, w, positions, k) is None ==> forall|j: int| k <= j < packs.len() ==> !accepts(#[trigger] packs[j], w, positions),
    decreases packs.len() - k,
{
    if 0 <= k < packs.len() && !accepts(packs[k], w, positions) {
        lemma_first_accepting_range(packs, w, positions, k + 1);
    }
}

/// Joining keeps every pack at three wolves or fewer when none had more,
/// keeps the number of packs, and places each lone wolf in at most one pack.
pub proof fn lemma_joining_keeps_packs_small(
    packs: Seq<PackState>,
    lone: Seq<(Entity, Position)>,
    positions: Seq<(Entity, Position)>,
)
    requires
        forall|k: int| 0 <= k < packs.len() ==> (#[trigger] packs[k]).1.len() <= MAX_PACK_SIZE,
    ensures
        joined(packs, lone, positions).0.len() == packs.len(),
        forall|k: int|
            0 <= k < packs.len() ==> (#[trigger] joined(packs, lone, positions).0[k]).1.len() <= MAX_PACK_SIZE,
        joined(packs, lone, positions).1.len() <= lone.len(),
    decreases lone.len(),
{
    if lone.len() > 0 {
        lemma_joining_keeps_packs_small(packs, lone.drop_last(), positions);
        let before = joined(packs, lone.drop_last(), positions).0;
        lemma_first_accepting_range(before, lone.last().1, positions, 0);
    }
}

/// Lets each lone wolf, in turn, join the first pack with room whose leader
/// stands within five tiles of it. Returns the wolves that joined, each with
/// its new pack.
pub fn join_existing_packs_system(
    lone_wolves: &Vec<(Entity, Position)>,
    packs: &mut Vec<(Entity, Pack)>,
    wolf_positions: &Vec<(Entity, Position)>,
) -> (r: Vec<(Entity, Entity)>)
    requires
        distinct_entities(wolf_positions@),
    ensures
        pack_states(final(packs)@) == joined(pack_states(old(packs)@), lone_wolves@, wolf_positions@).0,
        r@ == joined(pack_states(old(packs)@), lone_wolves@, wolf_positions@).1,
{
    let ghost start = pack_states(packs@);
    let mut assigned: Vec<(Entity, Entity)> = Vec::new();
    let mut i: usize = 0;
    while i < lone_wolves.len()
        invariant
            i <= lone_wolves@.len(),
            distinct_entities(wolf_positions@),
            (pack_states(packs@), assigned@) == joined(start, lone_wolves@.take(i as int), wolf_positions@),
        decreases lone_wolves@.len() - i,
    {
        let (wolf, wolf_pos) = lone_wolves[i];
        let ghost states = pack_states(packs@);
        proof {
            assert(lone_wolves@.take(i as int + 1).drop_last() =~= lone_wolves@.take(i as int));
            lemma_first_accepting_range(states, wolf_pos, wolf_positions@, 0);
        }
        let mut k: usize = 0;
        let mut joined_pack = false;
        while k < packs.len() && !joined_pack
            invariant
                distinct_entities(wolf_positions@),
                !joined_pack ==> k <= packs@.len() && pack_states(packs@) == states
                    && first_accepting(states, wolf_pos, wolf_positions@, 0) == first_accepting(states, wolf_pos, wolf_positions@, k as int),
                joined_pack ==> (first_accepting(states, wolf_pos, wolf_positions@, 0) matches Some(j)
                    && pack_states(packs@) == states.update(j, (states[j].0, states[j].1.push(wolf), states[j].2))
                    && assigned@ == joined(start, lone_wolves@.take(i as int), wolf_positions@).1.push((wolf, states[j].0))),
                !joined_pack ==> assigned@ == joined(start, lone_wolves@.take(i as int), wolf_positions@).1,
                states == pack_states(packs@) || joined_pack,
                states.len() == packs@.len(),
            decreases if joined_pack { 0int } else { packs@.len() - k + 1 },
        {
            let has_room = packs[k].1.members.len() < MAX_PACK_SIZE;
            let mut takes = false;
            if has_room {
                if let Some(leader) = packs[k].1.leader {
                    if let Some(leader_pos) = find_position(wolf_positions, leader) {
                        takes = distance2(wolf_pos, leader_pos) < 25;
                    }
                }
            }
            proof {
                assert(states[k as int] == (packs@[k as int].0, packs@[k as int].1.members@, packs@[k as int].1.leader));
                assert(takes == accepts(states[k as int], wolf_pos, wolf_positions@));
            }
            if takes {
                let pack_entity = packs[k].0;
                let mut entry = packs.remove(k);
                entry.1.members.push(wolf);
                packs.insert(k, entry);
                assigned.push((wolf, pack_entity));
                proof {
                    assert(pack_states(packs@) =~= states.update(k as int, (states[k as int].0, states[k as int].1.push(wolf), states[k as int].2)));
                }
                joined_pack = true;
            } else {
                k = k + 1;
            }
        }
        proof {
            if !joined_pack {
                assert(first_accepting(states, wolf_pos, wolf_positions@, k as int) is None);
            }
        }
        i = i + 1;
    }
    proof {
        assert(lone_wolves@.take(i as int) =~= lone_wolves@);
    }
    assigned
}

} // verus!
