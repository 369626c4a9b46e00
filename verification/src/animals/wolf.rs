//! Wolves wander, hunt when hungry, and follow their pack's leader.

use vstd::prelude::*;
use crate::components::{Entity, Position, Velocity};
use crate::animals::pig::sign;
use crate::chance::random_in;

verus! {

/// Marks an entity as a wolf.
pub struct Wolf;

/// What a wolf is doing.
#[derive(Debug, Clone, Copy, PartialEq, Eq, Structural)]
pub enum WolfState {
    Wandering,
    Hunting,
    Following,
}

/// A wolf's mind: what it does, whom it hunts, its wandering timer and its pack.
#[derive(Debug, Clone, Copy)]
pub struct WolfAI {
    pub state: WolfState,
    pub target: Option<Entity>,
    pub timer: u32,
    pub pack: Option<Entity>,
}

impl WolfAI {
    /// A lone wandering wolf that will pick a course on its next tick.
    pub fn default() -> (r: Self)
        ensures
            r.state == WolfState::Wandering,
            r.target is None,
            r.timer == 0,
            r.pack is None,
    {
        WolfAI { state: WolfState::Wandering, target: None, timer: 0, pack: None }
    }
}

/// Ticks between changes of a wandering wolf's course.
pub const WOLF_WANDER_TIMER: u32 = 60;

/// The squared distance between two positions.
pub open spec fn dist2(a: Position, b: Position) -> int {
    (a.x - b.x) * (a.x - b.x) + (a.y - b.y) * (a.y - b.y)
}

/// A wolf sees what lies closer than ten tiles.
pub open spec fn in_view(a: Position, b: Position) -> bool {
    dist2(a, b) < 100
}

/// A wolf can bite what lies closer than one and a half tiles.
pub open spec fn in_reach(a: Position, b: Position) -> bool {
    dist2(a, b) * 4 < 9
}

/// `i` is the first of the nearest entries in view of `pos`.
pub open spec fn is_closest(list: Seq<(Entity, Position)>, pos: Position, i: int) -> bool {
    &&& 0 <= i < list.len()
    &&& in_view(pos, list[i].1)
    &&& forall|j: int| 0 <= j < list.len() && in_view(pos, #[trigger] list[j].1) ==> dist2(pos, list[i].1) <= dist2(pos, list[j].1)
    &&& forall|j: int| 0 <= j < i && in_view(pos, #[trigger] list[j].1) ==> dist2(pos, list[j].1) > dist2(pos, list[i].1)
}

/// The first of the nearest entries in view, if any is in view.
pub open spec fn closest(list: Seq<(Entity, Position)>, pos: Position) -> Option<int> {
    if exists|i: int| is_closest(list, pos, i) {
        Some(choose|i: int| is_closest(list, pos, i))
    } else {
        None
    }
}

/// At most one entry is the first of the nearest.
pub proof fn lemma_closest_unique(list: Seq<(Entity, Position)>, pos: Position, i: int, k: int)
    requires
        is_closest(list, pos, i),
        is_closest(list, pos, k),
    ensures
        i == k,
{
    if i < k {
        assert(in_view(pos, list[i].1));
    } else if k < i {
        assert(in_view(pos, list[k].1));
    }
}

/// The squared distance, computed exactly.
pub fn distance2(a: Position, b: Position) -> (r: u128)
    ensures
        r == dist2(a, b),
{
    let dx: i128 = a.x as i128 - b.x as i128;
    let dy: i128 = a.y as i128 - b.y as i128;
    assert(0 <= dx * dx <= 0x1_0000_0000 * 0x1_0000_0000) by (nonlinear_arith)
        requires
            -0x1_0000_0000 < dx < 0x1_0000_0000,
    ;
    assert(0 <= dy * dy <= 0x1_0000_0000 * 0x1_0000_0000) by (nonlinear_arith)
        requires
            -0x1_0000_0000 < dy < 0x1_0000_0000,
    ;
    (dx * dx + dy * dy) as u128
}

/// The index of the first of the nearest entries in view of `pos`, if any.
pub fn closest_in_view(list: &Vec<(Entity, Position)>, pos: Position) -> (r: Option<usize>)
    ensures
        match r {
            Some(i) => is_closest(list@, pos, i as int),
            None => forall|j: int| 0 <= j < list@.len() ==> !in_view(pos, #[trigger] list@[j].1),
        },
        r matches Some(i) ==> closest(list@, pos) == Some(i as int),
        r is None ==> closest(list@, pos) is None,
{
    let mut best: Option<usize> = None;
    let mut best_d: u128 = 0;
    let mut i: usize = 0;
    while i < list.len()
        invariant
            i <= list@.len(),
            match best {
                Some(b) => b < i && in_view(pos, list@[b as int].1) && best_d == dist2(pos, list@[b as int].1)
                    && (forall|j: int| 0 <= j < i && in_view(pos, #[trigger] list@[j].1) ==> dist2(pos, list@[b as int].1) <= dist2(pos, list@[j].1))
                    && (forall|j: int| 0 <= j < b && in_view(pos, #[trigger] list@[j].1) ==> dist2(pos, list@[j].1) > dist2(pos, list@[b as int].1)),
                None => forall|j: int| 0 <= j < i ==> !in_view(pos, #[trigger] list@[j].1),
            },
        decreases list@.len() - i,
    {
        let d = distance2(pos, list[i].1);
        if d < 100 {
            match best {
                Some(_) => {
                    if d < best_d {
                        best = Some(i);
                        best_d = d;
                    }
                },
                None => {
                    best = Some(i);
                    best_d = d;
                },
            }
        }
        i = i + 1;
    }
    proof {
        if let Some(b) = best {
            assert(is_closest(list@, pos, b as int));
            if let Some(c) = closest(list@, pos) {
                lemma_closest_unique(list@, pos, b as int, c);
            }
        } else {
            assert(!exists|k: int| is_closest(list@, pos, k));
        }
    }
    best
}

/// The position of `e` in a list of entities with positions, if listed.
pub open spec fn position_in(list: Seq<(Entity, Position)>, e: Entity) -> Option<Position> {
    if exists|i: int| 0 <= i < list.len() && list[i].0 == e {
        Some(list[choose|i: int| 0 <= i < list.len() && list[i].0 == e].1)
    } else {
        None
    }
}

/// No entity is listed twice.
pub open spec fn distinct_entities(list: Seq<(Entity, Position)>) -> bool {
    forall|i: int, j: int| 0 <= i < j < list.len() ==> list[i].0 != list[j].0
}

/// The position of `e` in the list, if it is listed.
pub fn find_position(list: &Vec<(Entity, Position)>, e: Entity) -> (r: Option<Position>)
    requires
        distinct_entities(list@),
    ensures
        r == position_in(list@, e),
{
    let mut i: usize = 0;
    while i < list.len()
        invariant
            i <= list@.len(),
            distinct_entities(list@),
            forall|j: int| 0 <= j < i ==> list@[j].0 != e,
        decreases list@.len() - i,
    {
        if list[i].0 == e {
            proof {
                let c = choose|k: int| 0 <= k < list@.len() && list@[k].0 == e;
                assert(c == i as int);
            }
            return Some(list[i].1);
        }
        i = i + 1;
    }
    None
}

/// What a wolf's pack looks like to the wolf: how many members it has and
/// who leads it.
#[derive(Debug, Clone, Copy)]
pub struct PackView {
    pub members: usize,
    pub leader: Option<Entity>,
}

/// What a wolf perceives on a tick.
pub struct WolfSurroundings {
    /// The wolf's pack, when the entity the wolf names as its pack is one.
    pub pack: Option<PackView>,
    /// Where the pack's leader stands, when it has a leader with a position.
    pub leader_position: Option<Position>,
    /// Every player and pig, with its position.
    pub prey: Vec<(Entity, Position)>,
    /// Every player, with its position.
    pub players: Vec<(Entity, Position)>,
    /// Whether the wolf is hungry enough to hunt.
    pub hungry: bool,
}

/// The outcome of a wolf's tick: its new mind, its velocity, and whom it bites.
pub struct WolfTick {
    pub ai: WolfAI,
    pub velocity: Velocity,
    pub attack: Option<Entity>,
}

/// One step towards `to` on each axis.
pub open spec fn step_towards(from: Position, to: Position) -> Velocity {
    Velocity { dx: sign(to.x - from.x), dy: sign(to.y - from.y) }
}

/// A wandering tick: with the timer run out, head in the random direction
/// and restart the timer; otherwise count down.
pub open spec fn wander(t: WolfTick, rnd: (i32, i32)) -> WolfTick {
    if t.ai.timer == 0 {
        WolfTick {
            ai: WolfAI { timer: WOLF_WANDER_TIMER, ..t.ai },
            velocity: Velocity { dx: rnd.0, dy: rnd.1 },
            ..t
        }
    } else {
        WolfTick { ai: WolfAI { timer: (t.ai.timer - 1) as u32, ..t.ai }, ..t }
    }
}

/// A hunting tick: head for the target and bite it when in reach; a target
/// that is gone, or none at all, sends the wolf back to wandering.
pub open spec fn chase(t: WolfTick, pos: Position, prey: Seq<(Entity, Position)>) -> WolfTick {
    match t.ai.target {
        Some(target) => match position_in(prey, target) {
            Some(tp) => WolfTick {
                velocity: step_towards(pos, tp),
                attack: if in_reach(pos, tp) { Some(target) } else { t.attack },
                ..t
            },
            None => WolfTick {
                ai: WolfAI { state: WolfState::Wandering, target: None, timer: 0, ..t.ai },
                ..t
            },
        },
        None => WolfTick { ai: WolfAI { state: WolfState::Wandering, timer: 0, ..t.ai }, ..t },
    }
}

/// Takes aim at the first of the nearest in-view entries, if any.
pub open spec fn aim(t: WolfTick, list: Seq<(Entity, Position)>, pos: Position) -> WolfTick {
    match closest(list, pos) {
        Some(i) => WolfTick { ai: WolfAI { state: WolfState::Hunting, target: Some(list[i].0), ..t.ai }, ..t },
        None => t,
    }
}

/// The tick of a pack leader.
pub open spec fn leader_tick(t: WolfTick, pos: Position, pack: PackView, s_prey: Seq<(Entity, Position)>, s_players: Seq<(Entity, Position)>, hungry: bool, rnd: (i32, i32)) -> WolfTick {
    let t1 = if hungry {
        if pack.members >= 3 && closest(s_players, pos) is Some {
            aim(t, s_players, pos)
        } else {
            aim(t, s_prey, pos)
        }
    } else {
        WolfTick { ai: WolfAI { state: WolfState::Wandering, ..t.ai }, ..t }
    };
    if t1.ai.state == WolfState::Hunting {
        chase(t1, pos, s_prey)
    } else {
        wander(t1, rnd)
    }
}

/// The tick of a lone wolf.
pub open spec fn lone_tick(t: WolfTick, pos: Position, s_prey: Seq<(Entity, Position)>, hungry: bool, rnd: (i32, i32)) -> WolfTick {
    let t1 = if !hungry { WolfTick { ai: WolfAI { state: WolfState::Wandering, ..t.ai }, ..t } } else { t };
    let t2 = if t1.ai.state == WolfState::Wandering { wander(t1, rnd) } else { t1 };
    let t3 = if hungry { aim(t2, s_prey, pos) } else { t2 };
    if t3.ai.state == WolfState::Hunting {
        chase(t3, pos, s_prey)
    } else {
        t3
    }
}

/// A wolf's whole tick, given what it perceives and a random direction for wandering.
pub open spec fn wolf_tick(
    wolf: Entity,
    ai: WolfAI,
    velocity: Velocity,
    pos: Position,
    pack: Option<PackView>,
    leader_position: Option<Position>,
    prey: Seq<(Entity, Position)>,
    players: Seq<(Entity, Position)>,
    hungry: bool,
    rnd: (i32, i32),
) -> WolfTick {
    let t = WolfTick { ai, velocity, attack: None };
    match ai.pack {
        Some(_) => match pack {
            Some(p) => match p.leader {
                Some(leader) => {
                    if wolf == leader {
                        leader_tick(t, pos, p, prey, players, hungry, rnd)
                    } else {
                        match leader_position {
                            Some(lp) => {
                                if dist2(pos, lp) > 4 {
                                    WolfTick { velocity: step_towards(pos, lp), ..t }
                                } else {
                                    WolfTick { velocity: Velocity { dx: 0, dy: 0 }, ..t }
                                }
                            },
                            None => WolfTick { ai: WolfAI { pack: None, ..ai }, ..t },
                        }
                    }
                },
                None => WolfTick { ai: WolfAI { pack: None, ..ai }, ..t },
            },
            None => WolfTick { ai: WolfAI { pack: None, ..ai }, ..t },
        },
        None => lone_tick(t, pos, prey, hungry, rnd),
    }
}

/// A hungry pack leader whose pack has fewer than three wolves hunts the
/// nearest prey in view, whatever players are around: its tick does not
/// depend on the player list, and it takes aim at the nearest prey.
pub proof fn lemma_small_pack_hunts_nearest_prey(
    wolf: Entity,
    ai: WolfAI,
    velocity: Velocity,
    pos: Position,
    p: PackView,
    leader_position: Option<Position>,
    prey: Seq<(Entity, Position)>,
    players: Seq<(Entity, Position)>,
    other_players: Seq<(Entity, Position)>,
    rnd: (i32, i32),
)
    requires
        ai.pack is Some,
        p.leader == Some(wolf),
        p.members < 3,
    ensures
        wolf_tick(wolf, ai, velocity, pos, Some(p), leader_position, prey, players, true, rnd)
            == wolf_tick(wolf, ai, velocity, pos, Some(p), leader_position, prey, other_players, true, rnd),
        closest(prey, pos) matches Some(i) ==> wolf_tick(wolf, ai, velocity, pos, Some(p), leader_position, prey, players, true, rnd).ai.target
            == Some(prey[i].0),
{
    if let Some(i) = closest(prey, pos) {
        assert(is_closest(prey, pos, i));
        assert(0 <= i < prey.len() && prey[i].0 == prey[i].0);
        assert(position_in(prey, prey[i].0) is Some);
    }
}

/// A hungry pack leader whose pack has three wolves or more takes aim at
/// the nearest player in view when there is one, before any other prey.
pub proof fn lemma_big_pack_prefers_players(
    wolf: Entity,
    ai: WolfAI,
    velocity: Velocity,
    pos: Position,
    p: PackView,
    leader_position: Option<Position>,
    prey: Seq<(Entity, Position)>,
    players: Seq<(Entity, Position)>,
    rnd: (i32, i32),
)
    requires
        ai.pack is Some,
        p.leader == Some(wolf),
        p.members >= 3,
        closest(players, pos) is Some,
    ensures
        ({
            let t = wolf_tick(wolf, ai, velocity, pos, Some(p), leader_position, prey, players, true, rnd);
            let i = closest(players, pos)->0;
            position_in(prey, players[i].0) is Some ==> t.ai.target == Some(players[i].0) && t.ai.state == WolfState::Hunting
        }),
{
}

fn sign_of_difference(to: u32, from: u32) -> (r: i32)
    ensures
        r == sign(to - from),
{
    if to > from {
        1
    } else if to < from {
        -1
    } else {
        0
    }
}

fn exec_step_towards(from: Position, to: Position) -> (r: Velocity)
    ensures
        r == step_towards(from, to),
{
    Velocity { dx: sign_of_difference(to.x, from.x), dy: sign_of_difference(to.y, from.y) }
}

fn exec_wander(ai: &mut WolfAI, velocity: &mut Velocity, rnd: (i32, i32))
    ensures
        ({
            let t = wander(WolfTick { ai: *old(ai), velocity: *old(velocity), attack: None }, rnd);
            t.ai == *final(ai) && t.velocity == *final(velocity)
        }),
{
    if ai.timer == 0 {
        velocity.dx = rnd.0;
        velocity.dy = rnd.1;
        ai.timer = WOLF_WANDER_TIMER;
    } else {
        ai.timer = ai.timer - 1;
    }
}

fn exec_chase(ai: &mut WolfAI, velocity: &mut Velocity, pos: Position, prey: &Vec<(Entity, Position)>) -> (attack: Option<Entity>)
    requires
        distinct_entities(prey@),
    ensures
        ({
            let t = chase(WolfTick { ai: *old(ai), velocity: *old(velocity), attack: None }, pos, prey@);
            t.ai == *final(ai) && t.velocity == *final(velocity) && t.attack == attack
        }),
{
    match ai.target {
        Some(target) => match find_position(prey, target) {
            Some(tp) => {
                *velocity = exec_step_towards(pos, tp);
                if distance2(pos, tp) <= 2 {
                    Some(target)
                } else {
                    None
                }
            },
            None => {
                ai.state = WolfState::Wandering;
                ai.target = None;
                ai.timer = 0;
                None
            },
        },
        None => {
            ai.state = WolfState::Wandering;
            ai.timer = 0;
            None
        },
    }
}

fn exec_aim(ai: &mut WolfAI, list: &Vec<(Entity, Position)>, pos: Position)
    ensures
        ({
            let t = WolfTick { ai: *old(ai), velocity: Velocity { dx: 0, dy: 0 }, attack: None };
            aim(t, list@, pos).ai == *final(ai)
        }),
{
    if let Some(i) = closest_in_view(list, pos) {
        ai.state = WolfState::Hunting;
        ai.target = Some(list[i].0);
    }
}

/// One tick of a wolf's mind. A wolf in a pack whose pack is gone, or has
/// no leader, or whose leader has no position, leaves the pack. A follower
/// closes in on its leader until within two tiles. A leader, or a lone
/// wolf, hunts when hungry: a leader of three or more prefers players,
/// otherwise any prey; it heads for its target one step per axis and bites
/// when within one and a half tiles. Otherwise it wanders, taking the
/// random direction `rnd` whenever its timer runs out. Returns whom it bites.
pub fn wolf_ai_step(
    wolf: Entity,
    ai: &mut WolfAI,
    velocity: &mut Velocity,
    pos: Position,
    s: &WolfSurroundings,
    rnd: (i32, i32),
) -> (attack: Option<Entity>)
    requires
        distinct_entities(s.prey@),
    ensures
        ({
            let t = wolf_tick(wolf, *old(ai), *old(velocity), pos, s.pack, s.leader_position, s.prey@, s.players@, s.hungry, rnd);
            t.ai == *final(ai) && t.velocity == *final(velocity) && t.attack == attack
        }),
{
    let ghost ai0 = *ai;
    let ghost v0 = *velocity;
    let ghost t0 = WolfTick { ai: ai0, velocity: v0, attack: None };
    match ai.pack {
        Some(_) => match s.pack {
            Some(p) => match p.leader {
                Some(leader) => {
                    if wolf == leader {
                        if s.hungry {
                            let mut aimed = false;
                            if p.members >= 3 {
                                if let Some(i) = closest_in_view(&s.players, pos) {
                                    ai.state = WolfState::Hunting;
                                    ai.target = Some(s.players[i].0);
                                    aimed = true;
                                }
                            }
                            if !aimed {
                                exec_aim(ai, &s.prey, pos);
                            }
                        } else {
                            ai.state = WolfState::Wandering;
                        }
                        if ai.state == WolfState::Hunting {
                            exec_chase(ai, velocity, pos, &s.prey)
                        } else {
                            exec_wander(ai, velocity, rnd);
                            None
                        }
                    } else {
                        match s.leader_position {
                            Some(lp) => {
                                if distance2(pos, lp) > 4 {
                                    *velocity = exec_step_towards(pos, lp);
                                } else {
                                    velocity.dx = 0;
                                    velocity.dy = 0;
                                }
                            },
                            None => {
                                ai.pack = None;
                            },
                        }
                        None
                    }
                },
                None => {
                    ai.pack = None;
                    None
                },
            },
            None => {
                ai.pack = None;
                None
            },
        },
        None => {
            if !s.hungry {
                ai.state = WolfState::Wandering;
            }
            if ai.state == WolfState::Wandering {
                exec_wander(ai, velocity, rnd);
            }
            if s.hungry {
                exec_aim(ai, &s.prey, pos);
            }
            if ai.state == WolfState::Hunting {
                exec_chase(ai, velocity, pos, &s.prey)
            } else {
                None
            }
        },
    }
}

/// One tick of a wolf's mind, drawing the random direction for wandering.
pub fn wolf_ai_system(
    wolf: Entity,
    ai: &mut WolfAI,
    velocity: &mut Velocity,
    pos: Position,
    s: &WolfSurroundings,
) -> (attack: Option<Entity>)
    requires
        distinct_entities(s.prey@),
    ensures
        exists|rnd: (i32, i32)|
            #![trigger wolf_tick(wolf, *old(ai), *old(velocity), pos, s.pack, s.leader_position, s.prey@, s.players@, s.hungry, rnd)]
            -1 <= rnd.0 <= 1 && -1 <= rnd.1 <= 1 && wolf_tick(wolf, *old(ai), *old(velocity), pos, s.pack, s.leader_position, s.prey@, s.players@, s.hungry, rnd).ai == *final(ai)
                && wolf_tick(wolf, *old(ai), *old(velocity), pos, s.pack, s.leader_position, s.prey@, s.players@, s.hungry, rnd).velocity == *final(velocity)
                && wolf_tick(wolf, *old(ai), *old(velocity), pos, s.pack, s.leader_position, s.prey@, s.players@, s.hungry, rnd).attack == attack,
{
    let dx = random_in(-1, 1);
    let dy = random_in(-1, 1);
    wolf_ai_step(wolf, ai, velocity, pos, s, (dx, dy))
}

} // verus!
