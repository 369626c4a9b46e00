//! Pigs wander at random and flee from attackers.

use vstd::prelude::*;
use crate::components::{Position, Velocity};
use crate::chance::random_in;

verus! {

/// Marks an entity as a pig.
pub struct Pig;

/// Marks a pig that is running away.
pub struct Fleeing;

/// A pig's movement state: ticks left before it changes course, and its course.
#[derive(Debug, Clone, Copy)]
pub struct SimpleAi {
    pub move_timer: u32,
    pub direction: (i32, i32),
}

impl SimpleAi {
    /// A pig that will pick a course on its next tick.
    pub fn default() -> (r: Self)
        ensures
            r.move_timer == 0,
            r.direction == (0i32, 0i32),
    {
        SimpleAi { move_timer: 0, direction: (0, 0) }
    }
}

/// Ticks between changes of a wandering pig's course.
pub const WANDER_TIMER: u32 = 60;

/// Ticks a pig keeps fleeing.
pub const FLEE_TIMER: u32 = 120;

/// One tick of a wandering pig, given the course it would pick: when its
/// timer has run out it takes that course and restarts the timer,
/// otherwise the timer counts down and nothing else changes.
pub fn wander_step(ai: &mut SimpleAi, velocity: &mut Velocity, dx: i32, dy: i32)
    ensures
        old(ai).move_timer == 0 ==> final(ai).direction == (dx, dy) && final(velocity).dx == dx
            && final(velocity).dy == dy && final(ai).move_timer == WANDER_TIMER,
        old(ai).move_timer != 0 ==> final(ai).direction == old(ai).direction && *final(velocity)
            == *old(velocity) && final(ai).move_timer == old(ai).move_timer - 1,
{
    if ai.move_timer == 0 {
        ai.direction = (dx, dy);
        velocity.dx = dx;
        velocity.dy = dy;
        ai.move_timer = WANDER_TIMER;
    } else {
        ai.move_timer = ai.move_timer - 1;
    }
}

/// One tick of a wandering pig, picking its next course at random.
pub fn wandering_system(ai: &mut SimpleAi, velocity: &mut Velocity)
    ensures
        old(ai).move_timer == 0 ==> final(ai).move_timer == WANDER_TIMER && -1 <= final(velocity).dx <= 1
            && -1 <= final(velocity).dy <= 1 && final(ai).direction == (final(velocity).dx, final(velocity).dy),
        old(ai).move_timer != 0 ==> final(ai).direction == old(ai).direction && *final(velocity)
            == *old(velocity) && final(ai).move_timer == old(ai).move_timer - 1,
{
    if ai.move_timer == 0 {
        let dx = random_in(-1, 1);
        let dy = random_in(-1, 1);
        wander_step(ai, velocity, dx, dy);
    } else {
        wander_step(ai, velocity, 0, 0);
    }
}

/// The sign of an integer: -1, 0 or 1.
pub open spec fn sign(v: int) -> i32 {
    if v > 0 {
        1i32
    } else if v < 0 {
        -1i32
    } else {
        0i32
    }
}

/// The eight directions that move somewhere, by index.
pub open spec fn moving_direction(k: u32) -> (i32, i32) {
    if k == 0 {
        (-1i32, -1i32)
    } else if k == 1 {
        (-1i32, 0i32)
    } else if k == 2 {
        (-1i32, 1i32)
    } else if k == 3 {
        (0i32, -1i32)
    } else if k == 4 {
        (0i32, 1i32)
    } else if k == 5 {
        (1i32, -1i32)
    } else if k == 6 {
        (1i32, 0i32)
    } else {
        (1i32, 1i32)
    }
}

/// The direction with index `k` among the eight that move somewhere.
pub fn direction_from_index(k: u32) -> (r: (i32, i32))
    requires
        k < 8,
    ensures
        r == moving_direction(k),
        r != (0i32, 0i32),
        -1 <= r.0 <= 1 && -1 <= r.1 <= 1,
{
    if k == 0 {
        (-1, -1)
    } else if k == 1 {
        (-1, 0)
    } else if k == 2 {
        (-1, 1)
    } else if k == 3 {
        (0, -1)
    } else if k == 4 {
        (0, 1)
    } else if k == 5 {
        (1, -1)
    } else if k == 6 {
        (1, 0)
    } else {
        (1, 1)
    }
}

/// The course of a pig fleeing from an attacker: straight away from it, one
/// step per axis; from an attacker on its own tile, the given course.
pub open spec fn flee_course(pig: Position, attacker: Position, fallback: (i32, i32)) -> (i32, i32) {
    let dx = pig.x - attacker.x;
    let dy = pig.y - attacker.y;
    if dx == 0 && dy == 0 {
        fallback
    } else {
        (sign(dx), sign(dy))
    }
}

/// A pig under attack sets off away from its attacker and keeps fleeing
/// for the flee time; `fallback` is its course when the attacker stands on
/// its own tile. The pig is then to be marked as fleeing.
pub fn flee_step(
    ai: &mut SimpleAi,
    velocity: &mut Velocity,
    pig_pos: Position,
    attacker_pos: Position,
    fallback: (i32, i32),
)
    requires
        pig_pos.x <= i32::MAX && pig_pos.y <= i32::MAX,
        attacker_pos.x <= i32::MAX && attacker_pos.y <= i32::MAX,
    ensures
        final(ai).direction == flee_course(pig_pos, attacker_pos, fallback),
        (final(velocity).dx, final(velocity).dy) == flee_course(pig_pos, attacker_pos, fallback),
        final(ai).move_timer == FLEE_TIMER,
{
    let dx = pig_pos.x as i32 - attacker_pos.x as i32;
    let dy = pig_pos.y as i32 - attacker_pos.y as i32;
    let (flee_dx, flee_dy) = if dx == 0 && dy == 0 {
        fallback
    } else {
        (if dx > 0 { 1 } else if dx < 0 { -1 } else { 0 }, if dy > 0 { 1 } else if dy < 0 { -1 } else { 0 })
    };
    ai.direction = (flee_dx, flee_dy);
    velocity.dx = flee_dx;
    velocity.dy = flee_dy;
    ai.move_timer = FLEE_TIMER;
}

/// A pig attacked by an attacker at `attacker_pos` flees; when the attacker
/// stands on its tile, it picks one of the eight moving directions at random.
pub fn fleeing_system(ai: &mut SimpleAi, velocity: &mut Velocity, pig_pos: Position, attacker_pos: Position)
    requires
        pig_pos.x <= i32::MAX && pig_pos.y <= i32::MAX,
        attacker_pos.x <= i32::MAX && attacker_pos.y <= i32::MAX,
    ensures
        final(ai).move_timer == FLEE_TIMER,
        (final(velocity).dx, final(velocity).dy) == final(ai).direction,
        final(ai).direction != (0i32, 0i32),
        -1 <= final(ai).direction.0 <= 1 && -1 <= final(ai).direction.1 <= 1,
        (pig_pos.x != attacker_pos.x || pig_pos.y != attacker_pos.y) ==> final(ai).direction == (
            sign(pig_pos.x - attacker_pos.x),
            sign(pig_pos.y - attacker_pos.y),
        ),
{
    let k = random_in(0, 7);
    let fallback = direction_from_index(k as u32);
    flee_step(ai, velocity, pig_pos, attacker_pos, fallback);
}

/// A fleeing pig stops fleeing once its timer has run out.
pub fn flee_stop_system(ai: &SimpleAi) -> (r: bool)
    ensures
        r == (ai.move_timer == 0),
{
    ai.move_timer == 0
}

} // verus!
