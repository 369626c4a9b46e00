//! A plain animal entity of the text simulation.

use vstd::prelude::*;
use crate::actions::Direction;
use crate::chance::random_in;

verus! {

/// An animal with an identifier, a health and a species.
pub struct Animal {
    pub id: u32,
    pub health: i32,
    pub species: String,
}

impl Animal {
    /// The animal's identifier.
    pub fn get_id(&self) -> (r: u32)
        ensures
            r == self.id,
    {
        self.id
    }

    /// Where the animal stands: its position is kept elsewhere, so this is the origin.
    pub fn get_position(&self) -> (r: (u32, u32))
        ensures
            r == (0u32, 0u32),
    {
        (0, 0)
    }

    /// The animal's health.
    pub fn get_health(&self) -> (r: i32)
        ensures
            r == self.health,
    {
        self.health
    }

    /// Whether the animal has health left.
    pub fn is_alive(&self) -> (r: bool)
        ensures
            r == (self.health > 0),
    {
        self.health > 0
    }

    /// A direction the animal would like to move in, drawn at random: the
    /// direction that `direction_for_roll` gives for a roll from 0 to 3.
    pub fn choose_direction(&self) -> (r: Direction)
        ensures
            exists|roll: i32| 0 <= roll <= 3 && r == roll_direction(roll),
    {
        let roll = random_in(0, 3);
        direction_for_roll(roll)
    }
}

/// The direction a roll stands for: 0 up, 1 down, 2 left, anything else right.
pub open spec fn roll_direction(roll: i32) -> Direction {
    if roll == 0 {
        Direction::Up
    } else if roll == 1 {
        Direction::Down
    } else if roll == 2 {
        Direction::Left
    } else {
        Direction::Right
    }
}

/// The direction for a roll of the animal's die.
pub fn direction_for_roll(roll: i32) -> (r: Direction)
    ensures
        r == roll_direction(roll),
{
    match roll {
        0 => Direction::Up,
        1 => Direction::Down,
        2 => Direction::Left,
        _ => Direction::Right,
    }
}

} // verus!
