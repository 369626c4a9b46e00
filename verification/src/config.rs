//! Simulation settings, and the day and night cycle they set.

use vstd::prelude::*;

verus! {

/// The size of the map and the seed of its generation.
#[derive(Debug, Clone, Copy, PartialEq, Eq, Structural)]
pub struct MapSettings {
    pub width: u32,
    pub height: u32,
    pub seed: Option<u32>,
}

/// How many player agents take part.
#[derive(Debug, Clone, Copy, PartialEq, Eq, Structural)]
pub struct PlayerSettings {
    pub num_players: u32,
}

/// How long training runs.
#[derive(Debug, Clone, Copy, PartialEq, Eq, Structural)]
pub struct TrainingSettings {
    pub episodes: u32,
    pub max_steps_per_episode: u32,
}

/// How many ticks a day and a night last.
#[derive(Debug, Clone, Copy, PartialEq, Eq, Structural)]
pub struct DayNightCycle {
    pub day_length: u32,
    pub night_length: u32,
}

/// Limits on the machine the simulation may use.
#[derive(Debug, Clone, Copy, PartialEq, Eq, Structural)]
pub struct PerformanceSettings {
    pub processor_cores: u32,
    pub ram_limit_gb: u32,
    pub enable_ram_limit: bool,
}

/// Whether tick `tick` falls in the day: each cycle starts with its day.
pub open spec fn day_at(tick: u32, cycle: DayNightCycle) -> bool {
    (tick as int % (cycle.day_length + cycle.night_length)) < cycle.day_length
}

/// Whether tick `tick` falls in the day of the cycle.
pub fn is_day(tick: u32, cycle: &DayNightCycle) -> (r: bool)
    requires
        0 < cycle.day_length + cycle.night_length <= u32::MAX,
    ensures
        r == day_at(tick, *cycle),
{
    let period = cycle.day_length + cycle.night_length;
    tick % period < cycle.day_length
}

/// Advances the tick count by one and says whether the new tick falls in the day.
pub fn update_day_night(tick_count: &mut u32, cycle: &DayNightCycle) -> (r: bool)
    requires
        *old(tick_count) < u32::MAX,
        0 < cycle.day_length + cycle.night_length <= u32::MAX,
    ensures
        *final(tick_count) == *old(tick_count) + 1,
        r == day_at(*final(tick_count), *cycle),
{
    *tick_count = *tick_count + 1;
    is_day(*tick_count, cycle)
}

/// A cycle comes back to the same time of day after a whole period.
pub proof fn lemma_day_repeats(tick: u32, cycle: DayNightCycle)
    requires
        0 < cycle.day_length + cycle.night_length,
        tick + cycle.day_length + cycle.night_length <= u32::MAX,
    ensures
        day_at((tick + cycle.day_length + cycle.night_length) as u32, cycle) == day_at(tick, cycle),
{
    let p = cycle.day_length + cycle.night_length;
    assert((tick as int + p) % p == (tick as int) % p) by (nonlinear_arith)
        requires p > 0, tick >= 0;
}

/// The first `day_length` ticks of each cycle are day and the rest night.
pub proof fn lemma_day_then_night(k: nat, j: nat, cycle: DayNightCycle)
    requires
        0 < cycle.day_length + cycle.night_length,
        j < cycle.day_length + cycle.night_length,
        k * (cycle.day_length + cycle.night_length) + j <= u32::MAX,
    ensures
        day_at((k * (cycle.day_length + cycle.night_length) + j) as u32, cycle) == (j < cycle.day_length),
{
    let p = (cycle.day_length + cycle.night_length) as int;
    assert((k * p + j) % p == j) by (nonlinear_arith)
        requires p > 0, 0 <= j < p, k >= 0;
}

} // verus!
