//! What an agent remembers and decides: memories, goals and plans.

use vstd::prelude::*;
use std::sync::Arc;
use crate::map::Tile;
use crate::components::{
    Entity, Position, Velocity, Inventory, Health, WantsToCraft, WantsToAttack, WantsToStoreItem,
    quantity_in,
};
use crate::counts::ItemCounts;
use crate::recipes::{RecipeManager, expand, Expansion};
use crate::errors::SimulationError;
use crate::text::{str_eq, owned};
use crate::chance::random_in;

verus! {

/// A tile as an agent remembers it.
#[derive(Debug)]
pub struct MemoryTile {
    pub tile: Tile,
}

/// The relationship status between agents.
#[derive(Debug, Clone, Copy, PartialEq, Eq, Structural)]
pub enum RelationshipStatus {
    /// The other agent is considered hostile.
    Hostile,
}

/// A memory of another player.
#[derive(Debug, Clone, Copy, PartialEq, Eq, Structural)]
pub struct PlayerMemory {
    pub relationship: RelationshipStatus,
}

/// The high-level goals an agent can pursue.
#[derive(Debug, PartialEq, Eq)]
pub enum Goal {
    /// Gather a resource, such as "wood" or "stone".
    GatherResource(String),
    /// Craft an item from its recipe, such as "stone_axe".
    CraftItem(String),
    /// Build a structure, such as "chest".
    Build(String),
    /// Attack another entity.
    Attack(Entity),
    /// Flee from a threat.
    Flee,
    /// Explore the map to discover resources.
    Explore,
    /// Stockpile a resource in a storage container.
    Stockpile(String),
    /// Eat a food item.
    EatFood(String),
}

impl Clone for Goal {
    fn clone(&self) -> (r: Self)
        ensures
            r == *self,
    {
        match self {
            Goal::GatherResource(s) => Goal::GatherResource(s.clone()),
            Goal::CraftItem(s) => Goal::CraftItem(s.clone()),
            Goal::Build(s) => Goal::Build(s.clone()),
            Goal::Attack(e) => Goal::Attack(*e),
            Goal::Flee => Goal::Flee,
            Goal::Explore => Goal::Explore,
            Goal::Stockpile(s) => Goal::Stockpile(s.clone()),
            Goal::EatFood(s) => Goal::EatFood(s.clone()),
        }
    }
}

/// The concrete actions an agent's brain can decide to take.
#[derive(Debug)]
pub enum BrainAction {
    /// Move in a direction.
    Move(Velocity),
    /// Craft an item.
    Craft(WantsToCraft),
    /// Attack a target.
    Attack(WantsToAttack),
    /// Store an item in a container.
    Store(WantsToStoreItem),
}

/// A summary of an agent's inventory: its item counts by name.
pub struct InventorySummary {
    pub items: ItemCounts,
}

impl InventorySummary {
    /// The summary of an inventory: the same counts.
    pub fn from(inventory: &Inventory) -> (r: Self)
        ensures
            r.items@ == inventory.items@,
    {
        InventorySummary { items: inventory.items.copy() }
    }
}

/// A statistic such as health, cut into three bands.
#[derive(Debug, Clone, Copy, PartialEq, Eq, Hash, Structural)]
pub enum DiscretizedLevel {
    /// Up to a third of the maximum.
    Low,
    /// Above a third and up to two thirds of the maximum.
    Medium,
    /// Above two thirds of the maximum.
    High,
}

/// The state of an agent and its surroundings, on which goals are chosen.
/// Health is held as the agent's current health points.
pub struct HighLevelState {
    pub inventory_summary: InventorySummary,
    pub num_hostile_players: u32,
    pub health_level: u32,
    pub hunger_level: DiscretizedLevel,
    pub is_night: bool,
}

/// Below this much health an agent flees whatever else it could do.
pub const FLEE_HEALTH_THRESHOLD: u32 = 25;

/// An agent flees whatever else it could do when its health is below
/// [`FLEE_HEALTH_THRESHOLD`].
pub open spec fn must_flee(state: &HighLevelState) -> bool {
    state.health_level < FLEE_HEALTH_THRESHOLD
}

/// The index of the first entry named `name`.
pub open spec fn first_named(names: Seq<Seq<char>>, name: Seq<char>) -> Option<int> {
    if exists|i: int| 0 <= i < names.len() && names[i] == name {
        Some(choose|i: int| 0 <= i < names.len() && names[i] == name && forall|j: int| 0 <= j < i ==> names[j] != name)
    } else {
        None
    }
}

/// The number of hostile memories.
pub open spec fn hostile_count(m: Seq<(Entity, PlayerMemory)>) -> nat
    decreases m.len(),
{
    if m.len() == 0 {
        0
    } else {
        hostile_count(m.drop_last()) + if m.last().1.relationship == RelationshipStatus::Hostile { 1nat } else { 0nat }
    }
}

/// The gathering steps needed before a recipe's ingredients are all at hand:
/// for each ingredient, in order, that is short, exploring first when no
/// place holding it is known, then gathering it.
pub open spec fn gathering_plan(
    held: Map<Seq<char>, u32>,
    known: Seq<Seq<char>>,
    required: Seq<(String, u32)>,
) -> Seq<Goal>
    decreases required.len(),
{
    if required.len() == 0 {
        Seq::empty()
    } else {
        let before = gathering_plan(held, known, required.drop_last());
        let (name, amount) = required.last();
        if quantity_in(held, name@) >= amount {
            before
        } else if first_named(known, name@) is None {
            before.push(Goal::Explore).push(Goal::GatherResource(name))
        } else {
            before.push(Goal::GatherResource(name))
        }
    }
}

/// The plan gathers a resource exactly when some ingredient of that name is
/// held in fewer than the amount required: an ingredient held in full is
/// never gathered, and every short one is.
pub proof fn lemma_gathers_exactly_the_shortfall(
    held: Map<Seq<char>, u32>,
    known: Seq<Seq<char>>,
    required: Seq<(String, u32)>,
    s: String,
)
    ensures
        gathering_plan(held, known, required).contains(Goal::GatherResource(s)) <==> exists|i: int|
            0 <= i < required.len() && (#[trigger] required[i]).0 == s && quantity_in(held, s@) < required[i].1,
    decreases required.len(),
{
    if required.len() > 0 {
        let front = required.drop_last();
        lemma_gathers_exactly_the_shortfall(held, known, front, s);
        let before = gathering_plan(held, known, front);
        let (name, amount) = required.last();
        let n = required.len() - 1;
        assert(required[n] == (name, amount));
        assert forall|i: int| 0 <= i < front.len() implies #[trigger] front[i] == required[i] by {}
        let full = exists|i: int| 0 <= i < required.len() && (#[trigger] required[i]).0 == s && quantity_in(held, s@) < required[i].1;
        let part = exists|i: int| 0 <= i < front.len() && (#[trigger] front[i]).0 == s && quantity_in(held, s@) < front[i].1;
        assert(full <==> (part || (name == s && quantity_in(held, s@) < amount))) by {
            if full {
                let i = choose|i: int| 0 <= i < required.len() && (#[trigger] required[i]).0 == s && quantity_in(held, s@) < required[i].1;
                if i < n {
                    assert(front[i] == required[i]);
                }
            }
            if part {
                let i = choose|i: int| 0 <= i < front.len() && (#[trigger] front[i]).0 == s && quantity_in(held, s@) < front[i].1;
                assert(required[i] == front[i]);
            }
            if name == s && quantity_in(held, s@) < amount {
                assert(required[n].0 == s);
            }
        }
        if quantity_in(held, name@) >= amount {
        } else if first_named(known, name@) is None {
            assert(before.push(Goal::Explore).push(Goal::GatherResource(name)).contains(Goal::GatherResource(s))
                <==> (before.contains(Goal::GatherResource(s)) || name == s)) by {
                let p = before.push(Goal::Explore).push(Goal::GatherResource(name));
                if p.contains(Goal::GatherResource(s)) {
                    let k = choose|k: int| 0 <= k < p.len() && p[k] == Goal::GatherResource(s);
                    if k < before.len() {
                        assert(before[k] == Goal::GatherResource(s));
                    }
                }
                if before.contains(Goal::GatherResource(s)) {
                    let k = choose|k: int| 0 <= k < before.len() && before[k] == Goal::GatherResource(s);
                    assert(p[k] == Goal::GatherResource(s));
                }
                if name == s {
                    assert(p[p.len() - 1] == Goal::GatherResource(s));
                }
            }
        } else {
            assert(before.push(Goal::GatherResource(name)).contains(Goal::GatherResource(s))
                <==> (before.contains(Goal::GatherResource(s)) || name == s)) by {
                let p = before.push(Goal::GatherResource(name));
                if p.contains(Goal::GatherResource(s)) {
                    let k = choose|k: int| 0 <= k < p.len() && p[k] == Goal::GatherResource(s);
                    if k < before.len() {
                        assert(before[k] == Goal::GatherResource(s));
                    }
                }
                if before.contains(Goal::GatherResource(s)) {
                    let k = choose|k: int| 0 <= k < before.len() && before[k] == Goal::GatherResource(s);
                    assert(p[k] == Goal::GatherResource(s));
                }
                if name == s {
                    assert(p[p.len() - 1] == Goal::GatherResource(s));
                }
            }
        }
    }
}

/// An agent's mind: what it remembers of the world and of others, and what
/// it is doing.
pub struct BrainComponent {
    /// The tiles the agent remembers, by row and then column.
    pub mental_map: Vec<Vec<Option<MemoryTile>>>,
    /// For each resource name, the places where the agent has seen it.
    pub known_resources: Vec<(String, Vec<Position>)>,
    /// What the agent remembers of other players.
    pub player_memories: Vec<(Entity, PlayerMemory)>,
    pub current_goal: Option<Goal>,
    pub goal_stack: Vec<Goal>,
    pub current_path: Option<Vec<(u32, u32)>>,
    pub goal_commitment_ticks: u32,
    pub prev_goal: Option<Goal>,
    /// Where the agent built its first foundation.
    pub home_base: Option<Position>,
    pub exploration_frontier: Vec<Position>,
    /// The goals the agent chooses among.
    pub goals: Vec<Goal>,
    pub recipe_manager: Arc<RecipeManager>,
}

impl BrainComponent {
    /// The names of the known resources, in order.
    pub open spec fn known_names(&self) -> Seq<Seq<char>> {
        self.known_resources@.map_values(|e: (String, Vec<Position>)| e.0@)
    }

    /// Whether the agent knows where some of `name` lies.
    pub open spec fn knows_where(&self, name: Seq<char>) -> bool {
        first_named(self.known_names(), name) matches Some(i) && self.known_resources@[i].1@.len() > 0
    }

    /// Whether a goal can be pursued now: gathering needs a known place of
    /// the resource; every other goal can always be pursued.
    pub open spec fn goal_valid(&self, goal: Goal) -> bool {
        match goal {
            Goal::GatherResource(name) => self.knows_where(name@),
            _ => true,
        }
    }

    /// A fresh mind for a `map_width` by `map_height` map: it remembers no
    /// tile, no resource and no player, pursues nothing and chooses among the
    /// five starting goals.
    pub fn new(recipe_manager: Arc<RecipeManager>, map_width: u32, map_height: u32) -> (r: Self)
        ensures
            r.mental_map@.len() == map_height,
            forall|y: int| 0 <= y < map_height ==> (#[trigger] r.mental_map@[y])@.len() == map_width
                && forall|x: int| 0 <= x < map_width ==> r.mental_map@[y]@[x] is None,
            r.known_resources@.len() == 0,
            r.player_memories@.len() == 0,
            r.current_goal is None,
            r.goal_stack@.len() == 0,
            r.current_path is None,
            r.goal_commitment_ticks == 0,
            r.prev_goal is None,
            r.home_base is None,
            r.exploration_frontier@.len() == 0,
            r.goals@.len() == 5,
            r.goals@[0] matches Goal::GatherResource(n) && n@ == "wood"@,
            r.goals@[1] matches Goal::GatherResource(n) && n@ == "stone"@,
            r.goals@[2] matches Goal::CraftItem(n) && n@ == "stone_axe"@,
            r.goals@[3] matches Goal::Build(n) && n@ == "foundation"@,
            r.goals@[4] matches Goal::Stockpile(n) && n@ == "wood"@,
            r.recipe_manager == recipe_manager,
    {
        let mut goals: Vec<Goal> = Vec::new();
        goals.push(Goal::GatherResource(owned("wood")));
        goals.push(Goal::GatherResource(owned("stone")));
        goals.push(Goal::CraftItem(owned("stone_axe")));
        goals.push(Goal::Build(owned("foundation")));
        goals.push(Goal::Stockpile(owned("wood")));
        let mut mental_map: Vec<Vec<Option<MemoryTile>>> = Vec::new();
        let mut y: u32 = 0;
        while y < map_height
            invariant
                y <= map_height,
                mental_map@.len() == y,
                forall|i: int| 0 <= i < y ==> (#[trigger] mental_map@[i])@.len() == map_width
                    && forall|x: int| 0 <= x < map_width ==> mental_map@[i]@[x] is None,
            decreases map_height - y,
        {
            let mut row: Vec<Option<MemoryTile>> = Vec::new();
            let mut x: u32 = 0;
            while x < map_width
                invariant
                    x <= map_width,
                    row@.len() == x,
                    forall|j: int| 0 <= j < x ==> #[trigger] row@[j] is None,
                decreases map_width - x,
            {
                row.push(None);
                x = x + 1;
            }
            mental_map.push(row);
            y = y + 1;
        }
        proof {
            reveal_strlit("wood");
            reveal_strlit("stone");
            reveal_strlit("stone_axe");
            reveal_strlit("foundation");
        }
        BrainComponent {
            mental_map,
            known_resources: Vec::new(),
            player_memories: Vec::new(),
            current_goal: None,
            goal_stack: Vec::new(),
            current_path: None,
            goal_commitment_ticks: 0,
            prev_goal: None,
            home_base: None,
            exploration_frontier: Vec::new(),
            goals,
            recipe_manager,
        }
    }

    /// The index of the first known-resource entry named `name`.
    pub fn find_known(&self, name: &str) -> (r: Option<usize>)
        ensures
            match r {
                Some(i) => first_named(self.known_names(), name@) == Some(i as int) && i < self.known_resources@.len(),
                None => first_named(self.known_names(), name@) is None,
            },
    {
        let ghost names = self.known_names();
        let mut i: usize = 0;
        while i < self.known_resources.len()
            invariant
                i <= self.known_resources@.len(),
                names == self.known_names(),
                names.len() == self.known_resources@.len(),
                forall|j: int| 0 <= j < i ==> names[j] != name@,
            decreases self.known_resources@.len() - i,
        {
            if str_eq(self.known_resources[i].0.as_str(), name) {
                proof {
                    assert(names[i as int] == name@);
                    let c = choose|k: int| 0 <= k < names.len() && names[k] == name@ && forall|j: int| 0 <= j < k ==> names[j] != name@;
                    assert(c == i as int);
                }
                return Some(i);
            }
            i = i + 1;
        }
        None
    }

    /// Whether a goal can be pursued now.
    pub fn is_goal_valid(&self, goal: &Goal) -> (r: bool)
        ensures
            r == self.goal_valid(*goal),
    {
        match goal {
            Goal::GatherResource(resource_name) => match self.find_known(resource_name.as_str()) {
                Some(i) => self.known_resources[i].1.len() > 0,
                None => false,
            },
            _ => true,
        }
    }

    /// The goals that can be pursued now, in the agent's order.
    pub fn valid_goals(&self) -> (r: Vec<Goal>)
        ensures
            r@ == self.goals@.filter(|g: Goal| self.goal_valid(g)),
    {
        let mut r: Vec<Goal> = Vec::new();
        let mut i: usize = 0;
        while i < self.goals.len()
            invariant
                i <= self.goals@.len(),
                r@ == self.goals@.take(i as int).filter(|g: Goal| self.goal_valid(g)),
            decreases self.goals@.len() - i,
        {
            proof {
                reveal_with_fuel(Seq::filter, 1);
                assert(self.goals@.take(i as int + 1).drop_last() =~= self.goals@.take(i as int));
            }
            if self.is_goal_valid(&self.goals[i]) {
                r.push(self.goals[i].clone());
            }
            i = i + 1;
        }
        proof {
            assert(self.goals@.take(i as int) =~= self.goals@);
        }
        r
    }

    /// The number of players the agent remembers as hostile.
    pub fn count_hostile(&self) -> (r: u32)
        ensures
            r == hostile_count(self.player_memories@) as u32,
    {
        let mut n: u64 = 0;
        let mut i: usize = 0;
        while i < self.player_memories.len()
            invariant
                i <= self.player_memories@.len(),
                n == hostile_count(self.player_memories@.take(i as int)),
                n <= i,
            decreases self.player_memories@.len() - i,
        {
            proof {
                assert(self.player_memories@.take(i as int + 1).drop_last() =~= self.player_memories@.take(i as int));
            }
            if self.player_memories[i].1.relationship == RelationshipStatus::Hostile {
                n = n + 1;
            }
            i = i + 1;
        }
        proof {
            assert(self.player_memories@.take(i as int) =~= self.player_memories@);
        }
        n as u32
    }

    /// The high-level state of the agent: a summary of its inventory, how
    /// many hostile players it remembers, its current health read as a
    /// `u32`, the hunger band it is given, and whether it is night.
    pub fn get_high_level_state(
        &self,
        health: &Health,
        inventory: &Inventory,
        hunger_level: DiscretizedLevel,
        is_day: bool,
    ) -> (r: HighLevelState)
        ensures
            r.inventory_summary.items@ == inventory.items@,
            r.num_hostile_players == hostile_count(self.player_memories@) as u32,
            r.health_level == health.current as u32,
            r.hunger_level == hunger_level,
            r.is_night == !is_day,
    {
        HighLevelState {
            inventory_summary: InventorySummary::from(inventory),
            num_hostile_players: self.count_hostile(),
            health_level: health.current as u32,
            hunger_level,
            is_night: !is_day,
        }
    }

    /// Chooses the next goal. An agent with less than 25 health flees, as does one with no
    /// goal it can pursue; otherwise it takes the pursuable goal at
    /// `preferred`, when that index is in range, or else one of them at random.
    pub fn choose_goal(&self, state: &HighLevelState, preferred: Option<usize>) -> (r: Result<Goal, SimulationError>)
        ensures
            r is Ok,
            must_flee(state) ==> r == Ok::<Goal, SimulationError>(Goal::Flee),
            !must_flee(state) && self.goals@.filter(|g: Goal| self.goal_valid(g)).len() == 0 ==> r == Ok::<Goal, SimulationError>(Goal::Flee),
            !must_flee(state) && self.goals@.filter(|g: Goal| self.goal_valid(g)).len() > 0 ==> (r matches Ok(g)
                && self.goals@.filter(|g: Goal| self.goal_valid(g)).contains(g)),
            !must_flee(state) ==> (preferred matches Some(i) ==> (i < self.goals@.filter(|g: Goal| self.goal_valid(g)).len()
                ==> r == Ok::<Goal, SimulationError>(self.goals@.filter(|g: Goal| self.goal_valid(g))[i as int]))),
    {
        if state.health_level < FLEE_HEALTH_THRESHOLD {
            return Ok(Goal::Flee);
        }
        let valid = self.valid_goals();
        if valid.len() == 0 {
            return Ok(Goal::Flee);
        }
        let index: usize = match preferred {
            Some(i) if i < valid.len() => i,
            _ => {
                let hi: i32 = if valid.len() - 1 > 0x7fff_ffff { 0x7fff_ffff } else { (valid.len() - 1) as i32 };
                random_in(0, hi) as usize
            },
        };
        let g = valid[index].clone();
        proof {
            assert(valid@.contains(valid@[index as int]));
        }
        Ok(g)
    }

    /// The steps needed to hold each ingredient of `required`: for each one
    /// that is short, in the order the table lists them, explore first when
    /// no place holding it is known, then gather it.
    pub fn plan_resource_gathering(&self, inventory: &Inventory, required: &ItemCounts) -> (r: Vec<Goal>)
        ensures
            r@ == gathering_plan(inventory.items@, self.known_names(), required.seq()),
    {
        let mut plan: Vec<Goal> = Vec::new();
        let n = required.len();
        let mut i: usize = 0;
        while i < n
            invariant
                n == required.seq().len(),
                i <= n,
                plan@ == gathering_plan(inventory.items@, self.known_names(), required.seq().take(i as int)),
            decreases n - i,
        {
            let resource = required.name_at(i);
            let required_amount = required.count_at(i);
            proof {
                assert(required.seq().take(i as int + 1).drop_last() =~= required.seq().take(i as int));
                assert(required.seq().take(i as int + 1).last() == required.seq()[i as int]);
            }
            let has_enough = inventory.get_quantity(resource.as_str()) >= required_amount;
            if !has_enough {
                if self.find_known(resource.as_str()).is_none() {
                    plan.push(Goal::Explore);
                }
                plan.push(Goal::GatherResource(resource.clone()));
            }
            i = i + 1;
        }
        proof {
            assert(required.seq().take(n as int) =~= required.seq());
        }
        plan
    }

    /// The plan for a goal that needs the recipe of `name`: an error naming
    /// the item on a cycle when the recipe depends on itself, else the
    /// gathering steps for what the recipe asks for, then the goal.
    pub open spec fn recipe_plan(&self, inventory: &Inventory, goal: Goal, name: Seq<char>, r: Result<Vec<Goal>, SimulationError>) -> bool {
        match expand(self.recipe_manager.table(), name, 1, Set::empty()) {
            Expansion::Cycle(c) => r matches Err(SimulationError::CircularDependency(m)) && m@ == c,
            _ => r matches Ok(p) && exists|req: ItemCounts| #![auto] expand(self.recipe_manager.table(), name, 1, Set::empty())
                == Expansion::Totals(crate::counts::as_ints(req@))
                && p@ == gathering_plan(inventory.items@, self.known_names(), req.seq()).push(goal),
        }
    }

    /// The sub-goals that lead to `goal`, ending with the goal itself. To
    /// craft or build, first gather what the recipe asks for; to stockpile a
    /// resource not held, first gather it. Fails when the recipe depends on
    /// itself.
    pub fn plan_goal(&self, inventory: &Inventory, goal: &Goal) -> (r: Result<Vec<Goal>, SimulationError>)
        requires
            goal matches Goal::CraftItem(n) ==> expand(self.recipe_manager.table(), n@, 1, Set::empty()) != Expansion::Overflow,
            goal matches Goal::Build(n) ==> expand(self.recipe_manager.table(), n@, 1, Set::empty()) != Expansion::Overflow,
        ensures
            match goal {
                Goal::CraftItem(n) => self.recipe_plan(inventory, *goal, n@, r),
                Goal::Build(n) => self.recipe_plan(inventory, *goal, n@, r),
                Goal::Stockpile(n) => r matches Ok(p) && p@ == if quantity_in(inventory.items@, n@) >= 1 {
                    seq![*goal]
                } else {
                    seq![Goal::GatherResource(*n), *goal]
                },
                _ => r matches Ok(p) && p@ == seq![*goal],
            },
    {
        let mut plan: Vec<Goal> = Vec::new();
        match goal {
            Goal::CraftItem(item_name) => {
                let required = match self.recipe_manager.get_required_resources(item_name.as_str(), 1) {
                    Ok(m) => m,
                    Err(e) => return Err(e),
                };
                plan = self.plan_resource_gathering(inventory, &required);
                plan.push(goal.clone());
            },
            Goal::Build(structure_name) => {
                let required = match self.recipe_manager.get_required_resources(structure_name.as_str(), 1) {
                    Ok(m) => m,
                    Err(e) => return Err(e),
                };
                plan = self.plan_resource_gathering(inventory, &required);
                plan.push(goal.clone());
            },
            Goal::Stockpile(resource) => {
                let has_enough = inventory.has_item(resource.as_str(), 1);
                if !has_enough {
                    plan.push(Goal::GatherResource(resource.clone()));
                }
                plan.push(goal.clone());
            },
            _ => {
                plan.push(goal.clone());
            },
        }
        Ok(plan)
    }
}

} // verus!
