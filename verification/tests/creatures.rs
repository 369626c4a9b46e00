use std::sync::Arc;

use rust_simulation::actions::Direction;
use rust_simulation::animal::{direction_for_roll, Animal};
use rust_simulation::animals::pack::{form_new_packs_system, join_existing_packs_system, Pack};
use rust_simulation::animals::pig::{
    direction_from_index, flee_step, flee_stop_system, fleeing_system, wander_step, wandering_system, SimpleAi,
    FLEE_TIMER, WANDER_TIMER,
};
use rust_simulation::animals::wolf::{
    closest_in_view, distance2, find_position, wolf_ai_step, wolf_ai_system, PackView, WolfAI, WolfState,
    WolfSurroundings,
};
use rust_simulation::brain::{BrainComponent, DiscretizedLevel, Goal, PlayerMemory, RelationshipStatus};
use rust_simulation::components::{Health, Inventory, Position, Velocity};
use rust_simulation::counts::ItemCounts;
use rust_simulation::dropped_item::DroppedItem;
use rust_simulation::errors::SimulationError;
use rust_simulation::player::Player;
use rust_simulation::recipes::RecipeManager;

fn at(x: u32, y: u32) -> Position {
    Position { x, y }
}

#[test]
fn pigs_wander_on_a_timer() {
    let mut ai = SimpleAi::default();
    let mut v = Velocity { dx: 0, dy: 0 };
    wander_step(&mut ai, &mut v, 1, -1);
    assert_eq!(ai.direction, (1, -1));
    assert_eq!((v.dx, v.dy), (1, -1));
    assert_eq!(ai.move_timer, WANDER_TIMER);
    wander_step(&mut ai, &mut v, -1, 0);
    assert_eq!(ai.direction, (1, -1));
    assert_eq!(ai.move_timer, WANDER_TIMER - 1);
    let mut fresh = SimpleAi::default();
    wandering_system(&mut fresh, &mut v);
    assert_eq!(fresh.move_timer, WANDER_TIMER);
    assert!(v.dx.abs() <= 1 && v.dy.abs() <= 1);
}

#[test]
fn pigs_flee_away_from_attackers() {
    let mut ai = SimpleAi::default();
    let mut v = Velocity { dx: 0, dy: 0 };
    fleeing_system(&mut ai, &mut v, at(5, 5), at(7, 5));
    assert_eq!(ai.direction, (-1, 0));
    assert_eq!((v.dx, v.dy), (-1, 0));
    assert_eq!(ai.move_timer, FLEE_TIMER);
    flee_step(&mut ai, &mut v, at(3, 3), at(3, 3), (0, 1));
    assert_eq!(ai.direction, (0, 1));
    fleeing_system(&mut ai, &mut v, at(3, 3), at(3, 3));
    assert_ne!(ai.direction, (0, 0));
    assert!(!flee_stop_system(&ai));
    assert!(flee_stop_system(&SimpleAi::default()));
    assert_eq!(direction_from_index(0), (-1, -1));
    assert_eq!(direction_from_index(7), (1, 1));
}

#[test]
fn wolves_measure_and_find() {
    assert_eq!(distance2(at(1, 2), at(4, 6)), 25);
    let list = vec![(3, at(9, 9)), (4, at(2, 1)), (5, at(1, 2))];
    assert_eq!(closest_in_view(&list, at(0, 0)), Some(1));
    assert_eq!(closest_in_view(&list, at(40, 40)), None);
    assert_eq!(find_position(&list, 5), Some(at(1, 2)));
    assert_eq!(find_position(&list, 6), None);
}

fn surroundings(prey: Vec<(usize, Position)>, hungry: bool) -> WolfSurroundings {
    WolfSurroundings { pack: None, leader_position: None, prey, players: Vec::new(), hungry }
}

#[test]
fn a_hungry_lone_wolf_hunts_and_bites() {
    let mut ai = WolfAI::default();
    let mut v = Velocity { dx: 0, dy: 0 };
    let attack = wolf_ai_step(1, &mut ai, &mut v, at(0, 0), &surroundings(vec![(7, at(3, 0))], true), (0, 1));
    assert_eq!(attack, None);
    assert_eq!(ai.state, WolfState::Hunting);
    assert_eq!(ai.target, Some(7));
    assert_eq!((v.dx, v.dy), (1, 0));
    let attack = wolf_ai_step(1, &mut ai, &mut v, at(2, 1), &surroundings(vec![(7, at(3, 0))], true), (0, 1));
    assert_eq!(attack, Some(7));
}

#[test]
fn a_sated_wolf_wanders() {
    let mut ai = WolfAI::default();
    let mut v = Velocity { dx: 0, dy: 0 };
    let attack = wolf_ai_step(1, &mut ai, &mut v, at(0, 0), &surroundings(vec![(7, at(1, 0))], false), (-1, 1));
    assert_eq!(attack, None);
    assert_eq!(ai.state, WolfState::Wandering);
    assert_eq!((v.dx, v.dy), (-1, 1));
    assert_eq!(ai.timer, 60);
    let attack = wolf_ai_system(1, &mut ai, &mut v, at(0, 0), &surroundings(Vec::new(), false));
    assert_eq!(attack, None);
    assert_eq!(ai.timer, 59);
}

#[test]
fn followers_keep_to_their_leader() {
    let mut ai = WolfAI { state: WolfState::Wandering, target: None, timer: 5, pack: Some(100) };
    let mut v = Velocity { dx: 0, dy: 0 };
    let s = WolfSurroundings {
        pack: Some(PackView { members: 2, leader: Some(2) }),
        leader_position: Some(at(10, 10)),
        prey: Vec::new(),
        players: Vec::new(),
        hungry: true,
    };
    wolf_ai_step(1, &mut ai, &mut v, at(0, 0), &s, (0, 0));
    assert_eq!((v.dx, v.dy), (1, 1));
    assert_eq!(ai.pack, Some(100));
}

#[test]
fn nearby_lone_wolves_pair_up() {
    let lone = vec![(1, at(0, 0), 0), (2, at(20, 20), 3), (3, at(3, 0), 2), (4, at(21, 20), 0)];
    let packs = form_new_packs_system(&lone);
    assert_eq!(packs, vec![(3, 1, 3)]);
    let close = vec![(1, at(0, 0), 0), (2, at(1, 0), 0), (3, at(40, 0), 0), (4, at(41, 0), 1), (5, at(42, 0), 0)];
    assert_eq!(form_new_packs_system(&close), vec![(1, 1, 2), (4, 4, 5)]);
    assert!(form_new_packs_system(&vec![(1, at(0, 0), 0), (2, at(50, 0), 0)]).is_empty());
}

#[test]
fn lone_wolves_join_packs_with_room() {
    let mut packs = vec![
        (10, Pack { members: vec![1, 2, 3], leader: Some(1) }),
        (11, Pack { members: vec![4], leader: Some(4) }),
    ];
    let positions = vec![(1, at(0, 0)), (4, at(1, 1)), (5, at(2, 2)), (6, at(30, 30))];
    let joined = join_existing_packs_system(&vec![(5, at(2, 2)), (6, at(30, 30))], &mut packs, &positions);
    assert_eq!(joined, vec![(5, 11)]);
    assert_eq!(packs[1].1.members, vec![4, 5]);
    assert_eq!(packs[0].1.members, vec![1, 2, 3]);
}

#[test]
fn entities_report_themselves() {
    let a = Animal { id: 4, health: 0, species: "pig".to_string() };
    assert_eq!(a.get_id(), 4);
    assert_eq!(a.get_position(), (0, 0));
    assert!(!a.is_alive());
    assert_eq!(a.get_health(), 0);
    let _ = a.choose_direction();
    let mut d = DroppedItem { id: 2, x: 3, y: 4, item: "meat".to_string(), quantity: 1 };
    assert_eq!(d.get_position(), (3, 4));
    assert_eq!(d.get_health(), 1);
    assert!(d.is_alive());
    assert!(matches!(d.update(), Ok(None)));
    let mut p = Player::new(3, 4, 2);
    p.held_item = Some("stone".to_string());
    p.reset();
    assert_eq!(p.held_item, None);
    assert_eq!(p.mental_map.grid.len(), 2);
    assert_eq!(p.mental_map.grid[0].len(), 4);
}

fn counts(parts: &[(&str, u32)]) -> ItemCounts {
    let mut c = ItemCounts::new();
    for (name, n) in parts {
        c.insert(name, *n);
    }
    c
}

fn brain() -> BrainComponent {
    let recipes = RecipeManager::with_recipes(vec![
        ("stone_axe".to_string(), counts(&[("stone", 2), ("wood", 1)])),
        ("loop".to_string(), counts(&[("loop", 1)])),
    ]);
    BrainComponent::new(Arc::new(recipes), 8, 8)
}

#[test]
fn plans_gather_what_is_missing() {
    let mut b = brain();
    b.known_resources.push(("stone".to_string(), vec![at(1, 1)]));
    let mut inv = Inventory::new();
    inv.add_item("wood", 1);
    let plan = b.plan_goal(&inv, &Goal::CraftItem("stone_axe".to_string())).unwrap();
    assert_eq!(plan, vec![Goal::GatherResource("stone".to_string()), Goal::CraftItem("stone_axe".to_string())]);
    let empty = Inventory::new();
    let plan = b.plan_goal(&empty, &Goal::CraftItem("stone_axe".to_string())).unwrap();
    assert_eq!(plan.len(), 4);
    assert!(plan.contains(&Goal::Explore));
    assert_eq!(plan[3], Goal::CraftItem("stone_axe".to_string()));
    let plan = b.plan_goal(&empty, &Goal::Stockpile("wood".to_string())).unwrap();
    assert_eq!(plan, vec![Goal::GatherResource("wood".to_string()), Goal::Stockpile("wood".to_string())]);
    let plan = b.plan_goal(&inv, &Goal::Stockpile("wood".to_string())).unwrap();
    assert_eq!(plan, vec![Goal::Stockpile("wood".to_string())]);
    assert_eq!(b.plan_goal(&inv, &Goal::Flee).unwrap(), vec![Goal::Flee]);
    assert!(matches!(b.plan_goal(&inv, &Goal::Build("loop".to_string())), Err(SimulationError::CircularDependency(_))));
}

#[test]
fn goals_need_known_resources() {
    let mut b = brain();
    assert!(!b.is_goal_valid(&Goal::GatherResource("wood".to_string())));
    assert!(b.is_goal_valid(&Goal::Explore));
    b.known_resources.push(("wood".to_string(), vec![]));
    assert!(!b.is_goal_valid(&Goal::GatherResource("wood".to_string())));
    b.known_resources[0].1.push(at(2, 2));
    assert!(b.is_goal_valid(&Goal::GatherResource("wood".to_string())));
    assert_eq!(b.valid_goals().len(), 4);
}

#[test]
fn weak_agents_flee() {
    let mut b = brain();
    let inv = Inventory::new();
    let low = b.get_high_level_state(&Health { current: 20, max: 100 }, &inv, DiscretizedLevel::High, true);
    assert_eq!(low.health_level, 20);
    assert!(!low.is_night);
    assert_eq!(b.choose_goal(&low, Some(0)).unwrap(), Goal::Flee);
    let edge = b.get_high_level_state(&Health { current: 24, max: 30 }, &inv, DiscretizedLevel::High, true);
    assert_eq!(b.choose_goal(&edge, Some(1)).unwrap(), Goal::Flee);
    let third = b.get_high_level_state(&Health { current: 30, max: 100 }, &inv, DiscretizedLevel::High, true);
    assert_eq!(b.choose_goal(&third, Some(1)).unwrap(), Goal::Build("foundation".to_string()));
    let at_threshold = b.get_high_level_state(&Health { current: 25, max: 100 }, &inv, DiscretizedLevel::High, true);
    assert_ne!(b.choose_goal(&at_threshold, Some(1)).unwrap(), Goal::Flee);
    let fine = b.get_high_level_state(&Health { current: 90, max: 100 }, &inv, DiscretizedLevel::Low, false);
    assert_eq!(fine.health_level, 90);
    assert_eq!(fine.hunger_level, DiscretizedLevel::Low);
    assert_eq!(b.choose_goal(&fine, Some(1)).unwrap(), Goal::Build("foundation".to_string()));
    b.player_memories.push((3, PlayerMemory { relationship: RelationshipStatus::Hostile }));
    let st = b.get_high_level_state(&Health { current: 50, max: 100 }, &inv, DiscretizedLevel::Medium, true);
    assert_eq!(st.num_hostile_players, 1);
    assert_eq!(st.health_level, 50);
}

#[test]
fn animal_rolls_map_to_directions() {
    assert_eq!(direction_for_roll(0), Direction::Up);
    assert_eq!(direction_for_roll(1), Direction::Down);
    assert_eq!(direction_for_roll(2), Direction::Left);
    assert_eq!(direction_for_roll(3), Direction::Right);
    let animal = Animal { id: 1, health: 5, species: String::from("pig") };
    for _ in 0..20 {
        let d = animal.choose_direction();
        assert!(matches!(d, Direction::Up | Direction::Down | Direction::Left | Direction::Right));
    }
}

#[test]
fn full_packs_take_no_more_wolves() {
    let mut packs = vec![(10, Pack { members: vec![1, 2, 3], leader: Some(1) })];
    let positions = vec![(1, at(0, 0)), (7, at(1, 1)), (8, at(2, 0))];
    let joined = join_existing_packs_system(&vec![(7, at(1, 1)), (8, at(2, 0))], &mut packs, &positions);
    assert!(joined.is_empty());
    assert_eq!(packs[0].1.members, vec![1, 2, 3]);
    let mut small = vec![(11, Pack { members: vec![1], leader: Some(1) })];
    let joined = join_existing_packs_system(&vec![(7, at(1, 1)), (8, at(2, 0)), (9, at(0, 1))], &mut small, &positions);
    assert_eq!(joined, vec![(7, 11), (8, 11)]);
    assert_eq!(small[0].1.members, vec![1, 7, 8]);
}
