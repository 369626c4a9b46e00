use std::sync::Arc;

use rust_simulation::brain::BrainComponent;
use rust_simulation::components::{
    Chest, DroppedItem, Health, Inventory, Position, Resource, Velocity, WantsToAttack, WantsToBuild,
    WantsToCraft, WantsToGather, WantsToPickup, WantsToStoreItem,
};
use rust_simulation::counts::ItemCounts;
use rust_simulation::ecs::World;
use rust_simulation::events::{Event, EventBus};
use rust_simulation::map::{GameMap, Tile};
use rust_simulation::recipes::RecipeManager;
use rust_simulation::systems::{
    adjacent_resource, brain_event_handler_system, building_system, combat_system, crafting_system, death_system,
    gathering_system, movement_system, pickup_system, storage_system,
};

fn recipes(entries: &[(&str, &[(&str, u32)])]) -> RecipeManager {
    let mut list = Vec::new();
    for (name, parts) in entries {
        let mut counts = ItemCounts::new();
        for (part, n) in parts.iter() {
            counts.insert(part, *n);
        }
        list.push((name.to_string(), counts));
    }
    RecipeManager::with_recipes(list)
}

#[test]
fn test_remove_entity() {
    let mut world = World::new();
    let entity1 = world.create_entity();
    world.positions.add_component(entity1, Position { x: 1, y: 2 });
    world.velocities.add_component(entity1, Velocity { dx: 3, dy: 4 });

    let entity2 = world.create_entity();
    world.positions.add_component(entity2, Position { x: 5, y: 6 });

    world.remove_entity(entity1);

    assert!(!world.entities.contains(&entity1));
    assert!(world.positions.get_component(entity1).is_none());
    assert!(world.velocities.get_component(entity1).is_none());
    assert!(world.positions.get_component(entity2).is_some());
}

#[test]
fn test_building_system_publishes_event() {
    let mut world = World::new();
    let mut map = GameMap::new(10, 10);
    let mut event_bus = EventBus::new();
    let recipe_manager = recipes(&[("foundation", &[("stone", 10)])]);

    let builder_entity = world.create_entity();
    let build_pos = Position { x: 5, y: 5 };
    world.positions.add_component(builder_entity, build_pos);
    let mut inventory = Inventory::new();
    inventory.add_item("stone", 20);
    world.inventories.add_component(builder_entity, inventory);
    world.wants_to_build.add_component(builder_entity, WantsToBuild { structure_name: "foundation".to_string() });

    map.set_tile(build_pos.x, build_pos.y, Tile::new('.', "plains".to_string()));

    building_system(&mut world, &mut map, &mut event_bus, &recipe_manager);

    let events = event_bus.take_events();
    assert_eq!(events.len(), 1);
    assert!(matches!(events[0], Event::FoundationBuilt { builder, position } if builder == builder_entity && position == build_pos));
}

#[test]
fn building_a_chest_makes_a_chest_entity() {
    let mut world = World::new();
    let mut map = GameMap::new(10, 10);
    let mut event_bus = EventBus::new();
    let recipe_manager = recipes(&[("chest", &[("wood", 4)])]);
    let builder = world.create_entity();
    world.positions.add_component(builder, Position { x: 2, y: 3 });
    let mut inventory = Inventory::new();
    inventory.add_item("wood", 5);
    world.inventories.add_component(builder, inventory);
    world.wants_to_build.add_component(builder, WantsToBuild { structure_name: "chest".to_string() });
    map.set_tile(2, 3, Tile::new('.', "plains".to_string()));

    building_system(&mut world, &mut map, &mut event_bus, &recipe_manager);

    assert_eq!(world.entities.len(), 2);
    let chest = world.entities[1];
    assert_eq!(*world.positions.get_component(chest).unwrap(), Position { x: 2, y: 3 });
    assert!(world.chests.get_component(chest).is_some());
    assert_eq!(map.get_tile(2, 3).unwrap().tile_type, 'C');
    assert_eq!(world.inventories.get_component(builder).unwrap().get_quantity("wood"), 1);
    assert!(world.wants_to_build.get_component(builder).is_none());
    assert!(event_bus.take_events().is_empty());
}

#[test]
fn building_needs_grass_and_materials() {
    let mut world = World::new();
    let mut map = GameMap::new(10, 10);
    let mut event_bus = EventBus::new();
    let recipe_manager = recipes(&[("wall", &[("stone", 3)])]);
    let poor = world.create_entity();
    world.positions.add_component(poor, Position { x: 1, y: 1 });
    let mut inventory = Inventory::new();
    inventory.add_item("stone", 2);
    world.inventories.add_component(poor, inventory);
    world.wants_to_build.add_component(poor, WantsToBuild { structure_name: "wall".to_string() });
    map.set_tile(1, 1, Tile::new('.', "plains".to_string()));

    let rich = world.create_entity();
    world.positions.add_component(rich, Position { x: 4, y: 4 });
    let mut inventory = Inventory::new();
    inventory.add_item("stone", 9);
    world.inventories.add_component(rich, inventory);
    world.wants_to_build.add_component(rich, WantsToBuild { structure_name: "wall".to_string() });

    building_system(&mut world, &mut map, &mut event_bus, &recipe_manager);

    assert_eq!(map.get_tile(1, 1).unwrap().tile_type, '.');
    assert_eq!(map.get_tile(4, 4).unwrap().tile_type, ' ');
    assert_eq!(world.inventories.get_component(poor).unwrap().get_quantity("stone"), 2);
    assert_eq!(world.inventories.get_component(rich).unwrap().get_quantity("stone"), 9);
}

#[test]
fn test_brain_event_handler_system_sets_home_base() {
    let mut world = World::new();
    let mut event_bus = EventBus::new();

    let player_entity = world.create_entity();
    world.brains.add_component(player_entity, BrainComponent::new(Arc::new(RecipeManager::with_recipes(Vec::new())), 10, 10));

    let build_pos = Position { x: 7, y: 8 };
    event_bus.publish(Event::FoundationBuilt { builder: player_entity, position: build_pos });

    brain_event_handler_system(&mut world, &mut event_bus);

    let brain_component = world.brains.get_component(player_entity).unwrap();
    assert_eq!(brain_component.home_base, Some(build_pos));
}

#[test]
fn home_base_is_the_first_foundation() {
    let mut world = World::new();
    let mut event_bus = EventBus::new();
    let agent = world.create_entity();
    world.brains.add_component(agent, BrainComponent::new(Arc::new(RecipeManager::with_recipes(Vec::new())), 4, 4));
    event_bus.publish(Event::EntityDied(9));
    event_bus.publish(Event::FoundationBuilt { builder: agent, position: Position { x: 1, y: 1 } });
    event_bus.publish(Event::FoundationBuilt { builder: agent, position: Position { x: 2, y: 2 } });
    brain_event_handler_system(&mut world, &mut event_bus);
    assert_eq!(world.brains.get_component(agent).unwrap().home_base, Some(Position { x: 1, y: 1 }));
    assert!(event_bus.take_events().is_empty());
}

#[test]
fn test_movement_system() {
    let mut world = World::new();
    let mut map = GameMap::new(10, 10);

    let entity = world.create_entity();
    world.positions.add_component(entity, Position { x: 5, y: 5 });
    world.velocities.add_component(entity, Velocity { dx: 1, dy: -1 });
    map.add_entity_to_spatial_map(entity, 5, 5);

    movement_system(&mut world, &mut map);

    let position = world.positions.get_component(entity).unwrap();
    assert_eq!(position.x, 6);
    assert_eq!(position.y, 4);

    assert!(world.velocities.get_component(entity).is_none());
    assert_eq!(map.get_entities_at(5, 5), Some(vec![]));
    assert_eq!(map.get_entities_at(6, 4), Some(vec![entity]));
}

#[test]
fn test_gathering_system() {
    let mut world = World::new();

    let gatherer = world.create_entity();
    world.positions.add_component(gatherer, Position { x: 5, y: 5 });
    world.inventories.add_component(gatherer, Inventory::new());

    let resource_entity = world.create_entity();
    world.positions.add_component(resource_entity, Position { x: 5, y: 6 });
    world.resources.add_component(resource_entity, Resource { name: "wood".to_string(), quantity: 5 });

    world.wants_to_gather.add_component(gatherer, WantsToGather { target: resource_entity });

    gathering_system(&mut world);

    let inventory = world.inventories.get_component(gatherer).unwrap();
    assert_eq!(inventory.get_quantity("wood"), 1);

    let resource = world.resources.get_component(resource_entity).unwrap();
    assert_eq!(resource.quantity, 4);

    assert!(world.wants_to_gather.get_component(gatherer).is_none());
}

#[test]
fn gathering_from_afar_does_nothing() {
    let mut world = World::new();
    let gatherer = world.create_entity();
    world.positions.add_component(gatherer, Position { x: 5, y: 5 });
    world.inventories.add_component(gatherer, Inventory::new());
    let tree = world.create_entity();
    world.positions.add_component(tree, Position { x: 5, y: 7 });
    world.resources.add_component(tree, Resource { name: "wood".to_string(), quantity: 5 });
    world.wants_to_gather.add_component(gatherer, WantsToGather { target: tree });
    gathering_system(&mut world);
    assert_eq!(world.inventories.get_component(gatherer).unwrap().get_quantity("wood"), 0);
    assert_eq!(world.resources.get_component(tree).unwrap().quantity, 5);
    assert!(world.wants_to_gather.get_component(gatherer).is_none());
}

#[test]
fn crafting_spends_the_recipe() {
    let mut world = World::new();
    let recipe_manager = recipes(&[("stone_axe", &[("stone", 2), ("stick", 1)]), ("stick", &[("wood", 1)])]);
    let crafter = world.create_entity();
    let mut inventory = Inventory::new();
    inventory.add_item("stone", 3);
    inventory.add_item("wood", 1);
    world.inventories.add_component(crafter, inventory);
    world.wants_to_craft.add_component(crafter, WantsToCraft { item_name: "stone_axe".to_string() });
    crafting_system(&mut world, &recipe_manager);
    let inventory = world.inventories.get_component(crafter).unwrap();
    assert_eq!(inventory.get_quantity("stone_axe"), 1);
    assert_eq!(inventory.get_quantity("stone"), 1);
    assert_eq!(inventory.get_quantity("wood"), 0);
    assert!(!inventory.has_item("wood", 0));
    assert!(world.wants_to_craft.get_component(crafter).is_none());
}

#[test]
fn crafting_a_cyclic_recipe_does_nothing() {
    let mut world = World::new();
    let recipe_manager = recipes(&[("a", &[("b", 1)]), ("b", &[("a", 1)])]);
    let crafter = world.create_entity();
    let mut inventory = Inventory::new();
    inventory.add_item("a", 3);
    inventory.add_item("b", 3);
    world.inventories.add_component(crafter, inventory);
    world.wants_to_craft.add_component(crafter, WantsToCraft { item_name: "a".to_string() });
    crafting_system(&mut world, &recipe_manager);
    let inventory = world.inventories.get_component(crafter).unwrap();
    assert_eq!(inventory.get_quantity("a"), 3);
    assert_eq!(inventory.get_quantity("b"), 3);
}

#[test]
fn storing_moves_items_into_the_chest() {
    let mut world = World::new();
    let chest = world.create_entity();
    world.chests.add_component(chest, Chest { inventory: Inventory::new() });
    let agent = world.create_entity();
    let mut inventory = Inventory::new();
    inventory.add_item("wood", 5);
    world.inventories.add_component(agent, inventory);
    world.wants_to_store.add_component(agent, WantsToStoreItem { item_name: "wood".to_string(), quantity: 5, target_chest: chest });
    storage_system(&mut world);
    assert!(!world.inventories.get_component(agent).unwrap().has_item("wood", 1));
    assert_eq!(world.chests.get_component(chest).unwrap().inventory.get_quantity("wood"), 5);
    assert!(world.wants_to_store.get_component(agent).is_none());
}

#[test]
fn storing_more_than_held_does_nothing() {
    let mut world = World::new();
    let chest = world.create_entity();
    world.chests.add_component(chest, Chest { inventory: Inventory::new() });
    let agent = world.create_entity();
    let mut inventory = Inventory::new();
    inventory.add_item("wood", 2);
    world.inventories.add_component(agent, inventory);
    world.wants_to_store.add_component(agent, WantsToStoreItem { item_name: "wood".to_string(), quantity: 3, target_chest: chest });
    storage_system(&mut world);
    assert_eq!(world.inventories.get_component(agent).unwrap().get_quantity("wood"), 2);
    assert_eq!(world.chests.get_component(chest).unwrap().inventory.get_quantity("wood"), 0);
}

#[test]
fn attacks_deal_ten_and_announce_deaths() {
    let mut world = World::new();
    let mut event_bus = EventBus::new();
    let a = world.create_entity();
    let b = world.create_entity();
    let victim = world.create_entity();
    world.healths.add_component(victim, Health { current: 15, max: 100 });
    world.wants_to_attack.add_component(a, WantsToAttack { target: victim });
    world.wants_to_attack.add_component(b, WantsToAttack { target: victim });
    combat_system(&mut world, &mut event_bus);
    assert_eq!(world.healths.get_component(victim).unwrap().current, -5);
    let events = event_bus.take_events();
    assert_eq!(events.len(), 1);
    assert!(matches!(events[0], Event::EntityDied(e) if e == victim));
    assert!(world.wants_to_attack.get_component(a).is_none());
}

#[test]
fn the_dead_leave_meat() {
    let mut world = World::new();
    let mut map = GameMap::new(10, 10);
    let mut event_bus = EventBus::new();
    let pig = world.create_entity();
    world.positions.add_component(pig, Position { x: 3, y: 3 });
    world.healths.add_component(pig, Health { current: 0, max: 10 });
    map.add_entity_to_spatial_map(pig, 3, 3);
    event_bus.publish(Event::EntityDied(pig));
    death_system(&mut world, &mut event_bus, &mut map);
    assert!(!world.entities.contains(&pig));
    assert!(world.healths.get_component(pig).is_none());
    assert_eq!(world.entities.len(), 1);
    let meat = world.entities[0];
    let item = world.dropped_items.get_component(meat).unwrap();
    assert_eq!(item.item_name, "meat");
    assert_eq!(item.quantity, 1);
    assert_eq!(map.get_entities_at(3, 3), Some(vec![meat]));
}

#[test]
fn picking_up_takes_what_lies_on_the_tile() {
    let mut world = World::new();
    let mut map = GameMap::new(10, 10);
    let agent = world.create_entity();
    world.positions.add_component(agent, Position { x: 4, y: 4 });
    world.inventories.add_component(agent, Inventory::new());
    world.wants_to_pickup.add_component(agent, WantsToPickup {});
    map.add_entity_to_spatial_map(agent, 4, 4);
    let meat = world.create_entity();
    world.positions.add_component(meat, Position { x: 4, y: 4 });
    world.dropped_items.add_component(meat, DroppedItem { item_name: "meat".to_string(), quantity: 2 });
    map.add_entity_to_spatial_map(meat, 4, 4);
    let far = world.create_entity();
    world.positions.add_component(far, Position { x: 1, y: 1 });
    world.dropped_items.add_component(far, DroppedItem { item_name: "meat".to_string(), quantity: 7 });
    map.add_entity_to_spatial_map(far, 1, 1);

    pickup_system(&mut world, &mut map);

    assert_eq!(world.inventories.get_component(agent).unwrap().get_quantity("meat"), 2);
    assert!(!world.entities.contains(&meat));
    assert!(world.entities.contains(&far));
    assert_eq!(map.get_entities_at(4, 4), Some(vec![agent]));
    assert!(world.wants_to_pickup.get_component(agent).is_none());
}

#[test]
fn resetting_players_empties_their_hands() {
    let mut world = World::new();
    let p = world.create_entity();
    let mut player = rust_simulation::player::Player::new(7, 3, 3);
    player.held_item = Some("axe".to_string());
    world.players.add_component(p, player);
    rust_simulation::systems::reset_players(&mut world);
    let player = world.players.get_component(p).unwrap();
    assert_eq!(player.held_item, None);
    assert_eq!(player.id, 7);
}

#[test]
fn start_positions_are_distinct_plains() {
    let mut world = World::new();
    let mut map = GameMap::new(4, 4);
    for (x, y) in [(0u32, 0u32), (1, 2), (3, 3)] {
        map.set_tile(x, y, Tile::new('.', "plains".to_string()));
    }
    let a = world.create_entity();
    let b = world.create_entity();
    let c = world.create_entity();
    world.positions.add_component(a, Position { x: 9, y: 9 });
    world.positions.add_component(c, Position { x: 9, y: 9 });
    let _ = b;
    rust_simulation::systems::find_and_set_valid_start_positions(&mut world, &map, '.');
    let pa = *world.positions.get_component(a).unwrap();
    let pc = *world.positions.get_component(c).unwrap();
    assert!(world.positions.get_component(b).is_none());
    assert_ne!(pa, pc);
    for p in [pa, pc] {
        assert_eq!(map.get_tile(p.x, p.y).unwrap().tile_type, '.');
    }
}

#[test]
fn agents_find_the_resource_beside_them() {
    let mut world = World::new();
    let far = world.create_entity();
    let empty = world.create_entity();
    let near = world.create_entity();
    world.resources.add_component(far, Resource { name: "wood".to_string(), quantity: 3 });
    world.positions.add_component(far, Position { x: 9, y: 9 });
    world.resources.add_component(empty, Resource { name: "wood".to_string(), quantity: 0 });
    world.positions.add_component(empty, Position { x: 5, y: 5 });
    world.resources.add_component(near, Resource { name: "wood".to_string(), quantity: 2 });
    world.positions.add_component(near, Position { x: 4, y: 6 });
    assert_eq!(adjacent_resource(&world, Position { x: 5, y: 5 }, "wood"), Some(near));
    assert_eq!(adjacent_resource(&world, Position { x: 5, y: 5 }, "stone"), None);
    assert_eq!(adjacent_resource(&world, Position { x: 0, y: 0 }, "wood"), None);
}

#[test]
fn identifiers_follow_creation_order() {
    let mut world = World::new();
    assert_eq!(world.create_entity(), 0);
    assert_eq!(world.create_entity(), 1);
    world.remove_entity(0);
    assert_eq!(world.create_entity(), 2);
    world.remove_entity(2);
    assert_eq!(world.create_entity(), 3);
    assert_eq!(world.entities, vec![1, 3]);
}
