use std::collections::HashSet;

use rust_simulation::components::Position;
use rust_simulation::config::{is_day, update_day_night, DayNightCycle};
use rust_simulation::ecs::World;
use rust_simulation::fov::{field_of_view, transform_octant};
use rust_simulation::map::{GameMap, Tile, TileState};
use rust_simulation::map_generator::Biome;
use rust_simulation::player::Player;
use rust_simulation::systems::{get_visible_tiles, visibility_system};

const DAY_LENGTH: u32 = 240;
const NIGHT_LENGTH: u32 = 120;

fn plains(width: u32, height: u32) -> GameMap {
    let biomes = vec![Biome { name: "plains".to_string(), tile_type: '.' }];
    let choice = vec![vec![Some(0usize); width as usize]; height as usize];
    GameMap::with_biomes(width, height, &biomes, &choice)
}

#[test]
fn test_is_day() {
    let cycle = DayNightCycle { day_length: DAY_LENGTH, night_length: NIGHT_LENGTH };
    assert!(is_day(0, &cycle));
    assert!(is_day(DAY_LENGTH - 1, &cycle));
    assert!(!is_day(DAY_LENGTH, &cycle));
    assert!(!is_day(DAY_LENGTH + NIGHT_LENGTH - 1, &cycle));
    assert!(is_day(DAY_LENGTH + NIGHT_LENGTH, &cycle));
}

#[test]
fn day_night_advances_the_clock() {
    let cycle = DayNightCycle { day_length: 2, night_length: 1 };
    let mut tick = 0u32;
    assert!(update_day_night(&mut tick, &cycle));
    assert_eq!(tick, 1);
    assert!(!update_day_night(&mut tick, &cycle));
    assert!(update_day_night(&mut tick, &cycle));
    assert_eq!(tick, 3);
}

#[test]
fn test_get_visible_tiles() {
    let map = plains(100, 100);
    let pos = Position { x: 50, y: 50 };

    let visible_tiles_day = get_visible_tiles(&map, &pos, true);
    assert_eq!(visible_tiles_day.len(), 197);

    let visible_tiles_night = get_visible_tiles(&map, &pos, false);
    assert_eq!(visible_tiles_night.len(), 49);
}

#[test]
fn test_visibility_system_day_night() {
    let map = plains(100, 100);
    let mut world = World::new();
    let player_entity = world.create_entity();
    world.players.add_component(player_entity, Player::new(0, 100, 100));
    world.positions.add_component(player_entity, Position { x: 50, y: 50 });

    visibility_system(&mut world, &map, is_day(0, &DayNightCycle { day_length: DAY_LENGTH, night_length: NIGHT_LENGTH }));
    let player = world.players.get_component(player_entity).unwrap();
    let visible_count = player.mental_map.grid.iter().flatten().filter(|&&s| s == TileState::Visible).count();
    assert_eq!(visible_count, 197, "Visible tiles on a clear day");

    visibility_system(&mut world, &map, is_day(DAY_LENGTH, &DayNightCycle { day_length: DAY_LENGTH, night_length: NIGHT_LENGTH }));
    let player = world.players.get_component(player_entity).unwrap();
    let visible_count = player.mental_map.grid.iter().flatten().filter(|&&s| s == TileState::Visible).count();
    assert_eq!(visible_count, 49, "Visible tiles on a clear night");
    let explored = player.mental_map.grid.iter().flatten().filter(|&&s| s == TileState::Explored).count();
    assert_eq!(explored, 197 - 49);
}

#[test]
fn test_trees_block_vision() {
    let mut map = plains(100, 100);
    let player_pos = Position { x: 50, y: 50 };
    let tree_pos = Position { x: 51, y: 51 };
    let target_pos = Position { x: 52, y: 52 };

    map.set_tile(tree_pos.x, tree_pos.y, Tile::new('T', "plains".to_string()));
    let visible_positions: HashSet<Position> = get_visible_tiles(&map, &player_pos, true).into_iter().map(|(p, _)| p).collect();
    assert!(visible_positions.contains(&tree_pos), "Tree should be visible");
    assert!(!visible_positions.contains(&target_pos), "Tile behind tree should not be visible");

    map.set_tile(tree_pos.x, tree_pos.y, Tile::new('.', "plains".to_string()));
    let visible_positions_no_tree: HashSet<Position> = get_visible_tiles(&map, &player_pos, true).into_iter().map(|(p, _)| p).collect();
    assert!(visible_positions_no_tree.contains(&target_pos), "Tile should be visible without tree");
}

#[test]
fn walls_hide_what_lies_behind() {
    let mut map = plains(30, 30);
    map.set_tile(11, 10, Tile::new('#', "plains".to_string()));
    let seen: HashSet<Position> = field_of_view(&Position { x: 10, y: 10 }, 8, &map).into_iter().collect();
    assert!(seen.contains(&Position { x: 11, y: 10 }));
    assert!(!seen.contains(&Position { x: 13, y: 10 }));
    assert!(seen.contains(&Position { x: 10, y: 13 }));
}

#[test]
fn the_view_stays_on_the_map() {
    let map = plains(5, 5);
    let seen = field_of_view(&Position { x: 0, y: 0 }, 8, &map);
    assert_eq!(seen.len(), 25);
    assert!(seen.iter().all(|p| p.x < 5 && p.y < 5));
}

#[test]
fn octants_rotate_and_mirror() {
    assert_eq!(transform_octant(1, 2, 0), (1, -2));
    assert_eq!(transform_octant(1, 2, 1), (2, -1));
    assert_eq!(transform_octant(1, 2, 2), (2, 1));
    assert_eq!(transform_octant(1, 2, 3), (1, 2));
    assert_eq!(transform_octant(1, 2, 4), (-1, 2));
    assert_eq!(transform_octant(1, 2, 5), (-2, 1));
    assert_eq!(transform_octant(1, 2, 6), (-2, -1));
    assert_eq!(transform_octant(1, 2, 7), (-1, -2));
}

#[test]
fn neighbours_cast_shadows() {
    let mut map = plains(30, 30);
    map.set_tile(10, 9, Tile::new('f', "forest".to_string()));
    map.set_tile(9, 11, Tile::new('T', "plains".to_string()));
    let seen: HashSet<Position> = field_of_view(&Position { x: 10, y: 10 }, 8, &map).into_iter().collect();
    assert!(seen.contains(&Position { x: 10, y: 9 }));
    assert!(!seen.contains(&Position { x: 10, y: 8 }));
    assert!(seen.contains(&Position { x: 9, y: 11 }));
    assert!(!seen.contains(&Position { x: 8, y: 12 }));
    assert!(seen.contains(&Position { x: 12, y: 12 }));
}
