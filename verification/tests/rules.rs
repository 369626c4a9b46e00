use rust_simulation::actions::{get_all_actions, Action, Direction};
use rust_simulation::brain::MemoryTile;
use rust_simulation::components::{Inventory, Position};
use rust_simulation::counts::ItemCounts;
use rust_simulation::errors::SimulationError;
use rust_simulation::map::{GameMap, Tile};
use rust_simulation::map_generator::{assemble_island_chunks, generate_island_map, island_rolls, Biome};
use rust_simulation::pathfinding::{find_path, get_neighbors, heuristic};
use rust_simulation::recipes::RecipeManager;
use rust_simulation::roads::{city_location, pave_road};

fn counts(parts: &[(&str, u32)]) -> ItemCounts {
    let mut c = ItemCounts::new();
    for (name, n) in parts {
        c.insert(name, *n);
    }
    c
}

fn manager() -> RecipeManager {
    RecipeManager::with_recipes(vec![
        ("stone_axe".to_string(), counts(&[("stone", 2), ("stick", 1)])),
        ("stick".to_string(), counts(&[("wood", 2)])),
        ("furnace".to_string(), counts(&[("stone", 8)])),
    ])
}

#[test]
fn raw_items_need_themselves() {
    let r = manager().get_required_resources("wood", 3).unwrap();
    assert_eq!(r.len(), 1);
    assert_eq!(r.get("wood"), Some(3));
}

#[test]
fn recipes_expand_to_raw_resources() {
    let r = manager().get_required_resources("stone_axe", 2).unwrap();
    assert_eq!(r.len(), 2);
    assert_eq!(r.get("stone"), Some(4));
    assert_eq!(r.get("wood"), Some(4));
    assert_eq!(r.get("stick"), None);
}

#[test]
fn cyclic_recipes_are_refused() {
    let m = RecipeManager::with_recipes(vec![
        ("a".to_string(), counts(&[("b", 1)])),
        ("b".to_string(), counts(&[("a", 1)])),
    ]);
    match m.get_required_resources("a", 1) {
        Err(SimulationError::CircularDependency(name)) => assert_eq!(name, "a"),
        _ => panic!("expected a cycle"),
    }
    let selfish = RecipeManager::with_recipes(vec![("x".to_string(), counts(&[("x", 2)]))]);
    assert!(matches!(selfish.get_required_resources("x", 1), Err(SimulationError::CircularDependency(_))));
}

#[test]
fn inventory_counts_add_and_remove() {
    let mut inv = Inventory::new();
    inv.add_item("wood", 3);
    inv.add_item("wood", 2);
    assert_eq!(inv.get_quantity("wood"), 5);
    assert!(inv.has_item("wood", 5));
    assert!(!inv.has_item("wood", 6));
    assert!(!inv.remove_item("wood", 6));
    assert_eq!(inv.get_quantity("wood"), 5);
    assert!(inv.remove_item("wood", 5));
    assert_eq!(inv.get_quantity("wood"), 0);
    assert!(!inv.has_item("wood", 0));
    assert!(!inv.remove_item("stone", 1));
}

#[test]
fn inventory_resources_are_all_or_nothing() {
    let mut inv = Inventory::new();
    inv.add_item("stone", 3);
    inv.add_item("wood", 1);
    let need = counts(&[("stone", 2), ("wood", 2)]);
    assert!(!inv.has_resources(&need));
    assert!(!inv.remove_resources(&need));
    assert_eq!(inv.get_quantity("stone"), 3);
    let need = counts(&[("stone", 2), ("wood", 1)]);
    assert!(inv.remove_resources(&need));
    assert_eq!(inv.get_quantity("stone"), 1);
    assert_eq!(inv.get_quantity("wood"), 0);
}

#[test]
fn item_counts_replace_and_scale() {
    let mut c = counts(&[("a", 1), ("b", 2)]);
    c.insert("a", 7);
    assert_eq!(c.len(), 2);
    assert_eq!(c.get("a"), Some(7));
    let s = c.scaled(3);
    assert_eq!(s.get("a"), Some(21));
    assert_eq!(s.get("b"), Some(6));
    c.remove("a");
    assert_eq!(c.get("a"), None);
    assert_eq!(c.copy().get("b"), Some(2));
}

#[test]
fn all_actions_are_listed_in_order() {
    let actions = get_all_actions();
    assert_eq!(actions.len(), 19);
    assert_eq!(actions[0], Action::Move(Direction::Up));
    assert_eq!(actions[5], Action::Craft("stone_axe".to_string()));
    assert_eq!(actions[14], Action::Build("foundation".to_string()));
    assert_eq!(actions[18], Action::Close);
}

fn open_memory(width: usize, height: usize) -> Vec<Vec<Option<MemoryTile>>> {
    let mut rows = Vec::new();
    for _ in 0..height {
        let mut row = Vec::new();
        for _ in 0..width {
            row.push(None);
        }
        rows.push(row);
    }
    rows
}

#[test]
fn a_path_to_the_next_tile() {
    let memory = open_memory(5, 5);
    let path = find_path((0, 0), (1, 0), &memory, 5, 5).unwrap();
    assert_eq!(path, vec![(0, 0), (1, 0)]);
}

#[test]
fn paths_go_around_walls() {
    let mut memory = open_memory(3, 3);
    memory[0][1] = Some(MemoryTile { tile: Tile::new('#', "plains".to_string()) });
    memory[1][1] = Some(MemoryTile { tile: Tile::new('T', "forest".to_string()) });
    let path = find_path((0, 0), (2, 0), &memory, 3, 3).unwrap();
    assert_eq!(path.len(), 7);
    assert_eq!(path[0], (0, 0));
    assert_eq!(path[6], (2, 0));
    memory[2][1] = Some(MemoryTile { tile: Tile::new('M', "mountain".to_string()) });
    assert!(find_path((0, 0), (2, 0), &memory, 3, 3).is_none());
}

#[test]
fn neighbours_and_distance() {
    let memory = open_memory(3, 3);
    let n = get_neighbors((0, 0), &memory, 3, 3);
    assert_eq!(n.len(), 2);
    assert!(n.contains(&(1, 0)) && n.contains(&(0, 1)));
    assert_eq!(heuristic((1, 5), (4, 1)), 7);
}

#[test]
fn known_cities_and_unknown_ones() {
    assert_eq!(city_location("CityB").unwrap(), (80, 30));
    assert_eq!(city_location("Old_Mine").unwrap(), (50, 90));
    match city_location("Atlantis") {
        Err(SimulationError::CityNotFound(name)) => assert_eq!(name, "Atlantis"),
        _ => panic!("expected an unknown city"),
    }
}

#[test]
fn paving_marks_road_tiles() {
    let mut map = GameMap::new(4, 4);
    map.set_tile(1, 1, Tile::new('.', "plains".to_string()));
    pave_road(&mut map, &vec![(1, 1), (9, 9)]);
    let t = map.get_tile(1, 1).unwrap();
    assert_eq!(t.tile_type, '=');
    assert_eq!(t.biome, "plains");
    assert_eq!(map.get_tile(2, 2).unwrap().tile_type, ' ');
}

#[test]
fn islands_turn_some_plains_to_forest() {
    let biomes = vec![
        Biome { name: "water".to_string(), tile_type: '~' },
        Biome { name: "plains".to_string(), tile_type: '.' },
    ];
    let choice = vec![vec![Some(0), Some(1), None], vec![Some(1), Some(1), Some(7)]];
    let rolls = vec![vec![50, 3, 1], vec![99, 60, 0]];
    let chunks = assemble_island_chunks(3, 2, &biomes, &choice, &rolls);
    assert_eq!(chunks.len(), 1);
    assert_eq!(chunks[0].0, (0, 0));
    let tiles = &chunks[0].1;
    assert_eq!(tiles.len(), 16);
    assert_eq!(tiles[0][0].tile_type, '~');
    assert_eq!(tiles[0][1].tile_type, 'f');
    assert_eq!(tiles[0][1].biome, "plains");
    assert_eq!(tiles[0][2].tile_type, ' ');
    assert_eq!(tiles[0][2].biome, "none");
    assert_eq!(tiles[1][0].tile_type, '.');
    assert_eq!(tiles[1][2].biome, "none");
    assert_eq!(tiles[5][5].biome, "none");
}

#[test]
fn island_chunks_cover_the_map() {
    let biomes = vec![Biome { name: "plains".to_string(), tile_type: '.' }];
    let choice = vec![vec![Some(0usize); 20]; 17];
    let chunks = generate_island_map(20, 17, &biomes, Some(7), &choice);
    assert_eq!(chunks.len(), 4);
    assert_eq!(chunks[1].0, (1, 0));
    assert_eq!(chunks[2].0, (0, 1));
    assert_eq!(chunks[3].1[1][3].tile_type, ' ');
    assert!(matches!(chunks[3].1[0][3].tile_type, '.' | 'f'));
    assert!(matches!(chunks[0].1[4][4].tile_type, '.' | 'f'));
    let rolls = island_rolls(7, 20, 17);
    assert_eq!(rolls, island_rolls(7, 20, 17));
    assert!(rolls.iter().flatten().all(|&r| r < 100));
}

#[test]
fn maps_from_biomes() {
    let biomes = vec![
        Biome { name: "plains".to_string(), tile_type: '.' },
        Biome { name: "forest".to_string(), tile_type: 'f' },
    ];
    let choice = vec![vec![Some(1), None], vec![Some(0), Some(1)]];
    let map = GameMap::with_biomes(2, 2, &biomes, &choice);
    assert_eq!(map.get_tile(0, 0).unwrap().tile_type, 'f');
    assert_eq!(map.get_tile(1, 0).unwrap().biome, "plains");
    assert!(map.is_walkable(0, 1));
    assert!(map.get_tile(2, 0).is_none());
    assert_eq!(map.width_in_chunks(), 1);
    let _ = Position { x: 0, y: 0 };
}

#[test]
fn paths_are_shortest() {
    let mut memory = open_memory(6, 6);
    for y in 0..5 {
        memory[y][3] = Some(MemoryTile { tile: Tile::new('#', "plains".to_string()) });
    }
    let path = find_path((0, 0), (5, 0), &memory, 6, 6).unwrap();
    assert_eq!(path.len(), 16);
    let open = open_memory(6, 6);
    assert_eq!(find_path((1, 1), (4, 5), &open, 6, 6).unwrap().len(), 8);
    assert_eq!(find_path((2, 2), (2, 2), &open, 6, 6).unwrap(), vec![(2, 2)]);
}

#[test]
fn overflowing_expansions_are_detected() {
    let m = RecipeManager::with_recipes(vec![
        ("wall".to_string(), counts(&[("stone", 2_000_000_000), ("mortar", 1)])),
        ("mortar".to_string(), counts(&[("sand", 3)])),
        ("a".to_string(), counts(&[("b", 1)])),
        ("b".to_string(), counts(&[("a", 1)])),
    ]);
    assert!(m.expansion_fits("wall", 2));
    assert!(!m.expansion_fits("wall", 3));
    assert!(m.expansion_fits("mortar", 1_000_000_000));
    assert!(!m.expansion_fits("mortar", 2_000_000_000));
    assert!(m.expansion_fits("a", 1));
    assert!(m.expansion_fits("sand", u32::MAX));
    let twice = m.get_required_resources("wall", 2).unwrap();
    assert_eq!(twice.get("stone"), Some(4_000_000_000));
    assert_eq!(twice.get("sand"), Some(6));
}

#[test]
fn expansion_is_linear_in_the_quantity() {
    let m = manager();
    let one = m.get_required_resources("stone_axe", 1).unwrap();
    let five = m.get_required_resources("stone_axe", 5).unwrap();
    assert_eq!(five.len(), one.len());
    assert_eq!(five.get("stone"), Some(5 * one.get("stone").unwrap()));
    assert_eq!(five.get("wood"), Some(5 * one.get("wood").unwrap()));
}

#[test]
fn a_cycle_leaves_the_visited_list_alone() {
    let m = manager();
    let mut visited = vec!["stick".to_string(), "wood".to_string()];
    match m.get_required_resources_recursive("stick", 4, &mut visited) {
        Err(SimulationError::CircularDependency(name)) => assert_eq!(name, "stick"),
        _ => panic!("expected a cycle"),
    }
    assert_eq!(visited, vec!["stick".to_string(), "wood".to_string()]);
}

#[test]
fn count_tables_check_sums_and_products() {
    let a = counts(&[("wood", 4_000_000_000)]);
    let b = counts(&[("wood", 294_967_295), ("stone", 7)]);
    let c = counts(&[("wood", 294_967_296)]);
    assert!(a.sum_fits(&b));
    assert!(!a.sum_fits(&c));
    assert!(b.scale_fits(14));
    assert!(!b.scale_fits(15));
    assert!(a.scale_fits(0));
}
