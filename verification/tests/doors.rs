use maprando::game_data::{
    Door, GameData, GameMap, IndexedVec, Link, Requirement, Table, VertexKey,
};
use maprando::items::{Item, ITEM_COUNT};
use maprando::state::{DifficultyConfig, ItemPlacementStrategy, Randomizer};

fn difficulty() -> DifficultyConfig {
    DifficultyConfig {
        tech: vec!["canWalljump".to_string(), "canHeatRun".to_string()],
        shine_charge_tiles: 16,
        item_placement_strategy: ItemPlacementStrategy::Open,
    }
}

/// Room 1 has two obstacles and room 2 has one.
fn game_data() -> GameData {
    let mut keys: Vec<VertexKey> = vec![(8, 5, 0)];
    for mask in 0..4 {
        keys.push((1, 7, mask));
    }
    for mask in 0..2 {
        keys.push((2, 9, mask));
    }
    GameData {
        tech_isv: IndexedVec {
            keys: vec![
                "canIBJ".to_string(),
                "canHeatRun".to_string(),
                "canMockball".to_string(),
                "canWalljump".to_string(),
            ],
        },
        flag_isv: IndexedVec {
            keys: vec![
                "f_ZebesAwake".to_string(),
                "f_TourianOpen".to_string(),
                "f_DefeatedKraid".to_string(),
            ],
        },
        item_isv: IndexedVec {
            keys: (0..ITEM_COUNT)
                .map(|i| Item::from_index(i).unwrap().name().to_string())
                .collect(),
        },
        vertex_isv: IndexedVec { keys },
        door_ptr_pair_map: Table {
            entries: vec![
                ((Some(10), Some(11)), (1, 7)),
                ((Some(20), None), (2, 9)),
            ],
        },
        room_num_obstacles: Table {
            entries: vec![(1, 2), (2, 1), (8, 0)],
        },
        links: vec![Link {
            from_vertex_id: 0,
            to_vertex_id: 1,
            requirement: Requirement::Rule(3),
            strat_name: "Base".to_string(),
        }],
        item_locations: vec![(1, 7); 100],
        item_vertex_ids: vec![vec![]; 100],
        flag_locations: vec![(1, 7, 0)],
        flag_vertex_ids: vec![vec![1]],
        room_names: Table {
            entries: vec![
                (1, "Parlor".to_string()),
                (2, "Climb".to_string()),
                (8, "Landing Site".to_string()),
            ],
        },
        node_names: Table {
            entries: vec![
                ((1, 7), "Left Door".to_string()),
                ((2, 9), "Right Door".to_string()),
                ((8, 5), "Ship".to_string()),
            ],
        },
    }
}

fn ends(links: &Vec<Link>) -> Vec<(usize, usize)> {
    links.iter().map(|l| (l.from_vertex_id, l.to_vertex_id)).collect()
}

const SIDE_A: (Option<usize>, Option<usize>) = (Some(10), Some(11));
const SIDE_B: (Option<usize>, Option<usize>) = (Some(20), None);

#[test]
fn one_way_door_leaves_from_every_obstacle_state() {
    let data = game_data();
    let config = difficulty();
    let map = GameMap { doors: vec![(SIDE_A, SIDE_B, false)] };
    assert!(data.is_map_covered(&map));
    let randomizer = Randomizer::new(&map, &config, &data);
    assert_eq!(
        ends(&randomizer.links),
        vec![(0, 1), (1, 5), (2, 5), (3, 5), (4, 5)]
    );
    assert!(randomizer.is_valid());
}

#[test]
fn two_way_door_leads_back_as_well() {
    let data = game_data();
    let config = difficulty();
    let map = GameMap { doors: vec![(SIDE_A, SIDE_B, true)] };
    let randomizer = Randomizer::new(&map, &config, &data);
    assert_eq!(
        ends(&randomizer.links),
        vec![(0, 1), (1, 5), (2, 5), (3, 5), (4, 5), (5, 1), (6, 1)]
    );
    for link in &randomizer.links[1..] {
        assert_eq!(link.requirement, Requirement::Free);
        assert_eq!(link.strat_name, "(Door transition)");
    }
    assert_eq!(randomizer.links[0].requirement, Requirement::Rule(3));
    assert_eq!(randomizer.links[0].strat_name, "Base");
}

#[test]
fn doors_keep_their_order() {
    let data = game_data();
    let config = difficulty();
    let doors: Vec<Door> = vec![(SIDE_B, SIDE_A, false), (SIDE_A, SIDE_B, false)];
    let map = GameMap { doors };
    let randomizer = Randomizer::new(&map, &config, &data);
    assert_eq!(
        ends(&randomizer.links),
        vec![(0, 1), (5, 1), (6, 1), (1, 5), (2, 5), (3, 5), (4, 5)]
    );
}

#[test]
fn items_occur_as_often_as_there_are_locations() {
    let data = game_data();
    let config = difficulty();
    let map = GameMap { doors: vec![] };
    let randomizer = Randomizer::new(&map, &config, &data);
    let counts = &randomizer.initial_items_remaining;
    assert_eq!(counts.len(), 21);
    assert_eq!(counts[Item::Missile.index()], 46);
    assert_eq!(counts[Item::Super.index()], 10);
    assert_eq!(counts[Item::PowerBomb.index()], 10);
    assert_eq!(counts[Item::ETank.index()], 14);
    assert_eq!(counts[Item::ReserveTank.index()], 4);
    assert_eq!(counts[Item::Morph.index()], 1);
    assert_eq!(counts.iter().sum::<usize>(), data.item_locations.len());
}

#[test]
fn uncovered_doors_are_told() {
    let mut data = game_data();
    assert!(!data.is_door_mapped(&((Some(10), None), SIDE_B, false)));
    assert!(!data.is_door_mapped(&(SIDE_A, (None, None), false)));
    data.vertex_isv.keys.pop();
    assert!(data.is_door_mapped(&(SIDE_A, SIDE_B, false)));
    assert!(!data.is_door_mapped(&(SIDE_A, SIDE_B, true)));
    data.room_num_obstacles.entries[0].1 = 64;
    assert!(!data.is_door_mapped(&(SIDE_A, SIDE_B, false)));
    data.room_num_obstacles.entries.clear();
    assert!(!data.is_door_mapped(&(SIDE_A, SIDE_B, false)));
}

#[test]
fn unplayable_tables_are_told() {
    assert!(game_data().is_playable());
    let mut data = game_data();
    data.item_isv.keys.pop();
    assert!(!data.is_playable());
    let mut data = game_data();
    data.item_locations.pop();
    assert!(!data.is_playable());
    let mut data = game_data();
    data.flag_isv.keys[1] = "f_TourianClosed".to_string();
    assert!(!data.is_playable());
    let mut data = game_data();
    data.vertex_isv.keys[0] = (8, 5, 1);
    assert!(!data.is_playable());
    let mut data = game_data();
    data.item_vertex_ids.push(vec![]);
    assert!(!data.is_playable());
    let mut data = game_data();
    data.item_vertex_ids[99] = vec![1, 7];
    assert!(!data.is_playable());
    let mut data = game_data();
    data.flag_vertex_ids[0] = vec![7];
    assert!(!data.is_playable());
    let mut data = game_data();
    data.flag_locations[0].2 = 3;
    assert!(!data.is_playable());
}

#[test]
fn vertices_without_names_are_told() {
    let mut data = game_data();
    assert!(data.is_vertex_named(0));
    assert!(data.is_vertex_named(6));
    assert!(!data.is_vertex_named(7));
    data.node_names.entries.pop();
    assert!(!data.is_vertex_named(0));
    data.room_names.entries.remove(1);
    assert!(!data.is_vertex_named(6));
    assert!(data.is_playable());
}

#[test]
fn invalid_randomizers_are_told() {
    let data = game_data();
    let config = difficulty();
    let map = GameMap { doors: vec![] };
    let mut randomizer = Randomizer::new(&map, &config, &data);
    assert!(randomizer.is_valid());
    randomizer.initial_items_remaining[Item::ETank.index()] = 13;
    assert!(!randomizer.is_valid());
    randomizer.initial_items_remaining[Item::ETank.index()] = 14;
    assert!(randomizer.is_valid());
    randomizer.initial_items_remaining.push(1);
    assert!(!randomizer.is_valid());
}

#[test]
fn lookups_take_the_first_entry() {
    let table: Table<usize, usize> = Table { entries: vec![(4, 40), (5, 50), (4, 41)] };
    assert_eq!(table.get(4), Some(&40));
    assert_eq!(table.get(5), Some(&50));
    assert_eq!(table.get(6), None);
    let data = game_data();
    assert_eq!(data.vertex_isv.index_by_key((2, 9, 1)), Some(6));
    assert_eq!(data.vertex_isv.index_by_key((2, 9, 2)), None);
    assert_eq!(data.flag_isv.index_by_name("f_TourianOpen"), Some(1));
    assert_eq!(data.flag_isv.index_by_name("f_Tourian"), None);
}

#[test]
fn techniques_and_flags_at_the_start() {
    let data = game_data();
    let config = difficulty();
    let map = GameMap { doors: vec![] };
    let randomizer = Randomizer::new(&map, &config, &data);
    assert_eq!(randomizer.get_tech_vec(), vec![false, true, false, true]);
    assert_eq!(randomizer.get_flag_vec(), vec![false, true, false]);
}

#[test]
fn vertices_are_told_by_room_and_node() {
    let data = game_data();
    let config = difficulty();
    let map = GameMap { doors: vec![] };
    let randomizer = Randomizer::new(&map, &config, &data);
    let info = randomizer.get_vertex_info(6);
    assert_eq!(info.room_name, "Climb");
    assert_eq!(info.node_name, "Right Door");
}

#[test]
fn items_are_numbered_and_named() {
    for id in 0..ITEM_COUNT {
        assert_eq!(Item::from_index(id).unwrap().index(), id);
    }
    assert_eq!(Item::from_index(ITEM_COUNT), None);
    assert_eq!(Item::SpeedBooster.name(), "SpeedBooster");
    assert!(Item::Super.occurs_repeatedly());
    assert!(!Item::ScrewAttack.occurs_repeatedly());
}

#[test]
fn a_copied_difficulty_is_the_same() {
    let config = difficulty();
    let copy = config.clone();
    assert_eq!(copy.tech, config.tech);
    assert_eq!(copy.shine_charge_tiles, 16);
    assert_eq!(copy.item_placement_strategy, ItemPlacementStrategy::Open);
}
