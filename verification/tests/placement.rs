use maprando::game_data::{
    GameData, GameMap, IndexedVec, Link, LinkIdx, Requirement, Table, VertexId, VertexKey,
    WeaponMask,
};
use maprando::items::{Item, ITEM_COUNT};
use maprando::outside::shuffle;
use maprando::state::{
    DifficultyConfig, Failure, ItemLocationState, ItemPlacementStrategy, RandomizationState,
    Randomizer, SpoilerRouteEntry,
};
use maprando::traverse::{GlobalState, LocalState, Traversal, TraverseResult};
use rand::rngs::StdRng;
use rand::seq::SliceRandom;
use rand::SeedableRng;

const NUM_LOCATIONS: usize = 100;

/// A star around the landing site. Rules below the number of items ask for that item; higher
/// rules cost so much energy and are always met.
struct Star {
    short: bool,
    reshaping: bool,
    blocked: bool,
    oneway_from: usize,
    gated: bool,
}

impl Star {
    fn new() -> Star {
        Star { short: false, reshaping: false, blocked: false, oneway_from: NUM_LOCATIONS, gated: false }
    }

    fn meets(&self, requirement: &Requirement, global: &GlobalState) -> bool {
        match requirement {
            Requirement::Free => true,
            Requirement::Rule(rule) => *rule >= ITEM_COUNT || global.items[*rule],
        }
    }
}

impl Traversal for Star {
    type Trail = Vec<Vec<LinkIdx>>;

    fn traverse(
        &self,
        links: &Vec<Link>,
        global: &GlobalState,
        num_vertices: usize,
        start_vertex_id: VertexId,
        reverse: bool,
        _game_data: &GameData,
    ) -> TraverseResult<Vec<Vec<LinkIdx>>> {
        if self.short {
            return TraverseResult { local_states: vec![], trail: vec![] };
        }
        let mut local_states: Vec<Option<LocalState>> = vec![None; num_vertices];
        let mut trail: Vec<Vec<LinkIdx>> = vec![vec![]; num_vertices];
        local_states[start_vertex_id] = Some(LocalState::new());
        for (i, link) in links.iter().enumerate() {
            let (from, to) = if reverse {
                (link.to_vertex_id, link.from_vertex_id)
            } else {
                (link.from_vertex_id, link.to_vertex_id)
            };
            let oneway = reverse && (to > self.oneway_from || (self.gated && !global.flags[1]));
            if from == start_vertex_id && !oneway && self.meets(&link.requirement, global) {
                local_states[to] = Some(LocalState::new());
                trail[to] = vec![i as LinkIdx];
            }
        }
        TraverseResult { local_states, trail }
    }

    fn is_bireachable(
        &self,
        _global: &GlobalState,
        forward: &Option<LocalState>,
        reverse: &Option<LocalState>,
    ) -> bool {
        forward.is_some() && reverse.is_some()
    }

    fn apply_requirement(
        &self,
        requirement: &Requirement,
        global: &GlobalState,
        local: LocalState,
        _reverse: bool,
    ) -> Option<LocalState> {
        if self.blocked || !self.meets(requirement, global) {
            return None;
        }
        let mut after = local;
        if let Requirement::Rule(rule) = requirement {
            if *rule >= ITEM_COUNT {
                after.energy_used += *rule as i32;
            }
        }
        Some(after)
    }

    fn get_spoiler_route(
        &self,
        traversal: &TraverseResult<Vec<Vec<LinkIdx>>>,
        vertex_id: VertexId,
        _reverse: bool,
    ) -> Vec<LinkIdx> {
        traversal.trail[vertex_id].clone()
    }

    fn collect(&self, global: &GlobalState, item: Item, _game_data: &GameData) -> GlobalState {
        let mut after = global.clone();
        after.items[item.index()] = true;
        match item {
            Item::Missile => after.max_missiles += 5,
            Item::Super => after.max_supers += 5,
            Item::PowerBomb => after.max_power_bombs += 5,
            Item::ETank => after.max_energy += 100,
            Item::ReserveTank => after.max_reserves += 100,
            _ => {}
        }
        if self.reshaping {
            after.items.push(true);
        }
        after
    }

    fn get_weapon_mask(&self, items: &Vec<bool>, _game_data: &GameData) -> WeaponMask {
        items.len() + 1000
    }
}

/// Locations are at vertices 1 to 100. `rule_of` tells the rule of the way to and from each.
fn game_data(rule_of: &dyn Fn(usize) -> Option<Requirement>) -> GameData {
    let mut keys: Vec<VertexKey> = vec![(8, 5, 0)];
    let mut node_names: Vec<((usize, usize), String)> = vec![((8, 5), "Ship".to_string())];
    let mut links: Vec<Link> = vec![];
    for i in 0..NUM_LOCATIONS {
        keys.push((1, i, 0));
        node_names.push(((1, i), format!("Item {}", i)));
        if let Some(requirement) = rule_of(i) {
            links.push(Link {
                from_vertex_id: 0,
                to_vertex_id: i + 1,
                requirement,
                strat_name: format!("To {}", i),
            });
            links.push(Link {
                from_vertex_id: i + 1,
                to_vertex_id: 0,
                requirement,
                strat_name: format!("From {}", i),
            });
        }
    }
    GameData {
        tech_isv: IndexedVec { keys: vec!["canWalljump".to_string()] },
        flag_isv: IndexedVec {
            keys: vec!["f_TourianOpen".to_string(), "f_ZebesAwake".to_string()],
        },
        item_isv: IndexedVec {
            keys: (0..ITEM_COUNT)
                .map(|i| Item::from_index(i).unwrap().name().to_string())
                .collect(),
        },
        vertex_isv: IndexedVec { keys },
        door_ptr_pair_map: Table { entries: vec![] },
        room_num_obstacles: Table { entries: vec![] },
        links,
        item_locations: (0..NUM_LOCATIONS).map(|i| (1, i)).collect(),
        item_vertex_ids: (0..NUM_LOCATIONS).map(|i| vec![i + 1]).collect(),
        flag_locations: vec![(1, 3, 1)],
        flag_vertex_ids: vec![vec![4]],
        room_names: Table {
            entries: vec![(8, "Landing Site".to_string()), (1, "Hall".to_string())],
        },
        node_names: Table { entries: node_names },
    }
}

/// Five locations are open from the start, the others each need one of the items.
fn spread(i: usize) -> Option<Requirement> {
    if i < 5 {
        Some(Requirement::Free)
    } else {
        Some(Requirement::Rule((i - 5) % ITEM_COUNT))
    }
}

fn difficulty(strategy: ItemPlacementStrategy) -> DifficultyConfig {
    DifficultyConfig {
        tech: vec!["canWalljump".to_string()],
        shine_charge_tiles: 20,
        item_placement_strategy: strategy,
    }
}

fn in_order() -> Vec<Item> {
    (0..ITEM_COUNT).map(|i| Item::from_index(i).unwrap()).collect()
}

fn led_by(first: &[Item]) -> Vec<Item> {
    let mut order: Vec<Item> = first.to_vec();
    for item in in_order() {
        if !first.contains(&item) {
            order.push(item);
        }
    }
    order
}

fn count(items: &[Item], item: Item) -> usize {
    items.iter().filter(|&&x| x == item).count()
}

fn strategies() -> Vec<ItemPlacementStrategy> {
    vec![
        ItemPlacementStrategy::Open,
        ItemPlacementStrategy::Semiclosed,
        ItemPlacementStrategy::Closed,
    ]
}

#[test]
fn an_attempt_places_every_copy_of_every_item() {
    let data = game_data(&spread);
    let map = GameMap { doors: vec![] };
    let world = Star::new();
    for strategy in strategies() {
        let config = difficulty(strategy);
        let randomizer = Randomizer::new(&map, &config, &data);
        assert!(randomizer.is_valid());
        let mut successes = 0;
        for seed in 0..20 {
            let mut rng = StdRng::seed_from_u64(seed);
            let attempt = randomizer.randomize(&world, &mut rng);
            match attempt.outcome {
                Ok(result) => {
                    successes += 1;
                    assert_eq!(result.item_placement.len(), NUM_LOCATIONS);
                    for item in in_order() {
                        assert_eq!(
                            count(&result.item_placement, item),
                            randomizer.initial_items_remaining[item.index()]
                        );
                    }
                    let details = &result.spoiler_log.details;
                    assert_eq!(details.len(), attempt.progress.len());
                    for (i, step) in details.iter().enumerate() {
                        assert_eq!(step.step, i + 1);
                        assert_eq!(attempt.progress[i].step_num, i + 1);
                    }
                    assert_eq!(result.map.doors, map.doors);
                }
                Err(failure) => assert!(
                    failure == Failure::AttemptsExhausted || failure == Failure::ItemOverdrawn
                ),
            }
        }
        assert!(successes > 0);
    }
}

#[test]
fn progress_starts_with_the_open_locations() {
    let data = game_data(&spread);
    let map = GameMap { doors: vec![] };
    let config = difficulty(ItemPlacementStrategy::Semiclosed);
    let randomizer = Randomizer::new(&map, &config, &data);
    let mut rng = StdRng::seed_from_u64(1);
    let attempt = randomizer.randomize(&Star::new(), &mut rng);
    let first = attempt.progress[0];
    assert_eq!(first.step_num, 1);
    assert_eq!(first.num_bireachable, 5);
    assert_eq!(first.num_reachable, 5);
    assert_eq!(first.num_placed, 0);
    assert_eq!(first.num_collected, 0);
    let second = attempt.progress[1];
    assert_eq!(second.step_num, 2);
    assert_eq!(second.num_placed, 5);
    assert_eq!(second.num_collected, 5);
    assert!(second.num_bireachable > 5);
}

fn told_route(route: &Vec<SpoilerRouteEntry>) -> Vec<(String, String, String, Option<i32>)> {
    route
        .iter()
        .map(|e| (e.room.clone(), e.node.clone(), e.strat_name.clone(), e.energy_remaining))
        .collect()
}

#[test]
fn same_seed_same_outcome() {
    let data = game_data(&spread);
    let map = GameMap { doors: vec![] };
    let config = difficulty(ItemPlacementStrategy::Semiclosed);
    let randomizer = Randomizer::new(&map, &config, &data);
    let mut successes = 0;
    for seed in 0..10 {
        let mut rng_a = StdRng::seed_from_u64(seed);
        let mut rng_b = StdRng::seed_from_u64(seed);
        let a = randomizer.randomize(&Star::new(), &mut rng_a);
        let b = randomizer.randomize(&Star::new(), &mut rng_b);
        assert_eq!(a.progress, b.progress);
        assert_eq!(rng_a, rng_b);
        match (a.outcome, b.outcome) {
            (Ok(x), Ok(y)) => {
                successes += 1;
                assert_eq!(x.item_placement, y.item_placement);
                assert_eq!(x.map.doors, y.map.doors);
                assert_eq!(x.spoiler_log.details.len(), y.spoiler_log.details.len());
                for (p, q) in x.spoiler_log.details.iter().zip(&y.spoiler_log.details) {
                    assert_eq!(p.step, q.step);
                    assert_eq!(p.items.len(), q.items.len());
                    for (m, n) in p.items.iter().zip(&q.items) {
                        assert_eq!(m.item, n.item);
                        assert_eq!(m.location.node, n.location.node);
                        assert_eq!(m.start_state.items, n.start_state.items);
                        assert_eq!(told_route(&m.obtain_route), told_route(&n.obtain_route));
                        assert_eq!(told_route(&m.return_route), told_route(&n.return_route));
                    }
                }
            }
            (Err(f), Err(g)) => assert_eq!(f, g),
            _ => panic!("only one of the attempts succeeded"),
        }
    }
    assert!(successes > 0);
}

#[test]
fn without_a_choice_nothing_is_drawn() {
    let data = game_data(&spread);
    let map = GameMap { doors: vec![] };
    let config = difficulty(ItemPlacementStrategy::Closed);
    let randomizer = Randomizer::new(&map, &config, &data);
    let state = start(&randomizer, in_order());
    let mut rng = StdRng::seed_from_u64(4);
    assert!(randomizer.select_items(&state, 8, 4, 21, &mut rng).is_none());
    assert_eq!(rng, StdRng::seed_from_u64(4));
    assert!(randomizer.select_items(&state, 8, 4, 20, &mut rng).is_some());
    assert_ne!(rng, StdRng::seed_from_u64(4));
}

#[test]
fn routes_can_be_told_in_parts() {
    let data = game_data(&|i| match i {
        0 => Some(Requirement::Free),
        _ => Some(Requirement::Rule(25 + i)),
    });
    let map = GameMap { doors: vec![] };
    let config = difficulty(ItemPlacementStrategy::Open);
    let randomizer = Randomizer::new(&map, &config, &data);
    let world = Star::new();
    let global = start(&randomizer, in_order()).global_state;
    let mut whole = LocalState::new();
    let route =
        randomizer.get_spoiler_route(&world, &global, &mut whole, &[0, 2, 3, 4]).unwrap();
    let mut parts = LocalState::new();
    let mut told = randomizer.get_spoiler_route(&world, &global, &mut parts, &[0, 2]).unwrap();
    told.extend(randomizer.get_spoiler_route(&world, &global, &mut parts, &[3, 4]).unwrap());
    assert_eq!(told_route(&told), told_route(&route));
    assert_eq!(parts, whole);
    assert_eq!(whole.energy_used, 26 + 26 + 27);
    let nothing = randomizer.get_spoiler_route(&world, &global, &mut parts, &[]).unwrap();
    assert!(nothing.is_empty());
    assert_eq!(parts, whole);
}

#[test]
fn routes_lead_to_vertices_with_names() {
    let mut data = game_data(&spread);
    data.node_names.entries.pop();
    let map = GameMap { doors: vec![] };
    let config = difficulty(ItemPlacementStrategy::Open);
    let randomizer = Randomizer::new(&map, &config, &data);
    assert!(randomizer.is_valid());
    let world = Star::new();
    let mut global = start(&randomizer, in_order()).global_state;
    global.items = vec![true; 21];
    let mut local = LocalState::new();
    assert!(randomizer.get_spoiler_route(&world, &global, &mut local, &[196]).is_some());
    assert!(randomizer.get_spoiler_route(&world, &global, &mut local, &[198]).is_none());
    assert_eq!(local, LocalState::new());
}

#[test]
fn where_nothing_is_found_nothing_is_told() {
    let data = game_data(&spread);
    let map = GameMap { doors: vec![] };
    let config = difficulty(ItemPlacementStrategy::Open);
    let randomizer = Randomizer::new(&map, &config, &data);
    let mut state = start(&randomizer, in_order());
    state.step_num = 6;
    assert!(state.debug_data.is_none());
    let details = randomizer.get_spoiler_details(&Star::new(), &state, &state).unwrap();
    assert_eq!(details.step, 6);
    assert!(details.items.is_empty());
}

#[test]
fn no_location_to_start_with() {
    let data = game_data(&|_| None);
    let map = GameMap { doors: vec![] };
    let config = difficulty(ItemPlacementStrategy::Open);
    let randomizer = Randomizer::new(&map, &config, &data);
    let attempt = randomizer.randomize(&Star::new(), &mut StdRng::seed_from_u64(0));
    assert!(matches!(attempt.outcome, Err(Failure::NoBireachableLocation)));
    assert!(attempt.progress.is_empty());
}

#[test]
fn nothing_opens_up() {
    let data = game_data(&|i| if i < 5 { Some(Requirement::Free) } else { None });
    let map = GameMap { doors: vec![] };
    let config = difficulty(ItemPlacementStrategy::Semiclosed);
    let randomizer = Randomizer::new(&map, &config, &data);
    let attempt = randomizer.randomize(&Star::new(), &mut StdRng::seed_from_u64(0));
    assert!(matches!(attempt.outcome, Err(Failure::AttemptsExhausted)));
    assert_eq!(attempt.progress.len(), 1);
}

#[test]
fn traversals_have_to_cover_every_vertex() {
    let data = game_data(&spread);
    let map = GameMap { doors: vec![] };
    let config = difficulty(ItemPlacementStrategy::Open);
    let randomizer = Randomizer::new(&map, &config, &data);
    let world = Star { short: true, ..Star::new() };
    let attempt = randomizer.randomize(&world, &mut StdRng::seed_from_u64(0));
    assert!(matches!(attempt.outcome, Err(Failure::TraversalTooShort)));
    assert!(attempt.progress.is_empty());
}

#[test]
fn picking_up_may_not_change_the_number_of_items() {
    let data = game_data(&spread);
    let map = GameMap { doors: vec![] };
    let config = difficulty(ItemPlacementStrategy::Open);
    let randomizer = Randomizer::new(&map, &config, &data);
    let world = Star { reshaping: true, ..Star::new() };
    let attempt = randomizer.randomize(&world, &mut StdRng::seed_from_u64(0));
    assert!(matches!(attempt.outcome, Err(Failure::StateReshaped)));
}

#[test]
fn routes_have_to_be_followed() {
    let data = game_data(&spread);
    let map = GameMap { doors: vec![] };
    let config = difficulty(ItemPlacementStrategy::Open);
    let randomizer = Randomizer::new(&map, &config, &data);
    let world = Star { blocked: true, ..Star::new() };
    let attempt = randomizer.randomize(&world, &mut StdRng::seed_from_u64(0));
    assert!(matches!(attempt.outcome, Err(Failure::RouteBlocked)));
}

fn start(randomizer: &Randomizer, order: Vec<Item>) -> RandomizationState<Vec<Vec<LinkIdx>>> {
    randomizer.new_state(order, 7)
}

#[test]
fn the_state_at_the_start() {
    let data = game_data(&spread);
    let map = GameMap { doors: vec![] };
    let config = difficulty(ItemPlacementStrategy::Open);
    let randomizer = Randomizer::new(&map, &config, &data);
    let state = start(&randomizer, in_order());
    assert_eq!(state.step_num, 1);
    assert_eq!(state.item_precedence, in_order());
    assert_eq!(state.items_remaining, randomizer.initial_items_remaining);
    assert_eq!(state.global_state.tech, vec![true]);
    assert_eq!(state.global_state.items, vec![false; 21]);
    assert_eq!(state.global_state.flags, vec![true, false]);
    assert_eq!(state.global_state.max_energy, 99);
    assert_eq!(state.global_state.max_reserves, 0);
    assert_eq!(state.global_state.weapon_mask, 7);
    assert_eq!(state.global_state.shine_charge_tiles, 20);
    assert_eq!(state.item_location_state.len(), 100);
    assert!(state.item_location_state.iter().all(|l| l.placed_item.is_none() && !l.reachable));
    assert_eq!(state.flag_bireachable, vec![false]);
    assert!(!state.done);
    assert!(state.debug_data.is_none());
}

#[test]
fn key_items_go_by_precedence_and_the_last_one_varies() {
    let data = game_data(&spread);
    let map = GameMap { doors: vec![] };
    let config = difficulty(ItemPlacementStrategy::Open);
    let randomizer = Randomizer::new(&map, &config, &data);
    let order = led_by(&[Item::Morph, Item::Super, Item::Bombs, Item::Varia]);
    let state = start(&randomizer, order);
    // 21 of 100 items are candidates: ceil(0.21 * 12) = 3 of 12 places.
    let first = randomizer.plan_items(&state, 8, 4, 0).unwrap();
    assert_eq!(first.key_items, vec![Item::Morph, Item::Super, Item::Bombs]);
    assert_eq!(first.num_other_items, 9);
    assert_eq!(first.remaining[Item::Morph.index()], 0);
    assert_eq!(first.remaining[Item::Super.index()], 9);
    let second = randomizer.plan_items(&state, 8, 4, 1).unwrap();
    assert_eq!(second.key_items, vec![Item::Morph, Item::Super, Item::Varia]);
    assert!(randomizer.plan_items(&state, 8, 4, 18).is_some());
    assert!(randomizer.plan_items(&state, 8, 4, 19).is_none());
}

#[test]
fn other_strategies_place_one_key_item() {
    let data = game_data(&spread);
    let map = GameMap { doors: vec![] };
    for strategy in [ItemPlacementStrategy::Semiclosed, ItemPlacementStrategy::Closed] {
        let config = difficulty(strategy);
        let randomizer = Randomizer::new(&map, &config, &data);
        let state = start(&randomizer, led_by(&[Item::Morph, Item::Bombs]));
        let plan = randomizer.plan_items(&state, 8, 4, 0).unwrap();
        assert_eq!(plan.key_items, vec![Item::Morph]);
        assert_eq!(plan.num_other_items, 11);
        assert!(randomizer.plan_items(&state, 8, 4, 20).is_some());
        assert!(randomizer.plan_items(&state, 8, 4, 21).is_none());
    }
}

#[test]
fn key_items_are_dumped_when_places_run_out() {
    let data = game_data(&spread);
    let map = GameMap { doors: vec![] };
    let config = difficulty(ItemPlacementStrategy::Closed);
    let randomizer = Randomizer::new(&map, &config, &data);
    let state = start(&randomizer, in_order());
    assert_eq!(randomizer.plan_items(&state, 80, 0, 0).unwrap().key_items.len(), 1);
    assert_eq!(randomizer.plan_items(&state, 81, 0, 0).unwrap().key_items.len(), 21);
    assert_eq!(randomizer.plan_items(&state, 5, 76, 0).unwrap().key_items.len(), 5);
}

#[test]
fn begun_items_are_no_candidates() {
    let data = game_data(&spread);
    let map = GameMap { doors: vec![] };
    let config = difficulty(ItemPlacementStrategy::Semiclosed);
    let randomizer = Randomizer::new(&map, &config, &data);
    let mut state = start(&randomizer, led_by(&[Item::Super, Item::Morph, Item::Ice]));
    state.items_remaining[Item::Super.index()] = 9;
    state.items_remaining[Item::Morph.index()] = 0;
    let plan = randomizer.plan_items(&state, 3, 0, 0).unwrap();
    assert_eq!(plan.key_items, vec![Item::Ice]);
}

#[test]
fn open_strategy_mixes_everything() {
    let data = game_data(&spread);
    let map = GameMap { doors: vec![] };
    let config = difficulty(ItemPlacementStrategy::Open);
    let randomizer = Randomizer::new(&map, &config, &data);
    let state = start(&randomizer, led_by(&[Item::Morph]));
    let plan = randomizer.plan_items(&state, 4, 0, 0).unwrap();
    let mut expected = vec![Item::Missile; 46];
    expected.extend(vec![Item::ETank; 14]);
    expected.extend(vec![Item::ReserveTank; 4]);
    expected.extend(vec![Item::Super; 10]);
    expected.extend(vec![Item::PowerBomb; 10]);
    assert_eq!(plan.mix, expected);
    assert!(plan.delayed.is_empty());
}

#[test]
fn semiclosed_strategy_mixes_what_has_begun() {
    let data = game_data(&spread);
    let map = GameMap { doors: vec![] };
    let config = difficulty(ItemPlacementStrategy::Semiclosed);
    let randomizer = Randomizer::new(&map, &config, &data);
    let state = start(&randomizer, led_by(&[Item::Super]));
    let plan = randomizer.plan_items(&state, 4, 0, 0).unwrap();
    assert_eq!(plan.key_items, vec![Item::Super]);
    assert_eq!(plan.mix.len(), 46 + 14 + 4 + 9);
    assert_eq!(&plan.mix[64..], vec![Item::Super; 9].as_slice());
    assert_eq!(plan.delayed, vec![Item::PowerBomb; 10]);
    let state = start(&randomizer, led_by(&[Item::PowerBomb]));
    let plan = randomizer.plan_items(&state, 4, 0, 0).unwrap();
    assert_eq!(&plan.mix[64..], vec![Item::PowerBomb; 9].as_slice());
    assert_eq!(plan.delayed, vec![Item::Super; 10]);
}

#[test]
fn closed_strategy_delays_by_what_has_begun() {
    let data = game_data(&spread);
    let map = GameMap { doors: vec![] };
    let config = difficulty(ItemPlacementStrategy::Closed);
    let randomizer = Randomizer::new(&map, &config, &data);
    let state = start(&randomizer, led_by(&[Item::PowerBomb]));
    let plan = randomizer.plan_items(&state, 4, 0, 0).unwrap();
    assert_eq!(plan.mix, vec![Item::Missile; 46]);
    assert_eq!(plan.delayed[0], Item::ETank);
    assert_eq!(plan.delayed[14], Item::ReserveTank);
    assert_eq!(plan.delayed[18], Item::PowerBomb);
    assert_eq!(plan.delayed[27], Item::Super);
    let state = start(&randomizer, led_by(&[Item::Super]));
    let plan = randomizer.plan_items(&state, 4, 0, 0).unwrap();
    assert_eq!(plan.delayed[18], Item::Super);
    assert_eq!(plan.delayed[27], Item::PowerBomb);
}

#[test]
fn a_choice_follows_the_shuffled_mix() {
    let data = game_data(&spread);
    let map = GameMap { doors: vec![] };
    let config = difficulty(ItemPlacementStrategy::Open);
    let randomizer = Randomizer::new(&map, &config, &data);
    let state = start(&randomizer, led_by(&[Item::Morph]));
    let plan = randomizer.plan_items(&state, 10, 10, 0).unwrap();
    let mut expected = plan.mix.clone();
    expected.shuffle(&mut StdRng::seed_from_u64(3));
    let chosen =
        randomizer.select_items(&state, 10, 10, 0, &mut StdRng::seed_from_u64(3)).unwrap();
    assert_eq!(chosen.key_items, plan.key_items);
    assert_eq!(chosen.other_items.as_slice(), &expected[0..plan.num_other_items]);
    assert_ne!(chosen.other_items.as_slice(), &plan.mix[0..plan.num_other_items]);
    assert_eq!(chosen.key_items.len() + chosen.other_items.len(), 20);
    for item in in_order() {
        assert_eq!(
            chosen.new_items_remaining[item.index()]
                + count(&chosen.key_items, item)
                + count(&chosen.other_items, item),
            state.items_remaining[item.index()]
        );
    }
    assert!(randomizer.select_items(&state, 10, 10, 21, &mut StdRng::seed_from_u64(3)).is_none());
}

#[test]
fn delayed_items_follow_the_mix() {
    let data = game_data(&spread);
    let map = GameMap { doors: vec![] };
    let config = difficulty(ItemPlacementStrategy::Closed);
    let randomizer = Randomizer::new(&map, &config, &data);
    let mut state = start(&randomizer, led_by(&[Item::Morph]));
    state.items_remaining[Item::Missile.index()] = 2;
    let chosen =
        randomizer.select_items(&state, 6, 0, 0, &mut StdRng::seed_from_u64(3)).unwrap();
    assert_eq!(
        chosen.other_items,
        vec![Item::Missile, Item::Missile, Item::ETank, Item::ETank, Item::ETank]
    );
}

#[test]
fn unique_items_come_last_by_number() {
    let data = game_data(&spread);
    let map = GameMap { doors: vec![] };
    let config = difficulty(ItemPlacementStrategy::Open);
    let randomizer = Randomizer::new(&map, &config, &data);
    let state = start(&randomizer, led_by(&[Item::Missile]));
    assert!(!randomizer.overdraws(&state, 1, 99, 0));
    let chosen =
        randomizer.select_items(&state, 1, 99, 0, &mut StdRng::seed_from_u64(3)).unwrap();
    assert_eq!(chosen.key_items, vec![Item::Missile]);
    let unique: Vec<Item> =
        in_order().into_iter().filter(|item| !item.occurs_repeatedly()).collect();
    assert_eq!(unique.len(), 16);
    assert_eq!(&chosen.other_items[83..], unique.as_slice());
    assert_eq!(chosen.new_items_remaining, vec![0; 21]);
}

#[test]
fn unique_items_may_run_out() {
    let data = game_data(&spread);
    let map = GameMap { doors: vec![] };
    let config = difficulty(ItemPlacementStrategy::Open);
    let randomizer = Randomizer::new(&map, &config, &data);
    let state = start(&randomizer, led_by(&[Item::Bombs]));
    assert!(randomizer.overdraws(&state, 1, 99, 0));
    assert!(!randomizer.overdraws(&state, 1, 79, 0));
    assert!(!randomizer.overdraws(&state, 21, 79, 0));
    assert!(!randomizer.overdraws(&state, 1, 99, 21));
}

#[test]
fn an_overdrawn_item_ends_the_attempt() {
    let data = game_data(&|_| Some(Requirement::Free));
    let map = GameMap { doors: vec![] };
    let config = difficulty(ItemPlacementStrategy::Open);
    let randomizer = Randomizer::new(&map, &config, &data);
    let world = Star { oneway_from: 1, ..Star::new() };
    let mut state = start(&randomizer, led_by(&[Item::Bombs]));
    assert!(randomizer.update_reachability(&world, &mut state).is_ok());
    let result = randomizer.step(&world, &mut state, &mut StdRng::seed_from_u64(0));
    assert!(matches!(result, Err(Failure::ItemOverdrawn)));
    assert!(state.item_location_state.iter().all(|l| l.placed_item.is_none()));
}

#[test]
fn reachability_is_noted_and_kept() {
    let data = game_data(&|i| {
        if i < 5 {
            Some(Requirement::Free)
        } else {
            Some(Requirement::Rule(Item::Morph.index()))
        }
    });
    let map = GameMap { doors: vec![] };
    let config = difficulty(ItemPlacementStrategy::Open);
    let randomizer = Randomizer::new(&map, &config, &data);
    let world = Star { oneway_from: 3, ..Star::new() };
    let mut state = start(&randomizer, in_order());
    assert_eq!(randomizer.update_reachability(&world, &mut state), Ok(()));
    let known: Vec<(bool, bool, Option<usize>)> = state.item_location_state[0..6]
        .iter()
        .map(|l| (l.reachable, l.bireachable, l.bireachable_vertex_id))
        .collect();
    assert_eq!(
        known,
        vec![
            (true, true, Some(1)),
            (true, true, Some(2)),
            (true, true, Some(3)),
            (true, false, None),
            (true, false, None),
            (false, false, None),
        ]
    );
    assert_eq!(state.flag_bireachable, vec![false]);
    assert!(state.debug_data.is_some());
    // With another world nothing is taken back.
    let closed = Star { oneway_from: 0, ..Star::new() };
    assert_eq!(randomizer.update_reachability(&closed, &mut state), Ok(()));
    assert!(state.item_location_state[0].bireachable);
    assert_eq!(state.item_location_state[0].bireachable_vertex_id, Some(1));
    let short = Star { short: true, ..Star::new() };
    assert_eq!(
        randomizer.update_reachability(&short, &mut state),
        Err(Failure::TraversalTooShort)
    );
    assert!(state.item_location_state[0].bireachable);
}

#[test]
fn the_first_gate_counts() {
    let mut data = game_data(&|_| Some(Requirement::Free));
    data.item_vertex_ids[0] = vec![7, 9, 11];
    let map = GameMap { doors: vec![] };
    let config = difficulty(ItemPlacementStrategy::Open);
    let randomizer = Randomizer::new(&map, &config, &data);
    let mut state = start(&randomizer, in_order());
    let mut local_states = vec![None; 101];
    local_states[7] = Some(LocalState::new());
    local_states[11] = Some(LocalState::new());
    let forward = TraverseResult { local_states: local_states.clone(), trail: vec![] };
    let reverse = TraverseResult { local_states, trail: vec![] };
    let mut bireachable = vec![false; 101];
    bireachable[9] = true;
    bireachable[11] = true;
    bireachable[4] = true;
    randomizer.mark_reachability(&mut state, forward, reverse, &bireachable);
    assert!(state.item_location_state[0].reachable);
    assert!(state.item_location_state[0].bireachable);
    assert_eq!(state.item_location_state[0].bireachable_vertex_id, Some(11));
    // Vertex 4 is not reached, which matters to the item there but not to the flag.
    assert!(!state.item_location_state[3].bireachable);
    assert_eq!(state.flag_bireachable, vec![true]);
}

#[test]
fn flags_are_set_until_none_is_new() {
    let mut data = game_data(&spread);
    data.flag_locations = vec![(1, 3, 1), (1, 50, 0)];
    data.flag_vertex_ids = vec![vec![4], vec![51]];
    let map = GameMap { doors: vec![] };
    let config = difficulty(ItemPlacementStrategy::Open);
    let randomizer = Randomizer::new(&map, &config, &data);
    let world = Star::new();
    let mut state = start(&randomizer, in_order());
    assert_eq!(randomizer.update_reachability(&world, &mut state), Ok(()));
    assert_eq!(state.flag_bireachable, vec![true, false]);
    assert_eq!(state.global_state.flags, vec![true, false]);
    assert_eq!(randomizer.settle_flags(&world, &mut state), Ok(()));
    assert_eq!(state.global_state.flags, vec![true, true]);
    assert!(!randomizer.acquire_flags(&mut state));
    state.global_state.flags[1] = false;
    assert!(randomizer.acquire_flags(&mut state));
    assert_eq!(state.global_state.flags, vec![true, true]);
}

#[test]
fn items_are_placed_in_pairs_with_locations() {
    let data = game_data(&spread);
    let map = GameMap { doors: vec![] };
    let config = difficulty(ItemPlacementStrategy::Open);
    let randomizer = Randomizer::new(&map, &config, &data);
    let mut state = start(&randomizer, in_order());
    randomizer.place_items(
        &mut state,
        &[9, 4],
        &[2, 6],
        &[Item::Morph],
        &[Item::Missile, Item::Super],
    );
    let placed: Vec<(usize, Item)> = state
        .item_location_state
        .iter()
        .enumerate()
        .filter_map(|(i, l)| l.placed_item.map(|item| (i, item)))
        .collect();
    assert_eq!(placed, vec![(2, Item::Super), (4, Item::Missile), (9, Item::Morph)]);
}

#[test]
fn what_lies_ready_is_picked_up_once() {
    let data = game_data(&spread);
    let map = GameMap { doors: vec![] };
    let config = difficulty(ItemPlacementStrategy::Open);
    let randomizer = Randomizer::new(&map, &config, &data);
    let world = Star::new();
    let mut state = start(&randomizer, in_order());
    let ready = ItemLocationState {
        placed_item: Some(Item::Missile),
        collected: false,
        reachable: true,
        bireachable: true,
        bireachable_vertex_id: Some(1),
    };
    state.item_location_state[0] = ready;
    state.item_location_state[1] =
        ItemLocationState { placed_item: Some(Item::ETank), bireachable: false, ..ready };
    state.item_location_state[2] = ItemLocationState { placed_item: None, ..ready };
    state.item_location_state[3] = ItemLocationState { collected: true, ..ready };
    state.item_location_state[4] =
        ItemLocationState { placed_item: Some(Item::Morph), ..ready };
    assert_eq!(randomizer.collect_items(&world, &mut state), Ok(()));
    let collected: Vec<bool> =
        state.item_location_state[0..5].iter().map(|l| l.collected).collect();
    assert_eq!(collected, vec![true, false, false, true, true]);
    assert_eq!(state.global_state.max_missiles, 5);
    assert_eq!(state.global_state.max_energy, 99);
    assert!(state.global_state.items[Item::Morph.index()]);
    assert_eq!(randomizer.collect_items(&world, &mut state), Ok(()));
    assert_eq!(state.global_state.max_missiles, 5);
    state.item_location_state[0].collected = false;
    let reshaping = Star { reshaping: true, ..Star::new() };
    assert_eq!(
        randomizer.collect_items(&reshaping, &mut state),
        Err(Failure::StateReshaped)
    );
    assert!(!state.item_location_state[0].collected);
    assert_eq!(state.global_state.items.len(), 21);
}

#[test]
fn finishing_fills_free_locations_by_number() {
    let data = game_data(&spread);
    let map = GameMap { doors: vec![] };
    let config = difficulty(ItemPlacementStrategy::Open);
    let randomizer = Randomizer::new(&map, &config, &data);
    let mut state = start(&randomizer, in_order());
    for i in 0..96 {
        state.item_location_state[i].placed_item = Some(Item::Missile);
    }
    state.item_location_state[10].placed_item = None;
    state.items_remaining = vec![0; 21];
    state.items_remaining[Item::Super.index()] = 2;
    state.items_remaining[Item::Bombs.index()] = 1;
    state.items_remaining[Item::ReserveTank.index()] = 2;
    randomizer.finish(&mut state);
    assert_eq!(state.item_location_state[10].placed_item, Some(Item::Super));
    let tail: Vec<Item> =
        state.item_location_state[96..].iter().map(|l| l.placed_item.unwrap()).collect();
    assert_eq!(
        tail,
        vec![Item::Super, Item::Bombs, Item::ReserveTank, Item::ReserveTank]
    );
    let result = randomizer.get_randomization(&state, vec![]);
    assert_eq!(result.item_placement[10], Item::Super);
    assert_eq!(result.item_placement[99], Item::ReserveTank);
    assert_eq!(result.item_placement[0], Item::Missile);
    assert!(result.spoiler_log.details.is_empty());
}

#[test]
fn a_route_tells_what_is_left_where_it_changes() {
    let data = game_data(&|i| match i {
        0 => Some(Requirement::Free),
        _ => Some(Requirement::Rule(30)),
    });
    let map = GameMap { doors: vec![] };
    let config = difficulty(ItemPlacementStrategy::Open);
    let randomizer = Randomizer::new(&map, &config, &data);
    let world = Star::new();
    let state = start(&randomizer, in_order());
    let mut local = LocalState::new();
    let route = randomizer
        .get_spoiler_route(&world, &state.global_state, &mut local, &[0, 2, 3])
        .unwrap();
    assert_eq!(route.len(), 3);
    assert_eq!(route[0].room, "Hall");
    assert_eq!(route[0].node, "Item 0");
    assert_eq!(route[0].strat_name, "To 0");
    assert_eq!(route[0].energy_remaining, None);
    assert_eq!(route[1].node, "Item 1");
    assert_eq!(route[1].energy_remaining, Some(69));
    assert_eq!(route[1].missiles_remaining, None);
    assert_eq!(route[2].room, "Landing Site");
    assert_eq!(route[2].strat_name, "From 1");
    assert_eq!(route[2].energy_remaining, Some(39));
    assert_eq!(local.energy_used, 60);
    assert!(randomizer
        .get_spoiler_route(&world, &state.global_state, &mut local, &[0, 200])
        .is_none());
    assert_eq!(local.energy_used, 60);
}

#[test]
fn an_amount_that_cannot_be_told_blocks_a_route() {
    let data = game_data(&|_| Some(Requirement::Rule(30)));
    let map = GameMap { doors: vec![] };
    let config = difficulty(ItemPlacementStrategy::Open);
    let randomizer = Randomizer::new(&map, &config, &data);
    let mut state = start(&randomizer, in_order());
    state.global_state.max_energy = i32::MIN;
    let mut local = LocalState::new();
    assert!(randomizer
        .get_spoiler_route(&Star::new(), &state.global_state, &mut local, &[0])
        .is_none());
    assert_eq!(local, LocalState::new());
}

#[test]
fn the_start_of_a_step_tells_what_is_owned() {
    let data = game_data(&spread);
    let map = GameMap { doors: vec![] };
    let config = difficulty(ItemPlacementStrategy::Open);
    let randomizer = Randomizer::new(&map, &config, &data);
    let mut state = start(&randomizer, in_order());
    state.global_state.items[Item::Varia.index()] = true;
    state.global_state.items[Item::ETank.index()] = true;
    state.global_state.max_energy = 199;
    let told = randomizer.get_spoiler_start_state(&state.global_state);
    assert_eq!(told.items, vec!["ETank", "Varia"]);
    assert!(told.flags.is_empty());
    assert_eq!(told.max_energy, 199);
    assert_eq!(told.max_supers, 0);
}

#[test]
fn a_step_tells_where_items_are_first_found() {
    let data = game_data(&spread);
    let map = GameMap { doors: vec![] };
    let config = difficulty(ItemPlacementStrategy::Semiclosed);
    let randomizer = Randomizer::new(&map, &config, &data);
    let world = Star::new();
    let mut state = start(&randomizer, led_by(&[Item::Morph]));
    assert_eq!(randomizer.update_reachability(&world, &mut state), Ok(()));
    let details = match randomizer.step(&world, &mut state, &mut StdRng::seed_from_u64(5)) {
        Ok(details) => details,
        Err(_) => panic!("the step opens up the locations that need the key item"),
    };
    assert_eq!(details.step, 1);
    assert_eq!(details.items.len(), 5);
    let placed: Vec<String> = state.item_location_state[0..5]
        .iter()
        .map(|l| l.placed_item.unwrap().name().to_string())
        .collect();
    assert!(placed.contains(&"Morph".to_string()));
    for (i, found) in details.items.iter().enumerate() {
        assert_eq!(found.item, placed[i]);
        assert_eq!(found.location.room, "Hall");
        assert_eq!(found.location.node, format!("Item {}", i));
        assert_eq!(found.obtain_route.len(), 1);
        assert_eq!(found.obtain_route[0].strat_name, format!("To {}", i));
        assert_eq!(found.return_route.len(), 1);
        assert_eq!(found.return_route[0].strat_name, format!("From {}", i));
        assert!(found.start_state.items.is_empty());
    }
    // Every location that could be reached is filled, and its item picked up.
    assert!(state.item_location_state[0..5].iter().all(|l| l.collected));
    assert!(state.item_location_state[5..].iter().all(|l| l.placed_item.is_none()));
    // The flag at a location that can be left again is set.
    assert_eq!(state.global_state.flags, vec![true, true]);
    // The key item opened up new locations.
    assert!(state.item_location_state[5 + Item::Morph.index()].bireachable);
    assert!(!state.done);
}

#[test]
fn an_attempt_is_done_once_every_item_is_placed() {
    let data = game_data(&|_| Some(Requirement::Free));
    let map = GameMap { doors: vec![] };
    let config = difficulty(ItemPlacementStrategy::Open);
    let randomizer = Randomizer::new(&map, &config, &data);
    let world = Star::new();
    let mut state = start(&randomizer, in_order());
    assert_eq!(randomizer.update_reachability(&world, &mut state), Ok(()));
    assert!(randomizer.step(&world, &mut state, &mut StdRng::seed_from_u64(5)).is_ok());
    assert!(state.done);
    assert!(state.debug_data.is_none());
    assert_eq!(state.items_remaining, vec![0; 21]);
    assert_eq!(state.global_state.max_missiles, 46 * 5);
    assert_eq!(state.global_state.max_energy, 99 + 1400);
}

#[test]
fn looking_twice_changes_nothing() {
    let data = game_data(&spread);
    let map = GameMap { doors: vec![] };
    let config = difficulty(ItemPlacementStrategy::Open);
    let randomizer = Randomizer::new(&map, &config, &data);
    let world = Star { oneway_from: 3, ..Star::new() };
    let mut state = start(&randomizer, in_order());
    assert_eq!(randomizer.update_reachability(&world, &mut state), Ok(()));
    let locations = state.item_location_state.clone();
    let flags = state.flag_bireachable.clone();
    assert_eq!(randomizer.update_reachability(&world, &mut state), Ok(()));
    assert_eq!(state.item_location_state, locations);
    assert_eq!(state.flag_bireachable, flags);
}

#[test]
fn a_step_keeps_what_there_was() {
    let data = game_data(&spread);
    let map = GameMap { doors: vec![] };
    let config = difficulty(ItemPlacementStrategy::Semiclosed);
    let randomizer = Randomizer::new(&map, &config, &data);
    let world = Star::new();
    let mut state = start(&randomizer, led_by(&[Item::Morph, Item::Bombs]));
    let mut rng = StdRng::seed_from_u64(9);
    assert_eq!(randomizer.update_reachability(&world, &mut state), Ok(()));
    for _ in 0..2 {
        let before = state.item_location_state.clone();
        assert!(randomizer.step(&world, &mut state, &mut rng).is_ok());
        let mut opened = false;
        for (old_location, new_location) in before.iter().zip(&state.item_location_state) {
            if old_location.placed_item.is_some() {
                assert_eq!(new_location.placed_item, old_location.placed_item);
            }
            assert!(!old_location.collected || new_location.collected);
            assert!(!old_location.reachable || new_location.placed_item.is_some());
            assert!(!old_location.bireachable || new_location.bireachable);
            opened = opened || (new_location.bireachable && !old_location.reachable);
        }
        assert!(opened);
        let free = state.item_location_state.iter().filter(|l| l.placed_item.is_none()).count();
        assert_eq!(state.items_remaining.iter().sum::<usize>(), free);
    }
}

#[test]
fn no_item_is_told_of_in_two_steps() {
    let data = game_data(&spread);
    let map = GameMap { doors: vec![] };
    let config = difficulty(ItemPlacementStrategy::Open);
    let randomizer = Randomizer::new(&map, &config, &data);
    let mut num_told = 0;
    for seed in 0..10 {
        let mut rng = StdRng::seed_from_u64(seed);
        if let Ok(result) = randomizer.randomize(&Star::new(), &mut rng).outcome {
            let mut told: Vec<String> = vec![];
            for step in &result.spoiler_log.details {
                let now: Vec<String> = step.items.iter().map(|d| d.item.clone()).collect();
                assert!(now.iter().all(|item| !told.contains(item)));
                told.extend(now);
            }
            num_told += told.len();
        }
    }
    assert!(num_told > 0);
}

#[test]
fn copies_and_locations_are_counted() {
    let mut data = game_data(&spread);
    assert!(data.is_item_count_matched());
    data.item_locations.push((1, 200));
    assert!(!data.is_item_count_matched());
    data.item_isv.keys.push("Another".to_string());
    assert!(data.is_item_count_matched());
    assert!(!data.is_playable());
    data.item_isv.keys.truncate(20);
    data.item_locations.truncate(99);
    assert!(!data.is_item_count_matched());
}

#[test]
fn the_log_agrees_with_the_placement() {
    let data = game_data(&spread);
    let map = GameMap { doors: vec![] };
    let mut num_logs = 0;
    for strategy in strategies() {
        let config = difficulty(strategy);
        let randomizer = Randomizer::new(&map, &config, &data);
        for seed in 0..10 {
            let mut rng = StdRng::seed_from_u64(seed);
            if let Ok(result) = randomizer.randomize(&Star::new(), &mut rng).outcome {
                num_logs += 1;
                assert!(result.spoiler_log.details.len() <= ITEM_COUNT);
                let mut told: Vec<String> = vec![];
                for step in &result.spoiler_log.details {
                    assert!(!step.items.is_empty());
                    for found in &step.items {
                        let location = (0..NUM_LOCATIONS)
                            .find(|i| found.location.node == format!("Item {}", i))
                            .unwrap();
                        assert_eq!(found.item, result.item_placement[location].name());
                        assert!(told.iter().all(|item| found.start_state.items.contains(item)));
                        if step.step == 1 {
                            assert!(found.start_state.items.is_empty());
                        }
                    }
                    told.extend(step.items.iter().map(|found| found.item.clone()));
                }
            }
        }
    }
    assert!(num_logs > 0);
}

#[test]
fn shuffling_draws_from_the_generator() {
    let mut rng = StdRng::seed_from_u64(12);
    let mut values: Vec<usize> = (0..50).collect();
    shuffle(&mut values, &mut rng);
    let mut other = StdRng::seed_from_u64(12);
    let mut expected: Vec<usize> = (0..50).collect();
    expected.shuffle(&mut other);
    assert_eq!(values, expected);
    assert_eq!(rng, other);
    assert_ne!(values, (0..50).collect::<Vec<usize>>());
    shuffle(&mut values, &mut rng);
    expected.shuffle(&mut other);
    assert_eq!(values, expected);
}

#[test]
fn flags_may_open_the_first_way_back() {
    let data = game_data(&spread);
    let map = GameMap { doors: vec![] };
    let config = difficulty(ItemPlacementStrategy::Semiclosed);
    let randomizer = Randomizer::new(&map, &config, &data);
    let world = Star { gated: true, ..Star::new() };
    let mut state = start(&randomizer, led_by(&[Item::Morph]));
    assert_eq!(randomizer.update_reachability(&world, &mut state), Ok(()));
    assert!(state.item_location_state.iter().all(|l| !l.bireachable));
    state.flag_bireachable[0] = true;
    assert!(randomizer.step(&world, &mut state, &mut StdRng::seed_from_u64(5)).is_ok());
    assert_eq!(state.global_state.flags, vec![true, true]);
    assert!(state.item_location_state[0..5].iter().all(|l| l.collected));
}
