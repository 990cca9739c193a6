use vienna::generate::{
    drop_set_for_roll, encounters_for_draws, tappable_for_draws, Encounter, EncounterGenerator, Tappable, TappableGenerator,
    GRACE_PERIOD_MS, MAX_TAPPABLE_COUNT, MIN_TAPPABLE_COUNT,
};
use vienna::manager::{batch_ends_fit, tile_id, TappablesManager};
use vienna::spawner::{SpawnBatch, Spawner};
use vienna::tappables::{
    find_missing_item_count, rarity_rank, Catalog, CatalogItem, DropSet, EncounterConfig, ItemCount, ItemCountEntry, Rarity,
    EncountersConfig, StaticData, TappableConfig, TappablesConfig, TappablesError,
};
use vienna::tiles::{ActiveTileNotification, ActiveTiles};

fn catalog_item(id: &str, rarity: Rarity) -> CatalogItem {
    CatalogItem { id: id.to_owned(), rarity }
}

fn count(item_id: &str, min: u32, max: u32) -> ItemCountEntry {
    ItemCountEntry { item_id: item_id.to_owned(), count: ItemCount { min, max } }
}

fn basic_config() -> TappableConfig {
    TappableConfig {
        icon: "stone_icon".to_owned(),
        drop_sets: vec![DropSet { items: vec!["stone".to_owned(), "diamond".to_owned()], chance: 1 }],
        item_counts: vec![count("stone", 1, 1), count("diamond", 1, 1)],
    }
}

fn wolf() -> EncounterConfig {
    EncounterConfig {
        icon: "wolf_icon".to_owned(),
        rarity: Rarity::Rare,
        encounter_buildplate_id: "bp-123".to_owned(),
        duration: 120,
    }
}

fn static_data() -> StaticData {
    let loaded = StaticData::load(
        vec![catalog_item("stone", Rarity::Common), catalog_item("diamond", Rarity::Epic)],
        vec![basic_config()],
        vec![wolf()],
    );
    match loaded {
        Ok(data) => data,
        Err(_) => panic!("static data should load"),
    }
}

fn copy_batch(batch: &SpawnBatch) -> SpawnBatch {
    SpawnBatch { tappables: batch.tappables.clone(), encounters: batch.encounters.clone() }
}

#[test]
fn generates_tappables_and_manages_tiles() {
    let static_data = static_data();
    assert!(Spawner::can_build(&static_data));
    let mut spawner = Spawner::new(&static_data, 42, 1_000_000);
    let mut active_tiles = ActiveTiles::new();
    let update = active_tiles.record_active_tile(
        ActiveTileNotification { x: 100, y: 200, player_id: "player-1".to_owned() },
        1_000_000,
    );

    assert!(!update.active.is_empty());

    assert!(spawner.can_spawn_now(&update.active, 1_000_000));
    let batch = match spawner.spawn_tiles(&update.active, 1_000_000) {
        Ok(batch) => batch,
        Err(_) => panic!("spawn should succeed"),
    };
    assert!(!batch.tappables.is_empty());

    let mut manager = TappablesManager::new();
    manager.add_spawn_batch(copy_batch(&batch));

    let tappable = batch.tappables.first().expect("tappable should exist");
    let found = manager.get_tappables_around(tappable.tile_x, tappable.tile_y, 5);
    assert!(!found.is_empty());
    assert!(manager.is_tappable_valid_for(tappable, tappable.spawn_time));
}

#[test]
fn generated_tappables_follow_their_configuration() {
    let static_data = static_data();
    let mut generator = TappableGenerator::new(&static_data, 7);
    let tappables = match generator.generate_tappables(3, -4, 500_000) {
        Ok(t) => t,
        Err(_) => panic!("generation should succeed"),
    };
    assert!(tappables.len() as u32 >= MIN_TAPPABLE_COUNT && tappables.len() as u32 <= MAX_TAPPABLE_COUNT);
    for t in &tappables {
        assert_eq!(t.tile_x, 3);
        assert_eq!(t.tile_y, -4);
        assert_eq!(t.icon, "stone_icon");
        assert_eq!(t.id.len(), 36);
        assert!(t.spawn_time >= 500_000 + 60_000 && t.spawn_time <= 500_000 + 120_000);
        assert!(t.valid_for >= 120_000 && t.valid_for <= 300_000);
        assert_eq!(t.items.len(), 2);
        assert!(t.items.iter().all(|item| item.count == 1));
        // A diamond is among the drops, so the tappable takes its rarity.
        assert_eq!(t.rarity, Rarity::Epic);
    }
}

#[test]
fn generation_reports_an_item_missing_from_the_catalog() {
    let loaded = StaticData::load(vec![catalog_item("stone", Rarity::Common)], vec![basic_config()], vec![]);
    let data = match loaded {
        Ok(data) => data,
        Err(_) => panic!("static data should load"),
    };
    let mut generator = TappableGenerator::new(&data, 1);
    match generator.generate_tappables(0, 0, 0) {
        Err(TappablesError::MissingItem(id)) => assert_eq!(id, "diamond"),
        _ => panic!("diamond is not in the catalog"),
    }
}

#[test]
fn loading_reports_the_first_item_without_a_count() {
    let mut config = basic_config();
    config.item_counts = vec![count("stone", 1, 2)];
    match StaticData::load(vec![], vec![config], vec![]) {
        Err(TappablesError::MissingItemCount { icon, item_id }) => {
            assert_eq!(icon, "stone_icon");
            assert_eq!(item_id, "diamond");
        }
        _ => panic!("diamond has no count range"),
    }
    let mut config = basic_config();
    config.item_counts = vec![];
    let found = find_missing_item_count(&vec![basic_config(), config]);
    assert_eq!(found, Some(("stone_icon".to_owned(), "stone".to_owned())));
}

#[test]
fn no_configuration_spawns_nothing() {
    let data = match StaticData::load(vec![], vec![], vec![]) {
        Ok(data) => data,
        Err(_) => panic!("empty static data should load"),
    };
    let mut tappables = TappableGenerator::new(&data, 1);
    assert!(matches!(tappables.generate_tappables(0, 0, 0), Ok(v) if v.is_empty()));
    let mut encounters = EncounterGenerator::new(&data, 1);
    assert!(encounters.generate_encounters(0, 0, 0).is_empty());
}

#[test]
fn encounters_last_their_configured_duration() {
    let data = static_data();
    let mut generator = EncounterGenerator::new(&data, 3);
    let mut seen = 0;
    for cycle in 0..200u64 {
        for e in generator.generate_encounters(1, 1, cycle * 15_000) {
            seen += 1;
            assert_eq!(e.valid_for, 120_000);
            assert_eq!(e.encounter_buildplate_id, "bp-123");
            assert_eq!(e.rarity, Rarity::Rare);
            assert!(e.spawn_time >= cycle * 15_000 + 60_000 && e.spawn_time <= cycle * 15_000 + 120_000);
        }
    }
    assert!(seen > 0);
    assert_eq!(generator.max_encounter_lifetime(), 120_000 + 120_000 + GRACE_PERIOD_MS);
}

#[test]
fn catalog_lookup_takes_the_last_entry() {
    let catalog = Catalog::new(vec![catalog_item("a", Rarity::Common), catalog_item("a", Rarity::Legendary)]);
    assert_eq!(catalog.item_rarity("a"), Some(Rarity::Legendary));
    assert_eq!(catalog.item_rarity("b"), None);
    assert_eq!(rarity_rank(Rarity::Common), 0);
    assert_eq!(rarity_rank(Rarity::Other), 5);
}

fn tappable(id: &str, tile_x: i32, tile_y: i32, spawn_time: u64, valid_for: u64) -> Tappable {
    Tappable {
        id: id.to_owned(),
        tile_x,
        tile_y,
        lat_offset: 0,
        lon_offset: 0,
        spawn_time,
        valid_for,
        icon: "icon".to_owned(),
        rarity: Rarity::Common,
        items: vec![],
    }
}

fn encounter(id: &str, tile_x: i32, tile_y: i32, spawn_time: u64, valid_for: u64) -> Encounter {
    Encounter {
        id: id.to_owned(),
        tile_x,
        tile_y,
        lat_offset: 0,
        lon_offset: 0,
        spawn_time,
        valid_for,
        icon: "icon".to_owned(),
        rarity: Rarity::Rare,
        encounter_buildplate_id: "bp".to_owned(),
    }
}

#[test]
fn the_manager_replaces_by_id_within_a_tile() {
    let mut manager = TappablesManager::new();
    manager.add_spawn_batch(SpawnBatch {
        tappables: vec![tappable("a", 1, 1, 100_000, 60_000), tappable("a", 2, 2, 100_000, 60_000), tappable("a", 1, 1, 200_000, 60_000)],
        encounters: vec![encounter("e", 1, 1, 100_000, 60_000)],
    });
    let found = manager.get_tappables_around(1, 1, 0);
    assert_eq!(found.len(), 1);
    assert_eq!(found[0].spawn_time, 200_000);
    assert_eq!(manager.get_tappables_around(1, 1, 1).len(), 2);
    assert_eq!(manager.get_tappables_around(5, 5, 1).len(), 0);
    let stored = manager.get_tappable("a", &tile_id(2, 2)).expect("stored in tile 2_2");
    assert_eq!(stored.tile_x, 2);
    assert!(manager.get_tappable("a", "3_3").is_none());
    assert!(manager.get_encounter("e", "1_1").is_some());
    assert_eq!(manager.get_encounters_around(0, 0, 1).len(), 1);
}

#[test]
fn pruning_drops_what_has_ended() {
    let mut manager = TappablesManager::new();
    manager.add_spawn_batch(SpawnBatch {
        tappables: vec![tappable("old", 0, 0, 0, 10_000), tappable("new", 0, 0, 100_000, 10_000)],
        encounters: vec![encounter("old", 0, 0, 0, 10_000), encounter("new", 0, 0, 100_000, 10_000)],
    });
    manager.prune(10_000 + GRACE_PERIOD_MS);
    assert!(manager.get_tappable("old", "0_0").is_none());
    assert!(manager.get_tappable("new", "0_0").is_some());
    assert!(manager.get_encounter("old", "0_0").is_none());
    assert!(manager.get_encounter("new", "0_0").is_some());
}

#[test]
fn validity_windows_include_the_grace_period() {
    let manager = TappablesManager::new();
    let t = tappable("t", 0, 0, 100_000, 60_000);
    assert!(!manager.is_tappable_valid_for(&t, 100_000 - GRACE_PERIOD_MS - 1));
    assert!(manager.is_tappable_valid_for(&t, 100_000 - GRACE_PERIOD_MS));
    assert!(manager.is_tappable_valid_for(&t, 160_000 + GRACE_PERIOD_MS - 1));
    assert!(!manager.is_tappable_valid_for(&t, 160_000 + GRACE_PERIOD_MS));
    let e = encounter("e", 0, 0, 100_000, 60_000);
    assert!(manager.is_encounter_valid_for(&e, 159_999));
    assert!(!manager.is_encounter_valid_for(&e, 160_000));
    let early = tappable("t", 0, 0, 10, 60_000);
    assert!(manager.is_tappable_valid_for(&early, 0));
}

#[test]
fn tile_ids_join_the_coordinates() {
    assert_eq!(tile_id(12, -7), "12_-7");
    assert_eq!(tile_id(0, 0), "0_0");
    assert_eq!(tile_id(i32::MIN, i32::MAX), "-2147483648_2147483647");
    assert_ne!(tile_id(1, 23), tile_id(12, 3));
    assert_ne!(tile_id(-1, 1), tile_id(1, -1));
}

#[test]
fn batches_must_end_before_the_clock_runs_out() {
    let fits = SpawnBatch { tappables: vec![tappable("a", 0, 0, 1_000, 60_000)], encounters: vec![encounter("e", 0, 0, 1_000, 60_000)] };
    assert!(batch_ends_fit(&fits));
    let late = SpawnBatch { tappables: vec![tappable("a", 0, 0, u64::MAX - GRACE_PERIOD_MS, 1)], encounters: vec![] };
    assert!(!batch_ends_fit(&late));
    let late_encounter = SpawnBatch { tappables: vec![], encounters: vec![encounter("e", 0, 0, u64::MAX, 0)] };
    assert!(!batch_ends_fit(&late_encounter));
}

#[test]
fn a_stored_tappable_is_valid_when_it_spawns() {
    let mut manager = TappablesManager::new();
    manager.add_spawn_batch(SpawnBatch { tappables: vec![tappable("x", 4, 4, 90_000, 120_000)], encounters: vec![] });
    let stored = manager.get_tappable("x", "4_4").expect("just added");
    assert!(manager.is_tappable_valid_for(stored, stored.spawn_time));
    let spawn_time = stored.spawn_time;
    manager.prune(spawn_time);
    assert!(manager.get_tappable("x", "4_4").is_some());
}

const SAMPLE_ID: &str = "67e55044-10b1-426f-9247-bb680e5fe0c8";

#[test]
fn encounter_draws_build_one_encounter_when_the_roll_is_zero() {
    let config = EncountersConfig { encounters: vec![wolf(), EncounterConfig { duration: 30, ..wolf() }] };
    let built = encounters_for_draws(&config, 7, -8, 1_000_000, 0, 90_000, 1, 11, 22, SAMPLE_ID.to_owned());
    assert_eq!(built.len(), 1);
    let e = &built[0];
    assert_eq!(e.id, SAMPLE_ID);
    assert_eq!((e.tile_x, e.tile_y), (7, -8));
    assert_eq!((e.lat_offset, e.lon_offset), (11, 22));
    assert_eq!(e.spawn_time, 1_090_000);
    assert_eq!(e.valid_for, 30_000);
    assert_eq!(e.icon, "wolf_icon");
    assert_eq!(e.rarity, Rarity::Rare);
    assert_eq!(e.encounter_buildplate_id, "bp-123");
}

#[test]
fn encounter_draws_build_nothing_for_another_roll_or_no_configuration() {
    let config = EncountersConfig { encounters: vec![wolf()] };
    for roll in 1..4 {
        assert!(encounters_for_draws(&config, 0, 0, 0, roll, 60_000, 0, 0, 0, SAMPLE_ID.to_owned()).is_empty());
    }
    let empty = EncountersConfig { encounters: vec![] };
    assert!(encounters_for_draws(&empty, 0, 0, 0, 0, 60_000, 0, 0, 0, SAMPLE_ID.to_owned()).is_empty());
}

fn two_drop_sets() -> TappablesConfig {
    TappablesConfig {
        tappables: vec![TappableConfig {
            icon: "ore_icon".to_owned(),
            drop_sets: vec![
                DropSet { items: vec!["stone".to_owned()], chance: 3 },
                DropSet { items: vec!["stone".to_owned(), "diamond".to_owned()], chance: 2 },
            ],
            item_counts: vec![count("stone", 1, 4), count("diamond", 1, 2)],
        }],
    }
}

#[test]
fn a_roll_selects_the_drop_set_that_owns_its_band() {
    let config = two_drop_sets();
    let sets = &config.tappables[0].drop_sets;
    assert_eq!(drop_set_for_roll(sets, 0), 0);
    assert_eq!(drop_set_for_roll(sets, 2), 0);
    assert_eq!(drop_set_for_roll(sets, 3), 1);
    assert_eq!(drop_set_for_roll(sets, 4), 1);
}

#[test]
fn tappable_draws_build_the_selected_drop_set_with_the_drawn_counts() {
    let config = two_drop_sets();
    let catalog = Catalog::new(vec![catalog_item("stone", Rarity::Common), catalog_item("diamond", Rarity::Epic)]);
    let counts = vec![4, 2];
    let t = match tappable_for_draws(&catalog, &config, 3, 4, 500_000, 70_000, 200_000, 0, 5, 6, 4, &counts, SAMPLE_ID.to_owned()) {
        Ok(t) => t,
        Err(_) => panic!("the draws should build a tappable"),
    };
    assert_eq!(t.id, SAMPLE_ID);
    assert_eq!((t.tile_x, t.tile_y, t.lat_offset, t.lon_offset), (3, 4, 5, 6));
    assert_eq!(t.spawn_time, 570_000);
    assert_eq!(t.valid_for, 200_000);
    assert_eq!(t.icon, "ore_icon");
    assert_eq!(t.rarity, Rarity::Epic);
    let items: Vec<(String, u32)> = t.items.iter().map(|i| (i.id.clone(), i.count)).collect();
    assert_eq!(items, vec![("stone".to_owned(), 4), ("diamond".to_owned(), 2)]);

    let low = match tappable_for_draws(&catalog, &config, 3, 4, 500_000, 70_000, 200_000, 0, 5, 6, 1, &vec![3], SAMPLE_ID.to_owned()) {
        Ok(t) => t,
        Err(_) => panic!("the draws should build a tappable"),
    };
    assert_eq!(low.rarity, Rarity::Common);
    assert_eq!(low.items.len(), 1);
    assert_eq!(low.items[0].count, 3);
}

#[test]
fn tappable_draws_report_the_first_missing_count_then_the_first_missing_item() {
    let mut config = two_drop_sets();
    config.tappables[0].item_counts = vec![count("stone", 1, 4)];
    let catalog = Catalog::new(vec![catalog_item("stone", Rarity::Common)]);
    match tappable_for_draws(&catalog, &config, 0, 0, 0, 60_000, 120_000, 0, 0, 0, 3, &vec![1, 1], SAMPLE_ID.to_owned()) {
        Err(TappablesError::MissingItemCount { icon, item_id }) => {
            assert_eq!(icon, "ore_icon");
            assert_eq!(item_id, "diamond");
        }
        _ => panic!("diamond has no count range"),
    }
    let config = two_drop_sets();
    match tappable_for_draws(&catalog, &config, 0, 0, 0, 60_000, 120_000, 0, 0, 0, 3, &vec![1, 1], SAMPLE_ID.to_owned()) {
        Err(TappablesError::MissingItem(id)) => assert_eq!(id, "diamond"),
        _ => panic!("diamond is not in the catalog"),
    }
}

#[test]
fn a_tile_spawns_once_per_cycle_and_again_in_the_next() {
    let static_data = static_data();
    let mut spawner = Spawner::new(&static_data, 7, 1_000_000);
    let mut active_tiles = ActiveTiles::new();
    let update = active_tiles.record_active_tile(
        ActiveTileNotification { x: 5, y: 6, player_id: "player-2".to_owned() },
        1_000_000,
    );
    let tile = &update.active[0..1];
    assert!(spawner.can_spawn_now(tile, 1_000_000));
    let first = match spawner.spawn_cycle(tile, 1_000_000) {
        Ok(batch) => batch,
        Err(_) => panic!("spawn should succeed"),
    };
    assert!(!first.tappables.is_empty());

    assert!(spawner.can_spawn_now(tile, 1_000_000));
    match spawner.spawn_tiles(tile, 1_000_000) {
        Ok(batch) => {
            assert!(batch.tappables.is_empty());
            assert!(batch.encounters.is_empty());
        }
        Err(_) => panic!("a second spawn in the same cycle should draw nothing"),
    }

    assert!(spawner.can_spawn_now(tile, 1_015_000));
    let next = match spawner.spawn_cycle(tile, 1_015_000) {
        Ok(batch) => batch,
        Err(_) => panic!("spawn should succeed"),
    };
    assert!((1..=3).contains(&next.tappables.len()));
    assert!(next.encounters.len() <= 1);
}

#[test]
fn every_added_spawn_is_found_by_its_tile_and_id() {
    let mut manager = TappablesManager::new();
    manager.add_spawn_batch(SpawnBatch {
        tappables: vec![tappable("kept", 1, 1, 1_000, 60_000), tappable("other", 9, 9, 1_000, 60_000)],
        encounters: vec![],
    });
    let batch = SpawnBatch {
        tappables: vec![
            tappable("a", 1, 1, 2_000, 60_000),
            tappable("b", 1, 1, 3_000, 60_000),
            tappable("kept", 2, 2, 4_000, 60_000),
        ],
        encounters: vec![encounter("e1", 5, -5, 2_000, 60_000), encounter("e2", 5, -5, 3_000, 60_000)],
    };
    manager.add_spawn_batch(copy_batch(&batch));
    for t in &batch.tappables {
        let found = manager.get_tappable(&t.id, &tile_id(t.tile_x, t.tile_y)).expect("added tappable is stored");
        assert_eq!(found.spawn_time, t.spawn_time);
        assert_eq!((found.tile_x, found.tile_y), (t.tile_x, t.tile_y));
    }
    for e in &batch.encounters {
        let found = manager.get_encounter(&e.id, &tile_id(e.tile_x, e.tile_y)).expect("added encounter is stored");
        assert_eq!(found.spawn_time, e.spawn_time);
    }
    assert_eq!(manager.get_tappable("kept", "1_1").map(|t| t.spawn_time), Some(1_000));
    assert_eq!(manager.get_tappable("other", "9_9").map(|t| t.spawn_time), Some(1_000));
}
