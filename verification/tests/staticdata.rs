use vienna::staticdata::{
    Catalog, CatalogItem, DropSet, EncounterConfig, Experience, ItemCount, ItemCountEntry, Level, Levels, Rarity, StaticData,
    StaticDataError, TappableConfig,
};

fn item(id: &str, rarity: Rarity, tappable: u32) -> CatalogItem {
    CatalogItem { id: id.to_owned(), rarity, experience: Experience { tappable, encounter: 0, crafting: 0, journal: 0 } }
}

fn level(experience_required: u32) -> Level {
    Level { experience_required, rubies: 1, items: vec![], buildplates: vec![] }
}

fn stone_config() -> TappableConfig {
    TappableConfig {
        icon: "stone".to_owned(),
        drop_sets: vec![DropSet { items: vec!["stone".to_owned()], chance: 1 }],
        item_counts: vec![ItemCountEntry { item_id: "stone".to_owned(), count: ItemCount { min: 1, max: 2 } }],
    }
}

fn wolf() -> EncounterConfig {
    EncounterConfig {
        icon: "wolf".to_owned(),
        rarity: Rarity::Rare,
        encounter_buildplate_id: "bp-1".to_owned(),
        duration: 60,
    }
}

#[test]
fn loads_static_data_layout() {
    let data = match StaticData::load(vec![item("stone", Rarity::Common, 5)], vec![level(100)], vec![stone_config()], vec![wolf()]) {
        Ok(data) => data,
        Err(_) => panic!("static data should load"),
    };
    assert_eq!(data.levels.levels.len(), 1);
    assert!(data.catalog.get_item("stone").is_some());
}

#[test]
fn levels_must_ask_for_more_experience_each_time() {
    assert!(matches!(Levels::load(vec![level(100), level(100)]), Err(StaticDataError::InvalidLevels)));
    assert!(matches!(Levels::load(vec![level(200), level(100)]), Err(StaticDataError::InvalidLevels)));
    assert!(matches!(Levels::load(vec![level(100), level(200), level(300)]), Ok(l) if l.levels.len() == 3));
    assert!(matches!(Levels::load(vec![]), Ok(l) if l.levels.is_empty()));
}

#[test]
fn invalid_levels_are_reported_before_missing_counts() {
    let mut config = stone_config();
    config.item_counts.clear();
    assert!(matches!(
        StaticData::load(vec![], vec![level(5), level(1)], vec![config], vec![]),
        Err(StaticDataError::InvalidLevels)
    ));
    let mut config = stone_config();
    config.item_counts.clear();
    match StaticData::load(vec![], vec![level(1)], vec![config], vec![]) {
        Err(StaticDataError::MissingItemCount { icon, item_id }) => {
            assert_eq!(icon, "stone");
            assert_eq!(item_id, "stone");
        }
        _ => panic!("stone has no count range"),
    }
}

#[test]
fn catalog_items_are_one_per_id_in_id_order() {
    let catalog = Catalog::load(vec![
        item("stone", Rarity::Common, 1),
        item("apple", Rarity::Uncommon, 2),
        item("stone", Rarity::Oobe, 3),
    ]);
    let items = catalog.items();
    assert_eq!(items.len(), 2);
    assert_eq!(items[0].id, "apple");
    assert_eq!(items[1].id, "stone");
    assert_eq!(items[1].rarity, Rarity::Oobe);
    assert_eq!(items[1].experience.tappable, 3);
    let found = catalog.get_item("stone").expect("stone is listed");
    assert_eq!(found.rarity, Rarity::Oobe);
    assert!(catalog.get_item("gold").is_none());
}

#[test]
fn level_rewards_start_at_the_second_level() {
    let levels = match Levels::load(vec![level(10), level(20)]) {
        Ok(levels) => levels,
        Err(_) => panic!("levels increase"),
    };
    assert!(levels.rewards_for_level(0).is_none());
    assert!(levels.rewards_for_level(1).is_none());
    assert_eq!(levels.rewards_for_level(2).map(|l| l.experience_required), Some(10));
    assert_eq!(levels.rewards_for_level(3).map(|l| l.experience_required), Some(20));
    assert!(levels.rewards_for_level(4).is_none());
}
