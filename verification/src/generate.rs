//! Random spawning of tappables and encounters on a tile.
use crate::ids::{is_hyphenated_uuid_text, new_uuid_text};
use crate::manager::{encounter_views, EncounterView, TappableView};
use crate::random::{
    gen_range_u32_below, gen_range_u32_inclusive, gen_range_u64_inclusive, gen_range_usize_below,
    seeded_rng,
};
use crate::tappables::{
    encounter_configs_view, tappable_configs_view,
    rarity_rank, spec_rarity_rank, spec_catalog_rarity, spec_item_count, spec_max_rarity, Catalog, DropSet, DropSetView, EncounterConfig, ItemCount,
    EncountersConfig, Rarity, StaticData, TappableConfig, TappableConfigView, TappableItem, TappablesConfig,
    TappablesError,
};
use rand::rngs::StdRng;
use vstd::prelude::*;

verus! {

pub const MIN_TAPPABLE_COUNT: u32 = 1;
pub const MAX_TAPPABLE_COUNT: u32 = 3;
pub const MIN_TAPPABLE_DURATION_MS: u64 = 2 * 60 * 1000;
pub const MAX_TAPPABLE_DURATION_MS: u64 = 5 * 60 * 1000;
pub const MIN_TAPPABLE_DELAY_MS: u64 = 1 * 60 * 1000;
pub const MAX_TAPPABLE_DELAY_MS: u64 = 2 * 60 * 1000;
pub const ENCOUNTER_CHANCE_PER_TILE: u32 = 4;
pub const MIN_ENCOUNTER_DELAY_MS: u64 = 1 * 60 * 1000;
pub const MAX_ENCOUNTER_DELAY_MS: u64 = 2 * 60 * 1000;
pub const GRACE_PERIOD_MS: u64 = 30 * 1000;

/// Sum of the chances of the first `n` drop sets.
pub open spec fn chance_prefix(sets: Seq<DropSetView>, n: int) -> int
    decreases n,
{
    if n <= 0 || sets.len() == 0 {
        0
    } else if n > sets.len() {
        chance_prefix(sets, sets.len() as int)
    } else {
        chance_prefix(sets, n - 1) + sets[n - 1].chance
    }
}

pub open spec fn chance_total(sets: Seq<DropSetView>) -> int {
    chance_prefix(sets, sets.len() as int)
}

/// The first drop set, from position `i` on, whose cumulative chance exceeds
/// `roll`; the first drop set when there is none.
pub open spec fn drop_set_index_from(sets: Seq<DropSetView>, roll: int, i: int) -> int
    decreases sets.len() - i,
{
    if i < 0 || i >= sets.len() {
        0
    } else if roll < chance_prefix(sets, i + 1) {
        i
    } else {
        drop_set_index_from(sets, roll, i + 1)
    }
}

/// The drop set that a roll selects: each drop set owns a band of rolls as
/// wide as its chance, in order.
pub open spec fn spec_drop_set_index(sets: Seq<DropSetView>, roll: int) -> int {
    drop_set_index_from(sets, roll, 0)
}

pub open spec fn drop_sets_view(sets: Seq<DropSet>) -> Seq<DropSetView> {
    sets.map_values(|d: DropSet| d@)
}

proof fn lemma_chance_prefix_monotonic(sets: Seq<DropSetView>, a: int, b: int)
    requires
        0 <= a <= b <= sets.len(),
    ensures
        chance_prefix(sets, a) <= chance_prefix(sets, b),
    decreases b - a,
{
    if a < b {
        lemma_chance_prefix_monotonic(sets, a, b - 1);
    }
}

/// The position of the drop set that `roll` selects.
pub fn drop_set_for_roll(drop_sets: &Vec<DropSet>, roll: u32) -> (index: usize)
    requires
        drop_sets@.len() > 0,
    ensures
        index == spec_drop_set_index(drop_sets_view(drop_sets@), roll as int),
        index < drop_sets@.len(),
{
    let ghost sets = drop_sets_view(drop_sets@);
    let mut remaining = roll;
    let mut i: usize = 0;
    while i < drop_sets.len()
        invariant
            i <= drop_sets@.len(),
            sets == drop_sets_view(drop_sets@),
            remaining as int == roll as int - chance_prefix(sets, i as int),
            spec_drop_set_index(sets, roll as int) == drop_set_index_from(sets, roll as int, i as int),
        decreases drop_sets@.len() - i,
    {
        let chance = drop_sets[i].chance;
        assert(sets[i as int].chance == chance);
        if remaining < chance {
            return i;
        }
        remaining = remaining - chance;
        i = i + 1;
    }
    proof {
        assert(drop_set_index_from(sets, roll as int, i as int) == 0);
    }
    0
}

/// Sums the drop sets' chances.
fn total_chance(drop_sets: &Vec<DropSet>) -> (total: u32)
    requires
        chance_total(drop_sets_view(drop_sets@)) <= u32::MAX,
    ensures
        total == chance_total(drop_sets_view(drop_sets@)),
{
    let ghost sets = drop_sets_view(drop_sets@);
    let mut total: u32 = 0;
    let mut i: usize = 0;
    while i < drop_sets.len()
        invariant
            i <= drop_sets@.len(),
            sets == drop_sets_view(drop_sets@),
            chance_total(sets) <= u32::MAX,
            total == chance_prefix(sets, i as int),
        decreases drop_sets@.len() - i,
    {
        assert(sets[i as int].chance == drop_sets@[i as int].chance);
        proof {
            lemma_chance_prefix_monotonic(sets, i as int + 1, sets.len() as int);
        }
        total = total + drop_sets[i].chance;
        i = i + 1;
    }
    total
}

pub open spec fn max_one(n: int) -> int {
    if n > 1 { n } else { 1 }
}

#[derive(Clone, Debug)]
pub struct Tappable {
    pub id: String,
    pub tile_x: i32,
    pub tile_y: i32,
    /// The 32-bit draw that places the tappable between the tile's southern
    /// and northern edges; sampling the latitude consumes exactly this draw.
    pub lat_offset: u32,
    /// The 32-bit draw that places the tappable between the tile's western
    /// and eastern edges.
    pub lon_offset: u32,
    pub spawn_time: u64,
    pub valid_for: u64,
    pub icon: String,
    pub rarity: Rarity,
    pub items: Vec<TappableItem>,
}

#[derive(Clone, Debug)]
pub struct Encounter {
    pub id: String,
    pub tile_x: i32,
    pub tile_y: i32,
    pub lat_offset: u32,
    pub lon_offset: u32,
    pub spawn_time: u64,
    pub valid_for: u64,
    pub icon: String,
    pub rarity: Rarity,
    pub encounter_buildplate_id: String,
}

/// A configuration can be drawn from without a panic: it has a drop set, its
/// chances sum within `u32`, and each count range that a drop can use is not empty.
pub open spec fn config_ready(config: TappableConfigView) -> bool {
    &&& config.drop_sets.len() > 0
    &&& chance_total(config.drop_sets) <= u32::MAX
    &&& forall|j: int, k: int|
        0 <= j < config.drop_sets.len() && 0 <= k < config.drop_sets[j].items.len() ==> (spec_item_count(
            config.item_counts,
            #[trigger] config.drop_sets[j].items[k],
        ) matches Some(n) ==> n.min <= n.max)
}

pub open spec fn configs_ready(configs: Seq<TappableConfigView>) -> bool {
    forall|i: int| 0 <= i < configs.len() ==> config_ready(#[trigger] configs[i])
}

/// Every item that a drop set names is in the catalog.
pub open spec fn all_items_cataloged(configs: Seq<TappableConfigView>, catalog: Seq<(Seq<char>, Rarity)>) -> bool {
    forall|i: int, j: int, k: int|
        0 <= i < configs.len() && 0 <= j < configs[i].drop_sets.len() && 0 <= k
            < configs[i].drop_sets[j].items.len() ==> spec_catalog_rarity(
            catalog,
            #[trigger] configs[i].drop_sets[j].items[k],
        ) is Some
}

pub open spec fn item_rarities(catalog: Seq<(Seq<char>, Rarity)>, ids: Seq<Seq<char>>) -> Seq<Rarity> {
    ids.map_values(|id: Seq<char>| spec_catalog_rarity(catalog, id)->0)
}

/// The items drawn for a drop set: one entry per item it names, in order, each
/// with a count inside that item's range.
pub open spec fn items_drawn(items: Seq<TappableItem>, config: TappableConfigView, drop_set: DropSetView) -> bool {
    &&& items.len() == drop_set.items.len()
    &&& forall|k: int|
        0 <= k < items.len() ==> {
            &&& (#[trigger] items[k]).id@ == drop_set.items[k]
            &&& spec_item_count(config.item_counts, drop_set.items[k]) matches Some(n)
            &&& n.min <= items[k].count <= n.max
        }
}

/// A tappable drawn from configuration `config` and drop set `drop_set` on tile
/// `(tile_x, tile_y)` in the spawn cycle at `now`.
pub open spec fn tappable_from(
    t: Tappable,
    config: TappableConfigView,
    drop_set: DropSetView,
    catalog: Seq<(Seq<char>, Rarity)>,
    tile_x: i32,
    tile_y: i32,
    now: u64,
) -> bool {
    &&& is_hyphenated_uuid_text(t.id@)
    &&& t.tile_x == tile_x
    &&& t.tile_y == tile_y
    &&& now + MIN_TAPPABLE_DELAY_MS <= t.spawn_time <= now + MAX_TAPPABLE_DELAY_MS
    &&& MIN_TAPPABLE_DURATION_MS <= t.valid_for <= MAX_TAPPABLE_DURATION_MS
    &&& t.icon@ == config.icon
    &&& items_drawn(t.items@, config, drop_set)
    &&& t.rarity == spec_max_rarity(item_rarities(catalog, drop_set.items))
}

/// A tappable that generation on tile `(tile_x, tile_y)` at `now` can yield:
/// some configuration, and the drop set that some roll selects in it.
pub open spec fn spawned_tappable(
    t: Tappable,
    configs: Seq<TappableConfigView>,
    catalog: Seq<(Seq<char>, Rarity)>,
    tile_x: i32,
    tile_y: i32,
    now: u64,
) -> bool {
    exists|i: int, roll: int|
        #![trigger configs[i], spec_drop_set_index(configs[i].drop_sets, roll)]
        0 <= i < configs.len() && 0 <= roll < max_one(chance_total(configs[i].drop_sets))
            && tappable_from(
            t,
            configs[i],
            configs[i].drop_sets[spec_drop_set_index(configs[i].drop_sets, roll)],
            catalog,
            tile_x,
            tile_y,
            now,
        )
}

/// An error of generation names an item that a drop set lists but that has no
/// count range in its configuration, or that the catalog lacks.
pub open spec fn generation_error_explained(
    error: TappablesError,
    configs: Seq<TappableConfigView>,
    catalog: Seq<(Seq<char>, Rarity)>,
) -> bool {
    match error {
        TappablesError::MissingItemCount { icon, item_id } => exists|i: int, j: int, k: int|
            0 <= i < configs.len() && 0 <= j < configs[i].drop_sets.len() && 0 <= k
                < configs[i].drop_sets[j].items.len() && icon@ == configs[i].icon && item_id@
                == #[trigger] configs[i].drop_sets[j].items[k] && spec_item_count(
                configs[i].item_counts,
                item_id@,
            ) is None,
        TappablesError::MissingItem(id) => exists|i: int, j: int, k: int|
            0 <= i < configs.len() && 0 <= j < configs[i].drop_sets.len() && 0 <= k
                < configs[i].drop_sets[j].items.len() && id@ == #[trigger] configs[i].drop_sets[j].items[k]
                && spec_catalog_rarity(catalog, id@) is None,
        _ => false,
    }
}

pub open spec fn item_ids(items: Seq<TappableItem>) -> Seq<Seq<char>> {
    items.map_values(|item: TappableItem| item.id@)
}

/// `count` lies inside the count range `range`, which exists.
pub open spec fn count_in_range(range: Option<ItemCount>, count: u32) -> bool {
    match range {
        Some(n) => n.min <= count <= n.max,
        None => false,
    }
}

/// The counts drawn for a drop set of `config`: one per item it names, in
/// order, each inside that item's count range.
pub open spec fn counts_drawn(counts: Seq<u32>, config: TappableConfigView, drop_set: DropSetView) -> bool {
    &&& counts.len() == drop_set.items.len()
    &&& forall|k: int|
        0 <= k < counts.len() ==> count_in_range(spec_item_count(config.item_counts, drop_set.items[k]), #[trigger] counts[k])
}

/// Draws a count for every item of a drop set, in order; an item without a
/// count range stops the draws with an error.
fn draw_counts(rng: &mut StdRng, config: &TappableConfig, drop_set: &DropSet) -> (result: Result<Vec<u32>, TappablesError>)
    requires
        forall|k: int| 0 <= k < drop_set@.items.len() ==> (spec_item_count(
            config@.item_counts,
            #[trigger] drop_set@.items[k],
        ) matches Some(n) ==> n.min <= n.max),
    ensures
        match result {
            Ok(counts) => counts_drawn(counts@, config@, drop_set@),
            Err(TappablesError::MissingItemCount { icon, item_id }) => exists|k: int|
                0 <= k < drop_set@.items.len() && item_id@ == #[trigger] drop_set@.items[k]
                && icon@ == config@.icon && spec_item_count(config@.item_counts, item_id@) is None
                && forall|k2: int| 0 <= k2 < k ==> spec_item_count(config@.item_counts, #[trigger] drop_set@.items[k2]) is Some,
            Err(_) => false,
        },
        (forall|k: int| 0 <= k < drop_set@.items.len() ==> spec_item_count(
            config@.item_counts,
            #[trigger] drop_set@.items[k],
        ) is Some) ==> result is Ok,
{
    let mut counts: Vec<u32> = Vec::new();
    let mut k: usize = 0;
    while k < drop_set.items.len()
        invariant
            k <= drop_set.items@.len(),
            forall|k2: int| 0 <= k2 < drop_set@.items.len() ==> (spec_item_count(
                config@.item_counts,
                #[trigger] drop_set@.items[k2],
            ) matches Some(n) ==> n.min <= n.max),
            counts@.len() == k,
            forall|k2: int| 0 <= k2 < k ==> spec_item_count(config@.item_counts, #[trigger] drop_set@.items[k2]) is Some,
            forall|k2: int|
                0 <= k2 < k ==> count_in_range(spec_item_count(config@.item_counts, drop_set@.items[k2]), #[trigger] counts@[k2]),
        decreases drop_set.items@.len() - k,
    {
        let item_id = &drop_set.items[k];
        assert(item_id@ == drop_set@.items[k as int]);
        match config.item_count(item_id) {
            None => {
                return Err(TappablesError::MissingItemCount { icon: config.icon.clone(), item_id: item_id.clone() });
            },
            Some(range) => {
                let count = gen_range_u32_inclusive(rng, range.min, range.max);
                let ghost before = counts@;
                counts.push(count);
                proof {
                    assert forall|k2: int| 0 <= k2 < k + 1 implies count_in_range(
                        spec_item_count(config@.item_counts, drop_set@.items[k2]), #[trigger] counts@[k2]) by {
                        if k2 < k {
                            assert(counts@[k2] == before[k2]);
                        } else {
                            assert(counts@[k2] == count);
                        }
                    }
                }
            },
        }
        k = k + 1;
    }
    Ok(counts)
}

/// The highest catalog rarity among the items, or `Common` when there are none;
/// the first item that the catalog lacks is an error.
fn items_rarity(catalog: &Catalog, items: &Vec<TappableItem>) -> (result: Result<Rarity, TappablesError>)
    ensures
        match result {
            Ok(rarity) => rarity == spec_max_rarity(item_rarities(catalog@, item_ids(items@))),
            Err(TappablesError::MissingItem(id)) => exists|k: int|
                0 <= k < items@.len() && id@ == #[trigger] items@[k].id@ && spec_catalog_rarity(catalog@, id@) is None
                && forall|k2: int| 0 <= k2 < k ==> spec_catalog_rarity(catalog@, #[trigger] items@[k2].id@) is Some,
            Err(_) => false,
        },
        result is Ok <==> (forall|k: int| 0 <= k < items@.len() ==> spec_catalog_rarity(catalog@, #[trigger] items@[k].id@) is Some),
{
    let ghost rarities = item_rarities(catalog@, item_ids(items@));
    let mut best: Option<Rarity> = None;
    let mut k: usize = 0;
    while k < items.len()
        invariant
            k <= items@.len(),
            rarities == item_rarities(catalog@, item_ids(items@)),
            forall|k2: int| 0 <= k2 < k ==> spec_catalog_rarity(catalog@, #[trigger] items@[k2].id@) is Some,
            k == 0 ==> best is None,
            k > 0 ==> best == Some(spec_max_rarity(rarities.take(k as int))),
        decreases items@.len() - k,
    {
        let item = &items[k];
        match catalog.item_rarity(item.id.as_str()) {
            None => {
                return Err(TappablesError::MissingItem(item.id.clone()));
            },
            Some(rarity) => {
                proof {
                    assert(rarities[k as int] == rarity);
                    assert(rarities.take(k as int + 1).drop_last() =~= rarities.take(k as int));
                    assert(rarities.take(k as int + 1).last() == rarity);
                }
                best = match best {
                    None => Some(rarity),
                    Some(previous) => if rarity_rank(rarity) >= rarity_rank(previous) {
                        Some(rarity)
                    } else {
                        Some(previous)
                    },
                };
            },
        }
        k = k + 1;
    }
    proof {
        assert(rarities.take(k as int) =~= rarities);
    }
    match best {
        Some(rarity) => Ok(rarity),
        None => Ok(Rarity::Common),
    }
}

/// The drop set of `config` that `roll` selects.
pub open spec fn selected_drop_set(config: TappableConfigView, roll: int) -> DropSetView {
    config.drop_sets[spec_drop_set_index(config.drop_sets, roll)]
}

/// The tappable that one set of draws yields from configuration `config` on
/// tile `(tile_x, tile_y)` in the spawn cycle at `now`: spawned `delay` after
/// `now` for `duration`, at the drawn offsets, with identifier `id`, holding
/// each item of the drop set that `roll` selects with the count drawn for it,
/// and as rare as its rarest item.
pub open spec fn spec_tappable_for_draws(
    config: TappableConfigView,
    catalog: Seq<(Seq<char>, Rarity)>,
    tile_x: i32,
    tile_y: i32,
    now: u64,
    delay: u64,
    duration: u64,
    lat_offset: u32,
    lon_offset: u32,
    roll: int,
    counts: Seq<u32>,
    id: Seq<char>,
) -> TappableView {
    let ids = selected_drop_set(config, roll).items;
    TappableView {
        id,
        tile_x,
        tile_y,
        lat_offset,
        lon_offset,
        spawn_time: (now + delay) as u64,
        valid_for: duration,
        icon: config.icon,
        rarity: spec_max_rarity(item_rarities(catalog, ids)),
        items: Seq::new(ids.len(), |k: int| (ids[k], counts[k])),
    }
}

/// The draws of one tappable lie in their ranges: a configuration, a delay and
/// a duration inside their bounds, a drop-set roll below the total chance (below
/// one when all chances are zero), a count inside each item's range, and a
/// hyphenated identifier.
pub open spec fn tappable_draws_in_range(
    configs: Seq<TappableConfigView>,
    index: int,
    delay: u64,
    duration: u64,
    roll: int,
    counts: Seq<u32>,
    id: Seq<char>,
) -> bool {
    &&& 0 <= index < configs.len()
    &&& MIN_TAPPABLE_DELAY_MS <= delay <= MAX_TAPPABLE_DELAY_MS
    &&& MIN_TAPPABLE_DURATION_MS <= duration <= MAX_TAPPABLE_DURATION_MS
    &&& 0 <= roll < max_one(chance_total(configs[index].drop_sets))
    &&& counts_drawn(counts, configs[index], selected_drop_set(configs[index], roll))
    &&& is_hyphenated_uuid_text(id)
}

/// `error` is the error that building a tappable from the drop set of
/// `config` that `roll` selects runs into: the first of its items without a
/// count range, or, when every item has one, the first item the catalog lacks.
pub open spec fn drop_set_error(
    error: TappablesError,
    config: TappableConfigView,
    catalog: Seq<(Seq<char>, Rarity)>,
    roll: int,
) -> bool {
    let ids = selected_drop_set(config, roll).items;
    match error {
        TappablesError::MissingItemCount { icon, item_id } => {
            &&& icon@ == config.icon
            &&& exists|k: int|
                0 <= k < ids.len() && item_id@ == #[trigger] ids[k] && spec_item_count(config.item_counts, ids[k]) is None
                    && forall|k2: int| 0 <= k2 < k ==> spec_item_count(config.item_counts, #[trigger] ids[k2]) is Some
        },
        TappablesError::MissingItem(name) => {
            &&& forall|k: int| 0 <= k < ids.len() ==> spec_item_count(config.item_counts, #[trigger] ids[k]) is Some
            &&& exists|k: int|
                0 <= k < ids.len() && name@ == #[trigger] ids[k] && spec_catalog_rarity(catalog, ids[k]) is None
                    && forall|k2: int| 0 <= k2 < k ==> spec_catalog_rarity(catalog, #[trigger] ids[k2]) is Some
        },
        _ => false,
    }
}

/// `error` is what generation runs into for some configuration and some roll
/// below its total chance (below one when all chances are zero).
pub open spec fn drawn_error(error: TappablesError, configs: Seq<TappableConfigView>, catalog: Seq<(Seq<char>, Rarity)>) -> bool {
    exists|index: int, roll: int|
        #![trigger drop_set_error(error, configs[index], catalog, roll)]
        0 <= index < configs.len() && 0 <= roll < max_one(chance_total(configs[index].drop_sets))
            && drop_set_error(error, configs[index], catalog, roll)
}

/// `t` is what `tappable_for_draws` builds from some draws in range.
pub open spec fn drawn_tappable(
    t: TappableView,
    configs: Seq<TappableConfigView>,
    catalog: Seq<(Seq<char>, Rarity)>,
    tile_x: i32,
    tile_y: i32,
    now: u64,
) -> bool {
    exists|index: int, delay: u64, duration: u64, lat_offset: u32, lon_offset: u32, roll: int, counts: Seq<u32>, id: Seq<char>|
        #![trigger spec_tappable_for_draws(configs[index], catalog, tile_x, tile_y, now, delay, duration, lat_offset, lon_offset, roll, counts, id)]
        tappable_draws_in_range(configs, index, delay, duration, roll, counts, id) && t == spec_tappable_for_draws(
            configs[index],
            catalog,
            tile_x,
            tile_y,
            now,
            delay,
            duration,
            lat_offset,
            lon_offset,
            roll,
            counts,
            id,
        )
}

/// Builds the tappable that the given draws yield from configuration
/// `config_index`. The first item of the selected drop set without a count
/// range, else the first one that the catalog lacks, is an error.
pub fn tappable_for_draws(
    catalog: &Catalog,
    tappables_config: &TappablesConfig,
    tile_x: i32,
    tile_y: i32,
    current_time: u64,
    spawn_delay: u64,
    duration: u64,
    config_index: usize,
    lat_offset: u32,
    lon_offset: u32,
    roll: u32,
    counts: &Vec<u32>,
    id: String,
) -> (result: Result<Tappable, TappablesError>)
    requires
        config_index < tappables_config@.len(),
        tappables_config@[config_index as int].drop_sets.len() > 0,
        counts@.len() == selected_drop_set(tappables_config@[config_index as int], roll as int).items.len(),
        current_time + spawn_delay <= u64::MAX,
    ensures
        match result {
            Ok(t) => t@ == spec_tappable_for_draws(
                tappables_config@[config_index as int],
                catalog@,
                tile_x,
                tile_y,
                current_time,
                spawn_delay,
                duration,
                lat_offset,
                lon_offset,
                roll as int,
                counts@,
                id@,
            ),
            Err(TappablesError::MissingItemCount { icon, item_id }) => {
                let config = tappables_config@[config_index as int];
                let ids = selected_drop_set(config, roll as int).items;
                &&& icon@ == config.icon
                &&& exists|k: int|
                    0 <= k < ids.len() && item_id@ == #[trigger] ids[k] && spec_item_count(config.item_counts, ids[k]) is None
                        && forall|k2: int| 0 <= k2 < k ==> spec_item_count(config.item_counts, #[trigger] ids[k2]) is Some
            },
            Err(TappablesError::MissingItem(name)) => {
                let config = tappables_config@[config_index as int];
                let ids = selected_drop_set(config, roll as int).items;
                &&& forall|k: int| 0 <= k < ids.len() ==> spec_item_count(config.item_counts, #[trigger] ids[k]) is Some
                &&& exists|k: int|
                    0 <= k < ids.len() && name@ == #[trigger] ids[k] && spec_catalog_rarity(catalog@, ids[k]) is None
                        && forall|k2: int| 0 <= k2 < k ==> spec_catalog_rarity(catalog@, #[trigger] ids[k2]) is Some
            },
            Err(_) => false,
        },
        result matches Err(e) ==> drop_set_error(e, tappables_config@[config_index as int], catalog@, roll as int),
        result is Ok <==> forall|k: int|
            0 <= k < selected_drop_set(tappables_config@[config_index as int], roll as int).items.len() ==> {
                let item = #[trigger] selected_drop_set(tappables_config@[config_index as int], roll as int).items[k];
                &&& spec_item_count(tappables_config@[config_index as int].item_counts, item) is Some
                &&& spec_catalog_rarity(catalog@, item) is Some
            },
{
    let ghost configv = tappables_config@[config_index as int];
    let config = &tappables_config.tappables[config_index];
    assert(config@ == configv);
    assert(config@.drop_sets =~= drop_sets_view(config.drop_sets@));
    let drop_set_index = drop_set_for_roll(&config.drop_sets, roll);
    let drop_set = &config.drop_sets[drop_set_index];
    let ghost ids = selected_drop_set(configv, roll as int).items;
    assert(drop_set@.items == ids);
    let mut items: Vec<TappableItem> = Vec::new();
    let mut k: usize = 0;
    while k < drop_set.items.len()
        invariant
            k <= drop_set.items@.len(),
            drop_set@.items == ids,
            ids == selected_drop_set(configv, roll as int).items,
            config@ == configv,
            configv == tappables_config@[config_index as int],
            counts@.len() == ids.len(),
            items@.len() == k,
            forall|k2: int| 0 <= k2 < k ==> spec_item_count(configv.item_counts, #[trigger] ids[k2]) is Some,
            forall|k2: int|
                0 <= k2 < k ==> (#[trigger] items@[k2]).id@ == ids[k2] && items@[k2].count == counts@[k2],
        decreases drop_set.items@.len() - k,
    {
        let item_id = &drop_set.items[k];
        assert(item_id@ == ids[k as int]);
        match config.item_count(item_id) {
            None => {
                proof {
                    assert(spec_item_count(configv.item_counts, ids[k as int]) is None);
                    assert(config.icon@ == configv.icon);
                }
                return Err(TappablesError::MissingItemCount { icon: config.icon.clone(), item_id: item_id.clone() });
            },
            Some(_) => {
                items.push(TappableItem { id: item_id.clone(), count: counts[k] });
            },
        }
        k = k + 1;
    }
    proof {
        assert(item_ids(items@) =~= ids);
        assert forall|k2: int| 0 <= k2 < items@.len() implies #[trigger] items@[k2].id@ == ids[k2] by {}
    }
    let rarity = match items_rarity(catalog, &items) {
        Ok(rarity) => rarity,
        Err(error) => {
            proof {
                if let TappablesError::MissingItem(name) = &error {
                    let k = choose|k: int|
                        0 <= k < items@.len() && name@ == #[trigger] items@[k].id@ && spec_catalog_rarity(catalog@, name@) is None
                        && forall|k2: int| 0 <= k2 < k ==> spec_catalog_rarity(catalog@, #[trigger] items@[k2].id@) is Some;
                    assert(ids[k] == name@);
                    assert forall|k2: int| 0 <= k2 < k implies spec_catalog_rarity(catalog@, #[trigger] ids[k2]) is Some by {
                        assert(items@[k2].id@ == ids[k2]);
                    }
                }
            }
            return Err(error);
        },
    };
    let tappable = Tappable {
        id,
        tile_x,
        tile_y,
        lat_offset,
        lon_offset,
        spawn_time: current_time + spawn_delay,
        valid_for: duration,
        icon: config.icon.clone(),
        rarity,
        items,
    };
    proof {
        let expected = spec_tappable_for_draws(configv, catalog@, tile_x, tile_y, current_time, spawn_delay, duration,
            lat_offset, lon_offset, roll as int, counts@, tappable.id@);
        assert(tappable@.items =~= expected.items);
        assert forall|k2: int| 0 <= k2 < ids.len() implies spec_catalog_rarity(catalog@, #[trigger] ids[k2]) is Some by {
            assert(items@[k2].id@ == ids[k2]);
        }
    }
    Ok(tappable)
}

/// Draws one tappable on tile `(tile_x, tile_y)` for the spawn cycle at `current_time`.
fn spawn_tappable(
    rng: &mut StdRng,
    catalog: &Catalog,
    tappables_config: &TappablesConfig,
    tile_x: i32,
    tile_y: i32,
    current_time: u64,
) -> (result: Result<Tappable, TappablesError>)
    requires
        configs_ready(tappables_config@),
        tappables_config@.len() > 0,
        current_time <= u64::MAX - MAX_TAPPABLE_DELAY_MS,
    ensures
        result matches Ok(t) ==> spawned_tappable(t, tappables_config@, catalog@, tile_x, tile_y, current_time),
        result matches Ok(t) ==> drawn_tappable(t@, tappables_config@, catalog@, tile_x, tile_y, current_time),
        result matches Err(e) ==> generation_error_explained(e, tappables_config@, catalog@),
        result matches Err(e) ==> drawn_error(e, tappables_config@, catalog@),
        crate::tappables::all_configs_counted(tappables_config@)
            && all_items_cataloged(tappables_config@, catalog@) ==> result is Ok,
{
    let ghost configs = tappables_config@;
    let ghost catalog_view = catalog@;
    let spawn_delay = gen_range_u64_inclusive(rng, MIN_TAPPABLE_DELAY_MS, MAX_TAPPABLE_DELAY_MS);
    let duration = gen_range_u64_inclusive(rng, MIN_TAPPABLE_DURATION_MS, MAX_TAPPABLE_DURATION_MS);
    let config_index = gen_range_usize_below(rng, 0, tappables_config.tappables.len());
    let config = &tappables_config.tappables[config_index];
    assert(configs[config_index as int] == config@);
    assert(config_ready(config@));
    assert(config@.drop_sets =~= drop_sets_view(config.drop_sets@));
    let lat_offset = gen_range_u32_inclusive(rng, 0, u32::MAX);
    let lon_offset = gen_range_u32_inclusive(rng, 0, u32::MAX);
    let total = total_chance(&config.drop_sets);
    let bound = if total > 1 { total } else { 1 };
    let roll = gen_range_u32_below(rng, 0, bound);
    let drop_set_index = drop_set_for_roll(&config.drop_sets, roll);
    let drop_set = &config.drop_sets[drop_set_index];
    proof {
        assert(config@.drop_sets[drop_set_index as int] == drop_set@);
        assert(selected_drop_set(config@, roll as int) == drop_set@);
        assert forall|k: int| 0 <= k < drop_set@.items.len() implies (spec_item_count(
            config@.item_counts,
            #[trigger] drop_set@.items[k],
        ) matches Some(n) ==> n.min <= n.max) by {
            assert(config@.drop_sets[drop_set_index as int].items[k] == drop_set@.items[k]);
        }
    }
    let counts = match draw_counts(rng, config, drop_set) {
        Ok(counts) => counts,
        Err(error) => {
            proof {
                if let TappablesError::MissingItemCount { icon, item_id } = &error {
                    let k = choose|k: int|
                        0 <= k < drop_set@.items.len() && item_id@ == #[trigger] drop_set@.items[k]
                        && icon@ == config@.icon && spec_item_count(config@.item_counts, item_id@) is None;
                    assert(configs[config_index as int].drop_sets[drop_set_index as int].items[k] == item_id@);
                    assert(selected_drop_set(configs[config_index as int], roll as int).items == drop_set@.items);
                    assert(drop_set_error(error, configs[config_index as int], catalog_view, roll as int));
                    assert(drawn_error(error, configs, catalog_view));
                }
                if crate::tappables::all_configs_counted(configs) {
                    assert forall|k: int| 0 <= k < drop_set@.items.len() implies spec_item_count(
                        config@.item_counts, #[trigger] drop_set@.items[k]) is Some by {
                        assert(configs[config_index as int].drop_sets[drop_set_index as int].items[k] == drop_set@.items[k]);
                    }
                }
            }
            return Err(error);
        },
    };
    let id = new_uuid_text();
    let ghost id_view = id@;
    let result = tappable_for_draws(catalog, tappables_config, tile_x, tile_y, current_time, spawn_delay, duration,
        config_index, lat_offset, lon_offset, roll, &counts, id);
    let ghost ids = drop_set@.items;
    match result {
        Ok(tappable) => {
            proof {
                let expected = spec_tappable_for_draws(configs[config_index as int], catalog_view, tile_x, tile_y,
                    current_time, spawn_delay, duration, lat_offset, lon_offset, roll as int, counts@, id_view);
                assert(tappable@ == expected);
                assert(tappable_draws_in_range(configs, config_index as int, spawn_delay, duration, roll as int, counts@, id_view));
                assert(drawn_tappable(tappable@, configs, catalog_view, tile_x, tile_y, current_time));
                assert(selected_drop_set(configs[config_index as int], roll as int) == drop_set@);
                assert(expected.items.len() == ids.len());
                assert(tappable@.items.len() == tappable.items@.len());
                assert(tappable.items@.len() == ids.len());
                assert forall|k: int| 0 <= k < tappable.items@.len() implies {
                    &&& (#[trigger] tappable.items@[k]).id@ == drop_set@.items[k]
                    &&& spec_item_count(config@.item_counts, drop_set@.items[k]) matches Some(n)
                    &&& n.min <= tappable.items@[k].count <= n.max
                } by {
                    assert(tappable@.items[k] == expected.items[k]);
                    assert(counts@[k] == expected.items[k].1);
                }
                assert(items_drawn(tappable.items@, config@, drop_set@));
                assert(tappable_from(tappable, configs[config_index as int],
                    configs[config_index as int].drop_sets[spec_drop_set_index(configs[config_index as int].drop_sets, roll as int)],
                    catalog_view, tile_x, tile_y, current_time));
                assert(spawned_tappable(tappable, configs, catalog_view, tile_x, tile_y, current_time));
            }
            Ok(tappable)
        },
        Err(error) => {
            proof {
                match &error {
                    TappablesError::MissingItemCount { icon, item_id } => {
                        let k = choose|k: int|
                            0 <= k < ids.len() && item_id@ == #[trigger] ids[k] && spec_item_count(config@.item_counts, ids[k]) is None
                                && forall|k2: int| 0 <= k2 < k ==> spec_item_count(config@.item_counts, #[trigger] ids[k2]) is Some;
                        assert(configs[config_index as int].drop_sets[drop_set_index as int].items[k] == item_id@);
                    },
                    TappablesError::MissingItem(name) => {
                        let k = choose|k: int|
                            0 <= k < ids.len() && name@ == #[trigger] ids[k] && spec_catalog_rarity(catalog_view, ids[k]) is None
                                && forall|k2: int| 0 <= k2 < k ==> spec_catalog_rarity(catalog_view, #[trigger] ids[k2]) is Some;
                        assert(configs[config_index as int].drop_sets[drop_set_index as int].items[k] == name@);
                    },
                    _ => {},
                }
                if crate::tappables::all_configs_counted(configs) && all_items_cataloged(configs, catalog_view) {
                    assert forall|k: int| 0 <= k < ids.len() implies {
                        &&& spec_item_count(config@.item_counts, #[trigger] ids[k]) is Some
                        &&& spec_catalog_rarity(catalog_view, ids[k]) is Some
                    } by {
                        assert(configs[config_index as int].drop_sets[drop_set_index as int].items[k] == ids[k]);
                    }
                }
            }
            Err(error)
        },
    }
}

pub struct TappableGenerator {
    catalog: Catalog,
    tappables_config: TappablesConfig,
    rng: StdRng,
}

impl TappableGenerator {
    pub closed spec fn catalog(&self) -> Seq<(Seq<char>, Rarity)> {
        self.catalog@
    }

    pub closed spec fn configs(&self) -> Seq<TappableConfigView> {
        self.tappables_config@
    }

    /// A generator over a copy of the static data's catalog and tappable
    /// configurations, with a generator seeded from `seed`.
    pub fn new(static_data: &StaticData, seed: u64) -> (generator: Self)
        ensures
            generator.catalog() == static_data.catalog@,
            generator.configs() == static_data.tappables_config@,
    {
        TappableGenerator {
            catalog: static_data.catalog.duplicate(),
            tappables_config: static_data.tappables_config.duplicate(),
            rng: seeded_rng(seed),
        }
    }

    /// The longest time a tappable can stay relevant after its spawn cycle.
    pub fn max_tappable_lifetime(&self) -> (lifetime: u64)
        ensures
            lifetime == MAX_TAPPABLE_DELAY_MS + MAX_TAPPABLE_DURATION_MS + GRACE_PERIOD_MS,
    {
        MAX_TAPPABLE_DELAY_MS + MAX_TAPPABLE_DURATION_MS + GRACE_PERIOD_MS
    }

    /// Spawns one to three tappables on tile `(tile_x, tile_y)` for the spawn
    /// cycle at `current_time`; none when there is no configuration. Each one
    /// is what `tappable_for_draws` builds from some draws in range.
    pub fn generate_tappables(&mut self, tile_x: i32, tile_y: i32, current_time: u64) -> (result: Result<Vec<Tappable>, TappablesError>)
        requires
            configs_ready(old(self).configs()),
            current_time <= u64::MAX - MAX_TAPPABLE_DELAY_MS,
        ensures
            final(self).configs() == old(self).configs(),
            final(self).catalog() == old(self).catalog(),
            old(self).configs().len() == 0 ==> (result matches Ok(v) && v@.len() == 0),
            result matches Ok(v) ==> old(self).configs().len() > 0 ==> MIN_TAPPABLE_COUNT <= v@.len() <= MAX_TAPPABLE_COUNT,
            result matches Ok(v) ==> forall|n: int| 0 <= n < v@.len() ==> spawned_tappable(
                #[trigger] v@[n],
                old(self).configs(),
                old(self).catalog(),
                tile_x,
                tile_y,
                current_time,
            ),
            result matches Ok(v) ==> forall|n: int| 0 <= n < v@.len() ==> drawn_tappable(
                (#[trigger] v@[n])@,
                old(self).configs(),
                old(self).catalog(),
                tile_x,
                tile_y,
                current_time,
            ),
            result matches Err(e) ==> generation_error_explained(e, old(self).configs(), old(self).catalog()),
            result matches Err(e) ==> drawn_error(e, old(self).configs(), old(self).catalog()),
            crate::tappables::all_configs_counted(old(self).configs())
                && all_items_cataloged(old(self).configs(), old(self).catalog()) ==> result is Ok,
    {
        let mut tappables: Vec<Tappable> = Vec::new();
        if self.tappables_config.tappables.len() == 0 {
            return Ok(tappables);
        }
        let ghost configs = self.configs();
        let ghost catalog = self.catalog();
        let count = gen_range_u32_inclusive(&mut self.rng, MIN_TAPPABLE_COUNT, MAX_TAPPABLE_COUNT);
        let mut n: u32 = 0;
        while n < count
            invariant
                n <= count <= MAX_TAPPABLE_COUNT,
                MIN_TAPPABLE_COUNT <= count,
                configs == self.configs(),
                catalog == self.catalog(),
                configs == old(self).configs(),
                catalog == old(self).catalog(),
                configs.len() > 0,
                configs_ready(configs),
                current_time <= u64::MAX - MAX_TAPPABLE_DELAY_MS,
                tappables@.len() == n,
                forall|m: int| 0 <= m < n ==> spawned_tappable(#[trigger] tappables@[m], configs, catalog, tile_x, tile_y, current_time),
                forall|m: int| 0 <= m < n ==> drawn_tappable((#[trigger] tappables@[m])@, configs, catalog, tile_x, tile_y, current_time),
            decreases count - n,
        {
            let tappable = spawn_tappable(&mut self.rng, &self.catalog, &self.tappables_config, tile_x, tile_y, current_time)?;
            tappables.push(tappable);
            n = n + 1;
        }
        Ok(tappables)
    }
}

/// The longest encounter duration, in milliseconds; zero when there is none.
pub open spec fn spec_max_duration_ms(configs: Seq<crate::tappables::EncounterConfigView>) -> int
    decreases configs.len(),
{
    if configs.len() == 0 {
        0
    } else {
        let rest = spec_max_duration_ms(configs.drop_last());
        let last = configs.last().duration * 1000;
        if last > rest {
            last
        } else {
            rest
        }
    }
}

/// Every encounter duration, in milliseconds, fits in `u64`.
pub open spec fn durations_fit(configs: Seq<crate::tappables::EncounterConfigView>) -> bool {
    forall|i: int| 0 <= i < configs.len() ==> (#[trigger] configs[i]).duration * 1000 <= u64::MAX
}

/// An encounter that generation on tile `(tile_x, tile_y)` at `now` can yield
/// from one of the configurations.
pub open spec fn spawned_encounter(
    e: Encounter,
    configs: Seq<crate::tappables::EncounterConfigView>,
    tile_x: i32,
    tile_y: i32,
    now: u64,
) -> bool {
    exists|i: int|
        0 <= i < configs.len() && {
            let config = #[trigger] configs[i];
            &&& is_hyphenated_uuid_text(e.id@)
            &&& e.tile_x == tile_x
            &&& e.tile_y == tile_y
            &&& now + MIN_ENCOUNTER_DELAY_MS <= e.spawn_time <= now + MAX_ENCOUNTER_DELAY_MS
            &&& e.valid_for == config.duration * 1000
            &&& e.icon@ == config.icon
            &&& e.rarity == config.rarity
            &&& e.encounter_buildplate_id@ == config.encounter_buildplate_id
        }
}

/// The encounters that generation on tile `(tile_x, tile_y)` at `now` yields
/// for one set of draws: none when there is no configuration or the chance
/// roll is not zero; otherwise one encounter built from configuration `index`,
/// spawned `delay` after `now`, at the drawn offsets and with identifier `id`.
pub open spec fn spec_encounters_for_draws(
    configs: Seq<crate::tappables::EncounterConfigView>,
    tile_x: i32,
    tile_y: i32,
    now: u64,
    roll: u32,
    delay: u64,
    index: int,
    lat_offset: u32,
    lon_offset: u32,
    id: Seq<char>,
) -> Seq<EncounterView> {
    if configs.len() == 0 || roll != 0 {
        Seq::empty()
    } else {
        let config = configs[index];
        seq![EncounterView {
            id,
            tile_x,
            tile_y,
            lat_offset,
            lon_offset,
            spawn_time: (now + delay) as u64,
            valid_for: (config.duration * 1000) as u64,
            icon: config.icon,
            rarity: config.rarity,
            encounter_buildplate_id: config.encounter_buildplate_id,
        }]
    }
}

/// The draws of encounter generation lie in their ranges: the chance roll is
/// one of `ENCOUNTER_CHANCE_PER_TILE` values, and when an encounter is built
/// its delay, configuration and identifier are drawn as generation draws them.
pub open spec fn encounter_draws_in_range(
    configs: Seq<crate::tappables::EncounterConfigView>,
    roll: u32,
    delay: u64,
    index: int,
    id: Seq<char>,
) -> bool {
    &&& roll < ENCOUNTER_CHANCE_PER_TILE
    &&& configs.len() > 0 && roll == 0 ==> {
        &&& MIN_ENCOUNTER_DELAY_MS <= delay <= MAX_ENCOUNTER_DELAY_MS
        &&& 0 <= index < configs.len()
        &&& is_hyphenated_uuid_text(id)
    }
}

/// Builds the encounters that generation yields for the given draws: none when
/// there is no configuration or `roll` is not zero, else one encounter from
/// configuration `config_index`.
pub fn encounters_for_draws(
    encounters_config: &EncountersConfig,
    tile_x: i32,
    tile_y: i32,
    current_time: u64,
    roll: u32,
    spawn_delay: u64,
    config_index: usize,
    lat_offset: u32,
    lon_offset: u32,
    id: String,
) -> (encounters: Vec<Encounter>)
    requires
        durations_fit(encounters_config@),
        current_time + spawn_delay <= u64::MAX,
        encounters_config@.len() > 0 && roll == 0 ==> config_index < encounters_config@.len(),
    ensures
        encounter_views(encounters@) == spec_encounters_for_draws(
            encounters_config@,
            tile_x,
            tile_y,
            current_time,
            roll,
            spawn_delay,
            config_index as int,
            lat_offset,
            lon_offset,
            id@,
        ),
{
    let mut encounters: Vec<Encounter> = Vec::new();
    if encounters_config.encounters.len() == 0 || roll != 0 {
        proof {
            assert(encounter_views(encounters@) =~= Seq::<EncounterView>::empty());
        }
        return encounters;
    }
    let config = &encounters_config.encounters[config_index];
    assert(encounters_config@[config_index as int] == config@);
    assert(config@.duration * 1000 <= u64::MAX);
    let encounter = Encounter {
        id,
        tile_x,
        tile_y,
        lat_offset,
        lon_offset,
        spawn_time: current_time + spawn_delay,
        valid_for: config.duration * 1000,
        icon: config.icon.clone(),
        rarity: config.rarity,
        encounter_buildplate_id: config.encounter_buildplate_id.clone(),
    };
    encounters.push(encounter);
    proof {
        let expected = spec_encounters_for_draws(encounters_config@, tile_x, tile_y, current_time, roll, spawn_delay,
            config_index as int, lat_offset, lon_offset, id@);
        assert(encounter_views(encounters@)[0] == expected[0]);
        assert(encounter_views(encounters@) =~= expected);
    }
    encounters
}

pub struct EncounterGenerator {
    encounters_config: EncountersConfig,
    max_duration_ms: u64,
    rng: StdRng,
}

impl EncounterGenerator {
    pub closed spec fn configs(&self) -> Seq<crate::tappables::EncounterConfigView> {
        self.encounters_config@
    }

    pub closed spec fn max_duration_ms(&self) -> u64 {
        self.max_duration_ms
    }

    /// A generator over a copy of the static data's encounter configurations,
    /// with a generator seeded from `seed`.
    pub fn new(static_data: &StaticData, seed: u64) -> (generator: Self)
        requires
            durations_fit(static_data.encounters_config@),
        ensures
            generator.configs() == static_data.encounters_config@,
            generator.max_duration_ms() == spec_max_duration_ms(static_data.encounters_config@),
    {
        let max_duration_ms = max_duration_ms(&static_data.encounters_config.encounters);
        EncounterGenerator {
            encounters_config: static_data.encounters_config.duplicate(),
            max_duration_ms,
            rng: seeded_rng(seed),
        }
    }

    /// The longest encounter duration of the configurations, in milliseconds.
    pub fn longest_duration_ms(&self) -> (longest: u64)
        ensures
            longest == self.max_duration_ms(),
    {
        self.max_duration_ms
    }

    /// The longest time an encounter can stay relevant after its spawn cycle.
    pub fn max_encounter_lifetime(&self) -> (lifetime: u64)
        requires
            self.max_duration_ms() <= u64::MAX - MAX_ENCOUNTER_DELAY_MS - GRACE_PERIOD_MS,
        ensures
            lifetime == MAX_ENCOUNTER_DELAY_MS + self.max_duration_ms() + GRACE_PERIOD_MS,
    {
        MAX_ENCOUNTER_DELAY_MS + self.max_duration_ms + GRACE_PERIOD_MS
    }

    /// With one chance in four, spawns one encounter on tile `(tile_x, tile_y)`
    /// for the spawn cycle at `current_time`; none when there is no configuration.
    /// The result is what `encounters_for_draws` builds from some draws in range.
    pub fn generate_encounters(&mut self, tile_x: i32, tile_y: i32, current_time: u64) -> (encounters: Vec<Encounter>)
        requires
            durations_fit(old(self).configs()),
            current_time <= u64::MAX - MAX_ENCOUNTER_DELAY_MS,
        ensures
            final(self).configs() == old(self).configs(),
            final(self).max_duration_ms() == old(self).max_duration_ms(),
            encounters@.len() <= 1,
            old(self).configs().len() == 0 ==> encounters@.len() == 0,
            forall|n: int| 0 <= n < encounters@.len() ==> spawned_encounter(
                #[trigger] encounters@[n],
                old(self).configs(),
                tile_x,
                tile_y,
                current_time,
            ),
            exists|roll: u32, delay: u64, index: int, lat_offset: u32, lon_offset: u32, id: Seq<char>|
                #![trigger spec_encounters_for_draws(old(self).configs(), tile_x, tile_y, current_time, roll, delay, index, lat_offset, lon_offset, id)]
                encounter_draws_in_range(old(self).configs(), roll, delay, index, id)
                && encounter_views(encounters@) == spec_encounters_for_draws(
                old(self).configs(),
                tile_x,
                tile_y,
                current_time,
                roll,
                delay,
                index,
                lat_offset,
                lon_offset,
                id,
            ),
    {
        let ghost configs = self.configs();
        if self.encounters_config.encounters.len() == 0 {
            let encounters: Vec<Encounter> = Vec::new();
            proof {
                assert(encounter_views(encounters@) =~= spec_encounters_for_draws(configs, tile_x, tile_y, current_time,
                    0, 0, 0, 0, 0, Seq::empty()));
            }
            return encounters;
        }
        let roll = gen_range_u32_below(&mut self.rng, 0, ENCOUNTER_CHANCE_PER_TILE);
        if roll != 0 {
            let encounters: Vec<Encounter> = Vec::new();
            proof {
                assert(encounter_views(encounters@) =~= spec_encounters_for_draws(configs, tile_x, tile_y, current_time,
                    roll, 0, 0, 0, 0, Seq::empty()));
            }
            return encounters;
        }
        let spawn_delay = gen_range_u64_inclusive(&mut self.rng, MIN_ENCOUNTER_DELAY_MS, MAX_ENCOUNTER_DELAY_MS);
        let config_index = gen_range_usize_below(&mut self.rng, 0, self.encounters_config.encounters.len());
        let lat_offset = gen_range_u32_inclusive(&mut self.rng, 0, u32::MAX);
        let lon_offset = gen_range_u32_inclusive(&mut self.rng, 0, u32::MAX);
        let id = new_uuid_text();
        let ghost id_view = id@;
        let encounters = encounters_for_draws(&self.encounters_config, tile_x, tile_y, current_time, roll, spawn_delay,
            config_index, lat_offset, lon_offset, id);
        proof {
            let expected = spec_encounters_for_draws(configs, tile_x, tile_y, current_time, roll, spawn_delay,
                config_index as int, lat_offset, lon_offset, id_view);
            assert(encounter_views(encounters@) == expected);
            assert(encounter_draws_in_range(configs, roll, spawn_delay, config_index as int, id_view));
            assert(encounters@.len() == 1);
            assert(encounters@[0]@ == expected[0]);
            assert(spawned_encounter(encounters@[0], configs, tile_x, tile_y, current_time));
        }
        encounters
    }
}


/// Whether a tappable configuration can be drawn from: it has drop sets,
/// their chances sum within 32 bits, and every count range it gives an item
/// of its drop sets runs upward.
pub fn config_is_ready(config: &TappableConfig) -> (ready: bool)
    ensures
        ready == config_ready(config@),
{
    let ghost view = config@;
    let ghost sets = view.drop_sets;
    if config.drop_sets.len() == 0 {
        return false;
    }
    let mut total: u64 = 0;
    let mut i: usize = 0;
    while i < config.drop_sets.len()
        invariant
            i <= config.drop_sets@.len(),
            view == config@,
            sets == view.drop_sets,
            total == chance_prefix(sets, i as int),
            total <= u32::MAX,
        decreases config.drop_sets@.len() - i,
    {
        assert(sets[i as int].chance == config.drop_sets@[i as int].chance);
        total = total + config.drop_sets[i].chance as u64;
        if total > 4294967295 {
            proof {
                lemma_chance_prefix_monotonic(sets, i + 1, sets.len() as int);
            }
            return false;
        }
        i = i + 1;
    }
    let mut j: usize = 0;
    while j < config.drop_sets.len()
        invariant
            j <= config.drop_sets@.len(),
            view == config@,
            forall|j2: int, k: int|
                0 <= j2 < j && 0 <= k < view.drop_sets[j2].items.len() ==> (spec_item_count(
                    view.item_counts,
                    #[trigger] view.drop_sets[j2].items[k],
                ) matches Some(n) ==> n.min <= n.max),
        decreases config.drop_sets@.len() - j,
    {
        let drop_set = &config.drop_sets[j];
        let mut k: usize = 0;
        while k < drop_set.items.len()
            invariant
                j < config.drop_sets@.len(),
                k <= drop_set.items@.len(),
                drop_set == config.drop_sets@[j as int],
                view == config@,
                forall|j2: int, k2: int|
                    0 <= j2 < j && 0 <= k2 < view.drop_sets[j2].items.len() ==> (spec_item_count(
                        view.item_counts,
                        #[trigger] view.drop_sets[j2].items[k2],
                    ) matches Some(n) ==> n.min <= n.max),
                forall|k2: int|
                    0 <= k2 < k ==> (spec_item_count(view.item_counts, #[trigger] view.drop_sets[j as int].items[k2]) matches Some(
                        n,
                    ) ==> n.min <= n.max),
            decreases drop_set.items@.len() - k,
        {
            assert(view.drop_sets[j as int].items[k as int] == drop_set.items@[k as int]@);
            match config.item_count(&drop_set.items[k]) {
                Some(n) => {
                    if n.min > n.max {
                        return false;
                    }
                },
                None => {},
            }
            k = k + 1;
        }
        j = j + 1;
    }
    true
}

/// Whether every tappable configuration can be drawn from.
pub fn configs_are_ready(configs: &Vec<TappableConfig>) -> (ready: bool)
    ensures
        ready == configs_ready(tappable_configs_view(configs@)),
{
    let ghost views = tappable_configs_view(configs@);
    let mut i: usize = 0;
    while i < configs.len()
        invariant
            i <= configs@.len(),
            views == tappable_configs_view(configs@),
            forall|i2: int| 0 <= i2 < i ==> config_ready(#[trigger] views[i2]),
        decreases configs@.len() - i,
    {
        if !config_is_ready(&configs[i]) {
            assert(views[i as int] == configs@[i as int]@);
            return false;
        }
        i = i + 1;
    }
    true
}

/// Whether every encounter duration, in milliseconds, fits in 64 bits.
pub fn durations_are_fit(configs: &Vec<EncounterConfig>) -> (fit: bool)
    ensures
        fit == durations_fit(encounter_configs_view(configs@)),
{
    let ghost views = encounter_configs_view(configs@);
    let mut i: usize = 0;
    while i < configs.len()
        invariant
            i <= configs@.len(),
            views == encounter_configs_view(configs@),
            forall|i2: int| 0 <= i2 < i ==> (#[trigger] views[i2]).duration * 1000 <= u64::MAX,
        decreases configs@.len() - i,
    {
        assert(views[i as int] == configs@[i as int]@);
        if configs[i].duration > 18446744073709551 {
            return false;
        }
        i = i + 1;
    }
    true
}

/// The longest encounter duration, in milliseconds.
pub fn max_duration_ms(configs: &Vec<EncounterConfig>) -> (longest: u64)
    requires
        durations_fit(encounter_configs_view(configs@)),
    ensures
        longest == spec_max_duration_ms(encounter_configs_view(configs@)),
{
    let ghost views = encounter_configs_view(configs@);
    let mut longest: u64 = 0;
    let mut i: usize = 0;
    while i < configs.len()
        invariant
            i <= configs@.len(),
            views == encounter_configs_view(configs@),
            durations_fit(views),
            longest == spec_max_duration_ms(views.take(i as int)),
        decreases configs@.len() - i,
    {
        assert(views[i as int] == configs@[i as int]@);
        assert(views.take(i as int + 1).drop_last() =~= views.take(i as int));
        let duration_ms = configs[i].duration * 1000;
        if duration_ms > longest {
            longest = duration_ms;
        }
        i = i + 1;
    }
    assert(views.take(i as int) =~= views);
    longest
}

/// A tappable built from draws is as rare as the rarest item it holds: its
/// rarity ranks at least as high as the catalog rarity of each of its items
/// and is one of them, and it is `Common` when it holds none.
pub proof fn law_tappable_is_as_rare_as_its_rarest_item(
    config: TappableConfigView,
    catalog: Seq<(Seq<char>, Rarity)>,
    tile_x: i32,
    tile_y: i32,
    now: u64,
    delay: u64,
    duration: u64,
    lat_offset: u32,
    lon_offset: u32,
    roll: int,
    counts: Seq<u32>,
    id: Seq<char>,
)
    requires
        forall|k: int| 0 <= k < selected_drop_set(config, roll).items.len() ==> spec_catalog_rarity(
            catalog,
            #[trigger] selected_drop_set(config, roll).items[k],
        ) is Some,
    ensures
        ({
            let t = spec_tappable_for_draws(config, catalog, tile_x, tile_y, now, delay, duration, lat_offset, lon_offset, roll, counts, id);
            &&& forall|k: int| 0 <= k < t.items.len() ==> spec_catalog_rarity(catalog, (#[trigger] t.items[k]).0) is Some
                && spec_rarity_rank(t.rarity) >= spec_rarity_rank(spec_catalog_rarity(catalog, t.items[k].0)->0)
            &&& t.items.len() > 0 ==> exists|k: int| 0 <= k < t.items.len() && spec_catalog_rarity(catalog, (#[trigger] t.items[k]).0)
                == Some(t.rarity)
            &&& t.items.len() == 0 ==> t.rarity == Rarity::Common
        }),
{
    let t = spec_tappable_for_draws(config, catalog, tile_x, tile_y, now, delay, duration, lat_offset, lon_offset, roll, counts, id);
    let ids = selected_drop_set(config, roll).items;
    let rarities = item_rarities(catalog, ids);
    crate::tappables::law_max_rarity_is_the_highest(rarities);
    assert forall|k: int| 0 <= k < t.items.len() implies spec_catalog_rarity(catalog, (#[trigger] t.items[k]).0) is Some
        && spec_rarity_rank(t.rarity) >= spec_rarity_rank(spec_catalog_rarity(catalog, t.items[k].0)->0) by {
        assert(t.items[k].0 == ids[k]);
        assert(spec_catalog_rarity(catalog, ids[k]) is Some);
        assert(rarities[k] == spec_catalog_rarity(catalog, ids[k])->0);
    }
    if t.items.len() > 0 {
        let k = choose|k: int| 0 <= k < rarities.len() && spec_max_rarity(rarities) == #[trigger] rarities[k];
        assert(t.items[k].0 == ids[k]);
        assert(spec_catalog_rarity(catalog, ids[k]) is Some);
        assert(spec_catalog_rarity(catalog, t.items[k].0) == Some(t.rarity));
    }
}

} // verus!
