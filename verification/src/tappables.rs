//! The tappables domain: item rarities, spawn configuration, the catalog, and
//! the static data that spawning draws from.
use vstd::prelude::*;

verus! {

#[derive(Clone, Copy, Debug, PartialEq, Eq, PartialOrd, Ord, Hash, Structural)]
pub enum Rarity {
    Common,
    Uncommon,
    Rare,
    Epic,
    Legendary,
    Other,
}

/// The position of a rarity in the declared order, lowest first.
pub open spec fn spec_rarity_rank(rarity: Rarity) -> int {
    match rarity {
        Rarity::Common => 0,
        Rarity::Uncommon => 1,
        Rarity::Rare => 2,
        Rarity::Epic => 3,
        Rarity::Legendary => 4,
        Rarity::Other => 5,
    }
}

pub fn rarity_rank(rarity: Rarity) -> (rank: u8)
    ensures
        rank == spec_rarity_rank(rarity),
{
    match rarity {
        Rarity::Common => 0,
        Rarity::Uncommon => 1,
        Rarity::Rare => 2,
        Rarity::Epic => 3,
        Rarity::Legendary => 4,
        Rarity::Other => 5,
    }
}

/// The highest of the rarities in `rarities`, or `Common` when there are none.
pub open spec fn spec_max_rarity(rarities: Seq<Rarity>) -> Rarity
    decreases rarities.len(),
{
    if rarities.len() == 0 {
        Rarity::Common
    } else if rarities.len() == 1 {
        rarities[0]
    } else {
        let rest = spec_max_rarity(rarities.drop_last());
        if spec_rarity_rank(rarities.last()) >= spec_rarity_rank(rest) {
            rarities.last()
        } else {
            rest
        }
    }
}

pub open spec fn strings_view(strings: Seq<String>) -> Seq<Seq<char>> {
    strings.map_values(|s: String| s@)
}

/// Copies a list of strings.
pub fn copy_strings(strings: &Vec<String>) -> (copy: Vec<String>)
    ensures
        strings_view(copy@) == strings_view(strings@),
{
    let mut copy: Vec<String> = Vec::new();
    let mut i: usize = 0;
    while i < strings.len()
        invariant
            i <= strings@.len(),
            copy@.len() == i,
            forall|j: int| 0 <= j < i ==> #[trigger] copy@[j]@ == strings@[j]@,
        decreases strings@.len() - i,
    {
        copy.push(strings[i].clone());
        i = i + 1;
    }
    proof {
        assert(strings_view(copy@) =~= strings_view(strings@));
    }
    copy
}

#[derive(Clone, Debug)]
pub struct DropSet {
    pub items: Vec<String>,
    pub chance: u32,
}

pub struct DropSetView {
    pub items: Seq<Seq<char>>,
    pub chance: u32,
}

impl View for DropSet {
    type V = DropSetView;

    open spec fn view(&self) -> DropSetView {
        DropSetView { items: strings_view(self.items@), chance: self.chance }
    }
}

#[derive(Clone, Copy, Debug)]
pub struct ItemCount {
    pub min: u32,
    pub max: u32,
}

/// How many of one item a tappable of a configuration drops.
#[derive(Clone, Debug)]
pub struct ItemCountEntry {
    pub item_id: String,
    pub count: ItemCount,
}

#[derive(Clone, Debug)]
pub struct TappableConfig {
    pub icon: String,
    pub drop_sets: Vec<DropSet>,
    pub item_counts: Vec<ItemCountEntry>,
}

pub struct TappableConfigView {
    pub icon: Seq<char>,
    pub drop_sets: Seq<DropSetView>,
    pub item_counts: Seq<(Seq<char>, ItemCount)>,
}

impl View for TappableConfig {
    type V = TappableConfigView;

    open spec fn view(&self) -> TappableConfigView {
        TappableConfigView {
            icon: self.icon@,
            drop_sets: self.drop_sets@.map_values(|d: DropSet| d@),
            item_counts: self.item_counts@.map_values(|e: ItemCountEntry| (e.item_id@, e.count)),
        }
    }
}

/// The count range recorded for `id`; a later entry for the same id replaces
/// an earlier one.
pub open spec fn spec_item_count(counts: Seq<(Seq<char>, ItemCount)>, id: Seq<char>) -> Option<ItemCount>
    decreases counts.len(),
{
    if counts.len() == 0 {
        None
    } else if counts.last().0 == id {
        Some(counts.last().1)
    } else {
        spec_item_count(counts.drop_last(), id)
    }
}

pub open spec fn has_item_count(config: TappableConfigView, id: Seq<char>) -> bool {
    spec_item_count(config.item_counts, id) is Some
}

pub open spec fn drop_set_counted(config: TappableConfigView, drop_set: DropSetView) -> bool {
    forall|k: int| 0 <= k < drop_set.items.len() ==> has_item_count(config, #[trigger] drop_set.items[k])
}

pub open spec fn config_counted(config: TappableConfigView) -> bool {
    forall|j: int| 0 <= j < config.drop_sets.len() ==> drop_set_counted(config, #[trigger] config.drop_sets[j])
}

pub open spec fn all_configs_counted(configs: Seq<TappableConfigView>) -> bool {
    forall|i: int| 0 <= i < configs.len() ==> config_counted(#[trigger] configs[i])
}

/// Item `k` of drop set `j` of configuration `i` is the first one, in reading
/// order, that has no count range.
pub open spec fn first_uncounted_at(configs: Seq<TappableConfigView>, i: int, j: int, k: int) -> bool {
    &&& 0 <= i < configs.len()
    &&& 0 <= j < configs[i].drop_sets.len()
    &&& 0 <= k < configs[i].drop_sets[j].items.len()
    &&& !has_item_count(configs[i], configs[i].drop_sets[j].items[k])
    &&& forall|i2: int| 0 <= i2 < i ==> config_counted(#[trigger] configs[i2])
    &&& forall|j2: int| 0 <= j2 < j ==> drop_set_counted(configs[i], #[trigger] configs[i].drop_sets[j2])
    &&& forall|k2: int| 0 <= k2 < k ==> has_item_count(configs[i], #[trigger] configs[i].drop_sets[j].items[k2])
}

impl TappableConfig {
    /// The count range for `item_id`, if this configuration has one.
    pub fn item_count(&self, item_id: &String) -> (count: Option<ItemCount>)
        ensures
            count == spec_item_count(self@.item_counts, item_id@),
    {
        let ghost counts = self@.item_counts;
        let mut i = self.item_counts.len();
        proof {
            assert(counts.take(i as int) =~= counts);
        }
        while i > 0
            invariant
                i <= self.item_counts@.len(),
                counts == self@.item_counts,
                spec_item_count(counts, item_id@) == spec_item_count(counts.take(i as int), item_id@),
            decreases i,
        {
            proof {
                assert(counts.take(i as int).drop_last() =~= counts.take(i - 1));
            }
            let entry = &self.item_counts[i - 1];
            if entry.item_id == *item_id {
                return Some(entry.count);
            }
            i = i - 1;
        }
        None
    }
}

pub enum TappablesError {
    Read(std::path::PathBuf, std::io::Error),
    Parse(std::path::PathBuf, serde_json::Error),
    MissingItem(String),
    MissingItemCount { icon: String, item_id: String },
}

#[derive(Clone, Debug)]
pub struct TappableItem {
    pub id: String,
    pub count: u32,
}

#[derive(Clone, Debug)]
pub struct CatalogItem {
    pub id: String,
    pub rarity: Rarity,
}

impl View for CatalogItem {
    type V = (Seq<char>, Rarity);

    open spec fn view(&self) -> (Seq<char>, Rarity) {
        (self.id@, self.rarity)
    }
}

/// The rarity of `id` in a list of catalog items; a later entry for the same
/// id replaces an earlier one.
pub open spec fn spec_catalog_rarity(items: Seq<(Seq<char>, Rarity)>, id: Seq<char>) -> Option<Rarity>
    decreases items.len(),
{
    if items.len() == 0 {
        None
    } else if items.last().0 == id {
        Some(items.last().1)
    } else {
        spec_catalog_rarity(items.drop_last(), id)
    }
}

pub open spec fn catalog_items_view(items: Seq<CatalogItem>) -> Seq<(Seq<char>, Rarity)> {
    items.map_values(|item: CatalogItem| item@)
}

#[derive(Clone, Debug)]
pub struct Catalog {
    items: Vec<CatalogItem>,
}

impl View for Catalog {
    type V = Seq<(Seq<char>, Rarity)>;

    closed spec fn view(&self) -> Seq<(Seq<char>, Rarity)> {
        catalog_items_view(self.items@)
    }
}

impl Catalog {
    pub fn new(items: Vec<CatalogItem>) -> (catalog: Catalog)
        ensures
            catalog@ == catalog_items_view(items@),
    {
        Catalog { items }
    }

    /// The rarity recorded for `item_id`, if the catalog has it.
    pub fn item_rarity(&self, item_id: &str) -> (rarity: Option<Rarity>)
        ensures
            rarity == spec_catalog_rarity(self@, item_id@),
    {
        let target = item_id.to_owned();
        let mut i = self.items.len();
        proof {
            assert(self@.take(i as int) =~= self@);
        }
        while i > 0
            invariant
                i <= self.items@.len(),
                target@ == item_id@,
                spec_catalog_rarity(self@, item_id@) == spec_catalog_rarity(self@.take(i as int), item_id@),
            decreases i,
        {
            proof {
                assert(self@.take(i as int).drop_last() =~= self@.take(i - 1));
            }
            let item = &self.items[i - 1];
            if item.id == target {
                return Some(item.rarity);
            }
            i = i - 1;
        }
        None
    }

    pub fn duplicate(&self) -> (copy: Catalog)
        ensures
            copy@ == self@,
    {
        let mut items: Vec<CatalogItem> = Vec::new();
        let mut i: usize = 0;
        while i < self.items.len()
            invariant
                i <= self.items@.len(),
                items@.len() == i,
                forall|j: int| 0 <= j < i ==> #[trigger] items@[j]@ == self.items@[j]@,
            decreases self.items@.len() - i,
        {
            items.push(CatalogItem { id: self.items[i].id.clone(), rarity: self.items[i].rarity });
            i = i + 1;
        }
        proof {
            assert(catalog_items_view(items@) =~= catalog_items_view(self.items@));
        }
        Catalog { items }
    }
}

impl DropSet {
    pub fn duplicate(&self) -> (copy: DropSet)
        ensures
            copy@ == self@,
    {
        DropSet { items: copy_strings(&self.items), chance: self.chance }
    }
}

impl TappableConfig {
    pub fn duplicate(&self) -> (copy: TappableConfig)
        ensures
            copy@ == self@,
    {
        let mut drop_sets: Vec<DropSet> = Vec::new();
        let mut i: usize = 0;
        while i < self.drop_sets.len()
            invariant
                i <= self.drop_sets@.len(),
                drop_sets@.len() == i,
                forall|j: int| 0 <= j < i ==> #[trigger] drop_sets@[j]@ == self.drop_sets@[j]@,
            decreases self.drop_sets@.len() - i,
        {
            drop_sets.push(self.drop_sets[i].duplicate());
            i = i + 1;
        }
        let mut item_counts: Vec<ItemCountEntry> = Vec::new();
        let mut i: usize = 0;
        while i < self.item_counts.len()
            invariant
                i <= self.item_counts@.len(),
                item_counts@.len() == i,
                forall|j: int| 0 <= j < i ==> {
                    &&& (#[trigger] item_counts@[j]).item_id@ == self.item_counts@[j].item_id@
                    &&& item_counts@[j].count == self.item_counts@[j].count
                },
            decreases self.item_counts@.len() - i,
        {
            item_counts.push(ItemCountEntry {
                item_id: self.item_counts[i].item_id.clone(),
                count: self.item_counts[i].count,
            });
            i = i + 1;
        }
        let copy = TappableConfig { icon: self.icon.clone(), drop_sets, item_counts };
        proof {
            assert(copy@.drop_sets =~= self@.drop_sets);
            assert(copy@.item_counts =~= self@.item_counts);
        }
        copy
    }
}

#[derive(Clone, Debug)]
pub struct TappablesConfig {
    pub tappables: Vec<TappableConfig>,
}

pub open spec fn tappable_configs_view(configs: Seq<TappableConfig>) -> Seq<TappableConfigView> {
    configs.map_values(|c: TappableConfig| c@)
}

impl View for TappablesConfig {
    type V = Seq<TappableConfigView>;

    open spec fn view(&self) -> Seq<TappableConfigView> {
        tappable_configs_view(self.tappables@)
    }
}

impl TappablesConfig {
    pub fn duplicate(&self) -> (copy: TappablesConfig)
        ensures
            copy@ == self@,
    {
        let mut tappables: Vec<TappableConfig> = Vec::new();
        let mut i: usize = 0;
        while i < self.tappables.len()
            invariant
                i <= self.tappables@.len(),
                tappables@.len() == i,
                forall|j: int| 0 <= j < i ==> #[trigger] tappables@[j]@ == self.tappables@[j]@,
            decreases self.tappables@.len() - i,
        {
            tappables.push(self.tappables[i].duplicate());
            i = i + 1;
        }
        let copy = TappablesConfig { tappables };
        proof {
            assert(copy@ =~= self@);
        }
        copy
    }
}

#[derive(Clone, Debug)]
pub struct EncounterConfig {
    pub icon: String,
    pub rarity: Rarity,
    pub encounter_buildplate_id: String,
    pub duration: u64,
}

pub struct EncounterConfigView {
    pub icon: Seq<char>,
    pub rarity: Rarity,
    pub encounter_buildplate_id: Seq<char>,
    pub duration: u64,
}

impl View for EncounterConfig {
    type V = EncounterConfigView;

    open spec fn view(&self) -> EncounterConfigView {
        EncounterConfigView {
            icon: self.icon@,
            rarity: self.rarity,
            encounter_buildplate_id: self.encounter_buildplate_id@,
            duration: self.duration,
        }
    }
}

#[derive(Clone, Debug)]
pub struct EncountersConfig {
    pub encounters: Vec<EncounterConfig>,
}

pub open spec fn encounter_configs_view(configs: Seq<EncounterConfig>) -> Seq<EncounterConfigView> {
    configs.map_values(|c: EncounterConfig| c@)
}

impl View for EncountersConfig {
    type V = Seq<EncounterConfigView>;

    open spec fn view(&self) -> Seq<EncounterConfigView> {
        encounter_configs_view(self.encounters@)
    }
}

impl EncountersConfig {
    pub fn duplicate(&self) -> (copy: EncountersConfig)
        ensures
            copy@ == self@,
    {
        let mut encounters: Vec<EncounterConfig> = Vec::new();
        let mut i: usize = 0;
        while i < self.encounters.len()
            invariant
                i <= self.encounters@.len(),
                encounters@.len() == i,
                forall|j: int| 0 <= j < i ==> #[trigger] encounters@[j]@ == self.encounters@[j]@,
            decreases self.encounters@.len() - i,
        {
            let config = &self.encounters[i];
            encounters.push(EncounterConfig {
                icon: config.icon.clone(),
                rarity: config.rarity,
                encounter_buildplate_id: config.encounter_buildplate_id.clone(),
                duration: config.duration,
            });
            i = i + 1;
        }
        let copy = EncountersConfig { encounters };
        proof {
            assert(copy@ =~= self@);
        }
        copy
    }
}

#[derive(Clone, Debug)]
pub struct StaticData {
    pub catalog: Catalog,
    pub tappables_config: TappablesConfig,
    pub encounters_config: EncountersConfig,
}

/// The icon of the configuration and the id of the first item, in reading
/// order, that a drop set names without a count range in its configuration.
pub fn find_missing_item_count(tappables: &Vec<TappableConfig>) -> (missing: Option<(String, String)>)
    ensures
        match missing {
            None => all_configs_counted(tappable_configs_view(tappables@)),
            Some((icon, item_id)) => exists|i: int, j: int, k: int|
                #![trigger first_uncounted_at(tappable_configs_view(tappables@), i, j, k)]
                first_uncounted_at(tappable_configs_view(tappables@), i, j, k)
                && icon@ == tappables@[i]@.icon
                && item_id@ == tappables@[i]@.drop_sets[j].items[k],
        },
{
    let ghost configs = tappable_configs_view(tappables@);
    let mut i: usize = 0;
    while i < tappables.len()
        invariant
            i <= tappables@.len(),
            configs == tappable_configs_view(tappables@),
            forall|i2: int| 0 <= i2 < i ==> config_counted(#[trigger] configs[i2]),
        decreases tappables@.len() - i,
    {
        let tappable = &tappables[i];
        let mut j: usize = 0;
        while j < tappable.drop_sets.len()
            invariant
                i < tappables@.len(),
                j <= tappable.drop_sets@.len(),
                tappable == tappables@[i as int],
                configs == tappable_configs_view(tappables@),
                forall|i2: int| 0 <= i2 < i ==> config_counted(#[trigger] configs[i2]),
                forall|j2: int| 0 <= j2 < j ==> drop_set_counted(configs[i as int], #[trigger] configs[i as int].drop_sets[j2]),
            decreases tappable.drop_sets@.len() - j,
        {
            let drop_set = &tappable.drop_sets[j];
            let mut k: usize = 0;
            while k < drop_set.items.len()
                invariant
                    i < tappables@.len(),
                    j < tappable.drop_sets@.len(),
                    k <= drop_set.items@.len(),
                    tappable == tappables@[i as int],
                    drop_set == tappable.drop_sets@[j as int],
                    configs == tappable_configs_view(tappables@),
                    forall|i2: int| 0 <= i2 < i ==> config_counted(#[trigger] configs[i2]),
                    forall|j2: int| 0 <= j2 < j ==> drop_set_counted(configs[i as int], #[trigger] configs[i as int].drop_sets[j2]),
                    forall|k2: int| 0 <= k2 < k ==> has_item_count(configs[i as int], #[trigger] configs[i as int].drop_sets[j as int].items[k2]),
                decreases drop_set.items@.len() - k,
            {
                let item_id = &drop_set.items[k];
                if tappable.item_count(item_id).is_none() {
                    proof {
                        assert(first_uncounted_at(configs, i as int, j as int, k as int));
                    }
                    return Some((tappable.icon.clone(), item_id.clone()));
                }
                k = k + 1;
            }
            j = j + 1;
        }
        i = i + 1;
    }
    None
}

impl StaticData {
    /// Assembles the static data from the catalog items and the tappable and
    /// encounter configurations, in the order of their files. Every item that a
    /// drop set names must have a count range in its configuration; the first
    /// one, in reading order, that does not is reported.
    pub fn load(
        catalog_items: Vec<CatalogItem>,
        tappables: Vec<TappableConfig>,
        encounters: Vec<EncounterConfig>,
    ) -> (result: Result<StaticData, TappablesError>)
        ensures
            match result {
                Ok(data) => {
                    &&& all_configs_counted(tappable_configs_view(tappables@))
                    &&& data.catalog@ == catalog_items_view(catalog_items@)
                    &&& data.tappables_config@ == tappable_configs_view(tappables@)
                    &&& data.encounters_config@ == encounter_configs_view(encounters@)
                },
                Err(TappablesError::MissingItemCount { icon, item_id }) => exists|i: int, j: int, k: int|
                    #![trigger first_uncounted_at(tappable_configs_view(tappables@), i, j, k)]
                    first_uncounted_at(tappable_configs_view(tappables@), i, j, k)
                    && icon@ == tappables@[i]@.icon
                    && item_id@ == tappables@[i]@.drop_sets[j].items[k],
                Err(_) => false,
            },
    {
        match find_missing_item_count(&tappables) {
            Some((icon, item_id)) => Err(TappablesError::MissingItemCount { icon, item_id }),
            None => Ok(StaticData {
                catalog: Catalog::new(catalog_items),
                tappables_config: TappablesConfig { tappables },
                encounters_config: EncountersConfig { encounters },
            }),
        }
    }
}

/// The highest of some rarities ranks at least as high as each of them and is
/// one of them; of no rarities it is `Common`.
pub proof fn law_max_rarity_is_the_highest(rarities: Seq<Rarity>)
    ensures
        forall|i: int| 0 <= i < rarities.len() ==> spec_rarity_rank(spec_max_rarity(rarities)) >= spec_rarity_rank(
            #[trigger] rarities[i],
        ),
        rarities.len() > 0 ==> exists|i: int| 0 <= i < rarities.len() && spec_max_rarity(rarities) == #[trigger] rarities[i],
        rarities.len() == 0 ==> spec_max_rarity(rarities) == Rarity::Common,
    decreases rarities.len(),
{
    if rarities.len() > 1 {
        let init = rarities.drop_last();
        law_max_rarity_is_the_highest(init);
        assert forall|i: int| 0 <= i < rarities.len() implies spec_rarity_rank(spec_max_rarity(rarities)) >= spec_rarity_rank(
            #[trigger] rarities[i],
        ) by {
            if i < rarities.len() - 1 {
                assert(init[i] == rarities[i]);
            }
        }
        if spec_rarity_rank(rarities.last()) >= spec_rarity_rank(spec_max_rarity(init)) {
            assert(spec_max_rarity(rarities) == rarities[rarities.len() - 1]);
        } else {
            let i = choose|i: int| 0 <= i < init.len() && spec_max_rarity(init) == #[trigger] init[i];
            assert(spec_max_rarity(rarities) == rarities[i]);
        }
    } else if rarities.len() == 1 {
        assert(spec_max_rarity(rarities) == rarities[0]);
    }
}

} // verus!
