//! The shared static data of the servers: the item catalog with rarities and
//! experience rewards, the player levels, and the tappable and encounter
//! configurations, with the checks that loading them makes.
pub use crate::tappables::{DropSet, ItemCount, ItemCountEntry, TappableConfig, TappablesConfig};
use crate::tappables::{
    all_configs_counted, find_missing_item_count, first_uncounted_at, tappable_configs_view,
};
use crate::text::{lemma_text_lt_irreflexive, lemma_text_lt_total, lemma_text_lt_transitive, text_less, text_lt};
use vstd::prelude::*;

verus! {

#[derive(Clone, Copy, Debug, PartialEq, Eq, PartialOrd, Ord, Hash, Structural)]
pub enum Rarity {
    Common,
    Uncommon,
    Rare,
    Epic,
    Legendary,
    Oobe,
    Other,
}

pub enum StaticDataError {
    Read(std::path::PathBuf, std::io::Error),
    Parse(std::path::PathBuf, serde_json::Error),
    MissingItemCount { icon: String, item_id: String },
    InvalidLevels,
}

/// Experience points that an item gives, by the way it was obtained.
#[derive(Clone, Copy, Debug, Default, PartialEq, Eq, Structural)]
pub struct Experience {
    pub tappable: u32,
    pub encounter: u32,
    pub crafting: u32,
    pub journal: u32,
}

#[derive(Clone, Debug)]
pub struct CatalogItem {
    pub id: String,
    pub rarity: Rarity,
    pub experience: Experience,
}

pub struct CatalogItemView {
    pub id: Seq<char>,
    pub rarity: Rarity,
    pub experience: Experience,
}

impl View for CatalogItem {
    type V = CatalogItemView;

    open spec fn view(&self) -> CatalogItemView {
        CatalogItemView { id: self.id@, rarity: self.rarity, experience: self.experience }
    }
}

pub open spec fn catalog_items_view(items: Seq<CatalogItem>) -> Seq<CatalogItemView> {
    items.map_values(|item: CatalogItem| item@)
}

/// The catalog entry for `id`: a later entry for the same id replaces an
/// earlier one.
pub open spec fn spec_catalog_entry(items: Seq<CatalogItemView>, id: Seq<char>) -> Option<CatalogItemView>
    decreases items.len(),
{
    if items.len() == 0 {
        None
    } else if items.last().id == id {
        Some(items.last())
    } else {
        spec_catalog_entry(items.drop_last(), id)
    }
}

#[derive(Clone, Debug)]
pub struct Catalog {
    items: Vec<CatalogItem>,
}

impl View for Catalog {
    type V = Seq<CatalogItemView>;

    closed spec fn view(&self) -> Seq<CatalogItemView> {
        catalog_items_view(self.items@)
    }
}

impl Catalog {
    /// The catalog of the items read from its file, in file order.
    pub fn load(items: Vec<CatalogItem>) -> (catalog: Catalog)
        ensures
            catalog@ == catalog_items_view(items@),
    {
        Catalog { items }
    }

    /// The catalog entry for `item_id`, if there is one.
    pub fn get_item(&self, item_id: &str) -> (found: Option<&CatalogItem>)
        ensures
            match found {
                Some(item) => spec_catalog_entry(self@, item_id@) == Some(item@),
                None => spec_catalog_entry(self@, item_id@) is None,
            },
    {
        let target = item_id.to_owned();
        let mut i = self.items.len();
        proof {
            assert(self@.take(i as int) =~= self@);
        }
        while i > 0
            invariant
                i <= self.items@.len(),
                target@ == item_id@,
                spec_catalog_entry(self@, item_id@) == spec_catalog_entry(self@.take(i as int), item_id@),
            decreases i,
        {
            proof {
                assert(self@.take(i as int).drop_last() =~= self@.take(i - 1));
            }
            let item = &self.items[i - 1];
            if item.id == target {
                return Some(item);
            }
            i = i - 1;
        }
        None
    }

    /// The catalog's items, one per id, in id order: for an id listed more
    /// than once, its last entry.
    pub fn items(&self) -> (items: Vec<CatalogItem>)
        ensures
            forall|i: int, j: int|
                0 <= i < j < items@.len() ==> text_lt((#[trigger] items@[i]).id@, (#[trigger] items@[j]).id@),
            forall|i: int| 0 <= i < items@.len() ==> spec_catalog_entry(self@, (#[trigger] items@[i]).id@) == Some(items@[i]@),
            forall|n: int| 0 <= n < self@.len() ==> exists|i: int| 0 <= i < items@.len() && #[trigger] items@[i].id@ == (#[trigger] self@[n]).id,
    {
        let ghost all = self@;
        let mut out: Vec<CatalogItem> = Vec::new();
        let mut n: usize = 0;
        while n < self.items.len()
            invariant
                n <= self.items@.len(),
                all == self@,
                all == catalog_items_view(self.items@),
                forall|i: int, j: int|
                    0 <= i < j < out@.len() ==> text_lt((#[trigger] out@[i]).id@, (#[trigger] out@[j]).id@),
                forall|i: int| 0 <= i < out@.len() ==> spec_catalog_entry(all.take(n as int), (#[trigger] out@[i]).id@) == Some(out@[i]@),
                forall|m: int| 0 <= m < n ==> exists|i: int| 0 <= i < out@.len() && #[trigger] out@[i].id@ == (#[trigger] all[m]).id,
            decreases self.items@.len() - n,
        {
            let item = &self.items[n];
            let ghost before = out@;
            proof {
                assert(all[n as int] == item@);
                assert(all.take(n + 1).drop_last() =~= all.take(n as int));
                assert(all.take(n + 1).last() == item@);
            }
            let mut k: usize = 0;
            while k < out.len() && text_less(out[k].id.as_str(), item.id.as_str())
                invariant
                    k <= out@.len(),
                    before == out@,
                    forall|j: int| 0 <= j < k ==> text_lt((#[trigger] before[j]).id@, item.id@),
                decreases out@.len() - k,
            {
                k = k + 1;
            }
            let copy = CatalogItem { id: item.id.clone(), rarity: item.rarity, experience: item.experience };
            if k < out.len() && out[k].id == item.id {
                out.set(k, copy);
                proof {
                    let after = out@;
                    assert forall|i: int, j: int| 0 <= i < j < after.len() implies text_lt((#[trigger] after[i]).id@, (#[trigger] after[j]).id@) by {
                        assert(text_lt(before[i].id@, before[j].id@));
                    }
                    assert forall|i: int| 0 <= i < after.len() implies spec_catalog_entry(all.take(n + 1), (#[trigger] after[i]).id@) == Some(after[i]@) by {
                        if i != k {
                            lemma_text_lt_irreflexive(before[k as int].id@);
                            if i < k {
                                assert(text_lt(before[i].id@, before[k as int].id@));
                            } else {
                                assert(text_lt(before[k as int].id@, before[i].id@));
                            }
                            assert(before[i].id@ != item.id@);
                        }
                    }
                    assert forall|m: int| 0 <= m < n + 1 implies exists|i: int| 0 <= i < after.len() && #[trigger] after[i].id@ == (#[trigger] all[m]).id by {
                        if m == n {
                            assert(after[k as int].id@ == all[m].id);
                        } else {
                            let i = choose|i: int| 0 <= i < before.len() && #[trigger] before[i].id@ == all[m].id;
                            assert(after[i].id@ == before[i].id@);
                        }
                    }
                }
            } else {
                out.insert(k, copy);
                proof {
                    let after = out@;
                    assert(after =~= before.insert(k as int, copy));
                    if k < before.len() {
                        lemma_text_lt_total(before[k as int].id@, item.id@);
                    }
                    assert forall|a: int, b: int| 0 <= a < b < after.len() implies text_lt((#[trigger] after[a]).id@, (#[trigger] after[b]).id@) by {
                        if b < k {
                            assert(after[a] == before[a] && after[b] == before[b]);
                        } else if b == k {
                            assert(after[a] == before[a]);
                        } else if a == k {
                            assert(after[b] == before[b - 1]);
                            if b - 1 > k {
                                assert(text_lt(before[k as int].id@, before[b - 1].id@));
                                lemma_text_lt_transitive(item.id@, before[k as int].id@, before[b - 1].id@);
                            }
                        } else if a < k {
                            assert(after[a] == before[a] && after[b] == before[b - 1]);
                        } else {
                            assert(after[a] == before[a - 1] && after[b] == before[b - 1]);
                        }
                    }
                    assert forall|i: int| 0 <= i < after.len() implies spec_catalog_entry(all.take(n + 1), (#[trigger] after[i]).id@) == Some(after[i]@) by {
                        if i < k {
                            assert(after[i] == before[i]);
                            lemma_text_lt_irreflexive(item.id@);
                            assert(text_lt(before[i].id@, item.id@));
                        } else if i > k {
                            assert(after[i] == before[i - 1]);
                            lemma_text_lt_irreflexive(item.id@);
                            if i - 1 > k {
                                assert(text_lt(before[k as int].id@, before[i - 1].id@));
                                lemma_text_lt_transitive(item.id@, before[k as int].id@, before[i - 1].id@);
                            }
                            assert(text_lt(item.id@, before[i - 1].id@));
                        }
                    }
                    assert forall|m: int| 0 <= m < n + 1 implies exists|i: int| 0 <= i < after.len() && #[trigger] after[i].id@ == (#[trigger] all[m]).id by {
                        if m == n {
                            assert(after[k as int].id@ == all[m].id);
                        } else {
                            let i = choose|i: int| 0 <= i < before.len() && #[trigger] before[i].id@ == all[m].id;
                            if i < k {
                                assert(after[i] == before[i]);
                            } else {
                                assert(after[i + 1] == before[i]);
                            }
                        }
                    }
                }
            }
            n = n + 1;
        }
        proof {
            assert(all.take(n as int) =~= all);
        }
        out
    }
}

#[derive(Clone, Debug)]
pub struct LevelItem {
    pub id: String,
    pub count: u32,
}

#[derive(Clone, Debug)]
pub struct Level {
    pub experience_required: u32,
    pub rubies: u32,
    pub items: Vec<LevelItem>,
    pub buildplates: Vec<String>,
}

/// Each level asks for more experience than the one before it.
pub open spec fn levels_increasing(levels: Seq<Level>) -> bool {
    forall|i: int| 0 <= i < levels.len() - 1 ==> (#[trigger] levels[i]).experience_required < levels[i + 1].experience_required
}

#[derive(Clone, Debug)]
pub struct Levels {
    pub levels: Vec<Level>,
}

impl Levels {
    /// The levels from the second on, in order; refused unless each asks for
    /// more experience than the one before it.
    pub fn load(levels: Vec<Level>) -> (result: Result<Levels, StaticDataError>)
        ensures
            match result {
                Ok(loaded) => levels_increasing(levels@) && loaded.levels@ == levels@,
                Err(StaticDataError::InvalidLevels) => !levels_increasing(levels@),
                Err(_) => false,
            },
    {
        let mut i: usize = 1;
        while i < levels.len()
            invariant
                1 <= i,
                i <= levels@.len() || levels@.len() == 0,
                forall|j: int| 0 <= j < i - 1 && j < levels@.len() - 1 ==> (#[trigger] levels@[j]).experience_required
                    < levels@[j + 1].experience_required,
            decreases levels@.len() - i,
        {
            if levels[i].experience_required <= levels[i - 1].experience_required {
                proof {
                    assert(!((levels@[i - 1]).experience_required < levels@[i as int].experience_required));
                }
                return Err(StaticDataError::InvalidLevels);
            }
            i = i + 1;
        }
        Ok(Levels { levels })
    }

    /// What reaching `level` gives: the levels are listed from the second on,
    /// so level `n` is entry `n - 2`, and the first level gives nothing.
    pub fn rewards_for_level(&self, level: u32) -> (reward: Option<&Level>)
        ensures
            match reward {
                Some(found) => level >= 2 && level - 2 < self.levels@.len() && *found == self.levels@[level - 2],
                None => level < 2 || level - 2 >= self.levels@.len(),
            },
    {
        if level < 2 {
            return None;
        }
        let index = (level - 2) as usize;
        if index < self.levels.len() {
            Some(&self.levels[index])
        } else {
            None
        }
    }
}

/// In increasing levels, every later level asks for more experience than any
/// earlier one.
pub proof fn law_increasing_levels_are_ordered(levels: Seq<Level>, i: int, j: int)
    requires
        levels_increasing(levels),
        0 <= i < j < levels.len(),
    ensures
        levels[i].experience_required < levels[j].experience_required,
    decreases j - i,
{
    if j > i + 1 {
        law_increasing_levels_are_ordered(levels, i, j - 1);
        assert(levels[j - 1].experience_required < levels[j].experience_required);
    }
}

#[derive(Clone, Debug)]
pub struct EncounterConfig {
    pub icon: String,
    pub rarity: Rarity,
    pub encounter_buildplate_id: String,
    pub duration: u64,
}

#[derive(Clone, Debug)]
pub struct EncountersConfig {
    pub encounters: Vec<EncounterConfig>,
}

#[derive(Clone, Debug)]
pub struct StaticData {
    pub catalog: Catalog,
    pub levels: Levels,
    pub tappables_config: TappablesConfig,
    pub encounters_config: EncountersConfig,
}

impl StaticData {
    /// Assembles the static data from what its files hold: the catalog items,
    /// the levels in order, and the tappable and encounter configurations.
    /// Levels that do not ask for more experience each time are refused
    /// first; then every item that a drop set names must have a count range in
    /// its configuration, and the first one in reading order that does not is
    /// reported.
    pub fn load(
        catalog_items: Vec<CatalogItem>,
        levels: Vec<Level>,
        tappables: Vec<TappableConfig>,
        encounters: Vec<EncounterConfig>,
    ) -> (result: Result<StaticData, StaticDataError>)
        ensures
            match result {
                Ok(data) => {
                    &&& levels_increasing(levels@)
                    &&& all_configs_counted(tappable_configs_view(tappables@))
                    &&& data.catalog@ == catalog_items_view(catalog_items@)
                    &&& data.levels.levels@ == levels@
                    &&& data.tappables_config.tappables@ == tappables@
                    &&& data.encounters_config.encounters@ == encounters@
                },
                Err(StaticDataError::InvalidLevels) => !levels_increasing(levels@),
                Err(StaticDataError::MissingItemCount { icon, item_id }) => levels_increasing(levels@) && exists|
                    i: int,
                    j: int,
                    k: int,
                |
                    #![trigger first_uncounted_at(tappable_configs_view(tappables@), i, j, k)]
                    first_uncounted_at(tappable_configs_view(tappables@), i, j, k) && icon@ == tappables@[i]@.icon
                        && item_id@ == tappables@[i]@.drop_sets[j].items[k],
                Err(_) => false,
            },
    {
        let catalog = Catalog::load(catalog_items);
        let levels = match Levels::load(levels) {
            Ok(loaded) => loaded,
            Err(error) => {
                return Err(error);
            },
        };
        match find_missing_item_count(&tappables) {
            Some((icon, item_id)) => Err(StaticDataError::MissingItemCount { icon, item_id }),
            None => Ok(
                StaticData {
                    catalog,
                    levels,
                    tappables_config: TappablesConfig { tappables },
                    encounters_config: EncountersConfig { encounters },
                },
            ),
        }
    }
}

} // verus!
