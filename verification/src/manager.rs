//! The store of spawned tappables and encounters, by tile, and the rules for
//! when a spawn may be interacted with.
use crate::generate::{Encounter, Tappable, GRACE_PERIOD_MS};
use crate::spawner::SpawnBatch;
use crate::tappables::{Rarity, TappableItem};
use crate::text::{decimal_digits, decimal_text, is_digit, lemma_decimal_digits, push_char, push_decimal_i64};
use vstd::prelude::*;

verus! {

/// The text id of tile `(tile_x, tile_y)`: both coordinates in decimal,
/// joined by an underscore.
pub open spec fn spec_tile_id(tile_x: i32, tile_y: i32) -> Seq<char> {
    decimal_text(tile_x as int) + seq!['_'] + decimal_text(tile_y as int)
}

pub fn tile_id(tile_x: i32, tile_y: i32) -> (id: String)
    ensures
        id@ == spec_tile_id(tile_x, tile_y),
{
    let mut id = String::new();
    push_decimal_i64(&mut id, tile_x as i64);
    push_char(&mut id, '_');
    push_decimal_i64(&mut id, tile_y as i64);
    proof {
        assert(Seq::<char>::empty() + decimal_text(tile_x as int) =~= decimal_text(tile_x as int));
        assert((decimal_text(tile_x as int)).push('_') + decimal_text(tile_y as int) =~= spec_tile_id(tile_x, tile_y));
    }
    id
}

pub struct TappableView {
    pub id: Seq<char>,
    pub tile_x: i32,
    pub tile_y: i32,
    pub lat_offset: u32,
    pub lon_offset: u32,
    pub spawn_time: u64,
    pub valid_for: u64,
    pub icon: Seq<char>,
    pub rarity: Rarity,
    pub items: Seq<(Seq<char>, u32)>,
}

impl View for Tappable {
    type V = TappableView;

    open spec fn view(&self) -> TappableView {
        TappableView {
            id: self.id@,
            tile_x: self.tile_x,
            tile_y: self.tile_y,
            lat_offset: self.lat_offset,
            lon_offset: self.lon_offset,
            spawn_time: self.spawn_time,
            valid_for: self.valid_for,
            icon: self.icon@,
            rarity: self.rarity,
            items: self.items@.map_values(|item: TappableItem| (item.id@, item.count)),
        }
    }
}

pub struct EncounterView {
    pub id: Seq<char>,
    pub tile_x: i32,
    pub tile_y: i32,
    pub lat_offset: u32,
    pub lon_offset: u32,
    pub spawn_time: u64,
    pub valid_for: u64,
    pub icon: Seq<char>,
    pub rarity: Rarity,
    pub encounter_buildplate_id: Seq<char>,
}

impl View for Encounter {
    type V = EncounterView;

    open spec fn view(&self) -> EncounterView {
        EncounterView {
            id: self.id@,
            tile_x: self.tile_x,
            tile_y: self.tile_y,
            lat_offset: self.lat_offset,
            lon_offset: self.lon_offset,
            spawn_time: self.spawn_time,
            valid_for: self.valid_for,
            icon: self.icon@,
            rarity: self.rarity,
            encounter_buildplate_id: self.encounter_buildplate_id@,
        }
    }
}

impl Tappable {
    pub fn duplicate(&self) -> (copy: Tappable)
        ensures
            copy@ == self@,
    {
        let mut items: Vec<TappableItem> = Vec::new();
        let mut i: usize = 0;
        while i < self.items.len()
            invariant
                i <= self.items@.len(),
                items@.len() == i,
                forall|j: int| 0 <= j < i ==> (#[trigger] items@[j]).id@ == self.items@[j].id@ && items@[j].count
                    == self.items@[j].count,
            decreases self.items@.len() - i,
        {
            items.push(TappableItem { id: self.items[i].id.clone(), count: self.items[i].count });
            i = i + 1;
        }
        let copy = Tappable {
            id: self.id.clone(),
            tile_x: self.tile_x,
            tile_y: self.tile_y,
            lat_offset: self.lat_offset,
            lon_offset: self.lon_offset,
            spawn_time: self.spawn_time,
            valid_for: self.valid_for,
            icon: self.icon.clone(),
            rarity: self.rarity,
            items,
        };
        proof {
            assert(copy@.items =~= self@.items);
        }
        copy
    }
}

impl Encounter {
    pub fn duplicate(&self) -> (copy: Encounter)
        ensures
            copy@ == self@,
    {
        Encounter {
            id: self.id.clone(),
            tile_x: self.tile_x,
            tile_y: self.tile_y,
            lat_offset: self.lat_offset,
            lon_offset: self.lon_offset,
            spawn_time: self.spawn_time,
            valid_for: self.valid_for,
            icon: self.icon.clone(),
            rarity: self.rarity,
            encounter_buildplate_id: self.encounter_buildplate_id.clone(),
        }
    }
}

/// Two tappables occupy the same place in the store: the same tile and id.
pub open spec fn same_spot(a: TappableView, b: TappableView) -> bool {
    a.tile_x == b.tile_x && a.tile_y == b.tile_y && a.id == b.id
}

/// Position of the first stored tappable in the same place as `t`, if any.
pub open spec fn spot_of(s: Seq<TappableView>, t: TappableView) -> int
    decreases s.len(),
{
    if s.len() == 0 {
        -1
    } else if spot_of(s.drop_last(), t) >= 0 {
        spot_of(s.drop_last(), t)
    } else if same_spot(s.last(), t) {
        s.len() - 1
    } else {
        -1
    }
}

/// The store after adding `t`: it replaces the tappable in its place, or joins
/// the end.
pub open spec fn spec_add_tappable(s: Seq<TappableView>, t: TappableView) -> Seq<TappableView> {
    if spot_of(s, t) >= 0 {
        s.update(spot_of(s, t), t)
    } else {
        s.push(t)
    }
}

pub open spec fn spec_add_tappables(s: Seq<TappableView>, items: Seq<TappableView>) -> Seq<TappableView>
    decreases items.len(),
{
    if items.len() == 0 {
        s
    } else {
        spec_add_tappable(spec_add_tappables(s, items.drop_last()), items.last())
    }
}

pub open spec fn tappable_lives(t: TappableView, now: u64) -> bool {
    t.spawn_time + t.valid_for + GRACE_PERIOD_MS > now
}

/// The stored tappables, in order, that a prune at `now` keeps.
pub open spec fn spec_prune_tappables(s: Seq<TappableView>, now: u64) -> Seq<TappableView>
    decreases s.len(),
{
    if s.len() == 0 {
        s
    } else if tappable_lives(s.last(), now) {
        spec_prune_tappables(s.drop_last(), now).push(s.last())
    } else {
        spec_prune_tappables(s.drop_last(), now)
    }
}

/// Tile `(x, y)` lies in the square of half-width `radius` around `(cx, cy)`.
pub open spec fn in_tile_square(cx: i32, cy: i32, radius: i32, x: i32, y: i32) -> bool {
    cx - radius <= x <= cx + radius && cy - radius <= y <= cy + radius
}

/// The stored tappables, in order, on the tiles around `(cx, cy)`.
pub open spec fn spec_tappables_around(s: Seq<TappableView>, cx: i32, cy: i32, radius: i32) -> Seq<TappableView>
    decreases s.len(),
{
    if s.len() == 0 {
        s
    } else if in_tile_square(cx, cy, radius, s.last().tile_x, s.last().tile_y) {
        spec_tappables_around(s.drop_last(), cx, cy, radius).push(s.last())
    } else {
        spec_tappables_around(s.drop_last(), cx, cy, radius)
    }
}

pub open spec fn tappable_end_fits(t: TappableView) -> bool {
    t.spawn_time + t.valid_for + GRACE_PERIOD_MS <= u64::MAX
}

/// No two stored tappables share a place, and every end time leaves room for
/// the grace period.
pub open spec fn tappables_wf(s: Seq<TappableView>) -> bool {
    &&& forall|i: int, j: int| 0 <= i < j < s.len() ==> !same_spot(#[trigger] s[i], #[trigger] s[j])
    &&& forall|i: int| 0 <= i < s.len() ==> tappable_end_fits(#[trigger] s[i])
}

/// A tappable may be interacted with from the grace period before its spawn
/// until the grace period after it ends.
pub open spec fn spec_tappable_valid_for(t: TappableView, request_time: u64) -> bool {
    let opens = if t.spawn_time >= GRACE_PERIOD_MS { t.spawn_time - GRACE_PERIOD_MS } else { 0 };
    !(opens > request_time || t.spawn_time + t.valid_for + GRACE_PERIOD_MS <= request_time)
}

pub open spec fn tappable_views(s: Seq<Tappable>) -> Seq<TappableView> {
    s.map_values(|t: Tappable| t@)
}

proof fn lemma_spot_of_bounds(s: Seq<TappableView>, t: TappableView)
    ensures
        -1 <= spot_of(s, t) < s.len(),
        spot_of(s, t) >= 0 ==> same_spot(s[spot_of(s, t)], t),
        spot_of(s, t) < 0 ==> forall|i: int| 0 <= i < s.len() ==> !same_spot(#[trigger] s[i], t),
        spot_of(s, t) >= 0 ==> forall|i: int| 0 <= i < spot_of(s, t) ==> !same_spot(#[trigger] s[i], t),
    decreases s.len(),
{
    if s.len() > 0 {
        lemma_spot_of_bounds(s.drop_last(), t);
        assert forall|i: int| 0 <= i < s.len() - 1 implies s.drop_last()[i] == s[i] by {}
    }
}

proof fn lemma_add_keeps_wf(s: Seq<TappableView>, t: TappableView)
    requires
        tappables_wf(s),
        tappable_end_fits(t),
    ensures
        tappables_wf(spec_add_tappable(s, t)),
        spec_add_tappable(s, t).contains(t),
{
    lemma_spot_of_bounds(s, t);
    let r = spec_add_tappable(s, t);
    if spot_of(s, t) >= 0 {
        let p = spot_of(s, t);
        assert forall|i: int, j: int| 0 <= i < j < r.len() implies !same_spot(#[trigger] r[i], #[trigger] r[j]) by {
            if i == p {
                assert(!same_spot(s[i], s[j]));
            } else if j == p {
                assert(!same_spot(s[i], s[j]));
            }
        }
        assert(r[p] == t);
    } else {
        assert(r[s.len() as int] == t);
    }
}

proof fn lemma_prune_members(s: Seq<TappableView>, now: u64, x: TappableView)
    requires
        spec_prune_tappables(s, now).contains(x),
    ensures
        s.contains(x),
        tappable_lives(x, now),
    decreases s.len(),
{
    if s.len() > 0 {
        let rest = spec_prune_tappables(s.drop_last(), now);
        if tappable_lives(s.last(), now) && x == s.last() {
            assert(s[s.len() - 1] == x);
        } else {
            if tappable_lives(s.last(), now) {
                let n = choose|n: int| 0 <= n < rest.push(s.last()).len() && rest.push(s.last())[n] == x;
                assert(rest[n] == x);
            }
            lemma_prune_members(s.drop_last(), now, x);
            let n = choose|n: int| 0 <= n < s.drop_last().len() && s.drop_last()[n] == x;
            assert(s[n] == x);
        }
    }
}

/// Pruning keeps the store well formed: what it keeps is a subsequence.
proof fn lemma_prune_keeps_wf(s: Seq<TappableView>, now: u64)
    requires
        tappables_wf(s),
    ensures
        tappables_wf(spec_prune_tappables(s, now)),
    decreases s.len(),
{
    if s.len() > 0 {
        let init = s.drop_last();
        assert forall|i: int, j: int| 0 <= i < j < init.len() implies !same_spot(#[trigger] init[i], #[trigger] init[j]) by {
            assert(init[i] == s[i] && init[j] == s[j]);
        }
        assert forall|i: int| 0 <= i < init.len() implies tappable_end_fits(#[trigger] init[i]) by {
            assert(init[i] == s[i]);
        }
        lemma_prune_keeps_wf(init, now);
        let rest = spec_prune_tappables(init, now);
        if tappable_lives(s.last(), now) {
            let r = rest.push(s.last());
            assert forall|i: int, j: int| 0 <= i < j < r.len() implies !same_spot(#[trigger] r[i], #[trigger] r[j]) by {
                if j == rest.len() {
                    assert(rest.contains(r[i]));
                    lemma_prune_members(init, now, r[i]);
                    let n = choose|n: int| 0 <= n < init.len() && init[n] == r[i];
                    assert(s[n] == r[i]);
                    assert(!same_spot(s[n], s[s.len() - 1]));
                }
            }
            assert(tappable_end_fits(s[s.len() - 1]));
        }
    }
}

/// Two encounters occupy the same place in the store: the same tile and id.
pub open spec fn same_encounter_spot(a: EncounterView, b: EncounterView) -> bool {
    a.tile_x == b.tile_x && a.tile_y == b.tile_y && a.id == b.id
}

/// Position of the first stored encounter in the same place as `t`, if any.
pub open spec fn encounter_spot_of(s: Seq<EncounterView>, t: EncounterView) -> int
    decreases s.len(),
{
    if s.len() == 0 {
        -1
    } else if encounter_spot_of(s.drop_last(), t) >= 0 {
        encounter_spot_of(s.drop_last(), t)
    } else if same_encounter_spot(s.last(), t) {
        s.len() - 1
    } else {
        -1
    }
}

/// The store after adding `t`: it replaces the encounter in its place, or joins
/// the end.
pub open spec fn spec_add_encounter(s: Seq<EncounterView>, t: EncounterView) -> Seq<EncounterView> {
    if encounter_spot_of(s, t) >= 0 {
        s.update(encounter_spot_of(s, t), t)
    } else {
        s.push(t)
    }
}

pub open spec fn spec_add_encounters(s: Seq<EncounterView>, items: Seq<EncounterView>) -> Seq<EncounterView>
    decreases items.len(),
{
    if items.len() == 0 {
        s
    } else {
        spec_add_encounter(spec_add_encounters(s, items.drop_last()), items.last())
    }
}

pub open spec fn encounter_lives(t: EncounterView, now: u64) -> bool {
    t.spawn_time + t.valid_for + GRACE_PERIOD_MS > now
}

/// The stored encounters, in order, that a prune at `now` keeps.
pub open spec fn spec_prune_encounters(s: Seq<EncounterView>, now: u64) -> Seq<EncounterView>
    decreases s.len(),
{
    if s.len() == 0 {
        s
    } else if encounter_lives(s.last(), now) {
        spec_prune_encounters(s.drop_last(), now).push(s.last())
    } else {
        spec_prune_encounters(s.drop_last(), now)
    }
}

/// The stored encounters, in order, on the tiles around `(cx, cy)`.
pub open spec fn spec_encounters_around(s: Seq<EncounterView>, cx: i32, cy: i32, radius: i32) -> Seq<EncounterView>
    decreases s.len(),
{
    if s.len() == 0 {
        s
    } else if in_tile_square(cx, cy, radius, s.last().tile_x, s.last().tile_y) {
        spec_encounters_around(s.drop_last(), cx, cy, radius).push(s.last())
    } else {
        spec_encounters_around(s.drop_last(), cx, cy, radius)
    }
}

pub open spec fn encounter_end_fits(t: EncounterView) -> bool {
    t.spawn_time + t.valid_for + GRACE_PERIOD_MS <= u64::MAX
}

/// No two stored encounters share a place, and every end time leaves room for
/// the grace period.
pub open spec fn encounters_wf(s: Seq<EncounterView>) -> bool {
    &&& forall|i: int, j: int| 0 <= i < j < s.len() ==> !same_encounter_spot(#[trigger] s[i], #[trigger] s[j])
    &&& forall|i: int| 0 <= i < s.len() ==> encounter_end_fits(#[trigger] s[i])
}

/// An encounter may be interacted with from the grace period before its spawn
/// until it ends.
pub open spec fn spec_encounter_valid_for(t: EncounterView, request_time: u64) -> bool {
    let opens = if t.spawn_time >= GRACE_PERIOD_MS { t.spawn_time - GRACE_PERIOD_MS } else { 0 };
    !(opens > request_time || t.spawn_time + t.valid_for <= request_time)
}

pub open spec fn encounter_views(s: Seq<Encounter>) -> Seq<EncounterView> {
    s.map_values(|t: Encounter| t@)
}

proof fn lemma_encounter_spot_of_bounds(s: Seq<EncounterView>, t: EncounterView)
    ensures
        -1 <= encounter_spot_of(s, t) < s.len(),
        encounter_spot_of(s, t) >= 0 ==> same_encounter_spot(s[encounter_spot_of(s, t)], t),
        encounter_spot_of(s, t) < 0 ==> forall|i: int| 0 <= i < s.len() ==> !same_encounter_spot(#[trigger] s[i], t),
        encounter_spot_of(s, t) >= 0 ==> forall|i: int| 0 <= i < encounter_spot_of(s, t) ==> !same_encounter_spot(#[trigger] s[i], t),
    decreases s.len(),
{
    if s.len() > 0 {
        lemma_encounter_spot_of_bounds(s.drop_last(), t);
        assert forall|i: int| 0 <= i < s.len() - 1 implies s.drop_last()[i] == s[i] by {}
    }
}

proof fn lemma_add_encounter_keeps_wf(s: Seq<EncounterView>, t: EncounterView)
    requires
        encounters_wf(s),
        encounter_end_fits(t),
    ensures
        encounters_wf(spec_add_encounter(s, t)),
        spec_add_encounter(s, t).contains(t),
{
    lemma_encounter_spot_of_bounds(s, t);
    let r = spec_add_encounter(s, t);
    if encounter_spot_of(s, t) >= 0 {
        let p = encounter_spot_of(s, t);
        assert forall|i: int, j: int| 0 <= i < j < r.len() implies !same_encounter_spot(#[trigger] r[i], #[trigger] r[j]) by {
            if i == p {
                assert(!same_encounter_spot(s[i], s[j]));
            } else if j == p {
                assert(!same_encounter_spot(s[i], s[j]));
            }
        }
        assert(r[p] == t);
    } else {
        assert(r[s.len() as int] == t);
    }
}

proof fn lemma_prune_encounter_members(s: Seq<EncounterView>, now: u64, x: EncounterView)
    requires
        spec_prune_encounters(s, now).contains(x),
    ensures
        s.contains(x),
        encounter_lives(x, now),
    decreases s.len(),
{
    if s.len() > 0 {
        let rest = spec_prune_encounters(s.drop_last(), now);
        if encounter_lives(s.last(), now) && x == s.last() {
            assert(s[s.len() - 1] == x);
        } else {
            if encounter_lives(s.last(), now) {
                let n = choose|n: int| 0 <= n < rest.push(s.last()).len() && rest.push(s.last())[n] == x;
                assert(rest[n] == x);
            }
            lemma_prune_encounter_members(s.drop_last(), now, x);
            let n = choose|n: int| 0 <= n < s.drop_last().len() && s.drop_last()[n] == x;
            assert(s[n] == x);
        }
    }
}

/// Pruning keeps the store well formed: what it keeps is a subsequence.
proof fn lemma_prune_encounters_keeps_wf(s: Seq<EncounterView>, now: u64)
    requires
        encounters_wf(s),
    ensures
        encounters_wf(spec_prune_encounters(s, now)),
    decreases s.len(),
{
    if s.len() > 0 {
        let init = s.drop_last();
        assert forall|i: int, j: int| 0 <= i < j < init.len() implies !same_encounter_spot(#[trigger] init[i], #[trigger] init[j]) by {
            assert(init[i] == s[i] && init[j] == s[j]);
        }
        assert forall|i: int| 0 <= i < init.len() implies encounter_end_fits(#[trigger] init[i]) by {
            assert(init[i] == s[i]);
        }
        lemma_prune_encounters_keeps_wf(init, now);
        let rest = spec_prune_encounters(init, now);
        if encounter_lives(s.last(), now) {
            let r = rest.push(s.last());
            assert forall|i: int, j: int| 0 <= i < j < r.len() implies !same_encounter_spot(#[trigger] r[i], #[trigger] r[j]) by {
                if j == rest.len() {
                    assert(rest.contains(r[i]));
                    lemma_prune_encounter_members(init, now, r[i]);
                    let n = choose|n: int| 0 <= n < init.len() && init[n] == r[i];
                    assert(s[n] == r[i]);
                    assert(!same_encounter_spot(s[n], s[s.len() - 1]));
                }
            }
            assert(encounter_end_fits(s[s.len() - 1]));
        }
    }
}

pub struct TappablesManager {
    tappables: Vec<Tappable>,
    encounters: Vec<Encounter>,
}

impl TappablesManager {
    pub closed spec fn tappables(&self) -> Seq<TappableView> {
        tappable_views(self.tappables@)
    }

    pub closed spec fn encounters(&self) -> Seq<EncounterView> {
        encounter_views(self.encounters@)
    }

    pub open spec fn wf(&self) -> bool {
        &&& tappables_wf(self.tappables())
        &&& encounters_wf(self.encounters())
    }

    pub fn new() -> (manager: Self)
        ensures
            manager.wf(),
            manager.tappables() == Seq::<TappableView>::empty(),
            manager.encounters() == Seq::<EncounterView>::empty(),
    {
        let manager = TappablesManager { tappables: Vec::new(), encounters: Vec::new() };
        proof {
            assert(manager.tappables() =~= Seq::<TappableView>::empty());
            assert(manager.encounters() =~= Seq::<EncounterView>::empty());
        }
        manager
    }

    /// Stores a tappable in its tile, replacing one with the same id there.
    fn add_tappable(&mut self, tappable: Tappable)
        requires
            old(self).wf(),
            tappable_end_fits(tappable@),
        ensures
            final(self).wf(),
            final(self).tappables() == spec_add_tappable(old(self).tappables(), tappable@),
            final(self).encounters == old(self).encounters,
    {
        let ghost s = self.tappables();
        proof {
            lemma_spot_of_bounds(s, tappable@);
            lemma_add_keeps_wf(s, tappable@);
        }
        let mut i: usize = 0;
        while i < self.tappables.len()
            invariant
                i <= self.tappables@.len(),
                s == self.tappables(),
                s == old(self).tappables(),
                tappables_wf(s),
                tappable_end_fits(tappable@),
                old(self).wf(),
                self.encounters == old(self).encounters,
                forall|j: int| 0 <= j < i ==> !same_spot(#[trigger] s[j], tappable@),
            decreases self.tappables@.len() - i,
        {
            let stored = &self.tappables[i];
            assert(s[i as int] == stored@);
            if stored.tile_x == tappable.tile_x && stored.tile_y == tappable.tile_y && stored.id == tappable.id {
                proof {
                    lemma_spot_of_bounds(s, tappable@);
                    lemma_add_keeps_wf(s, tappable@);
                    assert(same_spot(s[i as int], tappable@));
                    assert(spot_of(s, tappable@) >= 0);
                    if spot_of(s, tappable@) > i as int {
                        assert(!same_spot(s[i as int], tappable@));
                    }
                    assert(spot_of(s, tappable@) == i);
                }
                self.tappables.set(i, tappable);
                proof {
                    assert(self.tappables() =~= spec_add_tappable(s, tappable@));
                }
                return;
            }
            i = i + 1;
        }
        proof {
            lemma_spot_of_bounds(s, tappable@);
            assert(spot_of(s, tappable@) < 0);
        }
        self.tappables.push(tappable);
        proof {
            assert(self.tappables() =~= spec_add_tappable(s, tappable@));
        }
    }
    /// Stores every tappable of `tappables`, in order.
    fn add_tappables(&mut self, tappables: Vec<Tappable>)
        requires
            old(self).wf(),
            forall|n: int| 0 <= n < tappables@.len() ==> tappable_end_fits(#[trigger] tappables@[n]@),
        ensures
            final(self).wf(),
            final(self).tappables() == spec_add_tappables(old(self).tappables(), tappable_views(tappables@)),
            final(self).encounters == old(self).encounters,
    {
        let ghost all = tappable_views(tappables@);
        assert(all.len() == tappables.len());
        let mut rest = tappables;
        let mut n: usize = 0;
        while rest.len() > 0
            invariant
                n <= all.len(),
                all.len() <= usize::MAX,
                tappable_views(rest@) == all.skip(n as int),
                forall|m: int| 0 <= m < all.len() ==> tappable_end_fits(#[trigger] all[m]),
                self.wf(),
                self.tappables() == spec_add_tappables(old(self).tappables(), all.take(n as int)),
                self.encounters == old(self).encounters,
            decreases rest@.len(),
        {
            assert(all.skip(n as int).len() == rest@.len());
            let ghost before_rest = rest@;
            let tappable = rest.remove(0);
            proof {
                assert(all.skip(n as int)[0] == tappable@);
                assert(all[n as int] == tappable@);
                assert(all.take(n as int + 1).drop_last() =~= all.take(n as int));
                assert forall|k: int| 0 <= k < rest@.len() implies #[trigger] tappable_views(rest@)[k] == all.skip(n as int + 1)[k] by {
                    assert(rest@[k] == before_rest[k + 1]);
                    assert(tappable_views(before_rest)[k + 1] == all.skip(n as int)[k + 1]);
                }
                assert(tappable_views(rest@) =~= all.skip(n as int + 1));
            }
            self.add_tappable(tappable);
            n = n + 1;
        }
        proof {
            assert(all.take(n as int) =~= all);
        }
    }

    /// The stored tappables, in order, on the tiles at most `tile_radius` tiles
    /// away from `(tile_x, tile_y)` along each axis.
    pub fn get_tappables_around(&self, tile_x: i32, tile_y: i32, tile_radius: i32) -> (found: Vec<Tappable>)
        ensures
            tappable_views(found@) == spec_tappables_around(self.tappables(), tile_x, tile_y, tile_radius),
    {
        let ghost s = self.tappables();
        let mut found: Vec<Tappable> = Vec::new();
        let mut i: usize = 0;
        while i < self.tappables.len()
            invariant
                i <= self.tappables@.len(),
                s == self.tappables(),
                tappable_views(found@) == spec_tappables_around(s.take(i as int), tile_x, tile_y, tile_radius),
            decreases self.tappables@.len() - i,
        {
            let stored = &self.tappables[i];
            proof {
                assert(s[i as int] == stored@);
                assert(s.take(i as int + 1).drop_last() =~= s.take(i as int));
            }
            let x = stored.tile_x as i64;
            let y = stored.tile_y as i64;
            let r = tile_radius as i64;
            if tile_x as i64 - r <= x && x <= tile_x as i64 + r && tile_y as i64 - r <= y && y <= tile_y as i64 + r {
                let copy = stored.duplicate();
                found.push(copy);
                proof {
                    assert(tappable_views(found@) =~= spec_tappables_around(s.take(i as int), tile_x, tile_y, tile_radius).push(copy@));
                }
            }
            i = i + 1;
        }
        proof {
            assert(s.take(i as int) =~= s);
        }
        found
    }

    /// The tappable with id `id` stored in the tile whose text id is `tile_id`.
    pub fn get_tappable(&self, id: &str, tile_id: &str) -> (found: Option<&Tappable>)
        ensures
            match found {
                Some(t) => self.tappables().contains(t@) && spec_tile_id(t.tile_x, t.tile_y) == tile_id@ && t.id@ == id@,
                None => forall|n: int| 0 <= n < self.tappables().len() ==> !(spec_tile_id(
                    (#[trigger] self.tappables()[n]).tile_x,
                    self.tappables()[n].tile_y,
                ) == tile_id@ && self.tappables()[n].id == id@),
            },
    {
        let ghost s = self.tappables();
        let wanted_tile = tile_id.to_owned();
        let wanted_id = id.to_owned();
        let mut i: usize = 0;
        while i < self.tappables.len()
            invariant
                i <= self.tappables@.len(),
                s == self.tappables(),
                wanted_tile@ == tile_id@,
                wanted_id@ == id@,
                forall|n: int| 0 <= n < i ==> !(spec_tile_id((#[trigger] s[n]).tile_x, s[n].tile_y) == tile_id@ && s[n].id == id@),
            decreases self.tappables@.len() - i,
        {
            let stored = &self.tappables[i];
            assert(s[i as int] == stored@);
            if self::tile_id(stored.tile_x, stored.tile_y) == wanted_tile && stored.id == wanted_id {
                return Some(stored);
            }
            i = i + 1;
        }
        None
    }

    /// Whether `tappable` may be interacted with at `request_time`.
    pub fn is_tappable_valid_for(&self, tappable: &Tappable, request_time: u64) -> (valid: bool)
        requires
            tappable_end_fits(tappable@),
        ensures
            valid == spec_tappable_valid_for(tappable@, request_time),
    {
        let opens = if tappable.spawn_time >= GRACE_PERIOD_MS { tappable.spawn_time - GRACE_PERIOD_MS } else { 0 };
        !(opens > request_time || tappable.spawn_time + tappable.valid_for + GRACE_PERIOD_MS <= request_time)
    }

    /// Drops the tappables whose grace period has ended by `current_time`.
    fn prune_tappables(&mut self, current_time: u64)
        requires
            old(self).wf(),
        ensures
            final(self).wf(),
            final(self).tappables() == spec_prune_tappables(old(self).tappables(), current_time),
            final(self).encounters == old(self).encounters,
    {
        let ghost s = self.tappables();
        proof {
            lemma_prune_keeps_wf(s, current_time);
        }
        let mut kept: Vec<Tappable> = Vec::new();
        let mut rest: Vec<Tappable> = Vec::new();
        std::mem::swap(&mut rest, &mut self.tappables);
        assert(s.len() == rest.len());
        let mut n: usize = 0;
        while rest.len() > 0
            invariant
                n <= s.len(),
                s.len() <= usize::MAX,
                tappables_wf(s),
                tappable_views(rest@) == s.skip(n as int),
                tappable_views(kept@) == spec_prune_tappables(s.take(n as int), current_time),
            decreases rest@.len(),
        {
            assert(s.skip(n as int).len() == rest@.len());
            let ghost before_rest = rest@;
            let tappable = rest.remove(0);
            proof {
                assert(s.skip(n as int)[0] == tappable@);
                assert(s[n as int] == tappable@);
                assert(tappable_end_fits(s[n as int]));
                assert(s.take(n as int + 1).drop_last() =~= s.take(n as int));
                assert forall|k: int| 0 <= k < rest@.len() implies #[trigger] tappable_views(rest@)[k] == s.skip(n as int + 1)[k] by {
                    assert(rest@[k] == before_rest[k + 1]);
                    assert(tappable_views(before_rest)[k + 1] == s.skip(n as int)[k + 1]);
                }
                assert(tappable_views(rest@) =~= s.skip(n as int + 1));
            }
            if tappable.spawn_time + tappable.valid_for + GRACE_PERIOD_MS > current_time {
                let ghost before = kept@;
                kept.push(tappable);
                proof {
                    assert(tappable_views(kept@) =~= tappable_views(before).push(tappable@));
                }
            }
            n = n + 1;
        }
        proof {
            assert(s.take(n as int) =~= s);
        }
        self.tappables = kept;
    }

    /// Stores an encounter in its tile, replacing one with the same id there.
    fn add_encounter(&mut self, encounter: Encounter)
        requires
            old(self).wf(),
            encounter_end_fits(encounter@),
        ensures
            final(self).wf(),
            final(self).encounters() == spec_add_encounter(old(self).encounters(), encounter@),
            final(self).tappables == old(self).tappables,
    {
        let ghost s = self.encounters();
        proof {
            lemma_encounter_spot_of_bounds(s, encounter@);
            lemma_add_encounter_keeps_wf(s, encounter@);
        }
        let mut i: usize = 0;
        while i < self.encounters.len()
            invariant
                i <= self.encounters@.len(),
                s == self.encounters(),
                s == old(self).encounters(),
                encounters_wf(s),
                encounter_end_fits(encounter@),
                old(self).wf(),
                self.tappables == old(self).tappables,
                forall|j: int| 0 <= j < i ==> !same_encounter_spot(#[trigger] s[j], encounter@),
            decreases self.encounters@.len() - i,
        {
            let stored = &self.encounters[i];
            assert(s[i as int] == stored@);
            if stored.tile_x == encounter.tile_x && stored.tile_y == encounter.tile_y && stored.id == encounter.id {
                proof {
                    lemma_encounter_spot_of_bounds(s, encounter@);
                    lemma_add_encounter_keeps_wf(s, encounter@);
                    assert(same_encounter_spot(s[i as int], encounter@));
                    assert(encounter_spot_of(s, encounter@) >= 0);
                    if encounter_spot_of(s, encounter@) > i as int {
                        assert(!same_encounter_spot(s[i as int], encounter@));
                    }
                    assert(encounter_spot_of(s, encounter@) == i);
                }
                self.encounters.set(i, encounter);
                proof {
                    assert(self.encounters() =~= spec_add_encounter(s, encounter@));
                }
                return;
            }
            i = i + 1;
        }
        proof {
            lemma_encounter_spot_of_bounds(s, encounter@);
            assert(encounter_spot_of(s, encounter@) < 0);
        }
        self.encounters.push(encounter);
        proof {
            assert(self.encounters() =~= spec_add_encounter(s, encounter@));
        }
    }
    /// Stores every encounter of `encounters`, in order.
    fn add_encounters(&mut self, encounters: Vec<Encounter>)
        requires
            old(self).wf(),
            forall|n: int| 0 <= n < encounters@.len() ==> encounter_end_fits(#[trigger] encounters@[n]@),
        ensures
            final(self).wf(),
            final(self).encounters() == spec_add_encounters(old(self).encounters(), encounter_views(encounters@)),
            final(self).tappables == old(self).tappables,
    {
        let ghost all = encounter_views(encounters@);
        assert(all.len() == encounters.len());
        let mut rest = encounters;
        let mut n: usize = 0;
        while rest.len() > 0
            invariant
                n <= all.len(),
                all.len() <= usize::MAX,
                encounter_views(rest@) == all.skip(n as int),
                forall|m: int| 0 <= m < all.len() ==> encounter_end_fits(#[trigger] all[m]),
                self.wf(),
                self.encounters() == spec_add_encounters(old(self).encounters(), all.take(n as int)),
                self.tappables == old(self).tappables,
            decreases rest@.len(),
        {
            assert(all.skip(n as int).len() == rest@.len());
            let ghost before_rest = rest@;
            let encounter = rest.remove(0);
            proof {
                assert(all.skip(n as int)[0] == encounter@);
                assert(all[n as int] == encounter@);
                assert(all.take(n as int + 1).drop_last() =~= all.take(n as int));
                assert forall|k: int| 0 <= k < rest@.len() implies #[trigger] encounter_views(rest@)[k] == all.skip(n as int + 1)[k] by {
                    assert(rest@[k] == before_rest[k + 1]);
                    assert(encounter_views(before_rest)[k + 1] == all.skip(n as int)[k + 1]);
                }
                assert(encounter_views(rest@) =~= all.skip(n as int + 1));
            }
            self.add_encounter(encounter);
            n = n + 1;
        }
        proof {
            assert(all.take(n as int) =~= all);
        }
    }

    /// The stored encounters, in order, on the tiles at most `tile_radius` tiles
    /// away from `(tile_x, tile_y)` along each axis.
    pub fn get_encounters_around(&self, tile_x: i32, tile_y: i32, tile_radius: i32) -> (found: Vec<Encounter>)
        ensures
            encounter_views(found@) == spec_encounters_around(self.encounters(), tile_x, tile_y, tile_radius),
    {
        let ghost s = self.encounters();
        let mut found: Vec<Encounter> = Vec::new();
        let mut i: usize = 0;
        while i < self.encounters.len()
            invariant
                i <= self.encounters@.len(),
                s == self.encounters(),
                encounter_views(found@) == spec_encounters_around(s.take(i as int), tile_x, tile_y, tile_radius),
            decreases self.encounters@.len() - i,
        {
            let stored = &self.encounters[i];
            proof {
                assert(s[i as int] == stored@);
                assert(s.take(i as int + 1).drop_last() =~= s.take(i as int));
            }
            let x = stored.tile_x as i64;
            let y = stored.tile_y as i64;
            let r = tile_radius as i64;
            if tile_x as i64 - r <= x && x <= tile_x as i64 + r && tile_y as i64 - r <= y && y <= tile_y as i64 + r {
                let copy = stored.duplicate();
                found.push(copy);
                proof {
                    assert(encounter_views(found@) =~= spec_encounters_around(s.take(i as int), tile_x, tile_y, tile_radius).push(copy@));
                }
            }
            i = i + 1;
        }
        proof {
            assert(s.take(i as int) =~= s);
        }
        found
    }

    /// The encounter with id `id` stored in the tile whose text id is `tile_id`.
    pub fn get_encounter(&self, id: &str, tile_id: &str) -> (found: Option<&Encounter>)
        ensures
            match found {
                Some(t) => self.encounters().contains(t@) && spec_tile_id(t.tile_x, t.tile_y) == tile_id@ && t.id@ == id@,
                None => forall|n: int| 0 <= n < self.encounters().len() ==> !(spec_tile_id(
                    (#[trigger] self.encounters()[n]).tile_x,
                    self.encounters()[n].tile_y,
                ) == tile_id@ && self.encounters()[n].id == id@),
            },
    {
        let ghost s = self.encounters();
        let wanted_tile = tile_id.to_owned();
        let wanted_id = id.to_owned();
        let mut i: usize = 0;
        while i < self.encounters.len()
            invariant
                i <= self.encounters@.len(),
                s == self.encounters(),
                wanted_tile@ == tile_id@,
                wanted_id@ == id@,
                forall|n: int| 0 <= n < i ==> !(spec_tile_id((#[trigger] s[n]).tile_x, s[n].tile_y) == tile_id@ && s[n].id == id@),
            decreases self.encounters@.len() - i,
        {
            let stored = &self.encounters[i];
            assert(s[i as int] == stored@);
            if self::tile_id(stored.tile_x, stored.tile_y) == wanted_tile && stored.id == wanted_id {
                return Some(stored);
            }
            i = i + 1;
        }
        None
    }

    /// Whether `encounter` may be interacted with at `request_time`.
    pub fn is_encounter_valid_for(&self, encounter: &Encounter, request_time: u64) -> (valid: bool)
        requires
            encounter.spawn_time + encounter.valid_for <= u64::MAX,
        ensures
            valid == spec_encounter_valid_for(encounter@, request_time),
    {
        let opens = if encounter.spawn_time >= GRACE_PERIOD_MS { encounter.spawn_time - GRACE_PERIOD_MS } else { 0 };
        !(opens > request_time || encounter.spawn_time + encounter.valid_for <= request_time)
    }

    /// Drops the encounters whose grace period has ended by `current_time`.
    fn prune_encounters(&mut self, current_time: u64)
        requires
            old(self).wf(),
        ensures
            final(self).wf(),
            final(self).encounters() == spec_prune_encounters(old(self).encounters(), current_time),
            final(self).tappables == old(self).tappables,
    {
        let ghost s = self.encounters();
        proof {
            lemma_prune_encounters_keeps_wf(s, current_time);
        }
        let mut kept: Vec<Encounter> = Vec::new();
        let mut rest: Vec<Encounter> = Vec::new();
        std::mem::swap(&mut rest, &mut self.encounters);
        assert(s.len() == rest.len());
        let mut n: usize = 0;
        while rest.len() > 0
            invariant
                n <= s.len(),
                s.len() <= usize::MAX,
                encounters_wf(s),
                encounter_views(rest@) == s.skip(n as int),
                encounter_views(kept@) == spec_prune_encounters(s.take(n as int), current_time),
            decreases rest@.len(),
        {
            assert(s.skip(n as int).len() == rest@.len());
            let ghost before_rest = rest@;
            let encounter = rest.remove(0);
            proof {
                assert(s.skip(n as int)[0] == encounter@);
                assert(s[n as int] == encounter@);
                assert(encounter_end_fits(s[n as int]));
                assert(s.take(n as int + 1).drop_last() =~= s.take(n as int));
                assert forall|k: int| 0 <= k < rest@.len() implies #[trigger] encounter_views(rest@)[k] == s.skip(n as int + 1)[k] by {
                    assert(rest@[k] == before_rest[k + 1]);
                    assert(encounter_views(before_rest)[k + 1] == s.skip(n as int)[k + 1]);
                }
                assert(encounter_views(rest@) =~= s.skip(n as int + 1));
            }
            if encounter.spawn_time + encounter.valid_for + GRACE_PERIOD_MS > current_time {
                let ghost before = kept@;
                kept.push(encounter);
                proof {
                    assert(encounter_views(kept@) =~= encounter_views(before).push(encounter@));
                }
            }
            n = n + 1;
        }
        proof {
            assert(s.take(n as int) =~= s);
        }
        self.encounters = kept;
    }

    /// Stores every tappable and then every encounter of `batch`, each in its
    /// tile, replacing what was there under the same id.
    pub fn add_spawn_batch(&mut self, batch: SpawnBatch)
        requires
            old(self).wf(),
            forall|n: int| 0 <= n < batch.tappables@.len() ==> tappable_end_fits(#[trigger] batch.tappables@[n]@),
            forall|n: int| 0 <= n < batch.encounters@.len() ==> encounter_end_fits(#[trigger] batch.encounters@[n]@),
        ensures
            final(self).wf(),
            final(self).tappables() == spec_add_tappables(old(self).tappables(), tappable_views(batch.tappables@)),
            final(self).encounters() == spec_add_encounters(old(self).encounters(), encounter_views(batch.encounters@)),
    {
        let SpawnBatch { tappables, encounters } = batch;
        self.add_tappables(tappables);
        self.add_encounters(encounters);
    }

    /// Drops every tappable and encounter whose grace period has ended by
    /// `current_time`, keeping the others in their order.
    pub fn prune(&mut self, current_time: u64)
        requires
            old(self).wf(),
        ensures
            final(self).wf(),
            final(self).tappables() == spec_prune_tappables(old(self).tappables(), current_time),
            final(self).encounters() == spec_prune_encounters(old(self).encounters(), current_time),
    {
        self.prune_tappables(current_time);
        self.prune_encounters(current_time);
    }
}

proof fn lemma_prune_keeps_living(s: Seq<TappableView>, now: u64, x: TappableView)
    requires
        s.contains(x),
        tappable_lives(x, now),
    ensures
        spec_prune_tappables(s, now).contains(x),
    decreases s.len(),
{
    let rest = spec_prune_tappables(s.drop_last(), now);
    if s.last() == x {
        assert(rest.push(x)[rest.len() as int] == x);
    } else {
        let n = choose|n: int| 0 <= n < s.len() && s[n] == x;
        assert(s.drop_last()[n] == x);
        lemma_prune_keeps_living(s.drop_last(), now, x);
        if tappable_lives(s.last(), now) {
            let k = choose|k: int| 0 <= k < rest.len() && rest[k] == x;
            assert(rest.push(s.last())[k] == x);
        }
    }
}

proof fn lemma_prune_keeps_living_encounter(s: Seq<EncounterView>, now: u64, x: EncounterView)
    requires
        s.contains(x),
        encounter_lives(x, now),
    ensures
        spec_prune_encounters(s, now).contains(x),
    decreases s.len(),
{
    let rest = spec_prune_encounters(s.drop_last(), now);
    if s.last() == x {
        assert(rest.push(x)[rest.len() as int] == x);
    } else {
        let n = choose|n: int| 0 <= n < s.len() && s[n] == x;
        assert(s.drop_last()[n] == x);
        lemma_prune_keeps_living_encounter(s.drop_last(), now, x);
        if encounter_lives(s.last(), now) {
            let k = choose|k: int| 0 <= k < rest.len() && rest[k] == x;
            assert(rest.push(s.last())[k] == x);
        }
    }
}

/// A prune at `now` keeps exactly the stored tappables whose grace period
/// has not ended by `now`.
pub proof fn law_prune_tappables_keeps_the_living(s: Seq<TappableView>, now: u64, t: TappableView)
    ensures
        spec_prune_tappables(s, now).contains(t) <==> s.contains(t) && tappable_lives(t, now),
{
    if spec_prune_tappables(s, now).contains(t) {
        lemma_prune_members(s, now, t);
    }
    if s.contains(t) && tappable_lives(t, now) {
        lemma_prune_keeps_living(s, now, t);
    }
}

/// A prune at `now` keeps exactly the stored encounters whose grace period
/// has not ended by `now`.
pub proof fn law_prune_encounters_keeps_the_living(s: Seq<EncounterView>, now: u64, e: EncounterView)
    ensures
        spec_prune_encounters(s, now).contains(e) <==> s.contains(e) && encounter_lives(e, now),
{
    if spec_prune_encounters(s, now).contains(e) {
        lemma_prune_encounter_members(s, now, e);
    }
    if s.contains(e) && encounter_lives(e, now) {
        lemma_prune_keeps_living_encounter(s, now, e);
    }
}

/// A stored tappable that may be interacted with at `now` survives a prune at
/// `now`.
pub proof fn law_valid_tappable_survives_prune(s: Seq<TappableView>, now: u64, t: TappableView)
    requires
        s.contains(t),
        spec_tappable_valid_for(t, now),
    ensures
        spec_prune_tappables(s, now).contains(t),
{
    lemma_prune_keeps_living(s, now, t);
}

/// A stored encounter that may be interacted with at `now` survives a prune at
/// `now`.
pub proof fn law_valid_encounter_survives_prune(s: Seq<EncounterView>, now: u64, e: EncounterView)
    requires
        s.contains(e),
        spec_encounter_valid_for(e, now),
    ensures
        spec_prune_encounters(s, now).contains(e),
{
    lemma_prune_keeps_living_encounter(s, now, e);
}

/// Adding a tappable stores it, and keeps every stored tappable that is not
/// in its place.
pub proof fn law_add_tappable_stores(s: Seq<TappableView>, t: TappableView, x: TappableView)
    ensures
        spec_add_tappable(s, t).contains(t),
        s.contains(x) && !same_spot(x, t) ==> spec_add_tappable(s, t).contains(x),
{
    lemma_spot_of_bounds(s, t);
    let r = spec_add_tappable(s, t);
    if spot_of(s, t) >= 0 {
        assert(r[spot_of(s, t)] == t);
    } else {
        assert(r[s.len() as int] == t);
    }
    if s.contains(x) && !same_spot(x, t) {
        let k = choose|k: int| 0 <= k < s.len() && s[k] == x;
        assert(r[k] == x);
    }
}

/// Adding an encounter stores it, and keeps every stored encounter that is
/// not in its place.
pub proof fn law_add_encounter_stores(s: Seq<EncounterView>, e: EncounterView, x: EncounterView)
    ensures
        spec_add_encounter(s, e).contains(e),
        s.contains(x) && !same_encounter_spot(x, e) ==> spec_add_encounter(s, e).contains(x),
{
    lemma_encounter_spot_of_bounds(s, e);
    let r = spec_add_encounter(s, e);
    if encounter_spot_of(s, e) >= 0 {
        assert(r[encounter_spot_of(s, e)] == e);
    } else {
        assert(r[s.len() as int] == e);
    }
    if s.contains(x) && !same_encounter_spot(x, e) {
        let k = choose|k: int| 0 <= k < s.len() && s[k] == x;
        assert(r[k] == x);
    }
}

/// After a batch of tappables is added, the store holds each of them that no
/// later one in the batch replaced.
pub proof fn law_add_tappables_stores_the_last(s: Seq<TappableView>, items: Seq<TappableView>, i: int)
    requires
        0 <= i < items.len(),
        forall|j: int| i < j < items.len() ==> !same_spot(#[trigger] items[j], items[i]),
    ensures
        spec_add_tappables(s, items).contains(items[i]),
    decreases items.len(),
{
    let init = items.drop_last();
    if i == items.len() - 1 {
        law_add_tappable_stores(spec_add_tappables(s, init), items.last(), items.last());
    } else {
        assert forall|j: int| i < j < init.len() implies !same_spot(#[trigger] init[j], init[i]) by {
            assert(init[j] == items[j]);
        }
        law_add_tappables_stores_the_last(s, init, i);
        assert(!same_spot(items[items.len() - 1], items[i]));
        law_add_tappable_stores(spec_add_tappables(s, init), items.last(), items[i]);
    }
}

/// After a batch of encounters is added, the store holds each of them that no
/// later one in the batch replaced.
pub proof fn law_add_encounters_stores_the_last(s: Seq<EncounterView>, items: Seq<EncounterView>, i: int)
    requires
        0 <= i < items.len(),
        forall|j: int| i < j < items.len() ==> !same_encounter_spot(#[trigger] items[j], items[i]),
    ensures
        spec_add_encounters(s, items).contains(items[i]),
    decreases items.len(),
{
    let init = items.drop_last();
    if i == items.len() - 1 {
        law_add_encounter_stores(spec_add_encounters(s, init), items.last(), items.last());
    } else {
        assert forall|j: int| i < j < init.len() implies !same_encounter_spot(#[trigger] init[j], init[i]) by {
            assert(init[j] == items[j]);
        }
        law_add_encounters_stores_the_last(s, init, i);
        assert(!same_encounter_spot(items[items.len() - 1], items[i]));
        law_add_encounter_stores(spec_add_encounters(s, init), items.last(), items[i]);
    }
}


/// A tappable whose end leaves room for the grace period may be interacted
/// with at the moment it spawns.
pub proof fn law_tappable_valid_at_spawn(t: TappableView)
    requires
        tappable_end_fits(t),
    ensures
        spec_tappable_valid_for(t, t.spawn_time),
{
}

/// An encounter that lasts at all may be interacted with at the moment it
/// spawns.
pub proof fn law_encounter_valid_at_spawn(e: EncounterView)
    requires
        encounter_end_fits(e),
        e.valid_for > 0,
    ensures
        spec_encounter_valid_for(e, e.spawn_time),
{
}


/// Whether every spawn of `batch` ends early enough to leave room for the
/// grace period, as `add_spawn_batch` requires.
pub fn batch_ends_fit(batch: &SpawnBatch) -> (fit: bool)
    ensures
        fit == ((forall|n: int| 0 <= n < batch.tappables@.len() ==> tappable_end_fits(#[trigger] batch.tappables@[n]@))
            && (forall|n: int| 0 <= n < batch.encounters@.len() ==> encounter_end_fits(#[trigger] batch.encounters@[n]@))),
{
    let mut i: usize = 0;
    while i < batch.tappables.len()
        invariant
            i <= batch.tappables@.len(),
            forall|n: int| 0 <= n < i ==> tappable_end_fits(#[trigger] batch.tappables@[n]@),
        decreases batch.tappables@.len() - i,
    {
        let t = &batch.tappables[i];
        if t.spawn_time as u128 + t.valid_for as u128 + GRACE_PERIOD_MS as u128 > u64::MAX as u128 {
            assert(!tappable_end_fits(batch.tappables@[i as int]@));
            return false;
        }
        i = i + 1;
    }
    let mut j: usize = 0;
    while j < batch.encounters.len()
        invariant
            j <= batch.encounters@.len(),
            forall|n: int| 0 <= n < batch.tappables@.len() ==> tappable_end_fits(#[trigger] batch.tappables@[n]@),
            forall|n: int| 0 <= n < j ==> encounter_end_fits(#[trigger] batch.encounters@[n]@),
        decreases batch.encounters@.len() - j,
    {
        let e = &batch.encounters[j];
        if e.spawn_time as u128 + e.valid_for as u128 + GRACE_PERIOD_MS as u128 > u64::MAX as u128 {
            assert(!encounter_end_fits(batch.encounters@[j as int]@));
            return false;
        }
        j = j + 1;
    }
    true
}


proof fn lemma_decimal_text_shape(i: int)
    ensures
        decimal_text(i).len() > 0,
        !decimal_text(i).contains('_'),
        (decimal_text(i)[0] == '-') == (i < 0),
        i < 0 ==> decimal_text(i) == seq!['-'] + decimal_digits((-i) as nat),
        i >= 0 ==> decimal_text(i) == decimal_digits(i as nat),
{
    let magnitude: nat = if i < 0 { (-i) as nat } else { i as nat };
    lemma_decimal_digits(magnitude);
    let d = decimal_digits(magnitude);
    assert(is_digit(d[0]));
    let t = decimal_text(i);
    if t.contains('_') {
        let k = choose|k: int| 0 <= k < t.len() && t[k] == '_';
        if i < 0 {
            if k > 0 {
                assert(t[k] == d[k - 1]);
                assert(is_digit(d[k - 1]));
            }
        } else {
            assert(is_digit(d[k]));
        }
    }
    if i < 0 {
        assert(t[0] == '-');
    }
}

proof fn lemma_decimal_text_injective(a: int, b: int)
    requires
        decimal_text(a) == decimal_text(b),
    ensures
        a == b,
{
    lemma_decimal_text_shape(a);
    lemma_decimal_text_shape(b);
    if a < 0 {
        let da = decimal_digits((-a) as nat);
        let db = decimal_digits((-b) as nat);
        assert(da =~= decimal_text(a).drop_first());
        assert(db =~= decimal_text(b).drop_first());
        lemma_decimal_digits((-a) as nat);
        lemma_decimal_digits((-b) as nat);
    } else {
        lemma_decimal_digits(a as nat);
        lemma_decimal_digits(b as nat);
    }
}

/// A tile id names exactly one tile.
pub proof fn law_tile_id_injective(x1: i32, y1: i32, x2: i32, y2: i32)
    requires
        spec_tile_id(x1, y1) == spec_tile_id(x2, y2),
    ensures
        x1 == x2,
        y1 == y2,
{
    lemma_decimal_text_shape(x1 as int);
    lemma_decimal_text_shape(x2 as int);
    lemma_decimal_text_shape(y1 as int);
    lemma_decimal_text_shape(y2 as int);
    let id = spec_tile_id(x1, y1);
    let a = decimal_text(x1 as int);
    let b = decimal_text(x2 as int);
    if a.len() < b.len() {
        assert(id[a.len() as int] == '_');
        assert(id[a.len() as int] == b[a.len() as int]);
        assert(b.contains('_'));
    } else if b.len() < a.len() {
        assert(id[b.len() as int] == '_');
        assert(id[b.len() as int] == a[b.len() as int]);
        assert(a.contains('_'));
    }
    assert(a.len() == b.len());
    assert(a =~= id.take(a.len() as int));
    assert(b =~= id.take(a.len() as int));
    lemma_decimal_text_injective(x1 as int, x2 as int);
    assert(decimal_text(y1 as int) =~= id.skip(a.len() as int + 1));
    assert(decimal_text(y2 as int) =~= id.skip(a.len() as int + 1));
    lemma_decimal_text_injective(y1 as int, y2 as int);
}


proof fn lemma_add_tappables_keeps_wf(s: Seq<TappableView>, items: Seq<TappableView>)
    requires
        tappables_wf(s),
        forall|i: int| 0 <= i < items.len() ==> tappable_end_fits(#[trigger] items[i]),
    ensures
        tappables_wf(spec_add_tappables(s, items)),
    decreases items.len(),
{
    if items.len() > 0 {
        assert forall|i: int| 0 <= i < items.len() - 1 implies tappable_end_fits(#[trigger] items.drop_last()[i]) by {
            assert(items.drop_last()[i] == items[i]);
        }
        lemma_add_tappables_keeps_wf(s, items.drop_last());
        assert(tappable_end_fits(items[items.len() - 1]));
        lemma_add_keeps_wf(spec_add_tappables(s, items.drop_last()), items.last());
    }
}

proof fn lemma_add_encounters_keeps_wf(s: Seq<EncounterView>, items: Seq<EncounterView>)
    requires
        encounters_wf(s),
        forall|i: int| 0 <= i < items.len() ==> encounter_end_fits(#[trigger] items[i]),
    ensures
        encounters_wf(spec_add_encounters(s, items)),
    decreases items.len(),
{
    if items.len() > 0 {
        assert forall|i: int| 0 <= i < items.len() - 1 implies encounter_end_fits(#[trigger] items.drop_last()[i]) by {
            assert(items.drop_last()[i] == items[i]);
        }
        lemma_add_encounters_keeps_wf(s, items.drop_last());
        assert(encounter_end_fits(items[items.len() - 1]));
        lemma_add_encounter_keeps_wf(spec_add_encounters(s, items.drop_last()), items.last());
    }
}

/// After a batch of tappables with pairwise distinct ids is added to a store,
/// each of them is what a lookup by its tile id and id finds: the store holds
/// it, and it is the only stored tappable with that tile id and id.
pub proof fn law_added_tappables_are_found(s: Seq<TappableView>, items: Seq<TappableView>, i: int)
    requires
        tappables_wf(s),
        forall|k: int| 0 <= k < items.len() ==> tappable_end_fits(#[trigger] items[k]),
        forall|j: int, k: int| 0 <= j < k < items.len() ==> (#[trigger] items[j]).id != (#[trigger] items[k]).id,
        0 <= i < items.len(),
    ensures
        spec_add_tappables(s, items).contains(items[i]),
        forall|n: int|
            0 <= n < spec_add_tappables(s, items).len() && spec_tile_id(
                (#[trigger] spec_add_tappables(s, items)[n]).tile_x,
                spec_add_tappables(s, items)[n].tile_y,
            ) == spec_tile_id(items[i].tile_x, items[i].tile_y) && spec_add_tappables(s, items)[n].id == items[i].id
                ==> spec_add_tappables(s, items)[n] == items[i],
{
    let r = spec_add_tappables(s, items);
    assert forall|j: int| i < j < items.len() implies !same_spot(#[trigger] items[j], items[i]) by {
        assert(items[i].id != items[j].id);
    }
    law_add_tappables_stores_the_last(s, items, i);
    lemma_add_tappables_keeps_wf(s, items);
    let k = choose|k: int| 0 <= k < r.len() && r[k] == items[i];
    assert forall|n: int|
        0 <= n < r.len() && spec_tile_id((#[trigger] r[n]).tile_x, r[n].tile_y) == spec_tile_id(items[i].tile_x, items[i].tile_y)
            && r[n].id == items[i].id implies r[n] == items[i] by {
        law_tile_id_injective(r[n].tile_x, r[n].tile_y, items[i].tile_x, items[i].tile_y);
        assert(same_spot(r[n], r[k]));
        if n < k {
            assert(!same_spot(r[n], r[k]));
        } else if k < n {
            assert(!same_spot(r[k], r[n]));
        }
    }
}

/// After a batch of encounters with pairwise distinct ids is added to a
/// store, each of them is what a lookup by its tile id and id finds.
pub proof fn law_added_encounters_are_found(s: Seq<EncounterView>, items: Seq<EncounterView>, i: int)
    requires
        encounters_wf(s),
        forall|k: int| 0 <= k < items.len() ==> encounter_end_fits(#[trigger] items[k]),
        forall|j: int, k: int| 0 <= j < k < items.len() ==> (#[trigger] items[j]).id != (#[trigger] items[k]).id,
        0 <= i < items.len(),
    ensures
        spec_add_encounters(s, items).contains(items[i]),
        forall|n: int|
            0 <= n < spec_add_encounters(s, items).len() && spec_tile_id(
                (#[trigger] spec_add_encounters(s, items)[n]).tile_x,
                spec_add_encounters(s, items)[n].tile_y,
            ) == spec_tile_id(items[i].tile_x, items[i].tile_y) && spec_add_encounters(s, items)[n].id == items[i].id
                ==> spec_add_encounters(s, items)[n] == items[i],
{
    let r = spec_add_encounters(s, items);
    assert forall|j: int| i < j < items.len() implies !same_encounter_spot(#[trigger] items[j], items[i]) by {
        assert(items[i].id != items[j].id);
    }
    law_add_encounters_stores_the_last(s, items, i);
    lemma_add_encounters_keeps_wf(s, items);
    let k = choose|k: int| 0 <= k < r.len() && r[k] == items[i];
    assert forall|n: int|
        0 <= n < r.len() && spec_tile_id((#[trigger] r[n]).tile_x, r[n].tile_y) == spec_tile_id(items[i].tile_x, items[i].tile_y)
            && r[n].id == items[i].id implies r[n] == items[i] by {
        law_tile_id_injective(r[n].tile_x, r[n].tile_y, items[i].tile_x, items[i].tile_y);
        assert(same_encounter_spot(r[n], r[k]));
        if n < k {
            assert(!same_encounter_spot(r[n], r[k]));
        } else if k < n {
            assert(!same_encounter_spot(r[k], r[n]));
        }
    }
}

/// The tappables found around a tile are exactly the stored ones on a tile at
/// most `radius` away from `(cx, cy)` along each axis.
pub proof fn law_tappables_around_are_the_nearby_ones(s: Seq<TappableView>, cx: i32, cy: i32, radius: i32)
    ensures
        forall|n: int|
            0 <= n < spec_tappables_around(s, cx, cy, radius).len() ==> {
                let t = #[trigger] spec_tappables_around(s, cx, cy, radius)[n];
                &&& cx - radius <= t.tile_x <= cx + radius
                &&& cy - radius <= t.tile_y <= cy + radius
                &&& s.contains(t)
            },
        forall|n: int|
            0 <= n < s.len() && cx - radius <= (#[trigger] s[n]).tile_x <= cx + radius && cy - radius <= s[n].tile_y <= cy
                + radius ==> spec_tappables_around(s, cx, cy, radius).contains(s[n]),
    decreases s.len(),
{
    if s.len() > 0 {
        let init = s.drop_last();
        law_tappables_around_are_the_nearby_ones(init, cx, cy, radius);
        let r = spec_tappables_around(s, cx, cy, radius);
        let r0 = spec_tappables_around(init, cx, cy, radius);
        assert forall|n: int| 0 <= n < r.len() implies {
            let t = #[trigger] r[n];
            &&& cx - radius <= t.tile_x <= cx + radius
            &&& cy - radius <= t.tile_y <= cy + radius
            &&& s.contains(t)
        } by {
            if n < r0.len() {
                assert(r[n] == r0[n]);
                let t = r0[n];
                assert(init.contains(t));
                let k = choose|k: int| 0 <= k < init.len() && init[k] == t;
                assert(s[k] == t);
            } else {
                assert(r[n] == s[s.len() - 1]);
            }
        }
        assert forall|n: int|
            0 <= n < s.len() && cx - radius <= (#[trigger] s[n]).tile_x <= cx + radius && cy - radius <= s[n].tile_y <= cy
                + radius implies r.contains(s[n]) by {
            if n < s.len() - 1 {
                assert(init[n] == s[n]);
                assert(r0.contains(s[n]));
                let k = choose|k: int| 0 <= k < r0.len() && r0[k] == s[n];
                assert(r[k] == s[n]);
            } else {
                assert(r[r.len() - 1] == s[n]);
            }
        }
    }
}

/// The encounters found around a tile are exactly the stored ones on a tile at
/// most `radius` away from `(cx, cy)` along each axis.
pub proof fn law_encounters_around_are_the_nearby_ones(s: Seq<EncounterView>, cx: i32, cy: i32, radius: i32)
    ensures
        forall|n: int|
            0 <= n < spec_encounters_around(s, cx, cy, radius).len() ==> {
                let t = #[trigger] spec_encounters_around(s, cx, cy, radius)[n];
                &&& cx - radius <= t.tile_x <= cx + radius
                &&& cy - radius <= t.tile_y <= cy + radius
                &&& s.contains(t)
            },
        forall|n: int|
            0 <= n < s.len() && cx - radius <= (#[trigger] s[n]).tile_x <= cx + radius && cy - radius <= s[n].tile_y <= cy
                + radius ==> spec_encounters_around(s, cx, cy, radius).contains(s[n]),
    decreases s.len(),
{
    if s.len() > 0 {
        let init = s.drop_last();
        law_encounters_around_are_the_nearby_ones(init, cx, cy, radius);
        let r = spec_encounters_around(s, cx, cy, radius);
        let r0 = spec_encounters_around(init, cx, cy, radius);
        assert forall|n: int| 0 <= n < r.len() implies {
            let t = #[trigger] r[n];
            &&& cx - radius <= t.tile_x <= cx + radius
            &&& cy - radius <= t.tile_y <= cy + radius
            &&& s.contains(t)
        } by {
            if n < r0.len() {
                assert(r[n] == r0[n]);
                let t = r0[n];
                assert(init.contains(t));
                let k = choose|k: int| 0 <= k < init.len() && init[k] == t;
                assert(s[k] == t);
            } else {
                assert(r[n] == s[s.len() - 1]);
            }
        }
        assert forall|n: int|
            0 <= n < s.len() && cx - radius <= (#[trigger] s[n]).tile_x <= cx + radius && cy - radius <= s[n].tile_y <= cy
                + radius implies r.contains(s[n]) by {
            if n < s.len() - 1 {
                assert(init[n] == s[n]);
                assert(r0.contains(s[n]));
                let k = choose|k: int| 0 <= k < r0.len() && r0[k] == s[n];
                assert(r[k] == s[n]);
            } else {
                assert(r[r.len() - 1] == s[n]);
            }
        }
    }
}

/// A prune at `now` keeps exactly the stored tappables that end, grace period
/// of thirty seconds included, after `now`.
pub proof fn law_prune_keeps_the_unexpired_tappables(s: Seq<TappableView>, now: u64, t: TappableView)
    ensures
        spec_prune_tappables(s, now).contains(t) <==> s.contains(t) && t.spawn_time + t.valid_for + 30000 > now,
{
    law_prune_tappables_keeps_the_living(s, now, t);
}

/// A prune at `now` keeps exactly the stored encounters that end, grace
/// period of thirty seconds included, after `now`.
pub proof fn law_prune_keeps_the_unexpired_encounters(s: Seq<EncounterView>, now: u64, e: EncounterView)
    ensures
        spec_prune_encounters(s, now).contains(e) <==> s.contains(e) && e.spawn_time + e.valid_for + 30000 > now,
{
    law_prune_encounters_keeps_the_living(s, now, e);
}

/// A tappable may be interacted with from thirty seconds before its spawn
/// (from time zero when it spawns sooner) until thirty seconds after it ends.
pub proof fn law_tappable_window(t: TappableView, request_time: u64)
    ensures
        spec_tappable_valid_for(t, request_time) <==> (t.spawn_time <= request_time + 30000
            && request_time < t.spawn_time + t.valid_for + 30000),
{
}

/// An encounter may be interacted with from thirty seconds before its spawn
/// (from time zero when it spawns sooner) until it ends.
pub proof fn law_encounter_window(e: EncounterView, request_time: u64)
    ensures
        spec_encounter_valid_for(e, request_time) <==> (e.spawn_time <= request_time + 30000
            && request_time < e.spawn_time + e.valid_for),
{
}

} // verus!
