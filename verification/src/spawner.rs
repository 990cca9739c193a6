//! Spawn cycles: a clock that ticks every fifteen seconds, and per-tile
//! catch-up of the cycles a tile missed while it was inactive.
use crate::generate::{
    chance_total, configs_are_ready, drawn_error, durations_are_fit, max_duration_ms, max_one, spec_drop_set_index, tappable_from,
    all_items_cataloged, configs_ready, durations_fit, generation_error_explained, spawned_encounter,
    spawned_tappable, spec_max_duration_ms, Encounter, EncounterGenerator, Tappable, TappableGenerator,
    GRACE_PERIOD_MS, MIN_ENCOUNTER_DELAY_MS, MAX_ENCOUNTER_DELAY_MS, MAX_TAPPABLE_COUNT, MAX_TAPPABLE_DELAY_MS,
    MAX_TAPPABLE_DURATION_MS,
};
use crate::tappables::{all_configs_counted, EncounterConfigView, Rarity, StaticData, TappableConfigView, TappablesError};
use crate::ids::is_hyphenated_uuid_text;
use crate::tiles::{lemma_tile_key_injective, spec_tile_key, tile_key, ActiveTile};
use std::collections::HashMap;
use vstd::prelude::*;

verus! {

broadcast use vstd::std_specs::hash::group_hash_axioms;

pub const SPAWN_INTERVAL_MS: u64 = 15 * 1000;

pub open spec fn clock_gap(time: int, now: int) -> int {
    if time < now { now - time } else { 0 }
}

/// The spawn clock after catching up with `now`: it advances by whole spawn
/// intervals, counting them, until it is no earlier than `now`.
pub open spec fn spec_advance_spawn_clock(time: int, index: int, now: int) -> (int, int)
    decreases clock_gap(time, now),
{
    if time >= now {
        (time, index)
    } else {
        spec_advance_spawn_clock(time + 15000, index + 1, now)
    }
}

/// The caught-up clock is the first cycle boundary at or after `now`, and the
/// cycle index grows by the number of intervals it moved.
pub proof fn lemma_advance_spawn_clock(time: int, index: int, now: int)
    ensures
        ({
            let (t, i) = spec_advance_spawn_clock(time, index, now);
            &&& t >= time
            &&& t >= now
            &&& time < now ==> t < now + SPAWN_INTERVAL_MS
            &&& t == time + (i - index) * SPAWN_INTERVAL_MS
            &&& i >= index
        }),
    decreases clock_gap(time, now),
{
    if time < now {
        lemma_advance_spawn_clock(time + 15000, index + 1, now);
        let (t, i) = spec_advance_spawn_clock(time, index, now);
        assert(t == time + (i - index) * 15000) by (nonlinear_arith)
            requires
                t == time + 15000 + (i - (index + 1)) * 15000;
    }
}

fn advance_spawn_clock(spawn_cycle_time: u64, spawn_cycle_index: u32, now: u64) -> (advanced: (u64, u32))
    requires
        spec_advance_spawn_clock(spawn_cycle_time as int, spawn_cycle_index as int, now as int).0 <= u64::MAX,
        spec_advance_spawn_clock(spawn_cycle_time as int, spawn_cycle_index as int, now as int).1 <= u32::MAX,
    ensures
        (advanced.0 as int, advanced.1 as int) == spec_advance_spawn_clock(
            spawn_cycle_time as int,
            spawn_cycle_index as int,
            now as int,
        ),
{
    let ghost target = spec_advance_spawn_clock(spawn_cycle_time as int, spawn_cycle_index as int, now as int);
    let mut time = spawn_cycle_time;
    let mut index = spawn_cycle_index;
    while time < now
        invariant
            spec_advance_spawn_clock(time as int, index as int, now as int) == target,
            target.0 <= u64::MAX,
            target.1 <= u32::MAX,
        decreases clock_gap(time as int, now as int),
    {
        proof {
            lemma_advance_spawn_clock(time + 15000, index + 1, now as int);
        }
        time = time + SPAWN_INTERVAL_MS;
        index = index + 1;
    }
    (time, index)
}

pub struct SpawnBatch {
    pub tappables: Vec<Tappable>,
    pub encounters: Vec<Encounter>,
}

pub open spec fn tappable_ends_by(t: Tappable, cutoff: u64) -> bool {
    t.spawn_time + t.valid_for >= cutoff
}

pub open spec fn encounter_ends_by(e: Encounter, cutoff: u64) -> bool {
    e.spawn_time + e.valid_for >= cutoff
}

/// The tappables, in order, that are still valid at `cutoff`.
pub open spec fn valid_tappables(s: Seq<Tappable>, cutoff: u64) -> Seq<Tappable>
    decreases s.len(),
{
    if s.len() == 0 {
        s
    } else if tappable_ends_by(s.last(), cutoff) {
        valid_tappables(s.drop_last(), cutoff).push(s.last())
    } else {
        valid_tappables(s.drop_last(), cutoff)
    }
}

/// The encounters, in order, that are still valid at `cutoff`.
pub open spec fn valid_encounters(s: Seq<Encounter>, cutoff: u64) -> Seq<Encounter>
    decreases s.len(),
{
    if s.len() == 0 {
        s
    } else if encounter_ends_by(s.last(), cutoff) {
        valid_encounters(s.drop_last(), cutoff).push(s.last())
    } else {
        valid_encounters(s.drop_last(), cutoff)
    }
}

/// How many tappables of `s` lie on tile `(tile_x, tile_y)`.
pub open spec fn tappables_on_tile(s: Seq<Tappable>, tile_x: i32, tile_y: i32) -> int
    decreases s.len(),
{
    if s.len() == 0 {
        0
    } else {
        tappables_on_tile(s.drop_last(), tile_x, tile_y) + if s.last().tile_x == tile_x && s.last().tile_y == tile_y {
            1int
        } else {
            0int
        }
    }
}

proof fn lemma_on_tile_append(a: Seq<Tappable>, b: Seq<Tappable>, tile_x: i32, tile_y: i32)
    ensures
        tappables_on_tile(a + b, tile_x, tile_y) == tappables_on_tile(a, tile_x, tile_y) + tappables_on_tile(b, tile_x, tile_y),
    decreases b.len(),
{
    if b.len() == 0 {
        assert(a + b =~= a);
    } else {
        lemma_on_tile_append(a, b.drop_last(), tile_x, tile_y);
        assert((a + b).drop_last() =~= a + b.drop_last());
        assert((a + b).last() == b.last());
    }
}

/// Tappables that all lie on one tile count fully there and not at all elsewhere.
proof fn lemma_on_one_tile(s: Seq<Tappable>, tile_x: i32, tile_y: i32)
    requires
        forall|n: int| 0 <= n < s.len() ==> (#[trigger] s[n]).tile_x == tile_x && s[n].tile_y == tile_y,
    ensures
        tappables_on_tile(s, tile_x, tile_y) == s.len(),
        forall|x: i32, y: i32| (x != tile_x || y != tile_y) ==> #[trigger] tappables_on_tile(s, x, y) == 0,
    decreases s.len(),
{
    if s.len() > 0 {
        assert forall|n: int| 0 <= n < s.len() - 1 implies (#[trigger] s.drop_last()[n]).tile_x == tile_x
            && s.drop_last()[n].tile_y == tile_y by {
            assert(s.drop_last()[n] == s[n]);
        }
        lemma_on_one_tile(s.drop_last(), tile_x, tile_y);
        assert(s.last() == s[s.len() - 1]);
        assert forall|x: i32, y: i32| (x != tile_x || y != tile_y) implies #[trigger] tappables_on_tile(s, x, y) == 0 by {
            assert(tappables_on_tile(s.drop_last(), x, y) == 0);
        }
    }
}

proof fn lemma_on_tile_member(s: Seq<Tappable>, n: int, tile_x: i32, tile_y: i32)
    requires
        0 <= n < s.len(),
        s[n].tile_x == tile_x,
        s[n].tile_y == tile_y,
    ensures
        tappables_on_tile(s, tile_x, tile_y) >= 1,
    decreases s.len(),
{
    if n < s.len() - 1 {
        assert(s.drop_last()[n] == s[n]);
        lemma_on_tile_member(s.drop_last(), n, tile_x, tile_y);
        lemma_on_tile_nonnegative(s, tile_x, tile_y);
    } else {
        lemma_on_tile_nonnegative(s.drop_last(), tile_x, tile_y);
    }
}

proof fn lemma_on_tile_nonnegative(s: Seq<Tappable>, tile_x: i32, tile_y: i32)
    ensures
        tappables_on_tile(s, tile_x, tile_y) >= 0,
    decreases s.len(),
{
    if s.len() > 0 {
        lemma_on_tile_nonnegative(s.drop_last(), tile_x, tile_y);
    }
}

proof fn lemma_on_tile_valid(s: Seq<Tappable>, cutoff: u64, tile_x: i32, tile_y: i32)
    ensures
        tappables_on_tile(valid_tappables(s, cutoff), tile_x, tile_y) <= tappables_on_tile(s, tile_x, tile_y),
        0 <= tappables_on_tile(valid_tappables(s, cutoff), tile_x, tile_y),
    decreases s.len(),
{
    if s.len() > 0 {
        lemma_on_tile_valid(s.drop_last(), cutoff, tile_x, tile_y);
        let rest = valid_tappables(s.drop_last(), cutoff);
        if tappable_ends_by(s.last(), cutoff) {
            assert(rest.push(s.last()).drop_last() =~= rest);
            assert(rest.push(s.last()).last() == s.last());
        }
    }
}

/// Keeps, in order, the spawns that have not ended before `cutoff_time`.
fn retain_valid_spawns(batch: &mut SpawnBatch, cutoff_time: u64)
    requires
        forall|n: int| 0 <= n < old(batch).tappables@.len() ==>
            (#[trigger] old(batch).tappables@[n]).spawn_time + old(batch).tappables@[n].valid_for <= u64::MAX,
        forall|n: int| 0 <= n < old(batch).encounters@.len() ==>
            (#[trigger] old(batch).encounters@[n]).spawn_time + old(batch).encounters@[n].valid_for <= u64::MAX,
    ensures
        final(batch).tappables@ == valid_tappables(old(batch).tappables@, cutoff_time),
        final(batch).encounters@ == valid_encounters(old(batch).encounters@, cutoff_time),
{
    let ghost given = batch.tappables@;
    let ghost encounters = batch.encounters@;
    assert(given.len() == batch.tappables.len());
    let mut kept: Vec<Tappable> = Vec::new();
    let mut n: usize = 0;
    while batch.tappables.len() > 0
        invariant
            n <= given.len(),
            given == old(batch).tappables@,
            given.len() <= usize::MAX,
            batch.encounters@ == encounters,
            encounters == old(batch).encounters@,
            forall|m: int| 0 <= m < encounters.len() ==>
                (#[trigger] encounters[m]).spawn_time + encounters[m].valid_for <= u64::MAX,
            batch.tappables@ == given.skip(n as int),
            kept@ == valid_tappables(given.take(n as int), cutoff_time),
            forall|m: int| 0 <= m < given.len() ==>
                (#[trigger] given[m]).spawn_time + given[m].valid_for <= u64::MAX,
        decreases batch.tappables@.len(),
    {
        assert(n < given.len());
        let tappable = batch.tappables.remove(0);
        proof {
            assert(given[n as int] == tappable);
            assert(given.take(n as int + 1).drop_last() =~= given.take(n as int));
            assert(given.skip(n as int + 1) =~= given.skip(n as int).subrange(1, given.skip(n as int).len() as int));
        }
        if tappable.spawn_time + tappable.valid_for >= cutoff_time {
            kept.push(tappable);
        }
        n = n + 1;
    }
    proof {
        assert(given.take(n as int) =~= given);
    }
    batch.tappables = kept;
    let ghost given = batch.encounters@;
    let ghost tappables = batch.tappables@;
    assert(given.len() == batch.encounters.len());
    let mut kept: Vec<Encounter> = Vec::new();
    let mut n: usize = 0;
    while batch.encounters.len() > 0
        invariant
            n <= given.len(),
            given == old(batch).encounters@,
            given.len() <= usize::MAX,
            batch.tappables@ == tappables,
            tappables == valid_tappables(old(batch).tappables@, cutoff_time),
            batch.encounters@ == given.skip(n as int),
            kept@ == valid_encounters(given.take(n as int), cutoff_time),
            forall|m: int| 0 <= m < given.len() ==>
                (#[trigger] given[m]).spawn_time + given[m].valid_for <= u64::MAX,
        decreases batch.encounters@.len(),
    {
        assert(n < given.len());
        let encounter = batch.encounters.remove(0);
        proof {
            assert(given[n as int] == encounter);
            assert(given.take(n as int + 1).drop_last() =~= given.take(n as int));
            assert(given.skip(n as int + 1) =~= given.skip(n as int).subrange(1, given.skip(n as int).len() as int));
        }
        if encounter.spawn_time + encounter.valid_for >= cutoff_time {
            kept.push(encounter);
        }
        n = n + 1;
    }
    proof {
        assert(given.take(n as int) =~= given);
    }
    batch.encounters = kept;
}

/// Each encounter's duration, in milliseconds, is at most the longest one.
proof fn lemma_duration_at_most_max(configs: Seq<EncounterConfigView>, i: int)
    requires
        0 <= i < configs.len(),
    ensures
        configs[i].duration * 1000 <= spec_max_duration_ms(configs),
    decreases configs.len(),
{
    if i < configs.len() - 1 {
        lemma_duration_at_most_max(configs.drop_last(), i);
    }
}

/// The number of spawn intervals that the longest-lived spawn spans, plus one,
/// truncated to `u32` as the conversion does.
pub open spec fn spec_lifetime_intervals(max_encounter_duration_ms: int) -> u32 {
    let tappable_lifetime = MAX_TAPPABLE_DELAY_MS + MAX_TAPPABLE_DURATION_MS + GRACE_PERIOD_MS;
    let encounter_lifetime = MAX_ENCOUNTER_DELAY_MS + max_encounter_duration_ms + GRACE_PERIOD_MS;
    let lifetime = if tappable_lifetime >= encounter_lifetime { tappable_lifetime } else { encounter_lifetime };
    (lifetime / SPAWN_INTERVAL_MS as int + 1) as u32
}

/// The spawn cycle in which a tile last spawned; zero for a tile that never did.
pub open spec fn last_cycle(last: Map<i64, u32>, key: i64) -> int {
    if last.contains_key(key) { last[key] as int } else { 0 }
}

/// How many cycles a tile catches up on at cycle `index`: the ones since its
/// last spawn, at most `max`.
pub open spec fn tile_cycles(last: Map<i64, u32>, tile: ActiveTile, index: int, max: int) -> int {
    cycles_at(last, tile.tile_x, tile.tile_y, index, max)
}

pub open spec fn cycles_at(last: Map<i64, u32>, tile_x: i32, tile_y: i32, index: int, max: int) -> int {
    let missed = index - last_cycle(last, spec_tile_key(tile_x, tile_y));
    if missed < max { missed } else { max }
}

/// Catching up every tile is free of underflow: no tile's last cycle is ahead
/// of `index`, and every cycle time to replay is not before time zero.
pub open spec fn cycles_fit(last: Map<i64, u32>, tiles: Seq<ActiveTile>, time: int, index: int, max: int) -> bool {
    forall|j: int|
        0 <= j < tiles.len() ==> {
            &&& last_cycle(last, spec_tile_key((#[trigger] tiles[j]).tile_x, tiles[j].tile_y)) <= index
            &&& tile_cycles(last, tiles[j], index, max) == 0
                || time >= SPAWN_INTERVAL_MS * (tile_cycles(last, tiles[j], index, max) - 1)
        }
}

/// `last` after recording cycle `index` for every tile in `tiles`.
pub open spec fn stamped(last: Map<i64, u32>, tiles: Seq<ActiveTile>, index: u32) -> Map<i64, u32> {
    last.union_prefer_right(Map::new(|k: i64| tile_listed(tiles, k), |k: i64| index))
}

pub open spec fn key_of(tile: ActiveTile) -> i64 {
    spec_tile_key(tile.tile_x, tile.tile_y)
}

/// Some tile of `tiles` is stored under `key`.
pub open spec fn tile_listed(tiles: Seq<ActiveTile>, key: i64) -> bool {
    exists|j: int| 0 <= j < tiles.len() && #[trigger] key_of(tiles[j]) == key
}

/// The start of the cycle `m` intervals before the one at `time`.
pub open spec fn cycle_start(time: int, m: int) -> u64 {
    (time - SPAWN_INTERVAL_MS * m) as u64
}

/// A tappable spawned on `tile` in one of the `cycles` cycles that end at `time`.
pub open spec fn tappable_in_cycles(
    t: Tappable,
    configs: Seq<TappableConfigView>,
    catalog: Seq<(Seq<char>, Rarity)>,
    tile_x: i32,
    tile_y: i32,
    time: int,
    cycles: int,
) -> bool {
    exists|m: int|
        0 <= m < cycles && SPAWN_INTERVAL_MS * m <= time && #[trigger] spawned_tappable(
            t,
            configs,
            catalog,
            tile_x,
            tile_y,
            cycle_start(time, m),
        )
}

/// An encounter spawned on `tile` in one of the `cycles` cycles that end at `time`.
pub open spec fn encounter_in_cycles(
    e: Encounter,
    configs: Seq<EncounterConfigView>,
    tile_x: i32,
    tile_y: i32,
    time: int,
    cycles: int,
) -> bool {
    exists|m: int|
        0 <= m < cycles && SPAWN_INTERVAL_MS * m <= time && #[trigger] spawned_encounter(
            e,
            configs,
            tile_x,
            tile_y,
            cycle_start(time, m),
        )
}

proof fn lemma_valid_tappables_members(s: Seq<Tappable>, cutoff: u64, x: Tappable)
    requires
        valid_tappables(s, cutoff).contains(x),
    ensures
        s.contains(x),
        tappable_ends_by(x, cutoff),
    decreases s.len(),
{
    if s.len() > 0 {
        let rest = valid_tappables(s.drop_last(), cutoff);
        if tappable_ends_by(s.last(), cutoff) && x == s.last() {
            assert(s[s.len() - 1] == x);
        } else {
            if tappable_ends_by(s.last(), cutoff) {
                let n = choose|n: int| 0 <= n < rest.push(s.last()).len() && rest.push(s.last())[n] == x;
                assert(rest[n] == x);
            }
            lemma_valid_tappables_members(s.drop_last(), cutoff, x);
            let n = choose|n: int| 0 <= n < s.drop_last().len() && s.drop_last()[n] == x;
            assert(s[n] == x);
        }
    }
}

proof fn lemma_valid_tappables_keep(s: Seq<Tappable>, cutoff: u64, x: Tappable)
    requires
        s.contains(x),
        tappable_ends_by(x, cutoff),
    ensures
        valid_tappables(s, cutoff).contains(x),
    decreases s.len(),
{
    let rest = valid_tappables(s.drop_last(), cutoff);
    if s.last() == x {
        assert(rest.push(x)[rest.len() as int] == x);
    } else {
        let n = choose|n: int| 0 <= n < s.len() && s[n] == x;
        assert(s.drop_last()[n] == x);
        lemma_valid_tappables_keep(s.drop_last(), cutoff, x);
        if tappable_ends_by(s.last(), cutoff) {
            let k = choose|k: int| 0 <= k < rest.len() && rest[k] == x;
            assert(rest.push(s.last())[k] == x);
        }
    }
}

/// A tappable spawned in the cycle at `time` is still valid at the start of
/// the cycle before.
proof fn lemma_cycle_tappable_valid(
    t: Tappable,
    configs: Seq<TappableConfigView>,
    catalog: Seq<(Seq<char>, Rarity)>,
    tile_x: i32,
    tile_y: i32,
    time: u64,
    cutoff: u64,
)
    requires
        spawned_tappable(t, configs, catalog, tile_x, tile_y, time),
        cutoff <= time,
    ensures
        tappable_ends_by(t, cutoff),
{
    let (i, roll) = choose|i: int, roll: int|
        #![trigger configs[i], spec_drop_set_index(configs[i].drop_sets, roll)]
        0 <= i < configs.len() && 0 <= roll < max_one(chance_total(configs[i].drop_sets)) && tappable_from(
            t,
            configs[i],
            configs[i].drop_sets[spec_drop_set_index(configs[i].drop_sets, roll)],
            catalog,
            tile_x,
            tile_y,
            time,
        );
}

proof fn lemma_valid_encounters_members(s: Seq<Encounter>, cutoff: u64, x: Encounter)
    requires
        valid_encounters(s, cutoff).contains(x),
    ensures
        s.contains(x),
        encounter_ends_by(x, cutoff),
    decreases s.len(),
{
    if s.len() > 0 {
        let rest = valid_encounters(s.drop_last(), cutoff);
        if encounter_ends_by(s.last(), cutoff) && x == s.last() {
            assert(s[s.len() - 1] == x);
        } else {
            if encounter_ends_by(s.last(), cutoff) {
                let n = choose|n: int| 0 <= n < rest.push(s.last()).len() && rest.push(s.last())[n] == x;
                assert(rest[n] == x);
            }
            lemma_valid_encounters_members(s.drop_last(), cutoff, x);
            let n = choose|n: int| 0 <= n < s.drop_last().len() && s.drop_last()[n] == x;
            assert(s[n] == x);
        }
    }
}

proof fn lemma_listed_step(tiles: Seq<ActiveTile>, j: int)
    requires
        0 <= j < tiles.len(),
    ensures
        forall|k: i64| #[trigger] tile_listed(tiles.take(j + 1), k) == (tile_listed(tiles.take(j), k)
            || k == spec_tile_key(tiles[j].tile_x, tiles[j].tile_y)),
{
    let key_j = spec_tile_key(tiles[j].tile_x, tiles[j].tile_y);
    assert forall|k: i64| #[trigger] tile_listed(tiles.take(j + 1), k) == (tile_listed(tiles.take(j), k) || k == key_j) by {
        if tile_listed(tiles.take(j + 1), k) {
            let i = choose|i: int| 0 <= i < tiles.take(j + 1).len() && #[trigger] key_of(tiles.take(j + 1)[i]) == k;
            if i < j {
                assert(tiles.take(j)[i] == tiles.take(j + 1)[i]);
                assert(key_of(tiles.take(j)[i]) == k);
            }
        }
        if tile_listed(tiles.take(j), k) {
            let i = choose|i: int| 0 <= i < tiles.take(j).len() && #[trigger] key_of(tiles.take(j)[i]) == k;
            assert(tiles.take(j + 1)[i] == tiles.take(j)[i]);
            assert(key_of(tiles.take(j + 1)[i]) == k);
        }
        if k == key_j {
            assert(tiles.take(j + 1)[j] == tiles[j]);
            assert(key_of(tiles.take(j + 1)[j]) == k);
        }
    }
}

proof fn lemma_stamped_step(last: Map<i64, u32>, tiles: Seq<ActiveTile>, j: int, index: u32)
    requires
        0 <= j < tiles.len(),
    ensures
        stamped(last, tiles.take(j + 1), index) == stamped(last, tiles.take(j), index).insert(
            spec_tile_key(tiles[j].tile_x, tiles[j].tile_y),
            index,
        ),
{
    let a = stamped(last, tiles.take(j + 1), index);
    let b = stamped(last, tiles.take(j), index).insert(spec_tile_key(tiles[j].tile_x, tiles[j].tile_y), index);
    let key_j = spec_tile_key(tiles[j].tile_x, tiles[j].tile_y);
    assert forall|k: i64| #[trigger] tile_listed(tiles.take(j + 1), k) == (tile_listed(tiles.take(j), k) || k == key_j) by {
        if tile_listed(tiles.take(j + 1), k) {
            let i = choose|i: int| 0 <= i < tiles.take(j + 1).len() && #[trigger] key_of(tiles.take(j + 1)[i]) == k;
            if i < j {
                assert(tiles.take(j)[i] == tiles.take(j + 1)[i]);
                assert(key_of(tiles.take(j)[i]) == k);
            }
        }
        if tile_listed(tiles.take(j), k) {
            let i = choose|i: int| 0 <= i < tiles.take(j).len() && #[trigger] key_of(tiles.take(j)[i]) == k;
            assert(tiles.take(j + 1)[i] == tiles.take(j)[i]);
            assert(key_of(tiles.take(j + 1)[i]) == k);
        }
        if k == key_j {
            assert(tiles.take(j + 1)[j] == tiles[j]);
            assert(key_of(tiles.take(j + 1)[j]) == k);
        }
    }
    assert forall|k: i64| #[trigger] a.contains_key(k) == b.contains_key(k) && (a.contains_key(k) ==> a[k] == b[k]) by {
        assert(tile_listed(tiles.take(j + 1), k) == (tile_listed(tiles.take(j), k) || k == key_j));
    }
    assert(a =~= b);
}

/// A tappable spawned from one of the first `upto` tiles, in one of the cycles
/// that tile caught up on.
pub open spec fn tappable_from_tiles(
    t: Tappable,
    configs: Seq<TappableConfigView>,
    catalog: Seq<(Seq<char>, Rarity)>,
    tiles: Seq<ActiveTile>,
    upto: int,
    last: Map<i64, u32>,
    time: int,
    index: int,
    max: int,
) -> bool {
    exists|i: int| 0 <= i < upto && i < tiles.len() && #[trigger] tappable_in_cycles(
        t, configs, catalog, tiles[i].tile_x, tiles[i].tile_y, time, tile_cycles(last, tiles[i], index, max))
}

/// An encounter spawned from one of the first `upto` tiles, in one of the
/// cycles that tile caught up on.
pub open spec fn encounter_from_tiles(
    e: Encounter,
    configs: Seq<EncounterConfigView>,
    tiles: Seq<ActiveTile>,
    upto: int,
    last: Map<i64, u32>,
    time: int,
    index: int,
    max: int,
) -> bool {
    exists|i: int| 0 <= i < upto && i < tiles.len() && #[trigger] encounter_in_cycles(
        e, configs, tiles[i].tile_x, tiles[i].tile_y, time, tile_cycles(last, tiles[i], index, max))
}

/// Some tappable of `s` lies on tile `(tile_x, tile_y)` and was spawned in
/// the cycle at `time`.
pub open spec fn has_cycle_tappable(
    s: Seq<Tappable>,
    configs: Seq<TappableConfigView>,
    catalog: Seq<(Seq<char>, Rarity)>,
    tile_x: i32,
    tile_y: i32,
    time: u64,
) -> bool {
    exists|n: int| 0 <= n < s.len() && #[trigger] spawned_tappable(s[n], configs, catalog, tile_x, tile_y, time)
}

/// When there are tappable configurations, every tile of `tiles` that is due
/// a cycle at `index` has a tappable in `batch` from the cycle at `time`.
pub open spec fn due_tiles_spawned(batch: SpawnBatch, spawner: Spawner, tiles: Seq<ActiveTile>, time: int, index: int) -> bool {
    spawner.tappable_configs().len() > 0 ==> forall|j: int|
        0 <= j < tiles.len() && tile_cycles(spawner.last_cycles(), #[trigger] tiles[j], index, spawner.max_intervals() as int) > 0
            ==> has_cycle_tappable(batch.tappables@, spawner.tappable_configs(), spawner.catalog(), tiles[j].tile_x,
            tiles[j].tile_y, time as u64)
}

/// Every tile of `tiles` holds at most `MAX_TAPPABLE_COUNT` tappables of
/// `batch` for each cycle it is due at `index`, and none when it is not due.
pub open spec fn tiles_spawn_at_most(batch: SpawnBatch, spawner: Spawner, tiles: Seq<ActiveTile>, index: int) -> bool {
    forall|j: int|
        0 <= j < tiles.len() ==> tappables_on_tile(batch.tappables@, (#[trigger] tiles[j]).tile_x, tiles[j].tile_y)
            <= MAX_TAPPABLE_COUNT * tile_cycles(spawner.last_cycles(), tiles[j], index, spawner.max_intervals() as int)
}

/// No tile of `tiles` is due a cycle at `index`.
pub open spec fn no_tile_due(spawner: Spawner, tiles: Seq<ActiveTile>, index: int) -> bool {
    forall|j: int| 0 <= j < tiles.len() ==> tile_cycles(spawner.last_cycles(), #[trigger] tiles[j], index, spawner.max_intervals() as int) == 0
}

/// The spawns of a batch for `tiles` at cycle `index` and time `time`: each came
/// from one of the tiles, in one of the cycles that tile caught up on, and ends
/// no earlier than the start of the previous cycle.
pub open spec fn spawned_batch(batch: SpawnBatch, spawner: Spawner, tiles: Seq<ActiveTile>, time: int, index: int) -> bool {
    let cutoff = (if time >= SPAWN_INTERVAL_MS { time - SPAWN_INTERVAL_MS } else { 0 }) as u64;
    &&& forall|n: int| 0 <= n < batch.tappables@.len() ==> tappable_ends_by(#[trigger] batch.tappables@[n], cutoff)
        && tappable_from_tiles(batch.tappables@[n], spawner.tappable_configs(), spawner.catalog(), tiles, tiles.len() as int,
            spawner.last_cycles(), time, index, spawner.max_intervals() as int)
    &&& forall|n: int| 0 <= n < batch.encounters@.len() ==> encounter_ends_by(#[trigger] batch.encounters@[n], cutoff)
        && encounter_from_tiles(batch.encounters@[n], spawner.encounter_configs(), tiles, tiles.len() as int,
            spawner.last_cycles(), time, index, spawner.max_intervals() as int)
}

proof fn lemma_tappable_end_fits(
    t: Tappable,
    configs: Seq<TappableConfigView>,
    catalog: Seq<(Seq<char>, Rarity)>,
    tile_x: i32,
    tile_y: i32,
    time: int,
    cycles: int,
)
    requires
        tappable_in_cycles(t, configs, catalog, tile_x, tile_y, time, cycles),
        time + MAX_TAPPABLE_DELAY_MS + MAX_TAPPABLE_DURATION_MS <= u64::MAX,
    ensures
        t.spawn_time + t.valid_for <= u64::MAX,
{
    let m = choose|m: int|
        0 <= m < cycles && SPAWN_INTERVAL_MS * m <= time && #[trigger] spawned_tappable(
            t, configs, catalog, tile_x, tile_y, cycle_start(time, m));
    assert(cycle_start(time, m) <= time);
}

proof fn lemma_encounter_end_fits(
    e: Encounter,
    configs: Seq<EncounterConfigView>,
    tile_x: i32,
    tile_y: i32,
    time: int,
    cycles: int,
)
    requires
        encounter_in_cycles(e, configs, tile_x, tile_y, time, cycles),
        time + MAX_ENCOUNTER_DELAY_MS + spec_max_duration_ms(configs) <= u64::MAX,
    ensures
        e.spawn_time + e.valid_for <= u64::MAX,
{
    let m = choose|m: int|
        0 <= m < cycles && SPAWN_INTERVAL_MS * m <= time && #[trigger] spawned_encounter(
            e, configs, tile_x, tile_y, cycle_start(time, m));
    assert(cycle_start(time, m) <= time);
    let i = choose|i: int| 0 <= i < configs.len() && {
        let config = #[trigger] configs[i];
        &&& is_hyphenated_uuid_text(e.id@)
        &&& e.tile_x == tile_x
        &&& e.tile_y == tile_y
        &&& cycle_start(time, m) + MIN_ENCOUNTER_DELAY_MS <= e.spawn_time <= cycle_start(time, m) + MAX_ENCOUNTER_DELAY_MS
        &&& e.valid_for == config.duration * 1000
        &&& e.icon@ == config.icon
        &&& e.rarity == config.rarity
        &&& e.encounter_buildplate_id@ == config.encounter_buildplate_id
    };
    lemma_duration_at_most_max(configs, i);
}

pub struct Spawner {
    tappable_generator: TappableGenerator,
    encounter_generator: EncounterGenerator,
    max_tappable_lifetime_intervals: u32,
    spawn_cycle_time: u64,
    spawn_cycle_index: u32,
    last_spawn_cycle_for_tile: HashMap<i64, u32>,
}

impl Spawner {
    pub closed spec fn tappable_configs(&self) -> Seq<TappableConfigView> {
        self.tappable_generator.configs()
    }

    pub closed spec fn catalog(&self) -> Seq<(Seq<char>, Rarity)> {
        self.tappable_generator.catalog()
    }

    pub closed spec fn encounter_configs(&self) -> Seq<EncounterConfigView> {
        self.encounter_generator.configs()
    }

    pub closed spec fn max_intervals(&self) -> u32 {
        self.max_tappable_lifetime_intervals
    }

    pub closed spec fn cycle_time(&self) -> u64 {
        self.spawn_cycle_time
    }

    pub closed spec fn cycle_index(&self) -> u32 {
        self.spawn_cycle_index
    }

    /// The cycle in which each tile, by key, last spawned.
    pub closed spec fn last_cycles(&self) -> Map<i64, u32> {
        self.last_spawn_cycle_for_tile@
    }

    /// The configurations can be drawn from without a panic.
    pub closed spec fn wf(&self) -> bool {
        &&& configs_ready(self.tappable_generator.configs())
        &&& durations_fit(self.encounter_generator.configs())
        &&& self.encounter_generator.max_duration_ms() == spec_max_duration_ms(self.encounter_generator.configs())
    }

    /// The longest encounter duration of the configurations, in milliseconds.
    pub closed spec fn max_encounter_duration_ms(&self) -> int {
        spec_max_duration_ms(self.encounter_generator.configs())
    }

    /// A spawner whose clock starts at `now`, counting as if every tile had
    /// last spawned longer ago than any spawn can live.
    pub fn new(static_data: &StaticData, seed: u64, now: u64) -> (spawner: Self)
        requires
            configs_ready(static_data.tappables_config@),
            durations_fit(static_data.encounters_config@),
            spec_max_duration_ms(static_data.encounters_config@) <= u64::MAX - MAX_ENCOUNTER_DELAY_MS - GRACE_PERIOD_MS,
        ensures
            spawner.wf(),
            spawner.tappable_configs() == static_data.tappables_config@,
            spawner.catalog() == static_data.catalog@,
            spawner.encounter_configs() == static_data.encounters_config@,
            spawner.max_intervals() == spec_lifetime_intervals(spec_max_duration_ms(static_data.encounters_config@)),
            spawner.cycle_time() == now,
            spawner.cycle_index() == spawner.max_intervals(),
            spawner.last_cycles() == Map::<i64, u32>::empty(),
            spawner.max_encounter_duration_ms() == spec_max_duration_ms(static_data.encounters_config@),
    {
        let tappable_generator = TappableGenerator::new(static_data, seed);
        let encounter_generator = EncounterGenerator::new(static_data, seed ^ 0x5f5f5f5f_u64);
        let tappable_lifetime = tappable_generator.max_tappable_lifetime();
        let encounter_lifetime = encounter_generator.max_encounter_lifetime();
        let max_lifetime = if tappable_lifetime >= encounter_lifetime { tappable_lifetime } else { encounter_lifetime };
        let max_tappable_lifetime_intervals = (max_lifetime / SPAWN_INTERVAL_MS + 1) as u32;
        Spawner {
            tappable_generator,
            encounter_generator,
            max_tappable_lifetime_intervals,
            spawn_cycle_time: now,
            spawn_cycle_index: max_tappable_lifetime_intervals,
            last_spawn_cycle_for_tile: HashMap::new(),
        }
    }
    /// Replays, on tile `(tile_x, tile_y)`, the cycles it missed up to cycle
    /// `spawn_cycle_index` at `spawn_cycle_time` (at most the maximum number),
    /// appending their spawns to `batch`, and records the cycle for the tile.
    fn do_spawn_cycles_for_tile(
        &mut self,
        tile_x: i32,
        tile_y: i32,
        spawn_cycle_time: u64,
        spawn_cycle_index: u32,
        batch: &mut SpawnBatch,
    ) -> (result: Result<(), TappablesError>)
        requires
            old(self).wf(),
            last_cycle(old(self).last_cycles(), spec_tile_key(tile_x, tile_y)) <= spawn_cycle_index,
            cycles_at(old(self).last_cycles(), tile_x, tile_y, spawn_cycle_index as int, old(self).max_intervals() as int) == 0
                || spawn_cycle_time >= SPAWN_INTERVAL_MS * (cycles_at(old(self).last_cycles(), tile_x, tile_y,
                spawn_cycle_index as int, old(self).max_intervals() as int) - 1),
            spawn_cycle_time <= u64::MAX - MAX_TAPPABLE_DELAY_MS,
        ensures
            final(self).wf(),
            final(self).tappable_configs() == old(self).tappable_configs(),
            final(self).catalog() == old(self).catalog(),
            final(self).encounter_configs() == old(self).encounter_configs(),
            final(self).max_intervals() == old(self).max_intervals(),
            final(self).cycle_time() == old(self).cycle_time(),
            final(self).cycle_index() == old(self).cycle_index(),
            result is Ok ==> final(self).last_cycles() == old(self).last_cycles().insert(
                spec_tile_key(tile_x, tile_y),
                spawn_cycle_index,
            ),
            final(batch).tappables@.len() >= old(batch).tappables@.len(),
            final(batch).encounters@.len() >= old(batch).encounters@.len(),
            forall|n: int| 0 <= n < old(batch).tappables@.len() ==> #[trigger] final(batch).tappables@[n] == old(batch).tappables@[n],
            forall|n: int| 0 <= n < old(batch).encounters@.len() ==> #[trigger] final(batch).encounters@[n] == old(batch).encounters@[n],
            forall|n: int| old(batch).tappables@.len() <= n < final(batch).tappables@.len() ==> tappable_in_cycles(
                #[trigger] final(batch).tappables@[n],
                old(self).tappable_configs(),
                old(self).catalog(),
                tile_x,
                tile_y,
                spawn_cycle_time as int,
                cycles_at(old(self).last_cycles(), tile_x, tile_y, spawn_cycle_index as int, old(self).max_intervals() as int),
            ),
            forall|n: int| old(batch).encounters@.len() <= n < final(batch).encounters@.len() ==> encounter_in_cycles(
                #[trigger] final(batch).encounters@[n],
                old(self).encounter_configs(),
                tile_x,
                tile_y,
                spawn_cycle_time as int,
                cycles_at(old(self).last_cycles(), tile_x, tile_y, spawn_cycle_index as int, old(self).max_intervals() as int),
            ),
            result matches Err(e) ==> generation_error_explained(e, old(self).tappable_configs(), old(self).catalog()),
            result matches Err(e) ==> drawn_error(e, old(self).tappable_configs(), old(self).catalog()),
            all_configs_counted(old(self).tappable_configs()) && all_items_cataloged(old(self).tappable_configs(), old(self).catalog())
                ==> result is Ok,
            cycles_at(old(self).last_cycles(), tile_x, tile_y, spawn_cycle_index as int, old(self).max_intervals() as int) == 0
                ==> result is Ok && final(batch).tappables@ == old(batch).tappables@ && final(batch).encounters@
                == old(batch).encounters@,
            result is Ok && cycles_at(old(self).last_cycles(), tile_x, tile_y, spawn_cycle_index as int, old(self).max_intervals() as int) > 0
                && old(self).tappable_configs().len() > 0 ==> has_cycle_tappable(final(batch).tappables@,
                old(self).tappable_configs(), old(self).catalog(), tile_x, tile_y, spawn_cycle_time),
            tappables_on_tile(final(batch).tappables@, tile_x, tile_y) <= tappables_on_tile(old(batch).tappables@, tile_x, tile_y)
                + MAX_TAPPABLE_COUNT * cycles_at(old(self).last_cycles(), tile_x, tile_y, spawn_cycle_index as int,
                old(self).max_intervals() as int),
            forall|x: i32, y: i32| (x != tile_x || y != tile_y) ==> #[trigger] tappables_on_tile(final(batch).tappables@, x, y)
                == tappables_on_tile(old(batch).tappables@, x, y),
    {
        let key = tile_key(tile_x, tile_y);
        let last_spawn_cycle = match self.last_spawn_cycle_for_tile.get(&key) {
            Some(cycle) => *cycle,
            None => 0,
        };
        let missed = spawn_cycle_index - last_spawn_cycle;
        let cycles_to_spawn = if missed < self.max_tappable_lifetime_intervals {
            missed
        } else {
            self.max_tappable_lifetime_intervals
        };
        let ghost cycles = cycles_to_spawn as int;
        let ghost old_tappables = batch.tappables@;
        let ghost old_encounters = batch.encounters@;
        let mut index: u32 = 0;
        while index < cycles_to_spawn
            invariant
                index <= cycles_to_spawn,
                cycles == cycles_to_spawn,
                cycles == cycles_at(old(self).last_cycles(), tile_x, tile_y, spawn_cycle_index as int, old(self).max_intervals() as int),
                cycles == 0 || spawn_cycle_time >= SPAWN_INTERVAL_MS * (cycles - 1),
                spawn_cycle_time <= u64::MAX - MAX_TAPPABLE_DELAY_MS,
                self.wf(),
                self.tappable_configs() == old(self).tappable_configs(),
                self.catalog() == old(self).catalog(),
                self.encounter_configs() == old(self).encounter_configs(),
                self.max_intervals() == old(self).max_intervals(),
                self.cycle_time() == old(self).cycle_time(),
                self.cycle_index() == old(self).cycle_index(),
                self.last_cycles() == old(self).last_cycles(),
                old_tappables == old(batch).tappables@,
                old_encounters == old(batch).encounters@,
                index == 0 ==> batch.tappables@ == old_tappables && batch.encounters@ == old_encounters,
                tappables_on_tile(batch.tappables@, tile_x, tile_y) <= tappables_on_tile(old_tappables, tile_x, tile_y)
                    + MAX_TAPPABLE_COUNT * index,
                forall|x: i32, y: i32| (x != tile_x || y != tile_y) ==> #[trigger] tappables_on_tile(batch.tappables@, x, y)
                    == tappables_on_tile(old_tappables, x, y),
                index == cycles_to_spawn && cycles > 0 && old(self).tappable_configs().len() > 0 ==> has_cycle_tappable(
                    batch.tappables@, old(self).tappable_configs(), old(self).catalog(), tile_x, tile_y, spawn_cycle_time),
                batch.tappables@.len() >= old_tappables.len(),
                batch.encounters@.len() >= old_encounters.len(),
                forall|n: int| 0 <= n < old_tappables.len() ==> #[trigger] batch.tappables@[n] == old_tappables[n],
                forall|n: int| 0 <= n < old_encounters.len() ==> #[trigger] batch.encounters@[n] == old_encounters[n],
                forall|n: int| old_tappables.len() <= n < batch.tappables@.len() ==> tappable_in_cycles(
                    #[trigger] batch.tappables@[n],
                    old(self).tappable_configs(),
                    old(self).catalog(),
                    tile_x,
                    tile_y,
                    spawn_cycle_time as int,
                    cycles,
                ),
                forall|n: int| old_encounters.len() <= n < batch.encounters@.len() ==> encounter_in_cycles(
                    #[trigger] batch.encounters@[n],
                    old(self).encounter_configs(),
                    tile_x,
                    tile_y,
                    spawn_cycle_time as int,
                    cycles,
                ),
            decreases cycles_to_spawn - index,
        {
            let back = (cycles_to_spawn - index - 1) as u64;
            proof {
                assert(SPAWN_INTERVAL_MS * back <= SPAWN_INTERVAL_MS * (cycles - 1)) by (nonlinear_arith)
                    requires back <= cycles - 1;
            }
            let cycle_time = spawn_cycle_time - SPAWN_INTERVAL_MS * back;
            assert(cycle_time == cycle_start(spawn_cycle_time as int, back as int));
            let generated = self.tappable_generator.generate_tappables(tile_x, tile_y, cycle_time);
            let mut tappables = match generated {
                Ok(tappables) => tappables,
                Err(error) => {
                    return Err(error);
                },
            };
            let ghost before = batch.tappables@;
            let ghost fresh = tappables@;
            proof {
                assert forall|n: int| 0 <= n < fresh.len() implies tappable_in_cycles(
                    #[trigger] fresh[n],
                    old(self).tappable_configs(),
                    old(self).catalog(),
                    tile_x,
                    tile_y,
                    spawn_cycle_time as int,
                    cycles,
                ) by {
                    assert(spawned_tappable(fresh[n], old(self).tappable_configs(), old(self).catalog(), tile_x, tile_y,
                        cycle_start(spawn_cycle_time as int, back as int)));
                }
            }
            batch.tappables.append(&mut tappables);
            proof {
                assert(batch.tappables@ =~= before + fresh);
                assert forall|n: int| 0 <= n < fresh.len() implies (#[trigger] fresh[n]).tile_x == tile_x && fresh[n].tile_y == tile_y by {
                    assert(spawned_tappable(fresh[n], old(self).tappable_configs(), old(self).catalog(), tile_x, tile_y,
                        cycle_start(spawn_cycle_time as int, back as int)));
                }
                lemma_on_one_tile(fresh, tile_x, tile_y);
                lemma_on_tile_append(before, fresh, tile_x, tile_y);
                assert(fresh.len() <= MAX_TAPPABLE_COUNT);
                assert(MAX_TAPPABLE_COUNT * index + MAX_TAPPABLE_COUNT == MAX_TAPPABLE_COUNT * (index + 1));
                assert forall|x: i32, y: i32| (x != tile_x || y != tile_y) implies #[trigger] tappables_on_tile(batch.tappables@, x, y)
                    == tappables_on_tile(old_tappables, x, y) by {
                    lemma_on_tile_append(before, fresh, x, y);
                    assert(tappables_on_tile(before, x, y) == tappables_on_tile(old_tappables, x, y));
                }
            }
            proof {
                assert forall|n: int| old_tappables.len() <= n < batch.tappables@.len() implies tappable_in_cycles(
                    #[trigger] batch.tappables@[n],
                    old(self).tappable_configs(),
                    old(self).catalog(),
                    tile_x,
                    tile_y,
                    spawn_cycle_time as int,
                    cycles,
                ) by {
                    if n >= before.len() {
                        assert(batch.tappables@[n] == fresh[n - before.len()]);
                    } else {
                        assert(batch.tappables@[n] == before[n]);
                    }
                }
                assert forall|n: int| 0 <= n < old_tappables.len() implies #[trigger] batch.tappables@[n] == old_tappables[n] by {
                    assert(batch.tappables@[n] == before[n]);
                }
                if back == 0 && old(self).tappable_configs().len() > 0 {
                    assert(fresh.len() > 0);
                    assert(batch.tappables@[before.len() as int] == fresh[0]);
                    assert(spawned_tappable(fresh[0], old(self).tappable_configs(), old(self).catalog(), tile_x, tile_y,
                        spawn_cycle_time));
                    assert(spawned_tappable(batch.tappables@[before.len() as int], old(self).tappable_configs(),
                        old(self).catalog(), tile_x, tile_y, spawn_cycle_time));
                }
            }
            let mut encounters = self.encounter_generator.generate_encounters(tile_x, tile_y, cycle_time);
            let ghost before = batch.encounters@;
            let ghost fresh = encounters@;
            proof {
                assert forall|n: int| 0 <= n < fresh.len() implies encounter_in_cycles(
                    #[trigger] fresh[n],
                    old(self).encounter_configs(),
                    tile_x,
                    tile_y,
                    spawn_cycle_time as int,
                    cycles,
                ) by {
                    assert(spawned_encounter(fresh[n], old(self).encounter_configs(), tile_x, tile_y,
                        cycle_start(spawn_cycle_time as int, back as int)));
                }
            }
            batch.encounters.append(&mut encounters);
            proof {
                assert forall|n: int| old_encounters.len() <= n < batch.encounters@.len() implies encounter_in_cycles(
                    #[trigger] batch.encounters@[n],
                    old(self).encounter_configs(),
                    tile_x,
                    tile_y,
                    spawn_cycle_time as int,
                    cycles,
                ) by {
                    if n >= before.len() {
                        assert(batch.encounters@[n] == fresh[n - before.len()]);
                    } else {
                        assert(batch.encounters@[n] == before[n]);
                    }
                }
                assert forall|n: int| 0 <= n < old_encounters.len() implies #[trigger] batch.encounters@[n] == old_encounters[n] by {
                    assert(batch.encounters@[n] == before[n]);
                }
            }
            index = index + 1;
        }
        self.last_spawn_cycle_for_tile.insert(key, spawn_cycle_index);
        Ok(())
    }
    pub open spec fn spawn_time_fits(&self, time: int) -> bool {
        &&& time + MAX_TAPPABLE_DELAY_MS + MAX_TAPPABLE_DURATION_MS <= u64::MAX
        &&& time + MAX_ENCOUNTER_DELAY_MS + self.max_encounter_duration_ms() <= u64::MAX
    }

    /// Replays the missed cycles of every tile in `active_tiles` up to cycle
    /// `index` at `time`, then drops the spawns that ended before the previous cycle.
    fn spawn_at(&mut self, active_tiles: &[ActiveTile], time: u64, index: u32) -> (result: Result<SpawnBatch, TappablesError>)
        requires
            old(self).wf(),
            cycles_fit(old(self).last_cycles(), active_tiles@, time as int, index as int, old(self).max_intervals() as int),
            old(self).spawn_time_fits(time as int),
        ensures
            final(self).wf(),
            final(self).tappable_configs() == old(self).tappable_configs(),
            final(self).catalog() == old(self).catalog(),
            final(self).encounter_configs() == old(self).encounter_configs(),
            final(self).max_intervals() == old(self).max_intervals(),
            final(self).cycle_time() == old(self).cycle_time(),
            final(self).cycle_index() == old(self).cycle_index(),
            result matches Ok(batch) ==> spawned_batch(
                batch,
                *old(self),
                active_tiles@,
                time as int,
                index as int,
            ) && final(self).last_cycles() == stamped(old(self).last_cycles(), active_tiles@, index),
            result matches Err(e) ==> generation_error_explained(e, old(self).tappable_configs(), old(self).catalog()),
            result matches Err(e) ==> drawn_error(e, old(self).tappable_configs(), old(self).catalog()),
            all_configs_counted(old(self).tappable_configs()) && all_items_cataloged(old(self).tappable_configs(), old(self).catalog())
                ==> result is Ok,
            result matches Ok(batch) ==> due_tiles_spawned(batch, *old(self), active_tiles@, time as int, index as int),
            result matches Ok(batch) ==> tiles_spawn_at_most(batch, *old(self), active_tiles@, index as int),
            no_tile_due(*old(self), active_tiles@, index as int) ==> (result matches Ok(batch) && batch.tappables@.len() == 0
                && batch.encounters@.len() == 0),
            result is Err ==> !no_tile_due(*old(self), active_tiles@, index as int),
    {
        let ghost tiles = active_tiles@;
        let ghost last0 = self.last_cycles();
        let ghost max = self.max_intervals() as int;
        let mut batch = SpawnBatch { tappables: Vec::new(), encounters: Vec::new() };
        let mut j: usize = 0;
        while j < active_tiles.len()
            invariant
                j <= tiles.len(),
                tiles == active_tiles@,
                last0 == old(self).last_cycles(),
                max == old(self).max_intervals() as int,
                cycles_fit(last0, tiles, time as int, index as int, max),
                old(self).spawn_time_fits(time as int),
                self.wf(),
                self.tappable_configs() == old(self).tappable_configs(),
                self.catalog() == old(self).catalog(),
                self.encounter_configs() == old(self).encounter_configs(),
                self.max_intervals() == old(self).max_intervals(),
                self.cycle_time() == old(self).cycle_time(),
                self.cycle_index() == old(self).cycle_index(),
                self.last_cycles() == stamped(last0, tiles.take(j as int), index),
                forall|n: int| 0 <= n < batch.tappables@.len() ==> tappable_from_tiles(#[trigger] batch.tappables@[n],
                    old(self).tappable_configs(), old(self).catalog(), tiles, j as int, last0, time as int, index as int, max),
                forall|n: int| 0 <= n < batch.encounters@.len() ==> encounter_from_tiles(#[trigger] batch.encounters@[n],
                    old(self).encounter_configs(), tiles, j as int, last0, time as int, index as int, max),
                old(self).tappable_configs().len() > 0 ==> forall|jj: int|
                    0 <= jj < j && tile_cycles(last0, #[trigger] tiles[jj], index as int, max) > 0 ==> has_cycle_tappable(
                        batch.tappables@, old(self).tappable_configs(), old(self).catalog(), tiles[jj].tile_x, tiles[jj].tile_y, time),
                (forall|jj: int| 0 <= jj < j ==> tile_cycles(last0, #[trigger] tiles[jj], index as int, max) == 0)
                    ==> batch.tappables@.len() == 0 && batch.encounters@.len() == 0,
                forall|x: i32, y: i32| #[trigger] tappables_on_tile(batch.tappables@, x, y) <= if tile_listed(tiles.take(j as int),
                    spec_tile_key(x, y)) {
                    MAX_TAPPABLE_COUNT * cycles_at(last0, x, y, index as int, max)
                } else {
                    0
                },
            decreases tiles.len() - j,
        {
            let tile = active_tiles[j];
            let ghost key = spec_tile_key(tile.tile_x, tile.tile_y);
            let ghost current = self.last_cycles();
            proof {
                assert(tiles[j as int] == tile);
                if tile_listed(tiles.take(j as int), key) {
                    assert(current.contains_key(key) && current[key] == index);
                } else {
                    assert(last_cycle(current, key) == last_cycle(last0, key));
                }
            }
            let ghost before_t = batch.tappables@;
            let ghost before_e = batch.encounters@;
            let ghost used = cycles_at(current, tile.tile_x, tile.tile_y, index as int, max);
            proof {
                assert(used == 0 || used == tile_cycles(last0, tiles[j as int], index as int, max));
            }
            let ghost before_batch = batch;
            let step = self.do_spawn_cycles_for_tile(tile.tile_x, tile.tile_y, time, index, &mut batch);
            match step {
                Ok(()) => {},
                Err(error) => {
                    proof {
                        assert(tile_cycles(old(self).last_cycles(), tiles[j as int], index as int, max) > 0);
                    }
                    return Err(error);
                },
            }
            proof {
                if old(self).tappable_configs().len() > 0 {
                    assert forall|jj: int|
                        0 <= jj < j + 1 && tile_cycles(last0, #[trigger] tiles[jj], index as int, max) > 0 implies has_cycle_tappable(
                            batch.tappables@, old(self).tappable_configs(), old(self).catalog(), tiles[jj].tile_x, tiles[jj].tile_y, time) by {
                        let configs = old(self).tappable_configs();
                        let catalog = old(self).catalog();
                        if jj < j {
                            assert(has_cycle_tappable(before_batch.tappables@, configs, catalog, tiles[jj].tile_x, tiles[jj].tile_y, time));
                            let n = choose|n: int| 0 <= n < before_batch.tappables@.len() && #[trigger] spawned_tappable(
                                before_batch.tappables@[n], configs, catalog, tiles[jj].tile_x, tiles[jj].tile_y, time);
                            assert(batch.tappables@[n] == before_batch.tappables@[n]);
                        } else if used > 0 {
                            assert(has_cycle_tappable(batch.tappables@, configs, catalog, tile.tile_x, tile.tile_y, time));
                        } else {
                            assert(tile_listed(tiles.take(j as int), key));
                            let i = choose|i: int| 0 <= i < tiles.take(j as int).len() && #[trigger] key_of(tiles.take(j as int)[i]) == key;
                            assert(tiles.take(j as int)[i] == tiles[i]);
                            lemma_tile_key_injective(tiles[i].tile_x, tiles[i].tile_y, tile.tile_x, tile.tile_y);
                            assert(tile_cycles(last0, tiles[i], index as int, max) > 0);
                            assert(has_cycle_tappable(before_batch.tappables@, configs, catalog, tiles[i].tile_x, tiles[i].tile_y, time));
                            let n = choose|n: int| 0 <= n < before_batch.tappables@.len() && #[trigger] spawned_tappable(
                                before_batch.tappables@[n], configs, catalog, tiles[i].tile_x, tiles[i].tile_y, time);
                            assert(batch.tappables@[n] == before_batch.tappables@[n]);
                        }
                    }
                }
                if forall|jj: int| 0 <= jj < j + 1 ==> tile_cycles(last0, #[trigger] tiles[jj], index as int, max) == 0 {
                    assert(tile_cycles(last0, tiles[j as int], index as int, max) == 0);
                    assert forall|jj: int| 0 <= jj < j implies tile_cycles(last0, #[trigger] tiles[jj], index as int, max) == 0 by {}
                }
            }
            proof {
                lemma_listed_step(tiles, j as int);
                assert forall|x: i32, y: i32| #[trigger] tappables_on_tile(batch.tappables@, x, y) <= if tile_listed(
                    tiles.take(j + 1), spec_tile_key(x, y)) {
                    MAX_TAPPABLE_COUNT * cycles_at(last0, x, y, index as int, max)
                } else {
                    0
                } by {
                    assert(tile_listed(tiles.take(j + 1), spec_tile_key(x, y)) == (tile_listed(tiles.take(j as int),
                        spec_tile_key(x, y)) || spec_tile_key(x, y) == key));
                    assert(tappables_on_tile(before_t, x, y) <= if tile_listed(tiles.take(j as int), spec_tile_key(x, y)) {
                        MAX_TAPPABLE_COUNT * cycles_at(last0, x, y, index as int, max)
                    } else {
                        0
                    });
                    if x == tile.tile_x && y == tile.tile_y {
                        if tile_listed(tiles.take(j as int), key) {
                            assert(used == 0);
                        } else {
                            assert(used == cycles_at(last0, x, y, index as int, max));
                        }
                    } else {
                        if spec_tile_key(x, y) == key {
                            lemma_tile_key_injective(x, y, tile.tile_x, tile.tile_y);
                        }
                        assert(tappables_on_tile(batch.tappables@, x, y) == tappables_on_tile(before_t, x, y));
                    }
                }
            }
            proof {
                lemma_stamped_step(last0, tiles, j as int, index);
                assert(used == 0 || used == tile_cycles(last0, tiles[j as int], index as int, max));
                assert forall|n: int| 0 <= n < batch.tappables@.len() implies tappable_from_tiles(#[trigger] batch.tappables@[n],
                    old(self).tappable_configs(), old(self).catalog(), tiles, j + 1, last0, time as int, index as int, max) by {
                    if n < before_t.len() {
                        assert(batch.tappables@[n] == before_t[n]);
                        assert(tappable_from_tiles(before_t[n], old(self).tappable_configs(), old(self).catalog(), tiles, j as int, last0, time as int, index as int, max));
                    } else {
                        assert(tappable_in_cycles(batch.tappables@[n], old(self).tappable_configs(), old(self).catalog(),
                            tile.tile_x, tile.tile_y, time as int, used));
                        assert(tappable_in_cycles(batch.tappables@[n], old(self).tappable_configs(), old(self).catalog(),
                            tiles[j as int].tile_x, tiles[j as int].tile_y, time as int, tile_cycles(last0, tiles[j as int], index as int, max)));
                    }
                }
                assert forall|n: int| 0 <= n < batch.encounters@.len() implies encounter_from_tiles(#[trigger] batch.encounters@[n],
                    old(self).encounter_configs(), tiles, j + 1, last0, time as int, index as int, max) by {
                    if n < before_e.len() {
                        assert(batch.encounters@[n] == before_e[n]);
                        assert(encounter_from_tiles(before_e[n], old(self).encounter_configs(), tiles, j as int, last0, time as int, index as int, max));
                    } else {
                        assert(encounter_in_cycles(batch.encounters@[n], old(self).encounter_configs(),
                            tile.tile_x, tile.tile_y, time as int, used));
                        assert(encounter_in_cycles(batch.encounters@[n], old(self).encounter_configs(),
                            tiles[j as int].tile_x, tiles[j as int].tile_y, time as int, tile_cycles(last0, tiles[j as int], index as int, max)));
                    }
                }
            }
            j = j + 1;
        }
        proof {
            assert forall|n: int| 0 <= n < batch.tappables@.len() implies
                (#[trigger] batch.tappables@[n]).spawn_time + batch.tappables@[n].valid_for <= u64::MAX by {
                assert(tappable_from_tiles(batch.tappables@[n], old(self).tappable_configs(), old(self).catalog(),
                    tiles, j as int, last0, time as int, index as int, max));
                let i = choose|i: int| 0 <= i < j && i < tiles.len() && #[trigger] tappable_in_cycles(
                    batch.tappables@[n], old(self).tappable_configs(), old(self).catalog(),
                    tiles[i].tile_x, tiles[i].tile_y, time as int, tile_cycles(last0, tiles[i], index as int, max));
                lemma_tappable_end_fits(batch.tappables@[n], old(self).tappable_configs(), old(self).catalog(),
                    tiles[i].tile_x, tiles[i].tile_y, time as int, tile_cycles(last0, tiles[i], index as int, max));
            }
            assert forall|n: int| 0 <= n < batch.encounters@.len() implies
                (#[trigger] batch.encounters@[n]).spawn_time + batch.encounters@[n].valid_for <= u64::MAX by {
                assert(encounter_from_tiles(batch.encounters@[n], old(self).encounter_configs(),
                    tiles, j as int, last0, time as int, index as int, max));
                let i = choose|i: int| 0 <= i < j && i < tiles.len() && #[trigger] encounter_in_cycles(
                    batch.encounters@[n], old(self).encounter_configs(),
                    tiles[i].tile_x, tiles[i].tile_y, time as int, tile_cycles(last0, tiles[i], index as int, max));
                lemma_encounter_end_fits(batch.encounters@[n], old(self).encounter_configs(),
                    tiles[i].tile_x, tiles[i].tile_y, time as int, tile_cycles(last0, tiles[i], index as int, max));
            }
        }
        let ghost unfiltered = batch;
        let cutoff_time = if time >= SPAWN_INTERVAL_MS { time - SPAWN_INTERVAL_MS } else { 0 };
        retain_valid_spawns(&mut batch, cutoff_time);
        proof {
            assert forall|n: int| 0 <= n < batch.tappables@.len() implies tappable_ends_by(#[trigger] batch.tappables@[n], cutoff_time)
                && tappable_from_tiles(batch.tappables@[n], old(self).tappable_configs(), old(self).catalog(),
                    tiles, tiles.len() as int, last0, time as int, index as int, max) by {
                assert(valid_tappables(unfiltered.tappables@, cutoff_time).contains(batch.tappables@[n]));
                lemma_valid_tappables_members(unfiltered.tappables@, cutoff_time, batch.tappables@[n]);
                let m = choose|m: int| 0 <= m < unfiltered.tappables@.len() && unfiltered.tappables@[m] == batch.tappables@[n];
                assert(tappable_from_tiles(unfiltered.tappables@[m], old(self).tappable_configs(), old(self).catalog(),
                    tiles, j as int, last0, time as int, index as int, max));
            }
            assert forall|n: int| 0 <= n < batch.encounters@.len() implies encounter_ends_by(#[trigger] batch.encounters@[n], cutoff_time)
                && encounter_from_tiles(batch.encounters@[n], old(self).encounter_configs(),
                    tiles, tiles.len() as int, last0, time as int, index as int, max) by {
                assert(valid_encounters(unfiltered.encounters@, cutoff_time).contains(batch.encounters@[n]));
                lemma_valid_encounters_members(unfiltered.encounters@, cutoff_time, batch.encounters@[n]);
                let m = choose|m: int| 0 <= m < unfiltered.encounters@.len() && unfiltered.encounters@[m] == batch.encounters@[n];
                assert(encounter_from_tiles(unfiltered.encounters@[m], old(self).encounter_configs(),
                    tiles, j as int, last0, time as int, index as int, max));
            }
            assert(tiles.take(j as int) =~= tiles);
            assert forall|jj: int| 0 <= jj < tiles.len() implies tappables_on_tile(batch.tappables@, (#[trigger] tiles[jj]).tile_x,
                tiles[jj].tile_y) <= MAX_TAPPABLE_COUNT * tile_cycles(last0, tiles[jj], index as int, max) by {
                let x = tiles[jj].tile_x;
                let y = tiles[jj].tile_y;
                lemma_on_tile_valid(unfiltered.tappables@, cutoff_time, x, y);
                assert(key_of(tiles[jj]) == spec_tile_key(x, y));
                assert(tile_listed(tiles, spec_tile_key(x, y)));
                assert(tappables_on_tile(unfiltered.tappables@, x, y) <= MAX_TAPPABLE_COUNT * cycles_at(last0, x, y, index as int, max));
            }
            if old(self).tappable_configs().len() > 0 {
                assert forall|jj: int|
                    0 <= jj < tiles.len() && tile_cycles(last0, #[trigger] tiles[jj], index as int, max) > 0 implies has_cycle_tappable(
                        batch.tappables@, old(self).tappable_configs(), old(self).catalog(), tiles[jj].tile_x, tiles[jj].tile_y, time) by {
                    let configs = old(self).tappable_configs();
                    let catalog = old(self).catalog();
                    assert(has_cycle_tappable(unfiltered.tappables@, configs, catalog, tiles[jj].tile_x, tiles[jj].tile_y, time));
                    let n = choose|n: int| 0 <= n < unfiltered.tappables@.len() && #[trigger] spawned_tappable(
                        unfiltered.tappables@[n], configs, catalog, tiles[jj].tile_x, tiles[jj].tile_y, time);
                    let t = unfiltered.tappables@[n];
                    lemma_cycle_tappable_valid(t, configs, catalog, tiles[jj].tile_x, tiles[jj].tile_y, time, cutoff_time);
                    assert(unfiltered.tappables@.contains(t));
                    lemma_valid_tappables_keep(unfiltered.tappables@, cutoff_time, t);
                    let k = choose|k: int| 0 <= k < batch.tappables@.len() && batch.tappables@[k] == t;
                    assert(spawned_tappable(batch.tappables@[k], configs, catalog, tiles[jj].tile_x, tiles[jj].tile_y, time));
                }
            }
        }
        Ok(batch)
    }

    /// The spawn clock caught up with `now`.
    pub open spec fn advanced(&self, now: u64) -> (int, int) {
        spec_advance_spawn_clock(self.cycle_time() as int, self.cycle_index() as int, now as int)
    }

    /// Spawning for `tiles` at `now` is free of overflow and underflow.
    pub open spec fn can_spawn(&self, tiles: Seq<ActiveTile>, now: u64) -> bool {
        let (time, index) = self.advanced(now);
        &&& self.wf()
        &&& index <= u32::MAX
        &&& self.spawn_time_fits(time)
        &&& cycles_fit(self.last_cycles(), tiles, time, index, self.max_intervals() as int)
    }

    /// Spawns, for every active tile, the cycles it missed up to the cycle at
    /// `now`, without moving the spawner's own clock.
    pub fn spawn_tiles(&mut self, active_tiles: &[ActiveTile], now: u64) -> (result: Result<SpawnBatch, TappablesError>)
        requires
            old(self).can_spawn(active_tiles@, now),
        ensures
            final(self).wf(),
            final(self).tappable_configs() == old(self).tappable_configs(),
            final(self).catalog() == old(self).catalog(),
            final(self).encounter_configs() == old(self).encounter_configs(),
            final(self).max_encounter_duration_ms() == old(self).max_encounter_duration_ms(),
            final(self).max_intervals() == old(self).max_intervals(),
            final(self).cycle_time() == old(self).cycle_time(),
            final(self).cycle_index() == old(self).cycle_index(),
            result matches Ok(batch) ==> spawned_batch(
                batch,
                *old(self),
                active_tiles@,
                old(self).advanced(now).0,
                old(self).advanced(now).1,
            ) && final(self).last_cycles() == stamped(old(self).last_cycles(), active_tiles@, old(self).advanced(now).1 as u32),
            result matches Err(e) ==> generation_error_explained(e, old(self).tappable_configs(), old(self).catalog()),
            result matches Err(e) ==> drawn_error(e, old(self).tappable_configs(), old(self).catalog()),
            all_configs_counted(old(self).tappable_configs()) && all_items_cataloged(old(self).tappable_configs(), old(self).catalog())
                ==> result is Ok,
            result matches Ok(batch) ==> due_tiles_spawned(batch, *old(self), active_tiles@, old(self).advanced(now).0,
                old(self).advanced(now).1),
            result matches Ok(batch) ==> tiles_spawn_at_most(batch, *old(self), active_tiles@, old(self).advanced(now).1),
            no_tile_due(*old(self), active_tiles@, old(self).advanced(now).1) ==> (result matches Ok(batch)
                && batch.tappables@.len() == 0 && batch.encounters@.len() == 0),
            result is Err ==> !no_tile_due(*old(self), active_tiles@, old(self).advanced(now).1),
    {
        proof {
            lemma_advance_spawn_clock(self.spawn_cycle_time as int, self.spawn_cycle_index as int, now as int);
        }
        let (spawn_cycle_time, spawn_cycle_index) = advance_spawn_clock(self.spawn_cycle_time, self.spawn_cycle_index, now);
        self.spawn_at(active_tiles, spawn_cycle_time, spawn_cycle_index)
    }

    /// Moves the spawner's clock to the cycle at `now`, then spawns, for every
    /// active tile, the cycles it missed.
    pub fn spawn_cycle(&mut self, active_tiles: &[ActiveTile], now: u64) -> (result: Result<SpawnBatch, TappablesError>)
        requires
            old(self).can_spawn(active_tiles@, now),
        ensures
            final(self).wf(),
            final(self).tappable_configs() == old(self).tappable_configs(),
            final(self).catalog() == old(self).catalog(),
            final(self).encounter_configs() == old(self).encounter_configs(),
            final(self).max_encounter_duration_ms() == old(self).max_encounter_duration_ms(),
            final(self).max_intervals() == old(self).max_intervals(),
            final(self).cycle_time() == old(self).advanced(now).0,
            final(self).cycle_index() == old(self).advanced(now).1,
            result matches Ok(batch) ==> spawned_batch(
                batch,
                *old(self),
                active_tiles@,
                old(self).advanced(now).0,
                old(self).advanced(now).1,
            ) && final(self).last_cycles() == stamped(old(self).last_cycles(), active_tiles@, old(self).advanced(now).1 as u32),
            result matches Err(e) ==> generation_error_explained(e, old(self).tappable_configs(), old(self).catalog()),
            result matches Err(e) ==> drawn_error(e, old(self).tappable_configs(), old(self).catalog()),
            all_configs_counted(old(self).tappable_configs()) && all_items_cataloged(old(self).tappable_configs(), old(self).catalog())
                ==> result is Ok,
            result matches Ok(batch) ==> due_tiles_spawned(batch, *old(self), active_tiles@, old(self).advanced(now).0,
                old(self).advanced(now).1),
            result matches Ok(batch) ==> tiles_spawn_at_most(batch, *old(self), active_tiles@, old(self).advanced(now).1),
            no_tile_due(*old(self), active_tiles@, old(self).advanced(now).1) ==> (result matches Ok(batch)
                && batch.tappables@.len() == 0 && batch.encounters@.len() == 0),
            result is Err ==> !no_tile_due(*old(self), active_tiles@, old(self).advanced(now).1),
    {
        proof {
            lemma_advance_spawn_clock(self.spawn_cycle_time as int, self.spawn_cycle_index as int, now as int);
        }
        let (spawn_cycle_time, spawn_cycle_index) = advance_spawn_clock(self.spawn_cycle_time, self.spawn_cycle_index, now);
        self.spawn_cycle_time = spawn_cycle_time;
        self.spawn_cycle_index = spawn_cycle_index;
        self.spawn_at(active_tiles, spawn_cycle_time, spawn_cycle_index)
    }

}


impl Spawner {
    /// Whether `new` accepts `static_data`: its tappable configurations can be
    /// drawn from and its encounter durations leave room for the delays.
    pub fn can_build(static_data: &StaticData) -> (ok: bool)
        ensures
            ok == (configs_ready(static_data.tappables_config@) && durations_fit(static_data.encounters_config@)
                && spec_max_duration_ms(static_data.encounters_config@) <= u64::MAX - MAX_ENCOUNTER_DELAY_MS
                - GRACE_PERIOD_MS),
    {
        if !configs_are_ready(&static_data.tappables_config.tappables) {
            return false;
        }
        if !durations_are_fit(&static_data.encounters_config.encounters) {
            return false;
        }
        let longest = max_duration_ms(&static_data.encounters_config.encounters);
        longest <= u64::MAX - MAX_ENCOUNTER_DELAY_MS - GRACE_PERIOD_MS
    }

    /// Whether spawning for `active_tiles` at `now` stays free of overflow, as
    /// `spawn_tiles` and `spawn_cycle` require.
    pub fn can_spawn_now(&self, active_tiles: &[ActiveTile], now: u64) -> (ok: bool)
        ensures
            self.wf() ==> ok == self.can_spawn(active_tiles@, now),
    {
        proof {
            lemma_advance_spawn_clock(self.spawn_cycle_time as int, self.spawn_cycle_index as int, now as int);
        }
        let ghost advanced = spec_advance_spawn_clock(self.spawn_cycle_time as int, self.spawn_cycle_index as int, now as int);
        let time0 = self.spawn_cycle_time as u128;
        let steps: u128 = if time0 >= now as u128 {
            0
        } else {
            (now as u128 - time0 + 14999) / 15000
        };
        proof {
            let m = advanced.1 - self.spawn_cycle_index;
            if time0 < now {
                assert(m == steps) by (nonlinear_arith)
                    requires
                        advanced.0 == time0 + m * 15000,
                        advanced.0 >= now,
                        advanced.0 < now + 15000,
                        steps == (now - time0 + 14999) / 15000,
                        time0 < now,
                ;
            }
        }
        let time = time0 + steps * 15000;
        let index = self.spawn_cycle_index as u128 + steps;
        if index > 4294967295 || time > 18446744073709551615 {
            return false;
        }
        let time = time as u64;
        let index = index as u32;
        if time > u64::MAX - MAX_TAPPABLE_DELAY_MS - MAX_TAPPABLE_DURATION_MS {
            return false;
        }
        if time as u128 + MAX_ENCOUNTER_DELAY_MS as u128 + self.encounter_generator.longest_duration_ms() as u128 > 18446744073709551615 {
            return false;
        }
        let max = self.max_tappable_lifetime_intervals;
        let mut j: usize = 0;
        assert((time as int, index as int) == self.advanced(now));
        while j < active_tiles.len()
            invariant
                j <= active_tiles@.len(),
                (time as int, index as int) == self.advanced(now),
                max == self.max_intervals(),
                forall|j2: int|
                    0 <= j2 < j ==> {
                        &&& last_cycle(self.last_cycles(), spec_tile_key((#[trigger] active_tiles@[j2]).tile_x, active_tiles@[j2].tile_y)) <= index
                        &&& tile_cycles(self.last_cycles(), active_tiles@[j2], index as int, max as int) == 0
                            || time >= SPAWN_INTERVAL_MS * (tile_cycles(self.last_cycles(), active_tiles@[j2], index as int, max as int) - 1)
                    },
            decreases active_tiles@.len() - j,
        {
            let tile = active_tiles[j];
            assert(active_tiles@[j as int] == tile);
            let key = tile_key(tile.tile_x, tile.tile_y);
            let last = match self.last_spawn_cycle_for_tile.get(&key) {
                Some(cycle) => *cycle,
                None => 0,
            };
            if last > index {
                return false;
            }
            let missed = index - last;
            let cycles = if missed < max { missed } else { max };
            if cycles != 0 && (time as u128) < 15000 * (cycles as u128 - 1) {
                return false;
            }
            j = j + 1;
        }
        true
    }
}


/// Once tiles are stamped with cycle `index`, none of them is due again at
/// that cycle: spawning for them again at the same cycle draws nothing.
pub proof fn law_stamped_tiles_are_not_due(last: Map<i64, u32>, tiles: Seq<ActiveTile>, index: u32, max: int)
    requires
        0 <= max,
    ensures
        forall|j: int| 0 <= j < tiles.len() ==> tile_cycles(stamped(last, tiles, index), #[trigger] tiles[j], index as int, max) == 0,
{
    assert forall|j: int| 0 <= j < tiles.len() implies tile_cycles(stamped(last, tiles, index), #[trigger] tiles[j], index as int, max) == 0 by {
        assert(key_of(tiles[j]) == spec_tile_key(tiles[j].tile_x, tiles[j].tile_y));
        assert(tile_listed(tiles, spec_tile_key(tiles[j].tile_x, tiles[j].tile_y)));
    }
}

/// Catching the spawn clock up first to `now1` and then to a later `now2`
/// lands where catching it up to `now2` at once does, and the cycle index it
/// reaches never moves back as `now` grows.
pub proof fn law_advance_spawn_clock_composes(time: int, index: int, now1: int, now2: int)
    requires
        now1 <= now2,
    ensures
        ({
            let (t1, i1) = spec_advance_spawn_clock(time, index, now1);
            &&& spec_advance_spawn_clock(t1, i1, now2) == spec_advance_spawn_clock(time, index, now2)
            &&& i1 <= spec_advance_spawn_clock(time, index, now2).1
        }),
    decreases clock_gap(time, now1),
{
    if time < now1 {
        law_advance_spawn_clock_composes(time + 15000, index + 1, now1, now2);
    } else {
        lemma_advance_spawn_clock(time, index, now2);
    }
}

/// With `now` non-decreasing from one spawn to the next, no tile's recorded
/// cycle is ever ahead of the clock: if every recorded cycle is at or behind
/// the cycle reached at `now1`, then after stamping `tiles` with that cycle
/// every recorded cycle is at or behind the cycle reached at `now2`.
pub proof fn law_later_spawns_find_tiles_behind_the_clock(
    last: Map<i64, u32>,
    tiles: Seq<ActiveTile>,
    time: int,
    index: int,
    now1: int,
    now2: int,
)
    requires
        now1 <= now2,
        0 <= index,
        spec_advance_spawn_clock(time, index, now1).1 <= u32::MAX,
        forall|k: i64| #[trigger] last.contains_key(k) ==> last[k] <= spec_advance_spawn_clock(time, index, now1).1,
    ensures
        forall|k: i64|
            #[trigger] stamped(last, tiles, spec_advance_spawn_clock(time, index, now1).1 as u32).contains_key(k)
                ==> stamped(last, tiles, spec_advance_spawn_clock(time, index, now1).1 as u32)[k]
                <= spec_advance_spawn_clock(time, index, now2).1,
{
    law_advance_spawn_clock_composes(time, index, now1, now2);
    lemma_advance_spawn_clock(time, index, now1);
    let i1 = spec_advance_spawn_clock(time, index, now1).1;
    let after = stamped(last, tiles, i1 as u32);
    assert(i1 as u32 == i1);
    assert forall|k: i64| #[trigger] after.contains_key(k) implies after[k] <= spec_advance_spawn_clock(time, index, now2).1 by {
        if tile_listed(tiles, k) {
            assert(after[k] == i1 as u32);
        } else {
            assert(last.contains_key(k));
        }
    }
}

/// A tile that is due exactly one cycle, when there are tappable
/// configurations, holds between one and `MAX_TAPPABLE_COUNT` tappables of a
/// batch that spawning returned for it.
pub proof fn law_one_due_cycle_spawns_one_to_three(
    batch: SpawnBatch,
    spawner: Spawner,
    tiles: Seq<ActiveTile>,
    time: int,
    index: int,
    j: int,
)
    requires
        due_tiles_spawned(batch, spawner, tiles, time, index),
        tiles_spawn_at_most(batch, spawner, tiles, index),
        spawner.tappable_configs().len() > 0,
        0 <= j < tiles.len(),
        tile_cycles(spawner.last_cycles(), tiles[j], index, spawner.max_intervals() as int) == 1,
    ensures
        1 <= tappables_on_tile(batch.tappables@, tiles[j].tile_x, tiles[j].tile_y) <= MAX_TAPPABLE_COUNT,
{
    let configs = spawner.tappable_configs();
    let catalog = spawner.catalog();
    assert(has_cycle_tappable(batch.tappables@, configs, catalog, tiles[j].tile_x, tiles[j].tile_y, time as u64));
    let n = choose|n: int| 0 <= n < batch.tappables@.len() && #[trigger] spawned_tappable(batch.tappables@[n], configs, catalog,
        tiles[j].tile_x, tiles[j].tile_y, time as u64);
    lemma_on_tile_member(batch.tappables@, n, tiles[j].tile_x, tiles[j].tile_y);
}

/// A spawner's longest encounter duration is that of its encounter configurations.
pub proof fn lemma_max_encounter_duration(spawner: Spawner)
    ensures
        spawner.max_encounter_duration_ms() == spec_max_duration_ms(spawner.encounter_configs()),
{
}

/// When `now` does not decrease, spawning again for the same tiles is
/// admitted: after a spawn of `tiles` at `now1`, whether it kept the clock
/// (`spawn_tiles`) or moved it to `now1` (`spawn_cycle`), a spawn for them at
/// `now2 >= now1` meets `can_spawn` as long as its times and cycle index fit.
pub proof fn law_later_spawns_are_admitted(before: Spawner, after: Spawner, tiles: Seq<ActiveTile>, now1: u64, now2: u64)
    requires
        before.can_spawn(tiles, now1),
        now1 <= now2,
        after.wf(),
        after.max_intervals() == before.max_intervals(),
        (after.cycle_time() == before.cycle_time() && after.cycle_index() == before.cycle_index())
            || (after.cycle_time() as int, after.cycle_index() as int) == before.advanced(now1),
        after.last_cycles() == stamped(before.last_cycles(), tiles, before.advanced(now1).1 as u32),
        after.advanced(now2).1 <= u32::MAX,
        after.spawn_time_fits(after.advanced(now2).0),
    ensures
        after.can_spawn(tiles, now2),
{
    let (t0, i0) = (before.cycle_time() as int, before.cycle_index() as int);
    let (t1, i1) = before.advanced(now1);
    lemma_advance_spawn_clock(t0, i0, now1 as int);
    law_advance_spawn_clock_composes(t0, i0, now1 as int, now2 as int);
    lemma_advance_spawn_clock(t1, i1, now2 as int);
    let (t2, i2) = after.advanced(now2);
    assert((t2, i2) == spec_advance_spawn_clock(t1, i1, now2 as int));
    assert(i1 as u32 == i1);
    let max = after.max_intervals() as int;
    let last = after.last_cycles();
    assert forall|j: int| 0 <= j < tiles.len() implies {
        &&& last_cycle(last, spec_tile_key((#[trigger] tiles[j]).tile_x, tiles[j].tile_y)) <= i2
        &&& tile_cycles(last, tiles[j], i2, max) == 0
            || t2 >= SPAWN_INTERVAL_MS * (tile_cycles(last, tiles[j], i2, max) - 1)
    } by {
        let key = spec_tile_key(tiles[j].tile_x, tiles[j].tile_y);
        assert(key_of(tiles[j]) == key);
        assert(tile_listed(tiles, key));
        assert(last_cycle(last, key) == i1);
        assert(SPAWN_INTERVAL_MS * (i2 - i1) >= SPAWN_INTERVAL_MS * (tile_cycles(last, tiles[j], i2, max) - 1)) by (nonlinear_arith)
            requires
                tile_cycles(last, tiles[j], i2, max) <= i2 - i1;
    }
}

} // verus!
