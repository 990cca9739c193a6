//! Active map tiles: the square of tiles around each player that stays
//! active for a while after the player was last seen there.
use std::collections::HashMap;
use vstd::prelude::*;
use vstd::std_specs::iter::IteratorSpec;

verus! {

broadcast use vstd::std_specs::hash::group_hash_axioms;

/// Half-width, in tiles, of the square of tiles that a player's position activates.
pub const ACTIVE_TILE_RADIUS: i32 = 3;

/// How long a tile stays active after the latest notification that touched it.
pub const ACTIVE_TILE_EXPIRY_TIME_MS: u64 = 2 * 60 * 1000;

/// The key under which a tile is stored: the x coordinate in the high
/// 32 bits and the y coordinate, reinterpreted as unsigned, in the low 32 bits.
pub open spec fn spec_tile_key(tile_x: i32, tile_y: i32) -> i64 {
    (((tile_x as i64) << 32u64) | ((tile_y as u32) as i64)) as i64
}

pub fn tile_key(tile_x: i32, tile_y: i32) -> (key: i64)
    ensures
        key == spec_tile_key(tile_x, tile_y),
{
    ((tile_x as i64) << 32u64) | (tile_y as u32 as i64)
}

/// Distinct tiles never share a key.
pub proof fn lemma_tile_key_injective(x1: i32, y1: i32, x2: i32, y2: i32)
    requires
        spec_tile_key(x1, y1) == spec_tile_key(x2, y2),
    ensures
        x1 == x2,
        y1 == y2,
{
    assert(((((x1 as i64) << 32u64) | ((y1 as u32) as i64)) as i64 == ((((x2 as i64) << 32u64)
        | ((y2 as u32) as i64)) as i64)) ==> x1 == x2 && y1 == y2) by (bit_vector);
}

#[derive(Clone, Copy, Debug, PartialEq, Eq)]
pub struct ActiveTile {
    pub tile_x: i32,
    pub tile_y: i32,
    pub first_active_time: u64,
    pub latest_active_time: u64,
}

#[derive(Debug)]
pub struct ActiveTileNotification {
    pub x: i32,
    pub y: i32,
    pub player_id: String,
}

#[derive(Debug)]
pub struct ActiveTileUpdate {
    pub active: Vec<ActiveTile>,
    pub inactive: Vec<ActiveTile>,
}

/// A tile is still active at `now` while fewer than the expiry time has passed
/// since it was last touched.
pub open spec fn is_live(tile: ActiveTile, now: u64) -> bool {
    tile.latest_active_time + ACTIVE_TILE_EXPIRY_TIME_MS > now
}

/// The tiles that survive a prune at `now`.
pub open spec fn spec_pruned(m: Map<i64, ActiveTile>, now: u64) -> Map<i64, ActiveTile> {
    m.restrict(m.dom().filter(|k: i64| is_live(m[k], now)))
}

/// The tiles that a prune at `now` removes.
pub open spec fn spec_expired(m: Map<i64, ActiveTile>, now: u64) -> Set<ActiveTile> {
    m.values().filter(|t: ActiveTile| !is_live(t, now))
}

pub open spec fn in_square(cx: i32, cy: i32, x: i32, y: i32) -> bool {
    &&& cx - ACTIVE_TILE_RADIUS <= x <= cx + ACTIVE_TILE_RADIUS
    &&& cy - ACTIVE_TILE_RADIUS <= y <= cy + ACTIVE_TILE_RADIUS
}

/// The tile `(x, y)` after being touched at `now`: it keeps its first
/// activation time if `m` holds it, and starts now otherwise.
pub open spec fn spec_marked(m: Map<i64, ActiveTile>, x: i32, y: i32, now: u64) -> ActiveTile {
    let key = spec_tile_key(x, y);
    ActiveTile {
        tile_x: x,
        tile_y: y,
        first_active_time: if m.contains_key(key) { m[key].first_active_time } else { now },
        latest_active_time: now,
    }
}

/// The 49 tiles around `(cx, cy)`, column by column, after being touched at `now`.
pub open spec fn spec_square_marked(m: Map<i64, ActiveTile>, cx: i32, cy: i32, now: u64) -> Seq<ActiveTile> {
    Seq::new(
        49,
        |i: int| spec_marked(m, (cx - 3 + i / 7) as i32, (cy - 3 + i % 7) as i32, now),
    )
}

/// Keeps, in order, the tiles whose first and latest activation coincide.
pub open spec fn newly_active(s: Seq<ActiveTile>) -> Seq<ActiveTile>
    decreases s.len(),
{
    if s.len() == 0 {
        s
    } else if s.last().first_active_time == s.last().latest_active_time {
        newly_active(s.drop_last()).push(s.last())
    } else {
        newly_active(s.drop_last())
    }
}

/// How the stored tiles after recording a player at `(cx, cy)` at `now`
/// relate to the ones before: the expired tiles are gone, every tile of the
/// square around the player is touched, and every other tile is unchanged.
pub open spec fn spec_recorded(
    before: Map<i64, ActiveTile>,
    after: Map<i64, ActiveTile>,
    cx: i32,
    cy: i32,
    now: u64,
) -> bool {
    let pruned = spec_pruned(before, now);
    &&& forall|x: i32, y: i32| #[trigger] in_square(cx, cy, x, y) ==> {
        &&& after.contains_key(spec_tile_key(x, y))
        &&& after[spec_tile_key(x, y)] == spec_marked(pruned, x, y, now)
    }
    &&& forall|k: i64| #[trigger] pruned.contains_key(k) && !in_square(cx, cy, pruned[k].tile_x, pruned[k].tile_y)
        ==> after.contains_key(k) && after[k] == pruned[k]
    &&& forall|k: i64| #[trigger] after.contains_key(k) ==> pruned.contains_key(k)
        || in_square(cx, cy, after[k].tile_x, after[k].tile_y)
}

/// Every tile of the square around a recorded player is active at the time of
/// the recording, with that time as its latest activation.
pub proof fn lemma_recorded_square_is_live(
    before: Map<i64, ActiveTile>,
    after: Map<i64, ActiveTile>,
    cx: i32,
    cy: i32,
    now: u64,
    x: i32,
    y: i32,
)
    requires
        spec_recorded(before, after, cx, cy, now),
        in_square(cx, cy, x, y),
    ensures
        after.values().filter(|t: ActiveTile| is_live(t, now)).contains(after[spec_tile_key(x, y)]),
        after[spec_tile_key(x, y)].latest_active_time == now,
        after[spec_tile_key(x, y)].tile_x == x,
        after[spec_tile_key(x, y)].tile_y == y,
{
    let k = spec_tile_key(x, y);
    assert(after.contains_key(k));
    assert(after.values().contains(after[k]));
}

/// A tile that was active before a recording and lies outside the square keeps
/// its state; a tile that had expired is gone unless the square touched it again.
pub proof fn lemma_recorded_outside_square(
    before: Map<i64, ActiveTile>,
    after: Map<i64, ActiveTile>,
    cx: i32,
    cy: i32,
    now: u64,
    k: i64,
)
    requires
        spec_recorded(before, after, cx, cy, now),
        tiles_wf(before),
        tiles_wf(after),
        before.contains_key(k),
        !in_square(cx, cy, before[k].tile_x, before[k].tile_y),
    ensures
        is_live(before[k], now) ==> after.contains_key(k) && after[k] == before[k],
        !is_live(before[k], now) ==> !after.contains_key(k),
{
    let pruned = spec_pruned(before, now);
    if is_live(before[k], now) {
        assert(pruned.contains_key(k));
    } else {
        assert(!pruned.contains_key(k));
        if after.contains_key(k) {
            lemma_tile_key_injective(after[k].tile_x, after[k].tile_y, before[k].tile_x, before[k].tile_y);
        }
    }
}

proof fn lemma_none_newly_active(s: Seq<ActiveTile>)
    requires
        forall|i: int| 0 <= i < s.len() ==> (#[trigger] s[i]).first_active_time != s[i].latest_active_time,
    ensures
        newly_active(s) == Seq::<ActiveTile>::empty(),
    decreases s.len(),
{
    if s.len() > 0 {
        assert(s[s.len() - 1].first_active_time != s[s.len() - 1].latest_active_time);
        lemma_none_newly_active(s.drop_last());
    }
}

/// Recording a player again on the same tile, later but before the tiles
/// expire, reports no tile as newly active. The one exception is a tile of the
/// square that was already stored as first active at the second time itself,
/// which the premise leaves out.
pub proof fn law_second_recording_reports_nothing_new(
    m0: Map<i64, ActiveTile>,
    m1: Map<i64, ActiveTile>,
    cx: i32,
    cy: i32,
    t1: u64,
    t2: u64,
)
    requires
        spec_recorded(m0, m1, cx, cy, t1),
        forall|x: i32, y: i32|
            in_square(cx, cy, x, y) && m0.contains_key(spec_tile_key(x, y)) ==> (#[trigger] m0[spec_tile_key(x, y)]).first_active_time
                != t2,
        t1 < t2,
        t2 < t1 + ACTIVE_TILE_EXPIRY_TIME_MS,
        i32::MIN + ACTIVE_TILE_RADIUS <= cx <= i32::MAX - ACTIVE_TILE_RADIUS,
        i32::MIN + ACTIVE_TILE_RADIUS <= cy <= i32::MAX - ACTIVE_TILE_RADIUS,
    ensures
        newly_active(spec_square_marked(spec_pruned(m1, t2), cx, cy, t2)) == Seq::<ActiveTile>::empty(),
{
    let pruned0 = spec_pruned(m0, t1);
    let pruned1 = spec_pruned(m1, t2);
    let s = spec_square_marked(pruned1, cx, cy, t2);
    assert forall|i: int| 0 <= i < s.len() implies (#[trigger] s[i]).first_active_time != s[i].latest_active_time by {
        let x = (cx - 3 + i / 7) as i32;
        let y = (cy - 3 + i % 7) as i32;
        assert(0 <= i / 7 <= 6 && 0 <= i % 7 <= 6);
        assert(in_square(cx, cy, x, y));
        let key = spec_tile_key(x, y);
        assert(m1.contains_key(key));
        assert(m1[key] == spec_marked(pruned0, x, y, t1));
        if pruned0.contains_key(key) {
            assert(m0.contains_key(key));
        }
        assert(m1[key].first_active_time != t2);
        assert(is_live(m1[key], t2));
        assert(pruned1.contains_key(key));
        assert(s[i] == spec_marked(pruned1, x, y, t2));
    }
    lemma_none_newly_active(s);
}

pub struct ActiveTiles {
    active_tiles: HashMap<i64, ActiveTile>,
}

impl View for ActiveTiles {
    type V = Map<i64, ActiveTile>;

    closed spec fn view(&self) -> Map<i64, ActiveTile> {
        self.active_tiles@
    }
}

/// Every tile is stored under its own key, and its latest activation time
/// leaves room for the expiry arithmetic.
pub open spec fn tiles_wf(m: Map<i64, ActiveTile>) -> bool {
    forall|k: i64|
        #[trigger] m.contains_key(k) ==> {
            &&& k == spec_tile_key(m[k].tile_x, m[k].tile_y)
            &&& m[k].latest_active_time <= u64::MAX - ACTIVE_TILE_EXPIRY_TIME_MS
        }
}

impl ActiveTiles {
    pub open spec fn wf(&self) -> bool {
        tiles_wf(self@)
    }

    pub fn new() -> (tiles: Self)
        ensures
            tiles.wf(),
            tiles@ == Map::<i64, ActiveTile>::empty(),
    {
        ActiveTiles { active_tiles: HashMap::new() }
    }

    /// Touches tile `(tile_x, tile_y)` at `current_time` and returns its new state.
    fn mark_tile_active(&mut self, tile_x: i32, tile_y: i32, current_time: u64) -> (tile: ActiveTile)
        requires
            old(self).wf(),
            current_time <= u64::MAX - ACTIVE_TILE_EXPIRY_TIME_MS,
        ensures
            final(self).wf(),
            tile == spec_marked(old(self)@, tile_x, tile_y, current_time),
            final(self)@ == old(self)@.insert(spec_tile_key(tile_x, tile_y), tile),
    {
        let key = tile_key(tile_x, tile_y);
        let tile = match self.active_tiles.get(&key) {
            Some(existing) => ActiveTile {
                tile_x,
                tile_y,
                first_active_time: existing.first_active_time,
                latest_active_time: current_time,
            },
            None => ActiveTile {
                tile_x,
                tile_y,
                first_active_time: current_time,
                latest_active_time: current_time,
            },
        };
        self.active_tiles.insert(key, tile);
        tile
    }

    /// Records that a player is at tile `(notification.x, notification.y)` at
    /// `current_time`: first drops the tiles that expired, then touches the
    /// 7 x 7 square of tiles around the player. Reports the tiles that became
    /// active (column by column) and the ones that expired.
    pub fn record_active_tile(&mut self, notification: ActiveTileNotification, current_time: u64) -> (update: ActiveTileUpdate)
        requires
            old(self).wf(),
            current_time <= u64::MAX - ACTIVE_TILE_EXPIRY_TIME_MS,
            i32::MIN + ACTIVE_TILE_RADIUS <= notification.x <= i32::MAX - ACTIVE_TILE_RADIUS,
            i32::MIN + ACTIVE_TILE_RADIUS <= notification.y <= i32::MAX - ACTIVE_TILE_RADIUS,
        ensures
            final(self).wf(),
            spec_recorded(old(self)@, final(self)@, notification.x, notification.y, current_time),
            update.active@ == newly_active(
                spec_square_marked(spec_pruned(old(self)@, current_time), notification.x, notification.y, current_time),
            ),
            update.inactive@.no_duplicates(),
            update.inactive@.to_set() == spec_expired(old(self)@, current_time),
    {
        let inactive = self.prune_active_tiles(current_time);
        let ghost pruned = self@;
        let cx = notification.x;
        let cy = notification.y;
        let ghost sq = spec_square_marked(pruned, cx, cy, current_time);
        let mut active: Vec<ActiveTile> = Vec::new();
        let mut dx: i32 = 0;
        while dx <= 2 * ACTIVE_TILE_RADIUS
            invariant
                0 <= dx <= 7,
                i32::MIN + 3 <= cx <= i32::MAX - 3,
                i32::MIN + 3 <= cy <= i32::MAX - 3,
                current_time <= u64::MAX - ACTIVE_TILE_EXPIRY_TIME_MS,
                tiles_wf(pruned),
                self.wf(),
                sq == spec_square_marked(pruned, cx, cy, current_time),
                forall|x: i32, y: i32| #[trigger] in_square(cx, cy, x, y) && x < cx - 3 + dx ==> {
                    &&& self@.contains_key(spec_tile_key(x, y))
                    &&& self@[spec_tile_key(x, y)] == spec_marked(pruned, x, y, current_time)
                },
                forall|k: i64| #[trigger] pruned.contains_key(k) && !(in_square(cx, cy, pruned[k].tile_x, pruned[k].tile_y)
                    && pruned[k].tile_x < cx - 3 + dx) ==> self@.contains_key(k) && self@[k] == pruned[k],
                forall|k: i64| #[trigger] self@.contains_key(k) ==> pruned.contains_key(k)
                    || (in_square(cx, cy, self@[k].tile_x, self@[k].tile_y) && self@[k].tile_x < cx - 3 + dx),
                active@ == newly_active(sq.take(dx * 7)),
            decreases 7 - dx,
        {
            let tile_x = cx - ACTIVE_TILE_RADIUS + dx;
            let mut dy: i32 = 0;
            while dy <= 2 * ACTIVE_TILE_RADIUS
                invariant
                    0 <= dx < 7,
                    0 <= dy <= 7,
                    tile_x == cx - 3 + dx,
                    i32::MIN + 3 <= cx <= i32::MAX - 3,
                    i32::MIN + 3 <= cy <= i32::MAX - 3,
                    current_time <= u64::MAX - ACTIVE_TILE_EXPIRY_TIME_MS,
                    tiles_wf(pruned),
                    self.wf(),
                    sq == spec_square_marked(pruned, cx, cy, current_time),
                    forall|x: i32, y: i32| #[trigger] in_square(cx, cy, x, y)
                        && (x < tile_x || (x == tile_x && y < cy - 3 + dy)) ==> {
                        &&& self@.contains_key(spec_tile_key(x, y))
                        &&& self@[spec_tile_key(x, y)] == spec_marked(pruned, x, y, current_time)
                    },
                    forall|k: i64| #[trigger] pruned.contains_key(k) && !(in_square(cx, cy, pruned[k].tile_x, pruned[k].tile_y)
                        && (pruned[k].tile_x < tile_x || (pruned[k].tile_x == tile_x && pruned[k].tile_y < cy - 3 + dy)))
                        ==> self@.contains_key(k) && self@[k] == pruned[k],
                    forall|k: i64| #[trigger] self@.contains_key(k) ==> pruned.contains_key(k)
                        || (in_square(cx, cy, self@[k].tile_x, self@[k].tile_y) && (self@[k].tile_x < tile_x
                        || (self@[k].tile_x == tile_x && self@[k].tile_y < cy - 3 + dy))),
                    active@ == newly_active(sq.take(dx * 7 + dy)),
                decreases 7 - dy,
            {
                let tile_y = cy - ACTIVE_TILE_RADIUS + dy;
                let ghost before = self@;
                let ghost key = spec_tile_key(tile_x, tile_y);
                proof {
                    if pruned.contains_key(key) {
                        lemma_tile_key_injective(tile_x, tile_y, pruned[key].tile_x, pruned[key].tile_y);
                    }
                    if before.contains_key(key) {
                        lemma_tile_key_injective(tile_x, tile_y, before[key].tile_x, before[key].tile_y);
                    }
                    assert(spec_marked(before, tile_x, tile_y, current_time) == spec_marked(pruned, tile_x, tile_y, current_time));
                    let idx = dx * 7 + dy;
                    assert(idx / 7 == dx && idx % 7 == dy) by (nonlinear_arith)
                        requires idx == dx * 7 + dy, 0 <= dy < 7;
                    assert(sq[idx] == spec_marked(pruned, tile_x, tile_y, current_time));
                    assert(sq.take(idx + 1).drop_last() =~= sq.take(idx));
                }
                let tile = self.mark_tile_active(tile_x, tile_y, current_time);
                if tile.first_active_time == tile.latest_active_time {
                    active.push(tile);
                }
                proof {
                    assert forall|k: i64| #[trigger] self@.contains_key(k) && k != key implies before.contains_key(k) && self@[k] == before[k] by {}
                    assert forall|k: i64| #[trigger] pruned.contains_key(k) && !(in_square(cx, cy, pruned[k].tile_x, pruned[k].tile_y)
                        && (pruned[k].tile_x < tile_x || (pruned[k].tile_x == tile_x && pruned[k].tile_y < cy - 3 + dy + 1)))
                        implies self@.contains_key(k) && self@[k] == pruned[k] by {
                        if k == key {
                            lemma_tile_key_injective(tile_x, tile_y, pruned[k].tile_x, pruned[k].tile_y);
                        }
                    }
                    assert forall|x: i32, y: i32| #[trigger] in_square(cx, cy, x, y)
                        && (x < tile_x || (x == tile_x && y < cy - 3 + dy + 1)) implies {
                        &&& self@.contains_key(spec_tile_key(x, y))
                        &&& self@[spec_tile_key(x, y)] == spec_marked(pruned, x, y, current_time)
                    } by {
                        if spec_tile_key(x, y) == key {
                            lemma_tile_key_injective(tile_x, tile_y, x, y);
                        }
                    }
                }
                dy = dy + 1;
            }
            dx = dx + 1;
        }
        proof {
            assert(sq.take(49) =~= sq);
        }
        ActiveTileUpdate { active, inactive }
    }

    /// The tiles that are still active at `current_time`, each once.
    pub fn get_active_tiles(&self, current_time: u64) -> (tiles: Vec<ActiveTile>)
        requires
            self.wf(),
        ensures
            tiles@.no_duplicates(),
            tiles@.to_set() == self@.values().filter(|t: ActiveTile| is_live(t, current_time)),
    {
        let keys = self.stored_keys();
        let mut tiles: Vec<ActiveTile> = Vec::new();
        let mut i: usize = 0;
        while i < keys.len()
            invariant
                0 <= i <= keys@.len(),
                keys@.no_duplicates(),
                keys@.to_set() == self@.dom(),
                self.wf(),
                tiles@.no_duplicates(),
                forall|t: ActiveTile|
                    #[trigger] tiles@.contains(t) <==> exists|j: int|
                        0 <= j < i && self@[#[trigger] keys@[j]] == t && is_live(t, current_time),
            decreases keys@.len() - i,
        {
            let key = keys[i];
            assert(keys@.to_set().contains(key));
            let tile = *self.active_tiles.get(&key).unwrap();
            if current_time < tile.latest_active_time + ACTIVE_TILE_EXPIRY_TIME_MS {
                proof {
                    assert forall|t: ActiveTile| tiles@.contains(t) implies t != tile by {
                        let j = choose|j: int|
                            0 <= j < i && self@[#[trigger] keys@[j]] == t && is_live(t, current_time);
                        let kj = keys@[j];
                        assert(keys@.to_set().contains(kj));
                        if t == tile {
                            assert(keys@[j] == keys@[i as int]);
                        }
                    }
                }
                let ghost before = tiles@;
                tiles.push(tile);
                proof {
                    assert forall|a: int, b: int| 0 <= a < b < tiles@.len() implies tiles@[a] != tiles@[b] by {
                        if b == before.len() {
                            assert(before.contains(tiles@[a]));
                        } else {
                            assert(before[a] == tiles@[a] && before[b] == tiles@[b]);
                        }
                    }
                    assert forall|t: ActiveTile| #[trigger] tiles@.contains(t) <==> exists|j: int|
                        0 <= j < i + 1 && self@[#[trigger] keys@[j]] == t && is_live(t, current_time) by {
                        if t == tile {
                            assert(self@[keys@[i as int]] == t);
                            assert(tiles@[before.len() as int] == t);
                        } else {
                            if tiles@.contains(t) {
                                let n = choose|n: int| 0 <= n < tiles@.len() && tiles@[n] == t;
                                assert(before[n] == t);
                                assert(before.contains(t));
                            }
                            if before.contains(t) {
                                let n = choose|n: int| 0 <= n < before.len() && before[n] == t;
                                assert(tiles@[n] == t);
                            }
                        }
                    }
                }
            } else {
                proof {
                    assert forall|t: ActiveTile| #[trigger] tiles@.contains(t) <==> exists|j: int|
                        0 <= j < i + 1 && self@[#[trigger] keys@[j]] == t && is_live(t, current_time) by {
                        if exists|j: int| 0 <= j < i + 1 && self@[#[trigger] keys@[j]] == t && is_live(t, current_time) {
                            let j = choose|j: int| 0 <= j < i + 1 && self@[#[trigger] keys@[j]] == t && is_live(t, current_time);
                            if j == i {
                                assert(false);
                            }
                        }
                    }
                }
            }
            i = i + 1;
        }
        proof {
            let live = self@.values().filter(|t: ActiveTile| is_live(t, current_time));
            assert forall|t: ActiveTile| #[trigger] tiles@.to_set().contains(t) <==> live.contains(t) by {
                if tiles@.contains(t) {
                    let j = choose|j: int| 0 <= j < i && self@[#[trigger] keys@[j]] == t && is_live(t, current_time);
                    assert(keys@.to_set().contains(keys@[j]));
                    assert(self@.values().contains(t));
                }
                if live.contains(t) {
                    let k = choose|k: i64| self@.contains_key(k) && self@[k] == t;
                    assert(keys@.to_set().contains(k));
                    let j = choose|j: int| 0 <= j < keys@.len() && keys@[j] == k;
                    assert(self@[keys@[j]] == t);
                }
            }
            assert(tiles@.to_set() =~= live);
        }
        tiles
    }

    /// The keys currently stored, each once.
    fn stored_keys(&self) -> (keys: Vec<i64>)
        ensures
            keys@.no_duplicates(),
            keys@.to_set() == self@.dom(),
    {
        let mut keys: Vec<i64> = Vec::new();
        for k in it: self.active_tiles.keys()
            invariant
                keys@.len() == it.index(),
                forall|j: int| 0 <= j < it.index() ==> keys@[j] == *it.seq()[j],
        {
            keys.push(*k);
        }
        proof {
            let rem = vstd::std_specs::hash::spec_keys_iter(&self.active_tiles).remaining();
            assert(keys@ =~= rem.unref());
        }
        keys
    }

    /// Removes the tiles that are no longer live at `current_time` and returns them.
    fn prune_active_tiles(&mut self, current_time: u64) -> (inactive: Vec<ActiveTile>)
        requires
            old(self).wf(),
        ensures
            final(self).wf(),
            final(self)@ == spec_pruned(old(self)@, current_time),
            inactive@.no_duplicates(),
            inactive@.to_set() == spec_expired(old(self)@, current_time),
    {
        let ghost old_m = self@;
        let keys = self.stored_keys();
        let mut inactive: Vec<ActiveTile> = Vec::new();
        let mut i: usize = 0;
        while i < keys.len()
            invariant
                0 <= i <= keys@.len(),
                keys@.no_duplicates(),
                keys@.to_set() == old_m.dom(),
                tiles_wf(old_m),
                forall|k: i64|
                    #[trigger] self@.contains_key(k) <==> old_m.contains_key(k) && (
                    !keys@.take(i as int).contains(k) || is_live(old_m[k], current_time)),
                forall|k: i64| #[trigger] self@.contains_key(k) ==> self@[k] == old_m[k],
                inactive@.no_duplicates(),
                forall|t: ActiveTile|
                    #[trigger] inactive@.contains(t) <==> exists|j: int|
                        0 <= j < i && old_m[#[trigger] keys@[j]] == t && !is_live(t, current_time),
            decreases keys@.len() - i,
        {
            let key = keys[i];
            assert(keys@.to_set().contains(key));
            assert(keys@.take(i as int + 1) =~= keys@.take(i as int).push(key));
            assert(!keys@.take(i as int).contains(key));
            assert(self@.contains_key(key));
            assert(old_m.contains_key(key));
            let tile = *self.active_tiles.get(&key).unwrap();
            if !(tile.latest_active_time + ACTIVE_TILE_EXPIRY_TIME_MS > current_time) {
                self.active_tiles.remove(&key);
                proof {
                    assert forall|t: ActiveTile| inactive@.contains(t) implies t != tile by {
                        let j = choose|j: int|
                            0 <= j < i && old_m[#[trigger] keys@[j]] == t && !is_live(t, current_time);
                        let kj = keys@[j];
                        assert(keys@.to_set().contains(kj));
                        assert(old_m.contains_key(kj));
                        if t == tile {
                            assert(kj == spec_tile_key(t.tile_x, t.tile_y));
                            assert(key == spec_tile_key(tile.tile_x, tile.tile_y));
                            assert(keys@[j] == keys@[i as int]);
                        }
                    }
                }
                let ghost before = inactive@;
                inactive.push(tile);
                proof {
                    assert(!before.contains(tile));
                    assert forall|a: int, b: int| 0 <= a < b < inactive@.len() implies inactive@[a] != inactive@[b] by {
                        if b == before.len() {
                            assert(before.contains(inactive@[a]));
                        } else {
                            assert(before[a] == inactive@[a] && before[b] == inactive@[b]);
                        }
                    }
                    assert forall|t: ActiveTile| #[trigger] inactive@.contains(t) <==> exists|j: int|
                        0 <= j < i + 1 && old_m[#[trigger] keys@[j]] == t && !is_live(t, current_time) by {
                        if t == tile {
                            assert(old_m[keys@[i as int]] == t);
                            assert(inactive@[before.len() as int] == t);
                        } else {
                            if inactive@.contains(t) {
                                let n = choose|n: int| 0 <= n < inactive@.len() && inactive@[n] == t;
                                assert(before[n] == t);
                                assert(before.contains(t));
                            }
                            if before.contains(t) {
                                let n = choose|n: int| 0 <= n < before.len() && before[n] == t;
                                assert(inactive@[n] == t);
                            }
                        }
                    }
                }
            } else {
                proof {
                    assert forall|t: ActiveTile| #[trigger] inactive@.contains(t) <==> exists|j: int|
                        0 <= j < i + 1 && old_m[#[trigger] keys@[j]] == t && !is_live(t, current_time) by {
                        if exists|j: int| 0 <= j < i + 1 && old_m[#[trigger] keys@[j]] == t && !is_live(t, current_time) {
                            let j = choose|j: int| 0 <= j < i + 1 && old_m[#[trigger] keys@[j]] == t && !is_live(t, current_time);
                            if j == i {
                                assert(false);
                            }
                        }
                    }
                }
            }
            proof {
                assert forall|k: i64| #[trigger] keys@.take(i as int + 1).contains(k) <==> (keys@.take(i as int).contains(k) || k == key) by {
                    if keys@.take(i as int + 1).contains(k) && k != key {
                        let n = choose|n: int| 0 <= n < i + 1 && #[trigger] keys@.take(i as int + 1)[n] == k;
                        assert(keys@.take(i as int)[n] == k);
                    }
                    if keys@.take(i as int).contains(k) {
                        let n = choose|n: int| 0 <= n < i && #[trigger] keys@.take(i as int)[n] == k;
                        assert(keys@.take(i as int + 1)[n] == k);
                    }
                    if k == key {
                        assert(keys@.take(i as int + 1)[i as int] == k);
                    }
                }
            }
            i = i + 1;
        }
        proof {
            assert(keys@.take(keys@.len() as int) =~= keys@);
            assert(self@ =~= spec_pruned(old_m, current_time));
            assert forall|t: ActiveTile| #[trigger] inactive@.to_set().contains(t) <==> spec_expired(old_m, current_time).contains(t) by {
                if inactive@.contains(t) {
                    let j = choose|j: int| 0 <= j < i && old_m[#[trigger] keys@[j]] == t && !is_live(t, current_time);
                    assert(keys@.to_set().contains(keys@[j]));
                    assert(old_m.values().contains(t));
                }
                if spec_expired(old_m, current_time).contains(t) {
                    let k = choose|k: i64| old_m.contains_key(k) && old_m[k] == t;
                    assert(keys@.to_set().contains(k));
                    let j = choose|j: int| 0 <= j < keys@.len() && keys@[j] == k;
                    assert(old_m[keys@[j]] == t);
                }
            }
            assert(inactive@.to_set() =~= spec_expired(old_m, current_time));
        }
        inactive
    }
}

proof fn lemma_newly_active_members(s: Seq<ActiveTile>, t: ActiveTile)
    ensures
        newly_active(s).contains(t) <==> s.contains(t) && t.first_active_time == t.latest_active_time,
    decreases s.len(),
{
    if s.len() > 0 {
        let init = s.drop_last();
        lemma_newly_active_members(init, t);
        let r0 = newly_active(init);
        if init.contains(t) {
            let k = choose|k: int| 0 <= k < init.len() && init[k] == t;
            assert(s[k] == t);
        }
        if s.contains(t) {
            let k = choose|k: int| 0 <= k < s.len() && s[k] == t;
            if k < s.len() - 1 {
                assert(init[k] == t);
            }
        }
        if s.last().first_active_time == s.last().latest_active_time {
            let r = r0.push(s.last());
            if r0.contains(t) {
                let k = choose|k: int| 0 <= k < r0.len() && r0[k] == t;
                assert(r[k] == t);
            }
            if r.contains(t) {
                let k = choose|k: int| 0 <= k < r.len() && r[k] == t;
                if k < r0.len() {
                    assert(r0[k] == t);
                }
            }
            assert(r[r0.len() as int] == s.last());
        }
    }
}

/// Recording a player at `(cx, cy)` at `now` reports as newly active exactly
/// the tiles at most three away from it along each axis that were not stored
/// (or were stored as first active at `now`), each with `now` as its first
/// and latest activation time.
pub proof fn law_newly_active_tiles_are_the_new_ones_around_the_player(
    m: Map<i64, ActiveTile>,
    cx: i32,
    cy: i32,
    now: u64,
    t: ActiveTile,
)
    requires
        i32::MIN + ACTIVE_TILE_RADIUS <= cx <= i32::MAX - ACTIVE_TILE_RADIUS,
        i32::MIN + ACTIVE_TILE_RADIUS <= cy <= i32::MAX - ACTIVE_TILE_RADIUS,
    ensures
        newly_active(spec_square_marked(m, cx, cy, now)).contains(t) <==> {
            &&& cx - 3 <= t.tile_x <= cx + 3
            &&& cy - 3 <= t.tile_y <= cy + 3
            &&& t.first_active_time == now
            &&& t.latest_active_time == now
            &&& m.contains_key(spec_tile_key(t.tile_x, t.tile_y)) ==> m[spec_tile_key(t.tile_x, t.tile_y)].first_active_time == now
        },
{
    let s = spec_square_marked(m, cx, cy, now);
    lemma_newly_active_members(s, t);
    if s.contains(t) {
        let i = choose|i: int| 0 <= i < s.len() && s[i] == t;
        assert(0 <= i / 7 <= 6 && 0 <= i % 7 <= 6);
    }
    if cx - 3 <= t.tile_x <= cx + 3 && cy - 3 <= t.tile_y <= cy + 3 && t.first_active_time == now && t.latest_active_time == now
        && (m.contains_key(spec_tile_key(t.tile_x, t.tile_y)) ==> m[spec_tile_key(t.tile_x, t.tile_y)].first_active_time == now) {
        let i = (t.tile_x - cx + 3) * 7 + (t.tile_y - cy + 3);
        assert(i / 7 == t.tile_x - cx + 3 && i % 7 == t.tile_y - cy + 3);
        assert(s[i] == t);
    }
}

} // verus!
