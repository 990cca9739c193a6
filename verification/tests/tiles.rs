use vienna::tiles::{tile_key, ActiveTileNotification, ActiveTiles, ACTIVE_TILE_EXPIRY_TIME_MS, ACTIVE_TILE_RADIUS};

fn notification(x: i32, y: i32, player: &str) -> ActiveTileNotification {
    ActiveTileNotification { x, y, player_id: player.to_owned() }
}

#[test]
fn active_tiles_expire() {
    let mut active_tiles = ActiveTiles::new();
    active_tiles.record_active_tile(notification(1, 1, "player-1"), 1_000);

    let active = active_tiles.get_active_tiles(1_000 + ACTIVE_TILE_EXPIRY_TIME_MS - 1);
    assert!(!active.is_empty());

    let update = active_tiles.record_active_tile(notification(10, 10, "player-2"), 1_000 + ACTIVE_TILE_EXPIRY_TIME_MS + 1);
    assert!(!update.inactive.is_empty());
}

#[test]
fn recording_marks_the_square_around_the_player() {
    let mut active_tiles = ActiveTiles::new();
    let update = active_tiles.record_active_tile(notification(100, 200, "player-1"), 5_000);
    let side = (2 * ACTIVE_TILE_RADIUS + 1) as usize;
    assert_eq!(update.active.len(), side * side);
    assert!(update.inactive.is_empty());
    for tile in &update.active {
        assert!((tile.tile_x - 100).abs() <= ACTIVE_TILE_RADIUS);
        assert!((tile.tile_y - 200).abs() <= ACTIVE_TILE_RADIUS);
        assert_eq!(tile.first_active_time, 5_000);
        assert_eq!(tile.latest_active_time, 5_000);
    }
}

#[test]
fn a_tile_touched_again_keeps_its_first_time() {
    let mut active_tiles = ActiveTiles::new();
    active_tiles.record_active_tile(notification(0, 0, "player-1"), 1_000);
    let update = active_tiles.record_active_tile(notification(0, 0, "player-1"), 2_000);
    assert!(update.active.is_empty());
    let tiles = active_tiles.get_active_tiles(2_000);
    assert_eq!(tiles.len(), 49);
    let centre = tiles.iter().find(|t| t.tile_x == 0 && t.tile_y == 0).expect("centre tile");
    assert_eq!(centre.first_active_time, 1_000);
    assert_eq!(centre.latest_active_time, 2_000);
    let moved = active_tiles.record_active_tile(notification(1, 0, "player-1"), 3_000);
    assert_eq!(moved.active.len(), 7);
    assert!(moved.active.iter().all(|t| t.tile_x == 4));
}

#[test]
fn tiles_expire_exactly_at_the_expiry_time() {
    let mut active_tiles = ActiveTiles::new();
    active_tiles.record_active_tile(notification(5, 5, "player-1"), 1_000);
    assert_eq!(active_tiles.get_active_tiles(1_000 + ACTIVE_TILE_EXPIRY_TIME_MS - 1).len(), 49);
    assert!(active_tiles.get_active_tiles(1_000 + ACTIVE_TILE_EXPIRY_TIME_MS).is_empty());
}

#[test]
fn pruned_tiles_are_reported_inactive_once() {
    let mut active_tiles = ActiveTiles::new();
    active_tiles.record_active_tile(notification(0, 0, "player-1"), 0);
    let later = ACTIVE_TILE_EXPIRY_TIME_MS + 10;
    let update = active_tiles.record_active_tile(notification(100, 100, "player-1"), later);
    assert_eq!(update.inactive.len(), 49);
    assert_eq!(update.active.len(), 49);
    let again = active_tiles.record_active_tile(notification(100, 100, "player-1"), later + 1);
    assert!(again.inactive.is_empty());
}

#[test]
fn tile_keys_pack_both_coordinates() {
    assert_eq!(tile_key(0, 0), 0);
    assert_eq!(tile_key(1, 2), (1i64 << 32) | 2);
    assert_eq!(tile_key(-1, -1), -1);
    assert_eq!(tile_key(0, -1), 0xffff_ffff);
    assert_ne!(tile_key(1, 0), tile_key(0, 1));
}
