use tile_atlas::TileAtlasBuildQueue;
use tile_atlas::TileSetSettings;

fn solid(edge: u32, px: [u8; 4]) -> Vec<u8> {
    let mut v = Vec::new();
    for _ in 0..(edge * edge) {
        v.extend_from_slice(&px);
    }
    v
}

#[test]
fn queue_completes_after_loads_and_skips() {
    // register 3 items, lock, load 2, skip 1
    let mut q = TileAtlasBuildQueue::new();
    let settings = TileSetSettings::new(1, 1);
    q.insert_image("g", "a", 1, settings);
    q.insert_image("g", "b", 2, settings);
    q.insert_image("g", "c", 3, settings);
    assert_eq!(q.count_total(), 3);
    assert!(!q.is_complete());
    q.lock_queue();
    assert!(q.queue_locked());
    assert!(!q.is_complete());
    let img = solid(4, [1, 2, 3, 255]);
    q.load("g", "a", &img, 4, 4, settings);
    q.load("g", "b", &img, 4, 4, settings);
    assert_eq!(q.count_loaded(), 2);
    assert!(!q.is_complete());
    q.skip("g", "c");
    assert!(q.is_complete());
    assert_eq!(q.count_loaded(), 3);
    assert_eq!(q.count_total(), 3);
}

#[test]
fn queue_sizes_builder_from_first_load() {
    let mut q = TileAtlasBuildQueue::new();
    assert!(q.get_size().is_none());
    let settings = TileSetSettings::new(2, 2);
    q.insert_image("g", "a", 1, settings);
    q.lock_queue();
    // an 8x8 image in a 2x2 grid yields 4x4 tiles
    q.load("g", "a", &solid(8, [5, 5, 5, 255]), 8, 8, settings);
    assert_eq!(q.get_size(), Some(4));
    let b = q.reset(None);
    assert_eq!(b.mip_levels_max(), 3);
    assert_eq!(b.get_tile("g", "a").unwrap().levels[0].data.len(), 4);
}

#[test]
fn queue_reregistration_replaces_without_counting_twice() {
    let mut q = TileAtlasBuildQueue::new_with_size(4);
    let settings = TileSetSettings::new(1, 1);
    q.insert_image("g", "a", 1, settings);
    q.insert_image("g", "a", 2, settings);
    assert_eq!(q.count_total(), 1);
    q.lock_queue();
    q.skip_remaining();
    assert!(q.is_complete());
    assert_eq!(q.count_loaded(), 1);
}

#[test]
fn queue_reset_starts_a_fresh_round() {
    let mut q = TileAtlasBuildQueue::new_with_size(4);
    let settings = TileSetSettings::new(1, 1);
    q.insert_image("g", "a", 1, settings);
    q.lock_queue();
    q.load("g", "a", &solid(4, [9, 9, 9, 255]), 4, 4, settings);
    let built = q.reset(Some(8));
    assert_eq!(built.image_count(), 1);
    assert!(!q.queue_locked());
    assert_eq!(q.count_total(), 0);
    assert_eq!(q.count_loaded(), 0);
    assert_eq!(q.get_size(), Some(8));
    assert!(!q.is_complete());
}

#[test]
fn queue_skip_of_unknown_tile_changes_nothing() {
    let mut q = TileAtlasBuildQueue::new_with_size(4);
    let settings = TileSetSettings::new(1, 1);
    q.insert_image("g", "a", 1, settings);
    q.lock_queue();
    q.skip("g", "zzz");
    assert_eq!(q.count_loaded(), 0);
    assert!(!q.is_complete());
}

#[test]
fn queue_exposes_pending_registrations() {
    let mut q = TileAtlasBuildQueue::new_with_size(4);
    let s1 = TileSetSettings::new(1, 1);
    let s2 = TileSetSettings::new(2, 2).with_offset(3, 4);
    q.insert_image("g", "a", 11, s1);
    q.insert_image("g", "b", 22, s2);
    assert_eq!(q.pending_len(), 2);
    let e0 = q.pending_entry(0);
    assert_eq!(e0.group_id, "g");
    assert_eq!(e0.tile_id, "a");
    assert_eq!(e0.item.source, 11);
    assert_eq!(e0.item.settings.count, [1, 1]);
    // re-registration replaces the stored item in place
    q.insert_image("g", "a", 33, s2);
    assert_eq!(q.pending_len(), 2);
    let e0b = q.pending_entry(0);
    assert_eq!(e0b.item.source, 33);
    assert_eq!(e0b.item.settings.offset, [3, 4]);
    let e1 = q.pending_entry(1);
    assert_eq!(e1.tile_id, "b");
    assert_eq!(e1.item.source, 22);
}
