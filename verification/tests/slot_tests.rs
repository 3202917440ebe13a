use tile_atlas::TileAtlasSlot;

#[test]
fn slot_new_is_one_based_with_empty_sentinel() {
    let s = TileAtlasSlot::new(5).unwrap();
    assert_eq!(s.slot(), Some(5));
    assert!(TileAtlasSlot::new(0xFFFF).is_none());
    assert_eq!(TileAtlasSlot::empty().slot(), None);
    assert_eq!(TileAtlasSlot::default().slot(), None);
}

#[test]
fn slot_new_unchecked_wraps_to_empty() {
    assert_eq!(TileAtlasSlot::new_unchecked(7).slot(), Some(7));
    assert_eq!(TileAtlasSlot::new_unchecked(0xFFFF).slot(), None);
}

#[test]
fn slot_animation_packing_masks() {
    let s = TileAtlasSlot::new(1).unwrap().with_animation(3, 2, 9);
    assert_eq!(s.frame_count(), 3);
    assert_eq!(s.frame_duration(), 2);
    assert_eq!(s.frame_delay(), 9);
    assert_eq!(s.slot(), Some(1));
}

#[test]
fn slot_animation_width_mismatch_is_preserved() {
    // the setter stores 4 bits per field, while the duration getter reads
    // 2 bits and the delay getter reads 8
    let s = TileAtlasSlot::empty().with_animation(18, 7, 300);
    assert_eq!(s.frame_count(), 18 % 16);
    assert_eq!(s.frame_duration(), 7 % 4);
    assert_eq!(s.frame_delay(), 300 % 16);
}

#[test]
fn slot_single_field_setters_keep_other_fields() {
    let s = TileAtlasSlot::new(2).unwrap().with_animation(4, 1, 10);
    let s2 = s.with_frame_count(9);
    assert_eq!(s2.frame_count(), 9);
    assert_eq!(s2.frame_duration(), 1);
    assert_eq!(s2.frame_delay(), 10);
    let s3 = s2.with_frame_duration(3);
    assert_eq!(s3.frame_count(), 9);
    assert_eq!(s3.frame_duration(), 3);
    assert_eq!(s3.frame_delay(), 10);
    let s4 = s3.with_frame_delay(15);
    assert_eq!(s4.frame_count(), 9);
    assert_eq!(s4.frame_duration(), 3);
    assert_eq!(s4.frame_delay(), 15);
}
