use tile_atlas::DownsampleAlgorithm;
use tile_atlas::DownsampleBilinearSRGB;
use tile_atlas::TileAtlasBuilder;
use tile_atlas::TileSetSettings;

fn solid(edge: u32, px: [u8; 4]) -> Vec<u8> {
    let mut v = Vec::new();
    for _ in 0..(edge * edge) {
        v.extend_from_slice(&px);
    }
    v
}

fn frame<'a>(b: &'a TileAtlasBuilder, g: &str, t: &str, level: usize, f: usize) -> &'a Vec<u8> {
    &b.get_tile(g, t).unwrap().levels[level].data[f]
}

fn frame_count(b: &TileAtlasBuilder, g: &str, t: &str, level: usize) -> usize {
    b.get_tile(g, t).unwrap().levels[level].data.len()
}

#[test]
fn insert_single_places_one_frame() {
    let mut b = TileAtlasBuilder::new(4);
    let red = solid(4, [255, 0, 0, 255]);
    b.insert_single("g", "a", 0, &red, 4, (0, 0));
    assert_eq!(frame_count(&b, "g", "a", 0), 1);
    assert_eq!(frame(&b, "g", "a", 0, 0), &red);
    assert_eq!(frame_count(&b, "g", "a", 1), 0);
    assert!(b.get_tile("g", "missing").is_none());
    assert!(b.get_group("other").is_none());
}

#[test]
fn insert_extracts_offset_blocks() {
    // a 4x2-pixel source holding a red 2x2 block left and a blue one right
    let mut src = Vec::new();
    for _row in 0..2 {
        for _x in 0..2 {
            src.extend_from_slice(&[255, 0, 0, 255]);
        }
        for _x in 0..2 {
            src.extend_from_slice(&[0, 0, 255, 255]);
        }
    }
    let mut b = TileAtlasBuilder::new(2);
    let offsets = vec![(0u32, 0u32), (2u32, 0u32)];
    b.insert("g", "a", 0, &src, 4, &offsets);
    assert_eq!(frame_count(&b, "g", "a", 0), 2);
    assert_eq!(frame(&b, "g", "a", 0, 0), &solid(2, [255, 0, 0, 255]));
    assert_eq!(frame(&b, "g", "a", 0, 1), &solid(2, [0, 0, 255, 255]));
}

#[test]
fn insert_tileset_slices_a_grid_row_major() {
    // 2x2 grid of 2x2 tiles in a 4x4 source, each quadrant one colour
    let q = [
        [255u8, 0, 0, 255],
        [0u8, 255, 0, 255],
        [0u8, 0, 255, 255],
        [255u8, 255, 255, 255],
    ];
    let mut src = Vec::new();
    for row in 0..4 {
        for x in 0..4 {
            let idx = (row / 2) * 2 + (x / 2);
            src.extend_from_slice(&q[idx]);
        }
    }
    let mut b = TileAtlasBuilder::new(2);
    b.insert_tileset("g", "a", 0, &src, 4, TileSetSettings::new(2, 2));
    assert_eq!(frame_count(&b, "g", "a", 0), 4);
    for (i, px) in q.iter().enumerate() {
        assert_eq!(frame(&b, "g", "a", 0, i), &solid(2, *px));
    }
}

#[test]
fn limit_levels_clears_levels_at_and_above() {
    // level 0 keeps its frames, every level at and above the cap is empty
    let mut b = TileAtlasBuilder::new(8);
    let red = solid(8, [255, 0, 0, 255]);
    let offsets = vec![(0u32, 0u32), (0u32, 0u32), (0u32, 0u32)];
    b.insert("g", "a", 0, &red, 8, &offsets);
    b.downsample_levels(0, 4, false, &DownsampleBilinearSRGB);
    b.limit_levels(1);
    assert_eq!(frame_count(&b, "g", "a", 0), 3);
    for level in 1..4 {
        assert_eq!(frame_count(&b, "g", "a", level), 0);
    }
}

#[test]
fn downsample_levels_fills_missing_levels_and_is_idempotent() {
    // running the same force-less pass twice leaves the pyramid exactly
    // as one pass built it
    let mut once = TileAtlasBuilder::new(8);
    let red = solid(8, [200, 40, 10, 255]);
    once.insert_single("g", "a", 0, &red, 8, (0, 0));
    once.downsample_levels(0, 4, false, &DownsampleBilinearSRGB);

    let mut twice = TileAtlasBuilder::new(8);
    twice.insert_single("g", "a", 0, &red, 8, (0, 0));
    twice.downsample_levels(0, 4, false, &DownsampleBilinearSRGB);
    twice.downsample_levels(0, 4, false, &DownsampleBilinearSRGB);

    for level in 0..4 {
        assert_eq!(frame_count(&once, "g", "a", level), 1);
        assert_eq!(
            frame(&once, "g", "a", level, 0),
            frame(&twice, "g", "a", level, 0)
        );
    }
}

#[test]
fn forced_downsample_makes_every_tile_complete() {
    let mut b = TileAtlasBuilder::new(8);
    b.insert_single("g", "a", 0, &solid(8, [9, 9, 9, 9]), 8, (0, 0));
    let offsets = vec![(0u32, 0u32), (0u32, 0u32)];
    b.insert("g", "b", 0, &solid(8, [1, 2, 3, 4]), 8, &offsets);
    // a non-empty level whose count diverges from the base makes the
    // tile incomplete
    b.insert_single("g", "b", 1, &solid(4, [1, 2, 3, 4]), 4, (0, 0));
    assert!(!b.mip_levels_complete());
    b.downsample_levels(0, 33, true, &DownsampleBilinearSRGB);
    assert!(b.mip_levels_complete());
    assert_eq!(frame_count(&b, "g", "b", 3), 2);
}

#[test]
fn tiles_with_only_base_frames_count_as_complete() {
    // levels still without frames do not count against completeness
    let mut b = TileAtlasBuilder::new(8);
    assert!(b.mip_levels_complete());
    b.insert_single("g", "a", 0, &solid(8, [9, 9, 9, 9]), 8, (0, 0));
    assert!(b.mip_levels_complete());
}

#[test]
fn downsample_white_block_stays_white() {
    // full intensity is a fixed point of the transfer function
    let src = solid(2, [255, 255, 255, 255]);
    let mut dst = vec![0u8; 4];
    DownsampleBilinearSRGB.downsample(&src, 2, &mut dst);
    assert_eq!(dst, vec![255, 255, 255, 255]);
}

#[test]
fn downsample_mixed_blocks_average_in_linear_light() {
    // two red and two black opaque samples average to sRGB 187, not 127:
    // naive byte averaging would be wrong
    let mut src = solid(2, [255, 0, 0, 255]);
    src[8] = 0;
    src[12] = 0;
    let mut dst = vec![0u8; 4];
    DownsampleBilinearSRGB.downsample(&src, 2, &mut dst);
    assert_eq!(dst, vec![187, 0, 0, 255]);

    // a fully transparent block collapses to zero
    let clear = solid(2, [0, 0, 0, 0]);
    let mut dst2 = vec![9u8; 4];
    DownsampleBilinearSRGB.downsample(&clear, 2, &mut dst2);
    assert_eq!(dst2, vec![0, 0, 0, 0]);

    // one opaque red sample among three transparent ones keeps its colour
    // premultiplied, with a quarter alpha
    let mut one_red = solid(2, [0, 0, 0, 0]);
    one_red[0] = 255;
    one_red[3] = 255;
    let mut dst3 = vec![0u8; 4];
    DownsampleBilinearSRGB.downsample(&one_red, 2, &mut dst3);
    assert_eq!(dst3, vec![255, 0, 0, 63]);
}

#[test]
fn pyramid_of_solid_red_stays_solid_red() {
    // base size 16: five levels, the four derived ones all solid red
    let mut b = TileAtlasBuilder::new(16);
    b.insert_single("g", "a", 0, &solid(16, [255, 0, 0, 255]), 16, (0, 0));
    b.downsample_levels(0, 5, false, &DownsampleBilinearSRGB);
    assert_eq!(b.mip_levels_max(), 5);
    assert_eq!(b.find_mip_level_common_max(), 5);
    for level in 0..5u32 {
        let edge = 16u32 >> level;
        assert_eq!(frame(&b, "g", "a", level as usize, 0), &solid(edge, [255, 0, 0, 255]));
    }
}

#[test]
fn common_max_stops_at_first_divergent_level() {
    let mut b = TileAtlasBuilder::new(8);
    b.insert_single("g", "a", 0, &solid(8, [1, 2, 3, 255]), 8, (0, 0));
    assert_eq!(b.find_mip_level_common_max(), 1);
    b.downsample_levels(0, 2, false, &DownsampleBilinearSRGB);
    assert_eq!(b.find_mip_level_common_max(), 2);
    let empty = TileAtlasBuilder::new(8);
    assert_eq!(empty.find_mip_level_common_max(), 0);
}

#[test]
fn remove_level_cascades_when_tile_is_empty() {
    let mut b = TileAtlasBuilder::new(4);
    b.insert_single("g", "a", 0, &solid(4, [1, 1, 1, 1]), 4, (0, 0));
    let taken = b.remove_level("g", "a", 0).unwrap();
    assert_eq!(taken.data.len(), 1);
    assert!(b.get_tile("g", "a").is_none());
    assert!(b.get_group("g").is_none());
    assert!(b.remove_level("g", "a", 0).is_none());
    assert!(b.remove_level("g", "a", 99).is_none());
}

#[test]
fn remove_returns_the_tile_and_drops_empty_groups() {
    let mut b = TileAtlasBuilder::new(4);
    b.insert_single("g", "a", 0, &solid(4, [1, 1, 1, 1]), 4, (0, 0));
    b.insert_single("g", "b", 0, &solid(4, [2, 2, 2, 2]), 4, (0, 0));
    let taken = b.remove("g", "a").unwrap();
    assert_eq!(taken.levels[0].data.len(), 1);
    assert!(b.get_tile("g", "a").is_none());
    assert!(b.get_tile("g", "b").is_some());
    b.remove("g", "b").unwrap();
    assert!(b.get_group("g").is_none());
}

#[test]
fn remove_levels_clears_a_range() {
    let mut b = TileAtlasBuilder::new(8);
    b.insert_single("g", "a", 0, &solid(8, [5, 5, 5, 255]), 8, (0, 0));
    b.downsample_levels(0, 4, false, &DownsampleBilinearSRGB);
    b.remove_levels("g", "a", 1, 3);
    assert_eq!(frame_count(&b, "g", "a", 0), 1);
    assert_eq!(frame_count(&b, "g", "a", 1), 0);
    assert_eq!(frame_count(&b, "g", "a", 2), 0);
    assert_eq!(frame_count(&b, "g", "a", 3), 1);
    b.remove_levels("g", "a", 0, 33);
    assert!(b.get_tile("g", "a").is_none());
}

#[test]
fn merge_overwrites_shared_tiles_and_appends_new_groups() {
    let mut a = TileAtlasBuilder::new(4);
    a.insert_single("g", "a", 0, &solid(4, [1, 0, 0, 255]), 4, (0, 0));
    a.insert_single("g", "keep", 0, &solid(4, [7, 7, 7, 255]), 4, (0, 0));
    let mut b = TileAtlasBuilder::new(4);
    b.insert_single("g", "a", 0, &solid(4, [2, 0, 0, 255]), 4, (0, 0));
    b.insert_single("h", "c", 0, &solid(4, [3, 0, 0, 255]), 4, (0, 0));
    a.merge(b);
    assert_eq!(frame(&a, "g", "a", 0, 0), &solid(4, [2, 0, 0, 255]));
    assert_eq!(frame(&a, "g", "keep", 0, 0), &solid(4, [7, 7, 7, 255]));
    assert_eq!(frame(&a, "h", "c", 0, 0), &solid(4, [3, 0, 0, 255]));
}

#[test]
fn lookup_assigns_contiguous_slots_in_insertion_order() {
    // tile "a" with one frame, tile "b" with three: a -> {0,1}, b -> {1,3}
    let mut b = TileAtlasBuilder::new(4);
    b.insert_single("g", "a", 0, &solid(4, [1, 1, 1, 255]), 4, (0, 0));
    let offs = vec![(0u32, 0u32), (0u32, 0u32), (0u32, 0u32)];
    b.insert("g", "b", 0, &solid(4, [2, 2, 2, 255]), 4, &offs);
    let lookup = b.build_lookup();
    assert_eq!(lookup.len(), 1);
    assert_eq!(lookup[0].id, "g");
    let ga = lookup[0].group.get("a").unwrap();
    assert_eq!((ga.index, ga.count), (0, 1));
    let gb = lookup[0].group.get("b").unwrap();
    assert_eq!((gb.index, gb.count), (1, 3));

    // repeated calls on the same input yield the same table
    let again = b.build_lookup();
    let ga2 = again[0].group.get("a").unwrap();
    let gb2 = again[0].group.get("b").unwrap();
    assert_eq!((ga2.index, ga2.count), (0, 1));
    assert_eq!((gb2.index, gb2.count), (1, 3));
}

#[test]
fn lookup_skips_tiles_without_base_frames() {
    let mut b = TileAtlasBuilder::new(4);
    b.insert_single("g", "a", 1, &solid(2, [1, 1, 1, 255]), 2, (0, 0));
    let lookup = b.build_lookup();
    assert_eq!(lookup.len(), 0);
}

#[test]
fn page_counts_follow_the_level_zero_frame_total() {
    let mut b = TileAtlasBuilder::new(2);
    assert_eq!(b.image_count(), 0);
    assert_eq!(b.page_count(), 0);
    b.insert_single("g", "a", 0, &solid(2, [1, 1, 1, 255]), 2, (0, 0));
    assert_eq!(b.image_count(), 1);
    assert_eq!(b.page_count(), 1);
    assert_eq!(b.page_len(0), 2 * 2 * 4 * 256);
}

#[test]
fn build_page_packs_frames_into_grid_cells() {
    let mut b = TileAtlasBuilder::new(1);
    b.insert_single("g", "a", 0, &solid(1, [10, 20, 30, 255]), 1, (0, 0));
    b.insert_single("g", "b", 0, &solid(1, [40, 50, 60, 255]), 1, (0, 0));
    let mut page = Vec::new();
    b.build_page(&mut page, 0, 0);
    assert_eq!(page.len(), 1024);
    // 1x1 tiles on a 16x16 page: cell 0 at pixel 0, cell 1 at pixel 1
    assert_eq!(&page[0..4], &[10, 20, 30, 255]);
    assert_eq!(&page[4..8], &[40, 50, 60, 255]);
    assert!(page[8..].iter().all(|&x| x == 0));
}

#[test]
fn build_image_concatenates_pages_and_levels() {
    let mut b = TileAtlasBuilder::new(2);
    b.insert_single("g", "a", 0, &solid(2, [255, 255, 255, 255]), 2, (0, 0));
    b.downsample_levels(0, 2, false, &DownsampleBilinearSRGB);
    let img = b.build_image();
    assert_eq!(img.size, 32);
    assert_eq!(img.page_count, 1);
    assert_eq!(img.mip_level_count, 2);
    let level0_len = (2 * 2 * 4 * 256) as usize;
    let level1_len = (1 * 1 * 4 * 256) as usize;
    assert_eq!(img.data.len(), level0_len + level1_len);
    assert_eq!(&img.data[0..4], &[255, 255, 255, 255]);
    assert_eq!(&img.data[level0_len..level0_len + 4], &[255, 255, 255, 255]);

    assert_eq!(b.get_page_range_bytes(0, 0), Some((0, level0_len)));
    assert_eq!(
        b.get_page_range_bytes(0, 1),
        Some((level0_len, level0_len + level1_len))
    );
    assert_eq!(b.get_page_range_bytes(0, 2), None);
    assert_eq!(b.get_page_range_bytes(1, 0), None);
}
