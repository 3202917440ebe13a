use tile_atlas::DownsampleBilinearSRGB;
use tile_atlas::TileAtlasBuilder;
use tile_atlas::TileAtlasBuilderReadError;

fn solid(edge: u32, px: [u8; 4]) -> Vec<u8> {
    let mut v = Vec::new();
    for _ in 0..(edge * edge) {
        v.extend_from_slice(&px);
    }
    v
}

fn sample_builder() -> TileAtlasBuilder {
    let mut b = TileAtlasBuilder::new(4);
    b.insert_single("base", "grass", 0, &solid(4, [10, 200, 30, 255]), 4, (0, 0));
    let offs = vec![(0u32, 0u32), (0u32, 0u32)];
    b.insert("base", "water", 0, &solid(4, [0, 40, 220, 255]), 4, &offs);
    b.insert_single("props", "tr\u{e9}e", 0, &solid(4, [90, 60, 20, 255]), 4, (0, 0));
    b.downsample_levels(0, 3, false, &DownsampleBilinearSRGB);
    b
}

fn assert_same_content(a: &TileAtlasBuilder, b: &TileAtlasBuilder) {
    assert_eq!(a.mip_levels_max(), b.mip_levels_max());
    for (g, t) in [("base", "grass"), ("base", "water"), ("props", "tr\u{e9}e")] {
        let ta = a.get_tile(g, t).unwrap();
        let tb = b.get_tile(g, t).unwrap();
        assert_eq!(ta.levels.len(), tb.levels.len());
        for l in 0..ta.levels.len() {
            assert_eq!(ta.levels[l].data, tb.levels[l].data);
        }
    }
}

#[test]
fn uncompressed_round_trip_reproduces_the_builder() {
    let b = sample_builder();
    let mut bytes = Vec::new();
    b.write_uncompressed_to(&mut bytes);
    let back = TileAtlasBuilder::read_uncompressed_from(&bytes).unwrap();
    assert_same_content(&b, &back);
}

#[test]
fn compressed_round_trip_reproduces_the_builder() {
    let b = sample_builder();
    let mut bytes = Vec::new();
    b.write_compressed_to(&mut bytes);
    let mut raw = Vec::new();
    b.write_uncompressed_to(&mut raw);
    // the compressed form is a different byte stream, not the raw encoding
    assert_ne!(bytes, raw);
    let back = TileAtlasBuilder::read_compressed_from(&bytes).unwrap();
    assert_same_content(&b, &back);
}

#[test]
fn empty_builder_round_trips() {
    let b = TileAtlasBuilder::new(16);
    let mut bytes = Vec::new();
    b.write_uncompressed_to(&mut bytes);
    let back = TileAtlasBuilder::read_uncompressed_from(&bytes).unwrap();
    assert_eq!(back.mip_levels_max(), 5);
    assert_eq!(back.image_count(), 0);
}

#[test]
fn malformed_bytes_are_a_decode_error() {
    assert!(matches!(
        TileAtlasBuilder::read_uncompressed_from(&vec![1, 2, 3]),
        Err(TileAtlasBuilderReadError::Decode)
    ));
    // a valid prefix with trailing bytes is refused too
    let b = TileAtlasBuilder::new(4);
    let mut bytes = Vec::new();
    b.write_uncompressed_to(&mut bytes);
    bytes.push(0);
    assert!(matches!(
        TileAtlasBuilder::read_uncompressed_from(&bytes),
        Err(TileAtlasBuilderReadError::Decode)
    ));
    // a non-power-of-two size decodes but is not a well-formed builder
    let mut bad = Vec::new();
    bad.extend_from_slice(&[3, 0, 0, 0]);
    bad.extend_from_slice(&[0, 0, 0, 0]);
    assert!(matches!(
        TileAtlasBuilder::read_uncompressed_from(&bad),
        Err(TileAtlasBuilderReadError::Decode)
    ));
}

#[test]
fn compressed_reader_reports_both_error_kinds() {
    let r = TileAtlasBuilder::read_compressed_from(&vec![0xFF, 0xFE, 0xFD, 7, 9]);
    assert!(r.is_err());
    // raw (uncompressed) bytes handed to the compressed reader fail too
    let b = sample_builder();
    let mut raw = Vec::new();
    b.write_uncompressed_to(&mut raw);
    assert!(TileAtlasBuilder::read_compressed_from(&raw).is_err());
}
