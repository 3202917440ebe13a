use tile_atlas::is_power_of_two;
use tile_atlas::mip_level_data_len;
use tile_atlas::mip_level_size;
use tile_atlas::mip_levels_max;

#[test]
fn mip_levels_max_is_log2_plus_one_for_powers_of_two() {
    // log2(size) + 1 for every power-of-two size
    let mut size: u32 = 1;
    let mut log2: u32 = 0;
    while size <= 0x4000 {
        assert_eq!(mip_levels_max(size), log2 + 1);
        size *= 2;
        log2 += 1;
    }
    assert_eq!(mip_levels_max(16), 5);
    assert_eq!(mip_levels_max(1), 1);
}

#[test]
fn mip_level_size_halves_per_level() {
    assert_eq!(mip_level_size(16, 0), 16);
    assert_eq!(mip_level_size(16, 1), 8);
    assert_eq!(mip_level_size(16, 4), 1);
    assert_eq!(mip_level_size(16, 5), 0);
    assert_eq!(mip_level_size(16, 40), 0);
}

#[test]
fn mip_level_data_len_is_rgba8_area() {
    assert_eq!(mip_level_data_len(16, 0), 16 * 16 * 4);
    assert_eq!(mip_level_data_len(16, 1), 8 * 8 * 4);
    assert_eq!(mip_level_data_len(16, 4), 4);
    assert_eq!(mip_level_data_len(2, 0), 16);
}

#[test]
fn power_of_two_check() {
    assert!(is_power_of_two(1));
    assert!(is_power_of_two(2));
    assert!(is_power_of_two(16384));
    assert!(!is_power_of_two(0));
    assert!(!is_power_of_two(3));
    assert!(!is_power_of_two(12));
}
