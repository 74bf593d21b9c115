use pixel_engine::gpu_layout::{byte_ranges, grown_capacity, rgba_len_matches, DecalIDGenerator};

#[test]
fn capacity_growth() {
    assert_eq!(grown_capacity(128, 10), 128);
    assert_eq!(grown_capacity(128, 128), 128);
    assert_eq!(grown_capacity(128, 129), 193);
    assert_eq!(grown_capacity(128, 193), 193);
    assert_eq!(grown_capacity(128, 500), 500);
    assert_eq!(grown_capacity(0, 1), 1);
    assert_eq!(grown_capacity(0, 2), 2);
    assert_eq!(grown_capacity(3, 5), 5);
}

#[test]
fn item_byte_ranges() {
    assert_eq!(byte_ranges(3, 160), vec![(0, 160), (160, 320), (320, 480)]);
    assert!(byte_ranges(0, 160).is_empty());
    assert_eq!(byte_ranges(2, 0), vec![(0, 0), (0, 0)]);
}

#[test]
fn decal_ids_start_at_one_and_increase() {
    let mut g = DecalIDGenerator::new();
    assert_eq!(g.get(), 1);
    assert_eq!(g.get(), 2);
    let mut h = g.clone();
    assert_eq!(h.get(), 3);
    assert_eq!(g.get(), 3);
}

#[test]
fn texture_data_length_is_checked_exactly() {
    assert!(rgba_len_matches(16, (2, 2)));
    assert!(!rgba_len_matches(15, (2, 2)));
    assert!(!rgba_len_matches(17, (2, 2)));
    assert!(rgba_len_matches(0, (0, 5)));
    assert!(rgba_len_matches(4 * 640 * 480, (640, 480)));
    // the product is taken without wrapping around
    assert!(!rgba_len_matches(4, (u32::MAX, u32::MAX)));
}
