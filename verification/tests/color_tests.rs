use pixel_engine::color::Color;

#[test]
fn color_from_u32_is_little_endian() {
    let c = Color::from(0x0403_0201u32);
    assert_eq!(c, Color::new_with_alpha(1, 2, 3, 4));
    assert_eq!(Color::from_u32(0xff00_00ff), Color::new_with_alpha(255, 0, 0, 255));
}

#[test]
fn color_to_u32_is_little_endian() {
    assert_eq!(u32::from(Color::new_with_alpha(1, 2, 3, 4)), 0x0403_0201);
    assert_eq!(Color::red().to_u32(), 0xff00_00ff);
}

#[test]
fn color_u32_round_trips() {
    for n in [0u32, 1, 0xdead_beef, 0xffff_ffff, 0x8000_0000] {
        assert_eq!(u32::from(Color::from(n)), n);
    }
    for c in [Color::blank(), Color::magenta(), Color::new_with_alpha(9, 8, 7, 6)] {
        assert_eq!(Color::from(u32::from(c)), c);
    }
}

#[test]
fn color_byte_arrays() {
    let c = Color::new_with_alpha(10, 20, 30, 40);
    assert_eq!(<[u8; 4]>::from(c), [10, 20, 30, 40]);
    assert_eq!(c.to_rgba(), [10, 20, 30, 40]);
    assert_eq!(c.to_rgb(), [10, 20, 30]);
    assert_eq!(Color::from([10u8, 20, 30, 40]), c);
    assert_eq!(Color::from([10u8, 20, 30]), Color::new_with_alpha(10, 20, 30, 255));
    assert_eq!(Color::from_rgb([1, 2, 3]).a, 255);
    assert_eq!(Color::from_rgba([1, 2, 3, 4]), Color::new_with_alpha(1, 2, 3, 4));
}

#[test]
fn named_colors() {
    assert_eq!(Color::white(), Color::new(255, 255, 255));
    assert_eq!(Color::grey(), Color::new(192, 192, 192));
    assert_eq!(Color::dark_grey(), Color::new(128, 128, 128));
    assert_eq!(Color::very_dark_grey(), Color::new(64, 64, 64));
    assert_eq!(Color::red(), Color::new(255, 0, 0));
    assert_eq!(Color::dark_red(), Color::new(128, 0, 0));
    assert_eq!(Color::very_dark_red(), Color::new(64, 0, 0));
    assert_eq!(Color::yellow(), Color::new(255, 255, 0));
    assert_eq!(Color::dark_yellow(), Color::new(128, 128, 0));
    assert_eq!(Color::very_dark_yellow(), Color::new(64, 64, 0));
    assert_eq!(Color::green(), Color::new(0, 255, 0));
    assert_eq!(Color::dark_green(), Color::new(0, 128, 0));
    assert_eq!(Color::very_dark_green(), Color::new(0, 64, 0));
    assert_eq!(Color::cyan(), Color::new(0, 255, 255));
    assert_eq!(Color::dark_cyan(), Color::new(0, 128, 128));
    assert_eq!(Color::very_dark_cyan(), Color::new(0, 64, 64));
    assert_eq!(Color::blue(), Color::new(0, 0, 255));
    assert_eq!(Color::dark_blue(), Color::new(0, 0, 128));
    assert_eq!(Color::very_dark_blue(), Color::new(0, 0, 64));
    assert_eq!(Color::magenta(), Color::new(255, 0, 255));
    assert_eq!(Color::dark_magenta(), Color::new(128, 0, 128));
    assert_eq!(Color::very_dark_magenta(), Color::new(64, 0, 64));
    assert_eq!(Color::black(), Color::new(0, 0, 0));
    assert_eq!(Color::blank(), Color::new_with_alpha(0, 0, 0, 0));
}
