use pixel_engine::color::Color;
use pixel_engine::text::{font_sheet, text_sheet, FONT_DATA};

#[test]
fn text_sheet_size() {
    let s = text_sheet();
    assert_eq!(s.width(), 128);
    assert_eq!(s.height(), 48);
}

#[test]
fn text_sheet_glyph_of_bang() {
    let s = text_sheet();
    let lit: Vec<(u32, u32)> = (8..16u32)
        .flat_map(|x| (0..8u32).map(move |y| (x, y)))
        .filter(|&(x, y)| s.get_pixel(x, y).r > 0)
        .collect();
    assert_eq!(
        lit,
        vec![
            (10, 1), (10, 2), (10, 3), (11, 0), (11, 1), (11, 2), (11, 3), (11, 4), (11, 5), (11, 7),
            (12, 0), (12, 1), (12, 2), (12, 3), (12, 4), (12, 5), (12, 7), (13, 1), (13, 2), (13, 3)
        ]
    );
    assert_eq!(s.get_pixel(11, 0), Color::white());
    assert_eq!(s.get_pixel(0, 0), Color::black());
}

#[test]
fn text_sheet_lit_count() {
    let s = text_sheet();
    let mut n = 0;
    for x in 0..128 {
        for y in 0..48 {
            if s.get_pixel(x, y).r > 0 {
                n += 1;
            }
        }
    }
    assert_eq!(n, 2004);
}

#[test]
fn font_sheet_decodes_words() {
    let mut font = vec![b'0'; 1024];
    font[3] = b'1';
    font[2] = b'1';
    let s = font_sheet(&font);
    assert_eq!(s.get_pixel(0, 0), Color::white());
    assert_eq!(s.get_pixel(0, 6), Color::white());
    assert_eq!(s.get_pixel(0, 1), Color::black());
    assert_eq!(s.get_pixel(0, 7), Color::black());
    assert_eq!(FONT_DATA.len(), 1024);
}
