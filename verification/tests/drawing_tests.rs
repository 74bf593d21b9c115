use pixel_engine::color::Color;
use pixel_engine::drawing::{
    draw_action, DottedShapeTrait, DrawAction, PixelMode, ShapesTrait, SmartDrawingTrait, SpriteTrait,
};
use pixel_engine::sprite::{DrawSpriteTrait, Sprite};
use pixel_engine::text::text_sheet;
use pixel_engine::vector2::{Vec2d, Vi2d, Vu2d};

fn p(x: i32, y: i32) -> Vi2d {
    Vec2d { x, y }
}

/// A drawing target that remembers every point it was asked to draw.
struct Recorder {
    w: u32,
    h: u32,
    cells: Vec<Color>,
    log: Vec<(i32, i32, Color)>,
    mode: PixelMode,
    sheet: Sprite,
}

impl Recorder {
    fn new(w: u32, h: u32) -> Recorder {
        Recorder {
            w,
            h,
            cells: vec![Color::black(); (w * h) as usize],
            log: Vec::new(),
            mode: PixelMode::Normal,
            sheet: text_sheet(),
        }
    }

    fn points(&self) -> Vec<(i32, i32)> {
        self.log.iter().map(|&(x, y, _)| (x, y)).collect()
    }

    fn colors(&self) -> Vec<Color> {
        self.log.iter().map(|&(_, _, c)| c).collect()
    }
}

impl DrawSpriteTrait for Recorder {
    fn get_pixel(&self, pos: Vi2d) -> Option<Color> {
        if pos.x < 0 || pos.y < 0 || pos.x as u32 >= self.w || pos.y as u32 >= self.h {
            return None;
        }
        Some(self.cells[(pos.y as u32 * self.w + pos.x as u32) as usize])
    }
    fn set_pixel(&mut self, pos: Vi2d, col: Color) {
        if DrawSpriteTrait::get_pixel(self, pos).is_some() {
            let i = (pos.y as u32 * self.w + pos.x as u32) as usize;
            self.cells[i] = col;
        }
    }
    fn size(&self) -> Vu2d {
        Vec2d { x: self.w, y: self.h }
    }
    fn get_pixel_unchecked(&self, pos: Vu2d) -> Color {
        self.cells[(pos.y * self.w + pos.x) as usize]
    }
    fn set_pixel_unchecked(&mut self, pos: Vu2d, col: Color) {
        let i = (pos.y * self.w + pos.x) as usize;
        self.cells[i] = col;
    }
}

impl SmartDrawingTrait for Recorder {
    fn get_size(&self) -> Vu2d {
        Vec2d { x: self.w, y: self.h }
    }
    fn get_textsheet(&self) -> &Sprite {
        &self.sheet
    }
    fn clear(&mut self, col: Color) {
        for c in self.cells.iter_mut() {
            *c = col;
        }
    }
    fn draw(&mut self, pos: Vi2d, col: Color) {
        self.log.push((pos.x, pos.y, col));
        if let DrawAction::Write(q) = draw_action(self.get_size(), pos, col, self.mode) {
            self.set_pixel_unchecked(q, col);
        }
    }
    fn get_pixel_mode(&self) -> PixelMode {
        self.mode
    }
    fn set_pixel_mode(&mut self, mode: PixelMode) {
        self.mode = mode;
    }
}

#[test]
fn draw_action_by_mode() {
    let size = Vec2d { x: 4u32, y: 3u32 };
    let opaque = Color::red();
    let see_through = Color::new_with_alpha(1, 2, 3, 100);
    let at = Vec2d { x: 2u32, y: 1u32 };
    assert_eq!(draw_action(size, p(2, 1), opaque, PixelMode::Normal), DrawAction::Write(at));
    assert_eq!(draw_action(size, p(2, 1), see_through, PixelMode::Normal), DrawAction::Write(at));
    assert_eq!(draw_action(size, p(2, 1), opaque, PixelMode::Mask), DrawAction::Write(at));
    assert_eq!(draw_action(size, p(2, 1), see_through, PixelMode::Mask), DrawAction::Skip);
    assert_eq!(draw_action(size, p(2, 1), see_through, PixelMode::Alpha), DrawAction::Blend(at));
    assert_eq!(draw_action(size, p(4, 1), opaque, PixelMode::Normal), DrawAction::Skip);
    assert_eq!(draw_action(size, p(-1, 0), opaque, PixelMode::Normal), DrawAction::Skip);
    assert_eq!(draw_action(size, p(0, 3), opaque, PixelMode::Alpha), DrawAction::Skip);
}

#[test]
fn line_horizontal_and_vertical() {
    let mut r = Recorder::new(10, 10);
    r.draw_line(p(3, 2), p(0, 2), Color::white());
    assert_eq!(r.points(), vec![(0, 2), (1, 2), (2, 2), (3, 2)]);
    let mut r = Recorder::new(10, 10);
    r.draw_line(p(1, 4), p(1, 1), Color::white());
    assert_eq!(r.points(), vec![(1, 1), (1, 2), (1, 3), (1, 4)]);
    assert!(r.colors().iter().all(|c| *c == Color::white()));
}

#[test]
fn line_bresenham_points() {
    let mut r = Recorder::new(10, 10);
    r.draw_line(p(0, 0), p(4, 2), Color::white());
    assert_eq!(r.points(), vec![(0, 0), (1, 0), (2, 1), (3, 1), (4, 2)]);
    let mut r = Recorder::new(10, 10);
    r.draw_line(p(0, 0), p(2, 1), Color::white());
    assert_eq!(r.points(), vec![(0, 0), (1, 0), (2, 1)]);
    let mut r = Recorder::new(10, 10);
    r.draw_line(p(0, 0), p(1, 3), Color::white());
    assert_eq!(r.points(), vec![(0, 0), (0, 1), (1, 2), (1, 3)]);
}

#[test]
fn line_skips_negative_points() {
    let mut r = Recorder::new(10, 10);
    r.draw_line(p(-2, -1), p(3, 1), Color::white());
    assert_eq!(r.points(), vec![(0, 0), (1, 0), (2, 1), (3, 1)]);
}

#[test]
fn line_end_order_does_not_matter() {
    for (a, b) in [(p(0, 0), p(4, 2)), (p(5, 1), p(2, 7)), (p(-3, 4), p(6, -2)), (p(2, 2), p(2, 9))] {
        let mut r1 = Recorder::new(10, 10);
        let mut r2 = Recorder::new(10, 10);
        r1.draw_line(a, b, Color::white());
        r2.draw_line(b, a, Color::white());
        assert_eq!(r1.points(), r2.points());
    }
}

#[test]
fn rect_outline_and_fill() {
    let mut r = Recorder::new(10, 10);
    r.draw_rect(p(1, 1), p(3, 2), Color::white());
    assert_eq!(
        r.points(),
        vec![(1, 1), (2, 1), (3, 1), (3, 1), (3, 2), (1, 2), (2, 2), (3, 2), (1, 1), (1, 2)]
    );
    let mut r = Recorder::new(10, 10);
    r.fill_rect(p(0, 0), p(2, 1), Color::white());
    assert_eq!(r.points(), vec![(0, 0), (0, 1), (1, 0), (1, 1), (2, 0), (2, 1)]);
    let mut r = Recorder::new(10, 10);
    r.fill_rect(p(3, 3), p(0, 0), Color::white());
    assert_eq!(r.points(), vec![(3, 3)]);
    let mut r = Recorder::new(10, 10);
    r.fill_rect(p(3, 3), p(-1, 2), Color::white());
    assert!(r.points().is_empty());
}

#[test]
fn circle_outline() {
    let mut r = Recorder::new(20, 20);
    r.draw_circle(p(5, 5), 2, Color::white());
    assert_eq!(
        r.points(),
        vec![
            (5, 3), (7, 5), (7, 5), (5, 7), (5, 7), (3, 5), (3, 5), (5, 3),
            (6, 3), (7, 4), (7, 6), (6, 7), (4, 7), (3, 6), (3, 4), (4, 3)
        ]
    );
    let mut r = Recorder::new(20, 20);
    r.draw_circle(p(10, 10), 5, Color::white());
    assert_eq!(
        r.points(),
        vec![
            (10, 5), (15, 10), (15, 10), (10, 15), (10, 15), (5, 10), (5, 10), (10, 5),
            (11, 5), (15, 9), (15, 11), (11, 15), (9, 15), (5, 11), (5, 9), (9, 5),
            (12, 6), (14, 8), (14, 12), (12, 14), (8, 14), (6, 12), (6, 8), (8, 6),
            (13, 7), (13, 7), (13, 13), (13, 13), (7, 13), (7, 13), (7, 7), (7, 7)
        ]
    );
    let mut r = Recorder::new(20, 20);
    r.draw_circle(p(5, 5), 0, Color::white());
    assert!(r.points().is_empty());
}

#[test]
fn circle_fill() {
    let mut r = Recorder::new(20, 20);
    r.fill_circle(p(3, 3), 1, Color::white());
    assert_eq!(r.points(), vec![(3, 2), (2, 3), (3, 3), (4, 3), (3, 4), (2, 3), (3, 3), (4, 3)]);
    let mut r = Recorder::new(20, 20);
    r.fill_circle(p(3, 3), 0, Color::white());
    assert!(r.points().is_empty());
}

#[test]
fn triangle_outline_and_fill() {
    let mut r = Recorder::new(10, 10);
    r.draw_triangle(p(0, 0), p(4, 0), p(0, 3), Color::white());
    assert_eq!(
        r.points(),
        vec![(0, 0), (1, 0), (2, 0), (3, 0), (4, 0), (0, 0), (0, 1), (0, 2), (0, 3), (0, 3), (1, 2), (2, 2), (3, 1), (4, 0)]
    );
    let mut r = Recorder::new(10, 10);
    r.fill_triangle(p(0, 0), p(4, 0), p(0, 3), Color::white());
    assert_eq!(
        r.points(),
        vec![
            (0, 0), (1, 0), (2, 0), (3, 0), (4, 0), (0, 0), (0, 1), (0, 2), (0, 3), (0, 3), (1, 2),
            (2, 2), (3, 1), (4, 0), (0, 0), (0, 1), (0, 2), (0, 3), (1, 0), (1, 1), (1, 2), (2, 0),
            (2, 1), (3, 0), (4, 0)
        ]
    );
    let mut r = Recorder::new(10, 10);
    r.fill_triangle(p(2, 1), p(7, 4), p(1, 6), Color::white());
    assert_eq!(
        r.points(),
        vec![
            (2, 1), (3, 2), (4, 2), (5, 3), (6, 3), (7, 4), (2, 1), (2, 2), (2, 3), (1, 4), (1, 5),
            (1, 6), (1, 6), (2, 6), (3, 5), (4, 5), (5, 5), (6, 4), (7, 4), (1, 6), (2, 1), (2, 2),
            (2, 3), (2, 4), (2, 5), (3, 2), (3, 3), (3, 4), (3, 5), (4, 3), (4, 4), (4, 5), (5, 3),
            (5, 4), (6, 4), (7, 4)
        ]
    );
}

#[test]
fn dotted_lines() {
    let mut r = Recorder::new(50, 10);
    r.draw_line_dotted(p(0, 0), p(5, 0), Color::white(), 0xAAAA_AAAA);
    assert_eq!(r.points(), vec![(0, 0), (2, 0), (4, 0)]);
    let mut r = Recorder::new(50, 10);
    r.draw_line_dotted(p(0, 0), p(40, 0), Color::white(), 1);
    assert_eq!(r.points(), vec![(31, 0)]);
    let mut r = Recorder::new(50, 10);
    r.draw_line_dotted(p(0, 0), p(3, 0), Color::white(), 0);
    assert!(r.points().is_empty());
}

#[test]
fn dotted_pattern_repeats_every_32_points() {
    let mut r = Recorder::new(100, 10);
    r.draw_line_dotted(p(0, 0), p(70, 0), Color::white(), 1);
    assert_eq!(r.points(), vec![(31, 0), (63, 0)]);
    let mut r = Recorder::new(100, 10);
    r.draw_line_dotted(p(0, 0), p(70, 0), Color::white(), 0x8000_0001);
    assert_eq!(r.points(), vec![(0, 0), (31, 0), (32, 0), (63, 0), (64, 0)]);
}

#[test]
fn dotted_full_pattern_is_a_solid_line() {
    for (a, b) in [(p(0, 0), p(7, 3)), (p(2, 9), p(4, 0)), (p(1, 1), p(8, 1))] {
        let mut solid = Recorder::new(10, 10);
        let mut dotted = Recorder::new(10, 10);
        solid.draw_line(a, b, Color::white());
        dotted.draw_line_dotted(a, b, Color::white(), 0xFFFF_FFFF);
        assert_eq!(solid.points(), dotted.points());
    }
}

#[test]
fn dotted_rect_and_triangle() {
    let mut r = Recorder::new(10, 10);
    r.draw_rect_dotted(p(0, 0), p(4, 3), Color::white(), 0xAAAA_AAAA);
    assert_eq!(r.points(), vec![(0, 0), (2, 0), (3, 0), (3, 2), (0, 2), (2, 2), (0, 0), (0, 2)]);
    let mut r = Recorder::new(10, 10);
    r.draw_triangle_dotted(p(0, 0), p(4, 0), p(0, 3), Color::white(), 0xCCCC_CCCC);
    assert_eq!(r.points(), vec![(0, 0), (1, 0), (4, 0), (0, 0), (0, 1), (0, 3), (1, 2), (4, 0)]);
}

fn two_by_two() -> Sprite {
    let mut s = Sprite::new(2, 2);
    s.set_pixel(0, 0, Color::red());
    s.set_pixel(1, 0, Color::green());
    s.set_pixel(0, 1, Color::blue());
    s.set_pixel(1, 1, Color::white());
    s
}

#[test]
fn sprite_drawing() {
    let s = two_by_two();
    let mut r = Recorder::new(20, 20);
    r.draw_sprite(p(10, 10), 1, &s, (false, false));
    assert_eq!(
        r.log,
        vec![(10, 10, Color::red()), (10, 11, Color::blue()), (11, 10, Color::green()), (11, 11, Color::white())]
    );
    let mut r = Recorder::new(20, 20);
    r.draw_sprite(p(10, 10), 0, &s, (true, false));
    assert_eq!(
        r.log,
        vec![(10, 10, Color::green()), (10, 11, Color::white()), (11, 10, Color::red()), (11, 11, Color::blue())]
    );
    let mut r = Recorder::new(20, 20);
    r.draw_sprite(p(0, 0), 1, &s, (false, true));
    assert_eq!(r.colors(), vec![Color::blue(), Color::red(), Color::white(), Color::green()]);
}

#[test]
fn sprite_drawing_scaled() {
    let s = two_by_two();
    let mut r = Recorder::new(20, 20);
    r.draw_sprite(p(1, 1), 2, &s, (false, false));
    assert_eq!(r.log.len(), 16);
    assert_eq!(r.log[0], (1, 1, Color::red()));
    assert_eq!(r.log[1], (1, 2, Color::red()));
    assert_eq!(r.log[2], (2, 1, Color::red()));
    assert_eq!(r.log[3], (2, 2, Color::red()));
    assert_eq!(r.log[4], (1, 3, Color::blue()));
    assert_eq!(r.log[15], (4, 4, Color::white()));
}

#[test]
fn partial_sprite_drawing() {
    let s = two_by_two();
    let mut r = Recorder::new(20, 20);
    r.draw_partial_sprite(p(0, 0), &s, p(1, 0), p(1, 2), 1, (false, false));
    assert_eq!(r.log, vec![(0, 0, Color::green()), (0, 1, Color::white())]);
    let mut r = Recorder::new(20, 20);
    r.draw_partial_sprite(p(5, 5), &s, p(1, 1), p(2, 1), 1, (false, false));
    assert_eq!(r.log, vec![(5, 5, Color::white()), (6, 5, Color::blank())]);
}

#[test]
fn text_single_glyph() {
    let mut r = Recorder::new(50, 50);
    r.draw_text(p(0, 0), 1, Color::white(), "!");
    assert_eq!(
        r.points(),
        vec![
            (2, 1), (2, 2), (2, 3), (3, 0), (3, 1), (3, 2), (3, 3), (3, 4), (3, 5), (3, 7), (4, 0),
            (4, 1), (4, 2), (4, 3), (4, 4), (4, 5), (4, 7), (5, 1), (5, 2), (5, 3)
        ]
    );
}

#[test]
fn text_layout() {
    let mut one = Recorder::new(50, 50);
    one.draw_text(p(0, 0), 1, Color::white(), "!");
    let mut two = Recorder::new(50, 50);
    two.draw_text(p(0, 0), 1, Color::white(), "!!");
    assert_eq!(two.log.len(), 40);
    assert_eq!(&two.points()[20..23], &[(10, 1), (10, 2), (10, 3)]);
    let mut skipped = Recorder::new(50, 50);
    skipped.draw_text(p(0, 0), 1, Color::white(), "\u{e9}!");
    assert_eq!(skipped.points(), one.points());
    let mut newline = Recorder::new(50, 50);
    newline.draw_text(p(0, 0), 1, Color::white(), "\n!");
    assert_eq!(&newline.points()[..3], &[(2, 9), (2, 10), (2, 11)]);
    let mut space = Recorder::new(50, 50);
    space.draw_text(p(0, 0), 1, Color::white(), " ");
    assert!(space.points().is_empty());
}

#[test]
fn text_scaled() {
    let mut r = Recorder::new(50, 50);
    r.draw_text(p(5, 0), 2, Color::white(), "!");
    assert_eq!(r.log.len(), 80);
    assert_eq!(
        &r.points()[..12],
        &[(9, 2), (9, 3), (10, 2), (10, 3), (9, 4), (9, 5), (10, 4), (10, 5), (9, 6), (9, 7), (10, 6), (10, 7)]
    );
    assert!(r.points().iter().all(|&(x, y)| (5..21).contains(&x) && (0..16).contains(&y)));
}

#[test]
fn text_stays_in_its_box() {
    let mut r = Recorder::new(64, 64);
    r.draw_text(p(3, 4), 3, Color::red(), "a~Q");
    assert!(!r.log.is_empty());
    assert!(r.log.iter().all(|&(x, y, c)| (3..75).contains(&x) && (4..28).contains(&y) && c == Color::red()));
    let mut a = Recorder::new(24, 24);
    a.draw_text(p(0, 0), 2, Color::white(), "a");
    assert!(a.points().iter().all(|&(x, y)| x < 16 && y < 16));
    assert!(!a.points().contains(&(16, 12)));
}

#[test]
fn text_new_line_splits_the_text() {
    let mut whole = Recorder::new(64, 64);
    whole.draw_text(p(3, 2), 2, Color::red(), "a\nb\ncd");
    let mut first = Recorder::new(64, 64);
    first.draw_text(p(3, 2), 2, Color::red(), "a\nb");
    let mut rest = Recorder::new(64, 64);
    rest.draw_text(p(3, 2 + 2 * 16), 2, Color::red(), "cd");
    let mut both = first.log.clone();
    both.extend(rest.log.iter().cloned());
    assert!(!rest.log.is_empty());
    assert_eq!(whole.log, both);
}

#[test]
fn recorder_pixels_follow_the_mode() {
    let mut r = Recorder::new(4, 4);
    r.set_pixel_mode(PixelMode::Mask);
    r.draw_line(p(0, 0), p(3, 0), Color::new_with_alpha(9, 9, 9, 10));
    assert_eq!(DrawSpriteTrait::get_pixel(&r, p(1, 0)), Some(Color::black()));
    r.set_pixel_mode(PixelMode::Normal);
    r.draw_line(p(0, 0), p(3, 0), Color::red());
    assert_eq!(DrawSpriteTrait::get_pixel(&r, p(3, 0)), Some(Color::red()));
    assert_eq!(r.get_pixel_mode(), PixelMode::Normal);
}
