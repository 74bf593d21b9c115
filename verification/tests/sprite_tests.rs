use pixel_engine::color::Color;
use pixel_engine::sprite::{Area, DrawSpriteTrait, OverlappingError, Sprite};
use pixel_engine::vector2::{Vec2d, Vi2d, Vu2d};

fn vi(x: i32, y: i32) -> Vi2d {
    Vec2d { x, y }
}

fn vu(x: u32, y: u32) -> Vu2d {
    Vec2d { x, y }
}

/// A 2 by 1 picture in the BMP format, 24 bits per pixel: a red pixel then a green one.
fn tiny_bmp() -> Vec<u8> {
    let mut b: Vec<u8> = Vec::new();
    b.extend_from_slice(b"BM");
    b.extend_from_slice(&62u32.to_le_bytes());
    b.extend_from_slice(&0u32.to_le_bytes());
    b.extend_from_slice(&54u32.to_le_bytes());
    b.extend_from_slice(&40u32.to_le_bytes());
    b.extend_from_slice(&2i32.to_le_bytes());
    b.extend_from_slice(&1i32.to_le_bytes());
    b.extend_from_slice(&1u16.to_le_bytes());
    b.extend_from_slice(&24u16.to_le_bytes());
    b.extend_from_slice(&0u32.to_le_bytes());
    b.extend_from_slice(&8u32.to_le_bytes());
    b.extend_from_slice(&2835i32.to_le_bytes());
    b.extend_from_slice(&2835i32.to_le_bytes());
    b.extend_from_slice(&0u32.to_le_bytes());
    b.extend_from_slice(&0u32.to_le_bytes());
    b.extend_from_slice(&[0, 0, 255, 0, 255, 0, 0, 0]);
    b
}

/// A user type that implements the pixel trait by its methods alone.
struct Grid {
    w: u32,
    h: u32,
    cells: Vec<Color>,
}

impl DrawSpriteTrait for Grid {
    fn get_pixel(&self, pos: Vi2d) -> Option<Color> {
        if pos.x < 0 || pos.y < 0 || pos.x as u32 >= self.w || pos.y as u32 >= self.h {
            return None;
        }
        Some(self.cells[(pos.y as u32 * self.w + pos.x as u32) as usize])
    }
    fn set_pixel(&mut self, pos: Vi2d, col: Color) {
        if DrawSpriteTrait::get_pixel(self, pos).is_some() {
            let i = (pos.y as u32 * self.w + pos.x as u32) as usize;
            self.cells[i] = col;
        }
    }
    fn size(&self) -> Vu2d {
        Vec2d { x: self.w, y: self.h }
    }
    fn get_pixel_unchecked(&self, pos: Vu2d) -> Color {
        self.cells[(pos.y * self.w + pos.x) as usize]
    }
    fn set_pixel_unchecked(&mut self, pos: Vu2d, col: Color) {
        let i = (pos.y * self.w + pos.x) as usize;
        self.cells[i] = col;
    }
}

#[test]
fn set_then_get_pixel() {
    let mut s = Sprite::new(4, 3);
    s.set_pixel(2, 1, Color::red());
    assert_eq!(s.get_pixel(2, 1), Color::red());
    assert_eq!(s.get_pixel(1, 1), Color::blank());
    assert_eq!(s.get_pixel(9, 1), Color::blank());
    s.set_pixel(4, 0, Color::red());
    assert_eq!(s.get_pixel(3, 0), Color::blank());
}

#[test]
fn sprite_constructors() {
    let s = Sprite::new_with_color(3, 2, Color::cyan());
    assert_eq!(s.width(), 3);
    assert_eq!(s.height(), 2);
    assert_eq!(*s.size(), vu(3, 2));
    for y in 0..2 {
        for x in 0..3 {
            assert_eq!(s.get_pixel(x, y), Color::cyan());
        }
    }
    let b = Sprite::new_blank();
    assert_eq!(*b.size(), vu(1, 1));
    assert_eq!(b.get_pixel(0, 0), Color::blank());
    let n = Sprite::new(2, 2);
    assert_eq!(n.get_pixel(1, 1), Color::blank());
}

#[test]
fn sprite_load_rgba() {
    let raw = [1u8, 2, 3, 4, 5, 6, 7, 8];
    let s = Sprite::load_rgba(&raw, 2, 1).unwrap();
    assert_eq!(s.get_pixel(0, 0), Color::new_with_alpha(1, 2, 3, 4));
    assert_eq!(s.get_pixel(1, 0), Color::new_with_alpha(5, 6, 7, 8));
    assert_eq!(Sprite::load_rgba(&raw, 1, 1).err(), Some("Wrong Image len".to_string()));
    assert_eq!(Sprite::load_rgba(&raw[..7], 1, 2).err(), Some("Wrong Image len".to_string()));
}

#[test]
fn sprite_load_image_bytes() {
    let s = Sprite::load_image_bytes(&tiny_bmp()).unwrap();
    assert_eq!(*s.size(), vu(2, 1));
    assert_eq!(s.get_pixel(0, 0), Color::new(255, 0, 0));
    assert_eq!(s.get_pixel(1, 0), Color::new(0, 255, 0));
    assert!(Sprite::load_image_bytes(&[1, 2, 3]).is_err());
}

#[test]
fn sprite_clone_copies_pixels() {
    let mut s = Sprite::new(2, 2);
    s.set_pixel(1, 0, Color::yellow());
    let c = s.clone();
    assert_eq!(c.get_pixel(1, 0), Color::yellow());
    assert_eq!(*c.size(), vu(2, 2));
    s.set_pixel(1, 0, Color::blue());
    assert_eq!(c.get_pixel(1, 0), Color::yellow());
}

#[test]
fn sprite_trait_get_and_set() {
    let mut s = Sprite::new(2, 2);
    DrawSpriteTrait::set_pixel(&mut s, vi(1, 1), Color::white());
    DrawSpriteTrait::set_pixel(&mut s, vi(-1, 1), Color::white());
    assert_eq!(DrawSpriteTrait::get_pixel(&s, vi(1, 1)), Some(Color::white()));
    assert_eq!(DrawSpriteTrait::get_pixel(&s, vi(-1, 0)), None);
    assert_eq!(DrawSpriteTrait::get_pixel(&s, vi(2, 0)), None);
    assert_eq!(DrawSpriteTrait::size(&s), vu(2, 2));
    s.set_pixel_unchecked(vu(0, 1), Color::red());
    assert_eq!(s.get_pixel_unchecked(vu(0, 1)), Color::red());
}

#[test]
fn user_grid_implements_trait() {
    let mut g = Grid { w: 2, h: 2, cells: vec![Color::black(); 4] };
    DrawSpriteTrait::set_pixel(&mut g, Vec2d { x: 1, y: 1 }, Color::white());
    assert_eq!(DrawSpriteTrait::get_pixel(&g, Vec2d { x: 1, y: 1 }), Some(Color::white()));
}

#[test]
fn area_overlap_is_pixel_sharing() {
    let a = Area { pos: vu(0, 0), size: vu(10, 10) };
    let same = Area { pos: vu(0, 0), size: vu(10, 10) };
    let right = Area { pos: vu(10, 0), size: vu(10, 10) };
    let far_below = Area { pos: vu(5, 50), size: vu(1, 1) };
    let inside = Area { pos: vu(3, 3), size: vu(2, 2) };
    assert!(a.overlap(&same));
    assert!(a.overlap(&inside));
    assert!(inside.overlap(&a));
    assert!(!a.overlap(&right));
    assert!(!a.overlap(&far_below));
    assert!(!far_below.overlap(&a));
}

#[test]
fn sub_sprites_in_four_quadrants() {
    let mut spr = Sprite::new_with_color(20, 20, Color::green());
    let sub1 = spr.create_sub_sprite(vi(0, 0), vu(10, 10)).unwrap();
    let sub2 = spr.create_sub_sprite(vi(0, 10), vu(10, 10)).unwrap();
    let sub3 = spr.create_sub_sprite(vi(10, 0), vu(10, 10)).unwrap();
    let sub4 = spr.create_sub_sprite(vi(10, 10), vu(10, 10)).unwrap();
    for (sub, col) in [(&sub1, Color::blue()), (&sub2, Color::yellow()), (&sub3, Color::white()), (&sub4, Color::black())] {
        for y in 0..10u32 {
            for x in 0..10u32 {
                sub.set_pixel(&mut spr, vu(x, y), col);
            }
        }
    }
    assert_eq!(spr.get_pixel(0, 0), Color::blue());
    assert_eq!(spr.get_pixel(9, 19), Color::yellow());
    assert_eq!(spr.get_pixel(19, 0), Color::white());
    assert_eq!(spr.get_pixel(10, 10), Color::black());
    assert_eq!(sub4.get_pixel(&spr, vu(0, 0)), Some(Color::black()));
    assert_eq!(sub4.get_pixel(&spr, vu(10, 0)), None);
    assert_eq!(sub2.pos(), vu(0, 10));
    assert_eq!(sub2.size(), vu(10, 10));
}

#[test]
fn overlapping_sub_sprite_is_refused() {
    let mut spr = Sprite::new(8, 8);
    let sub = spr.create_sub_sprite(vi(0, 0), vu(4, 4)).unwrap();
    assert_eq!(spr.create_sub_sprite(vi(3, 3), vu(2, 2)).err(), Some(OverlappingError));
    assert_eq!(spr.create_sub_sprite(vi(0, 0), vu(4, 4)).err(), Some(OverlappingError));
    spr.release_sub_sprite(sub);
    let again = spr.create_sub_sprite(vi(0, 0), vu(4, 4));
    assert!(again.is_ok());
}

#[test]
fn sub_sprite_is_clipped() {
    let mut spr = Sprite::new(10, 10);
    let sub = spr.create_sub_sprite(vi(-2, 3), vu(5, 20)).unwrap();
    assert_eq!(sub.pos(), vu(0, 3));
    assert_eq!(sub.size(), vu(3, 7));
    let edge = spr.create_sub_sprite(vi(8, 0), vu(5, 2)).unwrap();
    assert_eq!(edge.pos(), vu(8, 0));
    assert_eq!(edge.size(), vu(2, 2));
    sub.set_pixel(&mut spr, vu(2, 6), Color::red());
    assert_eq!(spr.get_pixel(2, 9), Color::red());
    sub.set_pixel(&mut spr, vu(3, 0), Color::red());
    assert_eq!(spr.get_pixel(3, 3), Color::blank());
}

#[test]
fn sub_sprite_handle_without_check() {
    let mut spr = Sprite::new(4, 4);
    let sub = spr.create_sub_sprite(vi(1, 1), vu(2, 2)).unwrap();
    let other = spr.create_sub_sprite_unchecked(sub.pos(), sub.size(), 0);
    assert_eq!(other.pos(), vu(1, 1));
    assert_eq!(other.size(), vu(2, 2));
}

#[test]
fn overlapping_error_message() {
    assert_eq!(OverlappingError.to_string(), "Tried to create overlapping subsprite");
}

#[test]
fn sub_sprite_as_pixel_target() {
    let mut spr = Sprite::new(6, 6);
    let sub = spr.create_sub_sprite(vi(2, 3), vu(3, 2)).unwrap();
    {
        let mut t = pixel_engine::sprite::SubSprite::new(&sub, &mut spr);
        assert_eq!(DrawSpriteTrait::size(&t), vu(3, 2));
        DrawSpriteTrait::set_pixel(&mut t, vi(1, 1), Color::red());
        DrawSpriteTrait::set_pixel(&mut t, vi(3, 0), Color::red());
        DrawSpriteTrait::set_pixel(&mut t, vi(-1, 0), Color::red());
        t.set_pixel_unchecked(vu(0, 0), Color::blue());
        assert_eq!(DrawSpriteTrait::get_pixel(&t, vi(1, 1)), Some(Color::red()));
        assert_eq!(DrawSpriteTrait::get_pixel(&t, vi(3, 1)), None);
        assert_eq!(t.get_pixel_unchecked(vu(0, 0)), Color::blue());
    }
    assert_eq!(spr.get_pixel(3, 4), Color::red());
    assert_eq!(spr.get_pixel(2, 3), Color::blue());
    assert_eq!(spr.get_pixel(5, 3), Color::blank());
}

#[test]
fn sub_sprite_fully_cut_off_is_empty() {
    let mut spr = Sprite::new(20, 20);
    let sub = spr.create_sub_sprite(vi(-5, 0), vu(3, 3)).unwrap();
    assert_eq!(sub.size(), vu(0, 3));
    assert_eq!(sub.pos(), vu(0, 0));
    let again = spr.create_sub_sprite(vi(0, 0), vu(3, 3));
    assert!(again.is_ok());
    let far = spr.create_sub_sprite(vi(i32::MIN, i32::MIN), vu(u32::MAX, 1)).unwrap();
    assert_eq!(far.size(), vu(20, 0));
}

#[test]
fn clear_sets_every_pixel() {
    let mut s = Sprite::new(3, 2);
    s.set_pixel(1, 1, Color::red());
    pixel_engine::sprite::clear_pixels(&mut s, Color::cyan());
    for y in 0..2 {
        for x in 0..3 {
            assert_eq!(s.get_pixel(x, y), Color::cyan());
        }
    }
    let mut spr = Sprite::new(4, 4);
    let sub = spr.create_sub_sprite(vi(1, 1), vu(2, 2)).unwrap();
    {
        let mut t = pixel_engine::sprite::SubSprite::new(&sub, &mut spr);
        pixel_engine::sprite::clear_pixels(&mut t, Color::red());
    }
    assert_eq!(spr.get_pixel(2, 2), Color::red());
    assert_eq!(spr.get_pixel(3, 3), Color::blank());
}

#[test]
fn sub_sprite_writes_stay_inside() {
    let mut spr = Sprite::new(8, 8);
    let left = spr.create_sub_sprite(vi(0, 0), vu(4, 8)).unwrap();
    let right = spr.create_sub_sprite(vi(4, 0), vu(4, 8)).unwrap();
    {
        let mut t = pixel_engine::sprite::SubSprite::new(&left, &mut spr);
        for x in -2..10 {
            for y in -2..10 {
                DrawSpriteTrait::set_pixel(&mut t, vi(x, y), Color::red());
            }
        }
    }
    for x in 0..8u32 {
        for y in 0..8u32 {
            let expected = if x < 4 { Color::red() } else { Color::blank() };
            assert_eq!(spr.get_pixel(x, y), expected);
        }
    }
    spr.release_sub_sprite(left);
    spr.release_sub_sprite(right);
}
