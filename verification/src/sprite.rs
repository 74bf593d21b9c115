use vstd::prelude::*;

use crate::color::Color;
use slab::Slab;
use crate::vector2::{Vi2d, Vu2d, Vec2d};

verus! {

/// Pixel `(x, y)` of a `w` pixels wide RGBA buffer starts at byte `(y * w + x) * 4`.
pub open spec fn pixel_offset(w: int, x: int, y: int) -> int {
    (y * w + x) * 4
}

/// The color stored at byte `i` onwards of an RGBA buffer.
pub open spec fn color_at(bytes: Seq<u8>, i: int) -> Color {
    Color { r: bytes[i], g: bytes[i + 1], b: bytes[i + 2], a: bytes[i + 3] }
}

/// The color of the `p`-th pixel of an RGBA buffer.
pub open spec fn nth_color(bytes: Seq<u8>, p: int) -> Color {
    color_at(bytes, 4 * p)
}

/// Distinct pixels of a `w` wide grid have distinct offsets, and every pixel
/// of a `w` by `h` grid lies inside its buffer.
pub proof fn lemma_pixel_offset(w: int, h: int, x: int, y: int, i: int, j: int)
    requires
        0 <= x < w,
        0 <= y < h,
        0 <= i < w,
        0 <= j < h,
    ensures
        0 <= pixel_offset(w, x, y),
        pixel_offset(w, x, y) + 4 <= w * h * 4,
        (x != i || y != j) ==> (pixel_offset(w, x, y) + 4 <= pixel_offset(w, i, j)
            || pixel_offset(w, i, j) + 4 <= pixel_offset(w, x, y)),
{
    assert(0 <= y * w + x < w * h) by (nonlinear_arith)
        requires
            0 <= x < w,
            0 <= y < h,
    ;
    if x != i || y != j {
        assert(y * w + x != j * w + i) by (nonlinear_arith)
            requires
                0 <= x < w,
                0 <= i < w,
                x != i || y != j,
        {
            if y == j {
            } else if y < j {
                assert(y * w + w <= j * w);
            } else {
                assert(j * w + w <= y * w);
            }
        }
    }
}

/// A rectangle of pixels: top left corner `pos`, `size.x` wide and `size.y` high.
#[derive(Clone, Copy, Debug, Eq, PartialEq, Structural)]
pub struct Area {
    /// Top left corner
    pub pos: Vu2d,
    /// Width and height
    pub size: Vu2d,
}

/// Whether the two rectangles share at least one pixel.
pub open spec fn areas_overlap(a: Area, b: Area) -> bool {
    &&& a.pos.x < b.pos.x + b.size.x
    &&& b.pos.x < a.pos.x + a.size.x
    &&& a.pos.y < b.pos.y + b.size.y
    &&& b.pos.y < a.pos.y + a.size.y
}

impl Area {
    /// Whether the two areas share at least one pixel.
    pub fn overlap(&self, other: &Self) -> (b: bool)
        ensures
            b == areas_overlap(*self, *other),
    {
        let ax = self.pos.x as u64;
        let ay = self.pos.y as u64;
        let bx = other.pos.x as u64;
        let by = other.pos.y as u64;
        ax < bx + other.size.x as u64 && bx < ax + self.size.x as u64 && ay < by
            + other.size.y as u64 && by < ay + self.size.y as u64
    }
}

/// `slab::Slab`, the registry of the sub sprite areas that are in use.
#[verifier::external_type_specification]
#[verifier::external_body]
#[verifier::reject_recursive_types(T)]
pub struct ExSlab<T>(Slab<T>);

/// The empty registry.
pub open spec fn no_areas() -> Map<usize, Area> {
    Map::empty()
}

/// What a registry of areas holds: each occupied key with its area.
pub uninterp spec fn registry_contents(s: Slab<Area>) -> Map<usize, Area>;

/// `Slab::new`: the new slab holds nothing.
#[verifier::external_body]
fn registry_new() -> (fresh: Slab<Area>)
    ensures
        registry_contents(fresh) == no_areas(),
{
    slab::Slab::new()
}

/// `Slab::insert`: stores the area under a key that was vacant and returns that key.
/// The slab's own panic when its storage would pass `isize::MAX` bytes is not stated.
#[verifier::external_body]
fn registry_insert(s: &mut Slab<Area>, area: Area) -> (key: usize)
    ensures
        !registry_contents(*old(s)).dom().contains(key),
        registry_contents(*final(s)) == registry_contents(*old(s)).insert(key, area),
{
    s.insert(area)
}

/// `Slab::remove`: takes out and returns the area stored under an occupied key.
#[verifier::external_body]
fn registry_remove(s: &mut Slab<Area>, key: usize) -> (area: Area)
    requires
        registry_contents(*old(s)).dom().contains(key),
    ensures
        area == registry_contents(*old(s))[key],
        registry_contents(*final(s)) == registry_contents(*old(s)).remove(key),
{
    s.remove(key)
}

/// `Slab::iter`, each stored area copied out: every area of the result is stored in the
/// slab, and every stored area is in the result.
#[verifier::external_body]
fn registry_areas(s: &Slab<Area>) -> (v: Vec<Area>)
    ensures
        forall|i: int|
            #![trigger v@[i]]
            0 <= i < v@.len() ==> exists|k: usize|
                #![trigger registry_contents(*s)[k]]
                registry_contents(*s).dom().contains(k) && registry_contents(*s)[k] == v@[i],
        forall|k: usize|
            #![trigger registry_contents(*s).dom().contains(k)]
            registry_contents(*s).dom().contains(k) ==> exists|i: int|
                #![trigger v@[i]]
                0 <= i < v@.len() && v@[i] == registry_contents(*s)[k],
{
    s.iter().map(|(_, a)| *a).collect()
}

/// Whether an area lies inside a `w` by `h` sprite.
pub open spec fn area_inside(a: Area, w: u32, h: u32) -> bool {
    a.pos.x + a.size.x <= w && a.pos.y + a.size.y <= h
}

/// Whether every area of the map lies inside a `w` by `h` sprite and no two of them overlap.
pub open spec fn areas_valid(m: Map<usize, Area>, w: u32, h: u32) -> bool {
    &&& forall|k: usize| #[trigger] m.dom().contains(k) ==> area_inside(m[k], w, h)
    &&& forall|k1: usize, k2: usize|
        #[trigger] m.dom().contains(k1) && #[trigger] m.dom().contains(k2) && k1 != k2
            ==> !areas_overlap(m[k1], m[k2])
}

/// A copy of the bytes.
fn slice_to_vec(v: &[u8]) -> (r: Vec<u8>)
    ensures
        r@ == v@,
{
    let mut r: Vec<u8> = Vec::with_capacity(v.len());
    let mut i: usize = 0;
    while i < v.len()
        invariant
            i <= v@.len(),
            r@ == v@.take(i as int),
        decreases v@.len() - i,
    {
        r.push(v[i]);
        i = i + 1;
        assert(r@ =~= v@.take(i as int));
    }
    assert(v@.take(v@.len() as int) =~= v@);
    r
}

/// A picture: a grid of RGBA pixels, stored row by row.
#[derive(Debug)]
pub struct Sprite {
    raw: Vec<u8>,
    size: Vu2d,
    areas: Slab<Area>,
}

impl Sprite {
    /// Well-formedness: the buffer holds exactly four bytes per pixel.
    pub closed spec fn wf(&self) -> bool {
        &&& self.raw@.len() == self.size.x * self.size.y * 4
        &&& areas_valid(registry_contents(self.areas), self.size.x, self.size.y)
    }

    /// The areas of the sub sprites in use, by key.
    pub closed spec fn areas(&self) -> Map<usize, Area> {
        registry_contents(self.areas)
    }

    /// Width in pixels
    pub closed spec fn spec_width(&self) -> u32 {
        self.size.x
    }

    /// Height in pixels
    pub closed spec fn spec_height(&self) -> u32 {
        self.size.y
    }

    /// The raw RGBA data, row by row
    pub closed spec fn bytes(&self) -> Seq<u8> {
        self.raw@
    }

    /// Whether `(x, y)` is a pixel of the sprite.
    pub open spec fn in_bounds(&self, x: int, y: int) -> bool {
        0 <= x < self.spec_width() && 0 <= y < self.spec_height()
    }

    /// The color of pixel `(x, y)`.
    pub open spec fn pixel(&self, x: int, y: int) -> Color {
        color_at(self.bytes(), pixel_offset(self.spec_width() as int, x, y))
    }

    /// Whether the sprite is `w` by `h` and every pixel has color `col`.
    pub open spec fn is_filled(&self, w: u32, h: u32, col: Color) -> bool {
        &&& self.spec_width() == w
        &&& self.spec_height() == h
        &&& forall|x: int, y: int| #[trigger] self.in_bounds(x, y) ==> self.pixel(x, y) == col
    }

    /// The size of the sprite, `(width, height)`.
    pub fn size(&self) -> (s: &Vu2d)
        ensures
            *s == self.spec_size(),
    {
        &self.size
    }

    /// The size of the sprite, `(width, height)`.
    pub open spec fn spec_size(&self) -> Vu2d {
        Vec2d { x: self.spec_width(), y: self.spec_height() }
    }

    /// Width in pixels
    #[verifier::when_used_as_spec(spec_width)]
    pub fn width(&self) -> (w: u32)
        ensures
            w == self.spec_width(),
    {
        self.size.x
    }

    /// Height in pixels
    #[verifier::when_used_as_spec(spec_height)]
    pub fn height(&self) -> (h: u32)
        ensures
            h == self.spec_height(),
    {
        self.size.y
    }

    /// The raw RGBA data, four bytes per pixel, row by row.
    pub fn get_raw(&self) -> (r: &[u8])
        ensures
            r@ == self.bytes(),
    {
        self.raw.as_slice()
    }

    /// The byte offset of pixel `(x, y)`.
    fn offset(&self, x: u32, y: u32) -> (i: usize)
        requires
            self.wf(),
            self.in_bounds(x as int, y as int),
        ensures
            i == pixel_offset(self.spec_width() as int, x as int, y as int),
            i + 4 <= self.bytes().len(),
    {
        proof {
            lemma_pixel_offset(self.size.x as int, self.size.y as int, x as int, y as int, x as int, y as int);
            assert(0 <= y * self.size.x <= y * self.size.x + x) by (nonlinear_arith)
                requires
                    0 <= y,
                    0 <= x,
                    0 <= self.size.x,
            ;
        }
        let n = self.raw.len();
        let w = self.size.x as usize;
        let row = (y as usize) * w;
        (row + (x as usize)) * 4
    }

    /// A `w` by `h` buffer whose every pixel has color `col`.
    fn filled_buffer(w: u32, h: u32, col: Color) -> (raw: Vec<u8>)
        requires
            w * h * 4 <= usize::MAX,
        ensures
            raw@.len() == w * h * 4,
            forall|p: int| 0 <= p < w * h ==> #[trigger] nth_color(raw@, p) == col,
    {
        let n = (w as usize) * (h as usize);
        let mut raw: Vec<u8> = Vec::with_capacity(n * 4);
        let mut k: usize = 0;
        while k < n
            invariant
                n == w * h,
                n * 4 <= usize::MAX,
                k <= n,
                raw@.len() == 4 * k,
                forall|p: int| 0 <= p < k ==> #[trigger] nth_color(raw@, p) == col,
            decreases n - k,
        {
            let ghost before = raw@;
            raw.push(col.r);
            raw.push(col.g);
            raw.push(col.b);
            raw.push(col.a);
            proof {
                assert forall|p: int| 0 <= p < k + 1 implies #[trigger] nth_color(raw@, p) == col by {
                    if p < k {
                        assert(nth_color(before, p) == col);
                    }
                }
            }
            k = k + 1;
        }
        raw
    }

    proof fn lemma_filled(&self, col: Color)
        requires
            self.wf(),
            forall|p: int| 0 <= p < self.spec_width() * self.spec_height() ==> #[trigger] nth_color(self.bytes(), p) == col,
        ensures
            self.is_filled(self.spec_width(), self.spec_height(), col),
    {
        let w = self.spec_width() as int;
        let h = self.spec_height() as int;
        assert forall|x: int, y: int| #[trigger] self.in_bounds(x, y) implies self.pixel(x, y) == col by {
            assert(0 <= y * w + x < w * h) by (nonlinear_arith)
                requires
                    0 <= x < w,
                    0 <= y < h,
            ;
            assert(pixel_offset(w, x, y) == 4 * (y * w + x));
            assert(nth_color(self.bytes(), y * w + x) == col);
        }
    }

    /// A `w` by `h` sprite whose every pixel has color `col`.
    pub fn new_with_color(w: u32, h: u32, col: Color) -> (s: Sprite)
        requires
            w * h * 4 <= usize::MAX,
        ensures
            s.wf(),
            s.is_filled(w, h, col),
            s.areas() == no_areas(),
    {
        let raw = Self::filled_buffer(w, h, col);
        let s = Sprite { raw, size: Vec2d { x: w, y: h }, areas: registry_new() };
        proof {
            s.lemma_filled(col);
        }
        s
    }

    /// A `w` by `h` sprite whose every pixel is fully transparent black (all bytes zero).
    pub fn new(w: u32, h: u32) -> (s: Sprite)
        requires
            w * h * 4 <= usize::MAX,
        ensures
            s.wf(),
            s.is_filled(w, h, Color::spec_blank()),
            s.areas() == no_areas(),
    {
        Self::new_with_color(w, h, Color::blank())
    }

    /// A 1 by 1 sprite holding one fully transparent black pixel.
    pub fn new_blank() -> (s: Sprite)
        ensures
            s.wf(),
            s.is_filled(1, 1, Color::spec_blank()),
            s.areas() == no_areas(),
    {
        Self::new(1, 1)
    }

    /// A sprite holding a copy of the RGBA data `rgba`, `width` by `height` pixels.
    /// Fails with `"Wrong Image len"` when the data is not exactly four bytes per pixel.
    pub fn load_rgba(rgba: &[u8], width: usize, height: usize) -> (r: Result<Sprite, String>)
        requires
            rgba@.len() == width * height * 4 ==> width <= u32::MAX && height <= u32::MAX,
        ensures
            match r {
                Ok(s) => {
                    &&& rgba@.len() == width * height * 4
                    &&& s.wf()
                    &&& s.spec_width() == width
                    &&& s.spec_height() == height
                    &&& s.bytes() == rgba@
                    &&& s.areas() == no_areas()
                },
                Err(e) => rgba@.len() != width * height * 4 && e@ == "Wrong Image len"@,
            },
    {
        let len = rgba.len();
        let pixels = len / 4;
        let matches = if len % 4 != 0 {
            false
        } else if width == 0 || height == 0 {
            pixels == 0
        } else {
            pixels % width == 0 && pixels / width == height
        };
        proof {
            if len % 4 == 0 {
                assert(len == pixels * 4);
                if width != 0 && height != 0 {
                    if pixels % width == 0 && pixels / width == height {
                        assert(pixels == width * (pixels / width)) by (nonlinear_arith)
                            requires
                                width > 0,
                                pixels % width == 0,
                        ;
                        assert(width * height * 4 == (width * height) * 4) by (nonlinear_arith);
                    } else {
                        assert(pixels != width * height) by (nonlinear_arith)
                            requires
                                width > 0,
                                !(pixels % width == 0 && pixels / width == height),
                        {
                            if pixels == width * height {
                                let w = width as int;
                                let h = height as int;
                                assert((w * h) % w == 0 && (w * h) / w == h)
                                    by (nonlinear_arith)
                                    requires w > 0;
                            }
                        }
                        assert(width * height * 4 == (width * height) * 4) by (nonlinear_arith);
                    }
                } else {
                    assert(width * height == 0) by (nonlinear_arith)
                        requires
                            width == 0 || height == 0,
                    ;
                }
            } else {
                assert((width * height * 4) % 4 == 0) by (nonlinear_arith);
            }
        }
        if !matches {
            return Err("Wrong Image len".to_string());
        }
        let raw = slice_to_vec(rgba);
        Ok(Sprite { raw, size: Vec2d { x: width as u32, y: height as u32 }, areas: registry_new() })
    }

    /// Set the color of pixel `(x, y)`; nothing happens if it lies outside the sprite.
    pub fn set_pixel(&mut self, x: u32, y: u32, col: Color)
        requires
            old(self).wf(),
        ensures
            final(self).wf(),
            final(self).spec_size() == old(self).spec_size(),
            forall|i: int, j: int| #[trigger]
                final(self).in_bounds(i, j) ==> final(self).pixel(i, j) == if i == x && j == y {
                    col
                } else {
                    old(self).pixel(i, j)
                },
            !old(self).in_bounds(x as int, y as int) ==> final(self).bytes() == old(self).bytes(),
            final(self).areas() == old(self).areas(),
    {
        if y >= self.size.y || x >= self.size.x {
            return ;
        }
        let i = self.offset(x, y);
        let ghost before = self.raw@;
        self.raw.set(i, col.r);
        self.raw.set(i + 1, col.g);
        self.raw.set(i + 2, col.b);
        self.raw.set(i + 3, col.a);
        proof {
            let w = self.size.x as int;
            let h = self.size.y as int;
            assert forall|a: int, b: int| #[trigger] self.in_bounds(a, b) implies self.pixel(a, b)
                == if a == x && b == y {
                col
            } else {
                old(self).pixel(a, b)
            } by {
                lemma_pixel_offset(w, h, x as int, y as int, a, b);
                lemma_pixel_offset(w, h, a, b, a, b);
                let o = pixel_offset(w, a, b);
                if a != x || b != y {
                    assert(self.raw@[o] == before[o]);
                    assert(self.raw@[o + 1] == before[o + 1]);
                    assert(self.raw@[o + 2] == before[o + 2]);
                    assert(self.raw@[o + 3] == before[o + 3]);
                }
            }
        }
    }

    /// The color of pixel `(x, y)`, or fully transparent black when it lies outside the sprite.
    pub fn get_pixel(&self, x: u32, y: u32) -> (c: Color)
        requires
            self.wf(),
        ensures
            c == if self.in_bounds(x as int, y as int) {
                self.pixel(x as int, y as int)
            } else {
                Color::spec_blank()
            },
    {
        if x >= self.size.x || y >= self.size.y {
            return Color::blank();
        }
        let i = self.offset(x, y);
        Color { r: self.raw[i], g: self.raw[i + 1], b: self.raw[i + 2], a: self.raw[i + 3] }
    }
}

/// Returned when a new sub sprite would share pixels with one already in use.
#[derive(Debug, Clone, Copy, Eq, PartialEq, Structural)]
pub struct OverlappingError;

impl OverlappingError {
    /// The error's message.
    pub fn to_string(&self) -> (s: String)
        ensures
            s@ == "Tried to create overlapping subsprite"@,
    {
        "Tried to create overlapping subsprite".to_string()
    }
}

/// The coordinate and the length, along one axis, of a sub sprite asked for at `pos` with
/// length `len` inside a parent of length `limit`: a negative part is cut off (all of it
/// when it is longer than `len`), as is any part past the end.
pub open spec fn clip_axis(pos: i32, len: u32, limit: u32) -> (u32, u32) {
    let (start, len) = if pos < 0 {
        (0u32, if len + pos >= 0 { (len + pos) as u32 } else { 0u32 })
    } else {
        (if pos <= limit { pos as u32 } else { limit }, len)
    };
    (start, if len <= limit - start { len } else { (limit - start) as u32 })
}

/// The area that a sub sprite asked for at `pos` of `size` covers in a `w` by `h` sprite.
pub open spec fn clipped_area(pos: Vi2d, size: Vu2d, w: u32, h: u32) -> Area {
    let (x, sx) = clip_axis(pos.x, size.x, w);
    let (y, sy) = clip_axis(pos.y, size.y, h);
    Area { pos: Vec2d { x, y }, size: Vec2d { x: sx, y: sy } }
}

fn clip(pos: i32, len: u32, limit: u32) -> (r: (u32, u32))
    ensures
        r == clip_axis(pos, len, limit),
{
    let (start, len) = if pos < 0 {
        let cut: i64 = -(pos as i64);
        (0u32, if len as i64 >= cut { (len as i64 - cut) as u32 } else { 0u32 })
    } else {
        (if (pos as u32) <= limit { pos as u32 } else { limit }, len)
    };
    (start, if len <= limit - start { len } else { limit - start })
}

/// A handle on a rectangle of a parent sprite that is reserved for one writer.
/// Reading and writing through the handle takes the parent sprite, and the handle
/// is given back with [`Sprite::release_sub_sprite`].
#[derive(Debug)]
pub struct SpriteMutRef {
    /// Top left of the subsprite (in pixels)
    pos: Vu2d,
    /// Size of the subsprite (in pixels)
    size: Vu2d,
    /// The key of the area in the parent's registry
    index: usize,
}

impl SpriteMutRef {
    /// The rectangle of the parent that the handle covers.
    pub closed spec fn area(&self) -> Area {
        Area { pos: self.pos, size: self.size }
    }

    /// The key under which the parent holds the handle's area.
    pub closed spec fn key(&self) -> usize {
        self.index
    }

    /// Whether `p` lies inside the handle's rectangle.
    pub open spec fn contains(&self, p: Vu2d) -> bool {
        p.x < self.area().size.x && p.y < self.area().size.y
    }

    /// The size of the sub sprite.
    pub fn size(&self) -> (s: Vu2d)
        ensures
            s == self.area().size,
    {
        self.size
    }

    /// The position, in the parent, of the sub sprite's top left corner.
    pub fn pos(&self) -> (p: Vu2d)
        ensures
            p == self.area().pos,
    {
        self.pos
    }

    /// The color of pixel `p` of the sub sprite, read from its parent `spr`, or `None`
    /// when `p` lies outside the sub sprite.
    pub fn get_pixel(&self, spr: &Sprite, p: Vu2d) -> (c: Option<Color>)
        requires
            spr.wf(),
            area_inside(self.area(), spr.spec_width(), spr.spec_height()),
        ensures
            c == if self.contains(p) {
                Some(spr.pixel(self.area().pos.x + p.x, self.area().pos.y + p.y))
            } else {
                None
            },
    {
        if p.x >= self.size.x || p.y >= self.size.y {
            return None;
        }
        Some(spr.get_pixel(self.pos.x + p.x, self.pos.y + p.y))
    }

    /// Set the color of pixel `p` of the sub sprite in its parent `spr`; nothing happens
    /// when `p` lies outside the sub sprite.
    pub fn set_pixel(&self, spr: &mut Sprite, p: Vu2d, col: Color)
        requires
            old(spr).wf(),
            area_inside(self.area(), old(spr).spec_width(), old(spr).spec_height()),
        ensures
            final(spr).wf(),
            final(spr).spec_size() == old(spr).spec_size(),
            final(spr).areas() == old(spr).areas(),
            forall|i: int, j: int| #[trigger]
                final(spr).in_bounds(i, j) ==> final(spr).pixel(i, j) == if self.contains(p) && i
                    == self.area().pos.x + p.x && j == self.area().pos.y + p.y {
                    col
                } else {
                    old(spr).pixel(i, j)
                },
    {
        if p.x >= self.size.x || p.y >= self.size.y {
            return ;
        }
        spr.set_pixel(self.pos.x + p.x, self.pos.y + p.y, col);
    }
}

impl Sprite {
    /// Reserve the rectangle at `pos` of `size` as a sub sprite. A negative part of
    /// `pos` is cut off, as is any part past the sprite's edge (see [`clipped_area`]).
    /// Fails when that rectangle shares a pixel with a sub sprite already in use.
    pub fn create_sub_sprite(&mut self, pos: Vi2d, size: Vu2d) -> (r: Result<
        SpriteMutRef,
        OverlappingError,
    >)
        requires
            old(self).wf(),
        ensures
            final(self).wf(),
            final(self).spec_size() == old(self).spec_size(),
            final(self).bytes() == old(self).bytes(),
            ({
                let area = clipped_area(pos, size, old(self).spec_width(), old(self).spec_height());
                match r {
                    Ok(sub) => {
                        &&& sub.area() == area
                        &&& !old(self).areas().dom().contains(sub.key())
                        &&& final(self).areas() == old(self).areas().insert(sub.key(), area)
                        &&& forall|k: usize| #[trigger]
                            old(self).areas().dom().contains(k) ==> !areas_overlap(
                                old(self).areas()[k],
                                area,
                            )
                    },
                    Err(_) => {
                        &&& final(self).areas() == old(self).areas()
                        &&& exists|k: usize| #[trigger]
                            old(self).areas().dom().contains(k) && areas_overlap(
                                old(self).areas()[k],
                                area,
                            )
                    },
                }
            }),
    {
        let (x, sx) = clip(pos.x, size.x, self.size.x);
        let (y, sy) = clip(pos.y, size.y, self.size.y);
        let area = Area { pos: Vec2d { x, y }, size: Vec2d { x: sx, y: sy } };
        let existing = registry_areas(&self.areas);
        let mut i: usize = 0;
        #[verifier::loop_isolation(false)]
        while i < existing.len()
            invariant
                i <= existing@.len(),
                forall|j: int| 0 <= j < i ==> !areas_overlap(#[trigger] existing@[j], area),
            decreases existing@.len() - i,
        {
            if existing[i].overlap(&area) {
                proof {
                    let j = i as int;
                    assert(existing@[j] == existing@[j]);
                    let k = choose|k: usize| #![trigger registry_contents(self.areas)[k]]
                        registry_contents(self.areas).dom().contains(k)
                            && registry_contents(self.areas)[k] == existing@[j];
                    assert(old(self).areas().dom().contains(k));
                }
                return Err(OverlappingError);
            }
            i = i + 1;
        }
        proof {
            assert forall|k: usize| #[trigger]
                old(self).areas().dom().contains(k) implies !areas_overlap(old(self).areas()[k], area)
            by {
                assert(registry_contents(self.areas).dom().contains(k));
                let j = choose|j: int| #![trigger existing@[j]]
                    0 <= j < existing@.len() && existing@[j] == registry_contents(self.areas)[k];
                assert(!areas_overlap(existing@[j], area));
            }
        }
        let index = registry_insert(&mut self.areas, area);
        proof {
            let m = registry_contents(self.areas);
            assert forall|k1: usize, k2: usize|
                #[trigger] m.dom().contains(k1) && #[trigger] m.dom().contains(k2) && k1 != k2
                    implies !areas_overlap(m[k1], m[k2]) by {
                if k1 != index && k2 != index {
                    assert(old(self).areas().dom().contains(k1));
                    assert(old(self).areas().dom().contains(k2));
                } else if k1 == index {
                    assert(old(self).areas().dom().contains(k2));
                    assert(!areas_overlap(old(self).areas()[k2], area));
                } else {
                    assert(old(self).areas().dom().contains(k1));
                    assert(!areas_overlap(old(self).areas()[k1], area));
                }
            }
            assert forall|k: usize| #[trigger] m.dom().contains(k) implies area_inside(
                m[k],
                self.size.x,
                self.size.y,
            ) by {
                if k != index {
                    assert(old(self).areas().dom().contains(k));
                }
            }
        }
        Ok(SpriteMutRef { pos: area.pos, size: area.size, index })
    }

    /// A handle on the area registered under `index`, made without any check: the area
    /// must already be registered under that key, at `pos` and of `size`.
    pub fn create_sub_sprite_unchecked(&self, pos: Vu2d, size: Vu2d, index: usize) -> (r: SpriteMutRef)
        requires
            self.wf(),
            self.areas().dom().contains(index),
            self.areas()[index] == (Area { pos, size }),
        ensures
            r.area() == (Area { pos, size }),
            r.key() == index,
            area_inside(r.area(), self.spec_width(), self.spec_height()),
    {
        SpriteMutRef { pos, size, index }
    }

    /// Give back a sub sprite that this sprite handed out: its area is free again for new
    /// sub sprites.
    pub fn release_sub_sprite(&mut self, sub: SpriteMutRef)
        requires
            old(self).wf(),
            old(self).areas().dom().contains(sub.key()),
            old(self).areas()[sub.key()] == sub.area(),
        ensures
            final(self).wf(),
            final(self).spec_size() == old(self).spec_size(),
            final(self).bytes() == old(self).bytes(),
            final(self).areas() == old(self).areas().remove(sub.key()),
    {
        let _ = registry_remove(&mut self.areas, sub.index);
        proof {
            let m = registry_contents(self.areas);
            assert forall|k: usize| #[trigger] m.dom().contains(k) implies old(self).areas().dom().contains(k) by {}
        }
    }
}

/// Live sub sprites never overlap: any two areas that a well formed sprite holds for
/// its sub sprites share no pixel, and each lies inside the sprite.
pub proof fn lemma_sub_sprites_disjoint(s: &Sprite, k1: usize, k2: usize)
    requires
        s.wf(),
        s.areas().dom().contains(k1),
        s.areas().dom().contains(k2),
    ensures
        k1 != k2 ==> !areas_overlap(s.areas()[k1], s.areas()[k2]),
        area_inside(s.areas()[k1], s.spec_width(), s.spec_height()),
{
}

/// Whether pixel `(x, y)` lies inside area `a`.
pub open spec fn area_contains(a: Area, x: int, y: int) -> bool {
    a.pos.x <= x < a.pos.x + a.size.x && a.pos.y <= y < a.pos.y + a.size.y
}

/// Two sub sprites in use never reach the same pixel of their parent: a pixel inside the
/// area of one lies outside the area of every other.
pub proof fn lemma_sub_sprites_never_share_pixels(s: &Sprite, k1: usize, k2: usize, x: int, y: int)
    requires
        s.wf(),
        s.areas().dom().contains(k1),
        s.areas().dom().contains(k2),
        k1 != k2,
        area_contains(s.areas()[k1], x, y),
    ensures
        !area_contains(s.areas()[k2], x, y),
{
}

/// Overlapping does not depend on the order of the two areas.
pub proof fn lemma_overlap_symmetric(a: Area, b: Area)
    ensures
        areas_overlap(a, b) == areas_overlap(b, a),
{
}

/// Giving back a sub sprite right after creating it leaves the registry of areas in use as it
/// was: [`Sprite::create_sub_sprite`] adds the area under a key that was not in use, and
/// [`Sprite::release_sub_sprite`] removes that key.
pub proof fn lemma_release_undoes_create(before: Map<usize, Area>, key: usize, area: Area)
    requires
        !before.dom().contains(key),
    ensures
        before.insert(key, area).remove(key) == before,
{
    assert(before.insert(key, area).remove(key) =~= before);
}

/// What decoding an encoded image (PNG, BMP, GIF or JPEG) and converting it to 8 bit RGBA
/// gives: its width, its height and its RGBA bytes row by row, or the decoder's error text.
pub uninterp spec fn decoded_rgba(bytes: Seq<u8>) -> Result<(u32, u32, Seq<u8>), Seq<char>>;

/// `image::load_from_memory`, then `DynamicImage::to_rgba8`, `dimensions` and `into_raw`:
/// the result is the image crate's decoding of `bytes`, and an RGBA buffer of the image
/// crate always holds exactly four bytes per pixel (`ImageBuffer::new` sizes it so).
/// The conversion's panic when four bytes per pixel would not fit a `usize` is not stated.
#[verifier::external_body]
fn decode_rgba(bytes: &[u8]) -> (r: Result<(u32, u32, Vec<u8>), String>)
    ensures
        match r {
            Ok((w, h, raw)) => decoded_rgba(bytes@) == Ok::<(u32, u32, Seq<u8>), Seq<char>>((w, h, raw@))
                && raw@.len() == w * h * 4,
            Err(e) => decoded_rgba(bytes@) == Err::<(u32, u32, Seq<u8>), Seq<char>>(e@),
        },
{
    match image::load_from_memory(bytes) {
        Ok(img) => {
            let img = img.to_rgba8();
            let (w, h) = img.dimensions();
            Ok((w, h, img.into_raw()))
        },
        Err(err) => Err(err.to_string()),
    }
}

impl Sprite {
    /// Decode an encoded image (PNG, BMP, GIF or JPEG) into a sprite, or give the
    /// decoder's error text.
    pub fn load_image_bytes(bytes: &[u8]) -> (r: Result<Sprite, String>)
        ensures
            match decoded_rgba(bytes@) {
                Ok((w, h, raw)) => r matches Ok(s) && s.wf() && s.spec_width() == w
                    && s.spec_height() == h && s.bytes() == raw && s.areas() == no_areas(),
                Err(e) => r matches Err(msg) && msg@ == e,
            },
    {
        match decode_rgba(bytes) {
            Ok((w, h, raw)) => {
                proof {
                    assert(raw@.len() == (w as usize) * (h as usize) * 4);
                }
                Self::load_rgba(raw.as_slice(), w as usize, h as usize)
            },
            Err(e) => Err(e),
        }
    }
}

impl Clone for Sprite {
    /// A copy of the pixels; the copy has no sub sprites in use.
    fn clone(&self) -> (s: Self)
        ensures
            s.spec_size() == self.spec_size(),
            s.bytes() == self.bytes(),
            s.areas() == no_areas(),
            self.wf() ==> s.wf(),
    {
        Sprite { raw: slice_to_vec(self.raw.as_slice()), size: self.size, areas: registry_new() }
    }
}

/// Something made of pixels that can be read and written one at a time.
///
/// The model below (`well_formed`, `spec_dims`, `spec_pixel_at`) has unspecified default
/// definitions, so that a type outside verified code can implement the trait by its methods
/// alone; a verified implementation defines the model, and the methods' contracts hold of it.
pub trait DrawSpriteTrait {
    /// Whether the value is in a usable state.
    open spec fn well_formed(&self) -> bool {
        arbitrary()
    }

    /// Width and height, in pixels.
    open spec fn spec_dims(&self) -> Vu2d {
        arbitrary()
    }

    /// The color of pixel `(x, y)`, for a pixel inside the bounds.
    open spec fn spec_pixel_at(&self, x: int, y: int) -> Color {
        arbitrary()
    }

    /// The color of the pixel at `pos`, or `None` when it lies outside.
    fn get_pixel(&self, pos: Vi2d) -> (c: Option<Color>)
        requires
            self.well_formed(),
        ensures
            c == if 0 <= pos.x < self.spec_dims().x && 0 <= pos.y < self.spec_dims().y {
                Some(self.spec_pixel_at(pos.x as int, pos.y as int))
            } else {
                None
            },
    ;

    /// Set the color of the pixel at `pos`; nothing happens when it lies outside.
    fn set_pixel(&mut self, pos: Vi2d, col: Color)
        requires
            old(self).well_formed(),
        ensures
            final(self).well_formed(),
            final(self).spec_dims() == old(self).spec_dims(),
            forall|i: int, j: int|
                0 <= i < final(self).spec_dims().x && 0 <= j < final(self).spec_dims().y
                    ==> #[trigger] final(self).spec_pixel_at(i, j) == if i == pos.x && j == pos.y {
                    col
                } else {
                    old(self).spec_pixel_at(i, j)
                },
    ;

    /// Width and height, in pixels.
    fn size(&self) -> (s: Vu2d)
        ensures
            s == self.spec_dims(),
    ;

    /// The color of the pixel at `pos`, which must lie inside.
    fn get_pixel_unchecked(&self, pos: Vu2d) -> (c: Color)
        requires
            self.well_formed(),
            pos.x < self.spec_dims().x,
            pos.y < self.spec_dims().y,
        ensures
            c == self.spec_pixel_at(pos.x as int, pos.y as int),
    ;

    /// Set the color of the pixel at `pos`, which must lie inside.
    fn set_pixel_unchecked(&mut self, pos: Vu2d, col: Color)
        requires
            old(self).well_formed(),
            pos.x < old(self).spec_dims().x,
            pos.y < old(self).spec_dims().y,
        ensures
            final(self).well_formed(),
            final(self).spec_dims() == old(self).spec_dims(),
            forall|i: int, j: int|
                0 <= i < final(self).spec_dims().x && 0 <= j < final(self).spec_dims().y
                    ==> #[trigger] final(self).spec_pixel_at(i, j) == if i == pos.x && j == pos.y {
                    col
                } else {
                    old(self).spec_pixel_at(i, j)
                },
    ;
}

impl DrawSpriteTrait for Sprite {
    open spec fn well_formed(&self) -> bool {
        self.wf()
    }

    open spec fn spec_dims(&self) -> Vu2d {
        self.spec_size()
    }

    open spec fn spec_pixel_at(&self, x: int, y: int) -> Color {
        self.pixel(x, y)
    }

    fn get_pixel(&self, pos: Vi2d) -> (c: Option<Color>) {
        if pos.x < 0 || pos.y < 0 || pos.x as u32 >= self.size.x || pos.y as u32 >= self.size.y {
            return None;
        }
        Some(Sprite::get_pixel(self, pos.x as u32, pos.y as u32))
    }

    fn set_pixel(&mut self, pos: Vi2d, col: Color)
        ensures
            final(self).areas() == old(self).areas(),
    {
        if pos.x < 0 || pos.y < 0 {
            return ;
        }
        Sprite::set_pixel(self, pos.x as u32, pos.y as u32, col);
        proof {
            assert forall|i: int, j: int|
                0 <= i < self.spec_dims().x && 0 <= j < self.spec_dims().y implies #[trigger] self.spec_pixel_at(i, j)
                    == if i == pos.x && j == pos.y {
                    col
                } else {
                    old(self).spec_pixel_at(i, j)
                } by {
                assert(self.in_bounds(i, j));
            }
        }
    }

    fn size(&self) -> (s: Vu2d) {
        self.size
    }

    fn get_pixel_unchecked(&self, pos: Vu2d) -> (c: Color) {
        Sprite::get_pixel(self, pos.x, pos.y)
    }

    fn set_pixel_unchecked(&mut self, pos: Vu2d, col: Color)
        ensures
            final(self).areas() == old(self).areas(),
    {
        Sprite::set_pixel(self, pos.x, pos.y, col);
        proof {
            assert forall|i: int, j: int|
                0 <= i < self.spec_dims().x && 0 <= j < self.spec_dims().y implies #[trigger] self.spec_pixel_at(i, j)
                    == if i == pos.x && j == pos.y {
                    col
                } else {
                    old(self).spec_pixel_at(i, j)
                } by {
                assert(self.in_bounds(i, j));
            }
        }
    }
}


/// A sub sprite together with its parent: drawing on it changes the parent inside the sub
/// sprite's area.
pub struct SubSprite<'a> {
    /// The parent sprite
    pub parent: &'a mut Sprite,
    /// The sub sprite
    pub sub: &'a SpriteMutRef,
}

impl<'a> SubSprite<'a> {
    /// The parent sprite as it is now.
    pub open spec fn parent(&self) -> Sprite {
        *self.parent
    }

    /// The sub sprite.
    pub open spec fn handle(&self) -> SpriteMutRef {
        *self.sub
    }

    /// Bind `sub` to its parent `parent`.
    pub fn new(sub: &'a SpriteMutRef, parent: &'a mut Sprite) -> (t: SubSprite<'a>)
        ensures
            t.parent() == *old(parent),
            t.handle() == *sub,
            *final(parent) == *final(t.parent),
    {
        SubSprite { parent, sub }
    }
}

impl<'a> DrawSpriteTrait for SubSprite<'a> {
    open spec fn well_formed(&self) -> bool {
        self.parent().wf() && area_inside(self.handle().area(), self.parent().spec_width(), self.parent().spec_height())
    }

    open spec fn spec_dims(&self) -> Vu2d {
        self.handle().area().size
    }

    open spec fn spec_pixel_at(&self, x: int, y: int) -> Color {
        self.parent().pixel(self.handle().area().pos.x + x, self.handle().area().pos.y + y)
    }

    fn get_pixel(&self, pos: Vi2d) -> (c: Option<Color>) {
        if pos.x < 0 || pos.y < 0 {
            return None;
        }
        self.sub.get_pixel(self.parent, Vec2d { x: pos.x as u32, y: pos.y as u32 })
    }

    fn set_pixel(&mut self, pos: Vi2d, col: Color)
        ensures
            final(self).sub == old(self).sub,
            *final(final(self).parent) == *final(old(self).parent),
            final(self).parent().spec_size() == old(self).parent().spec_size(),
            final(self).parent().areas() == old(self).parent().areas(),
            forall|i: int, j: int|
                #[trigger] final(self).parent().in_bounds(i, j) && !area_contains(final(self).handle().area(), i, j)
                    ==> final(self).parent().pixel(i, j) == old(self).parent().pixel(i, j),
    {
        if pos.x < 0 || pos.y < 0 {
            return;
        }
        self.sub.set_pixel(self.parent, Vec2d { x: pos.x as u32, y: pos.y as u32 }, col);
        proof {
            let a = self.handle().area();
            assert forall|i: int, j: int|
                0 <= i < self.spec_dims().x && 0 <= j < self.spec_dims().y implies #[trigger] self.spec_pixel_at(i, j)
                    == if i == pos.x && j == pos.y {
                    col
                } else {
                    old(self).spec_pixel_at(i, j)
                } by {
                assert(self.parent().in_bounds(a.pos.x + i, a.pos.y + j));
            }
        }
    }

    fn size(&self) -> (s: Vu2d) {
        self.sub.size()
    }

    fn get_pixel_unchecked(&self, pos: Vu2d) -> (c: Color) {
        self.sub.get_pixel(self.parent, pos).unwrap()
    }

    fn set_pixel_unchecked(&mut self, pos: Vu2d, col: Color)
        ensures
            final(self).sub == old(self).sub,
            *final(final(self).parent) == *final(old(self).parent),
            final(self).parent().spec_size() == old(self).parent().spec_size(),
            final(self).parent().areas() == old(self).parent().areas(),
            forall|i: int, j: int|
                #[trigger] final(self).parent().in_bounds(i, j) && !area_contains(final(self).handle().area(), i, j)
                    ==> final(self).parent().pixel(i, j) == old(self).parent().pixel(i, j),
    {
        self.sub.set_pixel(self.parent, pos, col);
        proof {
            let a = self.handle().area();
            assert forall|i: int, j: int|
                0 <= i < self.spec_dims().x && 0 <= j < self.spec_dims().y implies #[trigger] self.spec_pixel_at(i, j)
                    == if i == pos.x && j == pos.y {
                    col
                } else {
                    old(self).spec_pixel_at(i, j)
                } by {
                assert(self.parent().in_bounds(a.pos.x + i, a.pos.y + j));
            }
        }
    }
}

/// Set every pixel of `s` to `col`, row by row.
pub fn clear_pixels<S: DrawSpriteTrait>(s: &mut S, col: Color)
    requires
        old(s).well_formed(),
    ensures
        final(s).well_formed(),
        final(s).spec_dims() == old(s).spec_dims(),
        forall|i: int, j: int|
            0 <= i < final(s).spec_dims().x && 0 <= j < final(s).spec_dims().y
                ==> #[trigger] final(s).spec_pixel_at(i, j) == col,
{
    let size = s.size();
    let mut y: u32 = 0;
    while y < size.y
        invariant
            y <= size.y,
            size == s.spec_dims(),
            s.well_formed(),
            s.spec_dims() == old(s).spec_dims(),
            forall|i: int, j: int|
                0 <= i < size.x && 0 <= j < y ==> #[trigger] s.spec_pixel_at(i, j) == col,
        decreases size.y - y,
    {
        let mut x: u32 = 0;
        while x < size.x
            invariant
                x <= size.x,
                y < size.y,
                size == s.spec_dims(),
                s.well_formed(),
                s.spec_dims() == old(s).spec_dims(),
                forall|i: int, j: int|
                    0 <= i < size.x && 0 <= j < y ==> #[trigger] s.spec_pixel_at(i, j) == col,
                forall|i: int| 0 <= i < x ==> #[trigger] s.spec_pixel_at(i, y as int) == col,
            decreases size.x - x,
        {
            s.set_pixel_unchecked(Vec2d { x, y }, col);
            x = x + 1;
        }
        y = y + 1;
    }
}

} // verus!
