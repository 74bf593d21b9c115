use vstd::prelude::*;

verus! {

/// A color in RGBA format, one byte per channel.
#[derive(Debug, Copy, Clone, PartialEq, Eq, Structural)]
pub struct Color {
    /// Red part of the color
    pub r: u8,
    /// Green part of the color
    pub g: u8,
    /// Blue part of the color
    pub b: u8,
    /// Alpha part of the color
    pub a: u8,
}

impl Color {
    /// A color with the given red, green and blue parts, fully opaque.
    pub fn new(r: u8, g: u8, b: u8) -> (c: Color)
        ensures
            c == (Color { r, g, b, a: 255 }),
    {
        Color { r, g, b, a: 255 }
    }

    /// A color with the given red, green, blue and alpha parts.
    pub fn new_with_alpha(r: u8, g: u8, b: u8, a: u8) -> (c: Color)
        ensures
            c == (Color { r, g, b, a }),
    {
        Color { r, g, b, a }
    }

    /// White
    pub open spec fn spec_white() -> Color {
        Color { r: 255, g: 255, b: 255, a: 255 }
    }

    /// White
    #[verifier::when_used_as_spec(spec_white)]
    pub fn white() -> (c: Color)
        ensures
            c == Self::spec_white(),
    {
        Color { r: 255, g: 255, b: 255, a: 255 }
    }

    /// Grey
    pub open spec fn spec_grey() -> Color {
        Color { r: 192, g: 192, b: 192, a: 255 }
    }

    /// Grey
    #[verifier::when_used_as_spec(spec_grey)]
    pub fn grey() -> (c: Color)
        ensures
            c == Self::spec_grey(),
    {
        Color { r: 192, g: 192, b: 192, a: 255 }
    }

    /// Dark grey
    pub open spec fn spec_dark_grey() -> Color {
        Color { r: 128, g: 128, b: 128, a: 255 }
    }

    /// Dark grey
    #[verifier::when_used_as_spec(spec_dark_grey)]
    pub fn dark_grey() -> (c: Color)
        ensures
            c == Self::spec_dark_grey(),
    {
        Color { r: 128, g: 128, b: 128, a: 255 }
    }

    /// Very dark grey
    pub open spec fn spec_very_dark_grey() -> Color {
        Color { r: 64, g: 64, b: 64, a: 255 }
    }

    /// Very dark grey
    #[verifier::when_used_as_spec(spec_very_dark_grey)]
    pub fn very_dark_grey() -> (c: Color)
        ensures
            c == Self::spec_very_dark_grey(),
    {
        Color { r: 64, g: 64, b: 64, a: 255 }
    }

    /// Red
    pub open spec fn spec_red() -> Color {
        Color { r: 255, g: 0, b: 0, a: 255 }
    }

    /// Red
    #[verifier::when_used_as_spec(spec_red)]
    pub fn red() -> (c: Color)
        ensures
            c == Self::spec_red(),
    {
        Color { r: 255, g: 0, b: 0, a: 255 }
    }

    /// Dark red
    pub open spec fn spec_dark_red() -> Color {
        Color { r: 128, g: 0, b: 0, a: 255 }
    }

    /// Dark red
    #[verifier::when_used_as_spec(spec_dark_red)]
    pub fn dark_red() -> (c: Color)
        ensures
            c == Self::spec_dark_red(),
    {
        Color { r: 128, g: 0, b: 0, a: 255 }
    }

    /// Very dark red
    pub open spec fn spec_very_dark_red() -> Color {
        Color { r: 64, g: 0, b: 0, a: 255 }
    }

    /// Very dark red
    #[verifier::when_used_as_spec(spec_very_dark_red)]
    pub fn very_dark_red() -> (c: Color)
        ensures
            c == Self::spec_very_dark_red(),
    {
        Color { r: 64, g: 0, b: 0, a: 255 }
    }

    /// Yellow
    pub open spec fn spec_yellow() -> Color {
        Color { r: 255, g: 255, b: 0, a: 255 }
    }

    /// Yellow
    #[verifier::when_used_as_spec(spec_yellow)]
    pub fn yellow() -> (c: Color)
        ensures
            c == Self::spec_yellow(),
    {
        Color { r: 255, g: 255, b: 0, a: 255 }
    }

    /// Dark yellow
    pub open spec fn spec_dark_yellow() -> Color {
        Color { r: 128, g: 128, b: 0, a: 255 }
    }

    /// Dark yellow
    #[verifier::when_used_as_spec(spec_dark_yellow)]
    pub fn dark_yellow() -> (c: Color)
        ensures
            c == Self::spec_dark_yellow(),
    {
        Color { r: 128, g: 128, b: 0, a: 255 }
    }

    /// Very dark yellow
    pub open spec fn spec_very_dark_yellow() -> Color {
        Color { r: 64, g: 64, b: 0, a: 255 }
    }

    /// Very dark yellow
    #[verifier::when_used_as_spec(spec_very_dark_yellow)]
    pub fn very_dark_yellow() -> (c: Color)
        ensures
            c == Self::spec_very_dark_yellow(),
    {
        Color { r: 64, g: 64, b: 0, a: 255 }
    }

    /// Green
    pub open spec fn spec_green() -> Color {
        Color { r: 0, g: 255, b: 0, a: 255 }
    }

    /// Green
    #[verifier::when_used_as_spec(spec_green)]
    pub fn green() -> (c: Color)
        ensures
            c == Self::spec_green(),
    {
        Color { r: 0, g: 255, b: 0, a: 255 }
    }

    /// Dark green
    pub open spec fn spec_dark_green() -> Color {
        Color { r: 0, g: 128, b: 0, a: 255 }
    }

    /// Dark green
    #[verifier::when_used_as_spec(spec_dark_green)]
    pub fn dark_green() -> (c: Color)
        ensures
            c == Self::spec_dark_green(),
    {
        Color { r: 0, g: 128, b: 0, a: 255 }
    }

    /// Very dark green
    pub open spec fn spec_very_dark_green() -> Color {
        Color { r: 0, g: 64, b: 0, a: 255 }
    }

    /// Very dark green
    #[verifier::when_used_as_spec(spec_very_dark_green)]
    pub fn very_dark_green() -> (c: Color)
        ensures
            c == Self::spec_very_dark_green(),
    {
        Color { r: 0, g: 64, b: 0, a: 255 }
    }

    /// Cyan
    pub open spec fn spec_cyan() -> Color {
        Color { r: 0, g: 255, b: 255, a: 255 }
    }

    /// Cyan
    #[verifier::when_used_as_spec(spec_cyan)]
    pub fn cyan() -> (c: Color)
        ensures
            c == Self::spec_cyan(),
    {
        Color { r: 0, g: 255, b: 255, a: 255 }
    }

    /// Dark cyan
    pub open spec fn spec_dark_cyan() -> Color {
        Color { r: 0, g: 128, b: 128, a: 255 }
    }

    /// Dark cyan
    #[verifier::when_used_as_spec(spec_dark_cyan)]
    pub fn dark_cyan() -> (c: Color)
        ensures
            c == Self::spec_dark_cyan(),
    {
        Color { r: 0, g: 128, b: 128, a: 255 }
    }

    /// Very dark cyan
    pub open spec fn spec_very_dark_cyan() -> Color {
        Color { r: 0, g: 64, b: 64, a: 255 }
    }

    /// Very dark cyan
    #[verifier::when_used_as_spec(spec_very_dark_cyan)]
    pub fn very_dark_cyan() -> (c: Color)
        ensures
            c == Self::spec_very_dark_cyan(),
    {
        Color { r: 0, g: 64, b: 64, a: 255 }
    }

    /// Blue
    pub open spec fn spec_blue() -> Color {
        Color { r: 0, g: 0, b: 255, a: 255 }
    }

    /// Blue
    #[verifier::when_used_as_spec(spec_blue)]
    pub fn blue() -> (c: Color)
        ensures
            c == Self::spec_blue(),
    {
        Color { r: 0, g: 0, b: 255, a: 255 }
    }

    /// Dark blue
    pub open spec fn spec_dark_blue() -> Color {
        Color { r: 0, g: 0, b: 128, a: 255 }
    }

    /// Dark blue
    #[verifier::when_used_as_spec(spec_dark_blue)]
    pub fn dark_blue() -> (c: Color)
        ensures
            c == Self::spec_dark_blue(),
    {
        Color { r: 0, g: 0, b: 128, a: 255 }
    }

    /// Very dark blue
    pub open spec fn spec_very_dark_blue() -> Color {
        Color { r: 0, g: 0, b: 64, a: 255 }
    }

    /// Very dark blue
    #[verifier::when_used_as_spec(spec_very_dark_blue)]
    pub fn very_dark_blue() -> (c: Color)
        ensures
            c == Self::spec_very_dark_blue(),
    {
        Color { r: 0, g: 0, b: 64, a: 255 }
    }

    /// Magenta
    pub open spec fn spec_magenta() -> Color {
        Color { r: 255, g: 0, b: 255, a: 255 }
    }

    /// Magenta
    #[verifier::when_used_as_spec(spec_magenta)]
    pub fn magenta() -> (c: Color)
        ensures
            c == Self::spec_magenta(),
    {
        Color { r: 255, g: 0, b: 255, a: 255 }
    }

    /// Dark magenta
    pub open spec fn spec_dark_magenta() -> Color {
        Color { r: 128, g: 0, b: 128, a: 255 }
    }

    /// Dark magenta
    #[verifier::when_used_as_spec(spec_dark_magenta)]
    pub fn dark_magenta() -> (c: Color)
        ensures
            c == Self::spec_dark_magenta(),
    {
        Color { r: 128, g: 0, b: 128, a: 255 }
    }

    /// Very dark magenta
    pub open spec fn spec_very_dark_magenta() -> Color {
        Color { r: 64, g: 0, b: 64, a: 255 }
    }

    /// Very dark magenta
    #[verifier::when_used_as_spec(spec_very_dark_magenta)]
    pub fn very_dark_magenta() -> (c: Color)
        ensures
            c == Self::spec_very_dark_magenta(),
    {
        Color { r: 64, g: 0, b: 64, a: 255 }
    }

    /// Black
    pub open spec fn spec_black() -> Color {
        Color { r: 0, g: 0, b: 0, a: 255 }
    }

    /// Black
    #[verifier::when_used_as_spec(spec_black)]
    pub fn black() -> (c: Color)
        ensures
            c == Self::spec_black(),
    {
        Color { r: 0, g: 0, b: 0, a: 255 }
    }

    /// Blank (fully transparent black)
    pub open spec fn spec_blank() -> Color {
        Color { r: 0, g: 0, b: 0, a: 0 }
    }

    /// Blank (fully transparent black)
    #[verifier::when_used_as_spec(spec_blank)]
    pub fn blank() -> (c: Color)
        ensures
            c == Self::spec_blank(),
    {
        Color { r: 0, g: 0, b: 0, a: 0 }
    }
}

/// The number whose little-endian bytes are the color's channels in the
/// order red, green, blue, alpha.
pub open spec fn color_to_u32(c: Color) -> u32 {
    (c.r as int + 256 * c.g as int + 65536 * c.b as int + 16777216 * c.a as int) as u32
}

/// The color whose channels are the little-endian bytes of `n`:
/// red is the lowest byte and alpha the highest.
pub open spec fn u32_to_color(n: u32) -> Color {
    Color {
        r: (n % 256) as u8,
        g: ((n / 256) % 256) as u8,
        b: ((n / 65536) % 256) as u8,
        a: (n / 16777216) as u8,
    }
}

impl Color {
    /// The channels as `[r, g, b, a]`.
    pub open spec fn spec_to_rgba(self) -> [u8; 4] {
        [self.r, self.g, self.b, self.a]
    }

    /// The channels as `[r, g, b, a]`.
    #[verifier::when_used_as_spec(spec_to_rgba)]
    pub fn to_rgba(self) -> (v: [u8; 4])
        ensures
            v == self.spec_to_rgba(),
    {
        [self.r, self.g, self.b, self.a]
    }

    /// The color channels as `[r, g, b]`, alpha left out.
    pub fn to_rgb(self) -> (v: [u8; 3])
        ensures
            v@ == seq![self.r, self.g, self.b],
    {
        [self.r, self.g, self.b]
    }

    /// The color `[r, g, b, a]`.
    pub fn from_rgba(v: [u8; 4]) -> (c: Color)
        ensures
            c == (Color { r: v[0], g: v[1], b: v[2], a: v[3] }),
    {
        Color { r: v[0], g: v[1], b: v[2], a: v[3] }
    }

    /// The opaque color `[r, g, b]`.
    pub fn from_rgb(v: [u8; 3]) -> (c: Color)
        ensures
            c == (Color { r: v[0], g: v[1], b: v[2], a: 255 }),
    {
        Color { r: v[0], g: v[1], b: v[2], a: 255 }
    }

    /// The color whose channels are the little-endian bytes of `n`.
    pub fn from_u32(n: u32) -> (c: Color)
        ensures
            c == u32_to_color(n),
    {
        let r = (n & 0xff) as u8;
        let g = ((n >> 8) & 0xff) as u8;
        let b = ((n >> 16) & 0xff) as u8;
        let a = (n >> 24) as u8;
        assert(r == n % 256 && g == (n / 256) % 256 && b == (n / 65536) % 256 && a == n
            / 16777216) by (bit_vector)
            requires
                r == (n & 0xff) as u8,
                g == ((n >> 8) & 0xff) as u8,
                b == ((n >> 16) & 0xff) as u8,
                a == (n >> 24) as u8,
        ;
        Color { r, g, b, a }
    }

    /// The number whose little-endian bytes are the channels red, green, blue, alpha.
    pub fn to_u32(self) -> (n: u32)
        ensures
            n == color_to_u32(self),
    {
        let r = self.r;
        let g = self.g;
        let b = self.b;
        let a = self.a;
        let n = (r as u32) | ((g as u32) << 8) | ((b as u32) << 16) | ((a as u32) << 24);
        assert(n == r as u32 + 256 * g as u32 + 65536 * b as u32 + 16777216 * a as u32)
            by (bit_vector)
            requires
                n == (r as u32) | ((g as u32) << 8) | ((b as u32) << 16) | ((a as u32) << 24),
        ;
        n
    }
}

/// Converting a color to its number and back gives the same color.
pub proof fn lemma_color_u32_roundtrip(c: Color)
    ensures
        u32_to_color(color_to_u32(c)) == c,
{
    let n = color_to_u32(c);
    let r = c.r;
    let g = c.g;
    let b = c.b;
    let a = c.a;
    assert(n == r as u32 + 256 * g as u32 + 65536 * b as u32 + 16777216 * a as u32);
    assert(n % 256 == r && (n / 256) % 256 == g && (n / 65536) % 256 == b && n / 16777216 == a)
        by (bit_vector)
        requires
            n == r as u32 + 256 * g as u32 + 65536 * b as u32 + 16777216 * a as u32,
    ;
}

/// Converting a number to a color and back gives the same number.
pub proof fn lemma_u32_color_roundtrip(n: u32)
    ensures
        color_to_u32(u32_to_color(n)) == n,
{
    let c = u32_to_color(n);
    assert(n % 256 + 256 * ((n / 256) % 256) + 65536 * ((n / 65536) % 256) + 16777216 * (n
        / 16777216) == n) by (bit_vector);
}

impl From<u32> for Color {
    fn from(n: u32) -> (c: Color) {
        Color::from_u32(n)
    }
}

impl vstd::std_specs::convert::FromSpecImpl<u32> for Color {
    open spec fn obeys_from_spec() -> bool {
        true
    }

    open spec fn from_spec(n: u32) -> Color {
        u32_to_color(n)
    }
}

impl From<Color> for u32 {
    fn from(c: Color) -> (n: u32) {
        c.to_u32()
    }
}

impl vstd::std_specs::convert::FromSpecImpl<Color> for u32 {
    open spec fn obeys_from_spec() -> bool {
        true
    }

    open spec fn from_spec(c: Color) -> u32 {
        color_to_u32(c)
    }
}

impl From<[u8; 4]> for Color {
    fn from(v: [u8; 4]) -> (c: Color) {
        Color::from_rgba(v)
    }
}

impl vstd::std_specs::convert::FromSpecImpl<[u8; 4]> for Color {
    open spec fn obeys_from_spec() -> bool {
        true
    }

    open spec fn from_spec(v: [u8; 4]) -> Color {
        Color { r: v[0], g: v[1], b: v[2], a: v[3] }
    }
}

impl From<[u8; 3]> for Color {
    fn from(v: [u8; 3]) -> (c: Color) {
        Color::from_rgb(v)
    }
}

impl vstd::std_specs::convert::FromSpecImpl<[u8; 3]> for Color {
    open spec fn obeys_from_spec() -> bool {
        true
    }

    open spec fn from_spec(v: [u8; 3]) -> Color {
        Color { r: v[0], g: v[1], b: v[2], a: 255 }
    }
}

impl From<Color> for [u8; 4] {
    fn from(c: Color) -> (v: [u8; 4]) {
        c.to_rgba()
    }
}

impl vstd::std_specs::convert::FromSpecImpl<Color> for [u8; 4] {
    open spec fn obeys_from_spec() -> bool {
        true
    }

    open spec fn from_spec(c: Color) -> [u8; 4] {
        [c.r, c.g, c.b, c.a]
    }
}

} // verus!
