//! Text: the built-in 8 by 8 font and the layout of drawn text.

use vstd::prelude::*;

use vstd::arithmetic::power2::pow2;
use vstd::bits::lemma_u32_shr_is_div;

use crate::color::Color;
use crate::drawing::{
    blit_block, draw_block, draw_each, fits, lemma_draw_each_concat, sample, sample_exec,
    SmartDrawingTrait,
};
use crate::sprite::{no_areas, Sprite};
use crate::vector2::{Vec2d, Vi2d};

verus! {

/// The built-in font. Each byte is a symbol from `'0'` on that carries six bits; four symbols
/// make a 24-bit word, and the words, lowest bit first, give the pixels of a 128 by 48 sheet
/// column by column, 48 pixels to a column.
pub const FONT_DATA: &'static str = "?Q`0001oOch0o01o@F40o0<AGD4090LAGD<090@A7ch0?00O7Q`0600>00000000O000000nOT0063Qo4d8>?7a14Gno94AA4gno94AaOT0>o3`oO400o7QN00000400Of80001oOg<7O7moBGT7O7lABET024@aBEd714AiOdl717a_=TH013Q>00000000720D000V?V5oB3Q_HdUoE7a9@DdDE4A9@DmoE4A;Hg]oM4Aj8S4D84@`00000000OaPT1000Oa`^13P1@AI[?g`1@A=[OdAoHgljA4Ao?WlBA7l1710007l100000000ObM6000oOfMV?3QoBDD`O7a0BDDH@5A0BDD<@5A0BGeVO5ao@CQR?5Po00000000Oc``000?Ogij70PO2D]??0Ph2DUM@7i`2DTg@7lh2GUj?0TO0C1870T?0000000070<4001o?P<7?1QoHg43O;`h@GT0@:@LB@d0>:@hN@L0@?aoN@<0O7ao0000?000OcH0001SOglLA7mg24TnK7ln24US>0PL24U140PnOgl0>7QgOcH0K71S0000A00000H00000@Dm1S007@DUSg00?OdTnH7YhOfTL<7Yh@Cl0700?@Ah0300700000000<008001QL00ZA41a@6HnI<1i@FHLM81M@@0LG81?O`0nC?Y7?`0ZA7Y300080000O`082000Oh0827mo6>Hn?Wmo?6HnMb11MP08@C11H`08@FP0@@0004@00000000000P00001Oab00003OcKP0006@6=PMgl<@440MglH@000000`@000001P00000000Ob@8@@00Ob@8@Ga13R@8Mga172@8?PAo3R@827QoOb@820@0O`0007`0000007P0O`000P08Od400g`<3V=P0G`673IP0`@3>1`00P@6O`P00g`<O`000GP800000000?P9PL020O`<`N3R0@E4HC7b0@ET<ATB0@@l6C4B0O`H3N7b0?P01L3R000000020";

/// The bytes of [`FONT_DATA`].
pub open spec fn builtin_font() -> Seq<u8> {
    Seq::new(FONT_DATA@.len(), |i: int| FONT_DATA@[i] as u8)
}

/// Whether `font` holds at least 1024 symbols, each from `'0'` to `'o'` (six bits).
pub open spec fn font_symbols_ok(font: Seq<u8>) -> bool {
    &&& font.len() >= 1024
    &&& forall|i: int| 0 <= i < 1024 ==> 48 <= #[trigger] font[i] < 112
}

/// The 24-bit word that symbols `4 g` to `4 g + 3` of `font` encode, the first one highest.
pub open spec fn font_word(font: Seq<u8>, g: int) -> int {
    (font[4 * g] - 48) * 0x40000 + (font[4 * g + 1] - 48) * 0x1000 + (font[4 * g + 2] - 48) * 0x40
        + (font[4 * g + 3] - 48)
}

/// Bit `n` of the font: bit `n % 24` of word `n / 24`.
pub open spec fn font_bit(font: Seq<u8>, n: int) -> bool {
    (font_word(font, n / 24) / (pow2((n % 24) as nat) as int)) % 2 == 1
}

/// The color of a sheet pixel: opaque white when lit, opaque black otherwise.
pub open spec fn sheet_color(lit: bool) -> Color {
    if lit {
        Color { r: 255, g: 255, b: 255, a: 255 }
    } else {
        Color { r: 0, g: 0, b: 0, a: 255 }
    }
}

/// Whether `s` is the 128 by 48 sheet that `font` encodes: pixel `(x, y)` shows font bit
/// `48 x + y`.
pub open spec fn is_font_sheet(s: Sprite, font: Seq<u8>) -> bool {
    &&& s.wf()
    &&& s.spec_width() == 128
    &&& s.spec_height() == 48
    &&& s.areas() == no_areas()
    &&& forall|x: int, y: int| #[trigger] s.in_bounds(x, y) ==> s.pixel(x, y) == sheet_color(font_bit(font, x * 48 + y))
}

/// Decode the 128 by 48 text sheet that `font` encodes.
pub fn font_sheet(font: &[u8]) -> (s: Sprite)
    requires
        font_symbols_ok(font@),
    ensures
        is_font_sheet(s, font@),
{
    let mut sheet = Sprite::new(128, 48);
    let mut px: u32 = 0;
    let mut py: u32 = 0;
    let mut g: usize = 0;
    while g < 256
        invariant
            g <= 256,
            font_symbols_ok(font@),
            sheet.wf(),
            sheet.spec_width() == 128,
            sheet.spec_height() == 48,
            sheet.areas() == no_areas(),
            px == (g * 24) / 48,
            py == (g * 24) % 48,
            forall|n: int| 0 <= n < g * 24 ==> sheet.pixel(n / 48, n % 48) == sheet_color(#[trigger] font_bit(font@, n)),
        decreases 256 - g,
    {
        let s1 = font[4 * g] as u32 - 48;
        let s2 = font[4 * g + 1] as u32 - 48;
        let s3 = font[4 * g + 2] as u32 - 48;
        let s4 = font[4 * g + 3] as u32 - 48;
        let r: u32 = s1 * 0x40000 + s2 * 0x1000 + s3 * 0x40 + s4;
        let mut i: u32 = 0;
        while i < 24
            invariant
                g < 256,
                i <= 24,
                font_symbols_ok(font@),
                sheet.wf(),
                sheet.spec_width() == 128,
                sheet.spec_height() == 48,
                sheet.areas() == no_areas(),
                r == font_word(font@, g as int),
                px == (g * 24 + i) / 48,
                py == (g * 24 + i) % 48,
                forall|n: int| 0 <= n < g * 24 + i ==> sheet.pixel(n / 48, n % 48) == sheet_color(#[trigger] font_bit(font@, n)),
            decreases 24 - i,
        {
            let ghost m: int = g * 24 + i;
            let lit = (r >> i) % 2 == 1;
            proof {
                lemma_u32_shr_is_div(r, i);
                assert(m / 24 == g && m % 24 == i);
                assert(lit == font_bit(font@, m));
            }
            let k: u8 = if lit { 255 } else { 0 };
            let ghost before = sheet;
            sheet.set_pixel(px, py, Color::new(k, k, k));
            proof {
                assert forall|n: int| 0 <= n < m + 1 implies sheet.pixel(n / 48, n % 48) == sheet_color(#[trigger] font_bit(font@, n)) by {
                    assert(sheet.in_bounds(n / 48, n % 48));
                    if n < m {
                        assert(n / 48 != px || n % 48 != py);
                        assert(before.pixel(n / 48, n % 48) == sheet_color(font_bit(font@, n)));
                    }
                }
            }
            py = py + 1;
            if py == 48 {
                px = px + 1;
                py = 0;
            }
            i = i + 1;
        }
        g = g + 1;
    }
    proof {
        assert forall|x: int, y: int| #[trigger] sheet.in_bounds(x, y) implies sheet.pixel(x, y) == sheet_color(font_bit(font@, x * 48 + y)) by {
            let n = x * 48 + y;
            assert(0 <= n < 6144);
            assert(n / 48 == x && n % 48 == y);
            assert(sheet.pixel(n / 48, n % 48) == sheet_color(font_bit(font@, n)));
        }
    }
    sheet
}

/// The 128 by 48 text sheet of the built-in font: 8 by 8 glyphs, 16 to a row, from `' '` on.
pub fn text_sheet() -> (s: Sprite)
    ensures
        is_font_sheet(s, builtin_font()),
{
    proof {
        reveal_strlit("?Q`0001oOch0o01o@F40o0<AGD4090LAGD<090@A7ch0?00O7Q`0600>00000000O000000nOT0063Qo4d8>?7a14Gno94AA4gno94AaOT0>o3`oO400o7QN00000400Of80001oOg<7O7moBGT7O7lABET024@aBEd714AiOdl717a_=TH013Q>00000000720D000V?V5oB3Q_HdUoE7a9@DdDE4A9@DmoE4A;Hg]oM4Aj8S4D84@`00000000OaPT1000Oa`^13P1@AI[?g`1@A=[OdAoHgljA4Ao?WlBA7l1710007l100000000ObM6000oOfMV?3QoBDD`O7a0BDDH@5A0BDD<@5A0BGeVO5ao@CQR?5Po00000000Oc``000?Ogij70PO2D]??0Ph2DUM@7i`2DTg@7lh2GUj?0TO0C1870T?0000000070<4001o?P<7?1QoHg43O;`h@GT0@:@LB@d0>:@hN@L0@?aoN@<0O7ao0000?000OcH0001SOglLA7mg24TnK7ln24US>0PL24U140PnOgl0>7QgOcH0K71S0000A00000H00000@Dm1S007@DUSg00?OdTnH7YhOfTL<7Yh@Cl0700?@Ah0300700000000<008001QL00ZA41a@6HnI<1i@FHLM81M@@0LG81?O`0nC?Y7?`0ZA7Y300080000O`082000Oh0827mo6>Hn?Wmo?6HnMb11MP08@C11H`08@FP0@@0004@00000000000P00001Oab00003OcKP0006@6=PMgl<@440MglH@000000`@000001P00000000Ob@8@@00Ob@8@Ga13R@8Mga172@8?PAo3R@827QoOb@820@0O`0007`0000007P0O`000P08Od400g`<3V=P0G`673IP0`@3>1`00P@6O`P00g`<O`000GP800000000?P9PL020O`<`N3R0@E4HC7b0@ET<ATB0@@l6C4B0O`H3N7b0?P01L3R000000020");
    }
    assert(FONT_DATA@.len() == 1024);
    assert(forall|i: int| 0 <= i < 1024 ==> 48 <= #[trigger] FONT_DATA@[i] as int && FONT_DATA@[i] as int <= 111);
    assert(FONT_DATA.is_ascii());
    font_sheet(FONT_DATA.as_bytes())
}

/// The size of one glyph pixel drawn at `scale`: a `scale` by `scale` square above 1, else a
/// single pixel; neighbouring glyph pixels lie that far apart.
pub open spec fn glyph_step(scale: u32) -> int {
    if scale > 1 {
        scale as int
    } else {
        1
    }
}

/// Whether `c` is drawn as a glyph: an ASCII character other than a new line.
pub open spec fn has_glyph(c: char) -> bool {
    c != '\n' && (c as int) < 128
}

/// Whether pixel `(i, j)` of the glyph of `c` is lit on `sheet`: glyphs are 8 by 8 cells,
/// 16 to a row, from `' '` on, and a pixel is lit when its red part is not zero.
pub open spec fn glyph_lit(sheet: Sprite, c: char, i: int, j: int) -> bool {
    let k = c as int - 32;
    sample(sheet, i + (k % 16) * 8, j + (k / 16) * 8).r > 0
}

/// Where character `k` of `text` is drawn, relative to the text's position: each ASCII
/// character moves the cursor `8 * scale` to the right, a new line moves it back to the left
/// edge and `8 * scale` down, and a character outside ASCII leaves it where it is.
pub open spec fn text_cursor(text: Seq<char>, k: int, scale: u32) -> (int, int)
    decreases k,
{
    if k <= 0 {
        (0, 0)
    } else {
        let prev = text_cursor(text, k - 1, scale);
        let c = text[k - 1];
        if c == '\n' {
            (0, prev.1 + 8 * scale)
        } else if (c as int) < 128 {
            (prev.0 + 8 * scale, prev.1)
        } else {
            prev
        }
    }
}

/// On a single line of ASCII text, character `k` is drawn `8 * scale * k` to the right of the
/// text's position: the text is `8 * scale` high and `8 * scale` wide per character.
pub proof fn lemma_single_line_cursor(text: Seq<char>, k: int, scale: u32)
    requires
        0 <= k <= text.len(),
        forall|i: int| 0 <= i < text.len() ==> #[trigger] has_glyph(text[i]),
    ensures
        text_cursor(text, k, scale) == (8 * scale * k, 0int),
    decreases k,
{
    if k > 0 {
        lemma_single_line_cursor(text, k - 1, scale);
        assert(has_glyph(text[k - 1]));
        assert(8 * scale * (k - 1) + 8 * scale == 8 * scale * k) by (nonlinear_arith);
    } else {
        assert(8 * scale * k == 0) by (nonlinear_arith)
            requires
                k == 0,
        ;
    }
}

/// How many of the first `n` characters of `text` are new lines.
pub open spec fn newline_count(text: Seq<char>, n: int) -> int
    decreases n,
{
    if n <= 0 {
        0
    } else {
        newline_count(text, n - 1) + if text[n - 1] == '\n' {
            1int
        } else {
            0int
        }
    }
}

proof fn lemma_cursor_line(text: Seq<char>, n: int, scale: u32)
    requires
        0 <= n <= text.len(),
    ensures
        text_cursor(text, n, scale).1 == 8 * scale * newline_count(text, n),
    decreases n,
{
    if n > 0 {
        lemma_cursor_line(text, n - 1, scale);
        let c = newline_count(text, n - 1);
        assert(8 * scale * c + 8 * scale == 8 * scale * (c + 1)) by (nonlinear_arith);
    }
}

proof fn lemma_cursor_prefix(a: Seq<char>, b: Seq<char>, k: int, scale: u32)
    requires
        0 <= k <= a.len(),
    ensures
        text_cursor(a + b, k, scale) == text_cursor(a, k, scale),
    decreases k,
{
    if k > 0 {
        lemma_cursor_prefix(a, b, k - 1, scale);
        assert((a + b)[k - 1] == a[k - 1]);
    }
}

proof fn lemma_cursor_after_newline(t1: Seq<char>, t2: Seq<char>, j: int, scale: u32)
    requires
        0 <= j <= t2.len(),
    ensures
        ({
            let text = t1 + seq!['\n'] + t2;
            let c2 = text_cursor(t2, j, scale);
            text_cursor(text, t1.len() + 1 + j, scale) == (c2.0, text_cursor(t1, t1.len() as int, scale).1 + 8 * scale + c2.1)
        }),
    decreases j,
{
    let text = t1 + seq!['\n'] + t2;
    if j == 0 {
        lemma_cursor_prefix(t1, seq!['\n'] + t2, t1.len() as int, scale);
        assert(text =~= t1 + (seq!['\n'] + t2));
        assert(text[t1.len() as int] == '\n');
    } else {
        lemma_cursor_after_newline(t1, t2, j - 1, scale);
        assert(text[t1.len() + j] == t2[j - 1]);
    }
}

proof fn lemma_text_points_prefix(sheet: Sprite, a: Seq<char>, b: Seq<char>, pos: Vi2d, scale: u32, col: Color, k: int)
    requires
        0 <= k <= a.len(),
    ensures
        text_points(sheet, a + b, pos, scale, col, k) == text_points(sheet, a, pos, scale, col, k),
    decreases k,
{
    if k > 0 {
        lemma_text_points_prefix(sheet, a, b, pos, scale, col, k - 1);
        lemma_cursor_prefix(a, b, k - 1, scale);
        assert((a + b)[k - 1] == a[k - 1]);
        assert(char_points(sheet, a + b, pos, scale, col, k - 1) == char_points(sheet, a, pos, scale, col, k - 1));
    }
}

proof fn lemma_text_points_after_newline(sheet: Sprite, t1: Seq<char>, t2: Seq<char>, pos: Vi2d, pos2: Vi2d, scale: u32, col: Color, j: int)
    requires
        0 <= j <= t2.len(),
        pos2.x == pos.x,
        pos2.y == pos.y + text_cursor(t1, t1.len() as int, scale).1 + 8 * scale,
    ensures
        text_points(sheet, t1 + seq!['\n'] + t2, pos, scale, col, t1.len() + 1 + j)
            == text_points(sheet, t1, pos, scale, col, t1.len() as int) + text_points(sheet, t2, pos2, scale, col, j),
    decreases j,
{
    let text = t1 + seq!['\n'] + t2;
    let n1 = t1.len() as int;
    if j == 0 {
        lemma_text_points_prefix(sheet, t1, seq!['\n'] + t2, pos, scale, col, n1);
        assert(text =~= t1 + (seq!['\n'] + t2));
        assert(text[n1] == '\n');
        assert(char_points(sheet, text, pos, scale, col, n1) =~= Seq::empty());
        assert(text_points(sheet, t1, pos, scale, col, n1) + Seq::<(Vi2d, Color)>::empty()
            =~= text_points(sheet, t1, pos, scale, col, n1));
    } else {
        lemma_text_points_after_newline(sheet, t1, t2, pos, pos2, scale, col, j - 1);
        lemma_cursor_after_newline(t1, t2, j - 1, scale);
        assert(text[n1 + j] == t2[j - 1]);
        let a = text_points(sheet, t1, pos, scale, col, n1);
        let b = text_points(sheet, t2, pos2, scale, col, j - 1);
        let c = char_points(sheet, t2, pos2, scale, col, j - 1);
        assert(char_points(sheet, text, pos, scale, col, n1 + j) == c);
        assert((a + b) + c =~= a + (b + c));
    }
}

/// A new line splits text in two: the points drawn for `t1`, a new line and `t2` are those
/// drawn for `t1` followed by those drawn for `t2` at the left edge, `8 * scale` pixels below
/// each of the new lines in `t1` and the one between them.
pub proof fn lemma_text_newline_split(sheet: Sprite, t1: Seq<char>, t2: Seq<char>, pos: Vi2d, scale: u32, col: Color)
    requires
        fits(pos.y + 8 * scale * (newline_count(t1, t1.len() as int) + 1)),
    ensures
        ({
            let below = Vec2d { x: pos.x, y: (pos.y + 8 * scale * (newline_count(t1, t1.len() as int) + 1)) as i32 };
            text_points(sheet, t1 + seq!['\n'] + t2, pos, scale, col, (t1.len() + 1 + t2.len()) as int)
                == text_points(sheet, t1, pos, scale, col, t1.len() as int) + text_points(sheet, t2, below, scale, col, t2.len() as int)
        }),
{
    let k = newline_count(t1, t1.len() as int);
    let below = Vec2d { x: pos.x, y: (pos.y + 8 * scale * (k + 1)) as i32 };
    lemma_cursor_line(t1, t1.len() as int, scale);
    assert(8 * scale * k + 8 * scale == 8 * scale * (k + 1)) by (nonlinear_arith);
    lemma_text_points_after_newline(sheet, t1, t2, pos, below, scale, col, t2.len() as int);
}

/// The first `n` pixels of column `i` of the glyph of `c` with its corner at `(bx, by)`: each
/// lit one as its square of points, top to bottom.
pub open spec fn glyph_column(sheet: Sprite, c: char, bx: int, by: int, scale: u32, col: Color, i: int, n: int) -> Seq<(Vi2d, Color)>
    decreases n,
{
    if n <= 0 {
        Seq::empty()
    } else {
        glyph_column(sheet, c, bx, by, scale, col, i, n - 1) + if glyph_lit(sheet, c, i, n - 1) {
            blit_block(
                bx + i * glyph_step(scale),
                by + (n - 1) * glyph_step(scale),
                glyph_step(scale),
                glyph_step(scale),
                col,
            )
        } else {
            Seq::empty()
        }
    }
}

/// The first `m` columns of the glyph of `c` with its corner at `(bx, by)`, left to right.
pub open spec fn glyph_points(sheet: Sprite, c: char, bx: int, by: int, scale: u32, col: Color, m: int) -> Seq<(Vi2d, Color)>
    decreases m,
{
    if m <= 0 {
        Seq::empty()
    } else {
        glyph_points(sheet, c, bx, by, scale, col, m - 1) + glyph_column(sheet, c, bx, by, scale, col, m - 1, 8)
    }
}

/// The points that character `k` of `text` at `pos` draws: its glyph at the cursor, or
/// nothing for a new line or a character outside ASCII.
pub open spec fn char_points(sheet: Sprite, text: Seq<char>, pos: Vi2d, scale: u32, col: Color, k: int) -> Seq<(Vi2d, Color)> {
    let cur = text_cursor(text, k, scale);
    if has_glyph(text[k]) {
        glyph_points(sheet, text[k], pos.x + cur.0, pos.y + cur.1, scale, col, 8)
    } else {
        Seq::empty()
    }
}

/// The points that the first `k` characters of `text` at `pos` draw, in order.
pub open spec fn text_points(sheet: Sprite, text: Seq<char>, pos: Vi2d, scale: u32, col: Color, k: int) -> Seq<(Vi2d, Color)>
    decreases k,
{
    if k <= 0 {
        Seq::empty()
    } else {
        text_points(sheet, text, pos, scale, col, k - 1) + char_points(sheet, text, pos, scale, col, k - 1)
    }
}

/// Whether every point of `pts` has color `col` and lies in `[x0, x1)` by `[y0, y1)`.
pub open spec fn points_in_box(pts: Seq<(Vi2d, Color)>, col: Color, x0: int, y0: int, x1: int, y1: int) -> bool {
    forall|m: int|
        0 <= m < pts.len() ==> {
            &&& (#[trigger] pts[m]).1 == col
            &&& x0 <= pts[m].0.x < x1
            &&& y0 <= pts[m].0.y < y1
        }
}

proof fn lemma_concat_in_box(a: Seq<(Vi2d, Color)>, b: Seq<(Vi2d, Color)>, col: Color, x0: int, y0: int, x1: int, y1: int)
    requires
        points_in_box(a, col, x0, y0, x1, y1),
        points_in_box(b, col, x0, y0, x1, y1),
    ensures
        points_in_box(a + b, col, x0, y0, x1, y1),
{
    assert forall|m: int| 0 <= m < (a + b).len() implies {
        &&& (#[trigger] (a + b)[m]).1 == col
        &&& x0 <= (a + b)[m].0.x < x1
        &&& y0 <= (a + b)[m].0.y < y1
    } by {
        if m < a.len() {
            assert((a + b)[m] == a[m]);
        } else {
            assert((a + b)[m] == b[m - a.len()]);
        }
    }
}

proof fn lemma_block_in_box(bx: int, by: int, b: int, k: int, col: Color)
    requires
        0 <= k <= b,
        fits(bx),
        fits(bx + b - 1),
        fits(by),
        fits(by + b - 1),
    ensures
        points_in_box(blit_block(bx, by, b, k, col), col, bx, by, bx + b, by + b),
    decreases k,
{
    if k > 0 {
        lemma_block_in_box(bx, by, b, k - 1, col);
        let row = Seq::new(b as nat, |js: int| (crate::drawing::pt(bx + k - 1, by + js), col));
        assert(points_in_box(row, col, bx, by, bx + b, by + b)) by {
            assert forall|m: int| 0 <= m < row.len() implies {
                &&& (#[trigger] row[m]).1 == col
                &&& bx <= row[m].0.x < bx + b
                &&& by <= row[m].0.y < by + b
            } by {
                assert(fits(bx + k - 1));
                assert(fits(by + m));
            }
        }
        lemma_concat_in_box(blit_block(bx, by, b, k - 1, col), row, col, bx, by, bx + b, by + b);
    }
}

proof fn lemma_column_in_box(sheet: Sprite, c: char, bx: int, by: int, scale: u32, col: Color, i: int, n: int)
    requires
        glyph_fits(sheet, c, bx, by, scale),
        0 <= i < 8,
        0 <= n <= 8,
    ensures
        points_in_box(
            glyph_column(sheet, c, bx, by, scale, col, i, n),
            col,
            bx,
            by,
            bx + 8 * glyph_step(scale),
            by + 8 * glyph_step(scale),
        ),
    decreases n,
{
    let s = glyph_step(scale);
    let (x1, y1) = (bx + 8 * s, by + 8 * s);
    if n > 0 {
        lemma_column_in_box(sheet, c, bx, by, scale, col, i, n - 1);
        if glyph_lit(sheet, c, i, n - 1) {
            let (cx, cy) = (bx + i * s, by + (n - 1) * s);
            lemma_block_in_box(cx, cy, s, s, col);
            assert(bx <= cx && cx + s <= x1 && by <= cy && cy + s <= y1) by (nonlinear_arith)
                requires
                    cx == bx + i * s,
                    cy == by + (n - 1) * s,
                    x1 == bx + 8 * s,
                    y1 == by + 8 * s,
                    s >= 1,
                    0 <= i < 8,
                    1 <= n <= 8,
            ;
            let blk = blit_block(cx, cy, s, s, col);
            assert(points_in_box(blk, col, bx, by, x1, y1)) by {
                assert forall|m: int| 0 <= m < blk.len() implies {
                    &&& (#[trigger] blk[m]).1 == col
                    &&& bx <= blk[m].0.x < x1
                    &&& by <= blk[m].0.y < y1
                } by {
                    assert(blk[m].1 == col);
                }
            }
            lemma_concat_in_box(glyph_column(sheet, c, bx, by, scale, col, i, n - 1), blk, col, bx, by, x1, y1);
        } else {
            assert(glyph_column(sheet, c, bx, by, scale, col, i, n) =~= glyph_column(sheet, c, bx, by, scale, col, i, n - 1));
        }
    }
}

proof fn lemma_glyph_in_box(sheet: Sprite, c: char, bx: int, by: int, scale: u32, col: Color, m: int)
    requires
        glyph_fits(sheet, c, bx, by, scale),
        0 <= m <= 8,
    ensures
        points_in_box(
            glyph_points(sheet, c, bx, by, scale, col, m),
            col,
            bx,
            by,
            bx + 8 * glyph_step(scale),
            by + 8 * glyph_step(scale),
        ),
    decreases m,
{
    if m > 0 {
        lemma_glyph_in_box(sheet, c, bx, by, scale, col, m - 1);
        lemma_column_in_box(sheet, c, bx, by, scale, col, m - 1, 8);
        lemma_concat_in_box(
            glyph_points(sheet, c, bx, by, scale, col, m - 1),
            glyph_column(sheet, c, bx, by, scale, col, m - 1, 8),
            col,
            bx,
            by,
            bx + 8 * glyph_step(scale),
            by + 8 * glyph_step(scale),
        );
    }
}

proof fn lemma_text_prefix_in_box(sheet: Sprite, text: Seq<char>, pos: Vi2d, scale: u32, col: Color, k: int)
    requires
        text_fits(sheet, text, pos, scale),
        scale >= 1,
        forall|i: int| 0 <= i < text.len() ==> #[trigger] has_glyph(text[i]),
        0 <= k <= text.len(),
    ensures
        points_in_box(
            text_points(sheet, text, pos, scale, col, k),
            col,
            pos.x as int,
            pos.y as int,
            pos.x + 8 * scale * text.len(),
            pos.y + 8 * scale,
        ),
    decreases k,
{
    let (x0, y0, x1, y1) = (pos.x as int, pos.y as int, pos.x + 8 * scale * text.len(), pos.y + 8 * scale);
    if k > 0 {
        lemma_text_prefix_in_box(sheet, text, pos, scale, col, k - 1);
        lemma_single_line_cursor(text, k - 1, scale);
        assert(has_glyph(text[k - 1]));
        let bx = pos.x + 8 * scale * (k - 1);
        assert(glyph_step(scale) == scale);
        lemma_glyph_in_box(sheet, text[k - 1], bx, y0, scale, col, 8);
        assert(x0 <= bx && bx + 8 * scale <= x1) by (nonlinear_arith)
            requires
                bx == x0 + 8 * scale * (k - 1),
                x1 == x0 + 8 * scale * text.len(),
                scale >= 1,
                1 <= k <= text.len(),
        ;
        let g = glyph_points(sheet, text[k - 1], bx, y0, scale, col, 8);
        assert(char_points(sheet, text, pos, scale, col, k - 1) == g);
        assert(points_in_box(g, col, x0, y0, x1, y1)) by {
            assert forall|m: int| 0 <= m < g.len() implies {
                &&& (#[trigger] g[m]).1 == col
                &&& x0 <= g[m].0.x < x1
                &&& y0 <= g[m].0.y < y1
            } by {
                assert(g[m].1 == col);
            }
        }
        lemma_concat_in_box(text_points(sheet, text, pos, scale, col, k - 1), g, col, x0, y0, x1, y1);
    }
}

/// A line of text at a scale of at least 1 stays in its box: every point that it draws has
/// the text's color and lies at most `8 * scale` pixels below its position and at most
/// `8 * scale` pixels per character to its right.
pub proof fn lemma_text_in_box(sheet: Sprite, text: Seq<char>, pos: Vi2d, scale: u32, col: Color)
    requires
        text_fits(sheet, text, pos, scale),
        scale >= 1,
        forall|i: int| 0 <= i < text.len() ==> #[trigger] has_glyph(text[i]),
    ensures
        points_in_box(
            text_points(sheet, text, pos, scale, col, text.len() as int),
            col,
            pos.x as int,
            pos.y as int,
            pos.x + 8 * scale * text.len(),
            pos.y + 8 * scale,
        ),
{
    lemma_text_prefix_in_box(sheet, text, pos, scale, col, text.len() as int);
}

proof fn lemma_unit_column_contains(sheet: Sprite, c: char, bx: int, by: int, col: Color, i: int, n: int, v: (Vi2d, Color))
    requires
        0 <= n <= 8,
    ensures
        glyph_column(sheet, c, bx, by, 1, col, i, n).contains(v) <==> exists|j: int|
            0 <= j < n && #[trigger] glyph_lit(sheet, c, i, j) && v == (crate::drawing::pt(bx + i, by + j), col),
    decreases n,
{
    if n > 0 {
        lemma_unit_column_contains(sheet, c, bx, by, col, i, n - 1, v);
        let prev = glyph_column(sheet, c, bx, by, 1, col, i, n - 1);
        let p = (crate::drawing::pt(bx + i, by + n - 1), col);
        if glyph_lit(sheet, c, i, n - 1) {
            assert(glyph_step(1) == 1);
            let blk = blit_block(bx + i, by + (n - 1), 1, 1, col);
            assert(blit_block(bx + i, by + (n - 1), 1, 0, col) =~= Seq::<(Vi2d, Color)>::empty());
            assert(blk.len() == 1);
            assert(blk[0] == p);
            assert(blk =~= seq![p]);
            assert(glyph_column(sheet, c, bx, by, 1, col, i, n) == prev + blk);
            crate::drawing::lemma_concat_contains(prev, blk, v);
            if v == p {
                assert(glyph_lit(sheet, c, i, n - 1));
            }
        } else {
            assert(glyph_column(sheet, c, bx, by, 1, col, i, n) =~= prev);
        }
        if exists|j: int| 0 <= j < n && #[trigger] glyph_lit(sheet, c, i, j) && v == (crate::drawing::pt(bx + i, by + j), col) {
            let j = choose|j: int| 0 <= j < n && #[trigger] glyph_lit(sheet, c, i, j) && v == (crate::drawing::pt(bx + i, by + j), col);
            if j < n - 1 {
                assert(prev.contains(v));
            }
        }
    }
}

proof fn lemma_unit_glyph_contains(sheet: Sprite, c: char, bx: int, by: int, col: Color, m: int, v: (Vi2d, Color))
    requires
        0 <= m <= 8,
    ensures
        glyph_points(sheet, c, bx, by, 1, col, m).contains(v) <==> exists|i: int, j: int|
            0 <= i < m && 0 <= j < 8 && #[trigger] glyph_lit(sheet, c, i, j) && v == (crate::drawing::pt(bx + i, by + j), col),
    decreases m,
{
    if m > 0 {
        lemma_unit_glyph_contains(sheet, c, bx, by, col, m - 1, v);
        lemma_unit_column_contains(sheet, c, bx, by, col, m - 1, 8, v);
        crate::drawing::lemma_concat_contains(
            glyph_points(sheet, c, bx, by, 1, col, m - 1),
            glyph_column(sheet, c, bx, by, 1, col, m - 1, 8),
            v,
        );
        if exists|i: int, j: int| 0 <= i < m && 0 <= j < 8 && #[trigger] glyph_lit(sheet, c, i, j) && v == (crate::drawing::pt(bx + i, by + j), col) {
            let (i, j) = choose|i: int, j: int| 0 <= i < m && 0 <= j < 8 && #[trigger] glyph_lit(sheet, c, i, j) && v == (crate::drawing::pt(bx + i, by + j), col);
            if i < m - 1 {
                assert(glyph_points(sheet, c, bx, by, 1, col, m - 1).contains(v));
            } else {
                assert(glyph_column(sheet, c, bx, by, 1, col, m - 1, 8).contains(v));
            }
        }
        if glyph_column(sheet, c, bx, by, 1, col, m - 1, 8).contains(v) {
            let j = choose|j: int| 0 <= j < 8 && #[trigger] glyph_lit(sheet, c, m - 1, j) && v == (crate::drawing::pt(bx + m - 1, by + j), col);
            assert(glyph_lit(sheet, c, m - 1, j));
        }
    }
}

/// One character from `' '` on, drawn at scale 1, draws exactly its cell of the font sheet:
/// the points `(pos.x + i, pos.y + j)`, for `i` and `j` below 8, whose sheet pixel
/// `(8 * ((c - 32) % 16) + i, 8 * ((c - 32) / 16) + j)` has a red part; the sheet holds 16
/// glyphs to a row.
pub proof fn lemma_single_glyph(sheet: Sprite, c: char, pos: Vi2d, col: Color)
    requires
        32 <= (c as int) < 128,
    ensures
        forall|v: (Vi2d, Color)|
            #[trigger] text_points(sheet, seq![c], pos, 1, col, 1).contains(v) <==> exists|i: int, j: int|
                0 <= i < 8 && 0 <= j < 8 && #[trigger] sample(sheet, 8 * ((c as int - 32) % 16) + i, 8 * ((c as int - 32) / 16) + j).r > 0
                    && v == (crate::drawing::pt(pos.x + i, pos.y + j), col),
{
    let text = seq![c];
    assert(text_cursor(text, 0, 1) == (0int, 0int));
    assert(has_glyph(text[0]));
    assert(char_points(sheet, text, pos, 1, col, 0) == glyph_points(sheet, c, pos.x as int, pos.y as int, 1, col, 8));
    assert(text_points(sheet, text, pos, 1, col, 0) =~= Seq::<(Vi2d, Color)>::empty());
    assert(text_points(sheet, text, pos, 1, col, 1) =~= glyph_points(sheet, c, pos.x as int, pos.y as int, 1, col, 8));
    assert forall|v: (Vi2d, Color)|
        #[trigger] text_points(sheet, text, pos, 1, col, 1).contains(v) <==> exists|i: int, j: int|
            0 <= i < 8 && 0 <= j < 8 && #[trigger] sample(sheet, 8 * ((c as int - 32) % 16) + i, 8 * ((c as int - 32) / 16) + j).r > 0
                && v == (crate::drawing::pt(pos.x + i, pos.y + j), col) by {
        lemma_unit_glyph_contains(sheet, c, pos.x as int, pos.y as int, col, 8, v);
        assert forall|i: int, j: int| #[trigger] glyph_lit(sheet, c, i, j) == (sample(sheet, 8 * ((c as int - 32) % 16) + i, 8 * ((c as int - 32) / 16) + j).r > 0) by {
            assert(i + ((c as int - 32) % 16) * 8 == 8 * ((c as int - 32) % 16) + i);
            assert(j + ((c as int - 32) / 16) * 8 == 8 * ((c as int - 32) / 16) + j);
        }
        if exists|i: int, j: int| 0 <= i < 8 && 0 <= j < 8 && #[trigger] glyph_lit(sheet, c, i, j) && v == (crate::drawing::pt(pos.x + i, pos.y + j), col) {
            let (i, j) = choose|i: int, j: int| 0 <= i < 8 && 0 <= j < 8 && #[trigger] glyph_lit(sheet, c, i, j) && v == (crate::drawing::pt(pos.x + i, pos.y + j), col);
            assert(sample(sheet, 8 * ((c as int - 32) % 16) + i, 8 * ((c as int - 32) / 16) + j).r > 0);
        }
        if exists|i: int, j: int| 0 <= i < 8 && 0 <= j < 8 && #[trigger] sample(sheet, 8 * ((c as int - 32) % 16) + i, 8 * ((c as int - 32) / 16) + j).r > 0
                && v == (crate::drawing::pt(pos.x + i, pos.y + j), col) {
            let (i, j) = choose|i: int, j: int| 0 <= i < 8 && 0 <= j < 8 && #[trigger] sample(sheet, 8 * ((c as int - 32) % 16) + i, 8 * ((c as int - 32) / 16) + j).r > 0
                && v == (crate::drawing::pt(pos.x + i, pos.y + j), col);
            assert(glyph_lit(sheet, c, i, j));
        }
    }
}

/// Whether every lit pixel of the glyph of `c` at `(bx, by)` covers only points that fit in
/// `i32`.
pub open spec fn glyph_fits(sheet: Sprite, c: char, bx: int, by: int, scale: u32) -> bool {
    forall|i: int, j: int|
        0 <= i < 8 && 0 <= j < 8 && #[trigger] glyph_lit(sheet, c, i, j) ==> {
            &&& fits(bx + i * glyph_step(scale))
            &&& fits(bx + i * glyph_step(scale) + glyph_step(scale) - 1)
            &&& fits(by + j * glyph_step(scale))
            &&& fits(by + j * glyph_step(scale) + glyph_step(scale) - 1)
        }
}

/// Whether `text` can be drawn at `pos` and `scale` with `sheet`: the scale and the cursor
/// stay in `i32`, every ASCII character below `' '` is a new line, and every glyph drawn
/// fits.
pub open spec fn text_fits(sheet: Sprite, text: Seq<char>, pos: Vi2d, scale: u32) -> bool {
    &&& scale <= i32::MAX
    &&& text.len() > 0 ==> 8 * scale <= i32::MAX
    &&& forall|k: int| 0 <= k <= text.len() ==> {
        &&& fits((#[trigger] text_cursor(text, k, scale)).0)
        &&& fits(text_cursor(text, k, scale).1)
    }
    &&& forall|k: int| 0 <= k < text.len() && #[trigger] has_glyph(text[k]) ==> {
        &&& 32 <= text[k] as int
        &&& glyph_fits(sheet, text[k], pos.x + text_cursor(text, k, scale).0, pos.y + text_cursor(text, k, scale).1, scale)
    }
}

/// Draw the glyph of `c` with its corner at `(bx, by)`, reading it from `sheet`, whose pixels
/// are those of `sh`.
fn draw_glyph<T: SmartDrawingTrait>(t: &mut T, sheet: &Sprite, Ghost(sh): Ghost<Sprite>, c: char, bx: i64, by: i64, scale: u32, col: Color)
    requires
        sheet.wf(),
        forall|x: int, y: int| sample(*sheet, x, y) == #[trigger] sample(sh, x, y),
        32 <= (c as int) < 128,
        scale <= 0x1000_0000,
        -0x1_0000_0000 <= bx <= 0x1_0000_0000,
        -0x1_0000_0000 <= by <= 0x1_0000_0000,
        glyph_fits(sh, c, bx as int, by as int, scale),
    ensures
        *final(t) == draw_each(*old(t), glyph_points(sh, c, bx as int, by as int, scale, col, 8)),
{
    let ghost start = *t;
    let code = c as u32 - 32;
    let ox: i64 = (code % 16) as i64;
    let oy: i64 = (code / 16) as i64;
    let step: i64 = if scale > 1 { scale as i64 } else { 1 };
    let mut i: i64 = 0;
    while i < 8
        invariant
            0 <= i <= 8,
            sheet.wf(),
            forall|x: int, y: int| sample(*sheet, x, y) == #[trigger] sample(sh, x, y),
            32 <= (c as int) < 128,
            ox == (c as int - 32) % 16,
            oy == (c as int - 32) / 16,
            step == glyph_step(scale),
            scale <= 0x1000_0000,
            -0x1_0000_0000 <= bx <= 0x1_0000_0000,
            -0x1_0000_0000 <= by <= 0x1_0000_0000,
            glyph_fits(sh, c, bx as int, by as int, scale),
            *t == draw_each(start, glyph_points(sh, c, bx as int, by as int, scale, col, i as int)),
        decreases 8 - i,
    {
        let ghost col_start = *t;
        let mut j: i64 = 0;
        while j < 8
            invariant
                0 <= i < 8,
                0 <= j <= 8,
                sheet.wf(),
                forall|x: int, y: int| sample(*sheet, x, y) == #[trigger] sample(sh, x, y),
                32 <= (c as int) < 128,
                ox == (c as int - 32) % 16,
                oy == (c as int - 32) / 16,
                step == glyph_step(scale),
                    scale <= 0x1000_0000,
                -0x1_0000_0000 <= bx <= 0x1_0000_0000,
                -0x1_0000_0000 <= by <= 0x1_0000_0000,
                glyph_fits(sh, c, bx as int, by as int, scale),
                *t == draw_each(col_start, glyph_column(sh, c, bx as int, by as int, scale, col, i as int, j as int)),
            decreases 8 - j,
        {
            let lit = sample_exec(sheet, i + ox * 8, j + oy * 8).r > 0;
            proof {
                assert(sample(*sheet, i + ox * 8, j + oy * 8) == sample(sh, i + ox * 8, j + oy * 8));
                assert(lit == glyph_lit(sh, c, i as int, j as int));
            }
            if lit {
                proof {
                    assert(0 <= i * step <= 7 * step) by (nonlinear_arith)
                        requires
                            0 <= i < 8,
                            1 <= step,
                    ;
                    assert(0 <= j * step <= 7 * step) by (nonlinear_arith)
                        requires
                            0 <= j < 8,
                            1 <= step,
                    ;
                }
                let bxi = bx + i * step;
                let byj = by + j * step;
                draw_block(t, bxi, byj, step, col);
                proof {
                    lemma_draw_each_concat(
                        col_start,
                        glyph_column(sh, c, bx as int, by as int, scale, col, i as int, j as int),
                        blit_block(bxi as int, byj as int, step as int, step as int, col),
                    );
                }
            } else {
                proof {
                    assert(glyph_column(sh, c, bx as int, by as int, scale, col, i as int, j + 1)
                        =~= glyph_column(sh, c, bx as int, by as int, scale, col, i as int, j as int));
                }
            }
            j = j + 1;
        }
        proof {
            lemma_draw_each_concat(
                start,
                glyph_points(sh, c, bx as int, by as int, scale, col, i as int),
                glyph_column(sh, c, bx as int, by as int, scale, col, i as int, 8),
            );
        }
        i = i + 1;
    }
}

/// Draw `text` with its top left corner at `pos` (see [`text_points`]), reading the glyphs
/// from the target's text sheet.
pub(crate) fn draw_text_on<T: SmartDrawingTrait>(t: &mut T, pos: Vi2d, scale: u32, col: Color, text: &str)
    requires
        text_fits(old(t).textsheet(), text@, pos, scale),
    ensures
        *final(t) == draw_each(*old(t), text_points(old(t).textsheet(), text@, pos, scale, col, text@.len() as int)),
{
    let ghost start = *t;
    let ghost sh = t.textsheet();
    let sheet = t.get_textsheet().clone();
    let adv: i64 = 8 * (scale as i64);
    let mut sx: i64 = 0;
    let mut sy: i64 = 0;
    let ghost mut k: int = 0;
    for chr in it: text.chars()
        invariant
            it.seq() == text@,
            k == it.index(),
            sheet.wf(),
            forall|x: int, y: int| sample(sheet, x, y) == #[trigger] sample(sh, x, y),
            text_fits(sh, text@, pos, scale),
            text@.len() > 0 ==> adv == 8 * scale,
            (sx as int, sy as int) == text_cursor(text@, k, scale),
            *t == draw_each(start, text_points(sh, text@, pos, scale, col, k)),
    {
        proof {
            assert(0 <= k < text@.len());
            assert(chr == text@[k]);
            assert(text_cursor(text@, k, scale) == (sx as int, sy as int));
            assert(fits(text_cursor(text@, k + 1, scale).0));
            assert(fits(text_cursor(text@, k + 1, scale).1));
        }
        if chr == '\n' {
            sx = 0;
            sy = sy + adv;
            proof {
                assert(char_points(sh, text@, pos, scale, col, k) =~= Seq::<(Vi2d, Color)>::empty());
                assert(text_points(sh, text@, pos, scale, col, k + 1) =~= text_points(sh, text@, pos, scale, col, k));
            }
        } else if chr <= '\x7f' {
            proof {
                assert(has_glyph(text@[k]));
            }
            draw_glyph(t, &sheet, Ghost(sh), chr, pos.x as i64 + sx, pos.y as i64 + sy, scale, col);
            proof {
                lemma_draw_each_concat(
                    start,
                    text_points(sh, text@, pos, scale, col, k),
                    char_points(sh, text@, pos, scale, col, k),
                );
            }
            sx = sx + adv;
        } else {
            proof {
                assert(char_points(sh, text@, pos, scale, col, k) =~= Seq::<(Vi2d, Color)>::empty());
                assert(text_points(sh, text@, pos, scale, col, k + 1) =~= text_points(sh, text@, pos, scale, col, k));
            }
        }
        proof {
            k = k + 1;
        }
    }
}

} // verus!
