//! The overlay: a five by seven pixel font and the quads drawn with it.
//!
//! Text and rectangles go into one list of quads, which is cut off at a fixed
//! length. Positions and lengths are whole numbers of hundredths of a pixel,
//! measured from the top left corner, so that every line lands exactly.
use vstd::prelude::*;
use vstd::string::*;

use crate::float::F32;

verus! {

pub const GLYPH_W: usize = 5;

pub const GLYPH_H: usize = 7;

/// The solid block, the blank, the letters and the digits.
pub const SLOTS: usize = 38;

pub const MAX_QUADS: usize = 1024;

/// Hundredths in a pixel.
pub const PIXEL: u32 = 100;

/// The furthest from the corner that anything is placed.
pub const FAR: i128 = 0x1_0000_0000_0000_0000_0000_0000_0000;

/// One byte for each row of a glyph; bit 4 is the leftmost pixel.
pub const GLYPHS: [[u8; 7]; 38] = [
    [0x1F, 0x1F, 0x1F, 0x1F, 0x1F, 0x1F, 0x1F],
    [0x00, 0x00, 0x00, 0x00, 0x00, 0x00, 0x00],
    [0x0E, 0x11, 0x11, 0x1F, 0x11, 0x11, 0x11],
    [0x1E, 0x11, 0x1E, 0x11, 0x11, 0x11, 0x1E],
    [0x0E, 0x11, 0x10, 0x10, 0x10, 0x11, 0x0E],
    [0x1E, 0x11, 0x11, 0x11, 0x11, 0x11, 0x1E],
    [0x1F, 0x10, 0x10, 0x1E, 0x10, 0x10, 0x1F],
    [0x1F, 0x10, 0x10, 0x1E, 0x10, 0x10, 0x10],
    [0x0E, 0x11, 0x10, 0x17, 0x11, 0x11, 0x0E],
    [0x11, 0x11, 0x11, 0x1F, 0x11, 0x11, 0x11],
    [0x1F, 0x04, 0x04, 0x04, 0x04, 0x04, 0x1F],
    [0x07, 0x02, 0x02, 0x02, 0x02, 0x12, 0x0C],
    [0x11, 0x12, 0x14, 0x18, 0x14, 0x12, 0x11],
    [0x10, 0x10, 0x10, 0x10, 0x10, 0x10, 0x1F],
    [0x11, 0x1B, 0x15, 0x11, 0x11, 0x11, 0x11],
    [0x11, 0x19, 0x15, 0x13, 0x11, 0x11, 0x11],
    [0x0E, 0x11, 0x11, 0x11, 0x11, 0x11, 0x0E],
    [0x1E, 0x11, 0x11, 0x1E, 0x10, 0x10, 0x10],
    [0x0E, 0x11, 0x11, 0x11, 0x15, 0x12, 0x0D],
    [0x1E, 0x11, 0x11, 0x1E, 0x14, 0x12, 0x11],
    [0x0F, 0x10, 0x10, 0x0E, 0x01, 0x01, 0x1E],
    [0x1F, 0x04, 0x04, 0x04, 0x04, 0x04, 0x04],
    [0x11, 0x11, 0x11, 0x11, 0x11, 0x11, 0x0E],
    [0x11, 0x11, 0x11, 0x11, 0x11, 0x0A, 0x04],
    [0x11, 0x11, 0x11, 0x11, 0x15, 0x1B, 0x11],
    [0x11, 0x11, 0x0A, 0x04, 0x0A, 0x11, 0x11],
    [0x11, 0x11, 0x0A, 0x04, 0x04, 0x04, 0x04],
    [0x1F, 0x01, 0x02, 0x04, 0x08, 0x10, 0x1F],
    [0x0E, 0x13, 0x15, 0x19, 0x11, 0x11, 0x0E],
    [0x04, 0x0C, 0x04, 0x04, 0x04, 0x04, 0x1F],
    [0x0E, 0x11, 0x01, 0x06, 0x08, 0x10, 0x1F],
    [0x1F, 0x02, 0x04, 0x02, 0x01, 0x11, 0x0E],
    [0x02, 0x06, 0x0A, 0x12, 0x1F, 0x02, 0x02],
    [0x1F, 0x10, 0x1E, 0x01, 0x01, 0x11, 0x0E],
    [0x06, 0x08, 0x10, 0x1E, 0x11, 0x11, 0x0E],
    [0x1F, 0x01, 0x02, 0x04, 0x08, 0x08, 0x08],
    [0x0E, 0x11, 0x11, 0x0E, 0x11, 0x11, 0x0E],
    [0x0E, 0x11, 0x11, 0x0F, 0x01, 0x02, 0x0C],
];

/// Where a character stands in the font. Lower case draws as upper case, and
/// what the font lacks draws as the blank.
pub open spec fn slot(c: char) -> usize {
    if 'a' <= c <= 'z' {
        (2 + (c as int - 'a' as int)) as usize
    } else if 'A' <= c <= 'Z' {
        (2 + (c as int - 'A' as int)) as usize
    } else if '0' <= c <= '9' {
        (28 + (c as int - '0' as int)) as usize
    } else {
        1
    }
}

pub fn slot_of(c: char) -> (r: usize)
    ensures
        r == slot(c),
        r < SLOTS,
{
    if 'a' <= c && c <= 'z' {
        2 + (c as usize - 'a' as usize)
    } else if 'A' <= c && c <= 'Z' {
        2 + (c as usize - 'A' as usize)
    } else if '0' <= c && c <= '9' {
        28 + (c as usize - '0' as usize)
    } else {
        1
    }
}

/// Whether the font has ink at a pixel of the atlas, whose glyphs stand side by
/// side in one row.
pub open spec fn inked(row: int, x: int) -> bool {
    GLYPHS[x / 5][row] & (1u8 << (4 - x % 5)) != 0
}

/// One byte of the atlas: ink is opaque white, and elsewhere red and alpha are
/// zero.
pub open spec fn atlas_byte(i: int) -> u8 {
    if inked(i / 4 / 190, i / 4 % 190) || i % 4 == 1 || i % 4 == 2 {
        255
    } else {
        0
    }
}

/// The atlas as RGBA bytes, `SLOTS * GLYPH_W` pixels wide and `GLYPH_H` high.
pub fn atlas() -> (r: Vec<u8>)
    ensures
        r@ == Seq::new((SLOTS * GLYPH_W * GLYPH_H * 4) as nat, |i: int| atlas_byte(i)),
{
    let mut out: Vec<u8> = Vec::new();
    for i in 0..5320usize
        invariant
            out@.len() == i,
            forall|j: int| 0 <= j < i ==> out@[j] == atlas_byte(j),
    {
        let row: usize = i / 4 / 190;
        let x: usize = i / 4 % 190;
        let glyph: [u8; 7] = GLYPHS[x / 5];
        let on: bool = glyph[row] & (1u8 << (4 - x % 5)) != 0;
        out.push(
            if on || i % 4 == 1 || i % 4 == 2 {
                255
            } else {
                0
            },
        );
    }
    out
}

/// A colour with alpha, in linear light.
#[derive(Clone, Copy, Debug, PartialEq, Eq, Structural)]
pub struct Color {
    pub r: F32,
    pub g: F32,
    pub b: F32,
    pub a: F32,
}

/// What a quad samples: one texel of the solid block, or a whole glyph.
#[derive(Clone, Copy, Debug, PartialEq, Eq, Structural)]
pub enum Ink {
    Solid,
    Glyph(usize),
}

#[derive(Clone, Copy, Debug, PartialEq, Eq, Structural)]
pub struct Quad {
    pub x: i128,
    pub y: i128,
    pub w: i128,
    pub h: i128,
    pub ink: Ink,
    pub color: Color,
}

/// The quads of one frame, and the size of what they are drawn onto.
#[derive(Debug)]
pub struct UiPass {
    pub quads: Vec<Quad>,
    pub width: u32,
    pub height: u32,
}

/// `added` behind `quads`, cut off at the limit.
pub open spec fn capped(quads: Seq<Quad>, added: Seq<Quad>) -> Seq<Quad> {
    let room = if quads.len() < MAX_QUADS {
        MAX_QUADS - quads.len()
    } else {
        0
    };
    quads + added.take(if added.len() < room {
        added.len() as int
    } else {
        room
    })
}

/// The quad of the character at place `i` of a line of text.
pub open spec fn glyph_quad(x: i128, y: i128, px: u32, color: Color, c: char, i: int) -> Quad {
    Quad {
        x: (x + i * 6 * px) as i128,
        y,
        w: (5 * px) as i128,
        h: (7 * px) as i128,
        ink: Ink::Glyph(slot(c)),
        color,
    }
}

/// One quad for each character, six font pixels apart.
pub open spec fn text_quads(x: i128, y: i128, px: u32, color: Color, t: Seq<char>) -> Seq<Quad> {
    Seq::new(t.len(), |i: int| glyph_quad(x, y, px, color, t[i], i))
}

/// Width of a line of text whose font pixels are `px` wide.
pub open spec fn width_of(t: Seq<char>, px: u32) -> int {
    t.len() * 6 * px
}

impl UiPass {
    pub fn new() -> (r: UiPass)
        ensures
            r.quads@.len() == 0,
            r.width == 1,
            r.height == 1,
    {
        UiPass { quads: Vec::new(), width: 1, height: 1 }
    }

    /// Start a frame. A surface has at least one pixel each way.
    pub fn begin(&mut self, extent_w: u32, extent_h: u32)
        ensures
            final(self).quads@.len() == 0,
            final(self).width == if extent_w == 0 {
                1
            } else {
                extent_w
            },
            final(self).height == if extent_h == 0 {
                1
            } else {
                extent_h
            },
    {
        self.quads.clear();
        self.width = if extent_w == 0 {
            1
        } else {
            extent_w
        };
        self.height = if extent_h == 0 {
            1
        } else {
            extent_h
        };
    }

    pub fn is_empty(&self) -> (r: bool)
        ensures
            r == (self.quads@.len() == 0),
    {
        self.quads.len() == 0
    }

    /// Width that `text` takes with font pixels `px` wide.
    pub fn text_width(text: &str, px: u32) -> (r: i128)
        ensures
            r == width_of(text@, px),
            text@.len() <= usize::MAX,
    {
        let n: usize = text.unicode_len();
        proof {
            lemma_width_fits(n as int, px as int);
        }
        n as i128 * 6 * px as i128
    }

    /// Height of a line of text with font pixels `px` high.
    pub fn text_height(px: u32) -> (r: i128)
        ensures
            r == 7 * px,
    {
        7 * px as i128
    }

    /// Add a quad, or drop it when the frame is full.
    pub fn quad(&mut self, q: Quad)
        ensures
            final(self).quads@ == capped(old(self).quads@, seq![q]),
            final(self).width == old(self).width,
            final(self).height == old(self).height,
    {
        if self.quads.len() < MAX_QUADS {
            self.quads.push(q);
            assert(seq![q].take(1) =~= seq![q]);
        } else {
            assert(seq![q].take(0) =~= Seq::<Quad>::empty());
        }
    }

    /// A filled rectangle.
    pub fn rect(&mut self, x: i128, y: i128, w: i128, h: i128, color: Color)
        ensures
            final(self).quads@ == capped(
                old(self).quads@,
                seq![(Quad { x, y, w, h, ink: Ink::Solid, color })],
            ),
            final(self).width == old(self).width,
            final(self).height == old(self).height,
    {
        self.quad(Quad { x, y, w, h, ink: Ink::Solid, color });
    }

    /// A line of text with its top left corner at `(x, y)` and font pixels `px`
    /// wide and high.
    pub fn text(&mut self, x: i128, y: i128, px: u32, color: Color, text: &str)
        requires
            -FAR <= x <= FAR,
        ensures
            final(self).quads@ == capped(
                old(self).quads@,
                text_quads(x, y, px, color, text@),
            ),
            final(self).width == old(self).width,
            final(self).height == old(self).height,
    {
        let ghost all = text_quads(x, y, px, color, text@);
        let ghost before = self.quads@;
        let n: usize = text.unicode_len();
        let mut i: usize = 0;
        while i < n
            invariant
                n == text@.len(),
                i <= n,
                -FAR <= x <= FAR,
                all == text_quads(x, y, px, color, text@),
                self.quads@ == capped(before, all.take(i as int)),
                self.width == old(self).width,
                self.height == old(self).height,
            decreases n - i,
        {
            proof {
                lemma_width_fits(i as int, px as int);
            }
            let at: i128 = x + i as i128 * 6 * px as i128;
            self.quad(
                Quad {
                    x: at,
                    y,
                    w: 5 * px as i128,
                    h: 7 * px as i128,
                    ink: Ink::Glyph(slot_of(text.get_char(i))),
                    color,
                },
            );
            proof {
                lemma_capped_step(before, all, i as int);
                assert(all[i as int] == glyph_quad(x, y, px, color, text@[i as int], i as int));
            }
            i = i + 1;
        }
        assert(all.take(n as int) =~= all);
    }
}

proof fn lemma_width_fits(n: int, px: int)
    requires
        0 <= n <= usize::MAX,
        0 <= px <= u32::MAX,
    ensures
        0 <= n * 6 * px,
        n * 6 * px <= 0x10_0000_0000_0000_0000_0000_0000,
        n * 6 <= 0x10_0000_0000_0000_0000_0000_0000,
{
    assert(0 <= n * 6 * px <= 0x1_0000_0000_0000_0000 * 6 * 0x1_0000_0000) by (nonlinear_arith)
        requires
            0 <= n <= 0x1_0000_0000_0000_0000,
            0 <= px <= 0x1_0000_0000,
    ;
}

proof fn lemma_capped_step(before: Seq<Quad>, all: Seq<Quad>, i: int)
    requires
        0 <= i < all.len(),
    ensures
        capped(before, all.take(i + 1)) == capped(capped(before, all.take(i)), seq![all[i]]),
{
    assert(capped(before, all.take(i + 1)) =~= capped(
        capped(before, all.take(i)),
        seq![all[i]],
    ));
}

/// A frame never holds more quads than the limit.
pub proof fn law_frames_are_bounded(quads: Seq<Quad>, added: Seq<Quad>)
    requires
        quads.len() <= MAX_QUADS,
    ensures
        capped(quads, added).len() <= MAX_QUADS,
        quads.len() + added.len() <= MAX_QUADS ==> capped(quads, added) == quads + added,
{
    if quads.len() + added.len() <= MAX_QUADS {
        assert(added.take(added.len() as int) =~= added);
    }
}

/// Capitals and digits have glyphs of their own, and nothing else has one but
/// the small letters, which share those of the capitals.
pub proof fn law_glyphs_are_distinct(a: char, b: char)
    ensures
        slot(a) == 1 <==> !drawable(a),
        drawable(a) && drawable(b) && !('a' <= a <= 'z') && !('a' <= b <= 'z') && slot(a) == slot(b)
            ==> a == b,
{
}

/// Whether the font has a glyph with ink for a character.
pub open spec fn drawable(c: char) -> bool {
    ('a' <= c <= 'z') || ('A' <= c <= 'Z') || ('0' <= c <= '9')
}

/// The characters of a line stand in a row, each six font pixels from the one
/// before, five wide and seven high, and all within the width of the line.
pub proof fn law_text_stands_in_a_row(
    x: i128,
    y: i128,
    px: u32,
    color: Color,
    t: Seq<char>,
    i: int,
)
    requires
        -FAR <= x <= FAR,
        t.len() <= usize::MAX,
        0 <= i < t.len(),
    ensures
        text_quads(x, y, px, color, t).len() == t.len(),
        ({
            let q = text_quads(x, y, px, color, t)[i];
            &&& q.x == x + 6 * px * i
            &&& q.y == y
            &&& q.w == 5 * px
            &&& q.h == 7 * px
            &&& q.color == color
            &&& q.ink == Ink::Glyph(slot(t[i]))
            &&& x <= q.x && q.x + q.w <= x + width_of(t, px)
        }),
        width_of(t, px) == 6 * px * t.len(),
{
    lemma_width_fits(i, px as int);
    lemma_width_fits(t.len() as int, px as int);
    assert(i * 6 * px == 6 * px * i) by (nonlinear_arith);
    assert(t.len() * 6 * px == 6 * px * t.len()) by (nonlinear_arith);
    assert(6 * px * i + 5 * px <= 6 * px * t.len()) by (nonlinear_arith)
        requires
            0 <= i < t.len(),
            px >= 0,
    ;
}

/// Adding to a frame keeps what it has and takes what follows, in order, as far
/// as 1024 quads go.
pub proof fn law_frames_take_what_fits(quads: Seq<Quad>, added: Seq<Quad>)
    requires
        quads.len() <= 1024,
    ensures
        capped(quads, added) == (quads + added).take(
            if quads.len() + added.len() < 1024 {
                (quads.len() + added.len()) as int
            } else {
                1024
            },
        ),
{
    assert(capped(quads, added) =~= (quads + added).take(
        if quads.len() + added.len() < 1024 {
            (quads.len() + added.len()) as int
        } else {
            1024
        },
    ));
}

/// The glyphs stand in the order of the alphabet and of the digits, and a small
/// letter has the glyph of its capital.
pub proof fn law_glyphs_are_in_order(a: char, b: char)
    ensures
        slot('A') == 2,
        slot('0') == 28,
        'A' <= a <= 'Z' && 'A' <= b <= 'Z' ==> slot(b) - slot(a) == b as int - a as int,
        'a' <= a <= 'z' && 'A' <= b <= 'Z' && a as int - 'a' as int == b as int - 'A' as int
            ==> slot(a) == slot(b),
        '0' <= a <= '9' && '0' <= b <= '9' ==> slot(b) - slot(a) == b as int - a as int,
{
}

/// Each glyph stands in the atlas as its rows say, the highest of five bits at
/// the left: a pixel is opaque just where its bit is set.
pub proof fn law_the_atlas_shows_the_glyphs(g: int, row: int, col: int)
    requires
        0 <= g < 38,
        0 <= row < 7,
        0 <= col < 5,
    ensures
        ({
            let at = 4 * (190 * row + 5 * g + col);
            let bits = GLYPHS[g][row] as int;
            let weight = if col == 0 {
                16int
            } else if col == 1 {
                8
            } else if col == 2 {
                4
            } else if col == 3 {
                2
            } else {
                1
            };
            let opaque = bits / weight % 2 == 1;
            &&& atlas_byte(at) == (if opaque {
                255u8
            } else {
                0
            })
            &&& atlas_byte(at + 3) == atlas_byte(at)
            &&& atlas_byte(at + 1) == 255 && atlas_byte(at + 2) == 255
        }),
{
    let at = 4 * (190 * row + 5 * g + col);
    let x = 5 * g + col;
    assert(at / 4 == 190 * row + x && (at + 3) / 4 == 190 * row + x);
    assert((190 * row + x) / 190 == row && (190 * row + x) % 190 == x);
    assert(x / 5 == g && x % 5 == col);
    let b = GLYPHS[g][row];
    assert(1u8 << 4 == 16 && 1u8 << 3 == 8 && 1u8 << 2 == 4 && 1u8 << 1 == 2 && 1u8 << 0 == 1)
        by (bit_vector);
    assert(b & 16 != 0 <==> b / 16 % 2 == 1) by (bit_vector);
    assert(b & 8 != 0 <==> b / 8 % 2 == 1) by (bit_vector);
    assert(b & 4 != 0 <==> b / 4 % 2 == 1) by (bit_vector);
    assert(b & 2 != 0 <==> b / 2 % 2 == 1) by (bit_vector);
    assert(b & 1 != 0 <==> b % 2 == 1) by (bit_vector);
    assert(inked(row, x) <==> b & (1u8 << (4 - col)) != 0);
}

} // verus!
