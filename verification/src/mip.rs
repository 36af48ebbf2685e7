//! Textures for the bake: mip levels, padding to whole blocks, BC7.
//!
//! A level is half as wide and half as high as the one before, down to one
//! pixel, and each of its pixels averages four. How four pixels are averaged
//! depends on what they mean and is left to the caller; which four they are is
//! decided here.
use vstd::arithmetic::logarithm::*;
use vstd::arithmetic::power2::*;
use vstd::prelude::*;

use crate::bake;
use crate::bake::{BakedTexture, TexKind};

verus! {

/// A mip level as RGBA bytes, row by row.
#[derive(Clone, PartialEq, Eq, Debug)]
pub struct Level {
    pub pixels: Vec<u8>,
    pub width: u32,
    pub height: u32,
}

#[derive(Clone, Copy, PartialEq, Eq, Debug, Structural)]
pub struct Pixel {
    pub r: u8,
    pub g: u8,
    pub b: u8,
    pub a: u8,
}

impl Level {
    /// A level has pixels, exactly as many bytes as they take, and can be
    /// addressed with 32 bits.
    pub open spec fn whole(&self) -> bool {
        &&& self.width >= 1
        &&& self.height >= 1
        &&& self.width * self.height * 4 <= u32::MAX
        &&& self.pixels@.len() == self.width * self.height * 4
    }

    /// The byte where the pixel in column `x` of row `y` starts.
    pub open spec fn place(&self, x: int, y: int) -> int {
        (y * self.width + x) * 4
    }

    pub open spec fn pixel(&self, x: int, y: int) -> Pixel {
        let i = self.place(x, y);
        Pixel {
            r: self.pixels@[i],
            g: self.pixels@[i + 1],
            b: self.pixels@[i + 2],
            a: self.pixels@[i + 3],
        }
    }

    fn pixel_at(&self, x: u32, y: u32) -> (r: Pixel)
        requires
            self.whole(),
            x < self.width,
            y < self.height,
        ensures
            r == self.pixel(x as int, y as int),
    {
        proof {
            lemma_place(self.width as int, self.height as int, x as int, y as int);
        }
        let i: usize = ((y * self.width + x) * 4) as usize;
        Pixel {
            r: self.pixels[i],
            g: self.pixels[i + 1],
            b: self.pixels[i + 2],
            a: self.pixels[i + 3],
        }
    }
}

proof fn lemma_place(w: int, h: int, x: int, y: int)
    requires
        0 <= x < w,
        0 <= y < h,
    ensures
        0 <= y * w,
        y * w + x < w * h,
        (y * w + x) * 4 + 4 <= w * h * 4,
{
    assert(y * w + x < w * h && 0 <= y * w) by (nonlinear_arith)
        requires
            0 <= x < w,
            0 <= y < h,
    ;
}

/// A side of the next level.
pub open spec fn next_side(n: u32) -> u32 {
    if n / 2 < 1 {
        1
    } else {
        n / 2
    }
}

pub fn next_dim(n: u32) -> (r: u32)
    ensures
        r == next_side(n),
{
    if n / 2 < 1 {
        1
    } else {
        n / 2
    }
}

/// The smaller of two numbers.
pub open spec fn least(a: int, b: int) -> int {
    if a <= b {
        a
    } else {
        b
    }
}

/// The pixels that one pixel of the next level averages: two by two, the last
/// row and column again where a side is odd or one.
pub open spec fn four(prev: Level, x: int, y: int) -> (Pixel, Pixel, Pixel, Pixel) {
    let x0 = least(2 * x, prev.width - 1);
    let x1 = least(2 * x + 1, prev.width - 1);
    let y0 = least(2 * y, prev.height - 1);
    let y1 = least(2 * y + 1, prev.height - 1);
    (prev.pixel(x0, y0), prev.pixel(x1, y0), prev.pixel(x0, y1), prev.pixel(x1, y1))
}

fn min(a: u32, b: u32) -> (r: u32)
    ensures
        r == least(a as int, b as int),
{
    if a <= b {
        a
    } else {
        b
    }
}

/// What each pixel of the next level averages, row by row.
pub fn sources(prev: &Level) -> (r: Vec<(Pixel, Pixel, Pixel, Pixel)>)
    requires
        prev.whole(),
    ensures
        r@ == Seq::new(
            (next_side(prev.width) * next_side(prev.height)) as nat,
            |i: int|
                four(*prev, i % (next_side(prev.width) as int), i / (next_side(prev.width) as int)),
        ),
{
    let w: u32 = next_dim(prev.width);
    let h: u32 = next_dim(prev.height);
    let mut out: Vec<(Pixel, Pixel, Pixel, Pixel)> = Vec::new();
    let mut y: u32 = 0;
    assert(0 * w == 0);
    while y < h
        invariant
            prev.whole(),
            w == next_side(prev.width),
            h == next_side(prev.height),
            y <= h,
            out@.len() == y * w,
            forall|i: int|
                0 <= i < out@.len() ==> #[trigger] out@[i] == four(
                    *prev,
                    i % (w as int),
                    i / (w as int),
                ),
        decreases h - y,
    {
        let mut x: u32 = 0;
        while x < w
            invariant
                prev.whole(),
                w == next_side(prev.width),
                h == next_side(prev.height),
                y < h,
                x <= w,
                out@.len() == y * w + x,
                forall|i: int|
                    0 <= i < out@.len() ==> #[trigger] out@[i] == four(
                        *prev,
                        i % (w as int),
                        i / (w as int),
                    ),
            decreases w - x,
        {
            let x0: u32 = min(2 * x, prev.width - 1);
            let x1: u32 = min(2 * x + 1, prev.width - 1);
            let y0: u32 = min(2 * y, prev.height - 1);
            let y1: u32 = min(2 * y + 1, prev.height - 1);
            proof {
                vstd::arithmetic::div_mod::lemma_fundamental_div_mod_converse(
                    y * w + x,
                    w as int,
                    y as int,
                    x as int,
                );
            }
            out.push(
                (
                    prev.pixel_at(x0, y0),
                    prev.pixel_at(x1, y0),
                    prev.pixel_at(x0, y1),
                    prev.pixel_at(x1, y1),
                ),
            );
            x = x + 1;
        }
        assert((y + 1) * w == y * w + w) by (nonlinear_arith);
        y = y + 1;
    }
    proof {
        assert(h * w == w * h) by (nonlinear_arith);
        assert(out@ =~= Seq::new(
            (w * h) as nat,
            |i: int| four(*prev, i % (w as int), i / (w as int)),
        ));
    }
    out
}

/// The sizes of a chain, from the given one down to one pixel.
pub open spec fn dims_of(w: u32, h: u32) -> Seq<(u32, u32)>
    decreases w + h,
{
    if w <= 1 && h <= 1 {
        seq![(w, h)]
    } else if w == 0 || h == 0 {
        seq![(w, h)]
    } else {
        seq![(w, h)] + dims_of(next_side(w), next_side(h))
    }
}

/// The sizes of the levels of a texture.
pub fn chain_dims(width: u32, height: u32) -> (r: Vec<(u32, u32)>)
    requires
        (width >= 1 && height >= 1) || (width <= 1 && height <= 1),
    ensures
        r@ == dims_of(width, height),
{
    let mut out: Vec<(u32, u32)> = Vec::new();
    let mut w: u32 = width;
    let mut h: u32 = height;
    while (w > 1 || h > 1) && w > 0 && h > 0
        invariant
            out@ + dims_of(w, h) == dims_of(width, height),
        decreases w + h,
    {
        let ghost before = out@;
        out.push((w, h));
        assert(out@ + dims_of(next_side(w), next_side(h)) =~= before + dims_of(w, h));
        w = next_dim(w);
        h = next_dim(h);
    }
    let ghost before = out@;
    out.push((w, h));
    assert(out@ =~= before + dims_of(w, h));
    out
}

/// Texels of whole blocks that cover `n` texels.
pub open spec fn padded_side(n: u32) -> int {
    (n + 3) / 4 * 4
}

/// A level grown to whole blocks. The last column and row are repeated, so that
/// no foreign colour gets into a block.
pub open spec fn padded_pixels(t: Level) -> Seq<u8> {
    let w = padded_side(t.width);
    let h = padded_side(t.height);
    Seq::new(
        (w * h * 4) as nat,
        |i: int|
            t.pixels@[t.place(
                least(i / 4 % w, t.width - 1),
                least(i / 4 / w, t.height - 1),
            ) + i % 4],
    )
}

pub open spec fn padded(t: Level, r: Level) -> bool {
    &&& r.width == padded_side(t.width)
    &&& r.height == padded_side(t.height)
    &&& r.pixels@ == padded_pixels(t)
}

/// Whether a level can be grown to whole blocks.
pub open spec fn paddable(t: Level) -> bool {
    &&& t.whole()
    &&& padded_side(t.width) * padded_side(t.height) * 4 <= u32::MAX
}

fn copied(v: &Vec<u8>) -> (r: Vec<u8>)
    ensures
        r@ == v@,
{
    vstd::slice::slice_to_vec(v.as_slice())
}

proof fn lemma_whole_is_padded(t: Level)
    requires
        t.whole(),
        padded_side(t.width) == t.width,
        padded_side(t.height) == t.height,
    ensures
        padded_pixels(t) == t.pixels@,
{
    let w = t.width as int;
    let h = t.height as int;
    assert forall|i: int| 0 <= i < w * h * 4 implies padded_pixels(t)[i] == t.pixels@[i] by {
        let p = i / 4;
        assert(0 <= p < w * h);
        assert(0 <= p / w < h && 0 <= p % w < w && p == p / w * w + p % w) by (nonlinear_arith)
            requires
                0 <= p < w * h,
                w >= 1,
        ;
    }
    assert(padded_pixels(t) =~= t.pixels@);
}

/// Grow a level to whole blocks of four by four texels.
pub fn pad_to_blocks(t: &Level) -> (r: Level)
    requires
        paddable(*t),
    ensures
        padded(*t, r),
        r.pixels@.len() == r.width * r.height * 4,
{
    let wide: u64 = (t.width as u64 + 3) / 4 * 4;
    let high: u64 = (t.height as u64 + 3) / 4 * 4;
    proof {
        assert(wide <= wide * high * 4 && high <= wide * high * 4) by (nonlinear_arith)
            requires
                wide >= 1,
                high >= 1,
        ;
    }
    let w: u32 = wide as u32;
    let h: u32 = high as u32;
    if w == t.width && h == t.height {
        proof {
            lemma_whole_is_padded(*t);
        }
        return Level { pixels: copied(&t.pixels), width: w, height: h };
    }
    let mut pixels: Vec<u8> = Vec::new();
    let mut y: u32 = 0;
    assert(0 * w * 4 == 0);
    while y < h
        invariant
            t.whole(),
            w == padded_side(t.width),
            h == padded_side(t.height),
            w >= 1,
            y <= h,
            pixels@.len() == y * w * 4,
            w * h * 4 <= u32::MAX,
            forall|i: int| 0 <= i < pixels@.len() ==> #[trigger] pixels@[i] == padded_pixels(*t)[i],
        decreases h - y,
    {
        let mut x: u32 = 0;
        let sy: u32 = min(y, t.height - 1);
        while x < w
            invariant
                t.whole(),
                w == padded_side(t.width),
                h == padded_side(t.height),
                w >= 1,
                y < h,
                sy == least(y as int, t.height - 1),
                x <= w,
                pixels@.len() == (y * w + x) * 4,
                w * h * 4 <= u32::MAX,
                forall|i: int|
                    0 <= i < pixels@.len() ==> #[trigger] pixels@[i] == padded_pixels(*t)[i],
            decreases w - x,
        {
            let sx: u32 = min(x, t.width - 1);
            let p: Pixel = t.pixel_at(sx, sy);
            let ghost n = pixels@.len() as int;
            let ghost before = pixels@;
            proof {
                lemma_place(w as int, h as int, x as int, y as int);
                vstd::arithmetic::div_mod::lemma_fundamental_div_mod_converse(
                    y * w + x,
                    w as int,
                    y as int,
                    x as int,
                );
            }
            pixels.push(p.r);
            pixels.push(p.g);
            pixels.push(p.b);
            pixels.push(p.a);
            proof {
                assert forall|i: int| 0 <= i < pixels@.len() implies #[trigger] pixels@[i]
                    == padded_pixels(*t)[i] by {
                    if i < n {
                        assert(pixels@[i] == before[i]);
                    } else {
                        assert(n == 4 * (y * w + x));
                        assert(i / 4 == y * w + x);
                        assert(i % 4 == i - n);
                    }
                }
            }
            x = x + 1;
        }
        assert((y + 1) * w * 4 == (y * w + w) * 4) by (nonlinear_arith);
        y = y + 1;
    }
    proof {
        assert(h * w * 4 == w * h * 4) by (nonlinear_arith);
        assert(pixels@ =~= padded_pixels(*t));
    }
    Level { pixels, width: w, height: h }
}

/// Whether `blocks` is what the encoder makes of an image. Its search computes
/// with floating point in the widest vectors the machine has, so machines may
/// choose different blocks for one image.
pub uninterp spec fn is_bc7_of(
    pixels: Seq<u8>,
    width: u32,
    height: u32,
    blocks: Seq<u8>,
) -> bool;

/// `intel_tex_2::bc7::compress_blocks` with the settings of
/// `intel_tex_2::bc7::alpha_basic_settings`: encodes an image of whole blocks,
/// 16 bytes for each. It counts the image's bytes in 32 bits with a sign. The
/// size is stated; of the blocks only that the encoder made them from this image.
#[verifier::external_body]
fn compress_blocks(data: &Vec<u8>, width: u32, height: u32, stride: u32) -> (r: Vec<u8>)
    requires
        width % 4 == 0,
        height % 4 == 0,
        width >= 4,
        height >= 4,
        stride == width * 4,
        width * height * 4 <= i32::MAX,
        data@.len() == width * height * 4,
    ensures
        r@.len() == (width / 4) * (height / 4) * 16,
        is_bc7_of(data@, width, height, r@),
{
    let settings = intel_tex_2::bc7::alpha_basic_settings();
    let surface = intel_tex_2::RgbaSurface { data: data.as_slice(), width, height, stride };
    intel_tex_2::bc7::compress_blocks(&settings, &surface)
}

/// Whether a level can be encoded: grown to whole blocks, its bytes can be
/// counted by the encoder.
pub open spec fn encodable(t: Level) -> bool {
    &&& t.whole()
    &&& padded_side(t.width) * padded_side(t.height) * 4 <= i32::MAX
}

/// Whether `blocks` holds a level: the encoder made it from the level, grown to
/// whole blocks.
pub open spec fn holds_level(t: Level, blocks: Seq<u8>) -> bool {
    &&& blocks.len() == bake::blocks_across(t.width as nat) * bake::blocks_across(t.height as nat)
        * 16
    &&& is_bc7_of(
        padded_pixels(t),
        padded_side(t.width) as u32,
        padded_side(t.height) as u32,
        blocks,
    )
}

/// Encode one level.
pub fn compress_level(t: &Level) -> (r: Vec<u8>)
    requires
        encodable(*t),
    ensures
        holds_level(*t, r@),
{
    let p: Level = pad_to_blocks(t);
    proof {
        assert(p.width * 4 <= p.width * p.height * 4) by (nonlinear_arith)
            requires
                p.height >= 1,
                p.width >= 0,
        ;
    }
    compress_blocks(&p.pixels, p.width, p.height, p.width * 4)
}

/// Encode a chain of levels as a texture of the first level's size.
pub fn bake(chain: &Vec<Level>, kind: TexKind) -> (r: BakedTexture)
    requires
        chain@.len() >= 1,
        forall|i: int| 0 <= i < chain@.len() ==> encodable(#[trigger] chain@[i]),
    ensures
        r.kind == kind,
        r.width == chain@[0].width,
        r.height == chain@[0].height,
        r.levels@.len() == chain@.len(),
        forall|i: int|
            0 <= i < chain@.len() ==> holds_level(chain@[i], (#[trigger] r.levels@[i])@),
{
    let mut levels: Vec<Vec<u8>> = Vec::new();
    for i in 0..chain.len()
        invariant
            forall|i: int| 0 <= i < chain@.len() ==> encodable(#[trigger] chain@[i]),
            levels@.len() == i,
            forall|j: int| 0 <= j < i ==> holds_level(chain@[j], (#[trigger] levels@[j])@),
    {
        levels.push(compress_level(&chain[i]));
    }
    BakedTexture { kind, width: chain[0].width, height: chain[0].height, levels }
}

/// The larger of two sides.
pub open spec fn larger_side(w: u32, h: u32) -> u32 {
    if w < h {
        h
    } else {
        w
    }
}

/// A chain goes down to one pixel, in one level more than its larger side can be
/// halved, and its sizes are those that the baked files and the device count
/// with.
pub proof fn law_chains_end_at_one_pixel(w: u32, h: u32)
    requires
        w >= 1,
        h >= 1,
    ensures
        dims_of(w, h).len() == 1 + log(2, larger_side(w, h) as int),
        dims_of(w, h).len() >= 1,
        dims_of(w, h)[0] == (w, h),
        dims_of(w, h).last() == (1u32, 1u32),
        forall|k: int|
            0 <= k < dims_of(w, h).len() ==> (#[trigger] dims_of(w, h)[k]).0 == bake::level_dim(
                w,
                k as nat,
            ) && dims_of(w, h)[k].1 == bake::level_dim(h, k as nat),
    decreases w + h,
{
    lemma2_to64();
    if w > 1 || h > 1 {
        let rest = dims_of(next_side(w), next_side(h));
        let all = dims_of(w, h);
        assert(all =~= seq![(w, h)] + rest);
        law_chains_end_at_one_pixel(next_side(w), next_side(h));
        lemma_log_s(2, larger_side(w, h) as int);
        assert forall|k: int| 0 <= k < all.len() implies (#[trigger] all[k]).0 == bake::level_dim(
            w,
            k as nat,
        ) && all[k].1 == bake::level_dim(h, k as nat) by {
            if k > 0 {
                assert(all[k] == rest[k - 1]);
                lemma_side_below(w, k as nat);
                lemma_side_below(h, k as nat);
            }
        }
    } else {
        lemma_log0(2, 1);
    }
}

proof fn lemma_side_below(n: u32, k: nat)
    requires
        k >= 1,
        n >= 1,
    ensures
        bake::level_dim(n, k) == bake::level_dim(next_side(n), (k - 1) as nat),
{
    lemma_pow2_unfold(k);
    lemma_pow2_pos((k - 1) as nat);
    let p = pow2((k - 1) as nat) as int;
    vstd::arithmetic::div_mod::lemma_div_denominator(n as int, 2, p);
    assert(n as int / 2 / p == n as int / (2 * p));
    if n == 1 {
        assert(1int / p == (if p == 1 {
            1int
        } else {
            0
        })) by {
            if p > 1 {
                vstd::arithmetic::div_mod::lemma_basic_div(1, p);
            }
        }
        assert(n as int / (2 * p) == 0) by {
            vstd::arithmetic::div_mod::lemma_basic_div(1, 2 * p);
        }
    }
}

/// What the bake makes of a chain whose levels have the right sizes is a file
/// that will be read back as it was written.
pub proof fn law_baked_chains_can_be_trusted(chain: Seq<Level>, t: bake::TextureModel)
    requires
        chain.len() >= 1,
        t.width >= 1,
        t.height >= 1,
        dims_of(t.width, t.height).len() == chain.len() <= u32::MAX,
        t.levels.len() == chain.len(),
        forall|i: int|
            #![trigger chain[i]]
            0 <= i < chain.len() ==> encodable(chain[i]) && holds_level(chain[i], t.levels[i]) && (
            chain[i].width, chain[i].height) == dims_of(t.width, t.height)[i],
    ensures
        bake::texture_ok(t),
        bake::parse_texture(bake::texture_bytes(t)) == Ok::<bake::TextureModel, bake::BakeError>(
            t,
        ),
{
    law_chains_end_at_one_pixel(t.width, t.height);
    assert forall|i: int| 0 <= i < t.levels.len() implies (#[trigger] t.levels[i]).len()
        == bake::level_bytes(t.width, t.height, i as nat) && t.levels[i].len() <= u32::MAX by {
        let c = chain[i];
        let d = dims_of(t.width, t.height)[i];
        assert(c.width == d.0 && c.height == d.1);
        let a = bake::blocks_across(c.width as nat) as int;
        let b = bake::blocks_across(c.height as nat) as int;
        assert(a * b * 16 <= (a * 4) * (b * 4) * 4) by (nonlinear_arith)
            requires
                a >= 0,
                b >= 0,
        ;
    }
    bake::law_texture_round_trip(t, Seq::empty());
}

/// A side is halved, rounded down, but never below one pixel.
pub proof fn law_sides_are_halved(n: u32)
    requires
        n >= 1,
    ensures
        n == 1 ==> next_side(n) == 1,
        n >= 2 ==> 2 * next_side(n) == n || 2 * next_side(n) == n - 1,
{
}

/// Where both sides of a level are even, every pixel of it is averaged into
/// exactly one pixel of the next: the one at half its column and half its row,
/// where it is the first or second of its row by its column, and in the first or
/// second row by its row. The four pixels that one pixel averages are therefore
/// two by two neighbours, and no two pixels share one.
pub proof fn law_every_pixel_is_averaged_once(prev: Level, sx: int, sy: int)
    requires
        prev.whole(),
        prev.width % 2 == 0,
        prev.height % 2 == 0,
        0 <= sx < prev.width,
        0 <= sy < prev.height,
    ensures
        ({
            let w = next_side(prev.width) as int;
            let h = next_side(prev.height) as int;
            let i = (sy / 2) * w + sx / 2;
            let averaged = four(prev, i % w, i / w);
            &&& 0 <= i < w * h
            &&& prev.width == 2 * w && prev.height == 2 * h
            &&& prev.pixel(sx, sy) == if sy % 2 == 0 {
                if sx % 2 == 0 {
                    averaged.0
                } else {
                    averaged.1
                }
            } else {
                if sx % 2 == 0 {
                    averaged.2
                } else {
                    averaged.3
                }
            }
        }),
{
    let w = next_side(prev.width) as int;
    let h = next_side(prev.height) as int;
    let x = sx / 2;
    let y = sy / 2;
    vstd::arithmetic::div_mod::lemma_fundamental_div_mod_converse(y * w + x, w, y, x);
    lemma_place(w, h, x, y);
    assert(sx == 2 * x + sx % 2 && sy == 2 * y + sy % 2);
}

/// Whatever the sides: a side of one pixel is averaged with itself, and a longer
/// one two by two from its start, so that an odd one leaves out its last line.
pub proof fn law_short_sides_are_repeated(prev: Level, x: int, y: int)
    requires
        prev.whole(),
        0 <= x < next_side(prev.width),
        0 <= y < next_side(prev.height),
    ensures
        ({
            let (a, b) = if prev.width == 1 {
                (0int, 0int)
            } else {
                (x + x, x + x + 1)
            };
            let (c, d) = if prev.height == 1 {
                (0int, 0int)
            } else {
                (y + y, y + y + 1)
            };
            &&& four(prev, x, y) == (
                prev.pixel(a, c),
                prev.pixel(b, c),
                prev.pixel(a, d),
                prev.pixel(b, d),
            )
            &&& 0 <= a <= b < prev.width
            &&& 0 <= c <= d < prev.height
        }),
{
}

/// A level of one colour stays of that colour.
pub proof fn law_flat_levels_stay_flat(prev: Level, p: Pixel, x: int, y: int)
    requires
        prev.whole(),
        forall|sx: int, sy: int|
            0 <= sx < prev.width && 0 <= sy < prev.height ==> #[trigger] prev.pixel(sx, sy) == p,
        0 <= x < next_side(prev.width),
        0 <= y < next_side(prev.height),
    ensures
        four(prev, x, y) == (p, p, p, p),
{
    law_short_sides_are_repeated(prev, x, y);
}

/// The pixels of a level start at different bytes, four apart, row by row.
pub proof fn law_pixels_have_their_own_bytes(t: Level, x: int, y: int)
    requires
        t.whole(),
        0 <= x < t.width,
        0 <= y < t.height,
    ensures
        0 <= t.place(x, y) && t.place(x, y) + 4 <= t.pixels@.len(),
        t.place(0, 0) == 0,
        x + 1 < t.width ==> t.place(x + 1, y) == t.place(x, y) + 4,
        x + 1 == t.width ==> t.place(0, y + 1) == t.place(x, y) + 4,
        t.pixel(x, y).r == t.pixels@[t.place(x, y)],
        t.pixel(x, y).g == t.pixels@[t.place(x, y) + 1],
        t.pixel(x, y).b == t.pixels@[t.place(x, y) + 2],
        t.pixel(x, y).a == t.pixels@[t.place(x, y) + 3],
{
    lemma_place(t.width as int, t.height as int, x, y);
    assert((y + 1) * t.width == y * t.width + t.width) by (nonlinear_arith);
    assert(0 * t.width == 0);
}

/// Growing a level to whole blocks keeps all of its pixels where they are, and
/// fills up with the nearest of them, by less than a block.
pub proof fn law_padding_repeats_the_edge(t: Level, r: Level, x: int, y: int)
    requires
        paddable(t),
        padded(t, r),
        0 <= x < r.width,
        0 <= y < r.height,
    ensures
        r.width % 4 == 0 && t.width <= r.width < t.width + 4,
        r.height % 4 == 0 && t.height <= r.height < t.height + 4,
        r.whole(),
        x < t.width && y < t.height ==> r.pixel(x, y) == t.pixel(x, y),
        x >= t.width && y < t.height ==> r.pixel(x, y) == t.pixel(t.width - 1, y),
        x < t.width && y >= t.height ==> r.pixel(x, y) == t.pixel(x, t.height - 1),
        x >= t.width && y >= t.height ==> r.pixel(x, y) == t.pixel(t.width - 1, t.height - 1),
{
    let w = r.width as int;
    let h = r.height as int;
    lemma_place(w, h, x, y);
    vstd::arithmetic::div_mod::lemma_fundamental_div_mod_converse(y * w + x, w, y, x);
    let at = r.place(x, y);
    assert(at == 4 * (y * w + x));
    assert forall|k: int| 0 <= k < 4 implies #[trigger] r.pixels@[at + k] == t.pixels@[t.place(
        least(x, t.width - 1),
        least(y, t.height - 1),
    ) + k] by {
        assert((at + k) / 4 == y * w + x && (at + k) % 4 == k);
    }
    assert(r.pixels@[at + 0] == r.pixels@[at]);
    assert(w * h * 4 == h * w * 4) by (nonlinear_arith);
    assert(w * h * 4 >= 0) by (nonlinear_arith)
        requires
            w >= 0,
            h >= 0,
    ;
}

/// What is encoded of a level is the level grown to whole blocks: its pixels with
/// the edge repeated, over sides that are multiples of four, and the blocks it
/// gives are sixteen bytes for each four by four.
pub proof fn law_grown_levels_are_encoded(t: Level, grown: Level, blocks: Seq<u8>)
    requires
        holds_level(t, blocks),
        padded(t, grown),
        padded_side(t.width) <= u32::MAX,
        padded_side(t.height) <= u32::MAX,
    ensures
        is_bc7_of(grown.pixels@, grown.width, grown.height, blocks),
        grown.width % 4 == 0 && grown.height % 4 == 0,
        t.width <= grown.width < t.width + 4,
        t.height <= grown.height < t.height + 4,
        blocks.len() == grown.width * grown.height,
{
    let (x, y) = (
        bake::blocks_across(t.width as nat) as int,
        bake::blocks_across(t.height as nat) as int,
    );
    assert(grown.width == 4 * x && grown.height == 4 * y);
    assert(x * y * 16 == (4 * x) * (4 * y)) by (nonlinear_arith);
}

} // verus!
