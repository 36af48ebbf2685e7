//! What is uploaded for each texture of a level.
//!
//! A texture that was baked for exactly its image and its kind of sampling is
//! uploaded as it was baked, and its image is never decoded. Any other is
//! uploaded as pixels, and an image that does not decode becomes white.
use vstd::prelude::*;

use crate::bake;
use crate::bake::{BakedTexture, TexKind};
use crate::texture::TextureData;

verus! {

/// How one texture is uploaded.
#[derive(PartialEq, Eq, Debug)]
pub enum Upload {
    /// The compressed levels of a bake.
    Baked(BakedTexture),
    /// The pixels of the image; the device makes the smaller levels.
    Pixels,
    /// One white pixel.
    White,
}

/// Whether a baked texture is one of an image of a size, for a kind of sampling.
pub open spec fn is_bake_of(b: bake::TextureModel, width: u32, height: u32, kind: TexKind) -> bool {
    b.kind == kind && b.width == width && b.height == height
}

/// The bake that a texture is uploaded from, if there is one: the device must
/// sample compressed blocks, and the file must be a bake of this texture.
pub open spec fn bake_used(
    width: u32,
    height: u32,
    kind: TexKind,
    compressed: bool,
    file: Option<Seq<u8>>,
) -> Option<bake::TextureModel> {
    match file {
        Some(d) => match bake::parse_texture(d) {
            Ok(b) => if compressed && is_bake_of(b, width, height, kind) {
                Some(b)
            } else {
                None
            },
            Err(_) => None,
        },
        None => None,
    }
}

pub open spec fn file_bytes(file: Option<&Vec<u8>>) -> Option<Seq<u8>> {
    match file {
        Some(d) => Some(d@),
        None => None,
    }
}

/// How a texture is uploaded. `file` holds the bytes of its baked file, where
/// there is one, and `compressed` says whether the device samples compressed
/// blocks.
pub fn choose_upload(
    texture: &mut TextureData,
    kind: TexKind,
    compressed: bool,
    file: Option<&Vec<u8>>,
) -> (r: Upload)
    ensures
        match bake_used(
            old(texture).width,
            old(texture).height,
            kind,
            compressed,
            file_bytes(file),
        ) {
            Some(b) => (r matches Upload::Baked(t) && t@ == b) && *final(texture) == *old(texture),
            None => {
                &&& r == (if old(texture).pixels_spec() is Some {
                    Upload::Pixels
                } else {
                    Upload::White
                })
                &&& final(texture).decoded is Some
                &&& final(texture).pixels_spec() == old(texture).pixels_spec()
            },
        },
        r is Baked <==> compressed && (file matches Some(d) && bake::parse_texture(d@) matches Ok(b)
            && b.kind == kind && b.width == old(texture).width && b.height == old(texture).height),
        r matches Upload::Baked(t) ==> (file matches Some(d) && bake::parse_texture(d@) == Ok::<
            bake::TextureModel,
            bake::BakeError,
        >(t@)),
        final(texture).width == old(texture).width,
        final(texture).height == old(texture).height,
        final(texture).source_key == old(texture).source_key,
        final(texture).encoded == old(texture).encoded,
{
    if compressed {
        if let Some(d) = file {
            if let Ok(b) = BakedTexture::read(d.as_slice()) {
                if b.kind == kind && b.width == texture.width && b.height == texture.height {
                    return Upload::Baked(b);
                }
            }
        }
    }
    if texture.pixels().is_some() {
        Upload::Pixels
    } else {
        Upload::White
    }
}

/// The bytes of some levels together.
pub open spec fn levels_len(levels: Seq<Seq<u8>>, n: nat) -> nat
    decreases n,
{
    if n == 0 {
        0
    } else {
        levels_len(levels, (n - 1) as nat) + levels[n - 1].len()
    }
}

proof fn lemma_levels_len(levels: Seq<Seq<u8>>, i: nat, n: nat)
    requires
        i <= n,
    ensures
        levels_len(levels, i) <= levels_len(levels, n),
    decreases n,
{
    if i < n {
        lemma_levels_len(levels, i, (n - 1) as nat);
    }
}

/// Bytes that the levels of a baked texture take on the device.
pub fn baked_bytes(b: &BakedTexture) -> (r: usize)
    requires
        levels_len(b@.levels, b@.levels.len()) <= usize::MAX,
    ensures
        r == levels_len(b@.levels, b@.levels.len()),
{
    let mut total: usize = 0;
    let mut i: usize = 0;
    while i < b.levels.len()
        invariant
            i <= b.levels@.len(),
            b@.levels.len() == b.levels@.len(),
            levels_len(b@.levels, b@.levels.len()) <= usize::MAX,
            total == levels_len(b@.levels, i as nat),
        decreases b.levels@.len() - i,
    {
        proof {
            lemma_levels_len(b@.levels, (i + 1) as nat, b@.levels.len());
            assert(b@.levels[i as int] == b.levels@[i as int]@);
        }
        total = total + b.levels[i].len();
        i = i + 1;
    }
    total
}

/// A texture is uploaded from its own bake, and from no other: what `write`
/// made of a bake is used for an image of that size and kind, on a device that
/// samples compressed blocks, and for nothing else.
pub proof fn law_textures_use_their_own_bake(
    b: bake::TextureModel,
    width: u32,
    height: u32,
    kind: TexKind,
    compressed: bool,
)
    requires
        bake::texture_ok(b),
    ensures
        bake_used(width, height, kind, compressed, Some(bake::texture_bytes(b))) == (if compressed
            && b.width == width && b.height == height && b.kind == kind {
            Some(b)
        } else {
            None
        }),
{
    bake::law_texture_round_trip(b, Seq::empty());
}

/// Without a file, or with one that is no bake, there is no bake to use.
pub proof fn law_no_bake_without_a_file(
    width: u32,
    height: u32,
    kind: TexKind,
    compressed: bool,
    file: Seq<u8>,
)
    ensures
        bake_used(width, height, kind, compressed, None) is None,
        bake::parse_texture(file) is Err ==> bake_used(
            width,
            height,
            kind,
            compressed,
            Some(file),
        ) is None,
{
}

/// The levels of a texture take as many bytes as they have put one behind the
/// other.
pub proof fn law_levels_take_their_bytes(levels: Seq<Seq<u8>>)
    ensures
        levels_len(levels, levels.len()) == levels.flatten().len(),
    decreases levels.len(),
{
    levels.lemma_flatten_and_flatten_alt_are_equivalent();
    if levels.len() > 0 {
        let rest = levels.drop_last();
        law_levels_take_their_bytes(rest);
        rest.lemma_flatten_and_flatten_alt_are_equivalent();
        lemma_levels_len_same(levels, rest, rest.len());
    }
}

proof fn lemma_levels_len_same(a: Seq<Seq<u8>>, b: Seq<Seq<u8>>, n: nat)
    requires
        n <= a.len(),
        n <= b.len(),
        forall|i: int| 0 <= i < n ==> a[i] == b[i],
    ensures
        levels_len(a, n) == levels_len(b, n),
    decreases n,
{
    if n > 0 {
        lemma_levels_len_same(a, b, (n - 1) as nat);
    }
}

} // verus!
