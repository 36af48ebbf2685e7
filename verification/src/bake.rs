//! Baked assets: the content keys and the file formats that the bake tool and
//! the engine share.
//!
//! The bake turns each (image, use) of a scene into a BC7 mip chain, and each
//! mesh into an optimised vertex order with a chain of levels of detail. Both
//! are stored under keys derived from the content, as `tex/<key>.bc7` and
//! `mesh/<key>.fbm`. A file that is missing or damaged is never trusted: the
//! engine then uses the raw asset.
use vstd::arithmetic::power2::*;
use vstd::prelude::*;
use vstd::string::*;
use xxhash_rust::xxh3::Xxh3;

use crate::bytes;
use crate::float::{F32, Vec2, Vec3};
use crate::hash;
use crate::mesh::MeshData;
use crate::text;
use crate::texture::TextureData;

verus! {

broadcast use bytes::group_words;

/// Subdirectory of the bake root holding baked textures.
pub const TEX_DIR: &'static str = "tex";

/// Subdirectory of the bake root holding baked meshes.
pub const MESH_DIR: &'static str = "mesh";

/// Bumped when the texture bake's output changes meaning: entries of another
/// version are then not found.
pub const BAKE_VERSION: u32 = 2;

/// Bumped when the mesh bake's output changes meaning.
pub const MESH_BAKE_VERSION: u32 = 1;

/// Meshes under this many triangles bake to their full detail only.
pub const MIN_LOD_TRIS: usize = 256;

/// `FBTX`, the first four bytes of a baked texture.
pub open spec fn texture_magic() -> Seq<u8> {
    seq![70u8, 66u8, 84u8, 88u8]
}

/// `FBMS`, the first four bytes of a baked mesh.
pub open spec fn mesh_magic() -> Seq<u8> {
    seq![70u8, 66u8, 77u8, 83u8]
}

/// What a texture is used as, which decides how it is baked.
#[derive(Clone, Copy, PartialEq, Eq, Hash, Debug, Structural)]
pub enum TexKind {
    /// Base colour, sampled as sRGB.
    Color,
    /// Linear data: metallic-roughness and normal maps.
    Data,
}

impl TexKind {
    pub open spec fn tag_spec(self) -> u32 {
        match self {
            TexKind::Data => 0,
            TexKind::Color => 1,
        }
    }

    /// Sampled with sRGB decoding: only base colour is.
    pub fn srgb(self) -> (r: bool)
        ensures
            r == (self == TexKind::Color),
    {
        self == TexKind::Color
    }

    /// The number that stands for the kind in keys and files.
    pub fn tag(self) -> (r: u32)
        ensures
            r == self.tag_spec(),
    {
        match self {
            TexKind::Data => 0,
            TexKind::Color => 1,
        }
    }

    pub fn from_tag(tag: u32) -> (r: Option<TexKind>)
        ensures
            r matches Some(k) ==> k.tag_spec() == tag,
            r is None <==> forall|k: TexKind| #[trigger] k.tag_spec() != tag,
    {
        if tag == 0 {
            assert(TexKind::Data.tag_spec() == 0);
            Some(TexKind::Data)
        } else if tag == 1 {
            assert(TexKind::Color.tag_spec() == 1);
            Some(TexKind::Color)
        } else {
            None
        }
    }
}

/// A kind is found again by its tag, and by no other.
pub proof fn law_tags_tell_kinds_apart(a: TexKind, b: TexKind)
    ensures
        a.tag_spec() == b.tag_spec() <==> a == b,
{
}

/// A mesh vertex: 32 bytes in a file.
#[derive(Clone, Copy, PartialEq, Eq, Debug, Structural)]
pub struct Vertex {
    pub pos: Vec3,
    pub normal: Vec3,
    pub uv: Vec2,
}

impl Default for Vertex {
    fn default() -> (r: Self)
        ensures
            vertex_words(r) == Seq::new(8, |i: int| 0u32),
    {
        let o: F32 = F32 { bits: 0 };
        let r: Vertex = Vertex {
            pos: Vec3 { x: o, y: o, z: o },
            normal: Vec3 { x: o, y: o, z: o },
            uv: Vec2 { x: o, y: o },
        };
        assert(vertex_words(r) =~= Seq::new(8, |i: int| 0u32));
        r
    }
}

/// The eight words of a vertex, in file order.
pub open spec fn vertex_words(v: Vertex) -> Seq<u32> {
    seq![
        v.pos.x.bits,
        v.pos.y.bits,
        v.pos.z.bits,
        v.normal.x.bits,
        v.normal.y.bits,
        v.normal.z.bits,
        v.uv.x.bits,
        v.uv.y.bits,
    ]
}

/// The words of several vertices.
pub open spec fn vertices_words(vs: Seq<Vertex>) -> Seq<u32> {
    Seq::new(8 * vs.len(), |i: int| vertex_words(vs[i / 8])[i % 8])
}

/// The vertex whose bytes start at `at`.
pub open spec fn vertex_at(d: Seq<u8>, at: int) -> Vertex {
    Vertex {
        pos: Vec3 {
            x: F32 { bits: bytes::word(d, at) },
            y: F32 { bits: bytes::word(d, at + 4) },
            z: F32 { bits: bytes::word(d, at + 8) },
        },
        normal: Vec3 {
            x: F32 { bits: bytes::word(d, at + 12) },
            y: F32 { bits: bytes::word(d, at + 16) },
            z: F32 { bits: bytes::word(d, at + 20) },
        },
        uv: Vec2 { x: F32 { bits: bytes::word(d, at + 24) }, y: F32 { bits: bytes::word(d, at + 28) } },
    }
}

pub open spec fn vertices_at(d: Seq<u8>, at: int, n: nat) -> Seq<Vertex> {
    Seq::new(n, |j: int| vertex_at(d, at + 32 * j))
}

/// One level of detail: an index list into the shared vertex array.
#[derive(Clone, PartialEq, Eq, Debug)]
pub struct Lod {
    /// Geometric error of this level against the full mesh, in mesh-local
    /// units; 0 for the full detail.
    pub error: F32,
    pub indices: Vec<u32>,
}

/// A baked mesh: vertices in fetch order, shared by every level of detail,
/// and the levels from full detail to coarsest.
#[derive(Clone, PartialEq, Eq, Debug)]
pub struct BakedMesh {
    pub vertices: Vec<Vertex>,
    pub lods: Vec<Lod>,
}

/// A baked BC7 mip chain, level 0 first.
#[derive(Clone, PartialEq, Eq, Debug)]
pub struct BakedTexture {
    pub kind: TexKind,
    pub width: u32,
    pub height: u32,
    pub levels: Vec<Vec<u8>>,
}

/// What a level of detail holds.
#[verifier::ext_equal]
pub struct LodModel {
    pub error: F32,
    pub indices: Seq<u32>,
}

/// What a baked mesh holds.
#[verifier::ext_equal]
pub struct MeshModel {
    pub vertices: Seq<Vertex>,
    pub lods: Seq<LodModel>,
}

/// What a baked texture holds.
#[verifier::ext_equal]
pub struct TextureModel {
    pub kind: TexKind,
    pub width: u32,
    pub height: u32,
    pub levels: Seq<Seq<u8>>,
}

impl View for Lod {
    type V = LodModel;

    open spec fn view(&self) -> LodModel {
        LodModel { error: self.error, indices: self.indices@ }
    }
}

impl View for BakedMesh {
    type V = MeshModel;

    open spec fn view(&self) -> MeshModel {
        MeshModel {
            vertices: self.vertices@,
            lods: Seq::new(self.lods@.len(), |i: int| self.lods@[i]@),
        }
    }
}

impl View for BakedTexture {
    type V = TextureModel;

    open spec fn view(&self) -> TextureModel {
        TextureModel {
            kind: self.kind,
            width: self.width,
            height: self.height,
            levels: Seq::new(self.levels@.len(), |i: int| self.levels@[i]@),
        }
    }
}

/// Why a baked file is not trusted.
#[derive(Clone, Copy, PartialEq, Eq, Debug, Structural)]
pub enum BakeError {
    Truncated,
    NotAMesh,
    NotATexture,
    OtherVersion,
    NoLods,
    PartialTriangle,
    IndexOutOfRange,
    BadLodError,
    TrailingBytes,
    UnknownKind,
    LevelSize,
}

impl BakeError {
    pub open spec fn text(self) -> Seq<char> {
        match self {
            BakeError::Truncated => "truncated"@,
            BakeError::NotAMesh => "not a baked mesh"@,
            BakeError::NotATexture => "not a baked texture"@,
            BakeError::OtherVersion => "baked by another version"@,
            BakeError::NoLods => "no LODs"@,
            BakeError::PartialTriangle => "LOD isn't whole triangles"@,
            BakeError::IndexOutOfRange => "index out of range"@,
            BakeError::BadLodError => "LOD errors must be finite and non-decreasing"@,
            BakeError::TrailingBytes => "trailing bytes"@,
            BakeError::UnknownKind => "unknown texture kind"@,
            BakeError::LevelSize => "level size doesn't match its dimensions"@,
        }
    }

    /// The reason in words.
    pub fn why(self) -> (r: &'static str)
        ensures
            r@ == self.text(),
    {
        match self {
            BakeError::Truncated => "truncated",
            BakeError::NotAMesh => "not a baked mesh",
            BakeError::NotATexture => "not a baked texture",
            BakeError::OtherVersion => "baked by another version",
            BakeError::NoLods => "no LODs",
            BakeError::PartialTriangle => "LOD isn't whole triangles",
            BakeError::IndexOutOfRange => "index out of range",
            BakeError::BadLodError => "LOD errors must be finite and non-decreasing",
            BakeError::TrailingBytes => "trailing bytes",
            BakeError::UnknownKind => "unknown texture kind",
            BakeError::LevelSize => "level size doesn't match its dimensions",
        }
    }
}

/// Bounds-checked reads over a baked file.
pub struct Cursor<'a> {
    pub data: &'a [u8],
    pub at: usize,
}

impl<'a> Cursor<'a> {
    /// The cursor stands inside its data, or at its end.
    pub open spec fn inside(self) -> bool {
        self.at <= self.data@.len()
    }

    /// The next `n` bytes; the cursor stays where it is when there are fewer.
    pub fn take(&mut self, n: u64) -> (r: Result<&'a [u8], BakeError>)
        requires
            old(self).inside(),
        ensures
            final(self).inside(),
            final(self).data@ == old(self).data@,
            old(self).at + n <= old(self).data@.len() ==> {
                &&& r is Ok
                &&& r->Ok_0@ == old(self).data@.subrange(old(self).at as int, old(self).at + n)
                &&& final(self).at == old(self).at + n
            },
            old(self).at + n > old(self).data@.len() ==> {
                &&& r == Err::<&'a [u8], BakeError>(BakeError::Truncated)
                &&& final(self).at == old(self).at
            },
    {
        let left: usize = self.data.len() - self.at;
        if n > left as u64 {
            return Err(BakeError::Truncated);
        }
        let from: usize = self.at;
        self.at = self.at + n as usize;
        Ok(vstd::slice::slice_subrange(self.data, from, self.at))
    }

    /// The next word.
    pub fn u32(&mut self) -> (r: Result<u32, BakeError>)
        requires
            old(self).inside(),
        ensures
            final(self).inside(),
            final(self).data@ == old(self).data@,
            old(self).at + 4 <= old(self).data@.len() ==> {
                &&& r == Ok::<u32, BakeError>(bytes::word(old(self).data@, old(self).at as int))
                &&& final(self).at == old(self).at + 4
            },
            old(self).at + 4 > old(self).data@.len() ==> {
                &&& r == Err::<u32, BakeError>(BakeError::Truncated)
                &&& final(self).at == old(self).at
            },
    {
        match self.take(4) {
            Ok(s) => Ok(bytes::word_at(s, 0)),
            Err(e) => Err(e),
        }
    }
}

/// The size of one dimension at a mip level: halved once per level, never 0.
pub open spec fn level_dim(n: u32, level: nat) -> nat {
    let d = n as nat / pow2(level);
    if d == 0 {
        1
    } else {
        d
    }
}

/// How many 4-texel blocks cover `n` texels, a partial block counting whole.
pub open spec fn blocks_across(n: nat) -> nat {
    (n + 3) / 4
}

/// Bytes of a BC7 mip level: 16 for every 4x4 block.
pub open spec fn level_bytes(width: u32, height: u32, level: nat) -> nat {
    blocks_across(level_dim(width, level)) * blocks_across(level_dim(height, level)) * 16
}

/// One dimension at a mip level.
pub fn mip_dim(n: u32, level: u32) -> (r: u32)
    ensures
        r == level_dim(n, level as nat),
        r >= 1,
{
    if level >= 32 {
        proof {
            lemma_pow2_grows(level as nat);
            vstd::arithmetic::div_mod::lemma_basic_div(n as int, pow2(level as nat) as int);
        }
        return 1;
    }
    proof {
        vstd::bits::lemma_u32_shr_is_div(n, level);
        lemma_pow2_pos(level as nat);
    }
    let d: u32 = n >> level;
    if d == 0 {
        1
    } else {
        d
    }
}

proof fn lemma_pow2_grows(level: nat)
    requires
        level >= 32,
    ensures
        pow2(level) >= 0x1_0000_0000,
{
    lemma2_to64();
    if level > 32 {
        lemma_pow2_strictly_increases(32, level);
    }
}

/// The size of a level as a wide number, for any dimensions at all.
fn level_bytes_wide(width: u32, height: u32, level: u32) -> (r: u128)
    ensures
        r == level_bytes(width, height, level as nat),
{
    let w: u32 = mip_dim(width, level);
    let h: u32 = mip_dim(height, level);
    let across: u128 = (w as u128 + 3) / 4;
    let down: u128 = (h as u128 + 3) / 4;
    assert(across * down <= 0x4000_0000 * 0x4000_0000) by (nonlinear_arith)
        requires
            0 <= across <= 0x4000_0000,
            0 <= down <= 0x4000_0000,
    ;
    across * down * 16
}

/// Bytes of one BC7 mip level: 16 per 4x4 block, partial blocks rounded up.
pub fn bc7_level_size(width: u32, height: u32, level: u32) -> (r: usize)
    requires
        level < 32,
        level_bytes(width, height, level as nat) <= usize::MAX,
    ensures
        r == level_bytes(width, height, level as nat),
{
    level_bytes_wide(width, height, level) as usize
}

/// The bytes of a level of detail: its error, its index count, its indices.
pub open spec fn lod_bytes(l: LodModel) -> Seq<u8> {
    bytes::le32(l.error.bits) + bytes::le32((l.indices.len() % 0x1_0000_0000) as u32)
        + bytes::le32s(l.indices)
}

pub open spec fn lods_bytes(ls: Seq<LodModel>) -> Seq<u8>
    decreases ls.len(),
{
    if ls.len() == 0 {
        Seq::empty()
    } else {
        lods_bytes(ls.drop_last()) + lod_bytes(ls.last())
    }
}

/// A baked mesh file: magic, version, vertex count, vertices, count of levels
/// and the levels.
pub open spec fn mesh_bytes(m: MeshModel) -> Seq<u8> {
    mesh_magic() + bytes::le32(MESH_BAKE_VERSION) + bytes::le32(
        (m.vertices.len() % 0x1_0000_0000) as u32,
    ) + bytes::le32s(vertices_words(m.vertices)) + bytes::le32(
        (m.lods.len() % 0x1_0000_0000) as u32,
    ) + lods_bytes(m.lods)
}

/// A level as the files store it: its length, then its blocks.
pub open spec fn level_record(l: Seq<u8>) -> Seq<u8> {
    bytes::le32((l.len() % 0x1_0000_0000) as u32) + l
}

pub open spec fn levels_bytes(ls: Seq<Seq<u8>>) -> Seq<u8>
    decreases ls.len(),
{
    if ls.len() == 0 {
        Seq::empty()
    } else {
        levels_bytes(ls.drop_last()) + level_record(ls.last())
    }
}

/// The header of a baked texture file: magic, version, kind, width, height and
/// count of levels.
pub open spec fn texture_header(t: TextureModel) -> Seq<u8> {
    texture_magic() + bytes::le32(BAKE_VERSION) + bytes::le32(t.kind.tag_spec()) + bytes::le32(
        t.width,
    ) + bytes::le32(t.height) + bytes::le32((t.levels.len() % 0x1_0000_0000) as u32)
}

pub open spec fn texture_bytes(t: TextureModel) -> Seq<u8> {
    texture_header(t) + levels_bytes(t.levels)
}

/// A level of detail that the renderer can trust: whole triangles over the
/// given vertices, and an error that is finite and not below `prev`.
pub open spec fn lod_ok(l: LodModel, vertex_count: nat, prev: F32) -> bool {
    &&& 0 < l.indices.len() <= u32::MAX
    &&& l.indices.len() % 3 == 0
    &&& forall|i: int| 0 <= i < l.indices.len() ==> #[trigger] l.indices[i] < vertex_count
    &&& l.error.finite()
    &&& !l.error.below(prev)
}

pub open spec fn zero() -> F32 {
    F32 { bits: 0 }
}

/// The error that the next level must not be below.
pub open spec fn last_error(ls: Seq<LodModel>) -> F32 {
    if ls.len() == 0 {
        zero()
    } else {
        ls.last().error
    }
}

/// Levels of detail of which each can be trusted after those before it.
pub open spec fn lods_ok(ls: Seq<LodModel>, vertex_count: nat) -> bool
    decreases ls.len(),
{
    ls.len() == 0 || {
        &&& lods_ok(ls.drop_last(), vertex_count)
        &&& lod_ok(ls.last(), vertex_count, last_error(ls.drop_last()))
    }
}

/// A baked mesh that the renderer can trust.
pub open spec fn mesh_ok(m: MeshModel) -> bool {
    &&& m.vertices.len() <= u32::MAX
    &&& 0 < m.lods.len() <= u32::MAX
    &&& lods_ok(m.lods, m.vertices.len())
}

/// Levels of a texture whose sizes match its dimensions.
pub open spec fn levels_ok(ls: Seq<Seq<u8>>, width: u32, height: u32) -> bool {
    forall|i: int|
        0 <= i < ls.len() ==> (#[trigger] ls[i]).len() == level_bytes(width, height, i as nat)
            && ls[i].len() <= u32::MAX
}

/// A baked texture that the renderer can trust.
pub open spec fn texture_ok(t: TextureModel) -> bool {
    &&& t.levels.len() <= u32::MAX
    &&& levels_ok(t.levels, t.width, t.height)
}

/// What the level of detail at `at` holds, or why it cannot be trusted.
pub open spec fn parse_lod(d: Seq<u8>, at: int, vertex_count: nat, prev: F32) -> Result<
    LodModel,
    BakeError,
> {
    if at + 8 > d.len() {
        Err(BakeError::Truncated)
    } else {
        let error = F32 { bits: bytes::word(d, at) };
        let count = bytes::word(d, at + 4) as nat;
        let indices = bytes::words(d, at + 8, count);
        if count == 0 || count % 3 != 0 {
            Err(BakeError::PartialTriangle)
        } else if at + 8 + 4 * count > d.len() {
            Err(BakeError::Truncated)
        } else if exists|i: int| 0 <= i < count && #[trigger] indices[i] >= vertex_count {
            Err(BakeError::IndexOutOfRange)
        } else if !error.finite() || error.below(prev) {
            Err(BakeError::BadLodError)
        } else {
            Ok(LodModel { error, indices })
        }
    }
}

/// The first `n` levels of detail from `at` on, with the place behind them.
pub open spec fn parse_lods(d: Seq<u8>, at: int, vertex_count: nat, n: nat) -> Result<
    (Seq<LodModel>, int),
    BakeError,
>
    decreases n,
{
    if n == 0 {
        Ok((Seq::empty(), at))
    } else {
        match parse_lods(d, at, vertex_count, (n - 1) as nat) {
            Err(e) => Err(e),
            Ok((ls, end)) => match parse_lod(d, end, vertex_count, last_error(ls)) {
                Err(e) => Err(e),
                Ok(l) => Ok((ls.push(l), end + 8 + 4 * l.indices.len())),
            },
        }
    }
}

/// What a baked mesh file holds, or why it cannot be trusted: the first
/// reason that reading from front to back meets.
pub open spec fn parse_mesh(d: Seq<u8>) -> Result<MeshModel, BakeError> {
    if d.len() < 4 {
        Err(BakeError::Truncated)
    } else if d.take(4) != mesh_magic() {
        Err(BakeError::NotAMesh)
    } else if d.len() < 8 {
        Err(BakeError::Truncated)
    } else if bytes::word(d, 4) != MESH_BAKE_VERSION {
        Err(BakeError::OtherVersion)
    } else if d.len() < 12 || d.len() < 16 + 32 * bytes::word(d, 8) {
        Err(BakeError::Truncated)
    } else {
        let vertex_count = bytes::word(d, 8) as nat;
        let lod_count = bytes::word(d, 12 + 32 * vertex_count as int) as nat;
        if lod_count == 0 {
            Err(BakeError::NoLods)
        } else {
            match parse_lods(d, 16 + 32 * vertex_count as int, vertex_count, lod_count) {
                Err(e) => Err(e),
                Ok((lods, end)) => if end != d.len() {
                    Err(BakeError::TrailingBytes)
                } else {
                    Ok(MeshModel { vertices: vertices_at(d, 12, vertex_count), lods })
                },
            }
        }
    }
}

/// The first `n` levels of a texture from `at` on, with the place behind them.
pub open spec fn parse_levels(d: Seq<u8>, at: int, width: u32, height: u32, n: nat) -> Result<
    (Seq<Seq<u8>>, int),
    BakeError,
>
    decreases n,
{
    if n == 0 {
        Ok((Seq::empty(), at))
    } else {
        match parse_levels(d, at, width, height, (n - 1) as nat) {
            Err(e) => Err(e),
            Ok((ls, end)) => {
                let size = level_bytes(width, height, (n - 1) as nat) as int;
                if end + 4 > d.len() {
                    Err(BakeError::Truncated)
                } else if bytes::word(d, end) != size {
                    Err(BakeError::LevelSize)
                } else if end + 4 + size > d.len() {
                    Err(BakeError::Truncated)
                } else {
                    Ok((ls.push(d.subrange(end + 4, end + 4 + size)), end + 4 + size))
                }
            },
        }
    }
}

/// What a baked texture file holds, or why it cannot be trusted. Bytes behind
/// the last level are not looked at.
pub open spec fn parse_texture(d: Seq<u8>) -> Result<TextureModel, BakeError> {
    if d.len() < 4 {
        Err(BakeError::Truncated)
    } else if d.take(4) != texture_magic() {
        Err(BakeError::NotATexture)
    } else if d.len() < 24 {
        Err(BakeError::Truncated)
    } else if bytes::word(d, 4) != BAKE_VERSION {
        Err(BakeError::OtherVersion)
    } else if bytes::word(d, 8) > 1 {
        Err(BakeError::UnknownKind)
    } else {
        let kind = if bytes::word(d, 8) == 0 {
            TexKind::Data
        } else {
            TexKind::Color
        };
        let (width, height) = (bytes::word(d, 12), bytes::word(d, 16));
        match parse_levels(d, 24, width, height, bytes::word(d, 20) as nat) {
            Err(e) => Err(e),
            Ok((levels, _)) => Ok(TextureModel { kind, width, height, levels }),
        }
    }
}

/// Whether a slice is exactly these four bytes.
fn is_magic(s: &[u8], a: u8, b: u8, c: u8, e: u8) -> (r: bool)
    requires
        s@.len() == 4,
    ensures
        r == (s@ == seq![a, b, c, e]),
{
    let r: bool = s[0] == a && s[1] == b && s[2] == c && s[3] == e;
    assert(r ==> s@ =~= seq![a, b, c, e]);
    assert(s@ == seq![a, b, c, e] ==> s@[0] == a && s@[1] == b && s@[2] == c && s@[3] == e);
    r
}

fn read_vertex(d: &[u8], at: usize) -> (v: Vertex)
    requires
        at + 32 <= d@.len(),
    ensures
        v == vertex_at(d@, at as int),
{
    assert(d@.len() == d.len());
    Vertex {
        pos: Vec3 {
            x: F32 { bits: bytes::word_at(d, at) },
            y: F32 { bits: bytes::word_at(d, at + 4) },
            z: F32 { bits: bytes::word_at(d, at + 8) },
        },
        normal: Vec3 {
            x: F32 { bits: bytes::word_at(d, at + 12) },
            y: F32 { bits: bytes::word_at(d, at + 16) },
            z: F32 { bits: bytes::word_at(d, at + 20) },
        },
        uv: Vec2 {
            x: F32 { bits: bytes::word_at(d, at + 24) },
            y: F32 { bits: bytes::word_at(d, at + 28) },
        },
    }
}

/// Reads one level of detail at the cursor.
fn read_lod<'a>(r: &mut Cursor<'a>, vertex_count: u32, prev: F32) -> (lod: Result<Lod, BakeError>)
    requires
        old(r).inside(),
    ensures
        final(r).inside(),
        final(r).data@ == old(r).data@,
        lod matches Err(e) ==> parse_lod(old(r).data@, old(r).at as int, vertex_count as nat, prev)
            == Err::<LodModel, BakeError>(e),
        lod matches Ok(l) ==> {
            &&& parse_lod(old(r).data@, old(r).at as int, vertex_count as nat, prev) == Ok::<
                LodModel,
                BakeError,
            >(l@)
            &&& final(r).at == old(r).at + 8 + 4 * l.indices@.len()
        },
{
    let ghost d = r.data@;
    let ghost at = r.at as int;
    let error: F32 = match r.u32() {
        Ok(bits) => F32 { bits },
        Err(e) => return Err(e),
    };
    let count: u32 = match r.u32() {
        Ok(n) => n,
        Err(e) => return Err(e),
    };
    if count == 0 || count % 3 != 0 {
        return Err(BakeError::PartialTriangle);
    }
    let raw: &[u8] = match r.take(count as u64 * 4) {
        Ok(s) => s,
        Err(e) => return Err(e),
    };
    let mut indices: Vec<u32> = Vec::new();
    let mut i: u32 = 0;
    let mut in_range: bool = true;
    let ghost all = bytes::words(d, at + 8, count as nat);
    while i < count
        invariant
            i <= count,
            raw@.len() == 4 * count,
            at >= 0,
            at + 8 + 4 * count <= d.len(),
            raw@ == d.subrange(at + 8, at + 8 + 4 * count),
            all == bytes::words(d, at + 8, count as nat),
            indices@ == all.take(i as int),
            in_range == (forall|k: int| 0 <= k < i ==> #[trigger] all[k] < vertex_count),
        decreases count - i,
    {
        assert(raw@.len() == raw.len());
        let x: u32 = bytes::word_at(raw, i as usize * 4);
        assert(x == all[i as int]);
        if x >= vertex_count {
            in_range = false;
        }
        indices.push(x);
        assert(all.take(i + 1) =~= all.take(i as int).push(x));
        i += 1;
    }
    assert(all.take(count as int) =~= all);
    if !in_range {
        return Err(BakeError::IndexOutOfRange);
    }
    if !error.is_finite() || error.is_below(prev) {
        return Err(BakeError::BadLodError);
    }
    Ok(Lod { error, indices })
}

fn read_vertices(d: &[u8], n: u32) -> (vertices: Vec<Vertex>)
    requires
        32 * n == d@.len(),
    ensures
        vertices@ == vertices_at(d@, 0, n as nat),
{
    let mut vertices: Vec<Vertex> = Vec::new();
    let mut i: u32 = 0;
    while i < n
        invariant
            i <= n,
            32 * n == d@.len(),
            vertices@ == vertices_at(d@, 0, i as nat),
        decreases n - i,
    {
        assert(d@.len() == d.len());
        vertices.push(read_vertex(d, i as usize * 32));
        assert(vertices@ =~= vertices_at(d@, 0, (i + 1) as nat));
        i += 1;
    }
    vertices
}

/// Reads `n` levels of detail at the cursor.
fn read_lods<'a>(c: &mut Cursor<'a>, vertex_count: u32, n: u32) -> (r: Result<
    Vec<Lod>,
    BakeError,
>)
    requires
        old(c).inside(),
    ensures
        final(c).inside(),
        final(c).data@ == old(c).data@,
        r matches Ok(lods) ==> parse_lods(
            old(c).data@,
            old(c).at as int,
            vertex_count as nat,
            n as nat,
        ) == Ok::<(Seq<LodModel>, int), BakeError>(
            (Seq::new(lods@.len(), |i: int| lods@[i]@), final(c).at as int),
        ),
        r matches Err(e) ==> parse_lods(
            old(c).data@,
            old(c).at as int,
            vertex_count as nat,
            n as nat,
        ) == Err::<(Seq<LodModel>, int), BakeError>(e),
{
    let ghost d = c.data@;
    let ghost from = c.at as int;
    let mut lods: Vec<Lod> = Vec::new();
    let mut prev: F32 = F32 { bits: 0 };
    let ghost mut model: Seq<LodModel> = Seq::empty();
    let mut k: u32 = 0;
    assert(model =~= Seq::new(lods@.len(), |i: int| lods@[i]@));
    while k < n
        invariant
            k <= n,
            c.inside(),
            c.data@ == d,
            model == Seq::new(lods@.len(), |i: int| lods@[i]@),
            prev == last_error(model),
            parse_lods(d, from, vertex_count as nat, k as nat) == Ok::<
                (Seq<LodModel>, int),
                BakeError,
            >((model, c.at as int)),
            d == old(c).data@,
            from == old(c).at,
        decreases n - k,
    {
        match read_lod(c, vertex_count, prev) {
            Ok(l) => {
                proof {
                    model = model.push(l@);
                }
                prev = l.error;
                lods.push(l);
                assert(model =~= Seq::new(lods@.len(), |i: int| lods@[i]@));
            },
            Err(e) => {
                proof {
                    lemma_lods_error_stays(
                        d,
                        from,
                        vertex_count as nat,
                        (k + 1) as nat,
                        n as nat,
                        e,
                    );
                }
                return Err(e);
            },
        }
        k += 1;
    }
    Ok(lods)
}

impl BakedMesh {
    /// Reads and validates a baked mesh. Everything the renderer trusts
    /// blindly is checked: sizes, whole triangles, every index in range, at
    /// least one level, and errors that never decrease.
    pub fn read(data: &[u8]) -> (r: Result<BakedMesh, BakeError>)
        ensures
            r matches Ok(m) ==> parse_mesh(data@) == Ok::<MeshModel, BakeError>(m@),
            r matches Err(e) ==> parse_mesh(data@) == Err::<MeshModel, BakeError>(e),
    {
        let mut c: Cursor = Cursor { data, at: 0 };
        match c.take(4) {
            Ok(s) => {
                assert(s@ =~= data@.take(4));
                if !is_magic(s, 70, 66, 77, 83) {
                    return Err(BakeError::NotAMesh);
                }
            },
            Err(e) => return Err(e),
        }
        match c.u32() {
            Ok(v) => if v != MESH_BAKE_VERSION {
                return Err(BakeError::OtherVersion);
            },
            Err(e) => return Err(e),
        }
        let vertex_count: u32 = match c.u32() {
            Ok(n) => n,
            Err(e) => return Err(e),
        };
        let raw: &[u8] = match c.take(vertex_count as u64 * 32) {
            Ok(s) => s,
            Err(e) => return Err(e),
        };
        let vertices: Vec<Vertex> = read_vertices(raw, vertex_count);
        assert(vertices@ =~= vertices_at(data@, 12, vertex_count as nat));
        let lod_count: u32 = match c.u32() {
            Ok(n) => n,
            Err(e) => return Err(e),
        };
        if lod_count == 0 {
            return Err(BakeError::NoLods);
        }
        let lods: Vec<Lod> = match read_lods(&mut c, vertex_count, lod_count) {
            Ok(lods) => lods,
            Err(e) => return Err(e),
        };
        if c.at != data.len() {
            return Err(BakeError::TrailingBytes);
        }
        Ok(BakedMesh { vertices, lods })
    }
}

/// Once reading has failed, reading more fails the same way.
proof fn lemma_lods_error_stays(
    d: Seq<u8>,
    at: int,
    vertex_count: nat,
    k: nat,
    n: nat,
    e: BakeError,
)
    requires
        k <= n,
        parse_lods(d, at, vertex_count, k) == Err::<(Seq<LodModel>, int), BakeError>(e),
    ensures
        parse_lods(d, at, vertex_count, n) == Err::<(Seq<LodModel>, int), BakeError>(e),
    decreases n - k,
{
    if k < n {
        lemma_lods_error_stays(d, at, vertex_count, k, (n - 1) as nat, e);
    }
}

proof fn lemma_levels_error_stays(
    d: Seq<u8>,
    at: int,
    width: u32,
    height: u32,
    k: nat,
    n: nat,
    e: BakeError,
)
    requires
        k <= n,
        parse_levels(d, at, width, height, k) == Err::<(Seq<Seq<u8>>, int), BakeError>(e),
    ensures
        parse_levels(d, at, width, height, n) == Err::<(Seq<Seq<u8>>, int), BakeError>(e),
    decreases n - k,
{
    if k < n {
        lemma_levels_error_stays(d, at, width, height, k, (n - 1) as nat, e);
    }
}

impl BakedTexture {
    /// Reads and validates a baked texture: a wrong magic, another version, an
    /// unknown kind, or a level whose size does not match its dimensions is an
    /// error.
    #[verifier::loop_isolation(false)]
    pub fn read(data: &[u8]) -> (r: Result<BakedTexture, BakeError>)
        ensures
            r matches Ok(t) ==> parse_texture(data@) == Ok::<TextureModel, BakeError>(t@),
            r matches Err(e) ==> parse_texture(data@) == Err::<TextureModel, BakeError>(e),
    {
        let mut c: Cursor = Cursor { data, at: 0 };
        match c.take(4) {
            Ok(s) => {
                assert(s@ =~= data@.take(4));
                if !is_magic(s, 70, 66, 84, 88) {
                    return Err(BakeError::NotATexture);
                }
            },
            Err(e) => return Err(e),
        }
        if data.len() < 24 {
            return Err(BakeError::Truncated);
        }
        let version: u32 = bytes::word_at(data, 4);
        let tag: u32 = bytes::word_at(data, 8);
        let width: u32 = bytes::word_at(data, 12);
        let height: u32 = bytes::word_at(data, 16);
        let count: u32 = bytes::word_at(data, 20);
        if version != BAKE_VERSION {
            return Err(BakeError::OtherVersion);
        }
        let kind: TexKind = match TexKind::from_tag(tag) {
            Some(k) => k,
            None => {
                assert(TexKind::Data.tag_spec() != tag && TexKind::Color.tag_spec() != tag);
                return Err(BakeError::UnknownKind);
            },
        };
        c.at = 24;
        let mut levels: Vec<Vec<u8>> = Vec::new();
        let ghost mut model: Seq<Seq<u8>> = Seq::empty();
        let mut k: u32 = 0;
        while k < count
            invariant
                k <= count,
                c.inside(),
                c.data@ == data@,
                model == Seq::new(levels@.len(), |i: int| levels@[i]@),
                parse_levels(data@, 24, width, height, k as nat) == Ok::<
                    (Seq<Seq<u8>>, int),
                    BakeError,
                >((model, c.at as int)),
            decreases count - k,
        {
            let ghost end = c.at as int;
            let mut level: Result<Vec<u8>, BakeError> = Err(BakeError::LevelSize);
            match c.u32() {
                Ok(len) => if len as u128 == level_bytes_wide(width, height, k) {
                    match c.take(len as u64) {
                        Ok(s) => {
                            level = Ok(vstd::slice::slice_to_vec(s));
                        },
                        Err(e) => {
                            level = Err(e);
                        },
                    }
                },
                Err(e) => {
                    level = Err(e);
                },
            }
            match level {
                Ok(l) => {
                    proof {
                        model = model.push(l@);
                    }
                    levels.push(l);
                    assert(model =~= Seq::new(levels@.len(), |i: int| levels@[i]@));
                },
                Err(e) => {
                    proof {
                        lemma_levels_error_stays(
                            data@,
                            24,
                            width,
                            height,
                            (k + 1) as nat,
                            count as nat,
                            e,
                        );
                    }
                    return Err(e);
                },
            }
            k += 1;
        }
        Ok(BakedTexture { kind, width, height, levels })
    }
}

/// The words of a vertex list as bytes.
pub fn vertices_to_bytes(vs: &Vec<Vertex>) -> (out: Vec<u8>)
    ensures
        out@ == bytes::le32s(vertices_words(vs@)),
{
    let mut out: Vec<u8> = Vec::new();
    let mut i: usize = 0;
    assert(out@ =~= bytes::le32s(vertices_words(vs@.take(0))));
    while i < vs.len()
        invariant
            i <= vs.len(),
            out@ == bytes::le32s(vertices_words(vs@.take(i as int))),
        decreases vs.len() - i,
    {
        let v: &Vertex = &vs[i];
        let ghost before = vertices_words(vs@.take(i as int));
        bytes::push_le32(&mut out, v.pos.x.bits);
        bytes::push_le32(&mut out, v.pos.y.bits);
        bytes::push_le32(&mut out, v.pos.z.bits);
        bytes::push_le32(&mut out, v.normal.x.bits);
        bytes::push_le32(&mut out, v.normal.y.bits);
        bytes::push_le32(&mut out, v.normal.z.bits);
        bytes::push_le32(&mut out, v.uv.x.bits);
        bytes::push_le32(&mut out, v.uv.y.bits);
        proof {
            lemma_le32s_push8(before, *v);
            assert(vertices_words(vs@.take(i + 1)) =~= before + vertex_words(*v));
        }
        i += 1;
    }
    assert(vs@.take(i as int) =~= vs@);
    out
}

proof fn lemma_le32s_push8(ws: Seq<u32>, v: Vertex)
    ensures
        bytes::le32s(ws + vertex_words(v)) == bytes::le32s(ws) + bytes::le32(v.pos.x.bits)
            + bytes::le32(v.pos.y.bits) + bytes::le32(v.pos.z.bits) + bytes::le32(v.normal.x.bits)
            + bytes::le32(v.normal.y.bits) + bytes::le32(v.normal.z.bits) + bytes::le32(
            v.uv.x.bits,
        ) + bytes::le32(v.uv.y.bits),
{
    let w1 = ws.push(v.pos.x.bits);
    let w2 = w1.push(v.pos.y.bits);
    let w3 = w2.push(v.pos.z.bits);
    let w4 = w3.push(v.normal.x.bits);
    let w5 = w4.push(v.normal.y.bits);
    let w6 = w5.push(v.normal.z.bits);
    let w7 = w6.push(v.uv.x.bits);
    let w8 = w7.push(v.uv.y.bits);
    assert(ws + vertex_words(v) =~= w8);
    bytes::lemma_le32s_push(ws, v.pos.x.bits);
    bytes::lemma_le32s_push(w1, v.pos.y.bits);
    bytes::lemma_le32s_push(w2, v.pos.z.bits);
    bytes::lemma_le32s_push(w3, v.normal.x.bits);
    bytes::lemma_le32s_push(w4, v.normal.y.bits);
    bytes::lemma_le32s_push(w5, v.normal.z.bits);
    bytes::lemma_le32s_push(w6, v.uv.x.bits);
    bytes::lemma_le32s_push(w7, v.uv.y.bits);
}

/// The words of an index list as bytes.
pub fn indices_to_bytes(ws: &Vec<u32>) -> (out: Vec<u8>)
    ensures
        out@ == bytes::le32s(ws@),
{
    let mut out: Vec<u8> = Vec::new();
    let mut i: usize = 0;
    assert(out@ =~= bytes::le32s(ws@.take(0)));
    while i < ws.len()
        invariant
            i <= ws.len(),
            out@ == bytes::le32s(ws@.take(i as int)),
        decreases ws.len() - i,
    {
        bytes::push_le32(&mut out, ws[i]);
        proof {
            bytes::lemma_le32s_push(ws@.take(i as int), ws@[i as int]);
            assert(ws@.take(i + 1) =~= ws@.take(i as int).push(ws@[i as int]));
        }
        i += 1;
    }
    assert(ws@.take(i as int) =~= ws@);
    out
}

impl BakedMesh {
    /// The bytes of the file: magic, version, vertex count, vertices, count of
    /// levels, then per level its error, index count and indices.
    pub fn write(&self) -> (out: Vec<u8>)
        ensures
            out@ == mesh_bytes(self@),
    {
        let mut out: Vec<u8> = Vec::new();
        out.push(70);
        out.push(66);
        out.push(77);
        out.push(83);
        assert(out@ =~= mesh_magic());
        bytes::push_le32(&mut out, MESH_BAKE_VERSION);
        bytes::push_le32(&mut out, bytes::low32(self.vertices.len()));
        bytes::push_bytes(&mut out, vertices_to_bytes(&self.vertices).as_slice());
        bytes::push_le32(&mut out, bytes::low32(self.lods.len()));
        let ghost head = out@;
        let ghost model = self@.lods;
        let mut i: usize = 0;
        assert(out@ =~= head + lods_bytes(model.take(0)));
        while i < self.lods.len()
            invariant
                i <= self.lods.len(),
                model == self@.lods,
                out@ == head + lods_bytes(model.take(i as int)),
            decreases self.lods.len() - i,
        {
            let lod: &Lod = &self.lods[i];
            bytes::push_le32(&mut out, lod.error.bits);
            bytes::push_le32(&mut out, bytes::low32(lod.indices.len()));
            bytes::push_bytes(&mut out, indices_to_bytes(&lod.indices).as_slice());
            proof {
                let next = model.take(i + 1);
                assert(next.drop_last() =~= model.take(i as int));
                assert(next.last() == lod@);
                assert(out@ =~= head + lods_bytes(next));
            }
            i += 1;
        }
        assert(model.take(i as int) =~= model);
        out
    }
}

impl BakedTexture {
    /// The bytes of the file: magic, version, kind, width, height, count of
    /// levels, then each level's length and blocks.
    pub fn write(&self) -> (out: Vec<u8>)
        ensures
            out@ == texture_bytes(self@),
    {
        let mut out: Vec<u8> = Vec::new();
        out.push(70);
        out.push(66);
        out.push(84);
        out.push(88);
        assert(out@ =~= texture_magic());
        bytes::push_le32(&mut out, BAKE_VERSION);
        bytes::push_le32(&mut out, self.kind.tag());
        bytes::push_le32(&mut out, self.width);
        bytes::push_le32(&mut out, self.height);
        bytes::push_le32(&mut out, bytes::low32(self.levels.len()));
        let ghost model = self@.levels;
        let ghost head = out@;
        let mut i: usize = 0;
        assert(out@ =~= head + levels_bytes(model.take(0)));
        while i < self.levels.len()
            invariant
                i <= self.levels.len(),
                model == self@.levels,
                out@ == head + levels_bytes(model.take(i as int)),
            decreases self.levels.len() - i,
        {
            let level: &Vec<u8> = &self.levels[i];
            bytes::push_le32(&mut out, bytes::low32(level.len()));
            bytes::push_bytes(&mut out, level.as_slice());
            proof {
                let next = model.take(i + 1);
                assert(next.drop_last() =~= model.take(i as int));
                assert(next.last() == level@);
                assert(out@ =~= head + levels_bytes(next));
            }
            i += 1;
        }
        assert(model.take(i as int) =~= model);
        out
    }
}

/// A place that holds `a` and then `b` holds each of them.
proof fn lemma_split(d: Seq<u8>, at: int, a: Seq<u8>, b: Seq<u8>)
    requires
        0 <= at,
        at + a.len() + b.len() <= d.len(),
        d.subrange(at, at + a.len() + b.len()) == a + b,
    ensures
        d.subrange(at, at + a.len()) == a,
        d.subrange(at + a.len(), at + a.len() + b.len()) == b,
{
    let whole = d.subrange(at, at + a.len() + b.len());
    assert(d.subrange(at, at + a.len()) =~= whole.take(a.len() as int));
    assert(whole.take(a.len() as int) =~= a);
    assert(d.subrange(at + a.len(), at + a.len() + b.len()) =~= whole.skip(a.len() as int));
    assert(whole.skip(a.len() as int) =~= b);
}

proof fn lemma_parse_lod_of_bytes(d: Seq<u8>, at: int, l: LodModel, vertex_count: nat, prev: F32)
    requires
        0 <= at,
        lod_ok(l, vertex_count, prev),
        at + lod_bytes(l).len() <= d.len(),
        d.subrange(at, at + lod_bytes(l).len()) == lod_bytes(l),
    ensures
        lod_bytes(l).len() == 8 + 4 * l.indices.len(),
        parse_lod(d, at, vertex_count, prev) == Ok::<LodModel, BakeError>(l),
{
    let n = (l.indices.len() % 0x1_0000_0000) as u32;
    let a = bytes::le32(l.error.bits);
    let b = bytes::le32(n);
    let c = bytes::le32s(l.indices);
    lemma_split(d, at, a + b, c);
    lemma_split(d, at, a, b);
    bytes::lemma_word_of_le32(d, at, l.error.bits);
    bytes::lemma_word_of_le32(d, at + 4, n);
    bytes::lemma_words_of_le32s(d, at + 8, l.indices);
}

proof fn lemma_parse_lods_of_bytes(d: Seq<u8>, at: int, ls: Seq<LodModel>, vertex_count: nat)
    requires
        0 <= at,
        lods_ok(ls, vertex_count),
        at + lods_bytes(ls).len() <= d.len(),
        d.subrange(at, at + lods_bytes(ls).len()) == lods_bytes(ls),
    ensures
        parse_lods(d, at, vertex_count, ls.len()) == Ok::<(Seq<LodModel>, int), BakeError>(
            (ls, at + lods_bytes(ls).len()),
        ),
    decreases ls.len(),
{
    if ls.len() == 0 {
        assert(ls =~= Seq::empty());
    } else {
        let init = ls.drop_last();
        lemma_split(d, at, lods_bytes(init), lod_bytes(ls.last()));
        lemma_parse_lods_of_bytes(d, at, init, vertex_count);
        lemma_parse_lod_of_bytes(
            d,
            at + lods_bytes(init).len(),
            ls.last(),
            vertex_count,
            last_error(init),
        );
        assert(init.push(ls.last()) =~= ls);
    }
}

proof fn lemma_vertices_of_bytes(d: Seq<u8>, at: int, vs: Seq<Vertex>)
    requires
        0 <= at,
        at + 32 * vs.len() <= d.len(),
        d.subrange(at, at + 32 * vs.len()) == bytes::le32s(vertices_words(vs)),
    ensures
        vertices_at(d, at, vs.len()) == vs,
{
    bytes::lemma_words_of_le32s(d, at, vertices_words(vs));
    let ws = bytes::words(d, at, 8 * vs.len());
    assert forall|j: int| 0 <= j < vs.len() implies #[trigger] vertex_at(d, at + 32 * j)
        == vs[j] by {
        assert forall|k: int| 0 <= k < 8 implies bytes::word(d, at + 32 * j + 4 * k)
            == #[trigger] vertex_words(vs[j])[k] by {
            assert(ws[8 * j + k] == vertices_words(vs)[8 * j + k]);
            assert((8 * j + k) / 8 == j && (8 * j + k) % 8 == k);
            assert(at + 4 * (8 * j + k) == at + 32 * j + 4 * k);
        }
        let w = vertex_words(vs[j]);
        let p = at + 32 * j;
        assert(w[0] == bytes::word(d, p) && w[1] == bytes::word(d, p + 4));
        assert(w[2] == bytes::word(d, p + 8) && w[3] == bytes::word(d, p + 12));
        assert(w[4] == bytes::word(d, p + 16) && w[5] == bytes::word(d, p + 20));
        assert(w[6] == bytes::word(d, p + 24) && w[7] == bytes::word(d, p + 28));
    }
    assert(vertices_at(d, at, vs.len()) =~= vs);
}

/// Six parts in a row, each at its place.
proof fn lemma_six_parts(
    d: Seq<u8>,
    a0: Seq<u8>,
    a1: Seq<u8>,
    a2: Seq<u8>,
    a3: Seq<u8>,
    a4: Seq<u8>,
    a5: Seq<u8>,
)
    requires
        d == a0 + a1 + a2 + a3 + a4 + a5,
        a0.len() == 4,
        a1.len() == 4,
        a2.len() == 4,
        a4.len() == 4,
    ensures
        d.len() == 16 + a3.len() + a5.len(),
        d.take(4) == a0,
        d.subrange(4, 8) == a1,
        d.subrange(8, 12) == a2,
        d.subrange(12, 12 + a3.len() as int) == a3,
        d.subrange(12 + a3.len() as int, 16 + a3.len() as int) == a4,
        d.subrange(16 + a3.len() as int, d.len() as int) == a5,
{
    assert(d.take(4) =~= a0);
    assert(d.subrange(4, 8) =~= a1);
    assert(d.subrange(8, 12) =~= a2);
    assert(d.subrange(12, 12 + a3.len() as int) =~= a3);
    assert(d.subrange(12 + a3.len() as int, 16 + a3.len() as int) =~= a4);
    assert(d.subrange(16 + a3.len() as int, d.len() as int) =~= a5);
}

/// Where the parts of a mesh file are.
proof fn lemma_mesh_layout(m: MeshModel)
    requires
        m.vertices.len() <= u32::MAX,
        m.lods.len() <= u32::MAX,
    ensures
        ({
            let d = mesh_bytes(m);
            let n = m.vertices.len() as int;
            let l = m.lods.len();
            &&& d.len() == 16 + 32 * n + lods_bytes(m.lods).len()
            &&& d.take(4) == mesh_magic()
            &&& bytes::word(d, 4) == MESH_BAKE_VERSION
            &&& bytes::word(d, 8) == n
            &&& d.subrange(12, 12 + 32 * n) == bytes::le32s(vertices_words(m.vertices))
            &&& bytes::word(d, 12 + 32 * n) == l
            &&& d.subrange(16 + 32 * n, d.len() as int) == lods_bytes(m.lods)
        }),
{
    let d = mesh_bytes(m);
    let n = m.vertices.len();
    let a0 = mesh_magic();
    let a1 = bytes::le32(MESH_BAKE_VERSION);
    let a2 = bytes::le32((n % 0x1_0000_0000) as u32);
    let a3 = bytes::le32s(vertices_words(m.vertices));
    let a4 = bytes::le32((m.lods.len() % 0x1_0000_0000) as u32);
    let a5 = lods_bytes(m.lods);
    lemma_six_parts(d, a0, a1, a2, a3, a4, a5);
    bytes::lemma_word_of_le32(d, 4, MESH_BAKE_VERSION);
    bytes::lemma_word_of_le32(d, 8, n as u32);
    bytes::lemma_word_of_le32(d, 12 + 32 * n as int, m.lods.len() as u32);
}

/// A mesh that was written is read back unchanged.
pub proof fn law_mesh_round_trip(m: MeshModel)
    requires
        mesh_ok(m),
    ensures
        parse_mesh(mesh_bytes(m)) == Ok::<MeshModel, BakeError>(m),
{
    let d = mesh_bytes(m);
    let n = m.vertices.len();
    lemma_mesh_layout(m);
    lemma_vertices_of_bytes(d, 12, m.vertices);
    lemma_parse_lods_of_bytes(d, 16 + 32 * n as int, m.lods, n);
}

proof fn lemma_parsed_lod(d: Seq<u8>, at: int, vertex_count: nat, prev: F32)
    requires
        0 <= at <= d.len(),
        parse_lod(d, at, vertex_count, prev) is Ok,
    ensures
        ({
            let l = parse_lod(d, at, vertex_count, prev)->Ok_0;
            &&& lod_ok(l, vertex_count, prev)
            &&& at + 8 + 4 * l.indices.len() <= d.len()
            &&& d.subrange(at, at + 8 + 4 * l.indices.len()) == lod_bytes(l)
        }),
{
    let l = parse_lod(d, at, vertex_count, prev)->Ok_0;
    let n = l.indices.len();
    bytes::lemma_le32_of_word(d, at);
    bytes::lemma_le32_of_word(d, at + 4);
    bytes::lemma_le32s_of_words(d, at + 8, n);
    assert(n as u32 == bytes::word(d, at + 4));
    assert(d.subrange(at, at + 8 + 4 * n) =~= d.subrange(at, at + 4) + d.subrange(at + 4, at + 8)
        + d.subrange(at + 8, at + 8 + 4 * n));
}

proof fn lemma_parsed_lods(d: Seq<u8>, at: int, vertex_count: nat, n: nat)
    requires
        0 <= at <= d.len(),
        parse_lods(d, at, vertex_count, n) is Ok,
    ensures
        ({
            let (ls, end) = parse_lods(d, at, vertex_count, n)->Ok_0;
            &&& ls.len() == n
            &&& at <= end <= d.len()
            &&& d.subrange(at, end) == lods_bytes(ls)
            &&& lods_ok(ls, vertex_count)
        }),
    decreases n,
{
    let (ls, end) = parse_lods(d, at, vertex_count, n)->Ok_0;
    if n == 0 {
        assert(d.subrange(at, end) =~= Seq::empty());
    } else {
        lemma_parsed_lods(d, at, vertex_count, (n - 1) as nat);
        let (init, mid) = parse_lods(d, at, vertex_count, (n - 1) as nat)->Ok_0;
        let l = parse_lod(d, mid, vertex_count, last_error(init))->Ok_0;
        lemma_parsed_lod(d, mid, vertex_count, last_error(init));
        assert(ls.drop_last() =~= init && ls.last() == l);
        assert(d.subrange(at, end) =~= d.subrange(at, mid) + d.subrange(mid, end));
    }
}

proof fn lemma_vertices_of_parse(d: Seq<u8>, at: int, n: nat)
    requires
        0 <= at,
        at + 32 * n <= d.len(),
    ensures
        bytes::le32s(vertices_words(vertices_at(d, at, n))) == d.subrange(at, at + 32 * n),
{
    let ws = bytes::words(d, at, 8 * n);
    let vs = vertices_at(d, at, n);
    assert forall|i: int| 0 <= i < 8 * n implies #[trigger] vertices_words(vs)[i] == ws[i] by {
        let j = i / 8;
        let k = i % 8;
        assert(i == 8 * j + k);
        assert(ws[i] == bytes::word(d, at + 4 * i));
        assert(at + 4 * i == at + 32 * j + 4 * k);
        let v = vertex_at(d, at + 32 * j);
        assert(vs[j] == v);
        assert(vertices_words(vs)[i] == vertex_words(v)[k]);
        assert(k == 0 || k == 1 || k == 2 || k == 3 || k == 4 || k == 5 || k == 6 || k == 7);
    }
    assert(vertices_words(vs) =~= ws);
    bytes::lemma_le32s_of_words(d, at, 8 * n);
}

/// A file that is accepted is exactly what writing its mesh gives, and that
/// mesh is one the renderer can trust.
pub proof fn law_only_written_meshes_are_read(d: Seq<u8>)
    requires
        parse_mesh(d) is Ok,
    ensures
        mesh_ok(parse_mesh(d)->Ok_0),
        mesh_bytes(parse_mesh(d)->Ok_0) == d,
{
    let m = parse_mesh(d)->Ok_0;
    let n = bytes::word(d, 8) as nat;
    let from = 16 + 32 * n as int;
    let count = bytes::word(d, 12 + 32 * n as int) as nat;
    lemma_parsed_lods(d, from, n, count);
    lemma_vertices_of_parse(d, 12, n);
    bytes::lemma_le32_of_word(d, 4);
    bytes::lemma_le32_of_word(d, 8);
    bytes::lemma_le32_of_word(d, 12 + 32 * n as int);
    lemma_join_six(d, 12 + 32 * n as int);
}

/// A sequence is its six consecutive parts put together.
proof fn lemma_join_six(d: Seq<u8>, v: int)
    requires
        12 <= v,
        v + 4 <= d.len(),
    ensures
        d == d.take(4) + d.subrange(4, 8) + d.subrange(8, 12) + d.subrange(12, v) + d.subrange(
            v,
            v + 4,
        ) + d.subrange(v + 4, d.len() as int),
{
    assert(d =~= d.take(4) + d.subrange(4, 8) + d.subrange(8, 12) + d.subrange(12, v)
        + d.subrange(v, v + 4) + d.subrange(v + 4, d.len() as int));
}

proof fn lemma_lod_of_prefix(d: Seq<u8>, p: int, at: int, vertex_count: nat, prev: F32)
    requires
        0 <= at,
        0 <= p <= d.len(),
        parse_lod(d.take(p), at, vertex_count, prev) is Ok,
    ensures
        parse_lod(d, at, vertex_count, prev) == parse_lod(d.take(p), at, vertex_count, prev),
{
    let n = bytes::word(d.take(p), at + 4) as nat;
    assert(bytes::words(d.take(p), at + 8, n) =~= bytes::words(d, at + 8, n));
}

proof fn lemma_lods_of_prefix(d: Seq<u8>, p: int, at: int, vertex_count: nat, n: nat)
    requires
        0 <= at <= p <= d.len(),
        parse_lods(d.take(p), at, vertex_count, n) is Ok,
    ensures
        parse_lods(d, at, vertex_count, n) == parse_lods(d.take(p), at, vertex_count, n),
    decreases n,
{
    if n > 0 {
        lemma_lods_of_prefix(d, p, at, vertex_count, (n - 1) as nat);
        lemma_parsed_lods(d.take(p), at, vertex_count, (n - 1) as nat);
        let (init, mid) = parse_lods(d.take(p), at, vertex_count, (n - 1) as nat)->Ok_0;
        lemma_lod_of_prefix(d, p, mid, vertex_count, last_error(init));
    }
}

/// A mesh file that was cut short is rejected, wherever it was cut.
pub proof fn law_cut_meshes_are_rejected(m: MeshModel, p: int)
    requires
        mesh_ok(m),
        0 <= p < mesh_bytes(m).len(),
    ensures
        parse_mesh(mesh_bytes(m).take(p)) is Err,
{
    let d = mesh_bytes(m);
    let c = d.take(p);
    law_mesh_round_trip(m);
    if parse_mesh(c) is Ok {
        let n = bytes::word(c, 8) as nat;
        let at = 16 + 32 * n as int;
        let count = bytes::word(c, 12 + 32 * n as int) as nat;
        lemma_lods_of_prefix(d, p, at, n, count);
        assert(bytes::word(d, 8) == n);
        assert(bytes::word(d, 12 + 32 * n as int) == count);
    }
}

/// A mesh file with anything behind it is rejected.
pub proof fn law_longer_meshes_are_rejected(m: MeshModel, extra: Seq<u8>)
    requires
        mesh_ok(m),
        extra.len() > 0,
    ensures
        parse_mesh(mesh_bytes(m) + extra) == Err::<MeshModel, BakeError>(BakeError::TrailingBytes),
{
    let d = mesh_bytes(m);
    let e = d + extra;
    law_mesh_round_trip(m);
    let n = m.vertices.len();
    lemma_mesh_layout(m);
    lemma_parse_lods_of_bytes(d, 16 + 32 * n as int, m.lods, n);
    assert(e.take(d.len() as int) =~= d);
    assert(e.take(4) =~= d.take(4));
    lemma_lods_of_prefix(e, d.len() as int, 16 + 32 * n as int, n, m.lods.len());
}

/// In a chain that can be trusted no level's error is below that of a level
/// before it, every error is finite, and every index names a vertex.
pub proof fn law_lod_errors_never_decrease(ls: Seq<LodModel>, vertex_count: nat, i: int, j: int)
    requires
        lods_ok(ls, vertex_count),
        0 <= i <= j < ls.len(),
    ensures
        ls[j].error.finite(),
        !ls[j].error.below(ls[i].error),
        forall|k: int| 0 <= k < ls[j].indices.len() ==> #[trigger] ls[j].indices[k] < vertex_count,
    decreases ls.len(),
{
    let init = ls.drop_last();
    if j < ls.len() - 1 {
        law_lod_errors_never_decrease(init, vertex_count, i, j);
    } else if i < j {
        law_lod_errors_never_decrease(init, vertex_count, i, j - 1);
        law_lod_errors_never_decrease(init, vertex_count, i, i);
    }
}

proof fn lemma_parse_levels_of_bytes(
    d: Seq<u8>,
    at: int,
    ls: Seq<Seq<u8>>,
    width: u32,
    height: u32,
)
    requires
        0 <= at,
        levels_ok(ls, width, height),
        at + levels_bytes(ls).len() <= d.len(),
        d.subrange(at, at + levels_bytes(ls).len()) == levels_bytes(ls),
    ensures
        parse_levels(d, at, width, height, ls.len()) == Ok::<(Seq<Seq<u8>>, int), BakeError>(
            (ls, at + levels_bytes(ls).len()),
        ),
    decreases ls.len(),
{
    if ls.len() == 0 {
        assert(ls =~= Seq::empty());
    } else {
        let init = ls.drop_last();
        let l = ls.last();
        lemma_split(d, at, levels_bytes(init), level_record(l));
        assert forall|i: int| 0 <= i < init.len() implies (#[trigger] init[i]).len()
            == level_bytes(width, height, i as nat) && init[i].len() <= u32::MAX by {
            assert(init[i] == ls[i]);
        }
        lemma_parse_levels_of_bytes(d, at, init, width, height);
        let mid = at + levels_bytes(init).len();
        let n = (l.len() % 0x1_0000_0000) as u32;
        assert(ls[ls.len() - 1] == l);
        lemma_split(d, mid, bytes::le32(n), l);
        bytes::lemma_word_of_le32(d, mid, n);
        assert(init.push(l) =~= ls);
    }
}

proof fn lemma_texture_header(t: TextureModel, d: Seq<u8>)
    requires
        t.levels.len() <= u32::MAX,
        d.len() >= 24,
        d.take(24) == texture_header(t),
    ensures
        d.take(4) == texture_magic(),
        bytes::word(d, 4) == BAKE_VERSION,
        bytes::word(d, 8) == t.kind.tag_spec(),
        bytes::word(d, 12) == t.width,
        bytes::word(d, 16) == t.height,
        bytes::word(d, 20) == t.levels.len(),
{
    let h = texture_header(t);
    assert(d.take(4) =~= h.take(4));
    assert(h.take(4) =~= texture_magic());
    assert(h.subrange(4, 8) =~= bytes::le32(BAKE_VERSION));
    assert(h.subrange(8, 12) =~= bytes::le32(t.kind.tag_spec()));
    assert(h.subrange(12, 16) =~= bytes::le32(t.width));
    assert(h.subrange(16, 20) =~= bytes::le32(t.height));
    assert(h.subrange(20, 24) =~= bytes::le32((t.levels.len() % 0x1_0000_0000) as u32));
    bytes::lemma_word_of_le32(h, 4, BAKE_VERSION);
    bytes::lemma_word_of_le32(h, 8, t.kind.tag_spec());
    bytes::lemma_word_of_le32(h, 12, t.width);
    bytes::lemma_word_of_le32(h, 16, t.height);
    bytes::lemma_word_of_le32(h, 20, t.levels.len() as u32);
}

/// A texture that was written is read back unchanged, whatever bytes follow
/// it in the file.
pub proof fn law_texture_round_trip(t: TextureModel, extra: Seq<u8>)
    requires
        texture_ok(t),
    ensures
        parse_texture(texture_bytes(t)) == Ok::<TextureModel, BakeError>(t),
        parse_texture(texture_bytes(t) + extra) == Ok::<TextureModel, BakeError>(t),
{
    assert(texture_bytes(t) + Seq::<u8>::empty() =~= texture_bytes(t));
    lemma_texture_and_more(t, Seq::empty());
    lemma_texture_and_more(t, extra);
}

proof fn lemma_texture_and_more(t: TextureModel, extra: Seq<u8>)
    requires
        texture_ok(t),
    ensures
        parse_texture(texture_bytes(t) + extra) == Ok::<TextureModel, BakeError>(t),
        parse_levels(texture_bytes(t) + extra, 24, t.width, t.height, t.levels.len()) == Ok::<
            (Seq<Seq<u8>>, int),
            BakeError,
        >((t.levels, texture_bytes(t).len() as int)),
{
    let d = texture_bytes(t) + extra;
    assert(d.take(24) =~= texture_header(t));
    lemma_texture_header(t, d);
    assert(d.subrange(24, texture_bytes(t).len() as int) =~= levels_bytes(t.levels));
    lemma_parse_levels_of_bytes(d, 24, t.levels, t.width, t.height);
}

proof fn lemma_parsed_levels(d: Seq<u8>, at: int, width: u32, height: u32, n: nat)
    requires
        0 <= at <= d.len(),
        parse_levels(d, at, width, height, n) is Ok,
    ensures
        ({
            let (ls, end) = parse_levels(d, at, width, height, n)->Ok_0;
            &&& ls.len() == n
            &&& at <= end <= d.len()
            &&& d.subrange(at, end) == levels_bytes(ls)
            &&& levels_ok(ls, width, height)
        }),
    decreases n,
{
    let (ls, end) = parse_levels(d, at, width, height, n)->Ok_0;
    if n == 0 {
        assert(d.subrange(at, end) =~= Seq::empty());
    } else {
        lemma_parsed_levels(d, at, width, height, (n - 1) as nat);
        let (init, mid) = parse_levels(d, at, width, height, (n - 1) as nat)->Ok_0;
        let l = ls.last();
        bytes::lemma_le32_of_word(d, mid);
        assert(ls.drop_last() =~= init);
        assert(l.len() as u32 == bytes::word(d, mid));
        assert(d.subrange(at, end) =~= d.subrange(at, mid) + (d.subrange(mid, mid + 4)
            + d.subrange(mid + 4, end)));
        assert forall|i: int| 0 <= i < ls.len() implies (#[trigger] ls[i]).len() == level_bytes(
            width,
            height,
            i as nat,
        ) && ls[i].len() <= u32::MAX by {
            if i < n - 1 {
                assert(ls[i] == init[i]);
            }
        }
    }
}

/// A texture file that is accepted starts with exactly what writing its
/// texture gives, and that texture is one the renderer can trust.
pub proof fn law_only_written_textures_are_read(d: Seq<u8>)
    requires
        parse_texture(d) is Ok,
    ensures
        texture_ok(parse_texture(d)->Ok_0),
        texture_bytes(parse_texture(d)->Ok_0).len() <= d.len(),
        d.take(texture_bytes(parse_texture(d)->Ok_0).len() as int) == texture_bytes(
            parse_texture(d)->Ok_0,
        ),
{
    let t = parse_texture(d)->Ok_0;
    let n = bytes::word(d, 20) as nat;
    lemma_parsed_levels(d, 24, t.width, t.height, n);
    let (ls, end) = parse_levels(d, 24, t.width, t.height, n)->Ok_0;
    bytes::lemma_le32_of_word(d, 4);
    bytes::lemma_le32_of_word(d, 8);
    bytes::lemma_le32_of_word(d, 12);
    bytes::lemma_le32_of_word(d, 16);
    bytes::lemma_le32_of_word(d, 20);
    assert(d.take(24) =~= d.take(4) + d.subrange(4, 8) + d.subrange(8, 12) + d.subrange(12, 16)
        + d.subrange(16, 20) + d.subrange(20, 24));
    assert(texture_header(t) == d.take(24));
    assert(d.take(end) =~= d.take(24) + d.subrange(24, end));
}

proof fn lemma_levels_of_prefix(d: Seq<u8>, p: int, at: int, width: u32, height: u32, n: nat)
    requires
        0 <= at <= p <= d.len(),
        parse_levels(d.take(p), at, width, height, n) is Ok,
    ensures
        parse_levels(d, at, width, height, n) == parse_levels(d.take(p), at, width, height, n),
    decreases n,
{
    if n > 0 {
        lemma_levels_of_prefix(d, p, at, width, height, (n - 1) as nat);
        lemma_parsed_levels(d.take(p), at, width, height, (n - 1) as nat);
        let (init, mid) = parse_levels(d.take(p), at, width, height, (n - 1) as nat)->Ok_0;
        let size = level_bytes(width, height, (n - 1) as nat) as int;
        assert(d.take(p).subrange(mid + 4, mid + 4 + size) =~= d.subrange(mid + 4, mid + 4 + size));
    }
}

/// A texture file that was cut short is rejected, wherever it was cut.
pub proof fn law_cut_textures_are_rejected(t: TextureModel, p: int)
    requires
        texture_ok(t),
        0 <= p < texture_bytes(t).len(),
    ensures
        parse_texture(texture_bytes(t).take(p)) is Err,
{
    let d = texture_bytes(t);
    let c = d.take(p);
    assert(d + Seq::<u8>::empty() =~= d);
    lemma_texture_and_more(t, Seq::empty());
    if parse_texture(c) is Ok {
        assert(d.take(24) =~= texture_header(t));
        lemma_texture_header(t, d);
        let n = bytes::word(c, 20) as nat;
        lemma_parsed_levels(c, 24, t.width, t.height, n);
        lemma_levels_of_prefix(d, p, 24, t.width, t.height, n);
    }
}

/// What the key of a texture is a hash of: the version and the use, the size,
/// and the hash of the source.
pub open spec fn texture_key_input(t: TextureData, kind: TexKind) -> Seq<u8> {
    bytes::le32(BAKE_VERSION) + bytes::le32(kind.tag_spec()) + bytes::le32(t.width) + bytes::le32(
        t.height,
    ) + bytes::le64(t.source_key)
}

/// The content key of a texture for one use. Nothing is decoded for it, and the
/// same image has different keys as colour and as data.
pub fn texture_key(tex: &TextureData, kind: TexKind) -> (r: u64)
    ensures
        r == hash::xxh3_digest(texture_key_input(*tex, kind)),
{
    let mut head: Vec<u8> = Vec::new();
    bytes::push_le32(&mut head, BAKE_VERSION);
    bytes::push_le32(&mut head, kind.tag());
    bytes::push_le32(&mut head, tex.width);
    bytes::push_le32(&mut head, tex.height);
    bytes::push_le64(&mut head, tex.source_key);
    let mut h: Xxh3 = Xxh3::new();
    h.update(head.as_slice());
    assert(hash::xxh3_fed(h) =~= texture_key_input(*tex, kind));
    h.digest()
}

/// What the key of a mesh is a hash of: the version, and the vertices and
/// indices as they are. The material has no part in it.
pub open spec fn mesh_key_input(vertices: Seq<Vertex>, indices: Seq<u32>) -> Seq<u8> {
    bytes::le32(MESH_BAKE_VERSION) + bytes::le64(vertices.len() as u64) + bytes::le32s(
        vertices_words(vertices),
    ) + bytes::le32s(indices)
}

/// The content key of a mesh.
pub fn mesh_key(mesh: &MeshData) -> (r: u64)
    ensures
        r == hash::xxh3_digest(mesh_key_input(mesh.vertices@, mesh.indices@)),
{
    let mut head: Vec<u8> = Vec::new();
    bytes::push_le32(&mut head, MESH_BAKE_VERSION);
    bytes::push_le64(&mut head, mesh.vertices.len() as u64);
    let mut h: Xxh3 = Xxh3::new();
    h.update(head.as_slice());
    h.update(vertices_to_bytes(&mesh.vertices).as_slice());
    h.update(indices_to_bytes(&mesh.indices).as_slice());
    assert(hash::xxh3_fed(h) =~= mesh_key_input(mesh.vertices@, mesh.indices@));
    h.digest()
}

/// Meshes that differ in their surface only have one key.
pub proof fn law_mesh_keys_ignore_materials(a: MeshData, b: MeshData)
    requires
        a.vertices@ == b.vertices@,
        a.indices@ == b.indices@,
    ensures
        mesh_key_input(a.vertices@, a.indices@) == mesh_key_input(b.vertices@, b.indices@),
{
}

/// What the key of a texture hashes tells apart the use, the size and the
/// source.
pub proof fn law_texture_keys_hash_everything(
    a: TextureData,
    b: TextureData,
    ka: TexKind,
    kb: TexKind,
)
    ensures
        texture_key_input(a, ka) == texture_key_input(b, kb) <==> {
            &&& ka == kb
            &&& a.width == b.width
            &&& a.height == b.height
            &&& a.source_key == b.source_key
        },
{
    let x = texture_key_input(a, ka);
    let y = texture_key_input(b, kb);
    if x == y {
        lemma_texture_key_words(a, ka);
        lemma_texture_key_words(b, kb);
        assert(a.source_key == (a.source_key % 0x1_0000_0000) + 0x1_0000_0000 * (a.source_key
            / 0x1_0000_0000));
        assert(b.source_key == (b.source_key % 0x1_0000_0000) + 0x1_0000_0000 * (b.source_key
            / 0x1_0000_0000));
    }
}

proof fn lemma_texture_key_words(t: TextureData, kind: TexKind)
    ensures
        ({
            let d = texture_key_input(t, kind);
            &&& bytes::word(d, 4) == kind.tag_spec()
            &&& bytes::word(d, 8) == t.width
            &&& bytes::word(d, 12) == t.height
            &&& bytes::word(d, 16) == t.source_key % 0x1_0000_0000
            &&& bytes::word(d, 20) == t.source_key / 0x1_0000_0000
        }),
{
    let d = texture_key_input(t, kind);
    let low = (t.source_key % 0x1_0000_0000) as u32;
    let high = (t.source_key / 0x1_0000_0000) as u32;
    assert(d.subrange(4, 8) =~= bytes::le32(kind.tag_spec()));
    assert(d.subrange(8, 12) =~= bytes::le32(t.width));
    assert(d.subrange(12, 16) =~= bytes::le32(t.height));
    assert(d.subrange(16, 20) =~= bytes::le32(low));
    assert(d.subrange(20, 24) =~= bytes::le32(high));
    bytes::lemma_word_of_le32(d, 4, kind.tag_spec());
    bytes::lemma_word_of_le32(d, 8, t.width);
    bytes::lemma_word_of_le32(d, 12, t.height);
    bytes::lemma_word_of_le32(d, 16, low);
    bytes::lemma_word_of_le32(d, 20, high);
}

/// What the key of a mesh hashes tells apart all vertices and indices.
pub proof fn law_mesh_keys_hash_everything(
    va: Seq<Vertex>,
    ia: Seq<u32>,
    vb: Seq<Vertex>,
    ib: Seq<u32>,
)
    requires
        va.len() <= u64::MAX,
        vb.len() <= u64::MAX,
    ensures
        mesh_key_input(va, ia) == mesh_key_input(vb, ib) <==> va == vb && ia == ib,
{
    let x = mesh_key_input(va, ia);
    let y = mesh_key_input(vb, ib);
    if x == y {
        lemma_mesh_key_parts(va, ia);
        lemma_mesh_key_parts(vb, ib);
        lemma_vertices_of_bytes(x, 12, va);
        lemma_vertices_of_bytes(y, 12, vb);
        bytes::lemma_words_of_le32s(x, 12 + 32 * va.len() as int, ia);
        bytes::lemma_words_of_le32s(y, 12 + 32 * vb.len() as int, ib);
    }
}

proof fn lemma_mesh_key_parts(vs: Seq<Vertex>, is: Seq<u32>)
    requires
        vs.len() <= u64::MAX,
    ensures
        ({
            let d = mesh_key_input(vs, is);
            let n = 32 * vs.len() as int;
            &&& d.len() == 12 + n + 4 * is.len()
            &&& vs.len() == bytes::word(d, 4) + 0x1_0000_0000 * bytes::word(d, 8)
            &&& d.subrange(12, 12 + n) == bytes::le32s(vertices_words(vs))
            &&& d.subrange(12 + n, 12 + n + 4 * is.len()) == bytes::le32s(is)
        }),
{
    let d = mesh_key_input(vs, is);
    let n = 32 * vs.len() as int;
    let k = vs.len() as u64;
    let low = (k % 0x1_0000_0000) as u32;
    let high = (k / 0x1_0000_0000) as u32;
    let a = bytes::le32(MESH_BAKE_VERSION);
    let b = bytes::le64(k);
    let c = bytes::le32s(vertices_words(vs));
    let e = bytes::le32s(is);
    assert(d == a + b + c + e);
    assert(d.subrange(4, 8) =~= bytes::le32(low));
    assert(d.subrange(8, 12) =~= bytes::le32(high));
    bytes::lemma_word_of_le32(d, 4, low);
    bytes::lemma_word_of_le32(d, 8, high);
    assert(d.subrange(12, 12 + n) =~= c);
    assert(d.subrange(12 + n, 12 + n + 4 * is.len()) =~= e);
}

/// One hexadecimal digit.
pub open spec fn hex_digit(d: int) -> char {
    if d < 10 {
        ('0' as int + d) as char
    } else {
        ('a' as int + d - 10) as char
    }
}

/// The last `n` hexadecimal digits of a number.
pub open spec fn hex(key: int, n: nat) -> Seq<char>
    decreases n,
{
    if n == 0 {
        Seq::empty()
    } else {
        hex(key / 16, (n - 1) as nat).push(hex_digit(key % 16))
    }
}

/// A file name inside a directory.
pub open spec fn inside_dir(dir: Seq<char>, name: Seq<char>) -> Seq<char> {
    if dir.len() == 0 || dir.last() == '/' {
        dir + name
    } else {
        dir + "/"@ + name
    }
}

pub open spec fn baked_file(dir: Seq<char>, key: u64, extension: Seq<char>) -> Seq<char> {
    inside_dir(dir, hex(key as int, 16) + extension)
}

fn push_hex(out: &mut String, key: u64, n: u8)
    ensures
        final(out)@ == old(out)@ + hex(key as int, n as nat),
    decreases n,
{
    if n > 0 {
        push_hex(out, key / 16, n - 1);
        let d: u8 = (key % 16) as u8;
        let c: char = if d < 10 {
            (48 + d) as char
        } else {
            (97 + (d - 10)) as char
        };
        out.push(c);
    }
    assert(out@ =~= old(out)@ + hex(key as int, n as nat));
}

fn file_in(dir: &str, key: u64, extension: &str) -> (r: String)
    ensures
        r@ == baked_file(dir@, key, extension@),
{
    let mut r: String = String::from_str(dir);
    let cs: Vec<char> = text::chars_of(dir);
    if cs.len() > 0 && cs[cs.len() - 1] != '/' {
        r.append("/");
    }
    push_hex(&mut r, key, 16);
    r.append(extension);
    assert(r@ =~= baked_file(dir@, key, extension@));
    r
}

/// Where a key's baked texture lives in the texture directory.
pub fn baked_path(dir: &str, key: u64) -> (r: String)
    ensures
        r@ == baked_file(dir@, key, ".bc7"@),
{
    file_in(dir, key, ".bc7")
}

/// Where a key's baked mesh lives in the mesh directory.
pub fn baked_mesh_path(dir: &str, key: u64) -> (r: String)
    ensures
        r@ == baked_file(dir@, key, ".fbm"@),
{
    file_in(dir, key, ".fbm")
}

proof fn lemma_hex(a: int, b: int, n: nat)
    requires
        0 <= a,
        0 <= b,
        hex(a, n) == hex(b, n),
    ensures
        hex(a, n).len() == n,
        a % pow2(4 * n) as int == b % pow2(4 * n) as int,
    decreases n,
{
    if n == 0 {
        lemma2_to64();
    } else {
        let (x, y) = (hex(a, n), hex(b, n));
        assert(x.drop_last() =~= hex(a / 16, (n - 1) as nat));
        assert(y.drop_last() =~= hex(b / 16, (n - 1) as nat));
        assert(x.last() == hex_digit(a % 16) && y.last() == hex_digit(b % 16));
        assert(a % 16 == b % 16);
        lemma_hex(a / 16, b / 16, (n - 1) as nat);
        let p = pow2((4 * (n - 1)) as nat) as int;
        lemma_pow2_adds(4, (4 * (n - 1)) as nat);
        lemma2_to64();
        lemma_pow2_pos((4 * (n - 1)) as nat);
        assert(pow2(4 * n) == 16 * p);
        vstd::arithmetic::div_mod::lemma_mod_breakdown(a, 16, p);
        vstd::arithmetic::div_mod::lemma_mod_breakdown(b, 16, p);
    }
}

/// Different keys live in different files of a directory.
pub proof fn law_baked_files_are_distinct(
    dir: Seq<char>,
    a: u64,
    b: u64,
    extension: Seq<char>,
)
    ensures
        baked_file(dir, a, extension) == baked_file(dir, b, extension) <==> a == b,
{
    let (x, y) = (baked_file(dir, a, extension), baked_file(dir, b, extension));
    if x == y {
        lemma_hex_len(a as int, 16);
        lemma_hex_len(b as int, 16);
        let n = if dir.len() == 0 || dir.last() == '/' {
            dir.len() as int
        } else {
            dir.len() + "/"@.len() as int
        };
        assert(x.subrange(n, n + 16) =~= hex(a as int, 16));
        assert(y.subrange(n, n + 16) =~= hex(b as int, 16));
        lemma_hex(a as int, b as int, 16);
        lemma2_to64();
        lemma2_to64_rest();
        vstd::arithmetic::div_mod::lemma_small_mod(a as nat, pow2(64));
        vstd::arithmetic::div_mod::lemma_small_mod(b as nat, pow2(64));
    }
}

proof fn lemma_hex_len(a: int, n: nat)
    ensures
        hex(a, n).len() == n,
    decreases n,
{
    if n > 0 {
        lemma_hex_len(a / 16, (n - 1) as nat);
    }
}

/// A mesh file says what it is: `FBMS`, version 1, how many vertices there are,
/// and, behind their eight numbers each, how many levels of detail follow.
pub proof fn law_mesh_files_say_what_they_hold(m: MeshModel)
    requires
        m.vertices.len() <= u32::MAX,
        m.lods.len() <= u32::MAX,
    ensures
        ({
            let d = mesh_bytes(m);
            let n = m.vertices.len() as int;
            &&& d.take(4) == seq![70u8, 66u8, 77u8, 83u8]
            &&& bytes::word(d, 4) == 1
            &&& bytes::word(d, 8) == n
            &&& bytes::word(d, 12 + 32 * n) == m.lods.len()
            &&& d.len() >= 16 + 32 * n
        }),
{
    lemma_mesh_layout(m);
}

/// A texture file says what it is: `FBTX`, version 2, what it is used as, its
/// size, and how many levels follow.
pub proof fn law_texture_files_say_what_they_hold(t: TextureModel)
    requires
        t.levels.len() <= u32::MAX,
    ensures
        ({
            let d = texture_bytes(t);
            &&& d.len() >= 24
            &&& d.take(4) == seq![70u8, 66u8, 84u8, 88u8]
            &&& bytes::word(d, 4) == 2
            &&& bytes::word(d, 8) == (if t.kind is Color {
                1u32
            } else {
                0
            })
            &&& bytes::word(d, 12) == t.width
            &&& bytes::word(d, 16) == t.height
            &&& bytes::word(d, 20) == t.levels.len()
        }),
{
    let d = texture_bytes(t);
    assert(d.take(24) =~= texture_header(t));
    lemma_texture_header(t, d);
}

/// A mesh that was read can be drawn: there is a level, every level is whole
/// triangles over vertices that are there, and its error is a finite number no
/// smaller than that of the level before, nor than zero.
pub proof fn law_read_meshes_can_be_drawn(d: Seq<u8>, j: int)
    requires
        parse_mesh(d) is Ok,
        0 <= j < parse_mesh(d)->Ok_0.lods.len(),
    ensures
        ({
            let m = parse_mesh(d)->Ok_0;
            let l = m.lods[j];
            &&& m.lods.len() > 0
            &&& l.indices.len() > 0 && l.indices.len() % 3 == 0
            &&& forall|k: int|
                0 <= k < l.indices.len() ==> #[trigger] l.indices[k] < m.vertices.len()
            &&& l.error.finite()
            &&& !l.error.below(F32 { bits: 0 })
            &&& j > 0 ==> !l.error.below(m.lods[j - 1].error)
        }),
{
    law_only_written_meshes_are_read(d);
    let m = parse_mesh(d)->Ok_0;
    lemma_level_ok(m.lods, m.vertices.len(), j);
}

/// There is at least one level in a mesh that was read.
pub proof fn law_read_meshes_have_levels(d: Seq<u8>)
    requires
        parse_mesh(d) is Ok,
    ensures
        parse_mesh(d)->Ok_0.lods.len() > 0,
{
    law_only_written_meshes_are_read(d);
}

proof fn lemma_level_ok(ls: Seq<LodModel>, n: nat, j: int)
    requires
        lods_ok(ls, n),
        0 <= j < ls.len(),
    ensures
        lod_ok(ls[j], n, if j == 0 {
            zero()
        } else {
            ls[j - 1].error
        }),
        !ls[j].error.below(zero()),
    decreases ls.len(),
{
    if j < ls.len() - 1 {
        lemma_level_ok(ls.drop_last(), n, j);
    } else if j > 0 {
        lemma_level_ok(ls.drop_last(), n, j - 1);
    }
}

/// A texture that was read has levels of the sizes that its own size asks for.
pub proof fn law_read_textures_have_their_size(d: Seq<u8>, i: int)
    requires
        parse_texture(d) is Ok,
        0 <= i < parse_texture(d)->Ok_0.levels.len(),
    ensures
        parse_texture(d)->Ok_0.levels[i].len() == level_bytes(
            parse_texture(d)->Ok_0.width,
            parse_texture(d)->Ok_0.height,
            i as nat,
        ),
{
    law_only_written_textures_are_read(d);
}

/// Each level is half as wide and half as high as the one before, rounded down,
/// but has at least one pixel each way.
pub proof fn law_levels_are_halved(n: u32, level: nat)
    ensures
        level_dim(n, 0) == (if n == 0 {
            1nat
        } else {
            n as nat
        }),
        level_dim(n, level + 1) == (if level_dim(n, level) < 2 {
            1nat
        } else {
            level_dim(n, level) / 2
        }),
{
    lemma2_to64();
    vstd::arithmetic::power2::lemma_pow2_unfold(level + 1);
    lemma_pow2_pos(level);
    let p = pow2(level) as int;
    vstd::arithmetic::div_mod::lemma_div_denominator(n as int, p, 2);
    assert(p * 2 == pow2(level + 1));
}

/// A level takes 16 bytes for every block of four by four texels that covers
/// some of it, and there are as many blocks as it takes to cover it and no more.
pub proof fn law_blocks_cover_their_level(width: u32, height: u32, level: nat, x: nat, y: nat)
    requires
        4 * x >= level_dim(width, level) > 4 * x - 4,
        4 * y >= level_dim(height, level) > 4 * y - 4,
    ensures
        level_bytes(width, height, level) == 16 * (x * y),
{
    assert(blocks_across(level_dim(width, level)) == x);
    assert(blocks_across(level_dim(height, level)) == y);
    assert(x * y * 16 == 16 * (x * y)) by (nonlinear_arith);
}

/// File names are written in hexadecimal, the highest digit first, with small
/// letters.
pub proof fn law_keys_are_written_in_hexadecimal(key: int, d: int, n: nat)
    requires
        0 <= key,
        0 <= d < 16,
    ensures
        hex(16 * key + d, n + 1) == hex(key, n).push("0123456789abcdef"@[d]),
        hex(key, 0).len() == 0,
{
    reveal_strlit("0123456789abcdef");
    assert((16 * key + d) / 16 == key && (16 * key + d) % 16 == d);
}

/// A baked file stands in its directory: behind a slash, its sixteen digits and
/// its extension.
pub proof fn law_baked_files_stand_in_their_directory(
    dir: Seq<char>,
    key: u64,
    extension: Seq<char>,
)
    ensures
        hex(key as int, 16).len() == 16,
        dir.len() > 0 && dir.last() != '/' ==> baked_file(dir, key, extension) == dir + seq!['/']
            + hex(key as int, 16) + extension,
        dir.len() == 0 || dir.last() == '/' ==> baked_file(dir, key, extension) == dir + hex(
            key as int,
            16,
        ) + extension,
{
    reveal_strlit("/");
    assert("/"@ =~= seq!['/']);
    lemma_hex_len(key as int, 16);
    let digits = hex(key as int, 16);
    if dir.len() == 0 || dir.last() == '/' {
        assert(baked_file(dir, key, extension) =~= dir + digits + extension);
    } else {
        assert(baked_file(dir, key, extension) =~= dir + seq!['/'] + digits + extension);
    }
}

/// A mesh file that is refused at its head is refused for what is wrong with it.
pub proof fn law_refused_meshes_say_why(d: Seq<u8>)
    ensures
        d.len() < 4 ==> parse_mesh(d) == Err::<MeshModel, BakeError>(BakeError::Truncated),
        d.len() >= 4 && d.take(4) != seq![70u8, 66u8, 77u8, 83u8] ==> parse_mesh(d) == Err::<
            MeshModel,
            BakeError,
        >(BakeError::NotAMesh),
        d.len() >= 8 && d.take(4) == seq![70u8, 66u8, 77u8, 83u8] && bytes::word(d, 4) != 1
            ==> parse_mesh(d) == Err::<MeshModel, BakeError>(BakeError::OtherVersion),
        d.len() >= 16 && d.take(4) == seq![70u8, 66u8, 77u8, 83u8] && bytes::word(d, 4) == 1
            && d.len() < 16 + 32 * bytes::word(d, 8) ==> parse_mesh(d) == Err::<
            MeshModel,
            BakeError,
        >(BakeError::Truncated),
        d.len() >= 16 && d.take(4) == seq![70u8, 66u8, 77u8, 83u8] && bytes::word(d, 4) == 1
            && d.len() >= 16 + 32 * bytes::word(d, 8) && bytes::word(d, 12 + 32 * bytes::word(d, 8))
            == 0 ==> parse_mesh(d) == Err::<MeshModel, BakeError>(BakeError::NoLods),
{
}

/// A level of detail that is refused is refused for what is wrong with it.
pub proof fn law_refused_levels_say_why(d: Seq<u8>, at: int, vertices: nat, prev: F32, i: int)
    requires
        0 <= at,
        at + 8 <= d.len(),
    ensures
        ({
            let count = bytes::word(d, at + 4);
            let error = F32 { bits: bytes::word(d, at) };
            let r = parse_lod(d, at, vertices, prev);
            &&& count == 0 || count % 3 != 0 <==> r == Err::<LodModel, BakeError>(
                BakeError::PartialTriangle,
            )
            &&& count > 0 && count % 3 == 0 && at + 8 + 4 * count > d.len() ==> r == Err::<
                LodModel,
                BakeError,
            >(BakeError::Truncated)
            &&& count > 0 && count % 3 == 0 && at + 8 + 4 * count <= d.len() && 0 <= i < count
                && bytes::word(d, at + 8 + 4 * i) >= vertices ==> r == Err::<LodModel, BakeError>(
                BakeError::IndexOutOfRange,
            )
            &&& r == Err::<LodModel, BakeError>(BakeError::BadLodError) ==> !error.finite()
                || error.below(prev)
            &&& !error.finite() || error.below(prev) ==> r is Err
        }),
{
    let count = bytes::word(d, at + 4) as nat;
    if 0 <= i < count {
        assert(bytes::words(d, at + 8, count)[i] == bytes::word(d, at + 8 + 4 * i));
    }
}

/// A texture file that is refused at its head is refused for what is wrong with
/// it.
pub proof fn law_refused_textures_say_why(d: Seq<u8>)
    ensures
        d.len() < 4 ==> parse_texture(d) == Err::<TextureModel, BakeError>(BakeError::Truncated),
        d.len() >= 4 && d.take(4) != seq![70u8, 66u8, 84u8, 88u8] ==> parse_texture(d) == Err::<
            TextureModel,
            BakeError,
        >(BakeError::NotATexture),
        d.len() >= 24 && d.take(4) == seq![70u8, 66u8, 84u8, 88u8] && bytes::word(d, 4) != 2
            ==> parse_texture(d) == Err::<TextureModel, BakeError>(BakeError::OtherVersion),
        d.len() >= 24 && d.take(4) == seq![70u8, 66u8, 84u8, 88u8] && bytes::word(d, 4) == 2
            && bytes::word(d, 8) >= 2 ==> parse_texture(d) == Err::<TextureModel, BakeError>(
            BakeError::UnknownKind,
        ),
{
}

/// What is said of a mesh, a level or a texture is said of its parts.
pub proof fn law_bakes_are_seen_whole(m: BakedMesh, t: BakedTexture, i: int)
    ensures
        m@.vertices == m.vertices@,
        m@.lods.len() == m.lods@.len(),
        0 <= i < m.lods@.len() ==> m@.lods[i].error == m.lods@[i].error && m@.lods[i].indices
            == m.lods@[i].indices@,
        t@.kind == t.kind && t@.width == t.width && t@.height == t.height,
        t@.levels.len() == t.levels@.len(),
        0 <= i < t.levels@.len() ==> t@.levels[i] == t.levels@[i]@,
{
}

/// The version of a bake is part of what its keys hash, so that another version
/// looks for other files.
pub proof fn law_keys_hash_the_version(
    t: TextureData,
    kind: TexKind,
    vertices: Seq<Vertex>,
    indices: Seq<u32>,
)
    ensures
        bytes::word(texture_key_input(t, kind), 0) == 2,
        texture_key_input(t, kind).len() == 24,
        bytes::word(mesh_key_input(vertices, indices), 0) == 1,
        mesh_key_input(vertices, indices).len() == 12 + 32 * vertices.len() + 4 * indices.len(),
{
    let d = texture_key_input(t, kind);
    let e = mesh_key_input(vertices, indices);
    reveal(bytes::le32s);
    reveal(bytes::le32);
    assert(d.subrange(0, 4) =~= bytes::le32(BAKE_VERSION));
    assert(e.subrange(0, 4) =~= bytes::le32(MESH_BAKE_VERSION));
    bytes::lemma_word_of_le32(d, 0, BAKE_VERSION);
    bytes::lemma_word_of_le32(e, 0, MESH_BAKE_VERSION);
}

/// Bytes of the first `j` levels of detail of a file: two words for each and its
/// indices.
pub open spec fn lods_before(ls: Seq<LodModel>, j: nat) -> int
    decreases j,
{
    if j == 0 {
        0
    } else {
        lods_before(ls, (j - 1) as nat) + 8 + 4 * ls[j - 1].indices.len()
    }
}

proof fn lemma_lods_before(ls: Seq<LodModel>, j: nat)
    requires
        j <= ls.len(),
    ensures
        lods_before(ls, j) <= lods_bytes(ls).len(),
        lods_bytes(ls).take(lods_before(ls, j)) == lods_bytes(ls.take(j as int)),
    decreases ls.len() - j,
{
    let some = ls.take(j as int);
    lemma_lods_len(ls, j);
    if j < ls.len() {
        lemma_lods_before(ls, j + 1);
        lemma_lods_len(ls, j + 1);
        let more = ls.take(j as int + 1);
        assert(more.drop_last() =~= some);
        assert(lods_bytes(more) == lods_bytes(some) + lod_bytes(ls[j as int]));
        assert(lods_bytes(ls).take(lods_before(ls, j)) =~= lods_bytes(more).take(
            lods_before(ls, j),
        ));
        assert(lods_bytes(more).take(lods_before(ls, j)) =~= lods_bytes(some));
    } else {
        assert(some =~= ls);
        assert(lods_bytes(ls).take(lods_bytes(ls).len() as int) =~= lods_bytes(ls));
    }
}

proof fn lemma_lods_len(ls: Seq<LodModel>, j: nat)
    requires
        j <= ls.len(),
    ensures
        lods_bytes(ls.take(j as int)).len() == lods_before(ls, j),
    decreases j,
{
    reveal(bytes::le32s);
    reveal(bytes::le32);
    if j > 0 {
        lemma_lods_len(ls, (j - 1) as nat);
        assert(ls.take(j as int).drop_last() =~= ls.take(j - 1));
        assert(ls.take(j as int).last() == ls[j - 1]);
    }
}

/// In a mesh file each vertex is its eight numbers, and each level of detail its
/// error, the number of its indices and the indices, one behind the other.
pub proof fn law_mesh_files_hold_their_parts_in_order(m: MeshModel, i: int, j: int, k: int)
    requires
        m.vertices.len() <= u32::MAX,
        m.lods.len() <= u32::MAX,
        0 <= i < m.vertices.len(),
        0 <= j < m.lods.len(),
        m.lods[j].indices.len() <= u32::MAX,
        0 <= k < m.lods[j].indices.len(),
    ensures
        ({
            let d = mesh_bytes(m);
            let v = m.vertices[i];
            let at = 16 + 32 * m.vertices.len() + lods_before(m.lods, j as nat);
            &&& bytes::word(d, 12 + 32 * i) == v.pos.x.bits
            &&& bytes::word(d, 16 + 32 * i) == v.pos.y.bits
            &&& bytes::word(d, 20 + 32 * i) == v.pos.z.bits
            &&& bytes::word(d, 24 + 32 * i) == v.normal.x.bits
            &&& bytes::word(d, 28 + 32 * i) == v.normal.y.bits
            &&& bytes::word(d, 32 + 32 * i) == v.normal.z.bits
            &&& bytes::word(d, 36 + 32 * i) == v.uv.x.bits
            &&& bytes::word(d, 40 + 32 * i) == v.uv.y.bits
            &&& bytes::word(d, at) == m.lods[j].error.bits
            &&& bytes::word(d, at + 4) == m.lods[j].indices.len()
            &&& bytes::word(d, at + 8 + 4 * k) == m.lods[j].indices[k]
        }),
{
    let d = mesh_bytes(m);
    let n = m.vertices.len() as int;
    lemma_mesh_layout(m);
    lemma_vertices_of_bytes(d, 12, m.vertices);
    assert(vertices_at(d, 12, m.vertices.len())[i] == m.vertices[i]);
    let l = m.lods[j];
    let from = 16 + 32 * n;
    let at = from + lods_before(m.lods, j as nat);
    lemma_lods_before(m.lods, (j + 1) as nat);
    lemma_lods_len(m.lods, j as nat);
    let more = m.lods.take(j + 1);
    assert(more.drop_last() =~= m.lods.take(j));
    let count = (l.indices.len() % 0x1_0000_0000) as u32;
    let (a, b, c) = (
        bytes::le32(l.error.bits),
        bytes::le32(count),
        bytes::le32s(l.indices),
    );
    let len = lods_before(m.lods, (j + 1) as nat);
    assert(d.subrange(from, from + len) =~= lods_bytes(m.lods).take(len));
    lemma_split(d, from, lods_bytes(m.lods.take(j)), lod_bytes(l));
    lemma_split(d, at, a + b, c);
    lemma_split(d, at, a, b);
    bytes::lemma_word_of_le32(d, at, l.error.bits);
    bytes::lemma_word_of_le32(d, at + 4, count);
    bytes::lemma_words_of_le32s(d, at + 8, l.indices);
    assert(bytes::words(d, at + 8, l.indices.len())[k] == l.indices[k]);
}

/// Bytes of the first `j` levels of a texture file: a word for each and its
/// blocks.
pub open spec fn levels_before(ls: Seq<Seq<u8>>, j: nat) -> int
    decreases j,
{
    if j == 0 {
        0
    } else {
        levels_before(ls, (j - 1) as nat) + 4 + ls[j - 1].len()
    }
}

proof fn lemma_levels_len(ls: Seq<Seq<u8>>, j: nat)
    requires
        j <= ls.len(),
    ensures
        levels_bytes(ls.take(j as int)).len() == levels_before(ls, j),
    decreases j,
{
    reveal(bytes::le32);
    if j > 0 {
        lemma_levels_len(ls, (j - 1) as nat);
        assert(ls.take(j as int).drop_last() =~= ls.take(j - 1));
        assert(ls.take(j as int).last() == ls[j - 1]);
    }
}

proof fn lemma_levels_before(ls: Seq<Seq<u8>>, j: nat)
    requires
        j <= ls.len(),
    ensures
        levels_before(ls, j) <= levels_bytes(ls).len(),
        levels_bytes(ls).take(levels_before(ls, j)) == levels_bytes(ls.take(j as int)),
    decreases ls.len() - j,
{
    let some = ls.take(j as int);
    lemma_levels_len(ls, j);
    if j < ls.len() {
        lemma_levels_before(ls, j + 1);
        lemma_levels_len(ls, j + 1);
        let more = ls.take(j as int + 1);
        assert(more.drop_last() =~= some);
        assert(levels_bytes(more) == levels_bytes(some) + level_record(ls[j as int]));
        assert(levels_bytes(ls).take(levels_before(ls, j)) =~= levels_bytes(more).take(
            levels_before(ls, j),
        ));
        assert(levels_bytes(more).take(levels_before(ls, j)) =~= levels_bytes(some));
    } else {
        assert(some =~= ls);
        assert(levels_bytes(ls).take(levels_bytes(ls).len() as int) =~= levels_bytes(ls));
    }
}

/// In a texture file each level is the number of its bytes and the bytes, the
/// largest level first.
pub proof fn law_texture_files_hold_their_levels_in_order(t: TextureModel, j: int)
    requires
        t.levels.len() <= u32::MAX,
        0 <= j < t.levels.len(),
        t.levels[j].len() <= u32::MAX,
    ensures
        ({
            let d = texture_bytes(t);
            let l = t.levels[j];
            let at = 24 + levels_before(t.levels, j as nat);
            &&& at + 4 + l.len() <= d.len()
            &&& bytes::word(d, at) == l.len()
            &&& d.subrange(at + 4, at + 4 + l.len()) == l
        }),
{
    let d = texture_bytes(t);
    let l = t.levels[j];
    let at = 24 + levels_before(t.levels, j as nat);
    lemma_levels_before(t.levels, (j + 1) as nat);
    lemma_levels_len(t.levels, j as nat);
    lemma_levels_len(t.levels, (j + 1) as nat);
    let more = t.levels.take(j + 1);
    assert(more.drop_last() =~= t.levels.take(j));
    let len = levels_before(t.levels, (j + 1) as nat);
    let head = texture_header(t);
    assert(head.len() == 24) by {
        reveal(bytes::le32);
    }
    assert(d.subrange(24, 24 + len) =~= levels_bytes(t.levels).take(len));
    let count = (l.len() % 0x1_0000_0000) as u32;
    assert(bytes::le32(count).len() == 4) by {
        reveal(bytes::le32);
    }
    lemma_split(d, 24, levels_bytes(t.levels.take(j)), level_record(l));
    lemma_split(d, at, bytes::le32(count), l);
    bytes::lemma_word_of_le32(d, at, count);
}

/// Each reason is told in words of its own.
pub proof fn law_reasons_are_told_apart(a: BakeError, b: BakeError)
    ensures
        a.text() == b.text() ==> a == b,
        a is Truncated ==> a.text() == "truncated"@,
        a is NotAMesh ==> a.text() == "not a baked mesh"@,
        a is NotATexture ==> a.text() == "not a baked texture"@,
        a is OtherVersion ==> a.text() == "baked by another version"@,
        a is NoLods ==> a.text() == "no LODs"@,
        a is PartialTriangle ==> a.text() == "LOD isn't whole triangles"@,
        a is IndexOutOfRange ==> a.text() == "index out of range"@,
        a is TrailingBytes ==> a.text() == "trailing bytes"@,
        a is UnknownKind ==> a.text() == "unknown texture kind"@,
{
    reveal_strlit("truncated");
    reveal_strlit("not a baked mesh");
    reveal_strlit("not a baked texture");
    reveal_strlit("baked by another version");
    reveal_strlit("no LODs");
    reveal_strlit("LOD isn't whole triangles");
    reveal_strlit("index out of range");
    reveal_strlit("LOD errors must be finite and non-decreasing");
    reveal_strlit("trailing bytes");
    reveal_strlit("unknown texture kind");
    reveal_strlit("level size doesn't match its dimensions");
    assert("truncated"@.len() == 9 && "not a baked mesh"@.len() == 16
        && "not a baked texture"@.len() == 19 && "baked by another version"@.len() == 24
        && "no LODs"@.len() == 7 && "LOD isn't whole triangles"@.len() == 25
        && "index out of range"@.len() == 18
        && "LOD errors must be finite and non-decreasing"@.len() == 44
        && "trailing bytes"@.len() == 14 && "unknown texture kind"@.len() == 20
        && "level size doesn't match its dimensions"@.len() == 39);
}

} // verus!
