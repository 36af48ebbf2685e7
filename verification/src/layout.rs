//! How the device finds what it draws: where a vertex holds its parts, and what
//! the set of resources holds that the mesh shaders read.
use vstd::prelude::*;

use crate::bake;
use crate::bake::Vertex;
use crate::bytes;
use crate::device::FRAMES_IN_FLIGHT;
use crate::mesh::Vec4;
use crate::runs::{GpuLight, InstanceData};
use crate::slots::GpuMaterial;

verus! {

/// Bytes of a vertex.
pub const VERTEX_STRIDE: u32 = 32;

/// A part of a vertex: some single precision numbers that stand together.
#[derive(Clone, Copy, PartialEq, Eq, Structural, Debug)]
pub struct Attribute {
    pub location: u32,
    pub numbers: u32,
    pub offset: u32,
}

/// The position, the normal and the texture coordinate of a vertex.
pub open spec fn attributes() -> Seq<Attribute> {
    seq![
        Attribute { location: 0, numbers: 3, offset: 0 },
        Attribute { location: 1, numbers: 3, offset: 12 },
        Attribute { location: 2, numbers: 2, offset: 24 },
    ]
}

pub fn vertex_attributes() -> (r: Vec<Attribute>)
    ensures
        r@ == attributes(),
{
    let r: Vec<Attribute> = vec![
        Attribute { location: 0, numbers: 3, offset: 0 },
        Attribute { location: 1, numbers: 3, offset: 12 },
        Attribute { location: 2, numbers: 2, offset: 24 },
    ];
    assert(r@ =~= attributes());
    r
}

/// The numbers of a part of a vertex, by its location.
pub open spec fn part(v: Vertex, location: u32) -> Seq<u32> {
    if location == 0 {
        seq![v.pos.x.bits, v.pos.y.bits, v.pos.z.bits]
    } else if location == 1 {
        seq![v.normal.x.bits, v.normal.y.bits, v.normal.z.bits]
    } else {
        seq![v.uv.x.bits, v.uv.y.bits]
    }
}

/// In the bytes of some vertices, each part of each vertex stands at its
/// offset from where that vertex starts, and the parts fill the vertex.
pub proof fn law_attributes_find_their_parts(vs: Seq<Vertex>, i: int, a: int)
    requires
        0 <= i < vs.len(),
        0 <= a < attributes().len(),
    ensures
        bytes::words(
            bytes::le32s(bake::vertices_words(vs)),
            VERTEX_STRIDE * i + attributes()[a].offset,
            attributes()[a].numbers as nat,
        ) == part(vs[i], attributes()[a].location),
        attributes()[a].offset + 4 * attributes()[a].numbers == (if a + 1 < attributes().len() {
            attributes()[a + 1].offset
        } else {
            VERTEX_STRIDE
        }),
{
    let ws = bake::vertices_words(vs);
    let d = bytes::le32s(ws);
    let at = attributes()[a];
    reveal(bytes::le32s);
    assert(d.subrange(0, d.len() as int) =~= d);
    bytes::lemma_words_of_le32s(d, 0, ws);
    let all = bytes::words(d, 0, ws.len());
    let got = bytes::words(d, VERTEX_STRIDE * i + at.offset, at.numbers as nat);
    assert forall|j: int| 0 <= j < at.numbers implies got[j] == part(vs[i], at.location)[j] by {
        let k = 8 * i + at.offset as int / 4 + j;
        assert(4 * k == VERTEX_STRIDE * i + at.offset + 4 * j);
        assert(all[k] == bytes::word(d, 4 * k));
        assert(k / 8 == i && k % 8 == at.offset as int / 4 + j);
        assert(ws[k] == bake::vertex_words(vs[i])[k % 8]);
    }
    assert(got =~= part(vs[i], at.location));
}

/// What a binding holds.
#[derive(Clone, Copy, PartialEq, Eq, Structural, Debug)]
pub enum Resource {
    /// A buffer of any size.
    Storage,
    /// A small buffer that all invocations read alike.
    Uniform,
    /// An image with its sampler.
    Texture,
}

/// One binding of the set, and the shader stages that read it.
#[derive(Clone, Copy, PartialEq, Eq, Structural, Debug)]
pub struct Binding {
    pub resource: Resource,
    pub count: u32,
    pub vertex: bool,
    pub fragment: bool,
    pub compute: bool,
}

/// The set that the mesh shaders read, by binding: the instances, the
/// materials, the texture array, the shadow map, what holds for the whole
/// frame, the lights, and the lights of each cluster.
pub open spec fn bindings(textures: u32) -> Seq<Binding> {
    let one = Binding {
        resource: Resource::Storage,
        count: 1,
        vertex: false,
        fragment: true,
        compute: true,
    };
    seq![
        Binding { vertex: true, fragment: false, compute: false, ..one },
        Binding { compute: false, ..one },
        Binding { resource: Resource::Texture, count: textures, compute: false, ..one },
        Binding { resource: Resource::Texture, compute: false, ..one },
        Binding { resource: Resource::Uniform, ..one },
        one,
        one,
    ]
}

fn binding(resource: Resource, count: u32, vertex: bool, fragment: bool, compute: bool) -> (r:
    Binding)
    ensures
        r == (Binding { resource, count, vertex, fragment, compute }),
{
    Binding { resource, count, vertex, fragment, compute }
}

/// The bindings of the set for a level with some number of textures.
pub fn mesh_bindings(textures: u32) -> (r: Vec<Binding>)
    ensures
        r@ == bindings(textures),
{
    let r: Vec<Binding> = vec![
        binding(Resource::Storage, 1, true, false, false),
        binding(Resource::Storage, 1, false, true, false),
        binding(Resource::Texture, textures, false, true, false),
        binding(Resource::Texture, 1, false, true, false),
        binding(Resource::Uniform, 1, false, true, true),
        binding(Resource::Storage, 1, false, true, true),
        binding(Resource::Storage, 1, false, true, true),
    ];
    assert(r@ =~= bindings(textures));
    r
}

/// How many of a resource the first `n` bindings hold together.
pub open spec fn held(bs: Seq<Binding>, resource: Resource, n: nat) -> nat
    decreases n,
{
    if n == 0 {
        0
    } else {
        held(bs, resource, (n - 1) as nat) + (if bs[n - 1].resource == resource {
            bs[n - 1].count as nat
        } else {
            0
        })
    }
}

proof fn lemma_held(bs: Seq<Binding>, resource: Resource, i: nat, n: nat)
    requires
        i <= n,
    ensures
        held(bs, resource, i) <= held(bs, resource, n),
    decreases n,
{
    if i < n {
        lemma_held(bs, resource, i, (n - 1) as nat);
    }
}

/// How many of a resource a pool needs for one set per frame in flight.
pub fn pool_size(bs: &Vec<Binding>, resource: Resource) -> (r: u32)
    requires
        FRAMES_IN_FLIGHT * held(bs@, resource, bs@.len()) <= u32::MAX,
    ensures
        r == FRAMES_IN_FLIGHT * held(bs@, resource, bs@.len()),
{
    let mut total: u32 = 0;
    let n: usize = bs.len();
    for i in 0..n
        invariant
            n == bs@.len(),
            total == held(bs@, resource, i as nat),
            FRAMES_IN_FLIGHT * held(bs@, resource, bs@.len()) <= u32::MAX,
    {
        proof {
            lemma_held(bs@, resource, (i + 1) as nat, n as nat);
        }
        if bs[i].resource == resource {
            total = total + bs[i].count;
        }
    }
    FRAMES_IN_FLIGHT as u32 * total
}

/// A pool for the mesh shaders holds four buffers, the frame's constants, the
/// textures and the shadow map, for each frame in flight.
pub proof fn law_pools_hold_the_sets(textures: u32)
    ensures
        held(bindings(textures), Resource::Storage, 7) == 4,
        held(bindings(textures), Resource::Uniform, 7) == 1,
        held(bindings(textures), Resource::Texture, 7) == textures + 1,
        bindings(textures).len() == 7,
{
    reveal_with_fuel(held, 8);
}

/// Words of an instance: its matrix, its material, and three that fill it up.
pub const INSTANCE_WORDS: usize = 20;

/// Words of a material: four fours.
pub const MATERIAL_WORDS: usize = 16;

/// Words of a light: two fours.
pub const LIGHT_WORDS: usize = 8;

pub open spec fn instance_words(i: InstanceData) -> Seq<u32> {
    Seq::new(16, |j: int| i.model@[j].bits) + seq![i.material_id, 0, 0, 0]
}

pub open spec fn four_words(v: Vec4) -> Seq<u32> {
    seq![v.x.bits, v.y.bits, v.z.bits, v.w.bits]
}

pub open spec fn material_words(m: GpuMaterial) -> Seq<u32> {
    four_words(m.base_color_factor) + four_words(m.emissive) + four_words(m.params) + seq![
        m.tex.0,
        m.tex.1,
        m.tex.2,
        m.tex.3,
    ]
}

pub open spec fn light_words(l: GpuLight) -> Seq<u32> {
    four_words(l.pos_radius) + four_words(l.radiance_source)
}

/// The words of several instances, one after the other.
pub open spec fn instances_words(s: Seq<InstanceData>) -> Seq<u32> {
    Seq::new(20 * s.len(), |k: int| instance_words(s[k / 20])[k % 20])
}

pub open spec fn materials_words(s: Seq<GpuMaterial>) -> Seq<u32> {
    Seq::new(16 * s.len(), |k: int| material_words(s[k / 16])[k % 16])
}

pub open spec fn lights_words(s: Seq<GpuLight>) -> Seq<u32> {
    Seq::new(8 * s.len(), |k: int| light_words(s[k / 8])[k % 8])
}

fn push_four(out: &mut Vec<u32>, v: Vec4)
    ensures
        final(out)@ == old(out)@ + four_words(v),
{
    out.push(v.x.bits);
    out.push(v.y.bits);
    out.push(v.z.bits);
    out.push(v.w.bits);
    assert(out@ =~= old(out)@ + four_words(v));
}

fn push_instance(out: &mut Vec<u32>, i: &InstanceData)
    ensures
        final(out)@ == old(out)@ + instance_words(*i),
{
    for j in 0..16
        invariant
            out@ == old(out)@ + Seq::new(j as nat, |k: int| i.model@[k].bits),
    {
        out.push(i.model[j].bits);
        assert(out@ =~= old(out)@ + Seq::new((j + 1) as nat, |k: int| i.model@[k].bits));
    }
    out.push(i.material_id);
    out.push(0);
    out.push(0);
    out.push(0);
    assert(out@ =~= old(out)@ + instance_words(*i));
}

/// Instances as the device reads them.
pub fn instances_to_bytes(s: &Vec<InstanceData>) -> (r: Vec<u8>)
    ensures
        r@ == bytes::le32s(instances_words(s@)),
{
    let mut out: Vec<u32> = Vec::new();
    let n: usize = s.len();
    assert(out@ =~= instances_words(s@.take(0)));
    for i in 0..n
        invariant
            n == s@.len(),
            out@ == instances_words(s@.take(i as int)),
    {
        let ghost before = s@.take(i as int);
        let ghost after = s@.take(i + 1);
        push_instance(&mut out, &s[i]);
        assert(out@ =~= instances_words(after)) by {
            assert forall|k: int| 0 <= k < 20 * i implies instances_words(after)[k]
                == instances_words(before)[k] by {
                assert(after[k / 20] == before[k / 20]);
            }
            assert forall|k: int| 20 * i <= k < 20 * (i + 1) implies instances_words(after)[k]
                == instance_words(s@[i as int])[k - 20 * i] by {
                assert(k / 20 == i && k % 20 == k - 20 * i);
            }
        }
    }
    assert(s@.take(n as int) =~= s@);
    bake::indices_to_bytes(&out)
}

/// Materials as the device reads them.
pub fn materials_to_bytes(s: &Vec<GpuMaterial>) -> (r: Vec<u8>)
    ensures
        r@ == bytes::le32s(materials_words(s@)),
{
    let mut out: Vec<u32> = Vec::new();
    let n: usize = s.len();
    assert(out@ =~= materials_words(s@.take(0)));
    for i in 0..n
        invariant
            n == s@.len(),
            out@ == materials_words(s@.take(i as int)),
    {
        let ghost before = s@.take(i as int);
        let ghost after = s@.take(i + 1);
        let ghost earlier = out@;
        let m: &GpuMaterial = &s[i];
        push_four(&mut out, m.base_color_factor);
        push_four(&mut out, m.emissive);
        push_four(&mut out, m.params);
        out.push(m.tex.0);
        out.push(m.tex.1);
        out.push(m.tex.2);
        out.push(m.tex.3);
        assert(out@ =~= earlier + material_words(s@[i as int]));
        assert(out@ =~= materials_words(after)) by {
            assert forall|k: int| 0 <= k < 16 * i implies materials_words(after)[k]
                == materials_words(before)[k] by {
                assert(after[k / 16] == before[k / 16]);
            }
            assert forall|k: int| 16 * i <= k < 16 * (i + 1) implies materials_words(after)[k]
                == material_words(s@[i as int])[k - 16 * i] by {
                assert(k / 16 == i && k % 16 == k - 16 * i);
            }
        }
    }
    assert(s@.take(n as int) =~= s@);
    bake::indices_to_bytes(&out)
}

/// Lights as the device reads them.
pub fn lights_to_bytes(s: &Vec<GpuLight>) -> (r: Vec<u8>)
    ensures
        r@ == bytes::le32s(lights_words(s@)),
{
    let mut out: Vec<u32> = Vec::new();
    let n: usize = s.len();
    assert(out@ =~= lights_words(s@.take(0)));
    for i in 0..n
        invariant
            n == s@.len(),
            out@ == lights_words(s@.take(i as int)),
    {
        let ghost before = s@.take(i as int);
        let ghost after = s@.take(i + 1);
        let ghost earlier = out@;
        push_four(&mut out, s[i].pos_radius);
        push_four(&mut out, s[i].radiance_source);
        assert(out@ =~= earlier + light_words(s@[i as int]));
        assert(out@ =~= lights_words(after)) by {
            assert forall|k: int| 0 <= k < 8 * i implies lights_words(after)[k]
                == lights_words(before)[k] by {
                assert(after[k / 8] == before[k / 8]);
            }
            assert forall|k: int| 8 * i <= k < 8 * (i + 1) implies lights_words(after)[k]
                == light_words(s@[i as int])[k - 8 * i] by {
                assert(k / 8 == i && k % 8 == k - 8 * i);
            }
        }
    }
    assert(s@.take(n as int) =~= s@);
    bake::indices_to_bytes(&out)
}

/// A record that a draw or a shader names by its number stands at that many
/// records from the start: what the device reads there are the words of that
/// instance, material or light.
pub proof fn law_records_stand_at_their_numbers(
    instances: Seq<InstanceData>,
    materials: Seq<GpuMaterial>,
    lights: Seq<GpuLight>,
    i: int,
)
    ensures
        0 <= i < instances.len() ==> instances_words(instances).subrange(
            INSTANCE_WORDS * i,
            INSTANCE_WORDS * (i + 1),
        ) == instance_words(instances[i]),
        0 <= i < materials.len() ==> materials_words(materials).subrange(
            MATERIAL_WORDS * i,
            MATERIAL_WORDS * (i + 1),
        ) == material_words(materials[i]),
        0 <= i < lights.len() ==> lights_words(lights).subrange(
            LIGHT_WORDS * i,
            LIGHT_WORDS * (i + 1),
        ) == light_words(lights[i]),
{
    if 0 <= i < instances.len() {
        let part = instances_words(instances).subrange(20 * i, 20 * (i + 1));
        assert forall|j: int| 0 <= j < 20 implies part[j] == instance_words(instances[i])[j] by {
            let k = 20 * i + j;
            assert(k / 20 == i && k % 20 == j);
        }
        assert(part =~= instance_words(instances[i]));
    }
    if 0 <= i < materials.len() {
        let part = materials_words(materials).subrange(16 * i, 16 * (i + 1));
        assert forall|j: int| 0 <= j < 16 implies part[j] == material_words(materials[i])[j] by {
            let k = 16 * i + j;
            assert(k / 16 == i && k % 16 == j);
        }
        assert(part =~= material_words(materials[i]));
    }
    if 0 <= i < lights.len() {
        let part = lights_words(lights).subrange(8 * i, 8 * (i + 1));
        assert forall|j: int| 0 <= j < 8 implies part[j] == light_words(lights[i])[j] by {
            let k = 8 * i + j;
            assert(k / 8 == i && k % 8 == j);
        }
        assert(part =~= light_words(lights[i]));
    }
}

proof fn lemma_word_at(ws: Seq<u32>, k: int)
    requires
        0 <= k < ws.len(),
    ensures
        bytes::word(bytes::le32s(ws), 4 * k) == ws[k],
{
    let d = bytes::le32s(ws);
    bytes::lemma_le32s_len(ws);
    assert(d.subrange(0, d.len() as int) =~= d);
    bytes::lemma_words_of_le32s(d, 0, ws);
    assert(bytes::words(d, 0, ws.len())[k] == bytes::word(d, 0 + 4 * k));
}

/// The device reads back the instances it was given: a record of 80 bytes holds
/// the sixteen numbers of the transform in their order, and then the material.
/// So instances with the same bytes have the same transforms and materials.
pub proof fn law_instances_are_read_back(s: Seq<InstanceData>)
    ensures
        bytes::le32s(instances_words(s)).len() == 80 * s.len(),
        forall|i: int, j: int|
            #![trigger s[i].model@[j]]
            0 <= i < s.len() && 0 <= j < 16 ==> bytes::word(
                bytes::le32s(instances_words(s)),
                80 * i + 4 * j,
            ) == s[i].model@[j].bits,
        forall|i: int|
            0 <= i < s.len() ==> bytes::word(bytes::le32s(instances_words(s)), 80 * i + 64)
                == (#[trigger] s[i]).material_id,
        forall|t: Seq<InstanceData>|
            #[trigger] bytes::le32s(instances_words(t)) == bytes::le32s(instances_words(s)) ==> {
                &&& t.len() == s.len()
                &&& forall|i: int|
                    0 <= i < s.len() ==> (#[trigger] t[i]).material_id == s[i].material_id
                &&& forall|i: int, j: int|
                    0 <= i < s.len() && 0 <= j < 16 ==> (#[trigger] t[i].model@[j]).bits
                        == s[i].model@[j].bits
            },
{
    let d = bytes::le32s(instances_words(s));
    lemma_instances_read(s);
    assert forall|t: Seq<InstanceData>|
        #[trigger] bytes::le32s(instances_words(t)) == bytes::le32s(instances_words(s)) implies {
        &&& t.len() == s.len()
        &&& forall|i: int| 0 <= i < s.len() ==> (#[trigger] t[i]).material_id == s[i].material_id
        &&& forall|i: int, j: int|
            0 <= i < s.len() && 0 <= j < 16 ==> (#[trigger] t[i].model@[j]).bits
                == s[i].model@[j].bits
    } by {
        lemma_instances_read(t);
        assert forall|i: int, j: int| 0 <= i < s.len() && 0 <= j < 16 implies (
        #[trigger] t[i].model@[j]).bits == s[i].model@[j].bits by {
            assert(s[i].model@[j].bits == bytes::word(d, 80 * i + 4 * j));
        }
    }
}

proof fn lemma_instances_read(s: Seq<InstanceData>)
    ensures
        bytes::le32s(instances_words(s)).len() == 80 * s.len(),
        forall|i: int, j: int|
            #![trigger s[i].model@[j]]
            0 <= i < s.len() && 0 <= j < 16 ==> bytes::word(
                bytes::le32s(instances_words(s)),
                80 * i + 4 * j,
            ) == s[i].model@[j].bits,
        forall|i: int|
            0 <= i < s.len() ==> bytes::word(bytes::le32s(instances_words(s)), 80 * i + 64)
                == (#[trigger] s[i]).material_id,
{
    let ws = instances_words(s);
    bytes::lemma_le32s_len(ws);
    assert forall|i: int, j: int|
        #![trigger s[i].model@[j]]
        0 <= i < s.len() && 0 <= j < 16 implies bytes::word(bytes::le32s(ws), 80 * i + 4 * j)
        == s[i].model@[j].bits by {
        let k = 20 * i + j;
        assert(k / 20 == i && k % 20 == j);
        lemma_word_at(ws, k);
        assert(4 * k == 80 * i + 4 * j);
        assert(ws[k] == instance_words(s[i])[j]);
    }
    assert forall|i: int| 0 <= i < s.len() implies bytes::word(bytes::le32s(ws), 80 * i + 64) == (
    #[trigger] s[i]).material_id by {
        let k = 20 * i + 16;
        assert(k / 20 == i && k % 20 == 16);
        lemma_word_at(ws, k);
        assert(4 * k == 80 * i + 64);
        assert(ws[k] == instance_words(s[i])[16]);
    }
}

/// The four numbers that the device reads at a place are those of a vector.
pub open spec fn reads_four(d: Seq<u8>, at: int, v: Vec4) -> bool {
    &&& bytes::word(d, at) == v.x.bits
    &&& bytes::word(d, at + 4) == v.y.bits
    &&& bytes::word(d, at + 8) == v.z.bits
    &&& bytes::word(d, at + 12) == v.w.bits
}

/// The device reads back the materials it was given: a record of 64 bytes holds
/// the base colour, the emission, the parameters and the slots, in this order.
pub proof fn law_materials_are_read_back(s: Seq<GpuMaterial>, i: int)
    requires
        0 <= i < s.len(),
    ensures
        ({
            let d = bytes::le32s(materials_words(s));
            &&& d.len() == 64 * s.len()
            &&& reads_four(d, 64 * i, s[i].base_color_factor)
            &&& reads_four(d, 64 * i + 16, s[i].emissive)
            &&& reads_four(d, 64 * i + 32, s[i].params)
            &&& bytes::word(d, 64 * i + 48) == s[i].tex.0
            &&& bytes::word(d, 64 * i + 52) == s[i].tex.1
            &&& bytes::word(d, 64 * i + 56) == s[i].tex.2
            &&& bytes::word(d, 64 * i + 60) == s[i].tex.3
        }),
{
    let ws = materials_words(s);
    bytes::lemma_le32s_len(ws);
    assert forall|j: int| 0 <= j < 16 implies bytes::word(
        bytes::le32s(ws),
        #[trigger] (64 * i + 4 * j),
    ) == material_words(s[i])[j] by {
        let k = 16 * i + j;
        assert(k / 16 == i && k % 16 == j);
        lemma_word_at(ws, k);
        assert(4 * k == 64 * i + 4 * j);
    }
    assert(64 * i + 4 * 0 == 64 * i);
    assert(64 * i + 4 * 1 == 64 * i + 4);
    assert(64 * i + 4 * 2 == 64 * i + 8);
    assert(64 * i + 4 * 3 == 64 * i + 12);
    assert(64 * i + 4 * 4 == 64 * i + 16);
    assert(64 * i + 4 * 5 == 64 * i + 16 + 4);
    assert(64 * i + 4 * 6 == 64 * i + 16 + 8);
    assert(64 * i + 4 * 7 == 64 * i + 16 + 12);
    assert(64 * i + 4 * 8 == 64 * i + 32);
    assert(64 * i + 4 * 9 == 64 * i + 32 + 4);
    assert(64 * i + 4 * 10 == 64 * i + 32 + 8);
    assert(64 * i + 4 * 11 == 64 * i + 32 + 12);
    assert(64 * i + 4 * 12 == 64 * i + 48);
    assert(64 * i + 4 * 13 == 64 * i + 52);
    assert(64 * i + 4 * 14 == 64 * i + 56);
    assert(64 * i + 4 * 15 == 64 * i + 60);
}

/// The device reads back the lights it was given: a record of 32 bytes holds the
/// place with its reach, and then the radiance with the size of its source.
pub proof fn law_lights_are_read_back(s: Seq<GpuLight>, i: int)
    requires
        0 <= i < s.len(),
    ensures
        ({
            let d = bytes::le32s(lights_words(s));
            &&& d.len() == 32 * s.len()
            &&& reads_four(d, 32 * i, s[i].pos_radius)
            &&& reads_four(d, 32 * i + 16, s[i].radiance_source)
        }),
{
    let ws = lights_words(s);
    bytes::lemma_le32s_len(ws);
    assert forall|j: int| 0 <= j < 8 implies bytes::word(
        bytes::le32s(ws),
        #[trigger] (32 * i + 4 * j),
    ) == light_words(s[i])[j] by {
        let k = 8 * i + j;
        assert(k / 8 == i && k % 8 == j);
        lemma_word_at(ws, k);
        assert(4 * k == 32 * i + 4 * j);
    }
    assert(32 * i + 4 * 0 == 32 * i);
    assert(32 * i + 4 * 1 == 32 * i + 4);
    assert(32 * i + 4 * 2 == 32 * i + 8);
    assert(32 * i + 4 * 3 == 32 * i + 12);
    assert(32 * i + 4 * 4 == 32 * i + 16);
    assert(32 * i + 4 * 5 == 32 * i + 16 + 4);
    assert(32 * i + 4 * 6 == 32 * i + 16 + 8);
    assert(32 * i + 4 * 7 == 32 * i + 16 + 12);
}

/// Which stages read what: the vertex shader the instances alone, the fragment
/// shader all the rest, and of that the compute shader what it needs to sort
/// the lights.
pub proof fn law_stages_read_what_they_need(textures: u32, k: int)
    requires
        0 <= k < 7,
    ensures
        bindings(textures)[k].vertex <==> k == 0,
        bindings(textures)[k].fragment <==> k != 0,
        bindings(textures)[k].compute <==> k >= 4,
        bindings(textures)[k].resource is Texture <==> k == 2 || k == 3,
        bindings(textures)[k].resource is Uniform <==> k == 4,
        bindings(textures)[k].count == (if k == 2 {
            textures
        } else {
            1
        }),
{
}

/// A pool grows with a binding by what the binding holds of its resource.
pub proof fn law_pools_count_each_binding(bs: Seq<Binding>, resource: Resource, n: nat)
    ensures
        held(bs, resource, 0) == 0,
        bs[n as int].resource == resource ==> held(bs, resource, n + 1) == held(bs, resource, n)
            + bs[n as int].count,
        bs[n as int].resource != resource ==> held(bs, resource, n + 1) == held(bs, resource, n),
{
}

} // verus!
