//! The texture array that materials index: which image takes which slot.
//!
//! An image takes one slot for each way it is sampled, however many materials
//! use it. What does not fit falls back to the defaults and is counted.
use vstd::prelude::*;

use crate::bake::TexKind;
use crate::float::{F32, Vec3};
use crate::mesh::{Material, Vec4};
use crate::mip;

verus! {

/// Slots 0 (white) and 1 (a flat normal) are always there.
pub const FIRST_TEXTURE_SLOT: usize = 2;

/// Where each material's textures stand in the array.
#[derive(Debug)]
pub struct TexturePlan {
    /// What to upload, in the order of the slots from `FIRST_TEXTURE_SLOT` on.
    pub uploads: Vec<(usize, TexKind)>,
    /// Per material: base colour, normal, and metallic and roughness.
    pub slots: Vec<(u32, u32, u32)>,
    /// Textures that materials name, each as often as it is named.
    pub references: usize,
    /// References that fell back to a default because the array was full.
    pub overflow: usize,
}

pub struct PlanModel {
    pub uploads: Seq<(usize, TexKind)>,
    pub slots: Seq<(u32, u32, u32)>,
    pub references: int,
    pub overflow: int,
}

impl View for TexturePlan {
    type V = PlanModel;

    open spec fn view(&self) -> PlanModel {
        PlanModel {
            uploads: self.uploads@,
            slots: self.slots@,
            references: self.references as int,
            overflow: self.overflow as int,
        }
    }
}

/// The first place of an entry, or the length where there is none.
pub open spec fn place_of(s: Seq<(usize, TexKind)>, key: (usize, TexKind)) -> nat
    decreases s.len(),
{
    if s.len() == 0 {
        0
    } else if s[0] == key {
        0
    } else {
        1 + place_of(s.skip(1), key)
    }
}

/// The slot of the upload at a place, in 32 bits.
pub open spec fn slot_at(place: int) -> u32 {
    ((FIRST_TEXTURE_SLOT + place) % 0x1_0000_0000) as u32
}

/// One reference to a texture: the plan afterwards, and the slot it gets.
pub open spec fn referenced(
    p: PlanModel,
    tex: Option<usize>,
    kind: TexKind,
    default: u32,
    capacity: usize,
) -> (PlanModel, u32) {
    match tex {
        None => (p, default),
        Some(t) => {
            let place = place_of(p.uploads, (t, kind));
            let counted = PlanModel { references: p.references + 1, ..p };
            if place < p.uploads.len() {
                (counted, slot_at(place as int))
            } else if FIRST_TEXTURE_SLOT + p.uploads.len() >= capacity {
                (PlanModel { overflow: p.overflow + 1, ..counted }, default)
            } else {
                (
                    PlanModel { uploads: p.uploads.push((t, kind)), ..counted },
                    slot_at(p.uploads.len() as int),
                )
            }
        },
    }
}

/// The references of one material, in order.
pub open spec fn with_material(p: PlanModel, m: Material, capacity: usize) -> PlanModel {
    let (p1, a) = referenced(p, m.base_color_texture, TexKind::Color, 0, capacity);
    let (p2, b) = referenced(p1, m.normal_texture, TexKind::Data, 1, capacity);
    let (p3, c) = referenced(p2, m.metallic_roughness_texture, TexKind::Data, 0, capacity);
    PlanModel { slots: p3.slots.push((a, b, c)), ..p3 }
}

/// The plan for the first `n` materials.
pub open spec fn plan_of(materials: Seq<Material>, capacity: usize, n: nat) -> PlanModel
    decreases n,
{
    if n == 0 {
        PlanModel { uploads: seq![], slots: seq![], references: 0, overflow: 0 }
    } else {
        with_material(
            plan_of(materials, capacity, (n - 1) as nat),
            materials[n - 1],
            capacity,
        )
    }
}

proof fn lemma_place_is(s: Seq<(usize, TexKind)>, key: (usize, TexKind), n: nat)
    requires
        n <= s.len(),
        n < s.len() ==> s[n as int] == key,
        forall|i: int| 0 <= i < n ==> s[i] != key,
    ensures
        place_of(s, key) == n,
    decreases s.len(),
{
    if s.len() > 0 && n > 0 {
        assert(s[0] != key);
        assert forall|i: int| 0 <= i < n - 1 implies s.skip(1)[i] != key by {
            assert(s.skip(1)[i] == s[i + 1]);
        }
        lemma_place_is(s.skip(1), key, (n - 1) as nat);
    }
}

proof fn lemma_place_bound(s: Seq<(usize, TexKind)>, key: (usize, TexKind))
    ensures
        place_of(s, key) <= s.len(),
        place_of(s, key) < s.len() ==> s[place_of(s, key) as int] == key,
        forall|i: int| 0 <= i < place_of(s, key) && i < s.len() ==> s[i] != key,
    decreases s.len(),
{
    if s.len() > 0 && s[0] != key {
        lemma_place_bound(s.skip(1), key);
        assert forall|i: int| 0 <= i < place_of(s, key) && i < s.len() implies s[i] != key by {
            if i > 0 {
                assert(s[i] == s.skip(1)[i - 1]);
            }
        }
    }
}

fn find(s: &Vec<(usize, TexKind)>, key: (usize, TexKind)) -> (r: usize)
    ensures
        r == place_of(s@, key),
        r <= s@.len(),
{
    let mut i: usize = 0;
    while i < s.len() && !(s[i].0 == key.0 && s[i].1 == key.1)
        invariant
            i <= s@.len(),
            forall|j: int| 0 <= j < i ==> s@[j] != key,
        decreases s@.len() - i,
    {
        i = i + 1;
    }
    proof {
        lemma_place_is(s@, key, i as nat);
    }
    i
}

fn reference(
    plan: &mut TexturePlan,
    tex: Option<usize>,
    kind: TexKind,
    default: u32,
    capacity: usize,
) -> (r: u32)
    requires
        old(plan).references < usize::MAX,
        old(plan).overflow <= old(plan).references,
    ensures
        (final(plan)@, r) == referenced(old(plan)@, tex, kind, default, capacity),
        final(plan).overflow <= final(plan).references <= old(plan).references + 1,
{
    match tex {
        None => default,
        Some(t) => {
            plan.references = plan.references + 1;
            let place: usize = find(&plan.uploads, (t, kind));
            let len: usize = plan.uploads.len();
            if place < len {
                return slot_number(place);
            }
            if capacity <= FIRST_TEXTURE_SLOT || len >= capacity - FIRST_TEXTURE_SLOT {
                plan.overflow = plan.overflow + 1;
                return default;
            }
            plan.uploads.push((t, kind));
            slot_number(len)
        },
    }
}

fn slot_number(place: usize) -> (r: u32)
    ensures
        r == slot_at(place as int),
{
    ((place as u128 + 2) % 0x1_0000_0000) as u32
}

/// Give every image that the materials name a slot, as far as `capacity`
/// reaches. Images are known by their places; what is named twice for the same
/// kind of sampling shares its slot.
pub fn plan_texture_slots(materials: &Vec<Material>, capacity: usize) -> (r: TexturePlan)
    requires
        3 * materials@.len() <= usize::MAX,
    ensures
        r@ == plan_of(materials@, capacity, materials@.len()),
{
    let mut plan: TexturePlan = TexturePlan {
        uploads: Vec::new(),
        slots: Vec::new(),
        references: 0,
        overflow: 0,
    };
    assert(plan.uploads@ =~= seq![]);
    assert(plan.slots@ =~= seq![]);
    for i in 0..materials.len()
        invariant
            3 * materials@.len() <= usize::MAX,
            plan@ == plan_of(materials@, capacity, i as nat),
            plan.overflow <= plan.references <= 3 * i,
    {
        let m: Material = materials[i];
        let a: u32 = reference(&mut plan, m.base_color_texture, TexKind::Color, 0, capacity);
        let b: u32 = reference(&mut plan, m.normal_texture, TexKind::Data, 1, capacity);
        let c: u32 = reference(
            &mut plan,
            m.metallic_roughness_texture,
            TexKind::Data,
            0,
            capacity,
        );
        plan.slots.push((a, b, c));
    }
    plan
}

pub open spec fn distinct(s: Seq<(usize, TexKind)>) -> bool {
    forall|i: int, j: int| 0 <= i < j < s.len() ==> s[i] != s[j]
}

/// Whether a slot shows the image it should: the default where there is none,
/// else the upload of that image, or the default when the array was full.
pub open spec fn shows(
    p: PlanModel,
    tex: Option<usize>,
    kind: TexKind,
    default: u32,
    slot: u32,
) -> bool {
    match tex {
        None => slot == default,
        Some(t) => {
            ||| FIRST_TEXTURE_SLOT <= slot < FIRST_TEXTURE_SLOT + p.uploads.len() && p.uploads[slot
                - FIRST_TEXTURE_SLOT] == (t, kind)
            ||| slot == default && p.overflow > 0
        },
    }
}

/// What every plan keeps.
pub open spec fn sound(p: PlanModel, capacity: usize) -> bool {
    &&& distinct(p.uploads)
    &&& p.uploads.len() > 0 ==> FIRST_TEXTURE_SLOT + p.uploads.len() <= capacity
    &&& 0 <= p.overflow <= p.references
}

/// A plan that grew from another.
spec fn grown(p: PlanModel, q: PlanModel) -> bool {
    &&& p.uploads.len() <= q.uploads.len()
    &&& forall|i: int| 0 <= i < p.uploads.len() ==> q.uploads[i] == p.uploads[i]
    &&& p.overflow <= q.overflow
    &&& q.slots == p.slots
}

proof fn lemma_referenced(
    p: PlanModel,
    tex: Option<usize>,
    kind: TexKind,
    default: u32,
    capacity: usize,
)
    requires
        sound(p, capacity),
        capacity <= 0x1_0000_0000,
        default < FIRST_TEXTURE_SLOT,
    ensures
        ({
            let (q, slot) = referenced(p, tex, kind, default, capacity);
            sound(q, capacity) && grown(p, q) && shows(q, tex, kind, default, slot)
        }),
{
    if let Some(t) = tex {
        lemma_place_bound(p.uploads, (t, kind));
    }
}

proof fn lemma_shows_grown(
    p: PlanModel,
    q: PlanModel,
    tex: Option<usize>,
    kind: TexKind,
    default: u32,
    slot: u32,
)
    requires
        grown(p, q),
        shows(p, tex, kind, default, slot),
    ensures
        shows(q, tex, kind, default, slot),
{
}

/// Whether the slots of a material show its images.
pub open spec fn material_shown(p: PlanModel, m: Material, s: (u32, u32, u32)) -> bool {
    &&& shows(p, m.base_color_texture, TexKind::Color, 0, s.0)
    &&& shows(p, m.normal_texture, TexKind::Data, 1, s.1)
    &&& shows(p, m.metallic_roughness_texture, TexKind::Data, 0, s.2)
}

/// Every plan is sound: no image is uploaded twice for one kind of sampling,
/// the uploads fit the array, and each material's slots show its own images,
/// or a default once the array was full.
pub proof fn law_slots_show_their_images(materials: Seq<Material>, capacity: usize, n: nat)
    requires
        n <= materials.len(),
        capacity <= 0x1_0000_0000,
    ensures
        sound(plan_of(materials, capacity, n), capacity),
        plan_of(materials, capacity, n).slots.len() == n,
        forall|i: int|
            0 <= i < n ==> material_shown(
                plan_of(materials, capacity, n),
                materials[i],
                #[trigger] plan_of(materials, capacity, n).slots[i],
            ),
    decreases n,
{
    if n > 0 {
        let p = plan_of(materials, capacity, (n - 1) as nat);
        let m = materials[n - 1];
        law_slots_show_their_images(materials, capacity, (n - 1) as nat);
        let (p1, a) = referenced(p, m.base_color_texture, TexKind::Color, 0, capacity);
        let (p2, b) = referenced(p1, m.normal_texture, TexKind::Data, 1, capacity);
        let (p3, c) = referenced(p2, m.metallic_roughness_texture, TexKind::Data, 0, capacity);
        lemma_referenced(p, m.base_color_texture, TexKind::Color, 0, capacity);
        lemma_referenced(p1, m.normal_texture, TexKind::Data, 1, capacity);
        lemma_referenced(p2, m.metallic_roughness_texture, TexKind::Data, 0, capacity);
        lemma_shows_grown(p1, p2, m.base_color_texture, TexKind::Color, 0, a);
        lemma_shows_grown(p2, p3, m.base_color_texture, TexKind::Color, 0, a);
        lemma_shows_grown(p2, p3, m.normal_texture, TexKind::Data, 1, b);
        let q = plan_of(materials, capacity, n);
        assert(q == with_material(p, m, capacity));
        assert forall|i: int| 0 <= i < n implies material_shown(
            q,
            materials[i],
            #[trigger] q.slots[i],
        ) by {
            if i < n - 1 {
                assert(q.slots[i] == p.slots[i]);
                assert(material_shown(p, materials[i], p.slots[i]));
                lemma_shows_grown(
                    p,
                    PlanModel { slots: p.slots, ..q },
                    materials[i].base_color_texture,
                    TexKind::Color,
                    0,
                    q.slots[i].0,
                );
                lemma_shows_grown(
                    p,
                    PlanModel { slots: p.slots, ..q },
                    materials[i].normal_texture,
                    TexKind::Data,
                    1,
                    q.slots[i].1,
                );
                lemma_shows_grown(
                    p,
                    PlanModel { slots: p.slots, ..q },
                    materials[i].metallic_roughness_texture,
                    TexKind::Data,
                    0,
                    q.slots[i].2,
                );
            }
        }
    }
}

/// Where nothing overflowed, two references share a slot exactly when they name
/// the same image for the same kind of sampling.
pub proof fn law_images_share_slots(
    p: PlanModel,
    capacity: usize,
    a: usize,
    ka: TexKind,
    da: u32,
    sa: u32,
    b: usize,
    kb: TexKind,
    db: u32,
    sb: u32,
)
    requires
        sound(p, capacity),
        p.overflow == 0,
        shows(p, Some(a), ka, da, sa),
        shows(p, Some(b), kb, db, sb),
    ensures
        sa == sb <==> a == b && ka == kb,
{
}

/// What the device reads of a material.
#[derive(Clone, Copy, PartialEq, Eq, Debug)]
pub struct GpuMaterial {
    pub base_color_factor: Vec4,
    /// Emitted colour, and how metallic the surface is.
    pub emissive: Vec4,
    /// Roughness, normal scale, occlusion and alpha cutoff.
    pub params: Vec4,
    /// Slots of base colour, normal, metallic and roughness, and an unused one.
    pub tex: (u32, u32, u32, u32),
}

/// 1.0 and 0.5 as single precision bits.
pub const OCCLUSION: u32 = 0x3f80_0000;

pub const ALPHA_CUTOFF: u32 = 0x3f00_0000;

/// A material as the device reads it.
pub open spec fn gpu_material(m: Material, slots: (u32, u32, u32)) -> GpuMaterial {
    GpuMaterial {
        base_color_factor: m.base_color,
        emissive: Vec4 { x: m.emissive.x, y: m.emissive.y, z: m.emissive.z, w: m.metallic },
        params: Vec4 {
            x: m.roughness,
            y: m.normal_scale,
            z: F32 { bits: OCCLUSION },
            w: F32 { bits: ALPHA_CUTOFF },
        },
        tex: (slots.0, slots.1, slots.2, 0),
    }
}

impl GpuMaterial {
    pub fn from_material(m: &Material, slots: (u32, u32, u32)) -> (r: GpuMaterial)
        ensures
            r == gpu_material(*m, slots),
    {
        let e: Vec3 = m.emissive;
        GpuMaterial {
            base_color_factor: m.base_color,
            emissive: Vec4 { x: e.x, y: e.y, z: e.z, w: m.metallic },
            params: Vec4 {
                x: m.roughness,
                y: m.normal_scale,
                z: F32 { bits: OCCLUSION },
                w: F32 { bits: ALPHA_CUTOFF },
            },
            tex: (slots.0, slots.1, slots.2, 0),
        }
    }
}

/// Bytes of an image and its mip levels, each half as wide and high as the one
/// before, down to one pixel.
pub open spec fn chain_bytes(w: nat, h: nat) -> nat
    decreases w + h,
{
    if w == 0 || h == 0 {
        0
    } else if w == 1 && h == 1 {
        4
    } else {
        w * h * 4 + chain_bytes(half(w), half(h))
    }
}

pub open spec fn half(n: nat) -> nat {
    if n / 2 < 1 {
        1
    } else {
        n / 2
    }
}

/// At least one.
pub open spec fn at_least_one(n: u32) -> nat {
    if n == 0 {
        1
    } else {
        n as nat
    }
}

/// Bytes that an image takes when its mip levels are built on the device. An
/// empty side counts as one pixel.
pub fn rgba8_chain_bytes(width: u32, height: u32) -> (r: usize)
    requires
        at_least_one(width) * at_least_one(height) * 4 <= u32::MAX,
        chain_bytes(at_least_one(width), at_least_one(height)) <= usize::MAX,
    ensures
        r == chain_bytes(at_least_one(width), at_least_one(height)),
{
    let mut w: u32 = if width == 0 {
        1
    } else {
        width
    };
    let mut h: u32 = if height == 0 {
        1
    } else {
        height
    };
    let ghost all = chain_bytes(w as nat, h as nat);
    let mut total: usize = 0;
    while w > 1 || h > 1
        invariant
            1 <= w,
            1 <= h,
            w * h * 4 <= u32::MAX,
            all <= usize::MAX,
            total + chain_bytes(w as nat, h as nat) == all,
        decreases w + h,
    {
        proof {
            lemma_halves(w as int, h as int);
        }
        let bytes: u32 = w * h * 4;
        total = total + bytes as usize;
        w = if w / 2 < 1 {
            1
        } else {
            w / 2
        };
        h = if h / 2 < 1 {
            1
        } else {
            h / 2
        };
    }
    total + 4
}

proof fn lemma_halves(w: int, h: int)
    requires
        1 <= w,
        1 <= h,
    ensures
        half(w as nat) * half(h as nat) <= w * h,
        w * h <= w * h * 4,
        w * h >= 0,
{
    let a = half(w as nat) as int;
    let b = half(h as nat) as int;
    assert(a * b <= w * h) by (nonlinear_arith)
        requires
            0 <= a <= w,
            0 <= b <= h,
    ;
    assert(w * h >= 0) by (nonlinear_arith)
        requires
            1 <= w,
            1 <= h,
    ;
}

/// The table of materials that the device reads: each with its slots.
pub fn gpu_materials(materials: &Vec<Material>, slots: &Vec<(u32, u32, u32)>) -> (r: Vec<
    GpuMaterial,
>)
    requires
        slots@.len() == materials@.len(),
    ensures
        r@.len() == materials@.len(),
        forall|i: int|
            0 <= i < r@.len() ==> #[trigger] r@[i] == gpu_material(materials@[i], slots@[i]),
{
    let mut out: Vec<GpuMaterial> = Vec::new();
    let n: usize = materials.len();
    for i in 0..n
        invariant
            n == materials@.len(),
            slots@.len() == n,
            out@.len() == i,
            forall|j: int|
                0 <= j < i ==> #[trigger] out@[j] == gpu_material(materials@[j], slots@[j]),
    {
        out.push(GpuMaterial::from_material(&materials[i], slots[i]));
    }
    out
}

/// A material reaches the device whole: its record has the base colour in all
/// four channels, the emission beside the metallic factor, roughness and normal
/// scale, full occlusion, a cutoff of one half, and the slots it was given. So
/// materials that differ in one of these have different records.
pub proof fn law_materials_reach_the_device_whole(m: Material, slots: (u32, u32, u32))
    ensures
        ({
            let r = gpu_material(m, slots);
            &&& r.base_color_factor.x == m.base_color.x
            &&& r.base_color_factor.y == m.base_color.y
            &&& r.base_color_factor.z == m.base_color.z
            &&& r.base_color_factor.w == m.base_color.w
            &&& r.emissive.x == m.emissive.x
            &&& r.emissive.y == m.emissive.y
            &&& r.emissive.z == m.emissive.z
            &&& r.emissive.w == m.metallic
            &&& r.params.x == m.roughness
            &&& r.params.y == m.normal_scale
            &&& r.params.z.bits == 0x3f80_0000
            &&& r.params.w.bits == 0x3f00_0000
            &&& r.tex.0 == slots.0
            &&& r.tex.1 == slots.1
            &&& r.tex.2 == slots.2
            &&& r.tex.3 == 0
        }),
        forall|n: Material, others: (u32, u32, u32)|
            #[trigger] gpu_material(n, others) == gpu_material(m, slots) ==> {
                &&& n.base_color == m.base_color
                &&& n.emissive == m.emissive
                &&& n.metallic == m.metallic
                &&& n.roughness == m.roughness
                &&& n.normal_scale == m.normal_scale
                &&& others == slots
            },
{
}

/// A texture that is named, if one is.
pub open spec fn naming(tex: Option<usize>, kind: TexKind) -> Seq<(usize, TexKind)> {
    match tex {
        Some(t) => seq![(t, kind)],
        None => seq![],
    }
}

/// The textures that the first `n` materials name, in order, each as often as it
/// is named.
pub open spec fn named(materials: Seq<Material>, n: nat) -> Seq<(usize, TexKind)>
    decreases n,
{
    if n == 0 {
        seq![]
    } else {
        let m = materials[n - 1];
        named(materials, (n - 1) as nat) + naming(m.base_color_texture, TexKind::Color) + naming(
            m.normal_texture,
            TexKind::Data,
        ) + naming(m.metallic_roughness_texture, TexKind::Data)
    }
}

/// How many entries of a list another does not have.
pub open spec fn missing(names: Seq<(usize, TexKind)>, uploads: Seq<(usize, TexKind)>) -> nat
    decreases names.len(),
{
    if names.len() == 0 {
        0
    } else {
        missing(names.drop_last(), uploads) + if uploads.contains(names.last()) {
            0nat
        } else {
            1
        }
    }
}

/// No further upload fits.
pub open spec fn is_full(p: PlanModel, capacity: usize) -> bool {
    FIRST_TEXTURE_SLOT + p.uploads.len() >= capacity
}

/// The slot is that of the image where it is uploaded, and the default where
/// there is no image, or no room for it.
pub open spec fn leads_to(
    p: PlanModel,
    capacity: usize,
    tex: Option<usize>,
    kind: TexKind,
    default: u32,
    slot: u32,
) -> bool {
    match tex {
        None => slot == default,
        Some(t) => if p.uploads.contains((t, kind)) {
            &&& FIRST_TEXTURE_SLOT <= slot < FIRST_TEXTURE_SLOT + p.uploads.len()
            &&& p.uploads[slot - FIRST_TEXTURE_SLOT] == (t, kind)
        } else {
            slot == default && is_full(p, capacity)
        },
    }
}

spec fn accounted(p: PlanModel, names: Seq<(usize, TexKind)>, capacity: usize) -> bool {
    &&& distinct(p.uploads)
    &&& p.uploads.len() > 0 ==> FIRST_TEXTURE_SLOT + p.uploads.len() <= capacity
    &&& p.references == names.len()
    &&& p.overflow == missing(names, p.uploads)
    &&& p.overflow > 0 ==> is_full(p, capacity)
    &&& forall|i: int| 0 <= i < p.uploads.len() ==> names.contains(#[trigger] p.uploads[i])
}

proof fn lemma_missing_less(
    names: Seq<(usize, TexKind)>,
    uploads: Seq<(usize, TexKind)>,
    x: (usize, TexKind),
)
    ensures
        missing(names, uploads.push(x)) <= missing(names, uploads),
    decreases names.len(),
{
    if names.len() > 0 {
        lemma_missing_less(names.drop_last(), uploads, x);
        if uploads.contains(names.last()) {
            let i = choose|i: int| 0 <= i < uploads.len() && uploads[i] == names.last();
            assert(uploads.push(x)[i] == names.last());
        }
    }
}

proof fn lemma_accounted(
    p: PlanModel,
    names: Seq<(usize, TexKind)>,
    tex: Option<usize>,
    kind: TexKind,
    default: u32,
    capacity: usize,
)
    requires
        accounted(p, names, capacity),
        capacity <= 0x1_0000_0000,
    ensures
        ({
            let (q, slot) = referenced(p, tex, kind, default, capacity);
            &&& accounted(q, names + naming(tex, kind), capacity)
            &&& leads_to(q, capacity, tex, kind, default, slot)
            &&& q.slots == p.slots
            &&& q.uploads == p.uploads || (!is_full(p, capacity) && exists|x: (usize, TexKind)|
                q.uploads == p.uploads.push(x))
        }),
{
    let (q, slot) = referenced(p, tex, kind, default, capacity);
    let more = names + naming(tex, kind);
    match tex {
        None => {
            assert(more =~= names);
        },
        Some(t) => {
            let key = (t, kind);
            assert(more =~= names.push(key));
            assert(more.drop_last() =~= names);
            assert(more.last() == key);
            lemma_place_bound(p.uploads, key);
            let place = place_of(p.uploads, key) as int;
            if place < p.uploads.len() {
                assert(p.uploads[place] == key);
            } else if is_full(p, capacity) {
                assert(!p.uploads.contains(key));
            } else {
                lemma_missing_less(names, p.uploads, key);
                assert(q.uploads[p.uploads.len() as int] == key);
            }
            assert forall|i: int| 0 <= i < q.uploads.len() implies more.contains(
                #[trigger] q.uploads[i],
            ) by {
                if i < p.uploads.len() {
                    let k = choose|k: int| 0 <= k < names.len() && names[k] == p.uploads[i];
                    assert(names.contains(p.uploads[i]));
                    assert(more[k] == p.uploads[i]);
                } else {
                    assert(more[names.len() as int] == key);
                }
            }
        },
    }
}

proof fn lemma_still_leads(
    p: PlanModel,
    q: PlanModel,
    capacity: usize,
    tex: Option<usize>,
    kind: TexKind,
    default: u32,
    slot: u32,
)
    requires
        leads_to(p, capacity, tex, kind, default, slot),
        q.uploads == p.uploads || (!is_full(p, capacity) && exists|x: (usize, TexKind)|
            q.uploads == p.uploads.push(x)),
    ensures
        leads_to(q, capacity, tex, kind, default, slot),
{
    if let Some(t) = tex {
        if q.uploads != p.uploads {
            assert(p.uploads.contains((t, kind)));
            assert(q.uploads[slot - FIRST_TEXTURE_SLOT] == (t, kind));
        }
    }
}

/// Whether all slots of a material lead to its images.
pub open spec fn material_led(
    p: PlanModel,
    capacity: usize,
    m: Material,
    s: (u32, u32, u32),
) -> bool {
    &&& leads_to(p, capacity, m.base_color_texture, TexKind::Color, 0, s.0)
    &&& leads_to(p, capacity, m.normal_texture, TexKind::Data, 1, s.1)
    &&& leads_to(p, capacity, m.metallic_roughness_texture, TexKind::Data, 0, s.2)
}

proof fn lemma_still_led(
    p: PlanModel,
    q: PlanModel,
    capacity: usize,
    m: Material,
    s: (u32, u32, u32),
)
    requires
        material_led(p, capacity, m, s),
        q.uploads == p.uploads || (!is_full(p, capacity) && exists|x: (usize, TexKind)|
            q.uploads == p.uploads.push(x)),
    ensures
        material_led(q, capacity, m, s),
{
    lemma_still_leads(p, q, capacity, m.base_color_texture, TexKind::Color, 0, s.0);
    lemma_still_leads(p, q, capacity, m.normal_texture, TexKind::Data, 1, s.1);
    lemma_still_leads(p, q, capacity, m.metallic_roughness_texture, TexKind::Data, 0, s.2);
}

proof fn lemma_plan_accounts(materials: Seq<Material>, capacity: usize, n: nat)
    requires
        n <= materials.len(),
        capacity <= 0x1_0000_0000,
    ensures
        accounted(plan_of(materials, capacity, n), named(materials, n), capacity),
        plan_of(materials, capacity, n).slots.len() == n,
        forall|i: int|
            0 <= i < n ==> material_led(
                plan_of(materials, capacity, n),
                capacity,
                materials[i],
                #[trigger] plan_of(materials, capacity, n).slots[i],
            ),
    decreases n,
{
    if n > 0 {
        let p = plan_of(materials, capacity, (n - 1) as nat);
        let m = materials[n - 1];
        let names = named(materials, (n - 1) as nat);
        lemma_plan_accounts(materials, capacity, (n - 1) as nat);
        let (p1, a) = referenced(p, m.base_color_texture, TexKind::Color, 0, capacity);
        let (p2, b) = referenced(p1, m.normal_texture, TexKind::Data, 1, capacity);
        let (p3, c) = referenced(p2, m.metallic_roughness_texture, TexKind::Data, 0, capacity);
        let names1 = names + naming(m.base_color_texture, TexKind::Color);
        let names2 = names1 + naming(m.normal_texture, TexKind::Data);
        lemma_accounted(p, names, m.base_color_texture, TexKind::Color, 0, capacity);
        lemma_accounted(p1, names1, m.normal_texture, TexKind::Data, 1, capacity);
        lemma_accounted(p2, names2, m.metallic_roughness_texture, TexKind::Data, 0, capacity);
        lemma_still_leads(p1, p2, capacity, m.base_color_texture, TexKind::Color, 0, a);
        lemma_still_leads(p2, p3, capacity, m.base_color_texture, TexKind::Color, 0, a);
        lemma_still_leads(p2, p3, capacity, m.normal_texture, TexKind::Data, 1, b);
        let q = plan_of(materials, capacity, n);
        assert(q == with_material(p, m, capacity));
        assert forall|i: int| 0 <= i < n implies material_led(
            q,
            capacity,
            materials[i],
            #[trigger] q.slots[i],
        ) by {
            if i < n - 1 {
                assert(q.slots[i] == p.slots[i]);
                assert(material_led(p, capacity, materials[i], p.slots[i]));
                lemma_still_led(p, p1, capacity, materials[i], p.slots[i]);
                lemma_still_led(p1, p2, capacity, materials[i], p.slots[i]);
                lemma_still_led(p2, p3, capacity, materials[i], p.slots[i]);
            }
        }
    }
}

/// A plan accounts for every texture that the materials name. Each naming is
/// counted, and those without a slot once more; an image has a slot as long as
/// there is room, and only images that are named have one. A material's slots
/// lead to its own images, and to a default only where it names none or there was
/// no room.
pub proof fn law_plans_account_for_every_name(materials: Seq<Material>, capacity: usize)
    requires
        capacity <= 0x1_0000_0000,
    ensures
        ({
            let p = plan_of(materials, capacity, materials.len());
            let names = named(materials, materials.len());
            &&& p.references == names.len()
            &&& p.overflow == missing(names, p.uploads)
            &&& p.overflow > 0 ==> FIRST_TEXTURE_SLOT + p.uploads.len() >= capacity
            &&& forall|i: int| 0 <= i < p.uploads.len() ==> names.contains(#[trigger] p.uploads[i])
            &&& p.slots.len() == materials.len()
            &&& forall|i: int|
                0 <= i < materials.len() ==> material_led(
                    p,
                    capacity,
                    materials[i],
                    #[trigger] p.slots[i],
                )
        }),
{
    lemma_plan_accounts(materials, capacity, materials.len());
}

/// Bytes of images of some sizes, four for each pixel.
pub open spec fn pixel_bytes(dims: Seq<(u32, u32)>) -> int
    decreases dims.len(),
{
    if dims.len() == 0 {
        0
    } else {
        dims[0].0 * dims[0].1 * 4 + pixel_bytes(dims.skip(1))
    }
}

/// An image and its mip levels take four bytes for each pixel of the chain that
/// the bake would make of it.
pub proof fn law_chains_take_four_bytes_a_pixel(w: u32, h: u32)
    requires
        w >= 1,
        h >= 1,
    ensures
        chain_bytes(w as nat, h as nat) == pixel_bytes(mip::dims_of(w, h)),
        chain_bytes(w as nat, h as nat) >= w * h * 4,
    decreases w + h,
{
    let d = mip::dims_of(w, h);
    if w > 1 || h > 1 {
        law_chains_take_four_bytes_a_pixel(mip::next_side(w), mip::next_side(h));
        assert(d.skip(1) =~= mip::dims_of(mip::next_side(w), mip::next_side(h)));
        assert(half(w as nat) == mip::next_side(w) && half(h as nat) == mip::next_side(h));
    } else {
        assert(d.skip(1).len() == 0);
        assert(pixel_bytes(d.skip(1)) == 0);
    }
}

/// The first two slots are kept for the defaults, and the uploads follow them in
/// order.
pub proof fn law_uploads_follow_the_defaults(place: int)
    requires
        0 <= place < 0xffff_fffe,
    ensures
        slot_at(place) == place + 2,
        FIRST_TEXTURE_SLOT == 2,
{
}

/// What is said of a plan is said of its uploads, its slots and its counts.
pub proof fn law_plans_are_seen_whole(p: TexturePlan, n: u32)
    ensures
        p@.uploads == p.uploads@,
        p@.slots == p.slots@,
        p@.references == p.references,
        p@.overflow == p.overflow,
        at_least_one(n) >= 1,
        n >= 1 ==> at_least_one(n) == n,
        n == 0 ==> at_least_one(n) == 1,
{
}

/// Slots are given out in the order in which images are first named: planning
/// one more material leaves the slots of those before it as they were.
pub proof fn law_plans_only_grow(materials: Seq<Material>, capacity: usize, n: nat)
    ensures
        ({
            let less = plan_of(materials, capacity, n);
            let more = plan_of(materials, capacity, n + 1);
            &&& less.uploads.len() <= more.uploads.len() <= less.uploads.len() + 3
            &&& more.uploads.take(less.uploads.len() as int) == less.uploads
            &&& more.slots.len() == less.slots.len() + 1
            &&& more.slots.drop_last() == less.slots
            &&& less.references <= more.references && less.overflow <= more.overflow
        }),
        plan_of(materials, capacity, 0).uploads.len() == 0,
        plan_of(materials, capacity, 0).references == 0,
        plan_of(materials, capacity, 0).overflow == 0,
{
    let less = plan_of(materials, capacity, n);
    let more = plan_of(materials, capacity, n + 1);
    assert(more.uploads.take(less.uploads.len() as int) =~= less.uploads);
    assert(more.slots.drop_last() =~= less.slots);
}

} // verus!
