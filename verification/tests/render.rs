use feather::bake::{BakedMesh, Lod, TexKind, Vertex};
use feather::draws::{
    cluster_groups, merge_meshes, pick_lod, LodSlice, MeshId, MeshSlice, CLUSTER_COUNT,
    CLUSTER_GROUP, CLUSTER_X, CLUSTER_Y, CLUSTER_Z, MAX_LIGHTS,
};
use feather::float::F32;
use feather::mesh::{Material, MeshData, Vec4};
use feather::runs::{FrameDraws, GpuLight, InstanceData, Runs};
use feather::slots::{
    plan_texture_slots, rgba8_chain_bytes, GpuMaterial, FIRST_TEXTURE_SLOT,
};

fn f(x: f32) -> F32 {
    F32 { bits: x.to_bits() }
}

#[test]
fn texture_slots_dedup_by_image_and_kind() {
    let shared = 0usize;
    let other = 1usize;
    let with = |base: Option<usize>, mr: Option<usize>| Material {
        base_color_texture: base,
        metallic_roughness_texture: mr,
        ..Material::default()
    };
    let normal = Material { normal_texture: Some(shared), ..Material::default() };
    let materials = vec![
        with(Some(shared), None),
        with(Some(shared), None), // same image again: same slot
        with(Some(other), None),  // a distinct image: its own slot
        with(None, Some(shared)), // same pixels as data (UNORM): new slot
        with(None, None),         // no textures: the defaults
        normal,                   // as a normal map it's data too: shared
    ];
    let plan = plan_texture_slots(&materials, 1024);
    assert_eq!(plan.uploads.len(), 3);
    assert_eq!(plan.references, 5);
    assert_eq!(plan.overflow, 0);
    let s = &plan.slots;
    assert_eq!(s[0].0, s[1].0, "shared image shares a slot");
    assert_ne!(s[0].0, s[2].0, "distinct images get distinct slots");
    assert_ne!(s[3].2, s[0].0, "sRGB and UNORM views are separate");
    assert_eq!(s[4], (0, 1, 0), "untextured materials use the defaults");
    assert_eq!(s[5].1, s[3].2, "normal and MR maps are both UNORM data");
    let kinds: Vec<TexKind> = plan.uploads.iter().map(|(_, k)| *k).collect();
    assert_eq!(kinds, [TexKind::Color, TexKind::Color, TexKind::Data]);
    assert_eq!(s[2].0, 3);
}

#[test]
fn texture_overflow_is_counted_and_falls_back() {
    // More distinct images than slots: the excess falls back to the defaults
    // and is reported. A small capacity stands in for a device limit.
    let capacity = 16;
    let materials: Vec<Material> = (0..capacity + 5)
        .map(|i| Material { base_color_texture: Some(i), ..Material::default() })
        .collect();
    let plan = plan_texture_slots(&materials, capacity);
    assert_eq!(plan.uploads.len(), capacity - FIRST_TEXTURE_SLOT);
    assert_eq!(plan.overflow, 7);
    assert_eq!(plan.slots.last().unwrap().0, 0, "overflow uses white");
}

#[test]
fn mip_chains_have_their_size() {
    assert_eq!(rgba8_chain_bytes(1, 1), 4);
    assert_eq!(rgba8_chain_bytes(0, 0), 4);
    assert_eq!(rgba8_chain_bytes(4, 2), 4 * (8 + 2 + 1));
    assert_eq!(rgba8_chain_bytes(5, 3), 4 * (15 + 2 + 1));
}

#[test]
fn materials_are_packed_for_the_device() {
    let m = Material { metallic: f(0.25), normal_scale: f(2.0), ..Material::default() };
    let g = GpuMaterial::from_material(&m, (7, 8, 9));
    assert_eq!(g.tex, (7, 8, 9, 0));
    assert_eq!(g.emissive.w, f(0.25));
    assert_eq!((g.params.y, g.params.z, g.params.w), (f(2.0), f(1.0), f(0.5)));
}

fn lods(errors: &[f32]) -> Vec<LodSlice> {
    errors
        .iter()
        .enumerate()
        .map(|(i, &error)| LodSlice {
            first_index: i as u32 * 300,
            index_count: 300 >> i,
            error: f(error),
        })
        .collect()
}

#[test]
fn pick_lod_takes_the_coarsest_level_within_budget() {
    let l = lods(&[0.0, 0.01, 0.02, 0.08]);
    assert_eq!(pick_lod(&l, f(0.0)), 0);
    assert_eq!(pick_lod(&l, f(0.015)), 1);
    assert_eq!(pick_lod(&l, f(0.02)), 2);
    assert_eq!(pick_lod(&l, f(1.0)), 3);
    // A negative budget can't happen, but must still give LOD0.
    assert_eq!(pick_lod(&l, f(-1.0)), 0);
    assert_eq!(pick_lod(&l, f(f32::NAN)), 0);
}

fn instance(tag: u32) -> InstanceData {
    InstanceData::new([f(0.0); 16], tag)
}

fn slices() -> Vec<MeshSlice> {
    vec![
        MeshSlice { vertex_offset: 0, lods: lods(&[0.0, 0.01, 0.1]) },
        MeshSlice { vertex_offset: 100, lods: lods(&[0.0]) },
    ]
}

/// One pixel at a distance, with a thousand pixels to the unit: what an instance
/// with a half unit radius may be off by.
fn budget(z: f32) -> F32 {
    f((z - 0.5) / 1000.0)
}

#[test]
fn runs_split_by_mesh_and_lod() {
    let slices = slices();
    // Mesh 0 at 5 (LOD0: budget 0.0045), 20 and 30 (LOD1), 500 (LOD2); mesh 1
    // far away (its only LOD); mesh 7 doesn't exist.
    let at = [(0, 500.0), (0, 20.0), (1, 900.0), (0, 5.0), (7, 5.0), (0, 30.0)];
    let items: Vec<(MeshId, InstanceData)> =
        at.iter().map(|&(m, z)| (MeshId(m), instance(z as u32))).collect();
    let budgets: Vec<F32> = at.iter().map(|&(_, z)| budget(z)).collect();
    let mut b = Runs::new();
    let mut runs = Vec::new();
    let st = b.build(&slices, &items, Some(&budgets), &mut runs, 10);
    let got: Vec<(u32, u32, i32, u32, u32)> = runs
        .iter()
        .map(|r| {
            (
                r.first_index,
                r.index_count,
                r.vertex_offset,
                r.run_start,
                r.run_len,
            )
        })
        .collect();
    assert_eq!(
        got,
        vec![
            (0, 300, 0, 10, 1),   // mesh 0 LOD0
            (300, 150, 0, 11, 2), // mesh 0 LOD1 x2
            (600, 75, 0, 13, 1),  // mesh 0 LOD2
            (0, 300, 100, 14, 1), // mesh 1 LOD0
        ]
    );
    assert_eq!(st.instances, 5, "the unknown mesh is dropped");
    assert_eq!(b.scratch.len(), 5);
    assert_eq!(st.tris, 100 + 2 * 50 + 25 + 100);
    assert_eq!(&st.lods[..3], &[2, 2, 1]);
    assert_eq!(b.scratch[0].material_id, 5);

    // No budgets: everything at LOD0.
    let mut b = Runs::new();
    let mut runs = Vec::new();
    let st = b.build(&slices, &items, None, &mut runs, 0);
    assert_eq!(st.lods[0], 5);
    assert_eq!(runs.len(), 2);
}

fn light(n: u32) -> GpuLight {
    let v = Vec4 { x: F32 { bits: n }, y: f(0.0), z: f(0.0), w: f(1.0) };
    GpuLight { pos_radius: v, radiance_source: v }
}

#[test]
fn frames_put_views_behind_each_other() {
    let slices = slices();
    let one = |m: u32, n: usize| -> Vec<(MeshId, InstanceData)> {
        (0..n).map(|i| (MeshId(m), instance(i as u32))).collect()
    };
    let main = one(0, 3);
    let shadows = vec![one(1, 2), vec![], one(0, 1), one(1, 1), one(1, 50)];
    let budgets = vec![None, None, Some(vec![f(1.0)]), None, None];
    let lights: Vec<GpuLight> = (0..200).map(light).collect();
    let mut d = FrameDraws::new(100);
    let dropped = d.prepare_frame(&slices, &main, None, &shadows, &budgets, &lights);
    assert_eq!(dropped, Some(200));
    assert_eq!(d.lights.len(), MAX_LIGHTS);
    assert_eq!(d.lights[127], light(127));
    assert_eq!(d.runs.scratch.len(), 7, "a fifth shadow map does not exist");
    assert_eq!(d.main_runs.len(), 1);
    assert_eq!((d.main_runs[0].run_start, d.main_runs[0].run_len), (0, 3));
    assert_eq!(d.shadow_runs.len(), 4);
    assert_eq!(d.shadow_runs[0][0].run_start, 3);
    assert!(d.shadow_runs[1].is_empty());
    assert_eq!((d.shadow_runs[2][0].run_start, d.shadow_runs[2][0].index_count), (5, 75));
    assert_eq!(d.shadow_runs[3][0].run_start, 6);
    assert_eq!(d.stats.main_tris, 300);
    assert_eq!(d.stats.shadow_tris, 100 * 3 + 25);
    assert_eq!((d.stats.main_lods[0], d.stats.shadow_lods[0], d.stats.shadow_lods[2]), (3, 3, 1));

    // A buffer with room for four: what ends past it is not drawn.
    let mut d = FrameDraws::new(4);
    let none = d.prepare_frame(&slices, &main, None, &shadows, &budgets, &vec![light(1)]);
    assert_eq!(none, None);
    assert_eq!(d.runs.scratch.len(), 4);
    assert_eq!(d.main_runs.len(), 1);
    assert!(d.shadow_runs.iter().all(|r| r.is_empty()));
}

fn mesh(n: u32, indices: usize) -> MeshData {
    MeshData {
        vertices: vec![Vertex::default(); n as usize],
        indices: (0..indices as u32).map(|i| i % n).collect(),
        material: Material::default(),
    }
}

#[test]
fn meshes_share_their_buffers() {
    let lod = |n: u32, error: f32| Lod { error: f(error), indices: vec![n; 3] };
    let baked = BakedMesh {
        vertices: vec![Vertex::default(); 7],
        lods: (0..20).map(|i| lod(i % 7, i as f32)).collect(),
    };
    let meshes = vec![mesh(3, 3), mesh(9, 900), mesh(4, 6)];
    let m = merge_meshes(&meshes, &vec![None, Some(baked), None]);
    assert_eq!(m.vertices.len(), 3 + 7 + 4);
    assert_eq!(m.indices.len(), 3 + 16 * 3 + 6, "sixteen levels are kept");
    assert_eq!(m.slices[1].vertex_offset, 3);
    assert_eq!(m.slices[2].vertex_offset, 10);
    assert_eq!(m.slices[1].lods.len(), 16);
    let l = m.slices[1].lods[2];
    assert_eq!((l.first_index, l.index_count, l.error), (9, 3, f(2.0)));
    assert_eq!(&m.indices[9..12], &[2, 2, 2]);
    assert_eq!(m.slices[2].lods[0].first_index, 51);
    assert_eq!((m.baked, m.would_gain), (1, 0));
    assert_eq!(m.ids, [MeshId(0), MeshId(1), MeshId(2)]);
    let m = merge_meshes(&vec![mesh(9, 768), mesh(9, 765)], &vec![None, None]);
    assert_eq!((m.baked, m.would_gain), (0, 1));
}

/// The cluster grid and the light limit that the shaders declare.
#[test]
fn shader_cluster_constants_match() {
    let consts = [
        ("CLUSTER_X", CLUSTER_X),
        ("CLUSTER_Y", CLUSTER_Y),
        ("CLUSTER_Z", CLUSTER_Z),
        ("MAX_LIGHTS", MAX_LIGHTS),
    ];
    let declared = [
        "const uint CLUSTER_X = 16;",
        "const uint CLUSTER_Y = 9;",
        "const uint CLUSTER_Z = 24;",
        "const uint MAX_LIGHTS = 128;",
    ];
    for ((c, v), d) in consts.into_iter().zip(declared) {
        assert_eq!(format!("const uint {c} = {v};"), d);
    }
    assert_eq!(format!("local_size_x = {CLUSTER_GROUP}"), "local_size_x = 64");
    assert_eq!(CLUSTER_COUNT, CLUSTER_X * CLUSTER_Y * CLUSTER_Z);
    assert_eq!(cluster_groups(), 54);
}

#[test]
fn nothing_is_counted_before_the_first_frame() {
    let d = FrameDraws::new(4);
    assert_eq!((d.stats.main_tris, d.stats.shadow_tris), (0, 0));
    assert_eq!((d.stats.main_lods, d.stats.shadow_lods), ([0; 16], [0; 16]));
}
