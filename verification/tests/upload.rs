use feather::bake::{bc7_level_size, BakedTexture, TexKind, Vertex};
use feather::draws::MeshId;
use feather::extract::{extract, known_mesh, Seen};
use feather::float::{Vec2, Vec3, F32};
use feather::layout::{
    instances_to_bytes, lights_to_bytes, materials_to_bytes, mesh_bindings, pool_size,
    vertex_attributes, Resource, VERTEX_STRIDE,
};
use feather::level::{
    material_table, rebase_material, spawn, LevelNode, MESH_BUILTIN_COUNT, PALETTE,
};
use feather::mesh::{Material, MeshData, Vec4};
use feather::runs::{GpuLight, InstanceData};
use feather::slots::{gpu_materials, GpuMaterial};
use feather::texture::TextureData;
use feather::uploads::{baked_bytes, choose_upload, Upload};

fn f(x: f32) -> F32 {
    F32 { bits: x.to_bits() }
}

fn png() -> TextureData {
    let mut out = Vec::new();
    image::RgbImage::from_pixel(8, 4, image::Rgb([9, 8, 7]))
        .write_to(&mut std::io::Cursor::new(&mut out), image::ImageFormat::Png)
        .unwrap();
    TextureData::from_encoded(out).unwrap()
}

fn baked(kind: TexKind, width: u32, height: u32) -> BakedTexture {
    BakedTexture {
        kind,
        width,
        height,
        levels: (0..4)
            .map(|l| vec![l as u8; bc7_level_size(width, height, l)])
            .collect(),
    }
}

#[test]
fn baked_textures_are_never_decoded() {
    let b = baked(TexKind::Color, 8, 4);
    let file = b.write();
    let mut t = png();
    let up = choose_upload(&mut t, TexKind::Color, true, Some(&file));
    assert_eq!(baked_bytes(&b), 32 + 16 + 16 + 16);
    assert_eq!(up, Upload::Baked(b));
    assert!(!t.is_decoded());
}

#[test]
fn other_bakes_are_not_used() {
    let right = baked(TexKind::Color, 8, 4).write();
    let other_kind = baked(TexKind::Data, 8, 4).write();
    let other_size = baked(TexKind::Color, 4, 8).write();
    let damaged = right[..right.len() - 1].to_vec();
    for (bc, file) in [
        (false, Some(&right)),
        (true, Some(&other_kind)),
        (true, Some(&other_size)),
        (true, Some(&damaged)),
        (true, None),
    ] {
        let mut t = png();
        assert_eq!(choose_upload(&mut t, TexKind::Color, bc, file), Upload::Pixels);
        assert!(t.is_decoded());
        assert_eq!(t.pixels().unwrap()[..4], [9, 8, 7, 255]);
    }
}

#[test]
fn undecodable_images_are_white() {
    let mut whole = png().encoded;
    whole.truncate(40);
    // The header is there, the pixels are not.
    let mut t = TextureData::of_size(whole, Some((8, 4))).unwrap();
    assert_eq!(choose_upload(&mut t, TexKind::Data, true, None), Upload::White);
    assert_eq!(t.pixels(), None);
    // A size other than the header's is as good as none.
    let mut t = TextureData::of_size(png().encoded, Some((4, 4))).unwrap();
    assert_eq!(choose_upload(&mut t, TexKind::Data, true, None), Upload::White);
}

#[test]
fn materials_keep_their_slots() {
    let m = [
        Material::default(),
        Material { roughness: f(0.25), ..Material::default() },
    ];
    let t = gpu_materials(&m.to_vec(), &vec![(0, 1, 0), (2, 3, 4)]);
    assert_eq!(t.len(), 2);
    assert_eq!(t[1], GpuMaterial::from_material(&m[1], (2, 3, 4)));
    assert_eq!((t[1].tex, t[1].params.x), ((2, 3, 4, 0), f(0.25)));
}

fn mesh(roughness: f32) -> MeshData {
    MeshData {
        vertices: vec![Vertex::default(); 3],
        indices: vec![0, 1, 2],
        material: Material { roughness: f(roughness), ..Material::default() },
    }
}

#[test]
fn meshes_are_drawn_with_their_own_material() {
    let palette = vec![Material::default(); PALETTE as usize];
    let meshes: Vec<MeshData> = (0..5).map(|i| mesh(i as f32)).collect();
    let (g, b) = (mesh(8.0).material, mesh(9.0).material);
    let t = material_table(palette, &meshes, g, b);
    assert_eq!(t.materials.len(), 24 + 5 + 2);
    assert_eq!((t.ground, t.boxes), (29, 30));
    assert_eq!((t.materials[29], t.materials[30]), (g, b));
    let node = LevelNode {
        scene: 0,
        visit: None,
        mesh: Some(MESH_BUILTIN_COUNT as usize + 1),
        prefab: None,
    };
    let s = spawn(&node).unwrap();
    assert_eq!(t.materials[s.material as usize], meshes[4].material);
}

#[test]
fn textures_are_counted_on_from_the_scenes_before() {
    let m = Material {
        base_color_texture: Some(0),
        metallic_roughness_texture: Some(2),
        ..Material::default()
    };
    let r = rebase_material(&m, 10);
    assert_eq!(r.base_color_texture, Some(10));
    assert_eq!(r.normal_texture, None);
    assert_eq!(r.metallic_roughness_texture, Some(12));
    assert_eq!(r.roughness, m.roughness);
}

fn seen(id: u32, camera: bool, cascades: [bool; 4], no_shadow: bool) -> Seen {
    Seen {
        mesh: MeshId(id),
        instance: InstanceData::new([f(0.0); 16], id),
        camera,
        cascades,
        no_shadow,
    }
}

fn ids(items: &[(MeshId, InstanceData)]) -> Vec<u32> {
    items.iter().map(|(_, i)| i.material_id).collect()
}

#[test]
fn views_draw_what_they_see() {
    let all = vec![
        seen(1, true, [true, true, false, false], false),
        seen(2, false, [false, false, false, true], false),
        seen(3, true, [true; 4], true),
        seen(4, false, [false; 4], false),
    ];
    let e = extract(&all, true);
    assert_eq!(ids(&e.main), [1, 3]);
    let shadows: Vec<Vec<u32>> = e.shadows.iter().map(|s| ids(s)).collect();
    assert_eq!(shadows, [vec![1], vec![1], vec![], vec![2]]);
    // Without shadows nothing casts one.
    let e = extract(&all, false);
    assert_eq!(ids(&e.main), [1, 3]);
    assert!(e.shadows.len() == 4 && e.shadows.iter().all(|s| s.is_empty()));
}

#[test]
fn unknown_meshes_are_drawn_as_the_last() {
    assert_eq!(known_mesh(2, 5), 2);
    assert_eq!(known_mesh(9, 5), 4);
    assert_eq!(known_mesh(9, 0), 0);
}

#[test]
fn vertices_are_laid_out_as_the_device_reads_them() {
    let v = Vertex {
        pos: Vec3 { x: f(1.0), y: f(2.0), z: f(3.0) },
        normal: Vec3 { x: f(4.0), y: f(5.0), z: f(6.0) },
        uv: Vec2 { x: f(7.0), y: f(8.0) },
    };
    let bytes = feather::bake::vertices_to_bytes(&vec![Vertex::default(), v]);
    assert_eq!(bytes.len(), 2 * VERTEX_STRIDE as usize);
    let mut numbers = Vec::new();
    for a in vertex_attributes() {
        for j in 0..a.numbers {
            let at = (VERTEX_STRIDE + a.offset + 4 * j) as usize;
            let word: [u8; 4] = bytes[at..at + 4].try_into().unwrap();
            numbers.push(f32::from_le_bytes(word));
        }
    }
    assert_eq!(numbers, [1.0, 2.0, 3.0, 4.0, 5.0, 6.0, 7.0, 8.0]);
}

#[test]
fn pools_hold_one_set_per_frame() {
    let b = mesh_bindings(10);
    assert_eq!(b.len(), 7);
    assert!(b[0].vertex && !b[0].fragment && b[6].compute && b[6].fragment);
    assert_eq!((b[2].resource, b[2].count), (Resource::Texture, 10));
    assert_eq!(pool_size(&b, Resource::Storage), 8);
    assert_eq!(pool_size(&b, Resource::Texture), 22);
    assert_eq!(pool_size(&b, Resource::Uniform), 2);
}

#[test]
fn records_are_laid_out_as_the_device_reads_them() {
    let model: [F32; 16] = std::array::from_fn(|i| F32 { bits: i as u32 });
    let all = vec![
        InstanceData::new([f(0.0); 16], 0x0102_0304),
        InstanceData::new(model, 7),
    ];
    let bytes = instances_to_bytes(&all);
    assert_eq!(bytes.len(), 160);
    assert_eq!(&bytes[64..68], &[4, 3, 2, 1]);
    assert_eq!(&bytes[80 + 60..80 + 80], &[15, 0, 0, 0, 7, 0, 0, 0, 0, 0, 0, 0, 0, 0, 0, 0, 0, 0, 0, 0]);
    let m = GpuMaterial::from_material(&Material::default(), (5, 6, 7));
    let bytes = materials_to_bytes(&vec![m, m]);
    assert_eq!(bytes.len(), 128);
    assert_eq!(&bytes[64 + 48..64 + 64], &[5, 0, 0, 0, 6, 0, 0, 0, 7, 0, 0, 0, 0, 0, 0, 0]);
    assert_eq!(&bytes[32..36], &1.0f32.to_le_bytes());
    let v = Vec4 { x: f(1.0), y: f(2.0), z: f(3.0), w: f(4.0) };
    let w = Vec4 { x: f(5.0), y: f(6.0), z: f(7.0), w: f(8.0) };
    let bytes = lights_to_bytes(&vec![GpuLight { pos_radius: v, radiance_source: w }]);
    assert_eq!(bytes.len(), 32);
    assert_eq!(&bytes[28..], &8.0f32.to_le_bytes());
}
