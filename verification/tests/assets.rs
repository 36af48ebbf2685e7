use feather::bake::{
    baked_mesh_path, baked_path, bc7_level_size, mesh_key, mip_dim, texture_key, BakeError,
    BakedMesh, BakedTexture, Lod, TexKind, Vertex,
};
use feather::float::{Vec2, Vec3, F32};
use feather::images::{encoded_image, Encoded, ImageCache, ImageSource};
use feather::jpeg::can_decode;
use feather::json::parse_json;
use feather::level::{
    merge_scenes, player_start, spawn, unknown_prefabs, ColliderShape, LevelNode, LoadedScene,
};
use feather::material::{material_images, read_material, MaterialSource};
use feather::mesh::{
    cube_indices, normal_triangles, primitive_mesh, uv_sphere_indices, Material, MeshData, Vec4,
};
use feather::prefab::{read_prefab, PrefabError, PrefabSpec};
use feather::scene::{
    load_gltf_scene, node_label, place_scene, read_prefabs, with_geometry, Document, Node,
    Primitive, SceneData, SceneError,
};
use feather::texture::TextureData;

fn f(x: f32) -> F32 {
    F32 { bits: x.to_bits() }
}

fn v3(x: f32, y: f32, z: f32) -> Vec3 {
    Vec3 { x: f(x), y: f(y), z: f(z) }
}

fn tex(fill: u8) -> TextureData {
    TextureData::from_rgba8(vec![fill; 8 * 8 * 4], 8, 8)
}

#[test]
fn keys_are_content_and_kind_addressed() {
    let k = |t: &TextureData, kind| texture_key(t, kind);
    assert_eq!(k(&tex(1), TexKind::Color), k(&tex(1), TexKind::Color));
    assert_ne!(k(&tex(1), TexKind::Color), k(&tex(2), TexKind::Color));
    // Same image, different use: different bakes.
    assert_ne!(k(&tex(1), TexKind::Color), k(&tex(1), TexKind::Data));
    // Keyed on the source, not on decoding: two textures with the same encoded
    // bytes share a key without either being decoded.
    let png = |c: u8| {
        let mut out = Vec::new();
        image::RgbImage::from_pixel(2, 2, image::Rgb([c, 0, 0]))
            .write_to(&mut std::io::Cursor::new(&mut out), image::ImageFormat::Png)
            .unwrap();
        TextureData::from_encoded(out).unwrap()
    };
    let (a, b) = (png(7), png(7));
    assert_eq!(k(&a, TexKind::Data), k(&b, TexKind::Data));
    assert_ne!(k(&a, TexKind::Data), k(&png(8), TexKind::Data));
    assert!(!a.is_decoded() && !b.is_decoded());
}

#[test]
fn bc7_level_sizes_round_partial_blocks_up() {
    assert_eq!(bc7_level_size(2048, 2048, 0), 2048 * 2048); // 1 byte/pixel
    assert_eq!(bc7_level_size(8, 8, 1), 16); // 4x4: one block
    assert_eq!(bc7_level_size(8, 8, 3), 16); // 1x1 still costs a block
    assert_eq!(bc7_level_size(6, 2, 0), 32); // 2 blocks by 1
    assert_eq!(bc7_level_size(65536, 65536, 0), 4_294_967_296);
}

#[test]
fn mip_sides_never_vanish() {
    assert_eq!(mip_dim(8, 0), 8);
    assert_eq!(mip_dim(8, 2), 2);
    assert_eq!(mip_dim(8, 9), 1);
    assert_eq!(mip_dim(5, 1), 2);
    assert_eq!(mip_dim(u32::MAX, 40), 1);
}

fn mesh() -> BakedMesh {
    let v = |x: f32| Vertex {
        pos: v3(x, 0.0, 1.0),
        normal: v3(0.0, 1.0, 0.0),
        uv: Vec2 { x: f(x), y: f(0.5) },
    };
    BakedMesh {
        vertices: (0..4).map(|i| v(i as f32)).collect(),
        lods: vec![
            Lod { error: f(0.0), indices: vec![0, 1, 2, 0, 2, 3] },
            Lod { error: f(0.25), indices: vec![0, 1, 3] },
        ],
    }
}

#[test]
fn mesh_keys_ignore_material_but_not_geometry() {
    let m = mesh();
    let data = |indices: Vec<u32>| MeshData {
        vertices: m.vertices.clone(),
        indices,
        material: Material::default(),
    };
    let a = data(vec![0, 1, 2]);
    let mut b = data(vec![0, 1, 2]);
    b.material.roughness = f(0.1);
    assert_eq!(mesh_key(&a), mesh_key(&b));
    assert_ne!(mesh_key(&a), mesh_key(&data(vec![0, 2, 1])));
}

#[test]
fn baked_meshes_round_trip_and_reject_damage() {
    let bytes = mesh().write();
    assert_eq!(BakedMesh::read(&bytes).unwrap(), mesh());

    assert_eq!(
        BakedMesh::read(&bytes[..bytes.len() - 1]).unwrap_err(),
        BakeError::Truncated
    );
    let mut extra = bytes.clone();
    extra.push(0);
    assert_eq!(BakedMesh::read(&extra).unwrap_err(), BakeError::TrailingBytes);
    let mut magic = bytes.clone();
    magic[0] = b'X';
    assert_eq!(BakedMesh::read(&magic).unwrap_err(), BakeError::NotAMesh);
    let mut version = bytes.clone();
    version[4] = 99;
    assert_eq!(BakedMesh::read(&version).unwrap_err(), BakeError::OtherVersion);

    for (why, damage) in [
        (BakeError::IndexOutOfRange, {
            let mut m = mesh();
            m.lods[1].indices[2] = 4;
            m
        }),
        (BakeError::BadLodError, {
            let mut m = mesh();
            m.lods[1].error = f(-1.0);
            m
        }),
        (BakeError::BadLodError, {
            let mut m = mesh();
            m.lods[1].error = f(f32::NAN);
            m
        }),
        (BakeError::PartialTriangle, {
            let mut m = mesh();
            m.lods[1].indices.pop();
            m
        }),
        (BakeError::NoLods, {
            let mut m = mesh();
            m.lods.clear();
            m
        }),
    ] {
        assert_eq!(BakedMesh::read(&damage.write()).unwrap_err(), why);
    }
}

#[test]
fn baked_files_round_trip_and_reject_damage() {
    let baked = BakedTexture {
        kind: TexKind::Color,
        width: 8,
        height: 4,
        levels: (0..4)
            .map(|l| vec![l as u8; bc7_level_size(8, 4, l)])
            .collect(),
    };
    for kind in [TexKind::Color, TexKind::Data] {
        let b = BakedTexture { kind, ..baked.clone() };
        assert_eq!(BakedTexture::read(&b.write()).unwrap(), b);
    }
    // An unknown kind tag is rejected (it's the u32 after magic + version).
    let mut bytes = baked.write();
    bytes[8] = 9;
    assert_eq!(BakedTexture::read(&bytes).unwrap_err(), BakeError::UnknownKind);
    let mut bytes = baked.write();
    bytes[3] = b'?';
    assert_eq!(BakedTexture::read(&bytes).unwrap_err(), BakeError::NotATexture);

    // A truncated file is rejected, not trusted.
    let bytes = baked.write();
    assert!(BakedTexture::read(&bytes[..bytes.len() - 1]).is_err());
    // So is a level whose size doesn't match its dimensions.
    let wrong = BakedTexture { levels: vec![vec![0; 3]], ..baked };
    assert_eq!(BakedTexture::read(&wrong.write()).unwrap_err(), BakeError::LevelSize);
}

#[test]
fn errors_say_why() {
    assert_eq!(BakeError::Truncated.why(), "truncated");
    assert_eq!(BakeError::NotAMesh.why(), "not a baked mesh");
    assert_eq!(SceneError::NoGeometry.why(), "glTF contained no triangle mesh geometry");
}

#[test]
fn baked_files_are_named_by_key() {
    assert_eq!(baked_path("d", 0x1234), "d/0000000000001234.bc7");
    assert_eq!(baked_mesh_path("d/e/", 0xffff_ffff_ffff_ffff), "d/e/ffffffffffffffff.fbm");
}

#[test]
fn kinds_have_their_tags() {
    for k in [TexKind::Color, TexKind::Data] {
        assert_eq!(TexKind::from_tag(k.tag()), Some(k));
    }
    assert!(TexKind::Color.srgb() && !TexKind::Data.srgb());
    assert_eq!(TexKind::from_tag(7), None);
}

fn spec(id: &str, params: &str) -> PrefabSpec {
    PrefabSpec { id: id.to_string(), params: parse_json(params).unwrap() }
}

fn number(p: &PrefabSpec, key: &str) -> Option<f64> {
    p.number(key).map(|n| f64::from_bits(n.bits))
}

#[test]
fn prefab_params_are_typed_and_forgiving() {
    let spec = spec("x", r#"{ "yaw": 45, "on": false, "c": [1.0, 2.0, 3.0] }"#);
    assert_eq!(number(&spec, "yaw"), Some(45.0));
    assert_eq!(spec.bool("on"), Some(false));
    assert_eq!(
        spec.vec3("c").map(|(x, y, z)| [x, y, z].map(|n| f64::from_bits(n.bits))),
        Some([1.0, 2.0, 3.0])
    );
    // Wrong type or missing key yields None rather than panicking.
    assert_eq!(number(&spec, "on"), None);
    assert!(spec.vec3("yaw").is_none());
    assert_eq!(number(&spec, "nope"), None);
    assert_eq!(spec.str("on"), None);
}

#[test]
fn extras_name_prefabs() {
    let p = read_prefab(Some(r#"{ "prefab": "lamp", "params": { "k": "v" } }"#));
    let p = p.unwrap_or_else(|_| panic!("readable")).expect("named");
    assert_eq!(p.id, "lamp");
    assert_eq!(p.str("k"), Some("v"));
    assert!(matches!(read_prefab(None), Ok(None)));
    assert!(matches!(read_prefab(Some("{}")), Ok(None)));
    assert!(matches!(read_prefab(Some("{")), Err(PrefabError::BadJson)));
    assert!(matches!(
        read_prefab(Some(r#"{ "prefab": 42 }"#)),
        Err(PrefabError::NotAString)
    ));
}

const TRIANGLE: &str = r#"
  "meshes": [ { "primitives": [ { "attributes": { "POSITION": 0 } } ] } ],
  "accessors": [ {
    "bufferView": 0, "componentType": 5126, "count": 3, "type": "VEC3",
    "min": [0, 0, 0], "max": [1, 1, 0]
  } ],
  "bufferViews": [ { "buffer": 0, "byteOffset": 0, "byteLength": 36 } ],
  "buffers": [ { "byteLength": 36, "uri": "tri.bin" } ]
}"#;

/// What placing meshes needs of a glTF file, and the translation of each node.
fn document(gltf: &str) -> (Document, Vec<[f32; 3]>) {
    let doc = gltf::Gltf::from_slice(gltf.as_bytes()).unwrap().document;
    let nodes = doc
        .nodes()
        .map(|n| Node {
            name: n.name().map(|s| s.to_string()),
            children: n.children().map(|c| c.index()).collect(),
            mesh: n.mesh().map(|m| m.index()),
            extras: n.extras().as_ref().map(|e| e.get().to_string()),
        })
        .collect();
    let meshes = doc
        .meshes()
        .map(|m| {
            m.primitives()
                .map(|p| Primitive {
                    triangles: p.mode() == gltf::mesh::Mode::Triangles,
                    positions: p.get(&gltf::Semantic::Positions).is_some(),
                })
                .collect()
        })
        .collect();
    let scenes = doc
        .scenes()
        .map(|s| s.nodes().map(|n| n.index()).collect())
        .collect();
    let default_scene = doc.default_scene().map(|s| s.index());
    let moves = doc.nodes().map(|n| n.transform().decomposed().0).collect();
    (Document { nodes, meshes, scenes, default_scene }, moves)
}

/// Where a placement's origin is, with translations added up along its visits.
fn origin(scene: &SceneData, moves: &[[f32; 3]], visit: Option<usize>) -> [f32; 3] {
    let mut at = visit;
    let mut sum = [0.0; 3];
    while let Some(i) = at {
        let v = scene.visits[i];
        for k in 0..3 {
            sum[k] += moves[v.node][k];
        }
        at = v.parent;
    }
    sum
}

fn fixture() -> String {
    format!(
        "{}{}",
        r#"{
  "asset": { "version": "2.0" },
  "scene": 0,
  "scenes": [ { "nodes": [0, 1] } ],
  "nodes": [
    { "mesh": 0, "translation": [1, 0, 0] },
    { "mesh": 0, "translation": [0, 2, 0], "children": [2] },
    { "mesh": 0, "translation": [0, 0, 3] }
  ],"#,
        TRIANGLE
    )
}

#[test]
fn scene_dedups_meshes_and_accumulates_transforms() {
    let (doc, moves) = document(&fixture());
    let scene = load_gltf_scene(&doc).unwrap_or_else(|e| panic!("{}", e.why()));

    // Three nodes reference ONE primitive: it must be stored once and placed
    // three times, which is what lets the renderer instance it.
    assert_eq!(scene.meshes.len(), 1, "primitive should be deduplicated");
    assert_eq!(scene.nodes.len(), 3, "one placement per referencing node");
    assert!(scene.nodes.iter().all(|n| n.mesh == Some(0)));

    let origins: Vec<[f32; 3]> = scene
        .nodes
        .iter()
        .map(|n| origin(&scene, &moves, n.visit))
        .collect();
    assert!(origins.contains(&[1.0, 0.0, 0.0]));
    assert!(origins.contains(&[0.0, 2.0, 0.0]));
    // The child's transform is its parent's composed with its own.
    assert!(
        origins.contains(&[0.0, 2.0, 3.0]),
        "child should inherit the parent transform, got {origins:?}"
    );
}

#[test]
fn scene_meshes_stay_in_local_space() {
    let positions = vec![v3(0.0, 0.0, 0.0), v3(1.0, 0.0, 0.0), v3(0.0, 1.0, 0.0)];
    let m = primitive_mesh(&positions, None, &vec![], &None, Material::default());
    // Geometry must NOT have node transforms baked in.
    let verts: Vec<Vec3> = m.vertices.iter().map(|v| v.pos).collect();
    assert_eq!(verts, positions);
    // Indices are generated when the primitive ships none.
    assert_eq!(m.indices, vec![0, 1, 2]);
    assert_eq!(m.vertices[2].normal, v3(0.0, 1.0, 0.0));
    assert_eq!(m.vertices[2].uv, Vec2 { x: f(0.0), y: f(0.0) });
}

#[test]
fn extras_become_prefabs_and_markers() {
    let gltf = format!(
        "{}{}",
        r#"{
  "asset": { "version": "2.0" },
  "scene": 0,
  "scenes": [ { "nodes": [0, 1, 2, 3, 4] } ],
  "nodes": [
    { "mesh": 0, "translation": [1, 0, 0],
      "extras": { "prefab": "no_collide", "params": { "flag": true } } },
    { "translation": [5, 6, 7],
      "extras": { "prefab": "player_start", "params": { "yaw": 90.0 } } },
    { "mesh": 0, "translation": [2, 0, 0] },
    { "mesh": 0, "translation": [3, 0, 0], "extras": { "prefab": 42 } },
    { "translation": [9, 9, 9] }
  ],"#,
        TRIANGLE
    );
    let (doc, moves) = document(&gltf);
    let scene = load_gltf_scene(&doc).unwrap_or_else(|e| panic!("{}", e.why()));

    // 3 mesh nodes + 1 marker. The plain mesh-less node emits nothing.
    assert_eq!(scene.nodes.len(), 4, "got {:?}", scene.nodes.len());

    let marker = scene
        .nodes
        .iter()
        .find(|n| n.mesh.is_none())
        .expect("mesh-less marker should be emitted");
    let spec = marker.prefab.as_ref().expect("marker carries a prefab");
    assert_eq!(spec.id, "player_start");
    assert_eq!(number(spec, "yaw"), Some(90.0));
    assert_eq!(origin(&scene, &moves, marker.visit), [5.0, 6.0, 7.0]);

    let tagged = scene
        .nodes
        .iter()
        .find(|n| n.prefab.as_ref().is_some_and(|p| p.id == "no_collide"))
        .expect("mesh node keeps its prefab");
    assert_eq!(tagged.mesh, Some(0));
    assert_eq!(tagged.prefab.as_ref().unwrap().bool("flag"), Some(true));

    // The malformed one (prefab: 42) is dropped, not fatal.
    let plain = scene
        .nodes
        .iter()
        .filter(|n| n.mesh.is_some() && n.prefab.is_none())
        .count();
    assert_eq!(plain, 2, "malformed extras should be ignored, not fatal");
    let (_, complaints) = read_prefabs(&doc);
    assert_eq!(complaints[3], Some(PrefabError::NotAString));
    assert_eq!(complaints[0], None);
}

#[test]
fn a_scene_needs_triangles() {
    let (mut doc, _) = document(&fixture());
    doc.meshes[0][0].triangles = false;
    assert!(matches!(load_gltf_scene(&doc), Err(SceneError::NoGeometry)));
    // Its nodes are visited all the same.
    doc.nodes.iter_mut().for_each(|n| n.extras = None);
    let placed = place_scene(&doc, &read_prefabs(&doc).0);
    assert!(placed.nodes.is_empty() && !placed.visits.is_empty());
    assert!(matches!(with_geometry(placed), Err(SceneError::NoGeometry)));
    // Without a scene every mesh is placed at the origin.
    let (mut doc, _) = document(&fixture());
    doc.scenes.clear();
    doc.default_scene = None;
    let scene = load_gltf_scene(&doc).unwrap_or_else(|e| panic!("{}", e.why()));
    assert_eq!(scene.nodes.len(), 1);
    assert_eq!(scene.nodes[0].visit, None);
}

#[test]
fn nodes_are_labelled() {
    assert_eq!(node_label(Some("tree"), 7), "tree (#7)");
    assert_eq!(node_label(None, 12), "#12");
}

const RED: &str = "iVBORw0KGgoAAAANSUhEUgAAAAEAAAABCAYAAAAfFcSJAAAADUlEQVR4nGP4z8DwHwAFAAH/iZk9HQAAAABJRU5ErkJggg==";
const BLUE: &str = "iVBORw0KGgoAAAANSUhEUgAAAAEAAAABCAYAAAAfFcSJAAAADUlEQVR4nGNgYPj/HwADAgH/5ncLrgAAAABJRU5ErkJggg==";

fn data_uri(base64: &str) -> ImageSource {
    ImageSource::Uri(format!("data:image/png;base64,{base64}"))
}

#[test]
fn materials_sharing_an_image_share_one_conversion() {
    // Materials 0 and 1 use two glTF textures that both sample image 0;
    // material 2 uses image 1. Each image must be converted once and shared.
    let sources = [data_uri(RED), data_uri(BLUE)];
    let texture_images = [0usize, 0, 1];
    let mut images = ImageCache::new();
    let materials: Vec<Material> = (0..3)
        .map(|m| {
            let one = f(1.0);
            let source = MaterialSource {
                base_color: Vec4 { x: one, y: one, z: one, w: one },
                metallic: one,
                roughness: one,
                emissive: v3(0.0, 0.0, 0.0),
                base_color_image: Some(texture_images[m]),
                metallic_roughness_image: None,
                normal: None,
            };
            for i in material_images(&source) {
                if images.get(i).is_none() {
                    let tex = match encoded_image(&sources[i], &vec![]) {
                        Encoded::Bytes(b) => TextureData::from_encoded(b),
                        _ => None,
                    };
                    images.insert(i, tex);
                }
            }
            read_material(&source, &images)
        })
        .collect();
    let tex: Vec<usize> = materials
        .iter()
        .map(|m| m.base_color_texture.expect("textured"))
        .collect();
    assert_eq!(tex.len(), 3);
    assert_eq!(tex[0], tex[1], "one image, one conversion");
    assert_ne!(tex[0], tex[2], "distinct images stay distinct");
    // Nothing decodes until asked.
    assert!(images.textures.iter().all(|t| !t.is_decoded()));
    assert_eq!((images.textures[0].width, images.textures[0].height), (1, 1));
    // 1x1 RGB PNGs, expanded to opaque RGBA as before.
    assert_eq!(images.textures[tex[0]].pixels(), Some(&vec![255, 0, 0, 255]));
    assert_eq!(images.textures[tex[2]].pixels(), Some(&vec![0, 0, 255, 255]));
    assert!(images.textures[tex[0]].is_decoded() && !images.textures[tex[2]].encoded.is_empty());
    assert_ne!(images.textures[tex[0]].source_key, images.textures[tex[2]].source_key);
}

#[test]
fn images_are_found_in_buffers_addresses_and_files() {
    let buffers = vec![vec![1u8, 2, 3, 4, 5]];
    let view = |buffer, offset, length| ImageSource::View { buffer, offset, length };
    match encoded_image(&view(0, 1, 3), &buffers) {
        Encoded::Bytes(b) => assert_eq!(b, [2, 3, 4]),
        _ => panic!("in the buffer"),
    }
    assert!(matches!(encoded_image(&view(0, 3, 3), &buffers), Encoded::Missing));
    assert!(matches!(encoded_image(&view(1, 0, 1), &buffers), Encoded::Missing));
    match encoded_image(&ImageSource::Uri("my%20image.png".to_string()), &buffers) {
        Encoded::File(n) => assert_eq!(n, "my image.png"),
        _ => panic!("in a file"),
    }
    match encoded_image(&ImageSource::Uri("data:x;base64,AQID".to_string()), &buffers) {
        Encoded::Bytes(b) => assert_eq!(b, [1, 2, 3]),
        _ => panic!("in the address"),
    }
    let bad = ImageSource::Uri("data:x;base64,!".to_string());
    assert!(matches!(encoded_image(&bad, &buffers), Encoded::Missing));
}

#[test]
fn unreadable_images_leave_the_factors() {
    assert!(TextureData::from_encoded(vec![1, 2, 3]).is_none());
    let mut images = ImageCache::new();
    assert_eq!(images.insert(4, None), None);
    assert_eq!(images.get(4), Some(None));
    assert_eq!(images.get(5), None);
    let half = f(0.5);
    let source = MaterialSource {
        base_color: Vec4 { x: half, y: half, z: half, w: half },
        metallic: half,
        roughness: half,
        emissive: v3(0.0, 0.0, 0.0),
        base_color_image: Some(4),
        metallic_roughness_image: None,
        normal: Some((4, half)),
    };
    let m = read_material(&source, &images);
    assert_eq!(m.base_color_texture, None);
    assert_eq!((m.normal_texture, m.normal_scale), (None, half));
    assert_eq!(material_images(&source), [4, 4]);
}

fn node(mesh: Option<usize>, prefab: Option<PrefabSpec>) -> LevelNode {
    LevelNode { scene: 0, visit: None, mesh, prefab }
}

#[test]
fn collide_param_controls_whether_a_collider_is_built() {
    // Default (no prefab): geometry collides.
    let s = spawn(&node(Some(0), None)).unwrap();
    assert!(s.collide && s.mesh == Some(0));
    assert_eq!(s.material, 24);
    // collide: false skips the collider, and it must still render.
    let s = spawn(&node(Some(0), Some(spec("prop", r#"{ "collide": false }"#)))).unwrap();
    assert!(!s.collide);
    assert_eq!(s.mesh, Some(0));
}

#[test]
fn shadow_param_controls_the_no_cast_marker() {
    let s = spawn(&node(Some(0), Some(spec("prop", r#"{ "shadow": false }"#)))).unwrap();
    // Independent of collision: this one still collides.
    assert!(s.no_shadow && s.collide);
    // Absent param defaults to casting.
    let s = spawn(&node(Some(0), Some(spec("prop", "{}")))).unwrap();
    assert!(!s.no_shadow);
}

#[test]
fn unknown_prefab_falls_back_to_static_geometry() {
    let n = node(Some(0), Some(spec("trigger", r#"{ "radius": 8.0 }"#)));
    let s = spawn(&n).unwrap();
    assert!(s.mesh == Some(0) && s.collide && !s.no_shadow && s.light.is_none());
    let nodes = vec![
        n,
        node(Some(1), Some(spec("prop", "{}"))),
        node(Some(2), Some(spec("trigger", "{}"))),
        node(None, Some(spec("portal", "{}"))),
        node(None, Some(spec("player_start", "{}"))),
    ];
    assert_eq!(unknown_prefabs(&nodes), ["trigger", "portal"]);
    assert!(spawn(&nodes[4]).is_none());
}

#[test]
fn player_start_marker_places_the_player() {
    let marker = node(None, Some(spec("player_start", r#"{ "yaw": 180.0 }"#)));
    let nodes = vec![node(Some(0), None), marker];
    let (at, yaw) = player_start(&nodes).unwrap();
    assert_eq!(at, 1);
    assert_eq!(yaw.map(|y| f64::from_bits(y.bits)), Some(180.0));
    // No marker: the default start.
    assert!(player_start(&vec![]).is_none());
    // A marker without a yaw keeps the default facing.
    let nodes = vec![node(None, Some(spec("player_start", "{}")))];
    let (_, yaw) = player_start(&nodes).unwrap();
    assert!(yaw.is_none());
}

#[test]
fn point_light_prefab_reads_params_with_defaults() {
    let light = |params: &str| {
        let s = spawn(&node(Some(0), Some(spec("point_light", params)))).unwrap();
        s.light.unwrap()
    };
    let num = |n: feather::json::F64| f64::from_bits(n.bits);
    let l = light(r#"{ "color": [1.0, 0.5, 0.25], "intensity": 7.5, "radius": 3.0 }"#);
    assert_eq!(
        (num(l.color.0), num(l.color.1), num(l.color.2)),
        (1.0, 0.5, 0.25)
    );
    assert_eq!(num(l.intensity), 7.5);
    assert_eq!(num(l.radius), 3.0);
    assert_eq!(num(l.source_radius), 0.1);

    // source_radius: read when given, clamped to [0, radius].
    for (given, want) in [(0.4, 0.4), (0.0, 0.0), (-1.0, 0.0), (9.0, 3.0)] {
        let l = light(&format!("{{ \"radius\": 3.0, \"source_radius\": {given:?} }}"));
        assert_eq!(num(l.source_radius), want, "source_radius {given}");
    }

    // The geometry switches behave as they do on `prop`.
    let dark = spec("point_light", r#"{ "shadow": false, "collide": false }"#);
    let s = spawn(&node(Some(0), Some(dark))).unwrap();
    assert!(s.no_shadow && !s.collide && s.light.is_some());
    let plain = spawn(&node(Some(0), Some(spec("point_light", "{}")))).unwrap();
    assert!(!plain.no_shadow && plain.collide);

    // A bare prefab still lights something, rather than being a black light.
    let l = light("{}");
    assert_eq!((num(l.color.0), num(l.intensity), num(l.radius)), (1.0, 12.0, 10.0));
    // A marker lights without being there.
    let s = spawn(&node(None, Some(spec("point_light", "{}")))).unwrap();
    assert!(s.light.is_some() && !s.collide && !s.no_shadow && s.material == 0);
}

#[test]
fn scenes_are_merged_behind_the_builtin_meshes() {
    let placed = |mesh| feather::scene::SceneNode { mesh, visit: Some(1), prefab: None };
    let scenes = vec![
        LoadedScene { mesh_count: 2, nodes: vec![placed(Some(1)), placed(None)] },
        LoadedScene { mesh_count: 1, nodes: vec![placed(Some(0))] },
    ];
    let nodes = merge_scenes(&scenes);
    let got: Vec<_> = nodes.iter().map(|n| (n.scene, n.mesh, n.visit)).collect();
    assert_eq!(
        got,
        [(0, Some(4), Some(1)), (0, None, Some(1)), (1, Some(5), Some(1))]
    );
}

#[test]
fn built_in_meshes_are_whole() {
    let s = uv_sphere_indices(16, 24);
    assert_eq!(s.len(), 16 * 24 * 6);
    assert!(s.iter().all(|&i| i < 17 * 25));
    let c = cube_indices();
    assert_eq!(c.len(), 36);
    assert!(c.iter().all(|&i| i < 24));
    assert_eq!(
        normal_triangles(&vec![0, 1, 2, 2, 1, 3, 0, 2, 1, 9], 3),
        [(0, 1, 2), (0, 2, 1)]
    );
}

#[test]
fn textures_are_keyed_by_the_hash_of_their_bytes() {
    let key = |bytes: &[u8]| TextureData::of_size(bytes.to_vec(), Some((1, 1))).unwrap().source_key;
    assert_eq!(key(&[]), 0x2d06_8005_38d3_94c2);
    assert_eq!(key(b"feather"), xxhash_rust::xxh3::xxh3_64(b"feather"));
    assert!(TextureData::of_size(vec![1], None).is_none());
}

#[test]
fn colliders_follow_the_prefab() {
    let shape = |params: &str, tris: usize| {
        spawn(&node(Some(0), Some(spec("prop", params)))).unwrap().shape(tris)
    };
    assert_eq!(shape("{}", 2048), Some(ColliderShape::Mesh));
    assert_eq!(shape("{}", 2049), Some(ColliderShape::Hull));
    assert_eq!(shape(r#"{ "collider": "auto" }"#, 2049), Some(ColliderShape::Hull));
    assert_eq!(shape(r#"{ "collider": "mesh" }"#, 34000), Some(ColliderShape::Mesh));
    assert_eq!(shape(r#"{ "collider": "hull" }"#, 12), Some(ColliderShape::Hull));
    assert_eq!(shape(r#"{ "collider": "box" }"#, 12), Some(ColliderShape::Box));
    assert_eq!(shape(r#"{ "collider": "none" }"#, 12), None);
    assert_eq!(shape(r#"{ "collider": "mesh", "collide": false }"#, 12), None);
    assert_eq!(spawn(&node(Some(0), None)).unwrap().shape(3000), Some(ColliderShape::Hull));
    assert_eq!(spawn(&node(None, Some(spec("prop", "{}")))).unwrap().shape(0), None);
}

#[test]
fn links_lead_somewhere() {
    let doc = |child: usize, mesh: usize, root: usize, scene: usize| Document {
        nodes: vec![
            Node { name: None, children: vec![child], mesh: Some(mesh), extras: None },
            Node { name: None, children: vec![], mesh: None, extras: None },
        ],
        meshes: vec![vec![]],
        scenes: vec![vec![root]],
        default_scene: Some(scene),
    };
    assert!(doc(1, 0, 0, 0).is_linked());
    assert!(!doc(2, 0, 0, 0).is_linked());
    assert!(!doc(1, 1, 0, 0).is_linked());
    assert!(!doc(1, 0, 2, 0).is_linked());
    assert!(!doc(1, 0, 0, 1).is_linked());
}

/// The start of a JPEG file: a frame with these sampling factors, and a scan of
/// some components.
fn jpeg_start(marker: u8, factors: &[u8], scanned: u8) -> Vec<u8> {
    let n = factors.len() as u8;
    let mut b = vec![0xff, 0xd8, 0xff, marker, 0, 8 + 3 * n, 8, 0, 8, 0, 8, n];
    for (i, f) in factors.iter().enumerate() {
        b.extend([i as u8 + 1, *f, 0]);
    }
    b.extend([0xff, 0xda, 0, 6 + 2 * scanned, scanned]);
    b.extend(vec![0; 2 * scanned as usize + 3]);
    b
}

/// A JPEG file of one component, with a first quantizer, a category and some
/// scans.
fn gray_jpeg(marker: u8, side: (u16, u16), quantizer: u8, category: u8, scans: usize) -> Vec<u8> {
    let mut b = vec![0xff, 0xd8, 0xff, 0xdb, 0, 67, 0, quantizer];
    b.extend([1; 63]);
    b.extend([0xff, 0xc4, 0, 20, 0, 1]);
    b.extend([0; 15]);
    b.push(category);
    b.extend([0xff, marker, 0, 11, 8]);
    b.extend(side.1.to_be_bytes());
    b.extend(side.0.to_be_bytes());
    b.extend([1, 1, 0x11, 0]);
    for _ in 0..scans {
        b.extend([0xff, 0xda, 0, 8, 1, 1, 0, 0, 0, 0, 0x55]);
    }
    b.extend([0xff, 0xd9]);
    b
}

#[test]
fn brightness_must_stay_in_an_integer() {
    // 65536 blocks, differences of at most 2047, scaled by 16.
    assert!(can_decode(&gray_jpeg(0xc0, (2048, 2048), 16, 11, 1)));
    assert!(!can_decode(&gray_jpeg(0xc0, (2048, 2048), 17, 11, 1)));
    assert!(!can_decode(&gray_jpeg(0xc1, (2048, 2048), 16, 12, 1)));
    assert!(!can_decode(&gray_jpeg(0xc0, (2049, 2048), 16, 11, 1)));
    assert!(can_decode(&gray_jpeg(0xc0, (4096, 4096), 4, 11, 1)));
    assert!(!can_decode(&gray_jpeg(0xc0, (4096, 4096), 5, 11, 1)));
    let large = gray_jpeg(0xc0, (4096, 4096), 5, 11, 1);
    let mut t = TextureData::of_size(large, Some((4096, 4096))).unwrap();
    assert!(t.pixels().is_none() && t.is_decoded());
    // Every scan adds to it.
    assert!(can_decode(&gray_jpeg(0xc0, (2048, 2048), 8, 11, 2)));
    assert!(!can_decode(&gray_jpeg(0xc0, (2048, 2048), 8, 11, 3)));
    // A progressive frame wraps around.
    assert!(can_decode(&gray_jpeg(0xc2, (65500, 65500), 255, 15, 9)));

    // A film's frames go without tables.
    let mut film = gray_jpeg(0xc0, (2048, 2048), 17, 0, 1);
    assert!(can_decode(&film));
    film.splice(2..2, *b"\xff\xe0\0\x07AVI1\0");
    assert!(!can_decode(&film));
    // Quantizers of two bytes.
    let mut wide = gray_jpeg(0xc0, (64, 64), 1, 11, 1);
    let table = [vec![0xff, 0xdb, 0, 131, 0x10, 0x40], vec![0; 127]].concat();
    wide.splice(2..2, table);
    assert!(can_decode(&wide));
    wide[7] = 0xff;
    assert!(!can_decode(&wide));
}

#[test]
fn lone_components_must_not_be_vast() {
    let with = |side: (u16, u16), factors: u8| {
        let mut b = gray_jpeg(0xc0, side, 1, 0, 1);
        let at = b.iter().position(|x| *x == 0xc0).unwrap();
        b[at + 10] = factors;
        b
    };
    assert!(can_decode(&with((65528, 8), 0x22)));
    assert!(!can_decode(&with((65529, 8), 0x22)));
    assert!(!can_decode(&with((8, 65535), 0x21)));
    assert!(can_decode(&with((65535, 65535), 0x11)));
}

#[test]
fn only_segments_of_a_jpeg_count() {
    let odd = jpeg_start(0xc0, &[0x11, 0x22, 0x11], 1);
    let usual = jpeg_start(0xc0, &[0x22, 0x11, 0x11], 3);
    // In a comment, or behind the end.
    let mut comment = vec![0xff, 0xd8, 0xff, 0xfe, 0, odd.len() as u8];
    comment.extend(&odd[2..]);
    comment.extend(&usual[2..]);
    assert!(can_decode(&comment));
    comment[3] = 0xd9;
    assert!(can_decode(&comment));
    let mut two = usual.clone();
    two.extend([0xff, 0xd9]);
    two.extend(&odd);
    assert!(can_decode(&two));
    // Behind fill bytes, and behind a segment that reads one byte too far.
    let mut filled = vec![0xff, 0xd8, 0xff, 0xff];
    filled.extend(&odd[2..]);
    assert!(!can_decode(&filled));
    let mut short = vec![0xff, 0xd8, 0xff, 0xe0, 0, 6, 1, 2, 3, 4];
    short.extend(&odd[2..]);
    assert!(can_decode(&short));
    short.insert(10, 0);
    assert!(!can_decode(&short));
    // A scan may start over, but only where there is one.
    let mut again = usual.clone();
    again.extend([0xff, 0xd0, 0x55, 0xff, 0xd1, 0x55, 0x55]);
    assert!(can_decode(&again));
    let mut stray = usual.clone();
    stray.extend([0xff, 0xfe, 0, 2, 0xff, 0xd0, 0x55, 0x55]);
    assert!(!can_decode(&stray));
    // A segment holds its own length.
    let mut none = usual.clone();
    none.splice(2..2, [0xff, 0xe1, 0, 1]);
    assert!(!can_decode(&none));
}

/// A PNG file of one pixel, the first of a palette.
fn png_of_palette(kind: u8, palette: &[u8]) -> Vec<u8> {
    let crc = |data: &[u8]| {
        !data.iter().fold(!0u32, |mut c, b| {
            c ^= *b as u32;
            for _ in 0..8 {
                c = if c & 1 == 1 { c >> 1 ^ 0xedb8_8320 } else { c >> 1 };
            }
            c
        })
    };
    let mut b = vec![137, 80, 78, 71, 13, 10, 26, 10];
    let pixels = [0x78, 1, 1, 2, 0, 0xfd, 0xff, 0, 0, 0, 2, 0, 1];
    let chunks: [(&[u8], &[u8]); 4] = [
        (b"IHDR", &[0, 0, 0, 1, 0, 0, 0, 1, 8, kind, 0, 0, 0]),
        (b"PLTE", palette),
        (b"IDAT", &pixels),
        (b"IEND", &[]),
    ];
    for (name, data) in chunks {
        b.extend((data.len() as u32).to_be_bytes());
        let body = [name, data].concat();
        b.extend(&body);
        b.extend(crc(&body).to_be_bytes());
    }
    b
}

#[test]
fn palettes_must_hold_whole_colors() {
    let whole = png_of_palette(3, &[10, 20, 30, 40, 50, 60]);
    assert!(feather::png::can_decode(&whole));
    let mut t = TextureData::from_encoded(whole).unwrap();
    assert_eq!(t.pixels().unwrap(), &vec![10, 20, 30, 255]);

    let cut = png_of_palette(3, &[10, 20, 30, 40]);
    assert!(!feather::png::can_decode(&cut));
    let mut t = TextureData::from_encoded(cut).unwrap();
    assert!(t.pixels().is_none() && t.is_decoded());
    // A palette that is not needed may be cut.
    let gray = png_of_palette(0, &[10, 20, 30, 40]);
    assert!(feather::png::can_decode(&gray));
    let mut t = TextureData::from_encoded(gray).unwrap();
    assert_eq!(t.pixels().unwrap(), &vec![0, 0, 0, 255]);
    // Nothing is found behind a chunk that is longer than the file, nor in what is
    // no PNG.
    let mut long = png_of_palette(3, &[10, 20, 30, 40]);
    long[8] = 1;
    assert!(feather::png::can_decode(&long));
    assert!(feather::png::can_decode(&long[1..].to_vec()));
}

#[test]
fn odd_jpegs_are_not_decoded() {
    let odd = jpeg_start(0xc0, &[0x11, 0x22, 0x11], 1);
    assert!(!can_decode(&odd));
    assert!(!can_decode(&jpeg_start(0xc1, &[0x11, 0x21, 0x11], 1)));
    // All components in one scan, or none that outgrows the first.
    assert!(can_decode(&jpeg_start(0xc0, &[0x11, 0x22, 0x11], 3)));
    assert!(can_decode(&jpeg_start(0xc0, &[0x22, 0x11, 0x11], 1)));
    // Progressive frames come in many scans.
    assert!(!can_decode(&jpeg_start(0xc2, &[0x11, 0x22, 0x11], 3)));
    assert!(can_decode(&jpeg_start(0xc2, &[0x11, 0x21, 0x11], 1)));
    assert!(can_decode(&jpeg_start(0xc2, &[0x22, 0x11, 0x11], 1)));
    // Only JPEG files are looked at.
    assert!(can_decode(&odd[1..].to_vec()));
    let mut t = TextureData::of_size(odd, Some((8, 8))).unwrap();
    assert!(t.pixels().is_none() && t.is_decoded());
}

#[test]
fn color_spaces_must_fit_the_components() {
    let with = |factors: &[u8], space: u8, first: bool| {
        let mut adobe = vec![0xff, 0xee, 0, 14];
        adobe.extend(b"Adobe\0\0\0\0\0\0");
        adobe.push(space);
        let mut b = jpeg_start(0xc2, factors, 1);
        let at = if first { 2 } else { b.len() };
        b.splice(at..at, adobe);
        b
    };
    assert!(!can_decode(&with(&[0x11; 4], 1, false)));
    assert!(can_decode(&with(&[0x11; 4], 1, true)));
    assert!(can_decode(&with(&[0x11; 4], 2, false)));
    assert!(!can_decode(&with(&[0x11; 2], 2, true)));
    assert!(!can_decode(&with(&[0x11; 1], 2, false)));
    assert!(can_decode(&with(&[0x11; 1], 2, true)));
    assert!(can_decode(&with(&[0x11; 3], 2, false)));
}

#[test]
fn ordinary_jpegs_are_decoded() {
    let mut out = Vec::new();
    image::RgbImage::from_pixel(20, 10, image::Rgb([200, 40, 90]))
        .write_to(&mut std::io::Cursor::new(&mut out), image::ImageFormat::Jpeg)
        .unwrap();
    assert!(can_decode(&out));
    let mut t = TextureData::from_encoded(out).unwrap();
    assert_eq!((t.width, t.height), (20, 10));
    let p = t.pixels().unwrap();
    assert_eq!(p.len(), 20 * 10 * 4);
    for px in p.chunks(4) {
        assert!(px[0].abs_diff(200) < 6 && px[1].abs_diff(40) < 6 && px[2].abs_diff(90) < 6);
        assert_eq!(px[3], 255);
    }
}
