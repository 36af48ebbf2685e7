use feather::bake::{bc7_level_size, BakedMesh, BakedTexture, TexKind, Vertex};
use feather::float::{Vec2, Vec3, F32};
use feather::lod::{whole_triangles, LodChain};
use feather::mesh::{cube_indices, uv_sphere_indices, Material, MeshData};
use feather::mip::{bake, chain_dims, compress_level, next_dim, pad_to_blocks, sources, Level};
use feather::texture::TextureData;
use feather::worklist::{first_of_each, texture_uses};

fn f(x: f32) -> F32 {
    F32 { bits: x.to_bits() }
}

fn level(width: u32, height: u32, px: impl Fn(u32, u32) -> [u8; 4]) -> Level {
    let mut pixels = Vec::new();
    for y in 0..height {
        for x in 0..width {
            pixels.extend_from_slice(&px(x, y));
        }
    }
    Level { pixels, width, height }
}

/// A chain whose pixels are averaged as plain data, rounded to nearest.
fn data_chain(top: &Level) -> Vec<Level> {
    let mut chain = vec![top.clone()];
    while chain.last().unwrap().width > 1 || chain.last().unwrap().height > 1 {
        let prev = chain.last().unwrap();
        let mut pixels = Vec::new();
        for (a, b, c, d) in sources(prev) {
            for k in 0..4 {
                let of = |p: feather::mip::Pixel| [p.r, p.g, p.b, p.a][k] as u32;
                pixels.push(((of(a) + of(b) + of(c) + of(d) + 2) / 4) as u8);
            }
        }
        let next = Level {
            pixels,
            width: next_dim(prev.width),
            height: next_dim(prev.height),
        };
        chain.push(next);
    }
    chain
}

#[test]
fn mips_average_two_by_two() {
    let checker = level(2, 2, |x, y| {
        if (x + y) % 2 == 0 {
            [0, 0, 0, 255]
        } else {
            [255, 255, 255, 255]
        }
    });
    // Data textures average the values as they are.
    assert_eq!(&data_chain(&checker)[1].pixels[..4], &[128, 128, 128, 255]);
    // Odd sides repeat the last row and column.
    let odd = level(3, 1, |x, _| [x as u8, 0, 0, 0]);
    let s = sources(&odd);
    assert_eq!(s.len(), 1);
    assert_eq!((s[0].0.r, s[0].1.r, s[0].2.r, s[0].3.r), (0, 1, 0, 1));
    let thin = level(1, 4, |_, y| [y as u8, 0, 0, 0]);
    let s = sources(&thin);
    assert_eq!(s.len(), 2);
    assert_eq!((s[1].0.r, s[1].1.r, s[1].2.r, s[1].3.r), (2, 2, 3, 3));
}

#[test]
fn chains_end_at_one_by_one() {
    for (w, h, levels) in [(8, 8, 4), (8, 2, 4), (5, 3, 3), (1, 1, 1)] {
        let chain = data_chain(&level(w, h, |_, _| [9, 9, 9, 255]));
        assert_eq!(chain.len(), levels, "{w}x{h}");
        let last = chain.last().unwrap();
        assert_eq!((last.width, last.height), (1, 1), "{w}x{h}");
        let dims: Vec<_> = chain.iter().map(|l| (l.width, l.height)).collect();
        assert_eq!(chain_dims(w, h), dims);
    }
}

#[test]
fn baked_levels_have_exactly_the_blocks_vulkan_expects() {
    // Odd, non-square, not a multiple of 4: every level must still be exactly
    // the size the runtime will copy.
    let l = level(10, 6, |x, y| [x as u8 * 20, y as u8 * 40, 7, 255]);
    let mut t = TextureData::from_rgba8(l.pixels, 10, 6);
    let top = Level { pixels: t.pixels().unwrap().clone(), width: 10, height: 6 };
    let baked = bake(&data_chain(&top), TexKind::Color);
    assert_eq!(baked.levels.len(), 4);
    for (l, level) in baked.levels.iter().enumerate() {
        assert_eq!(level.len(), bc7_level_size(10, 6, l as u32), "level {l}");
    }
    // And the file that holds it is read back.
    assert_eq!(BakedTexture::read(&baked.write()).unwrap(), baked);
}

#[test]
fn blocks_depend_on_their_pixels() {
    let black = compress_level(&level(4, 4, |_, _| [0, 0, 0, 255]));
    let white = compress_level(&level(4, 4, |_, _| [255, 255, 255, 255]));
    assert_eq!((black.len(), white.len()), (16, 16));
    assert_ne!(black, white);
}

#[test]
fn padding_repeats_the_edge() {
    let p = pad_to_blocks(&level(2, 1, |x, _| [x as u8, 5, 6, 7]));
    assert_eq!((p.width, p.height), (4, 4));
    let reds: Vec<u8> = p.pixels.chunks(4).map(|c| c[0]).collect();
    assert_eq!(reds, [0, 1, 1, 1, 0, 1, 1, 1, 0, 1, 1, 1, 0, 1, 1, 1]);
    let whole = level(4, 8, |x, y| [x as u8, y as u8, 0, 0]);
    assert_eq!(pad_to_blocks(&whole), whole);
}

fn vertex(p: [f32; 3], n: [f32; 3], uv: [f32; 2]) -> Vertex {
    Vertex {
        pos: Vec3 { x: f(p[0]), y: f(p[1]), z: f(p[2]) },
        normal: Vec3 { x: f(n[0]), y: f(n[1]), z: f(n[2]) },
        uv: Vec2 { x: f(uv[0]), y: f(uv[1]) },
    }
}

fn uv_sphere(stacks: u32, slices: u32, radius: f32) -> MeshData {
    let mut vertices = Vec::new();
    for i in 0..=stacks {
        let phi = std::f32::consts::PI * i as f32 / stacks as f32;
        let (sp, cp) = phi.sin_cos();
        for j in 0..=slices {
            let theta = std::f32::consts::TAU * j as f32 / slices as f32;
            let (st, ct) = theta.sin_cos();
            let n = [sp * ct, cp, sp * st];
            let uv = [j as f32 / slices as f32, i as f32 / stacks as f32];
            vertices.push(vertex(n.map(|c| c * radius), n, uv));
        }
    }
    MeshData {
        vertices,
        indices: uv_sphere_indices(stacks, slices),
        material: Material::default(),
    }
}

const MAX_RELATIVE_ERROR: f32 = 0.25;

/// The bake of a mesh, with levels from the simplifier.
fn bake_mesh(mesh: &MeshData) -> BakedMesh {
    let number = |x: F32| f32::from_bits(x.bits);
    let floats: Vec<f32> = mesh
        .vertices
        .iter()
        .flat_map(|v| [v.pos.x, v.pos.y, v.pos.z].map(number))
        .collect();
    let normals: Vec<f32> = mesh
        .vertices
        .iter()
        .flat_map(|v| [v.normal.x, v.normal.y, v.normal.z].map(number))
        .collect();
    let adapter = meshopt::VertexDataAdapter::new(meshopt::typed_to_bytes(&floats), 12, 0).unwrap();
    let scale = meshopt::simplify_scale(&adapter);
    let locks = vec![false; mesh.vertices.len()];
    let mut chain = LodChain::start(mesh);
    while let Some(target) = chain.next_target() {
        let mut relative = 0.0f32;
        let simplified = meshopt::simplify_with_attributes_and_locks(
            &mesh.indices,
            &adapter,
            &normals,
            &[0.5; 3],
            12,
            &locks,
            target,
            MAX_RELATIVE_ERROR,
            meshopt::SimplifyOptions::Prune,
            Some(&mut relative),
        );
        assert!(whole_triangles(&simplified, mesh.vertices.len()));
        if !chain.offer(&simplified, f(relative * scale)) {
            break;
        }
    }
    chain.finish(&mesh.vertices)
}

/// Triangles as position triples, rotated to a canonical start (winding kept)
/// and sorted: equal iff the same triangles, however reordered.
fn triangle_set(vertices: &[Vertex], indices: &[u32]) -> Vec<[[u32; 3]; 3]> {
    let key = |i: u32| {
        let p = vertices[i as usize].pos;
        [p.x.bits, p.y.bits, p.z.bits]
    };
    let mut tris: Vec<[[u32; 3]; 3]> = indices
        .chunks_exact(3)
        .map(|t| {
            let t = [key(t[0]), key(t[1]), key(t[2])];
            let r = (0..3).min_by_key(|&k| t[k]).unwrap();
            [t[r], t[(r + 1) % 3], t[(r + 2) % 3]]
        })
        .collect();
    tris.sort();
    tris
}

#[test]
fn sphere_gets_a_valid_lod_chain() {
    let sphere = uv_sphere(32, 64, 1.0); // 4096 triangles
    let baked = bake_mesh(&sphere);
    let counts: Vec<usize> = baked.lods.iter().map(|l| l.indices.len() / 3).collect();
    let errors: Vec<f32> = baked.lods.iter().map(|l| f32::from_bits(l.error.bits)).collect();
    println!("tris per LOD {counts:?}, errors {errors:?}");
    assert!(baked.lods.len() >= 4, "a 4k-triangle sphere should reduce well");
    assert_eq!(errors[0], 0.0);
    for (w, e) in baked.lods.windows(2).zip(errors.windows(2)) {
        assert!(w[1].indices.len() < w[0].indices.len(), "{counts:?}");
        assert!(e[1] >= e[0], "{errors:?}");
    }
    // Coarser levels must actually deviate a little, but stay under the cap.
    assert!(errors[1] > 0.0 && *errors.last().unwrap() <= MAX_RELATIVE_ERROR * 2.0 + 1e-6);
    for lod in &baked.lods {
        assert!(lod
            .indices
            .iter()
            .all(|&i| (i as usize) < baked.vertices.len()));
    }
    // LOD0 is the input, only reordered.
    assert_eq!(
        triangle_set(&baked.vertices, &baked.lods[0].indices),
        triangle_set(&sphere.vertices, &sphere.indices),
    );
    // What is written of it is read back.
    assert_eq!(BakedMesh::read(&baked.write()).unwrap(), baked);
}

fn cube(size: f32) -> MeshData {
    let h = size * 0.5;
    let faces: [([f32; 3], [[f32; 3]; 4]); 6] = [
        ([0.0, 0.0, 1.0], [[-h, -h, h], [h, -h, h], [h, h, h], [-h, h, h]]),
        ([0.0, 0.0, -1.0], [[h, -h, -h], [-h, -h, -h], [-h, h, -h], [h, h, -h]]),
        ([1.0, 0.0, 0.0], [[h, -h, h], [h, -h, -h], [h, h, -h], [h, h, h]]),
        ([-1.0, 0.0, 0.0], [[-h, -h, -h], [-h, -h, h], [-h, h, h], [-h, h, -h]]),
        ([0.0, 1.0, 0.0], [[-h, h, h], [h, h, h], [h, h, -h], [-h, h, -h]]),
        ([0.0, -1.0, 0.0], [[-h, -h, -h], [h, -h, -h], [h, -h, h], [-h, -h, h]]),
    ];
    let face_uv = [[0.0, 0.0], [1.0, 0.0], [1.0, 1.0], [0.0, 1.0]];
    let mut vertices = Vec::new();
    for (normal, corners) in faces {
        for (k, pos) in corners.into_iter().enumerate() {
            vertices.push(vertex(pos, normal, face_uv[k]));
        }
    }
    MeshData { vertices, indices: cube_indices(), material: Material::default() }
}

#[test]
fn small_meshes_keep_lod0_only() {
    let cube = cube(1.0);
    let baked = bake_mesh(&cube);
    assert_eq!(baked.lods.len(), 1);
    assert_eq!(
        triangle_set(&baked.vertices, &baked.lods[0].indices),
        triangle_set(&cube.vertices, &cube.indices),
    );
}

/// Disconnected parts of varying size, like grass blades: simplification can't
/// merge them (each flat-shaded cube face is its own component), so they only
/// get fewer, the smallest first.
#[test]
fn many_small_parts_still_reduce() {
    let one = cube(1.0);
    let mut m = cube(0.0);
    m.vertices.clear();
    m.indices.clear();
    for i in 0..200 {
        let size = 0.005 + 0.05 * (i as f32 / 200.0);
        let base = m.vertices.len() as u32;
        m.vertices.extend(one.vertices.iter().map(|v| {
            let mut pos = [v.pos.x, v.pos.y, v.pos.z].map(|c| f32::from_bits(c.bits) * size);
            pos[0] += (i % 20) as f32 * 0.1;
            pos[2] += (i / 20) as f32 * 0.1;
            Vertex { pos: Vec3 { x: f(pos[0]), y: f(pos[1]), z: f(pos[2]) }, ..*v }
        }));
        m.indices.extend(one.indices.iter().map(|i| i + base));
    }
    let baked = bake_mesh(&m);
    let counts: Vec<usize> = baked.lods.iter().map(|l| l.indices.len() / 3).collect();
    println!("200 cubes: tris per LOD {counts:?}");
    assert!(baked.lods.len() >= 2, "{counts:?}");
}

#[test]
fn levels_that_gain_too_little_end_the_chain() {
    let sphere = uv_sphere(16, 32, 1.0);
    let tris = sphere.indices.len() / 3;
    assert_eq!(tris, 1024);
    let mut chain = LodChain::start(&sphere);
    let cut = |n: usize| sphere.indices[..3 * n].to_vec();
    assert!(!chain.offer(&cut(922), f(0.1)), "less than a tenth");
    assert!(!chain.offer(&cut(63), f(0.1)), "too few");
    assert_eq!(chain.lods.len(), 1);
    assert!(chain.offer(&cut(921), f(0.5)));
    // An error below the one before counts as that.
    assert!(chain.offer(&cut(600), f(0.25)));
    assert_eq!(chain.lods[2].error, f(0.5));
    assert!(chain.offer(&cut(300), f(f32::NAN)));
    assert_eq!(chain.lods[3].error, f(0.5));
}

#[test]
fn unused_vertices_are_left_out() {
    let mut m = cube(1.0);
    m.vertices.insert(0, vertex([9.0; 3], [0.0, 1.0, 0.0], [0.0; 2]));
    for i in &mut m.indices {
        *i += 1;
    }
    let baked = LodChain::start(&m).finish(&m.vertices);
    assert_eq!(baked.vertices.len(), 24);
    // Vertices stand in the order of first use.
    let mut next = 0;
    for &i in &baked.lods[0].indices {
        assert!(i <= next);
        if i == next {
            next += 1;
        }
    }
}

#[test]
fn whole_triangles_are_in_range() {
    assert!(whole_triangles(&vec![0, 1, 2], 3));
    assert!(!whole_triangles(&vec![0, 1, 3], 3));
    assert!(!whole_triangles(&vec![0, 1], 3));
}

#[test]
fn each_key_is_worked_on_once() {
    assert_eq!(first_of_each(&vec![5, 7, 5, 9, 7, 5]), [0, 1, 3]);
    assert!(first_of_each(&vec![]).is_empty());
}

#[test]
fn texture_uses_name_their_kind() {
    let mut a = cube(1.0);
    a.material.base_color_texture = Some(3);
    a.material.metallic_roughness_texture = Some(3);
    let mut b = cube(1.0);
    b.material.normal_texture = Some(1);
    assert_eq!(
        texture_uses(&vec![a, b]),
        [(3, TexKind::Color), (3, TexKind::Data), (1, TexKind::Data)]
    );
}

#[test]
fn triangles_are_put_in_another_order() {
    let sphere = uv_sphere(16, 32, 1.0);
    let chain = LodChain::start(&sphere);
    assert_ne!(chain.lods[0].indices, sphere.indices);
    assert_eq!(
        triangle_set(&sphere.vertices, &chain.lods[0].indices),
        triangle_set(&sphere.vertices, &sphere.indices),
    );
}

#[test]
fn chains_have_eight_levels_at_most() {
    let sphere = uv_sphere(64, 128, 1.0);
    let mut chain = LodChain::start(&sphere);
    let mut tris = sphere.indices.len() / 3;
    for _ in 1..8 {
        tris = tris * 9 / 10;
        assert!(chain.offer(&sphere.indices[..3 * tris].to_vec(), f(0.0)));
    }
    assert_eq!((chain.lods.len(), chain.next_target()), (8, None));
    assert!(!chain.offer(&sphere.indices[..3 * (tris / 2)].to_vec(), f(0.0)));
    assert_eq!(chain.lods.len(), 8);
}
