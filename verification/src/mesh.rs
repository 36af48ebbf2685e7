//! Meshes as the loader and the procedural shapes give them.
use vstd::prelude::*;

use crate::bake::Vertex;
use crate::bytes;
use crate::float::{F32, Vec2, Vec3};

verus! {

/// Zero, by its bits.
pub const ZERO_BITS: u32 = 0;

/// One, by its bits.
pub const ONE_BITS: u32 = 0x3f80_0000;

/// A colour with its opacity.
#[derive(Clone, Copy, PartialEq, Eq, Debug, Structural)]
pub struct Vec4 {
    pub x: F32,
    pub y: F32,
    pub z: F32,
    pub w: F32,
}

/// The surface of a mesh. Colours are linear; textures are known by their
/// places in the list of the scene's textures.
#[derive(Clone, Copy, PartialEq, Eq, Debug, Structural)]
pub struct Material {
    pub base_color: Vec4,
    pub metallic: F32,
    pub roughness: F32,
    pub emissive: Vec3,
    pub normal_scale: F32,
    pub base_color_texture: Option<usize>,
    pub normal_texture: Option<usize>,
    pub metallic_roughness_texture: Option<usize>,
}

/// A white surface that is not metallic and has no textures.
pub open spec fn plain_material() -> Material {
    let one = F32 { bits: ONE_BITS };
    let zero = F32 { bits: ZERO_BITS };
    Material {
        base_color: Vec4 { x: one, y: one, z: one, w: one },
        metallic: zero,
        roughness: one,
        emissive: Vec3 { x: zero, y: zero, z: zero },
        normal_scale: one,
        base_color_texture: None,
        normal_texture: None,
        metallic_roughness_texture: None,
    }
}

impl Default for Material {
    fn default() -> (r: Self)
        ensures
            r == plain_material(),
            r.base_color.x.bits == 0x3f80_0000,
            r.base_color.y.bits == 0x3f80_0000,
            r.base_color.z.bits == 0x3f80_0000,
            r.base_color.w.bits == 0x3f80_0000,
            r.metallic.bits == 0,
            r.roughness.bits == 0x3f80_0000,
            r.emissive.x.bits == 0 && r.emissive.y.bits == 0 && r.emissive.z.bits == 0,
            r.normal_scale.bits == 0x3f80_0000,
            r.base_color_texture is None,
            r.normal_texture is None,
            r.metallic_roughness_texture is None,
    {
        let one: F32 = F32 { bits: ONE_BITS };
        let zero: F32 = F32 { bits: ZERO_BITS };
        Material {
            base_color: Vec4 { x: one, y: one, z: one, w: one },
            metallic: zero,
            roughness: one,
            emissive: Vec3 { x: zero, y: zero, z: zero },
            normal_scale: one,
            base_color_texture: None,
            normal_texture: None,
            metallic_roughness_texture: None,
        }
    }
}

/// A mesh: vertices, indices and a surface.
#[derive(Clone, PartialEq, Eq, Debug)]
pub struct MeshData {
    pub vertices: Vec<Vertex>,
    pub indices: Vec<u32>,
    pub material: Material,
}

/// The normal of a vertex that has none.
pub open spec fn up() -> Vec3 {
    Vec3 { x: F32 { bits: ZERO_BITS }, y: F32 { bits: ONE_BITS }, z: F32 { bits: ZERO_BITS } }
}

/// The texture coordinate of a vertex that has none.
pub open spec fn corner() -> Vec2 {
    Vec2 { x: F32 { bits: ZERO_BITS }, y: F32 { bits: ZERO_BITS } }
}

/// The vertex at `i`, with what is missing filled in.
pub open spec fn assembled(
    positions: Seq<Vec3>,
    normals: Seq<Vec3>,
    uvs: Option<Seq<Vec2>>,
    i: int,
) -> Vertex {
    Vertex {
        pos: positions[i],
        normal: if i < normals.len() {
            normals[i]
        } else {
            up()
        },
        uv: match uvs {
            Some(u) => if i < u.len() {
                u[i]
            } else {
                corner()
            },
            None => corner(),
        },
    }
}

/// Puts a primitive together in its local space. Indices that are missing
/// count the vertices; normals and texture coordinates that are missing are
/// filled in.
pub fn primitive_mesh(
    positions: &Vec<Vec3>,
    indices: Option<Vec<u32>>,
    normals: &Vec<Vec3>,
    uvs: &Option<Vec<Vec2>>,
    material: Material,
) -> (r: MeshData)
    ensures
        r.vertices@.len() == positions@.len(),
        forall|i: int|
            0 <= i < positions@.len() ==> #[trigger] r.vertices@[i] == assembled(
                positions@,
                normals@,
                match *uvs {
                    Some(u) => Some(u@),
                    None => None,
                },
                i,
            ),
        match indices {
            Some(given) => r.indices@ == given@,
            None => r.indices@ == counted((positions@.len() % 0x1_0000_0000) as nat),
        },
        forall|i: int|
            0 <= i < positions@.len() ==> (#[trigger] r.vertices@[i]).pos == positions@[i],
        forall|i: int|
            0 <= i < positions@.len() && i < normals@.len() ==> (
            #[trigger] r.vertices@[i]).normal == normals@[i],
        forall|i: int|
            normals@.len() <= i < positions@.len() ==> (#[trigger] r.vertices@[i]).normal.x.bits
                == 0 && r.vertices@[i].normal.y.bits == 0x3f80_0000
                && r.vertices@[i].normal.z.bits == 0,
        forall|i: int|
            0 <= i < positions@.len() ==> match *uvs {
                Some(u) if i < u@.len() => (#[trigger] r.vertices@[i]).uv == u@[i],
                _ => r.vertices@[i].uv.x.bits == 0 && r.vertices@[i].uv.y.bits == 0,
            },
        indices is None && positions@.len() <= u32::MAX ==> r.indices@.len() == positions@.len()
            && forall|k: int| 0 <= k < r.indices@.len() ==> #[trigger] r.indices@[k] == k,
        r.material == material,
{
    let mut vertices: Vec<Vertex> = Vec::new();
    let mut i: usize = 0;
    while i < positions.len()
        invariant
            i <= positions.len(),
            vertices@.len() == i,
            forall|j: int|
                0 <= j < i ==> #[trigger] vertices@[j] == assembled(
                    positions@,
                    normals@,
                    match *uvs {
                        Some(u) => Some(u@),
                        None => None,
                    },
                    j,
                ),
        decreases positions.len() - i,
    {
        let normal: Vec3 = if i < normals.len() {
            normals[i]
        } else {
            Vec3 {
                x: F32 { bits: ZERO_BITS },
                y: F32 { bits: ONE_BITS },
                z: F32 { bits: ZERO_BITS },
            }
        };
        let none: Vec2 = Vec2 { x: F32 { bits: ZERO_BITS }, y: F32 { bits: ZERO_BITS } };
        let uv: Vec2 = match uvs {
            Some(u) => if i < u.len() {
                u[i]
            } else {
                none
            },
            None => none,
        };
        vertices.push(Vertex { pos: positions[i], normal, uv });
        i += 1;
    }
    let list: Vec<u32> = match indices {
        Some(given) => given,
        None => count_up(bytes::low32(positions.len())),
    };
    MeshData { vertices, indices: list, material }
}

/// The numbers below `n`, in order.
pub open spec fn counted(n: nat) -> Seq<u32> {
    Seq::new(n, |i: int| i as u32)
}

fn count_up(n: u32) -> (r: Vec<u32>)
    ensures
        r@ == counted(n as nat),
{
    let mut r: Vec<u32> = Vec::new();
    let mut i: u32 = 0;
    while i < n
        invariant
            i <= n,
            r@ == counted(i as nat),
        decreases n - i,
    {
        r.push(i);
        assert(r@ =~= counted((i + 1) as nat));
        i += 1;
    }
    r
}

/// The triangle at `k` of an index list.
pub open spec fn triangle(indices: Seq<u32>, k: int) -> (u32, u32, u32) {
    (indices[3 * k], indices[3 * k + 1], indices[3 * k + 2])
}

pub open spec fn triangle_in_range(t: (u32, u32, u32), n: nat) -> bool {
    t.0 < n && t.1 < n && t.2 < n
}

/// Of the first `m` triangles those whose corners are among `n` vertices.
pub open spec fn triangles_in_range(indices: Seq<u32>, n: nat, m: nat) -> Seq<(u32, u32, u32)>
    decreases m,
{
    if m == 0 {
        Seq::empty()
    } else {
        let before = triangles_in_range(indices, n, (m - 1) as nat);
        let t = triangle(indices, m - 1);
        if triangle_in_range(t, n) {
            before.push(t)
        } else {
            before
        }
    }
}

/// The triangles that contribute to the normals of `n` vertices: whole ones,
/// with all corners in range, in order.
pub fn normal_triangles(indices: &Vec<u32>, n: usize) -> (r: Vec<(u32, u32, u32)>)
    ensures
        r@ == triangles_in_range(indices@, n as nat, indices@.len() / 3),
{
    let mut r: Vec<(u32, u32, u32)> = Vec::new();
    let count: usize = indices.len() / 3;
    let mut k: usize = 0;
    while k < count
        invariant
            k <= count,
            3 * count <= indices.len(),
            r@ == triangles_in_range(indices@, n as nat, k as nat),
        decreases count - k,
    {
        let t: (u32, u32, u32) = (indices[3 * k], indices[3 * k + 1], indices[3 * k + 2]);
        if (t.0 as u64) < n as u64 && (t.1 as u64) < n as u64 && (t.2 as u64) < n as u64 {
            r.push(t);
        }
        k += 1;
    }
    r
}

/// Whether every index of a mesh names one of its vertices.
pub open spec fn indices_in_range(indices: Seq<u32>, n: int) -> bool {
    forall|i: int| 0 <= i < indices.len() ==> #[trigger] indices[i] < n
}

/// The six indices of the cell of a sphere whose corner is `a`, where a row
/// has `stride` vertices.
pub open spec fn cell(a: int, stride: int) -> Seq<u32> {
    seq![
        a as u32,
        (a + 1) as u32,
        (a + stride) as u32,
        (a + 1) as u32,
        (a + stride + 1) as u32,
        (a + stride) as u32,
    ]
}

/// The indices of the first `n` cells of a sphere.
pub open spec fn sphere_cells(slices: int, n: int) -> Seq<u32>
    decreases n,
{
    if n <= 0 {
        Seq::empty()
    } else {
        let (i, j) = ((n - 1) / slices, (n - 1) % slices);
        sphere_cells(slices, n - 1) + cell(i * (slices + 1) + j, slices + 1)
    }
}

/// The index list of a sphere of stacks and slices: two triangles for every
/// cell of the grid, row by row.
pub fn uv_sphere_indices(stacks: u32, slices: u32) -> (r: Vec<u32>)
    requires
        (stacks + 1) * (slices + 1) <= u32::MAX,
        stacks * slices * 6 <= u32::MAX,
    ensures
        r@ == sphere_cells(slices as int, stacks * slices),
{
    let mut r: Vec<u32> = Vec::new();
    assert(slices + 1 <= (stacks + 1) * (slices + 1)) by (nonlinear_arith);
    let stride: u32 = slices + 1;
    let mut i: u32 = 0;
    while i < stacks
        invariant
            i <= stacks,
            stride == slices + 1,
            (stacks + 1) * (slices + 1) <= u32::MAX,
            r@ == sphere_cells(slices as int, i * slices),
        decreases stacks - i,
    {
        let mut j: u32 = 0;
        while j < slices
            invariant
                i < stacks,
                j <= slices,
                stride == slices + 1,
                (stacks + 1) * (slices + 1) <= u32::MAX,
                r@ == sphere_cells(slices as int, i * slices + j),
            decreases slices - j,
        {
            proof {
                lemma_cell_fits(i as int, j as int, stacks as int, slices as int);
                lemma_grid(i as int, j as int, slices as int);
            }
            let a: u32 = i * stride + j;
            let b: u32 = a + stride;
            r.push(a);
            r.push(a + 1);
            r.push(b);
            r.push(a + 1);
            r.push(b + 1);
            r.push(b);
            assert(r@ =~= sphere_cells(slices as int, i * slices + j + 1));
            j += 1;
        }
        assert(i * slices + slices == (i + 1) * slices) by (nonlinear_arith);
        i += 1;
    }
    r
}

proof fn lemma_cell_fits(i: int, j: int, stacks: int, slices: int)
    by (nonlinear_arith)
    requires
        0 <= i < stacks,
        0 <= j < slices,
    ensures
        0 <= i * (slices + 1),
        i * (slices + 1) + j + (slices + 1) + 1 < (stacks + 1) * (slices + 1),
        0 <= i * slices,
{
}

proof fn lemma_grid(i: int, j: int, slices: int)
    requires
        0 <= i,
        0 <= j < slices,
    ensures
        (i * slices + j) / slices == i,
        (i * slices + j) % slices == j,
        i * slices + j >= 0,
{
    vstd::arithmetic::div_mod::lemma_fundamental_div_mod_converse(
        i * slices + j,
        slices,
        i,
        j,
    );
    assert(i * slices >= 0) by (nonlinear_arith)
        requires
            i >= 0,
            slices > 0,
    ;
}

/// Every index of a sphere names one of its vertices.
pub proof fn law_sphere_indices_in_range(stacks: int, slices: int, n: int)
    requires
        0 < slices,
        0 <= n <= stacks * slices,
        (stacks + 1) * (slices + 1) <= u32::MAX,
    ensures
        indices_in_range(sphere_cells(slices, n), (stacks + 1) * (slices + 1)),
        sphere_cells(slices, n).len() == 6 * n,
    decreases n,
{
    if n > 0 {
        let (i, j) = ((n - 1) / slices, (n - 1) % slices);
        law_sphere_indices_in_range(stacks, slices, n - 1);
        vstd::arithmetic::div_mod::lemma_fundamental_div_mod(n - 1, slices);
        vstd::arithmetic::div_mod::lemma_mod_bound(n - 1, slices);
        assert(0 <= i < stacks) by (nonlinear_arith)
            requires
                n - 1 == slices * i + j,
                0 <= j < slices,
                0 < n <= stacks * slices,
        ;
        lemma_cell_fits(i, j, stacks, slices);
    }
}

/// The indices of the first `n` faces of a box: four vertices and two triangles
/// each.
pub open spec fn box_faces(n: int) -> Seq<u32>
    decreases n,
{
    if n <= 0 {
        Seq::empty()
    } else {
        let b = 4 * (n - 1);
        box_faces(n - 1) + seq![
            b as u32,
            (b + 1) as u32,
            (b + 2) as u32,
            b as u32,
            (b + 2) as u32,
            (b + 3) as u32,
        ]
    }
}

/// The index list of a cube.
pub fn cube_indices() -> (r: Vec<u32>)
    ensures
        r@ == box_faces(6),
        r@.len() == 36,
        indices_in_range(r@, 24),
{
    let mut r: Vec<u32> = Vec::new();
    let mut n: u32 = 0;
    while n < 6
        invariant
            n <= 6,
            r@ == box_faces(n as int),
            r@.len() == 6 * n,
            indices_in_range(r@, 4 * n),
        decreases 6 - n,
    {
        let b: u32 = 4 * n;
        r.push(b);
        r.push(b + 1);
        r.push(b + 2);
        r.push(b);
        r.push(b + 2);
        r.push(b + 3);
        assert(r@ =~= box_faces(n + 1));
        n += 1;
    }
    r
}

/// Normals come from the whole triangles of a list whose three corners are all
/// there, in order.
pub proof fn law_normals_come_from_whole_triangles(indices: Seq<u32>, n: nat)
    ensures
        triangles_in_range(indices, n, indices.len() / 3) == Seq::new(
            indices.len() / 3,
            |k: int| (indices[3 * k], indices[3 * k + 1], indices[3 * k + 2]),
        ).filter(|t: (u32, u32, u32)| t.0 < n && t.1 < n && t.2 < n),
{
    lemma_triangles_filtered(indices, n, indices.len() / 3);
}

proof fn lemma_triangles_filtered(indices: Seq<u32>, n: nat, m: nat)
    ensures
        triangles_in_range(indices, n, m) == Seq::new(
            m,
            |k: int| (indices[3 * k], indices[3 * k + 1], indices[3 * k + 2]),
        ).filter(|t: (u32, u32, u32)| t.0 < n && t.1 < n && t.2 < n),
    decreases m,
{
    reveal(Seq::filter);
    let all = Seq::new(m, |k: int| (indices[3 * k], indices[3 * k + 1], indices[3 * k + 2]));
    if m > 0 {
        lemma_triangles_filtered(indices, n, (m - 1) as nat);
        let less = Seq::new(
            (m - 1) as nat,
            |k: int| (indices[3 * k], indices[3 * k + 1], indices[3 * k + 2]),
        );
        assert(all.drop_last() =~= less);
    }
}

/// The cell in row `i` and column `j` of a sphere is two triangles over its four
/// corners, which meet along the same diagonal and turn the same way.
pub proof fn law_sphere_cells_are_two_triangles(stacks: int, slices: int, i: int, j: int)
    requires
        0 <= i < stacks,
        0 <= j < slices,
        (stacks + 1) * (slices + 1) <= u32::MAX,
    ensures
        ({
            let r = sphere_cells(slices, stacks * slices);
            let at = 6 * (i * slices + j);
            let corner = |di: int, dj: int| (i + di) * (slices + 1) + j + dj;
            &&& 0 <= at && at + 6 <= r.len()
            &&& r[at] == corner(0, 0) && r[at + 1] == corner(0, 1) && r[at + 2] == corner(1, 0)
            &&& r[at + 3] == corner(0, 1) && r[at + 4] == corner(1, 1) && r[at + 5] == corner(
                1,
                0,
            )
        }),
{
    let n = i * slices + j;
    lemma_grid(i, j, slices);
    lemma_cell_fits(i, j, stacks, slices);
    assert(n < stacks * slices) by (nonlinear_arith)
        requires
            n == i * slices + j,
            0 <= i < stacks,
            0 <= j < slices,
    ;
    law_sphere_indices_in_range(stacks, slices, n);
    law_sphere_indices_in_range(stacks, slices, stacks * slices);
    lemma_cells_stay(stacks, slices, n + 1, stacks * slices);
    let a = i * (slices + 1) + j;
    assert((i + 1) * (slices + 1) + j == a + slices + 1) by (nonlinear_arith)
        requires
            a == i * (slices + 1) + j,
    ;
    let some = sphere_cells(slices, n + 1);
    let c = cell(a, slices + 1);
    assert(some == sphere_cells(slices, n) + c);
    assert forall|k: int| 0 <= k < 6 implies sphere_cells(slices, stacks * slices)[6 * n + k]
        == #[trigger] c[k] by {
        assert(some[6 * n + k] == c[k]);
        assert(sphere_cells(slices, stacks * slices).take(some.len() as int)[6 * n + k]
            == some[6 * n + k]);
    }
    assert(c[0] == a && c[1] == a + 1 && c[2] == a + slices + 1 && c[3] == a + 1 && c[4] == a
        + slices + 2 && c[5] == a + slices + 1);
}

proof fn lemma_cells_stay(stacks: int, slices: int, m: int, n: int)
    requires
        0 < slices,
        0 <= m <= n <= stacks * slices,
        (stacks + 1) * (slices + 1) <= u32::MAX,
    ensures
        sphere_cells(slices, m).len() <= sphere_cells(slices, n).len(),
        sphere_cells(slices, n).take(sphere_cells(slices, m).len() as int) == sphere_cells(
            slices,
            m,
        ),
    decreases n,
{
    law_sphere_indices_in_range(stacks, slices, m);
    law_sphere_indices_in_range(stacks, slices, n);
    if m < n {
        lemma_cells_stay(stacks, slices, m, n - 1);
        law_sphere_indices_in_range(stacks, slices, n - 1);
        assert(sphere_cells(slices, n).take(6 * m) =~= sphere_cells(slices, n - 1).take(6 * m));
    } else {
        assert(sphere_cells(slices, n).take(6 * m) =~= sphere_cells(slices, n));
    }
}

/// A face of a cube is two triangles over its own four vertices, which share the
/// first and the third.
pub proof fn law_cube_faces_are_two_triangles(n: int)
    requires
        0 <= n < 6,
    ensures
        box_faces(6).len() == 36,
        box_faces(6)[6 * n] == 4 * n,
        box_faces(6)[6 * n + 1] == 4 * n + 1,
        box_faces(6)[6 * n + 2] == 4 * n + 2,
        box_faces(6)[6 * n + 3] == 4 * n,
        box_faces(6)[6 * n + 4] == 4 * n + 2,
        box_faces(6)[6 * n + 5] == 4 * n + 3,
{
    reveal_with_fuel(box_faces, 7);
}

} // verus!
