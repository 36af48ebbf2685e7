//! Meshes in shared buffers, their levels of detail, and the draws of a frame.
//!
//! All meshes share one vertex and one index buffer. Each frame, instances are
//! grouped into runs of one mesh at one level of detail; a run is one draw.
use vstd::prelude::*;

use crate::bake;
use crate::bake::{BakedMesh, Lod, Vertex};
use crate::float::F32;
use crate::mesh::MeshData;

verus! {

/// The most lights of a frame; the rest are dropped.
pub const MAX_LIGHTS: usize = 128;

/// Tiles across, tiles down and depth slices of the light grid.
pub const CLUSTER_X: usize = 16;

pub const CLUSTER_Y: usize = 9;

pub const CLUSTER_Z: usize = 24;

pub const CLUSTER_COUNT: usize = 3456;

/// Words of a cluster's mask, which has one bit for each light.
pub const CLUSTER_WORDS: usize = 4;

/// Clusters that one work group handles.
pub const CLUSTER_GROUP: usize = 64;

/// The most levels of detail of a mesh.
pub const MAX_LODS: usize = 16;

/// Shadow maps of a frame.
pub const SHADOW_CASCADES: usize = 4;

/// Work groups that cover every cluster.
pub fn cluster_groups() -> (r: u32)
    ensures
        (r - 1) * CLUSTER_GROUP < CLUSTER_COUNT <= r * CLUSTER_GROUP,
{
    ((CLUSTER_COUNT + CLUSTER_GROUP - 1) / CLUSTER_GROUP) as u32
}

/// The clusters fill the grid, and a mask has exactly one bit for each light.
pub proof fn law_masks_cover_the_lights()
    ensures
        CLUSTER_COUNT == CLUSTER_X * CLUSTER_Y * CLUSTER_Z,
        CLUSTER_WORDS * 32 == MAX_LIGHTS,
        CLUSTER_X == 16 && CLUSTER_Y == 9 && CLUSTER_Z == 24,
        MAX_LIGHTS == 128,
        SHADOW_CASCADES == 4,
{
}

/// A mesh of the renderer: its place among those it was made with.
#[derive(Clone, Copy, Debug, PartialEq, Eq, Structural)]
pub struct MeshId(pub u32);

/// One level of detail: a range of the shared index buffer.
#[derive(Clone, Copy, Debug, PartialEq, Eq, Structural)]
pub struct LodSlice {
    pub first_index: u32,
    pub index_count: u32,
    /// Geometric error against full detail, in the mesh's own units.
    pub error: F32,
}

/// Where a mesh stands in the shared buffers. The offset is added to its
/// indices, which stay as they were.
#[derive(Debug)]
pub struct MeshSlice {
    pub vertex_offset: i32,
    pub lods: Vec<LodSlice>,
}

pub struct SliceModel {
    pub vertex_offset: i32,
    pub lods: Seq<LodSlice>,
}

impl View for MeshSlice {
    type V = SliceModel;

    open spec fn view(&self) -> SliceModel {
        SliceModel { vertex_offset: self.vertex_offset, lods: self.lods@ }
    }
}

pub open spec fn slice_views(s: Seq<MeshSlice>) -> Seq<SliceModel> {
    s.map_values(|m: MeshSlice| m@)
}

/// The coarsest level whose error is at most `budget`; full detail where none
/// is.
pub open spec fn is_pick(lods: Seq<LodSlice>, budget: F32, r: int) -> bool {
    ||| {
        &&& 0 <= r < lods.len()
        &&& lods[r].error.within(budget)
        &&& forall|i: int| r < i < lods.len() ==> !(#[trigger] lods[i]).error.within(budget)
    }
    ||| {
        &&& r == 0
        &&& forall|i: int| 0 <= i < lods.len() ==> !(#[trigger] lods[i]).error.within(budget)
    }
}

pub open spec fn pick(lods: Seq<LodSlice>, budget: F32) -> nat
    decreases lods.len(),
{
    if lods.len() == 0 {
        0
    } else if lods.last().error.within(budget) {
        (lods.len() - 1) as nat
    } else {
        pick(lods.drop_last(), budget)
    }
}

pub fn pick_lod(lods: &[LodSlice], budget: F32) -> (r: usize)
    ensures
        r == pick(lods@, budget),
        is_pick(lods@, budget, r as int),
        lods@.len() > 0 ==> r < lods@.len(),
{
    let mut n: usize = lods.len();
    assert(lods@.take(n as int) =~= lods@);
    while n > 0
        invariant
            n <= lods@.len(),
            pick(lods@, budget) == pick(lods@.take(n as int), budget),
            forall|i: int| n <= i < lods@.len() ==> !(#[trigger] lods@[i]).error.within(budget),
        decreases n,
    {
        assert(lods@.take(n as int).drop_last() =~= lods@.take(n - 1));
        if lods[n - 1].error.is_within(budget) {
            return n - 1;
        }
        n = n - 1;
    }
    0
}

/// A larger budget never picks a finer level.
pub proof fn law_larger_budgets_pick_coarser_levels(lods: Seq<LodSlice>, a: F32, b: F32)
    requires
        a.within(b),
    ensures
        pick(lods, a) <= pick(lods, b),
    decreases lods.len(),
{
    if lods.len() > 0 {
        law_larger_budgets_pick_coarser_levels(lods.drop_last(), a, b);
        lemma_pick_bound(lods.drop_last(), a);
    }
}

proof fn lemma_pick_bound(lods: Seq<LodSlice>, budget: F32)
    ensures
        lods.len() > 0 ==> pick(lods, budget) < lods.len(),
        lods.len() == 0 ==> pick(lods, budget) == 0,
    decreases lods.len(),
{
    if lods.len() > 0 {
        lemma_pick_bound(lods.drop_last(), budget);
    }
}

/// Meshes put into shared buffers.
#[derive(Debug)]
pub struct Merged {
    pub vertices: Vec<Vertex>,
    pub indices: Vec<u32>,
    pub slices: Vec<MeshSlice>,
    pub ids: Vec<MeshId>,
    /// Meshes that came baked.
    pub baked: usize,
    /// Meshes that did not, and are large enough that a bake would add levels.
    pub would_gain: usize,
}

pub struct MergedModel {
    pub vertices: Seq<Vertex>,
    pub indices: Seq<u32>,
    pub slices: Seq<SliceModel>,
    pub ids: Seq<MeshId>,
    pub baked: nat,
    pub would_gain: nat,
}

impl View for Merged {
    type V = MergedModel;

    open spec fn view(&self) -> MergedModel {
        MergedModel {
            vertices: self.vertices@,
            indices: self.indices@,
            slices: slice_views(self.slices@),
            ids: self.ids@,
            baked: self.baked as nat,
            would_gain: self.would_gain as nat,
        }
    }
}

/// A mesh as it is drawn: baked vertices and levels, as far as levels are kept,
/// or the mesh itself as its only level.
pub open spec fn drawn(mesh: MeshData, baked: Option<BakedMesh>) -> bake::MeshModel {
    match baked {
        Some(b) => bake::MeshModel {
            vertices: b.vertices@,
            lods: b@.lods.take(
                if b.lods@.len() < MAX_LODS {
                    b.lods@.len() as int
                } else {
                    MAX_LODS as int
                },
            ),
        },
        None => bake::MeshModel {
            vertices: mesh.vertices@,
            lods: seq![bake::LodModel { error: F32 { bits: 0 }, indices: mesh.indices@ }],
        },
    }
}

/// The index buffer and the ranges in it after the first `n` levels of a mesh.
pub open spec fn with_lods(indices: Seq<u32>, lods: Seq<bake::LodModel>, n: nat) -> (
    Seq<u32>,
    Seq<LodSlice>,
)
    decreases n,
{
    if n == 0 {
        (indices, seq![])
    } else {
        let (so_far, slices) = with_lods(indices, lods, (n - 1) as nat);
        let lod = lods[n - 1];
        (
            so_far + lod.indices,
            slices.push(
                LodSlice {
                    first_index: so_far.len() as u32,
                    index_count: lod.indices.len() as u32,
                    error: lod.error,
                },
            ),
        )
    }
}

/// One more mesh behind those already merged.
pub open spec fn with_mesh(m: MergedModel, mesh: MeshData, baked: Option<BakedMesh>) -> MergedModel {
    let d = drawn(mesh, baked);
    let (indices, lods) = with_lods(m.indices, d.lods, d.lods.len());
    MergedModel {
        vertices: m.vertices + d.vertices,
        indices,
        slices: m.slices.push(SliceModel { vertex_offset: m.vertices.len() as i32, lods }),
        ids: m.ids.push(MeshId(m.ids.len() as u32)),
        baked: m.baked + if baked is Some {
            1nat
        } else {
            0
        },
        would_gain: m.would_gain + if baked is None && mesh.indices@.len() / 3
            >= bake::MIN_LOD_TRIS {
            1nat
        } else {
            0
        },
    }
}

pub open spec fn merged_of(
    meshes: Seq<MeshData>,
    baked: Seq<Option<BakedMesh>>,
    n: nat,
) -> MergedModel
    decreases n,
{
    if n == 0 {
        MergedModel {
            vertices: seq![],
            indices: seq![],
            slices: seq![],
            ids: seq![],
            baked: 0,
            would_gain: 0,
        }
    } else {
        with_mesh(merged_of(meshes, baked, (n - 1) as nat), meshes[n - 1], baked[n - 1])
    }
}

fn append_vertices(out: &mut Vec<Vertex>, more: &Vec<Vertex>)
    ensures
        final(out)@ == old(out)@ + more@,
{
    for i in 0..more.len()
        invariant
            out@ == old(out)@ + more@.take(i as int),
    {
        out.push(more[i]);
        assert(out@ =~= old(out)@ + more@.take(i + 1));
    }
    assert(more@.take(more@.len() as int) =~= more@);
}

fn append_indices(out: &mut Vec<u32>, more: &Vec<u32>)
    ensures
        final(out)@ == old(out)@ + more@,
{
    for i in 0..more.len()
        invariant
            out@ == old(out)@ + more@.take(i as int),
    {
        out.push(more[i]);
        assert(out@ =~= old(out)@ + more@.take(i + 1));
    }
    assert(more@.take(more@.len() as int) =~= more@);
}

fn merge_lods(indices: &mut Vec<u32>, baked: &BakedMesh) -> (r: Vec<LodSlice>)
    ensures
        ({
            let n: nat = if baked.lods@.len() < MAX_LODS {
                baked.lods@.len()
            } else {
                MAX_LODS as nat
            };
            (final(indices)@, r@) == with_lods(old(indices)@, baked@.lods.take(n as int), n)
        }),
{
    let n: usize = if baked.lods.len() < MAX_LODS {
        baked.lods.len()
    } else {
        MAX_LODS
    };
    let ghost lods = baked@.lods.take(n as int);
    let ghost start = indices@;
    let mut out: Vec<LodSlice> = Vec::new();
    assert(out@ =~= seq![]);
    for i in 0..n
        invariant
            n <= baked.lods@.len(),
            lods == baked@.lods.take(n as int),
            (indices@, out@) == with_lods(start, lods, i as nat),
    {
        let lod: &Lod = &baked.lods[i];
        assert(lods[i as int] == baked.lods@[i as int]@);
        out.push(
            LodSlice {
                first_index: indices.len() as u32,
                index_count: lod.indices.len() as u32,
                error: lod.error,
            },
        );
        append_indices(indices, &lod.indices);
    }
    out
}

/// Put meshes into shared buffers, in order. `baked` holds what a bake made of
/// each, where there is a bake of it.
pub fn merge_meshes(meshes: &Vec<MeshData>, baked: &Vec<Option<BakedMesh>>) -> (r: Merged)
    requires
        baked@.len() == meshes@.len(),
    ensures
        r@ == merged_of(meshes@, baked@, meshes@.len()),
{
    let mut out: Merged = Merged {
        vertices: Vec::new(),
        indices: Vec::new(),
        slices: Vec::new(),
        ids: Vec::new(),
        baked: 0,
        would_gain: 0,
    };
    proof {
        let none = merged_of(meshes@, baked@, 0);
        assert(out.vertices@ =~= none.vertices);
        assert(out.indices@ =~= none.indices);
        assert(slice_views(out.slices@) =~= none.slices);
        assert(out.ids@ =~= none.ids);
    }
    for i in 0..meshes.len()
        invariant
            baked@.len() == meshes@.len(),
            out@ == merged_of(meshes@, baked@, i as nat),
            out.baked <= i,
            out.would_gain <= i,
            out.ids@.len() == i,
    {
        let ghost before = out@;
        let vertex_offset: i32 = out.vertices.len() as i32;
        let lods: Vec<LodSlice>;
        match &baked[i] {
            Some(b) => {
                out.baked = out.baked + 1;
                lods = merge_lods(&mut out.indices, b);
                append_vertices(&mut out.vertices, &b.vertices);
            },
            None => {
                let mesh: &MeshData = &meshes[i];
                if mesh.indices.len() / 3 >= bake::MIN_LOD_TRIS {
                    out.would_gain = out.would_gain + 1;
                }
                lods = vec![
                    LodSlice {
                        first_index: out.indices.len() as u32,
                        index_count: mesh.indices.len() as u32,
                        error: F32 { bits: 0 },
                    },
                ];
                append_indices(&mut out.indices, &mesh.indices);
                append_vertices(&mut out.vertices, &mesh.vertices);
                proof {
                    let d = drawn(*mesh, None);
                    reveal_with_fuel(with_lods, 2);
                    assert(lods@ =~= with_lods(before.indices, d.lods, 1).1);
                }
            },
        }
        let ghost d = drawn(meshes@[i as int], baked@[i as int]);
        assert((out.indices@, lods@) == with_lods(before.indices, d.lods, d.lods.len()));
        let ghost slices = out.slices@;
        out.slices.push(MeshSlice { vertex_offset, lods });
        out.ids.push(MeshId(i as u32));
        proof {
            let want = with_mesh(before, meshes@[i as int], baked@[i as int]);
            assert(slice_views(out.slices@) =~= want.slices);
            assert(out@ == want);
        }
    }
    out
}

/// The offsets and ranges of a slice point at its own mesh.
pub open spec fn slice_holds(m: MergedModel, s: SliceModel, d: bake::MeshModel) -> bool {
    &&& 0 <= s.vertex_offset
    &&& s.vertex_offset + d.vertices.len() <= m.vertices.len()
    &&& m.vertices.subrange(s.vertex_offset as int, s.vertex_offset + d.vertices.len())
        == d.vertices
    &&& s.lods.len() == d.lods.len()
    &&& forall|j: int|
        0 <= j < d.lods.len() ==> lod_holds(m.indices, #[trigger] s.lods[j], d.lods[j])
}

pub open spec fn lod_holds(indices: Seq<u32>, s: LodSlice, lod: bake::LodModel) -> bool {
    &&& s.index_count == lod.indices.len()
    &&& s.error == lod.error
    &&& s.first_index + s.index_count <= indices.len()
    &&& indices.subrange(s.first_index as int, s.first_index + s.index_count) == lod.indices
}

proof fn lemma_lod_holds_longer(indices: Seq<u32>, more: Seq<u32>, s: LodSlice, lod: bake::LodModel)
    requires
        lod_holds(indices, s, lod),
    ensures
        lod_holds(indices + more, s, lod),
{
    assert((indices + more).subrange(s.first_index as int, s.first_index + s.index_count)
        =~= indices.subrange(s.first_index as int, s.first_index + s.index_count));
}

proof fn lemma_with_lods(indices: Seq<u32>, lods: Seq<bake::LodModel>, n: nat)
    requires
        n <= lods.len(),
        with_lods(indices, lods, n).0.len() <= u32::MAX,
    ensures
        with_lods(indices, lods, n).1.len() == n,
        indices.len() <= with_lods(indices, lods, n).0.len(),
        with_lods(indices, lods, n).0.take(indices.len() as int) == indices,
        forall|j: int|
            0 <= j < n ==> lod_holds(
                with_lods(indices, lods, n).0,
                #[trigger] with_lods(indices, lods, n).1[j],
                lods[j],
            ),
    decreases n,
{
    if n == 0 {
        assert(indices.take(indices.len() as int) =~= indices);
    } else {
        let (so_far, slices) = with_lods(indices, lods, (n - 1) as nat);
        let (all, out) = with_lods(indices, lods, n);
        lemma_with_lods(indices, lods, (n - 1) as nat);
        assert(all.take(indices.len() as int) =~= so_far.take(indices.len() as int));
        assert forall|j: int| 0 <= j < n implies lod_holds(all, #[trigger] out[j], lods[j]) by {
            if j < n - 1 {
                assert(out[j] == slices[j]);
                lemma_lod_holds_longer(so_far, lods[n - 1].indices, slices[j], lods[j]);
            } else {
                assert(all.subrange(so_far.len() as int, all.len() as int)
                    =~= lods[n - 1].indices);
            }
        }
    }
}

proof fn lemma_merged_grows(meshes: Seq<MeshData>, baked: Seq<Option<BakedMesh>>, n: nat)
    requires
        n > 0,
    ensures
        ({
            let m = merged_of(meshes, baked, (n - 1) as nat);
            let all = merged_of(meshes, baked, n);
            m.indices.len() <= all.indices.len() && m.vertices.len() <= all.vertices.len()
        }),
{
    let m = merged_of(meshes, baked, (n - 1) as nat);
    let d = drawn(meshes[n - 1], baked[n - 1]);
    lemma_with_lods_grows(m.indices, d.lods, d.lods.len());
}

proof fn lemma_with_lods_grows(indices: Seq<u32>, lods: Seq<bake::LodModel>, n: nat)
    ensures
        indices.len() <= with_lods(indices, lods, n).0.len(),
    decreases n,
{
    if n > 0 {
        lemma_with_lods_grows(indices, lods, (n - 1) as nat);
    }
}

/// Merging loses nothing: as long as the buffers can be addressed, every mesh's
/// vertices and every kept level's indices stand where its slice points.
pub proof fn law_slices_hold_their_meshes(
    meshes: Seq<MeshData>,
    baked: Seq<Option<BakedMesh>>,
    n: nat,
)
    requires
        n <= meshes.len(),
        merged_of(meshes, baked, n).indices.len() <= u32::MAX,
        merged_of(meshes, baked, n).vertices.len() <= i32::MAX,
    ensures
        merged_of(meshes, baked, n).slices.len() == n,
        merged_of(meshes, baked, n).ids.len() == n,
        forall|i: int|
            0 <= i < n ==> slice_holds(
                merged_of(meshes, baked, n),
                #[trigger] merged_of(meshes, baked, n).slices[i],
                drawn(meshes[i], baked[i]),
            ),
    decreases n,
{
    if n > 0 {
        let m = merged_of(meshes, baked, (n - 1) as nat);
        let all = merged_of(meshes, baked, n);
        let d = drawn(meshes[n - 1], baked[n - 1]);
        lemma_merged_grows(meshes, baked, n);
        law_slices_hold_their_meshes(meshes, baked, (n - 1) as nat);
        lemma_with_lods(m.indices, d.lods, d.lods.len());
        let rest = all.indices.skip(m.indices.len() as int);
        assert(all.indices =~= m.indices + rest);
        assert forall|i: int| 0 <= i < n implies slice_holds(
            all,
            #[trigger] all.slices[i],
            drawn(meshes[i], baked[i]),
        ) by {
            let s = all.slices[i];
            let e = drawn(meshes[i], baked[i]);
            if i < n - 1 {
                assert(s == m.slices[i]);
                assert(slice_holds(m, m.slices[i], e));
                assert(all.vertices.subrange(
                    s.vertex_offset as int,
                    s.vertex_offset + e.vertices.len(),
                ) =~= m.vertices.subrange(
                    s.vertex_offset as int,
                    s.vertex_offset + e.vertices.len(),
                ));
                assert forall|j: int| 0 <= j < e.lods.len() implies lod_holds(
                    all.indices,
                    #[trigger] s.lods[j],
                    e.lods[j],
                ) by {
                    lemma_lod_holds_longer(m.indices, rest, s.lods[j], e.lods[j]);
                }
            } else {
                assert(all.vertices.subrange(m.vertices.len() as int, all.vertices.len() as int)
                    =~= d.vertices);
            }
        }
    }
}

/// Of the levels that stay within the budget the coarsest is picked, and full
/// detail where none does.
pub proof fn law_the_coarsest_level_in_budget_is_picked(lods: Seq<LodSlice>, budget: F32, i: int)
    requires
        0 <= i < lods.len(),
    ensures
        pick(lods, budget) < lods.len(),
        lods[i].error.within(budget) ==> i <= pick(lods, budget)
            && lods[pick(lods, budget) as int].error.within(budget),
        pick(lods, budget) != 0 ==> lods[pick(lods, budget) as int].error.within(budget),
    decreases lods.len(),
{
    reveal_with_fuel(pick, 2);
    let rest = lods.drop_last();
    if i < rest.len() {
        law_the_coarsest_level_in_budget_is_picked(rest, budget, i);
    } else if rest.len() > 0 {
        law_the_coarsest_level_in_budget_is_picked(rest, budget, 0);
    }
}

/// A merged mesh is drawn from its own vertices and indices. One without a bake
/// has itself as its only level, with no error. A baked one has the levels of
/// its bake, the finest ones where there are more than can be kept.
pub proof fn law_merging_loses_nothing(
    meshes: Seq<MeshData>,
    baked: Seq<Option<BakedMesh>>,
    n: nat,
    i: int,
)
    requires
        0 <= i < n <= meshes.len(),
        merged_of(meshes, baked, n).indices.len() <= u32::MAX,
        merged_of(meshes, baked, n).vertices.len() <= i32::MAX,
    ensures
        ({
            let m = merged_of(meshes, baked, n);
            let s = m.slices[i];
            let at = s.vertex_offset as int;
            &&& m.ids.len() == n && m.slices.len() == n
            &&& m.ids[i] == MeshId(i as u32)
            &&& match baked[i] {
                None => {
                    let first = s.lods[0].first_index as int;
                    &&& m.vertices.subrange(at, at + meshes[i].vertices@.len())
                        == meshes[i].vertices@
                    &&& s.lods.len() == 1
                    &&& s.lods[0].index_count == meshes[i].indices@.len()
                    &&& s.lods[0].error.bits == 0
                    &&& m.indices.subrange(first, first + meshes[i].indices@.len())
                        == meshes[i].indices@
                },
                Some(b) => {
                    &&& m.vertices.subrange(at, at + b.vertices@.len()) == b.vertices@
                    &&& s.lods.len() == (if b.lods@.len() < 16 {
                        b.lods@.len()
                    } else {
                        16
                    })
                    &&& forall|j: int|
                        #![trigger s.lods[j]]
                        0 <= j < s.lods.len() ==> s.lods[j].error == b.lods@[j].error
                            && s.lods[j].index_count == b.lods@[j].indices@.len()
                            && m.indices.subrange(
                            s.lods[j].first_index as int,
                            s.lods[j].first_index + b.lods@[j].indices@.len(),
                        ) == b.lods@[j].indices@
                },
            }
        }),
{
    law_slices_hold_their_meshes(meshes, baked, n);
    lemma_ids(meshes, baked, n, i);
    let m = merged_of(meshes, baked, n);
    let s = m.slices[i];
    let d = drawn(meshes[i], baked[i]);
    assert(slice_holds(m, s, d));
    if let Some(b) = baked[i] {
        assert forall|j: int| #![trigger s.lods[j]] 0 <= j < s.lods.len() implies s.lods[j].error
            == b.lods@[j].error && s.lods[j].index_count == b.lods@[j].indices@.len()
            && m.indices.subrange(
            s.lods[j].first_index as int,
            s.lods[j].first_index + b.lods@[j].indices@.len(),
        ) == b.lods@[j].indices@ by {
            assert(lod_holds(m.indices, s.lods[j], d.lods[j]));
            assert(d.lods[j] == b.lods@[j]@);
        }
    } else {
        assert(lod_holds(m.indices, s.lods[0], d.lods[0]));
    }
}

proof fn lemma_ids(meshes: Seq<MeshData>, baked: Seq<Option<BakedMesh>>, n: nat, i: int)
    requires
        0 <= i < n,
    ensures
        merged_of(meshes, baked, n).ids.len() == n,
        merged_of(meshes, baked, n).ids[i] == MeshId(i as u32),
    decreases n,
{
    reveal_with_fuel(merged_of, 2);
    if i < n - 1 {
        lemma_ids(meshes, baked, (n - 1) as nat, i);
    } else if n > 1 {
        lemma_ids(meshes, baked, (n - 1) as nat, 0);
    }
}

/// Merging one more mesh leaves the buffers before it as they were, takes up
/// just its own vertices behind them, and counts it as baked, or as one that
/// would gain by a bake where it has at least 256 triangles.
pub proof fn law_merging_counts_bakes(meshes: Seq<MeshData>, baked: Seq<Option<BakedMesh>>, n: nat)
    ensures
        ({
            let less = merged_of(meshes, baked, n);
            let more = merged_of(meshes, baked, n + 1);
            let (mesh, bake) = (meshes[n as int], baked[n as int]);
            &&& more.baked == less.baked + (if bake is Some {
                1int
            } else {
                0
            })
            &&& more.would_gain == less.would_gain + (if bake is None && mesh.indices@.len()
                >= 768 {
                1int
            } else {
                0
            })
            &&& more.vertices.take(less.vertices.len() as int) == less.vertices
            &&& more.vertices.len() == less.vertices.len() + (match bake {
                Some(b) => b.vertices@.len(),
                None => mesh.vertices@.len(),
            })
            &&& more.slices.take(less.slices.len() as int) == less.slices
        }),
        merged_of(meshes, baked, 0).baked == 0,
        merged_of(meshes, baked, 0).would_gain == 0,
        merged_of(meshes, baked, 0).vertices.len() == 0,
        merged_of(meshes, baked, 0).indices.len() == 0,
{
}

/// What is said of slices and of merged meshes is said of their parts.
pub proof fn law_merged_meshes_are_seen_whole(m: Merged, slices: Seq<MeshSlice>, i: int)
    ensures
        m@.vertices == m.vertices@,
        m@.indices == m.indices@,
        m@.ids == m.ids@,
        m@.slices == slice_views(m.slices@),
        m@.baked == m.baked,
        m@.would_gain == m.would_gain,
        slice_views(slices).len() == slices.len(),
        0 <= i < slices.len() ==> slice_views(slices)[i].vertex_offset == slices[i].vertex_offset
            && slice_views(slices)[i].lods == slices[i].lods@,
{
}

} // verus!
