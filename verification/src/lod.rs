//! Levels of detail for the bake.
//!
//! The first level is the mesh itself with its triangles reordered. Each
//! further level is a simplification of the mesh towards half the triangles of
//! the level before; a simplification that gains too little ends the chain.
//! All levels index one list of vertices, brought into the order of first use.
use vstd::prelude::*;

use crate::bake;
use crate::bake::{BakedMesh, Lod, Vertex, MIN_LOD_TRIS};
use crate::float::F32;
use crate::mesh::MeshData;

verus! {

/// No level has fewer triangles than this.
pub const MIN_TRIS: usize = 64;

pub const MAX_LODS: usize = 8;

/// The triangles of an index list.
pub open spec fn triangles_of(indices: Seq<u32>) -> Seq<(u32, u32, u32)> {
    Seq::new(
        indices.len() / 3,
        |k: int| (indices[3 * k], indices[3 * k + 1], indices[3 * k + 2]),
    )
}

/// Whole triangles over `n` vertices, as many as can be counted with 32 bits.
pub open spec fn triangles_ok(indices: Seq<u32>, n: nat) -> bool {
    &&& indices.len() % 3 == 0
    &&& indices.len() <= u32::MAX
    &&& forall|i: int| 0 <= i < indices.len() ==> #[trigger] indices[i] < n
}

/// Whether an index list holds the triangles of another, in some order.
pub open spec fn reordered(indices: Seq<u32>, of: Seq<u32>) -> bool {
    &&& indices.len() == of.len()
    &&& triangles_of(indices).to_multiset() == triangles_of(of).to_multiset()
}

/// Whether `r` is an order in which the vertex cache optimizer puts the
/// triangles of `indices`, over some number of vertices. It goes by scores in
/// floating point, so machines may choose different orders for one mesh.
pub uninterp spec fn is_cache_order(indices: Seq<u32>, vertex_count: usize, r: Seq<u32>) -> bool;

/// `meshopt::optimize_vertex_cache`: the same triangles, each with its corners
/// in the same order, in an order that reuses transformed vertices. Which order
/// that is is left open, but for that the optimizer chose it for these indices
/// and this number of vertices.
#[verifier::external_body]
fn optimize_vertex_cache(indices: &Vec<u32>, vertex_count: usize) -> (r: Vec<u32>)
    requires
        triangles_ok(indices@, vertex_count as nat),
    ensures
        reordered(r@, indices@),
        is_cache_order(indices@, vertex_count, r@),
{
    meshopt::optimize_vertex_cache(indices.as_slice(), vertex_count)
}

/// The vertices that the first `n` indices use, each once, in the order of
/// first use.
pub open spec fn first_uses(indices: Seq<u32>, n: nat) -> Seq<u32>
    decreases n,
{
    if n == 0 {
        seq![]
    } else {
        let so_far = first_uses(indices, (n - 1) as nat);
        if so_far.contains(indices[n - 1]) {
            so_far
        } else {
            so_far.push(indices[n - 1])
        }
    }
}

/// `meshopt::optimize_vertex_fetch`: the vertices that are used, in the order of
/// first use, and every index changed to where its vertex went.
#[verifier::external_body]
fn optimize_vertex_fetch(indices: &mut Vec<u32>, vertices: &Vec<Vertex>) -> (r: Vec<Vertex>)
    requires
        forall|i: int| 0 <= i < old(indices)@.len() ==> #[trigger] old(indices)@[i] < vertices@.len(),
        vertices@.len() <= u32::MAX,
    ensures
        r@ == first_uses(old(indices)@, old(indices)@.len()).map_values(
            |v: u32| vertices@[v as int],
        ),
        final(indices)@.len() == old(indices)@.len(),
        forall|i: int|
            0 <= i < final(indices)@.len() ==> (#[trigger] final(indices)@[i]) < r@.len()
                && first_uses(old(indices)@, old(indices)@.len())[final(indices)@[i] as int]
                == old(indices)@[i],
{
    meshopt::optimize_vertex_fetch(indices.as_mut_slice(), vertices.as_slice())
}

/// Whether an index list is whole triangles over `n` vertices.
pub fn whole_triangles(indices: &Vec<u32>, n: usize) -> (r: bool)
    ensures
        r == triangles_ok(indices@, n as nat),
{
    if indices.len() % 3 != 0 || indices.len() > 0xffff_ffff {
        return false;
    }
    for i in 0..indices.len()
        invariant
            forall|j: int| 0 <= j < i ==> #[trigger] indices@[j] < n,
    {
        if indices[i] as usize >= n {
            assert(!(indices@[i as int] < n));
            return false;
        }
    }
    true
}

/// The larger of two numbers; a NaN gives way to the other.
pub open spec fn larger(a: F32, b: F32) -> F32 {
    if a.nan() {
        b
    } else if b.nan() {
        a
    } else if a.below(b) {
        b
    } else {
        a
    }
}

fn max(a: F32, b: F32) -> (r: F32)
    ensures
        r == larger(a, b),
{
    if a.is_nan() {
        b
    } else if b.is_nan() {
        a
    } else if a.is_below(b) {
        b
    } else {
        a
    }
}

/// The levels of a mesh as they are made, before their vertices are put in
/// order.
#[derive(Debug)]
pub struct LodChain {
    pub lods: Vec<Lod>,
    pub vertex_count: usize,
    /// Whether the mesh is large enough for further levels.
    pub simplify: bool,
}

pub open spec fn lod_views(lods: Seq<Lod>) -> Seq<bake::LodModel> {
    Seq::new(lods.len(), |i: int| lods[i]@)
}

impl LodChain {
    /// There is a first level, there are not too many, and every level is whole
    /// triangles over the mesh's vertices.
    pub open spec fn whole(&self) -> bool {
        &&& 1 <= self.lods@.len() <= MAX_LODS
        &&& forall|i: int|
            0 <= i < self.lods@.len() ==> triangles_ok(
                (#[trigger] self.lods@[i]).indices@,
                self.vertex_count as nat,
            )
    }

    /// Start with the mesh itself.
    pub fn start(mesh: &MeshData) -> (r: LodChain)
        requires
            triangles_ok(mesh.indices@, mesh.vertices@.len()),
        ensures
            r.whole(),
            r.lods@.len() == 1,
            r.lods@[0].error == bake::zero(),
            reordered(r.lods@[0].indices@, mesh.indices@),
            is_cache_order(mesh.indices@, r.vertex_count, r.lods@[0].indices@),
            r.vertex_count == mesh.vertices@.len(),
            r.simplify == (mesh.indices@.len() / 3 >= MIN_LOD_TRIS),
    {
        let n: usize = mesh.vertices.len();
        let indices: Vec<u32> = optimize_vertex_cache(&mesh.indices, n);
        proof {
            lemma_reordered_ok(indices@, mesh.indices@, n as nat);
        }
        LodChain {
            lods: vec![Lod { error: F32 { bits: 0 }, indices }],
            vertex_count: n,
            simplify: mesh.indices.len() / 3 >= MIN_LOD_TRIS,
        }
    }

    /// Triangles of the coarsest level so far.
    pub open spec fn last_tris(&self) -> int {
        self.lods@.last().indices@.len() as int / 3
    }

    /// How many indices the next level aims for, if there is to be one.
    pub fn next_target(&self) -> (r: Option<usize>)
        requires
            self.whole(),
        ensures
            r == (if self.simplify && self.lods@.len() < MAX_LODS && self.last_tris() / 2
                >= MIN_TRIS {
                Some((self.last_tris() / 2 * 3) as usize)
            } else {
                None
            }),
            r matches Some(t) ==> t % 3 == 0 && t >= 192 && 2 * t
                <= self.lods@.last().indices@.len() < 2 * t + 6,
            self.simplify && self.lods@.len() < 8 && self.lods@.last().indices@.len() >= 384
                ==> r is Some,
    {
        let last: usize = self.lods[self.lods.len() - 1].indices.len() / 3;
        if self.simplify && self.lods.len() < MAX_LODS && last / 2 >= MIN_TRIS {
            Some(last / 2 * 3)
        } else {
            None
        }
    }

    /// Whether a simplification becomes a level: there is room for one, and it
    /// has triangles enough, and at least a tenth fewer than the level before.
    pub open spec fn gains(&self, simplified: Seq<u32>) -> bool {
        let tris = simplified.len() as int / 3;
        self.lods@.len() < MAX_LODS && tris >= MIN_TRIS && 10 * tris <= 9 * self.last_tris()
    }

    /// Hand in a simplification with its error in the mesh's own units. It
    /// becomes a level if it gains enough; its error counts as no smaller than
    /// that of the level before.
    pub fn offer(&mut self, simplified: &Vec<u32>, error: F32) -> (r: bool)
        requires
            old(self).whole(),
            triangles_ok(simplified@, old(self).vertex_count as nat),
        ensures
            final(self).whole(),
            r == old(self).gains(simplified@),
            final(self).vertex_count == old(self).vertex_count,
            final(self).simplify == old(self).simplify,
            !r ==> final(self).lods@ == old(self).lods@,
            r ==> {
                &&& final(self).lods@.len() == old(self).lods@.len() + 1
                &&& final(self).lods@.drop_last() == old(self).lods@
                &&& final(self).lods@.last().error == larger(error, old(self).lods@.last().error)
                &&& reordered(final(self).lods@.last().indices@, simplified@)
                &&& is_cache_order(
                    simplified@,
                    old(self).vertex_count,
                    final(self).lods@.last().indices@,
                )
            },
    {
        let last: usize = self.lods.len() - 1;
        let prev_tris: usize = self.lods[last].indices.len() / 3;
        let tris: usize = simplified.len() / 3;
        assert(prev_tris == self.last_tris());
        assert(triangles_ok(self.lods@[last as int].indices@, self.vertex_count as nat));
        if self.lods.len() >= MAX_LODS || tris < MIN_TRIS || 10 * tris as u64 > 9 * prev_tris as u64 {
            return false;
        }
        let error: F32 = max(error, self.lods[last].error);
        let indices: Vec<u32> = optimize_vertex_cache(simplified, self.vertex_count);
        proof {
            lemma_reordered_ok(indices@, simplified@, self.vertex_count as nat);
        }
        self.lods.push(Lod { error, indices });
        assert(self.lods@.drop_last() =~= old(self).lods@);
        true
    }
}

proof fn lemma_reordered_ok(r: Seq<u32>, of: Seq<u32>, n: nat)
    requires
        triangles_ok(of, n),
        reordered(r, of),
    ensures
        triangles_ok(r, n),
{
    broadcast use vstd::seq_lib::group_to_multiset_ensures;

    let a = triangles_of(r);
    let b = triangles_of(of);
    assert forall|i: int| 0 <= i < r.len() implies #[trigger] r[i] < n by {
        let k = i / 3;
        let t = a[k];
        assert(a.contains(t));
        assert(a.to_multiset().count(t) > 0);
        assert(b.contains(t));
        let j = choose|j: int| 0 <= j < b.len() && b[j] == t;
        assert(of[3 * j] < n);
        assert(of[3 * j + 1] < n);
        assert(of[3 * j + 2] < n);
        assert(i == 3 * k || i == 3 * k + 1 || i == 3 * k + 2);
    }
}

/// The indices of the first `n` levels, one level after the other.
pub open spec fn indices_of(lods: Seq<Lod>, n: nat) -> Seq<u32>
    decreases n,
{
    if n == 0 {
        seq![]
    } else {
        indices_of(lods, (n - 1) as nat) + lods[n - 1].indices@
    }
}

/// Whether a baked mesh is a chain with its vertices in the order of first use
/// over all levels.
pub open spec fn put_in_order(lods: Seq<Lod>, vertices: Seq<Vertex>, r: BakedMesh) -> bool {
    let order = first_uses(indices_of(lods, lods.len()), indices_of(lods, lods.len()).len());
    &&& r.vertices@ == order.map_values(|v: u32| vertices[v as int])
    &&& r.lods@.len() == lods.len()
    &&& forall|i: int|
        0 <= i < lods.len() ==> level_in_order(lods[i], order, #[trigger] r.lods@[i])
}

/// Whether a level has the indices of another after the vertices moved.
pub open spec fn level_in_order(lod: Lod, order: Seq<u32>, r: Lod) -> bool {
    &&& r.error == lod.error
    &&& r.indices@.len() == lod.indices@.len()
    &&& forall|k: int|
        0 <= k < r.indices@.len() ==> (#[trigger] r.indices@[k]) < order.len()
            && order[r.indices@[k] as int] == lod.indices@[k]
}

proof fn lemma_indices_in_range(lods: Seq<Lod>, count: nat, n: nat)
    requires
        n <= lods.len(),
        forall|i: int|
            0 <= i < lods.len() ==> triangles_ok((#[trigger] lods[i]).indices@, count),
    ensures
        forall|i: int|
            0 <= i < indices_of(lods, n).len() ==> #[trigger] indices_of(lods, n)[i] < count,
    decreases n,
{
    if n > 0 {
        lemma_indices_in_range(lods, count, (n - 1) as nat);
        let a = indices_of(lods, (n - 1) as nat);
        let b = lods[n - 1].indices@;
        assert forall|i: int| 0 <= i < (a + b).len() implies #[trigger] (a + b)[i] < count by {
            if i < a.len() {
                assert((a + b)[i] == a[i]);
            } else {
                assert((a + b)[i] == b[i - a.len()]);
            }
        }
    }
}

proof fn lemma_indices_place(lods: Seq<Lod>, i: int, n: nat)
    requires
        0 <= i < n <= lods.len(),
    ensures
        indices_of(lods, i as nat).len() + lods[i].indices@.len() <= indices_of(lods, n).len(),
        forall|k: int|
            0 <= k < lods[i].indices@.len() ==> indices_of(lods, n)[indices_of(
                lods,
                i as nat,
            ).len() + k] == #[trigger] lods[i].indices@[k],
    decreases n,
{
    if i < n - 1 {
        lemma_indices_place(lods, i, (n - 1) as nat);
    }
}

impl LodChain {
    /// Put the vertices in the order of first use over all levels, first level
    /// first, and leave out those that no level uses.
    pub fn finish(self, vertices: &Vec<Vertex>) -> (r: BakedMesh)
        requires
            self.whole(),
            self.vertex_count == vertices@.len(),
            vertices@.len() <= u32::MAX,
        ensures
            put_in_order(self.lods@, vertices@, r),
    {
        let mut all: Vec<u32> = Vec::new();
        let n: usize = self.lods.len();
        assert(all@ =~= seq![]);
        for i in 0..n
            invariant
                n == self.lods@.len(),
                all@ == indices_of(self.lods@, i as nat),
        {
            let level: &Lod = &self.lods[i];
            for k in 0..level.indices.len()
                invariant
                    n == self.lods@.len(),
                    i < n,
                    *level == self.lods@[i as int],
                    all@ == indices_of(self.lods@, i as nat) + level.indices@.take(k as int),
            {
                all.push(level.indices[k]);
                assert(all@ =~= indices_of(self.lods@, i as nat) + level.indices@.take(k + 1));
            }
            assert(level.indices@.take(level.indices@.len() as int) =~= level.indices@);
        }
        let ghost before = all@;
        let ghost order = first_uses(before, before.len());
        proof {
            lemma_indices_in_range(self.lods@, self.vertex_count as nat, n as nat);
        }
        let fetched: Vec<Vertex> = optimize_vertex_fetch(&mut all, vertices);
        let mut lods: Vec<Lod> = Vec::new();
        let total: usize = all.len();
        let mut at: usize = 0;
        for i in 0..n
            invariant
                n == self.lods@.len(),
                total == all@.len(),
                before == indices_of(self.lods@, n as nat),
                order == first_uses(before, before.len()),
                all@.len() == before.len(),
                fetched@.len() == order.len(),
                forall|k: int|
                    0 <= k < all@.len() ==> (#[trigger] all@[k]) < fetched@.len()
                        && order[all@[k] as int] == before[k],
                at == indices_of(self.lods@, i as nat).len(),
                lods@.len() == i,
                forall|j: int|
                    0 <= j < i ==> level_in_order(self.lods@[j], order, #[trigger] lods@[j]),
        {
            let level: &Lod = &self.lods[i];
            let len: usize = level.indices.len();
            proof {
                lemma_indices_place(self.lods@, i as int, n as nat);
            }
            let mut indices: Vec<u32> = Vec::new();
            for k in 0..len
                invariant
                    len == level.indices@.len(),
                    at + len <= all@.len(),
                    total == all@.len(),
                    all@.len() == before.len(),
                    fetched@.len() == order.len(),
                    forall|k: int|
                        0 <= k < all@.len() ==> (#[trigger] all@[k]) < fetched@.len()
                            && order[all@[k] as int] == before[k],
                    forall|k: int|
                        0 <= k < level.indices@.len() ==> before[at + k]
                            == #[trigger] level.indices@[k],
                    indices@.len() == k,
                    forall|j: int|
                        0 <= j < k ==> (#[trigger] indices@[j]) < order.len()
                            && order[indices@[j] as int] == level.indices@[j],
            {
                assert(before[at + k] == level.indices@[k as int]);
                assert(all@[at + k] < fetched@.len());
                indices.push(all[at + k]);
            }
            lods.push(Lod { error: level.error, indices });
            at = at + len;
        }
        BakedMesh { vertices: fetched, lods }
    }
}

/// A level's triangles with their vertices in place of indices.
pub open spec fn corners(vertices: Seq<Vertex>, indices: Seq<u32>) -> Seq<(Vertex, Vertex, Vertex)> {
    triangles_of(indices).map_values(
        |t: (u32, u32, u32)|
            (vertices[t.0 as int], vertices[t.1 as int], vertices[t.2 as int]),
    )
}

proof fn lemma_mapped_multisets<A, B>(a: Seq<A>, b: Seq<A>, f: spec_fn(A) -> B)
    requires
        a.to_multiset() == b.to_multiset(),
    ensures
        a.map_values(f).to_multiset() == b.map_values(f).to_multiset(),
    decreases a.len(),
{
    broadcast use vstd::seq_lib::group_to_multiset_ensures;
    broadcast use vstd::multiset::group_multiset_axioms;

    assert(a.len() == a.to_multiset().len());
    assert(b.len() == b.to_multiset().len());
    if a.len() == 0 {
        assert(a.map_values(f) =~= b.map_values(f));
    } else {
        let x = a.last();
        assert(a.contains(x));
        assert(a.to_multiset().count(x) > 0);
        assert(b.contains(x));
        let j = choose|j: int| 0 <= j < b.len() && b[j] == x;
        let rest = b.remove(j);
        assert(a.drop_last() =~= a.remove(a.len() - 1));
        assert(a.drop_last().to_multiset() =~= rest.to_multiset());
        lemma_mapped_multisets(a.drop_last(), rest, f);
        assert(a.map_values(f) =~= a.drop_last().map_values(f).push(f(x)));
        assert(rest.map_values(f) =~= b.map_values(f).remove(j));
        assert(b.map_values(f)[j] == f(x));
        assert(b.map_values(f).remove(j).to_multiset() == b.map_values(f).to_multiset().remove(
            f(x),
        ));
        assert(b.map_values(f).contains(f(x)));
        assert(b.map_values(f).to_multiset() =~= b.map_values(f).to_multiset().remove(
            f(x),
        ).insert(f(x)));
    }
}

/// Moving the vertices changes no triangle of any level.
pub proof fn law_levels_keep_their_triangles(
    lods: Seq<Lod>,
    vertices: Seq<Vertex>,
    r: BakedMesh,
    i: int,
)
    requires
        put_in_order(lods, vertices, r),
        0 <= i < lods.len(),
    ensures
        corners(r.vertices@, r.lods@[i].indices@) == corners(vertices, lods[i].indices@),
{
    let order = first_uses(indices_of(lods, lods.len()), indices_of(lods, lods.len()).len());
    let a = r.lods@[i].indices@;
    let b = lods[i].indices@;
    assert(level_in_order(lods[i], order, r.lods@[i]));
    assert forall|k: int| 0 <= k < a.len() implies r.vertices@[a[k] as int]
        == vertices[#[trigger] b[k] as int] by {
        assert(a[k] < order.len());
        assert(r.vertices@[a[k] as int] == vertices[order[a[k] as int] as int]);
    }
    assert forall|k: int| 0 <= k < a.len() as int / 3 implies corners(r.vertices@, a)[k] == corners(
        vertices,
        b,
    )[k] by {
        assert(b[3 * k] == b[3 * k]);
        assert(b[3 * k + 1] == b[3 * k + 1]);
        assert(b[3 * k + 2] == b[3 * k + 2]);
    }
    assert(corners(r.vertices@, a) =~= corners(vertices, b));
}

/// The first level of a baked mesh is the mesh: the same triangles with the
/// same vertices, in another order.
pub proof fn law_full_detail_is_the_mesh(mesh: MeshData, lods: Seq<Lod>, r: BakedMesh)
    requires
        lods.len() >= 1,
        reordered(lods[0].indices@, mesh.indices@),
        put_in_order(lods, mesh.vertices@, r),
    ensures
        corners(r.vertices@, r.lods@[0].indices@).to_multiset() == corners(
            mesh.vertices@,
            mesh.indices@,
        ).to_multiset(),
{
    law_levels_keep_their_triangles(lods, mesh.vertices@, r, 0);
    lemma_mapped_multisets(
        triangles_of(lods[0].indices@),
        triangles_of(mesh.indices@),
        |t: (u32, u32, u32)|
            (mesh.vertices@[t.0 as int], mesh.vertices@[t.1 as int], mesh.vertices@[t.2 as int]),
    );
}

proof fn lemma_first_uses(indices: Seq<u32>, count: nat, n: nat)
    requires
        n <= indices.len(),
        forall|i: int| 0 <= i < indices.len() ==> #[trigger] indices[i] < count,
    ensures
        first_uses(indices, n).no_duplicates(),
        forall|i: int|
            0 <= i < first_uses(indices, n).len() ==> #[trigger] first_uses(indices, n)[i] < count,
    decreases n,
{
    if n > 0 {
        lemma_first_uses(indices, count, (n - 1) as nat);
    }
}

proof fn lemma_at_most(s: Seq<u32>, n: nat)
    requires
        s.no_duplicates(),
        forall|i: int| 0 <= i < s.len() ==> #[trigger] s[i] < n,
    ensures
        s.len() <= n,
    decreases n,
{
    if n == 0 {
        assert(s.len() > 0 ==> s[0] < n);
    } else if exists|j: int| 0 <= j < s.len() && s[j] == n - 1 {
        let j = choose|j: int| 0 <= j < s.len() && s[j] == n - 1;
        let rest = s.remove(j);
        assert forall|i: int| 0 <= i < rest.len() implies #[trigger] rest[i] < n - 1 by {
            assert(rest[i] == if i < j {
                s[i]
            } else {
                s[i + 1]
            });
        }
        assert(rest.no_duplicates());
        lemma_at_most(rest, (n - 1) as nat);
    } else {
        assert forall|i: int| 0 <= i < s.len() implies #[trigger] s[i] < n - 1 by {
            assert(s[i] != n - 1);
        }
        lemma_at_most(s, (n - 1) as nat);
    }
}

proof fn lemma_lods_ok_each(ls: Seq<bake::LodModel>, n: nat, i: int)
    requires
        bake::lods_ok(ls, n),
        0 <= i < ls.len(),
    ensures
        triangles_ok(ls[i].indices, n),
    decreases ls.len(),
{
    if i < ls.len() - 1 {
        lemma_lods_ok_each(ls.drop_last(), n, i);
    }
}

proof fn lemma_lods_ok_moved(a: Seq<bake::LodModel>, b: Seq<bake::LodModel>, m: nat, n: nat)
    requires
        bake::lods_ok(a, m),
        a.len() == b.len(),
        forall|i: int| #![trigger b[i]]
            0 <= i < b.len() ==> b[i].error == a[i].error && b[i].indices.len()
                == a[i].indices.len() && (forall|k: int|
                0 <= k < b[i].indices.len() ==> #[trigger] b[i].indices[k] < n),
    ensures
        bake::lods_ok(b, n),
    decreases a.len(),
{
    if a.len() > 0 {
        let a2 = a.drop_last();
        let b2 = b.drop_last();
        assert forall|i: int| #![trigger b2[i]]
            0 <= i < b2.len() implies b2[i].error == a2[i].error && b2[i].indices.len()
            == a2[i].indices.len() && (forall|k: int|
            0 <= k < b2[i].indices.len() ==> #[trigger] b2[i].indices[k] < n) by {
            assert(b2[i] == b[i]);
        }
        lemma_lods_ok_moved(a2, b2, m, n);
        assert(b[b.len() - 1].error == a[a.len() - 1].error);
        if a2.len() > 0 {
            assert(b[b.len() - 2].error == a[a.len() - 2].error);
        }
    }
}

/// Where the levels of a chain can be trusted, so can the baked mesh, and what
/// is written of it is read back.
pub proof fn law_baked_levels_can_be_trusted(lods: Seq<Lod>, vertices: Seq<Vertex>, r: BakedMesh)
    requires
        1 <= lods.len() <= u32::MAX,
        bake::lods_ok(lod_views(lods), vertices.len()),
        vertices.len() <= u32::MAX,
        put_in_order(lods, vertices, r),
    ensures
        bake::mesh_ok(r@),
        bake::parse_mesh(bake::mesh_bytes(r@)) == Ok::<bake::MeshModel, bake::BakeError>(r@),
{
    let order = first_uses(indices_of(lods, lods.len()), indices_of(lods, lods.len()).len());
    assert forall|i: int| #![trigger r@.lods[i]]
        0 <= i < r@.lods.len() implies r@.lods[i].error == lod_views(lods)[i].error
        && r@.lods[i].indices.len() == lod_views(lods)[i].indices.len() && (forall|k: int|
        0 <= k < r@.lods[i].indices.len() ==> #[trigger] r@.lods[i].indices[k]
            < r.vertices@.len()) by {
        assert(level_in_order(lods[i], order, r.lods@[i]));
    }
    lemma_lods_ok_moved(lod_views(lods), r@.lods, vertices.len(), r.vertices@.len());
    assert forall|i: int| 0 <= i < lods.len() implies triangles_ok(
        (#[trigger] lods[i]).indices@,
        vertices.len(),
    ) by {
        lemma_lods_ok_each(lod_views(lods), vertices.len(), i);
    }
    lemma_indices_in_range(lods, vertices.len(), lods.len());
    let all = indices_of(lods, lods.len());
    lemma_first_uses(all, vertices.len(), all.len());
    lemma_at_most(order, vertices.len());
    bake::law_mesh_round_trip(r@);
}

/// A level that was taken keeps a chain trustworthy, as long as its error is a
/// finite number.
pub proof fn law_taken_levels_can_be_trusted(
    before: Seq<Lod>,
    after: Seq<Lod>,
    error: F32,
    n: nat,
)
    requires
        bake::lods_ok(lod_views(before), n),
        before.len() >= 1,
        after.len() == before.len() + 1,
        after.drop_last() == before,
        after.last().error == larger(error, before.last().error),
        triangles_ok(after.last().indices@, n),
        after.last().indices@.len() > 0,
        error.finite(),
    ensures
        bake::lods_ok(lod_views(after), n),
{
    assert(lod_views(after).drop_last() =~= lod_views(before));
    assert(lod_views(before).last().error == before.last().error);
    assert(bake::lod_ok(
        lod_views(before).last(),
        n,
        bake::last_error(lod_views(before).drop_last()),
    ));
}

/// A simplification becomes a level just when fewer than eight are there, it has
/// 64 triangles or more, and at most nine tenths of the last level's.
pub proof fn law_levels_must_gain(chain: LodChain, simplified: Seq<u32>)
    requires
        chain.lods@.len() >= 1,
    ensures
        chain.gains(simplified) <==> {
            &&& chain.lods@.len() < 8
            &&& simplified.len() >= 192
            &&& 10 * (simplified.len() / 3) <= 9 * (chain.lods@.last().indices@.len() / 3)
        },
{
}

/// The larger of two numbers is one of them, and no smaller than either. A NaN
/// is never chosen over a number.
pub proof fn law_the_larger_is_no_smaller(a: F32, b: F32)
    ensures
        larger(a, b) == a || larger(a, b) == b,
        !a.nan() ==> !larger(a, b).nan() && !larger(a, b).below(a),
        !b.nan() ==> !larger(a, b).nan() && !larger(a, b).below(b),
{
}

/// A baked mesh has the levels of its chain with their errors, and every vertex
/// that it keeps is one of the mesh's that some level uses.
pub proof fn law_baked_meshes_keep_what_is_used(
    lods: Seq<Lod>,
    vertices: Seq<Vertex>,
    r: BakedMesh,
)
    requires
        put_in_order(lods, vertices, r),
    ensures
        r.lods@.len() == lods.len(),
        forall|i: int|
            0 <= i < lods.len() ==> (#[trigger] r.lods@[i]).error == lods[i].error
                && r.lods@[i].indices@.len() == lods[i].indices@.len(),
        forall|v: int|
            0 <= v < r.vertices@.len() ==> is_corner(lods, vertices, #[trigger] r.vertices@[v]),
{
    let all = indices_of(lods, lods.len());
    let order = first_uses(all, all.len());
    assert forall|i: int| 0 <= i < lods.len() implies (#[trigger] r.lods@[i]).error
        == lods[i].error && r.lods@[i].indices@.len() == lods[i].indices@.len() by {
        assert(level_in_order(lods[i], order, r.lods@[i]));
    }
    assert forall|v: int| 0 <= v < r.vertices@.len() implies is_corner(
        lods,
        vertices,
        #[trigger] r.vertices@[v],
    ) by {
        lemma_uses_are_used(all, all.len(), v);
        let k = choose|k: int| 0 <= k < all.len() && all[k] == order[v];
        let i = lemma_level_of(lods, lods.len(), k);
        let j = k - indices_of(lods, i as nat).len();
        lemma_indices_place(lods, i, lods.len());
        assert(lods[i].indices@[j] == order[v]);
        assert(corner_at(lods, vertices, i, j) == r.vertices@[v]);
    }
}

/// The vertex of an index of a level.
pub open spec fn corner_at(lods: Seq<Lod>, vertices: Seq<Vertex>, i: int, j: int) -> Vertex {
    vertices[lods[i].indices@[j] as int]
}

/// Whether a level uses a vertex.
pub open spec fn is_corner(lods: Seq<Lod>, vertices: Seq<Vertex>, v: Vertex) -> bool {
    exists|i: int, j: int|
        0 <= i < lods.len() && 0 <= j < lods[i].indices@.len() && #[trigger] corner_at(
            lods,
            vertices,
            i,
            j,
        ) == v
}

proof fn lemma_uses_are_used(indices: Seq<u32>, n: nat, v: int)
    requires
        n <= indices.len(),
        0 <= v < first_uses(indices, n).len(),
    ensures
        exists|k: int| 0 <= k < n && indices[k] == first_uses(indices, n)[v],
    decreases n,
{
    if n > 0 {
        let less = first_uses(indices, (n - 1) as nat);
        if v < less.len() {
            lemma_uses_are_used(indices, (n - 1) as nat, v);
            let k = choose|k: int| 0 <= k < n - 1 && indices[k] == less[v];
            assert(indices[k] == first_uses(indices, n)[v]);
        } else {
            assert(indices[n - 1] == first_uses(indices, n)[v]);
        }
    }
}

proof fn lemma_level_of(lods: Seq<Lod>, n: nat, k: int) -> (i: int)
    requires
        n <= lods.len(),
        0 <= k < indices_of(lods, n).len(),
    ensures
        0 <= i < n,
        indices_of(lods, i as nat).len() <= k < indices_of(lods, i as nat).len()
            + lods[i].indices@.len(),
    decreases n,
{
    let less = indices_of(lods, (n - 1) as nat).len();
    if k < less {
        lemma_level_of(lods, (n - 1) as nat, k)
    } else {
        n - 1
    }
}

} // verus!
