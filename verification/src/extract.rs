//! Which instances each view of a frame draws.
//!
//! The camera draws what stands in its view. Each shadow cascade draws what
//! stands in its own view, as far as it casts shadows at all.
use vstd::prelude::*;

use crate::draws::{MeshId, SHADOW_CASCADES};
use crate::runs::InstanceData;

verus! {

/// An instance, and the views whose frustum its bounding sphere reaches.
#[derive(Clone, Copy, Debug)]
pub struct Seen {
    pub mesh: MeshId,
    pub instance: InstanceData,
    pub camera: bool,
    pub cascades: [bool; 4],
    /// It is marked as one that casts no shadow.
    pub no_shadow: bool,
}

/// What each view draws.
#[derive(Debug)]
pub struct Extracted {
    pub main: Vec<(MeshId, InstanceData)>,
    pub shadows: Vec<Vec<(MeshId, InstanceData)>>,
}

/// The mesh that an instance is drawn with: its own, or the last there is.
pub fn known_mesh(mesh: u32, count: usize) -> (r: usize)
    ensures
        r == (if mesh < count {
            mesh as int
        } else if count == 0 {
            0
        } else {
            count - 1
        }),
{
    if (mesh as u64) < count as u64 {
        mesh as usize
    } else if count == 0 {
        0
    } else {
        count - 1
    }
}

/// Whether the main view draws an instance.
pub open spec fn in_main(s: Seen) -> bool {
    s.camera
}

/// Whether a cascade draws an instance, where shadows are on at all.
pub open spec fn in_cascade(s: Seen, shadows: bool, c: int) -> bool {
    shadows && !s.no_shadow && s.cascades@[c]
}

/// What the main view draws of the first `n` instances.
pub open spec fn main_of(seen: Seq<Seen>, n: nat) -> Seq<(MeshId, InstanceData)>
    decreases n,
{
    if n == 0 {
        seq![]
    } else {
        let before = main_of(seen, (n - 1) as nat);
        let s = seen[n - 1];
        if in_main(s) {
            before.push((s.mesh, s.instance))
        } else {
            before
        }
    }
}

/// What a cascade draws of the first `n` instances.
pub open spec fn casters_of(seen: Seq<Seen>, shadows: bool, c: int, n: nat) -> Seq<
    (MeshId, InstanceData),
>
    decreases n,
{
    if n == 0 {
        seq![]
    } else {
        let before = casters_of(seen, shadows, c, (n - 1) as nat);
        let s = seen[n - 1];
        if in_cascade(s, shadows, c) {
            before.push((s.mesh, s.instance))
        } else {
            before
        }
    }
}

fn casters(seen: &Vec<Seen>, shadows: bool, c: usize) -> (r: Vec<(MeshId, InstanceData)>)
    requires
        c < SHADOW_CASCADES,
    ensures
        r@ == casters_of(seen@, shadows, c as int, seen@.len()),
{
    let mut out: Vec<(MeshId, InstanceData)> = Vec::new();
    assert(out@ =~= seq![]);
    let n: usize = seen.len();
    for i in 0..n
        invariant
            n == seen@.len(),
            c < SHADOW_CASCADES,
            out@ == casters_of(seen@, shadows, c as int, i as nat),
    {
        let s: Seen = seen[i];
        if shadows && !s.no_shadow && s.cascades[c] {
            out.push((s.mesh, s.instance));
        }
    }
    out
}

/// Share the instances out to the views. An instance can be drawn by several
/// cascades, and by a cascade without being in the main view: what casts a
/// shadow into it need not stand in it.
pub fn extract(seen: &Vec<Seen>, shadows: bool) -> (r: Extracted)
    ensures
        r.main@ == main_of(seen@, seen@.len()),
        r.shadows@.len() == SHADOW_CASCADES,
        forall|c: int|
            0 <= c < SHADOW_CASCADES ==> (#[trigger] r.shadows@[c])@ == casters_of(
                seen@,
                shadows,
                c,
                seen@.len(),
            ),
{
    let mut main: Vec<(MeshId, InstanceData)> = Vec::new();
    assert(main@ =~= seq![]);
    let n: usize = seen.len();
    for i in 0..n
        invariant
            n == seen@.len(),
            main@ == main_of(seen@, i as nat),
    {
        let s: Seen = seen[i];
        if s.camera {
            main.push((s.mesh, s.instance));
        }
    }
    let mut cascades: Vec<Vec<(MeshId, InstanceData)>> = Vec::new();
    for c in 0..SHADOW_CASCADES
        invariant
            cascades@.len() == c,
            forall|k: int|
                0 <= k < c ==> (#[trigger] cascades@[k])@ == casters_of(
                    seen@,
                    shadows,
                    k,
                    seen@.len(),
                ),
    {
        cascades.push(casters(seen, shadows, c));
    }
    Extracted { main, shadows: cascades }
}

/// With shadows off nothing casts one: every cascade is left cleared.
pub proof fn law_no_shadows_no_casters(seen: Seq<Seen>, c: int, n: nat)
    ensures
        casters_of(seen, false, c, n).len() == 0,
    decreases n,
{
    if n > 0 {
        law_no_shadows_no_casters(seen, c, (n - 1) as nat);
    }
}

/// Whether an item is one of the first `n` instances, and in the main view.
pub open spec fn seen_in_main(seen: Seq<Seen>, n: nat, item: (MeshId, InstanceData)) -> bool {
    exists|i: int|
        0 <= i < n && in_main(#[trigger] seen[i]) && item == (seen[i].mesh, seen[i].instance)
}

/// Whether an item is one of the first `n` instances, and drawn by a cascade.
pub open spec fn seen_in_cascade(
    seen: Seq<Seen>,
    shadows: bool,
    c: int,
    n: nat,
    item: (MeshId, InstanceData),
) -> bool {
    exists|i: int|
        0 <= i < n && in_cascade(#[trigger] seen[i], shadows, c) && item == (
            seen[i].mesh,
            seen[i].instance,
        )
}

/// Each view draws the instances it sees, all of them and no others.
pub proof fn law_views_draw_what_they_see(
    seen: Seq<Seen>,
    shadows: bool,
    c: int,
    n: nat,
    item: (MeshId, InstanceData),
)
    requires
        n <= seen.len(),
    ensures
        main_of(seen, n).contains(item) <==> seen_in_main(seen, n, item),
        casters_of(seen, shadows, c, n).contains(item) <==> seen_in_cascade(
            seen,
            shadows,
            c,
            n,
            item,
        ),
    decreases n,
{
    if n > 0 {
        let k = (n - 1) as nat;
        law_views_draw_what_they_see(seen, shadows, c, k, item);
        let s = seen[n - 1];
        let (m0, m1) = (main_of(seen, k), main_of(seen, n));
        let (c0, c1) = (casters_of(seen, shadows, c, k), casters_of(seen, shadows, c, n));
        lemma_pushed(m0, m1, in_main(s), (s.mesh, s.instance), item);
        lemma_pushed(c0, c1, in_cascade(s, shadows, c), (s.mesh, s.instance), item);
    }
}

proof fn lemma_pushed(
    before: Seq<(MeshId, InstanceData)>,
    after: Seq<(MeshId, InstanceData)>,
    taken: bool,
    last: (MeshId, InstanceData),
    item: (MeshId, InstanceData),
)
    requires
        after == (if taken {
            before.push(last)
        } else {
            before
        }),
    ensures
        after.contains(item) <==> before.contains(item) || (taken && item == last),
{
    if taken {
        assert(after[before.len() as int] == last);
        if before.contains(item) {
            let j = choose|j: int| 0 <= j < before.len() && before[j] == item;
            assert(after[j] == item);
        }
    }
}

/// The main view draws the instances in the camera's sight. A cascade draws
/// those in its own sight that are not marked as casting no shadow, where
/// shadows are on. Both keep the order and draw each instance once, with its
/// own mesh.
pub proof fn law_views_keep_what_they_see_in_order(seen: Seq<Seen>, shadows: bool, c: int)
    ensures
        main_of(seen, seen.len()) == seen.filter(|s: Seen| s.camera).map_values(
            |s: Seen| (s.mesh, s.instance),
        ),
        casters_of(seen, shadows, c, seen.len()) == seen.filter(
            |s: Seen| shadows && s.cascades@[c] && !s.no_shadow,
        ).map_values(|s: Seen| (s.mesh, s.instance)),
{
    lemma_kept(seen, shadows, c, seen.len());
    assert(seen.take(seen.len() as int) =~= seen);
}

proof fn lemma_kept(seen: Seq<Seen>, shadows: bool, c: int, n: nat)
    requires
        n <= seen.len(),
    ensures
        main_of(seen, n) == seen.take(n as int).filter(|s: Seen| s.camera).map_values(
            |s: Seen| (s.mesh, s.instance),
        ),
        casters_of(seen, shadows, c, n) == seen.take(n as int).filter(
            |s: Seen| shadows && s.cascades@[c] && !s.no_shadow,
        ).map_values(|s: Seen| (s.mesh, s.instance)),
    decreases n,
{
    let some = seen.take(n as int);
    let sighted = |s: Seen| s.camera;
    let cast = |s: Seen| shadows && s.cascades@[c] && !s.no_shadow;
    reveal(Seq::filter);
    if n > 0 {
        lemma_kept(seen, shadows, c, (n - 1) as nat);
        let less = seen.take(n - 1);
        assert(some.drop_last() =~= less);
        assert(some.last() == seen[n - 1]);
        let drawn = |s: Seen| (s.mesh, s.instance);
        assert(less.filter(sighted).push(seen[n - 1]).map_values(drawn) =~= less.filter(
            sighted,
        ).map_values(drawn).push(drawn(seen[n - 1])));
        assert(less.filter(cast).push(seen[n - 1]).map_values(drawn) =~= less.filter(
            cast,
        ).map_values(drawn).push(drawn(seen[n - 1])));
    } else {
        assert(some =~= seq![]);
    }
}

} // verus!
