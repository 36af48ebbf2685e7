//! The draws of one frame.
//!
//! Every view picks a level of detail for each of its instances, brings equal
//! ones together, and draws each group at once. All views share one instance
//! buffer; what does not fit is not drawn.
use vstd::multiset::Multiset;
use vstd::prelude::*;

use crate::draws;
use crate::draws::{LodSlice, MeshId, MeshSlice};
use crate::float::F32;
use crate::mesh::Vec4;

verus! {

/// What the device reads of an instance: its transform, by columns, and the
/// place of its material.
#[derive(Clone, Copy, Debug)]
pub struct InstanceData {
    pub model: [F32; 16],
    pub material_id: u32,
}

impl InstanceData {
    pub fn new(model: [F32; 16], material_id: u32) -> (r: InstanceData)
        ensures
            r == (InstanceData { model, material_id }),
    {
        InstanceData { model, material_id }
    }
}

/// Instances of one mesh at one level of detail, side by side in the buffer.
#[derive(Clone, Copy, Debug, PartialEq, Eq, Structural)]
pub struct Run {
    pub first_index: u32,
    pub index_count: u32,
    pub vertex_offset: i32,
    pub run_start: u32,
    pub run_len: u32,
}

/// Whether instances stand in the order of the numbers they are grouped by.
pub open spec fn in_order(s: Seq<(u32, InstanceData)>) -> bool {
    forall|i: int, j: int| 0 <= i <= j < s.len() ==> s[i].0 <= s[j].0
}

proof fn lemma_multiset_parts(s: Seq<(u32, InstanceData)>, lo: int, mid: int, hi: int)
    requires
        0 <= lo <= mid <= hi <= s.len(),
    ensures
        s.subrange(lo, hi).to_multiset() == s.subrange(lo, mid).to_multiset().add(
            s.subrange(mid, hi).to_multiset(),
        ),
{
    assert(s.subrange(lo, hi) =~= s.subrange(lo, mid) + s.subrange(mid, hi));
    vstd::seq_lib::lemma_multiset_commutative(s.subrange(lo, mid), s.subrange(mid, hi));
}

proof fn lemma_take_next(s: Seq<(u32, InstanceData)>, i: int)
    requires
        0 <= i < s.len(),
    ensures
        s.take(i + 1).to_multiset() == s.take(i).to_multiset().insert(s[i]),
{
    broadcast use vstd::seq_lib::group_to_multiset_ensures;

    assert(s.take(i + 1) =~= s.take(i).push(s[i]));
}

fn merge(a: &Vec<(u32, InstanceData)>, b: &Vec<(u32, InstanceData)>) -> (r: Vec<
    (u32, InstanceData),
>)
    requires
        in_order(a@),
        in_order(b@),
    ensures
        in_order(r@),
        r@.to_multiset() == a@.to_multiset().add(b@.to_multiset()),
{
    broadcast use vstd::seq_lib::group_to_multiset_ensures;
    broadcast use vstd::multiset::group_multiset_axioms;

    let mut r: Vec<(u32, InstanceData)> = Vec::new();
    let mut i: usize = 0;
    let mut j: usize = 0;
    proof {
        assert(a@.take(0) =~= Seq::empty());
        assert(b@.take(0) =~= Seq::empty());
        assert(r@ =~= Seq::empty());
        assert(r@.to_multiset() =~= a@.take(0).to_multiset().add(b@.take(0).to_multiset()));
    }
    while i < a.len() || j < b.len()
        invariant
            i <= a@.len(),
            j <= b@.len(),
            in_order(a@),
            in_order(b@),
            in_order(r@),
            forall|k: int, l: int| 0 <= k < r@.len() && i <= l < a@.len() ==> r@[k].0 <= a@[l].0,
            forall|k: int, l: int| 0 <= k < r@.len() && j <= l < b@.len() ==> r@[k].0 <= b@[l].0,
            r@.to_multiset() == a@.take(i as int).to_multiset().add(
                b@.take(j as int).to_multiset(),
            ),
        decreases a@.len() - i + b@.len() - j,
    {
        broadcast use vstd::seq_lib::group_to_multiset_ensures;
        broadcast use vstd::multiset::group_multiset_axioms;

        let ghost before = r@;
        if j >= b.len() || (i < a.len() && a[i].0 <= b[j].0) {
            proof {
                lemma_take_next(a@, i as int);
            }
            r.push(a[i]);
            assert(r@ =~= before.push(a@[i as int]));
            assert(r@.to_multiset() =~= before.to_multiset().insert(a@[i as int]));
            i = i + 1;
            assert(r@.to_multiset() =~= a@.take(i as int).to_multiset().add(
                b@.take(j as int).to_multiset(),
            ));
        } else {
            proof {
                lemma_take_next(b@, j as int);
            }
            r.push(b[j]);
            assert(r@ =~= before.push(b@[j as int]));
            assert(r@.to_multiset() =~= before.to_multiset().insert(b@[j as int]));
            j = j + 1;
            assert(r@.to_multiset() =~= a@.take(i as int).to_multiset().add(
                b@.take(j as int).to_multiset(),
            ));
        }
    }
    assert(a@.take(a@.len() as int) =~= a@);
    assert(b@.take(b@.len() as int) =~= b@);
    r
}

/// The part of `items` from `lo` to `hi`, ordered by key.
fn sorted(items: &Vec<(u32, InstanceData)>, lo: usize, hi: usize) -> (r: Vec<(u32, InstanceData)>)
    requires
        lo <= hi <= items@.len(),
    ensures
        in_order(r@),
        r@.to_multiset() == items@.subrange(lo as int, hi as int).to_multiset(),
    decreases hi - lo,
{
    if hi - lo <= 1 {
        let mut r: Vec<(u32, InstanceData)> = Vec::new();
        if lo < hi {
            r.push(items[lo]);
        }
        assert(r@ =~= items@.subrange(lo as int, hi as int));
        r
    } else {
        let mid: usize = lo + (hi - lo) / 2;
        let a: Vec<(u32, InstanceData)> = sorted(items, lo, mid);
        let b: Vec<(u32, InstanceData)> = sorted(items, mid, hi);
        proof {
            lemma_multiset_parts(items@, lo as int, mid as int, hi as int);
        }
        merge(&a, &b)
    }
}

/// Slices that instances can be grouped by: a level of detail takes four bits of
/// the number, and a mesh the rest.
pub open spec fn groupable(slices: Seq<draws::SliceModel>) -> bool {
    &&& slices.len() <= 0x1000_0000
    &&& forall|i: int|
        0 <= i < slices.len() ==> 1 <= (#[trigger] slices[i]).lods.len() <= draws::MAX_LODS
}

/// The level an instance is drawn at. Without a budget it is full detail.
pub open spec fn level(slice: draws::SliceModel, budget: Option<F32>) -> int {
    match budget {
        Some(b) => draws::pick(slice.lods, b) as int,
        None => 0,
    }
}

/// The number an instance is grouped by; a mesh that is not there has none.
pub open spec fn group(
    slices: Seq<draws::SliceModel>,
    mesh: MeshId,
    budget: Option<F32>,
) -> Option<u32> {
    if mesh.0 < slices.len() {
        Some((mesh.0 * 16 + level(slices[mesh.0 as int], budget)) as u32)
    } else {
        None
    }
}

pub open spec fn budget_at(budgets: Option<Seq<F32>>, i: int) -> Option<F32> {
    match budgets {
        Some(b) => Some(b[i]),
        None => None,
    }
}

/// The instances among the first `n` whose mesh is there, with their numbers.
pub open spec fn grouped(
    slices: Seq<draws::SliceModel>,
    items: Seq<(MeshId, InstanceData)>,
    budgets: Option<Seq<F32>>,
    n: nat,
) -> Seq<(u32, InstanceData)>
    decreases n,
{
    if n == 0 {
        seq![]
    } else {
        let so_far = grouped(slices, items, budgets, (n - 1) as nat);
        match group(slices, items[n - 1].0, budget_at(budgets, n - 1)) {
            Some(key) => so_far.push((key, items[n - 1].1)),
            None => so_far,
        }
    }
}

/// How many instances from `at` on have the number `key`, without a gap.
pub open spec fn same_from(s: Seq<(u32, InstanceData)>, key: u32, at: int) -> nat
    decreases s.len() - at,
{
    if 0 <= at < s.len() && s[at].0 == key {
        1 + same_from(s, key, at + 1)
    } else {
        0
    }
}

pub open spec fn lod_of(slices: Seq<draws::SliceModel>, key: u32) -> LodSlice {
    slices[key as int / 16].lods[key as int % 16]
}

pub open spec fn run_of(
    slices: Seq<draws::SliceModel>,
    key: u32,
    start: int,
    len: int,
) -> Run {
    Run {
        first_index: lod_of(slices, key).first_index,
        index_count: lod_of(slices, key).index_count,
        vertex_offset: slices[key as int / 16].vertex_offset,
        run_start: start as u32,
        run_len: len as u32,
    }
}

/// One run for each stretch of equal numbers, from `at` on.
pub open spec fn runs_of(
    slices: Seq<draws::SliceModel>,
    s: Seq<(u32, InstanceData)>,
    base: int,
    at: int,
) -> Seq<Run>
    decreases
            (if at < s.len() {
                s.len() - at
            } else {
                0
            }),
{
    if 0 <= at < s.len() {
        let n = 1 + same_from(s, s[at].0, at + 1);
        seq![run_of(slices, s[at].0, base + at, n as int)] + runs_of(slices, s, base, at + n)
    } else {
        seq![]
    }
}

/// Triangles of the first `n` instances.
pub open spec fn triangles(
    slices: Seq<draws::SliceModel>,
    s: Seq<(u32, InstanceData)>,
    n: nat,
) -> nat
    decreases n,
{
    if n == 0 {
        0
    } else {
        triangles(slices, s, (n - 1) as nat) + lod_of(slices, s[n - 1].0).index_count as nat / 3
    }
}

/// How many of the first `n` instances are drawn at a level.
pub open spec fn at_level(s: Seq<(u32, InstanceData)>, l: int, n: nat) -> nat
    decreases n,
{
    if n == 0 {
        0
    } else {
        at_level(s, l, (n - 1) as nat) + if s[n - 1].0 as int % 16 == l {
            1nat
        } else {
            0
        }
    }
}

/// What one view draws.
#[derive(Clone, Copy, Debug)]
pub struct RunStats {
    pub instances: u32,
    pub tris: u64,
    /// Instances at each level of detail.
    pub lods: [u32; 16],
}

/// What the views of a frame share: the instances of the view at hand, by their
/// numbers, and the instances of all views so far.
#[derive(Debug)]
pub struct Runs {
    pub keyed: Vec<(u32, InstanceData)>,
    pub scratch: Vec<InstanceData>,
}

pub open spec fn instances_of(s: Seq<(u32, InstanceData)>) -> Seq<InstanceData> {
    s.map_values(|k: (u32, InstanceData)| k.1)
}

proof fn lemma_same_from(s: Seq<(u32, InstanceData)>, key: u32, at: int)
    requires
        0 <= at <= s.len(),
    ensures
        at + same_from(s, key, at) <= s.len(),
        forall|i: int| at <= i < at + same_from(s, key, at) ==> s[i].0 == key,
        at + same_from(s, key, at) < s.len() ==> s[at + same_from(s, key, at)].0 != key,
    decreases s.len() - at,
{
    if at < s.len() && s[at].0 == key {
        lemma_same_from(s, key, at + 1);
    }
}

proof fn lemma_same_from_is(s: Seq<(u32, InstanceData)>, key: u32, at: int, n: nat)
    requires
        0 <= at,
        at + n <= s.len(),
        forall|i: int| at <= i < at + n ==> s[i].0 == key,
        at + n < s.len() ==> s[at + n].0 != key,
    ensures
        same_from(s, key, at) == n,
    decreases n,
{
    if n > 0 {
        assert(s[at].0 == key);
        lemma_same_from_is(s, key, at + 1, (n - 1) as nat);
    } else if at < s.len() {
        assert(s[at + n].0 != key);
    }
}

/// A stretch of equal numbers adds its length times one instance's triangles.
proof fn lemma_stretch(
    slices: Seq<draws::SliceModel>,
    s: Seq<(u32, InstanceData)>,
    key: u32,
    at: nat,
    n: nat,
)
    requires
        at + n <= s.len(),
        forall|i: int| at <= i < at + n ==> s[i].0 == key,
    ensures
        triangles(slices, s, at + n) == triangles(slices, s, at) + (lod_of(
            slices,
            key,
        ).index_count as nat / 3) * n,
        forall|l: int|
            #![trigger at_level(s, l, at + n)]
            at_level(s, l, at + n) == at_level(s, l, at) + if l == key as int % 16 {
                n
            } else {
                0
            },
    decreases n,
{
    if n > 0 {
        lemma_stretch(slices, s, key, at, (n - 1) as nat);
        let each = lod_of(slices, key).index_count as nat / 3;
        assert(each * n == each * (n - 1) as nat + each) by (nonlinear_arith)
            requires
                n > 0,
        ;
        assert(s[at + n - 1].0 == key);
        assert forall|l: int|
            #![trigger at_level(s, l, at + n)]
            at_level(s, l, at + n) == at_level(s, l, at) + if l == key as int % 16 {
                n
            } else {
                0
            } by {
            assert(at_level(s, l, (at + (n - 1) as nat) as nat) == at_level(s, l, at) + if l
                == key as int % 16 {
                (n - 1) as nat
            } else {
                0
            });
        }
    } else {
        assert((lod_of(slices, key).index_count as nat / 3) * n == 0) by (nonlinear_arith)
            requires
                n == 0,
        ;
    }
}

proof fn lemma_totals_bound(slices: Seq<draws::SliceModel>, s: Seq<(u32, InstanceData)>, n: nat)
    ensures
        triangles(slices, s, n) <= n * 0x5555_5556,
        forall|l: int| #[trigger] at_level(s, l, n) <= n,
    decreases n,
{
    if n > 0 {
        lemma_totals_bound(slices, s, (n - 1) as nat);
        assert forall|l: int| #[trigger] at_level(s, l, n) <= n by {
            assert(at_level(s, l, (n - 1) as nat) <= n - 1);
        }
    }
}

/// Every number came from a mesh that is there, at a level that it has.
pub open spec fn keys_ok(slices: Seq<draws::SliceModel>, s: Seq<(u32, InstanceData)>) -> bool {
    forall|i: int|
        0 <= i < s.len() ==> (#[trigger] s[i]).0 as int / 16 < slices.len() && s[i].0 as int % 16
            < slices[s[i].0 as int / 16].lods.len()
}

proof fn lemma_keys_ok_multiset(
    slices: Seq<draws::SliceModel>,
    s: Seq<(u32, InstanceData)>,
    t: Seq<(u32, InstanceData)>,
)
    requires
        keys_ok(slices, s),
        s.to_multiset() == t.to_multiset(),
    ensures
        keys_ok(slices, t),
        s.len() == t.len(),
{
    broadcast use vstd::seq_lib::group_to_multiset_ensures;

    assert(s.len() == s.to_multiset().len());
    assert(t.len() == t.to_multiset().len());
    assert forall|i: int| 0 <= i < t.len() implies (#[trigger] t[i]).0 as int / 16 < slices.len()
        && t[i].0 as int % 16 < slices[t[i].0 as int / 16].lods.len() by {
        assert(t.contains(t[i]));
        assert(t.to_multiset().count(t[i]) > 0);
        assert(s.contains(t[i]));
        let j = choose|j: int| 0 <= j < s.len() && s[j] == t[i];
        assert(s[j].0 as int / 16 < slices.len());
    }
}

/// What building the runs of one view leaves in `keyed`: its instances, brought
/// into order.
pub open spec fn gathered(
    slices: Seq<draws::SliceModel>,
    items: Seq<(MeshId, InstanceData)>,
    budgets: Option<Seq<F32>>,
    keyed: Seq<(u32, InstanceData)>,
) -> bool {
    &&& in_order(keyed)
    &&& keyed.to_multiset() == grouped(slices, items, budgets, items.len()).to_multiset()
}

/// The numbers of a view that draws the instances `keyed`.
pub open spec fn stats_ok(
    slices: Seq<draws::SliceModel>,
    keyed: Seq<(u32, InstanceData)>,
    r: RunStats,
) -> bool {
    &&& r.instances == keyed.len()
    &&& r.tris == triangles(slices, keyed, keyed.len())
    &&& forall|l: int| 0 <= l < 16 ==> #[trigger] r.lods[l] == at_level(keyed, l, keyed.len())
}

pub open spec fn floats(b: Option<&Vec<F32>>) -> Option<Seq<F32>> {
    match b {
        Some(v) => Some(v@),
        None => None,
    }
}

impl Runs {
    pub fn new() -> (r: Runs)
        ensures
            r.keyed@.len() == 0,
            r.scratch@.len() == 0,
    {
        Runs { keyed: Vec::new(), scratch: Vec::new() }
    }

    fn gather(
        &mut self,
        slices: &Vec<MeshSlice>,
        items: &Vec<(MeshId, InstanceData)>,
        budgets: Option<&Vec<F32>>,
    )
        requires
            groupable(draws::slice_views(slices@)),
            budgets matches Some(b) ==> b@.len() == items@.len(),
        ensures
            gathered(
                draws::slice_views(slices@),
                items@,
                floats(budgets),
                final(self).keyed@,
            ),
            keys_ok(draws::slice_views(slices@), final(self).keyed@),
            final(self).keyed@.len() <= items@.len(),
            final(self).scratch == old(self).scratch,
    {
        let ghost views = draws::slice_views(slices@);
        let mut found: Vec<(u32, InstanceData)> = Vec::new();
        assert(found@ =~= seq![]);
        for i in 0..items.len()
            invariant
                views == draws::slice_views(slices@),
                groupable(views),
                budgets matches Some(b) ==> b@.len() == items@.len(),
                found@ == grouped(views, items@, floats(budgets), i as nat),
                found@.len() <= i,
                keys_ok(views, found@),
        {
            let mesh: MeshId = items[i].0;
            assert(views.len() == slices@.len());
            if (mesh.0 as usize) < slices.len() {
                let slice: &MeshSlice = &slices[mesh.0 as usize];
                assert(views[mesh.0 as int] == slice@);
                let lod: usize = match budgets {
                    Some(b) => draws::pick_lod(slice.lods.as_slice(), b[i]),
                    None => 0,
                };
                found.push((mesh.0 * 16 + lod as u32, items[i].1));
            }
        }
        self.keyed = sorted(&found, 0, found.len());
        proof {
            assert(found@.subrange(0, found@.len() as int) =~= found@);
            lemma_keys_ok_multiset(views, found@, self.keyed@);
        }
    }

    /// Pick each instance's level of detail under its budget, bring the
    /// instances into order, put them behind those of the views before, and add
    /// a run for each mesh and level. `base` is where the view's instances
    /// start. A view without budgets draws at full detail, and an instance of a
    /// mesh that is not there is left out.
    pub fn build(
        &mut self,
        slices: &Vec<MeshSlice>,
        items: &Vec<(MeshId, InstanceData)>,
        budgets: Option<&Vec<F32>>,
        runs: &mut Vec<Run>,
        base: u32,
    ) -> (r: RunStats)
        requires
            groupable(draws::slice_views(slices@)),
            budgets matches Some(b) ==> b@.len() == items@.len(),
            base + items@.len() <= u32::MAX,
        ensures
            gathered(
                draws::slice_views(slices@),
                items@,
                floats(budgets),
                final(self).keyed@,
            ),
            final(self).keyed@.len() <= items@.len(),
            final(self).scratch@ == old(self).scratch@ + instances_of(final(self).keyed@),
            final(runs)@ == old(runs)@ + runs_of(
                draws::slice_views(slices@),
                final(self).keyed@,
                base as int,
                0,
            ),
            stats_ok(draws::slice_views(slices@), final(self).keyed@, r),
    {
        self.gather(slices, items, budgets);
        let ghost views = draws::slice_views(slices@);
        let ghost s = self.keyed@;
        let ghost kept = self.scratch@;
        let count: usize = self.keyed.len();
        for i in 0..count
            invariant
                self.keyed@ == s,
                count == s.len(),
                self.scratch@ == kept + instances_of(s).take(i as int),
        {
            self.scratch.push(self.keyed[i].1);
            assert(self.scratch@ =~= kept + instances_of(s).take(i + 1));
        }
        assert(instances_of(s).take(s.len() as int) =~= instances_of(s));
        let mut lods: [u32; 16] = [0, 0, 0, 0, 0, 0, 0, 0, 0, 0, 0, 0, 0, 0, 0, 0];
        let mut tris: u64 = 0;
        let mut first: usize = 0;
        let ghost start = runs@;
        while first < count
            invariant
                self.keyed@ == s,
                count == s.len(),
                first <= count,
                base + count <= u32::MAX,
                views == draws::slice_views(slices@),
                keys_ok(views, s),
                groupable(views),
                runs@ + runs_of(views, s, base as int, first as int) == start + runs_of(
                    views,
                    s,
                    base as int,
                    0,
                ),
                tris == triangles(views, s, first as nat),
                forall|l: int| 0 <= l < 16 ==> #[trigger] lods[l] == at_level(s, l, first as nat),
            decreases count - first,
        {
            let key: u32 = self.keyed[first].0;
            let mut run: usize = 1;
            while first + run < count && self.keyed[first + run].0 == key
                invariant
                    self.keyed@ == s,
                    count == s.len(),
                    1 <= run,
                    first + run <= count,
                    forall|i: int| first <= i < first + run ==> s[i].0 == key,
                decreases count - first - run,
            {
                run = run + 1;
            }
            proof {
                lemma_same_from_is(s, key, first as int, run as nat);
                lemma_stretch(views, s, key, first as nat, run as nat);
                lemma_totals_bound(views, s, (first + run) as nat);
                assert(s[first as int].0 == key);
                assert(views[key as int / 16] == slices@[key as int / 16]@);
            }
            let slice: &MeshSlice = &slices[(key / 16) as usize];
            let lod: usize = (key % 16) as usize;
            let l: LodSlice = slice.lods[lod];
            let ghost before = runs@;
            runs.push(
                Run {
                    first_index: l.first_index,
                    index_count: l.index_count,
                    vertex_offset: slice.vertex_offset,
                    run_start: base + first as u32,
                    run_len: run as u32,
                },
            );
            proof {
                let rest = runs_of(views, s, base as int, (first + run) as int);
                assert(l == lod_of(views, key));
                assert(runs@.last() == run_of(views, key, (base + first) as int, run as int));
                assert(runs@ + rest =~= before + runs_of(views, s, base as int, first as int));
                assert(tris + (l.index_count as nat / 3) * (run as nat) == triangles(
                    views,
                    s,
                    (first + run) as nat,
                ));
            }
            let each: u64 = (l.index_count / 3) as u64;
            proof {
                assert(each * run <= triangles(views, s, (first + run) as nat));
                assert(at_level(s, lod as int, (first + run) as nat) <= first + run);
            }
            tris = tris + each * run as u64;
            let ghost old_lods = lods;
            lods[lod] = lods[lod] + run as u32;
            proof {
                assert forall|k: int| 0 <= k < 16 implies #[trigger] lods[k] == at_level(
                    s,
                    k,
                    (first + run) as nat,
                ) by {
                    assert(old_lods[k] == at_level(s, k, first as nat));
                    assert(at_level(s, k, (first as nat + run as nat) as nat) == at_level(
                        s,
                        k,
                        first as nat,
                    ) + if k == key as int % 16 {
                        run as nat
                    } else {
                        0
                    });
                }
            }
            first = first + run;
        }
        RunStats { instances: count as u32, tris, lods }
    }
}

/// Whether runs follow each other without a gap from `from` to `to`, none of
/// them empty.
pub open spec fn tiled(runs: Seq<Run>, from: int, to: int) -> bool {
    &&& runs.len() == 0 ==> from == to
    &&& runs.len() > 0 ==> runs[0].run_start == from
    &&& forall|i: int|
        0 <= i < runs.len() ==> (#[trigger] runs[i]).run_len > 0 && runs[i].run_start
            + runs[i].run_len == (if i + 1 < runs.len() {
            runs[i + 1].run_start as int
        } else {
            to
        })
}

/// Whether all instances of a run have one number, which gives its indices.
pub open spec fn run_draws(
    slices: Seq<draws::SliceModel>,
    s: Seq<(u32, InstanceData)>,
    base: int,
    r: Run,
) -> bool {
    let key = s[r.run_start - base].0;
    &&& base <= r.run_start
    &&& r.run_start + r.run_len <= base + s.len()
    &&& forall|k: int| 0 <= k < r.run_len ==> (#[trigger] s[r.run_start - base + k]).0 == key
    &&& r == run_of(slices, key, r.run_start as int, r.run_len as int)
}

/// The runs of a view cover its instances one after the other, each instance is
/// in a run that draws its own mesh and level, and no mesh and level has two.
pub proof fn law_runs_tile_the_instances(
    slices: Seq<draws::SliceModel>,
    s: Seq<(u32, InstanceData)>,
    base: int,
    at: int,
)
    requires
        0 <= base,
        base + s.len() <= u32::MAX,
        0 <= at <= s.len(),
        in_order(s),
    ensures
        tiled(runs_of(slices, s, base, at), base + at, base + s.len()),
        forall|i: int|
            0 <= i < runs_of(slices, s, base, at).len() ==> run_draws(
                slices,
                s,
                base,
                #[trigger] runs_of(slices, s, base, at)[i],
            ),
        forall|i: int, j: int|
            0 <= i < j < runs_of(slices, s, base, at).len() ==> s[(#[trigger] runs_of(
                slices,
                s,
                base,
                at,
            )[i]).run_start - base].0 < s[(#[trigger] runs_of(slices, s, base, at)[j]).run_start
                - base].0,
    decreases s.len() - at,
{
    let all = runs_of(slices, s, base, at);
    if at < s.len() {
        let key = s[at].0;
        lemma_same_from(s, key, at);
        let n = same_from(s, key, at) as int;
        assert(n == 1 + same_from(s, key, at + 1));
        law_runs_tile_the_instances(slices, s, base, at + n);
        let rest = runs_of(slices, s, base, at + n);
        assert(all == seq![run_of(slices, key, base + at, n)] + rest);
        assert forall|i: int| 0 <= i < all.len() implies run_draws(
            slices,
            s,
            base,
            #[trigger] all[i],
        ) by {
            if i > 0 {
                assert(all[i] == rest[i - 1]);
            } else {
                assert forall|k: int| 0 <= k < n implies (#[trigger] s[at + k]).0 == key by {}
            }
        }
        assert forall|i: int| 0 <= i < all.len() implies (#[trigger] all[i]).run_len > 0
            && all[i].run_start + all[i].run_len == (if i + 1 < all.len() {
            all[i + 1].run_start as int
        } else {
            base + s.len()
        }) by {
            if i > 0 {
                assert(all[i] == rest[i - 1]);
                assert(i + 1 < all.len() ==> all[i + 1] == rest[i]);
            } else {
                assert(all.len() > 1 ==> all[1] == rest[0]);
            }
        }
        assert forall|i: int, j: int| 0 <= i < j < all.len() implies s[(#[trigger] all[i]).run_start
            - base].0 < s[(#[trigger] all[j]).run_start - base].0 by {
            assert(all[j] == rest[j - 1]);
            if i > 0 {
                assert(all[i] == rest[i - 1]);
            } else {
                let p = rest[j - 1].run_start - base;
                lemma_tiled_starts(rest, base + at + n, base + s.len(), j - 1);
                assert(run_draws(slices, s, base, rest[j - 1]));
                assert(s[at + n].0 != key);
                assert(s[at].0 <= s[at + n].0);
                assert(s[at + n].0 <= s[p].0);
            }
        }
    }
}

proof fn lemma_tiled_starts(runs: Seq<Run>, from: int, to: int, i: int)
    requires
        tiled(runs, from, to),
        0 <= i < runs.len(),
    ensures
        from <= runs[i].run_start,
    decreases i,
{
    if i > 0 {
        lemma_tiled_starts(runs, from, to, i - 1);
        assert(runs[i - 1].run_len > 0);
    }
}

/// A light as the device reads it: position and reach, radiance and size.
#[derive(Clone, Copy, Debug, PartialEq, Eq, Structural)]
pub struct GpuLight {
    pub pos_radius: Vec4,
    pub radiance_source: Vec4,
}

/// Triangles and instances of a frame, as handed to the device.
#[derive(Clone, Copy, Debug)]
pub struct FrameStats {
    pub main_tris: u64,
    pub shadow_tris: u64,
    /// Instances at each level of detail, in the camera's view.
    pub main_lods: [u32; 16],
    /// Instances at each level of detail, in all shadow maps together.
    pub shadow_lods: [u32; 16],
}

/// All that is drawn in a frame.
#[derive(Debug)]
pub struct FrameDraws {
    pub max_instances: u32,
    pub runs: Runs,
    pub main_runs: Vec<Run>,
    /// One list for each shadow map.
    pub shadow_runs: Vec<Vec<Run>>,
    pub lights: Vec<GpuLight>,
    pub stats: FrameStats,
}

/// The instances of the first `n` views, one after the other.
pub open spec fn flattened(orders: Seq<Seq<(u32, InstanceData)>>, n: nat) -> Seq<InstanceData>
    decreases n,
{
    if n == 0 {
        seq![]
    } else {
        flattened(orders, (n - 1) as nat) + instances_of(orders[n - 1])
    }
}

/// Triangles of the shadow maps among the first `n` views.
pub open spec fn shadow_triangles(
    slices: Seq<draws::SliceModel>,
    orders: Seq<Seq<(u32, InstanceData)>>,
    n: nat,
) -> nat
    decreases n,
{
    if n <= 1 {
        0
    } else {
        shadow_triangles(slices, orders, (n - 1) as nat) + triangles(
            slices,
            orders[n - 1],
            orders[n - 1].len(),
        )
    }
}

/// Instances at a level in the shadow maps among the first `n` views.
pub open spec fn shadow_level(orders: Seq<Seq<(u32, InstanceData)>>, l: int, n: nat) -> nat
    decreases n,
{
    if n <= 1 {
        0
    } else {
        shadow_level(orders, l, (n - 1) as nat) + at_level(orders[n - 1], l, orders[n - 1].len())
    }
}

/// The runs that end within the first `cap` instances.
pub open spec fn fitting(runs: Seq<Run>, cap: u32) -> Seq<Run>
    decreases runs.len(),
{
    if runs.len() == 0 {
        seq![]
    } else {
        let rest = fitting(runs.drop_last(), cap);
        if runs.last().run_start + runs.last().run_len <= cap {
            rest.push(runs.last())
        } else {
            rest
        }
    }
}

/// Runs as they are kept: all of them, or those that fit when the frame has
/// more instances than the buffer.
pub open spec fn kept(runs: Seq<Run>, total: nat, cap: u32) -> Seq<Run> {
    if total > cap {
        fitting(runs, cap)
    } else {
        runs
    }
}

fn keep_fitting(runs: &Vec<Run>, cap: u32) -> (r: Vec<Run>)
    requires
        forall|i: int|
            0 <= i < runs@.len() ==> (#[trigger] runs@[i]).run_start + runs@[i].run_len <= u32::MAX,
    ensures
        r@ == fitting(runs@, cap),
{
    let mut out: Vec<Run> = Vec::new();
    assert(out@ =~= fitting(runs@.take(0), cap));
    for i in 0..runs.len()
        invariant
            forall|i: int|
                0 <= i < runs@.len() ==> (#[trigger] runs@[i]).run_start + runs@[i].run_len
                    <= u32::MAX,
            out@ == fitting(runs@.take(i as int), cap),
    {
        let r: Run = runs[i];
        assert(runs@.take(i + 1).drop_last() =~= runs@.take(i as int));
        if r.run_start + r.run_len <= cap {
            out.push(r);
        }
    }
    assert(runs@.take(runs@.len() as int) =~= runs@);
    out
}

/// How many of the casters' lists there are shadow maps for.
pub open spec fn cascades_of(n: nat) -> nat {
    if n < draws::SHADOW_CASCADES {
        n
    } else {
        draws::SHADOW_CASCADES as nat
    }
}

/// Casters in the first `n` lists.
pub open spec fn caster_count(shadows: Seq<Vec<(MeshId, InstanceData)>>, n: nat) -> nat
    decreases n,
{
    if n == 0 {
        0
    } else {
        caster_count(shadows, (n - 1) as nat) + shadows[n - 1]@.len()
    }
}

pub open spec fn own_floats(b: Option<Vec<F32>>) -> Option<Seq<F32>> {
    match b {
        Some(v) => Some(v@),
        None => None,
    }
}

/// Whether `orders` are the instances of the first `n` views: the camera's,
/// then one for each shadow map.
pub open spec fn views_gathered(
    slices: Seq<draws::SliceModel>,
    main: Seq<(MeshId, InstanceData)>,
    main_budgets: Option<Seq<F32>>,
    shadows: Seq<Vec<(MeshId, InstanceData)>>,
    shadow_budgets: Seq<Option<Vec<F32>>>,
    orders: Seq<Seq<(u32, InstanceData)>>,
) -> bool {
    &&& orders.len() >= 1
    &&& gathered(slices, main, main_budgets, orders[0])
    &&& forall|c: int|
        1 <= c < orders.len() ==> gathered(
            slices,
            shadows[c - 1]@,
            own_floats(shadow_budgets[c - 1]),
            #[trigger] orders[c],
        )
}

/// Whether a frame draws the views `orders`.
pub open spec fn frame_draws(
    f: FrameDraws,
    slices: Seq<draws::SliceModel>,
    orders: Seq<Seq<(u32, InstanceData)>>,
) -> bool {
    let n = orders.len();
    let all = flattened(orders, n);
    &&& f.runs.scratch@ == all.take(
        if all.len() > f.max_instances {
            f.max_instances as int
        } else {
            all.len() as int
        },
    )
    &&& f.main_runs@ == kept(runs_of(slices, orders[0], 0, 0), all.len(), f.max_instances)
    &&& f.shadow_runs@.len() == draws::SHADOW_CASCADES
    &&& forall|c: int|
        0 <= c < draws::SHADOW_CASCADES ==> (#[trigger] f.shadow_runs@[c])@ == (if c + 1 < n {
            kept(
                runs_of(
                    slices,
                    orders[c + 1],
                    flattened(orders, (c + 1) as nat).len() as int,
                    0,
                ),
                all.len(),
                f.max_instances,
            )
        } else {
            seq![]
        })
    &&& f.stats.main_tris == triangles(slices, orders[0], orders[0].len())
    &&& f.stats.shadow_tris == shadow_triangles(slices, orders, n)
    &&& forall|l: int|
        0 <= l < 16 ==> #[trigger] f.stats.main_lods[l] == at_level(orders[0], l, orders[0].len())
    &&& forall|l: int|
        0 <= l < 16 ==> #[trigger] f.stats.shadow_lods[l] == shadow_level(orders, l, n)
}

proof fn lemma_flattened_same(
    a: Seq<Seq<(u32, InstanceData)>>,
    b: Seq<Seq<(u32, InstanceData)>>,
    n: nat,
)
    requires
        n <= a.len(),
        n <= b.len(),
        forall|i: int| 0 <= i < n ==> a[i] == b[i],
    ensures
        flattened(a, n) == flattened(b, n),
        forall|l: int| #[trigger] shadow_level(a, l, n) == shadow_level(b, l, n),
        forall|s: Seq<draws::SliceModel>| #[trigger]
            shadow_triangles(s, a, n) == shadow_triangles(s, b, n),
    decreases n,
{
    if n > 0 {
        lemma_flattened_same(a, b, (n - 1) as nat);
        assert forall|l: int| #[trigger] shadow_level(a, l, n) == shadow_level(b, l, n) by {
            assert(shadow_level(a, l, (n - 1) as nat) == shadow_level(b, l, (n - 1) as nat));
        }
        assert forall|s: Seq<draws::SliceModel>| #[trigger]
            shadow_triangles(s, a, n) == shadow_triangles(s, b, n) by {
            assert(shadow_triangles(s, a, (n - 1) as nat) == shadow_triangles(
                s,
                b,
                (n - 1) as nat,
            ));
        }
    }
}

proof fn lemma_caster_count_grows(shadows: Seq<Vec<(MeshId, InstanceData)>>, m: nat, n: nat)
    requires
        m <= n,
    ensures
        caster_count(shadows, m) <= caster_count(shadows, n),
    decreases n,
{
    if m < n {
        lemma_caster_count_grows(shadows, m, (n - 1) as nat);
    }
}

proof fn lemma_runs_end(
    slices: Seq<draws::SliceModel>,
    s: Seq<(u32, InstanceData)>,
    base: int,
)
    requires
        0 <= base,
        base + s.len() <= u32::MAX,
        in_order(s),
    ensures
        forall|i: int|
            0 <= i < runs_of(slices, s, base, 0).len() ==> (#[trigger] runs_of(
                slices,
                s,
                base,
                0,
            )[i]).run_start + runs_of(slices, s, base, 0)[i].run_len <= u32::MAX,
{
    law_runs_tile_the_instances(slices, s, base, 0);
    let runs = runs_of(slices, s, base, 0);
    assert forall|i: int| 0 <= i < runs.len() implies (#[trigger] runs[i]).run_start
        + runs[i].run_len <= u32::MAX by {
        assert(run_draws(slices, s, base, runs[i]));
    }
}

/// A frame before what does not fit is taken out.
spec fn frame_built(
    f: FrameDraws,
    slices: Seq<draws::SliceModel>,
    orders: Seq<Seq<(u32, InstanceData)>>,
) -> bool {
    let n = orders.len();
    &&& f.runs.scratch@ == flattened(orders, n)
    &&& f.runs.scratch@.len() <= u32::MAX
    &&& f.main_runs@ == runs_of(slices, orders[0], 0, 0)
    &&& f.shadow_runs@.len() == n - 1
    &&& forall|c: int|
        0 <= c < n - 1 ==> (#[trigger] f.shadow_runs@[c])@ == runs_of(
            slices,
            orders[c + 1],
            flattened(orders, (c + 1) as nat).len() as int,
            0,
        )
    &&& f.stats.main_tris == triangles(slices, orders[0], orders[0].len())
    &&& f.stats.shadow_tris == shadow_triangles(slices, orders, n)
    &&& f.stats.shadow_tris <= f.runs.scratch@.len() * 0x5555_5556
    &&& forall|l: int|
        0 <= l < 16 ==> #[trigger] f.stats.main_lods[l] == at_level(orders[0], l, orders[0].len())
    &&& forall|l: int|
        0 <= l < 16 ==> #[trigger] f.stats.shadow_lods[l] == shadow_level(orders, l, n)
    &&& forall|l: int| #[trigger] shadow_level(orders, l, n) <= f.runs.scratch@.len()
}

fn sum_levels(a: &[u32; 16], b: &[u32; 16]) -> (r: [u32; 16])
    requires
        forall|l: int| 0 <= l < 16 ==> #[trigger] a[l] + b[l] <= u32::MAX,
    ensures
        forall|l: int| 0 <= l < 16 ==> #[trigger] r[l] == a[l] + b[l],
{
    let mut r: [u32; 16] = [0, 0, 0, 0, 0, 0, 0, 0, 0, 0, 0, 0, 0, 0, 0, 0];
    for i in 0..16usize
        invariant
            forall|l: int| 0 <= l < 16 ==> #[trigger] a[l] + b[l] <= u32::MAX,
            forall|l: int| 0 <= l < i ==> #[trigger] r[l] == a[l] + b[l],
    {
        assert(a[i as int] + b[i as int] <= u32::MAX);
        r[i] = a[i] + b[i];
    }
    r
}

impl FrameDraws {
    pub fn new(max_instances: u32) -> (r: FrameDraws)
        ensures
            r.max_instances == max_instances,
            r.runs.scratch@.len() == 0,
            r.main_runs@.len() == 0,
            r.shadow_runs@.len() == 0,
            r.lights@.len() == 0,
            r.stats.main_tris == 0,
            r.stats.shadow_tris == 0,
            forall|l: int| 0 <= l < 16 ==> #[trigger] r.stats.main_lods[l] == 0,
            forall|l: int| 0 <= l < 16 ==> #[trigger] r.stats.shadow_lods[l] == 0,
    {
        let none: [u32; 16] = [0, 0, 0, 0, 0, 0, 0, 0, 0, 0, 0, 0, 0, 0, 0, 0];
        FrameDraws {
            max_instances,
            runs: Runs::new(),
            main_runs: Vec::new(),
            shadow_runs: Vec::new(),
            lights: Vec::new(),
            stats: FrameStats {
                main_tris: 0,
                shadow_tris: 0,
                main_lods: none,
                shadow_lods: none,
            },
        }
    }

    fn build_main(
        &mut self,
        slices: &Vec<MeshSlice>,
        main: &Vec<(MeshId, InstanceData)>,
        main_budgets: Option<&Vec<F32>>,
    )
        requires
            groupable(draws::slice_views(slices@)),
            main_budgets matches Some(b) ==> b@.len() == main@.len(),
            main@.len() <= u32::MAX,
        ensures
            gathered(
                draws::slice_views(slices@),
                main@,
                floats(main_budgets),
                final(self).runs.keyed@,
            ),
            final(self).runs.keyed@.len() <= main@.len(),
            frame_built(
                *final(self),
                draws::slice_views(slices@),
                seq![final(self).runs.keyed@],
            ),
            final(self).lights == old(self).lights,
            final(self).max_instances == old(self).max_instances,
    {
        self.runs.scratch.clear();
        let mut main_runs: Vec<Run> = Vec::new();
        let st: RunStats = self.runs.build(slices, main, main_budgets, &mut main_runs, 0);
        let none: [u32; 16] = [0, 0, 0, 0, 0, 0, 0, 0, 0, 0, 0, 0, 0, 0, 0, 0];
        self.stats = FrameStats {
            main_tris: st.tris,
            shadow_tris: 0,
            main_lods: st.lods,
            shadow_lods: none,
        };
        self.main_runs = main_runs;
        self.shadow_runs = Vec::new();
        proof {
            let orders = seq![self.runs.keyed@];
            let views = draws::slice_views(slices@);
            reveal_with_fuel(flattened, 2);
            assert(self.runs.scratch@ =~= flattened(orders, 1));
            assert(self.main_runs@ =~= runs_of(views, orders[0], 0, 0));
        }
    }

    fn build_shadow(
        &mut self,
        slices: &Vec<MeshSlice>,
        casters: &Vec<(MeshId, InstanceData)>,
        budgets: Option<&Vec<F32>>,
        Ghost(orders): Ghost<Seq<Seq<(u32, InstanceData)>>>,
    )
        requires
            groupable(draws::slice_views(slices@)),
            budgets matches Some(b) ==> b@.len() == casters@.len(),
            orders.len() >= 1,
            frame_built(*old(self), draws::slice_views(slices@), orders),
            old(self).runs.scratch@.len() + casters@.len() <= u32::MAX,
        ensures
            gathered(
                draws::slice_views(slices@),
                casters@,
                floats(budgets),
                final(self).runs.keyed@,
            ),
            final(self).runs.scratch@.len() <= old(self).runs.scratch@.len() + casters@.len(),
            frame_built(
                *final(self),
                draws::slice_views(slices@),
                orders.push(final(self).runs.keyed@),
            ),
            final(self).lights == old(self).lights,
            final(self).max_instances == old(self).max_instances,
    {
        let ghost views = draws::slice_views(slices@);
        let ghost n = orders.len();
        let base: u32 = self.runs.scratch.len() as u32;
        let mut runs: Vec<Run> = Vec::new();
        let st: RunStats = self.runs.build(slices, casters, budgets, &mut runs, base);
        let ghost s = self.runs.keyed@;
        let ghost all = orders.push(s);
        proof {
            lemma_flattened_same(orders, all, n);
            lemma_totals_bound(views, s, s.len());
            assert(flattened(all, n + 1) == flattened(all, n) + instances_of(s));
            assert forall|l: int| 0 <= l < 16 implies #[trigger] self.stats.shadow_lods[l]
                + st.lods[l] <= u32::MAX by {
                assert(at_level(s, l, s.len()) <= s.len());
                assert(shadow_level(orders, l, n) <= base);
            }
        }
        self.stats.shadow_tris = self.stats.shadow_tris + st.tris;
        self.stats.shadow_lods = sum_levels(&self.stats.shadow_lods, &st.lods);
        self.shadow_runs.push(runs);
        proof {
            assert forall|c: int| 0 <= c < n implies (#[trigger] self.shadow_runs@[c])@ == runs_of(
                views,
                all[c + 1],
                flattened(all, (c + 1) as nat).len() as int,
                0,
            ) by {
                lemma_flattened_same(orders, all, (c + 1) as nat);
                if c < n - 1 {
                    assert(self.shadow_runs@[c] == old(self).shadow_runs@[c]);
                    assert(all[c + 1] == orders[c + 1]);
                } else {
                    assert(runs@ =~= runs_of(views, s, base as int, 0));
                }
            }
            assert forall|l: int| #[trigger] shadow_level(all, l, n + 1)
                <= self.runs.scratch@.len() by {
                assert(at_level(s, l, s.len()) <= s.len());
                assert(shadow_level(orders, l, n) <= base);
                assert(shadow_level(all, l, n) == shadow_level(orders, l, n));
            }
            assert forall|l: int| 0 <= l < 16 implies #[trigger] self.stats.shadow_lods[l]
                == shadow_level(all, l, n + 1) by {
                assert(shadow_level(all, l, n) == shadow_level(orders, l, n));
            }
            assert(shadow_triangles(views, all, n) == shadow_triangles(views, orders, n));
        }
    }
}

impl FrameDraws {
    /// Takes out what the instance buffer has no room for, and gives every
    /// shadow map a list.
    fn trim(
        &mut self,
        Ghost(slices): Ghost<Seq<draws::SliceModel>>,
        Ghost(orders): Ghost<Seq<Seq<(u32, InstanceData)>>>,
    )
        requires
            1 <= orders.len() <= draws::SHADOW_CASCADES + 1,
            frame_built(*old(self), slices, orders),
            forall|i: int| 0 <= i < orders.len() ==> in_order(#[trigger] orders[i]),
        ensures
            frame_draws(*final(self), slices, orders),
            final(self).lights == old(self).lights,
            final(self).max_instances == old(self).max_instances,
    {
        let ghost all = flattened(orders, orders.len());
        let ghost n = orders.len();
        let cap: u32 = self.max_instances;
        if self.runs.scratch.len() > cap as usize {
            proof {
                lemma_flattened_lens(orders, 1, n);
                reveal_with_fuel(flattened, 2);
                assert(in_order(orders[0]));
                lemma_runs_end(slices, orders[0], 0);
            }
            self.runs.scratch.truncate(cap as usize);
            self.main_runs = keep_fitting(&self.main_runs, cap);
            let count: usize = self.shadow_runs.len();
            let mut shadow_runs: Vec<Vec<Run>> = Vec::new();
            for c in 0..count
                invariant
                    count == self.shadow_runs@.len(),
                    count == n - 1,
                    n == orders.len(),
                    flattened(orders, n).len() <= u32::MAX,
                    forall|i: int| 0 <= i < orders.len() ==> in_order(#[trigger] orders[i]),
                    forall|c: int|
                        0 <= c < n - 1 ==> (#[trigger] self.shadow_runs@[c])@ == runs_of(
                            slices,
                            orders[c + 1],
                            flattened(orders, (c + 1) as nat).len() as int,
                            0,
                        ),
                    shadow_runs@.len() == c,
                    forall|d: int|
                        0 <= d < c ==> (#[trigger] shadow_runs@[d])@ == fitting(
                            runs_of(
                                slices,
                                orders[d + 1],
                                flattened(orders, (d + 1) as nat).len() as int,
                                0,
                            ),
                            cap,
                        ),
            {
                proof {
                    lemma_flattened_lens(orders, (c + 2) as nat, n);
                    assert(flattened(orders, (c + 2) as nat) == flattened(orders, (c + 1) as nat)
                        + instances_of(orders[c + 1]));
                    assert(in_order(orders[c + 1]));
                    lemma_runs_end(
                        slices,
                        orders[c + 1],
                        flattened(orders, (c + 1) as nat).len() as int,
                    );
                    assert(self.shadow_runs@[c as int]@.len() >= 0);
                }
                shadow_runs.push(keep_fitting(&self.shadow_runs[c], cap));
            }
            self.shadow_runs = shadow_runs;
        } else {
            assert(all.take(all.len() as int) =~= all);
        }
        let ghost used = self.shadow_runs@;
        while self.shadow_runs.len() < draws::SHADOW_CASCADES
            invariant
                n == orders.len(),
                used.len() == n - 1 <= draws::SHADOW_CASCADES,
                used.len() <= self.shadow_runs@.len() <= draws::SHADOW_CASCADES,
                forall|c: int| 0 <= c < used.len() ==> self.shadow_runs@[c] == used[c],
                forall|c: int|
                    used.len() <= c < self.shadow_runs@.len() ==> (
                    #[trigger] self.shadow_runs@[c])@.len() == 0,
                self.runs == old(self).runs || self.runs.scratch@ == all.take(cap as int),
                self.lights == old(self).lights,
                self.max_instances == old(self).max_instances,
                self.stats == old(self).stats,
                all.len() <= cap ==> self.runs == old(self).runs && self.main_runs == old(
                    self,
                ).main_runs,
                all.len() > cap ==> self.runs.scratch@ == all.take(cap as int)
                    && self.main_runs@ == fitting(old(self).main_runs@, cap),
            decreases draws::SHADOW_CASCADES - self.shadow_runs@.len(),
        {
            self.shadow_runs.push(Vec::new());
        }
        assert forall|c: int| 0 <= c < draws::SHADOW_CASCADES implies (
        #[trigger] self.shadow_runs@[c])@ == (if c + 1 < n {
            kept(
                runs_of(
                    slices,
                    orders[c + 1],
                    flattened(orders, (c + 1) as nat).len() as int,
                    0,
                ),
                all.len(),
                cap,
            )
        } else {
            seq![]
        }) by {
            if c + 1 < n {
                assert(self.shadow_runs@[c] == used[c]);
                assert(old(self).shadow_runs@[c]@.len() >= 0);
            } else {
                assert(self.shadow_runs@[c]@ =~= seq![]);
            }
        }
    }

    /// Sort the instances of the camera's view and of every shadow map into
    /// runs, one view behind the other in the instance buffer. Lights past the
    /// limit are dropped; the result says how many there were if so.
    pub fn prepare_frame(
        &mut self,
        slices: &Vec<MeshSlice>,
        main: &Vec<(MeshId, InstanceData)>,
        main_budgets: Option<&Vec<F32>>,
        shadows: &Vec<Vec<(MeshId, InstanceData)>>,
        shadow_budgets: &Vec<Option<Vec<F32>>>,
        lights: &Vec<GpuLight>,
    ) -> (r: Option<usize>)
        requires
            groupable(draws::slice_views(slices@)),
            main_budgets matches Some(b) ==> b@.len() == main@.len(),
            shadow_budgets@.len() == shadows@.len(),
            forall|c: int|
                0 <= c < shadows@.len() ==> (#[trigger] shadow_budgets@[c] matches Some(b)
                    ==> b@.len() == shadows@[c]@.len()),
            main@.len() + caster_count(shadows@, cascades_of(shadows@.len())) <= u32::MAX,
        ensures
            exists|orders: Seq<Seq<(u32, InstanceData)>>|
                #![trigger frame_draws(*final(self), draws::slice_views(slices@), orders)]
                orders.len() == 1 + cascades_of(shadows@.len()) && views_gathered(
                    draws::slice_views(slices@),
                    main@,
                    floats(main_budgets),
                    shadows@,
                    shadow_budgets@,
                    orders,
                ) && frame_draws(*final(self), draws::slice_views(slices@), orders),
            final(self).max_instances == old(self).max_instances,
            final(self).lights@ == lights@.take(
                if lights@.len() > draws::MAX_LIGHTS {
                    draws::MAX_LIGHTS as int
                } else {
                    lights@.len() as int
                },
            ),
            r == (if lights@.len() > draws::MAX_LIGHTS {
                Some(lights@.len() as usize)
            } else {
                None
            }),
    {
        let dropped: Option<usize> = if lights.len() > draws::MAX_LIGHTS {
            Some(lights.len())
        } else {
            None
        };
        let shown: usize = if lights.len() > draws::MAX_LIGHTS {
            draws::MAX_LIGHTS
        } else {
            lights.len()
        };
        let mut few: Vec<GpuLight> = Vec::new();
        for i in 0..shown
            invariant
                shown <= lights@.len(),
                few@ == lights@.take(i as int),
        {
            few.push(lights[i]);
            assert(few@ =~= lights@.take(i + 1));
        }
        self.lights = few;
        let ghost views = draws::slice_views(slices@);
        let cascades: usize = if shadows.len() < draws::SHADOW_CASCADES {
            shadows.len()
        } else {
            draws::SHADOW_CASCADES
        };
        self.build_main(slices, main, main_budgets);
        let ghost mut orders: Seq<Seq<(u32, InstanceData)>> = seq![self.runs.keyed@];
        proof {
            reveal_with_fuel(flattened, 2);
        }
        for c in 0..cascades
            invariant
                views == draws::slice_views(slices@),
                groupable(views),
                cascades == cascades_of(shadows@.len()),
                shadow_budgets@.len() == shadows@.len(),
                forall|c: int|
                    0 <= c < shadows@.len() ==> (#[trigger] shadow_budgets@[c] matches Some(b)
                        ==> b@.len() == shadows@[c]@.len()),
                main@.len() + caster_count(shadows@, cascades as nat) <= u32::MAX,
                orders.len() == 1 + c,
                views_gathered(
                    views,
                    main@,
                    floats(main_budgets),
                    shadows@,
                    shadow_budgets@,
                    orders,
                ),
                frame_built(*self, views, orders),
                self.runs.scratch@.len() <= main@.len() + caster_count(shadows@, c as nat),
                self.lights@ == few@,
                self.max_instances == old(self).max_instances,
        {
            proof {
                lemma_caster_count_grows(shadows@, (c + 1) as nat, cascades as nat);
                assert(shadow_budgets@[c as int] matches Some(b) ==> b@.len()
                    == shadows@[c as int]@.len());
            }
            let budgets: Option<&Vec<F32>> = match &shadow_budgets[c] {
                Some(b) => Some(b),
                None => None,
            };
            self.build_shadow(slices, &shadows[c], budgets, Ghost(orders));
            proof {
                orders = orders.push(self.runs.keyed@);
            }
        }
        assert forall|i: int| 0 <= i < orders.len() implies in_order(#[trigger] orders[i]) by {
            if i > 0 {
                assert(gathered(
                    views,
                    shadows@[i - 1]@,
                    own_floats(shadow_budgets@[i - 1]),
                    orders[i],
                ));
            }
        }
        self.trim(Ghost(views), Ghost(orders));
        dropped
    }
}

proof fn lemma_flattened_lens(orders: Seq<Seq<(u32, InstanceData)>>, m: nat, n: nat)
    requires
        m <= n,
    ensures
        flattened(orders, m).len() <= flattened(orders, n).len(),
    decreases n,
{
    if m < n {
        lemma_flattened_lens(orders, m, (n - 1) as nat);
    }
}

proof fn lemma_fitting(runs: Seq<Run>, cap: u32)
    ensures
        forall|i: int|
            0 <= i < fitting(runs, cap).len() ==> (#[trigger] fitting(runs, cap)[i]).run_start
                + fitting(runs, cap)[i].run_len <= cap,
        forall|i: int|
            0 <= i < fitting(runs, cap).len() ==> runs.contains(#[trigger] fitting(runs, cap)[i]),
    decreases runs.len(),
{
    if runs.len() > 0 {
        let rest = fitting(runs.drop_last(), cap);
        let all = fitting(runs, cap);
        lemma_fitting(runs.drop_last(), cap);
        assert forall|i: int| 0 <= i < all.len() implies runs.contains(#[trigger] all[i]) by {
            if i < rest.len() {
                assert(all[i] == rest[i]);
                let j = choose|j: int|
                    0 <= j < runs.drop_last().len() && runs.drop_last()[j] == rest[i];
                assert(runs[j] == all[i]);
            } else {
                assert(runs[runs.len() - 1] == all[i]);
            }
        }
        assert forall|i: int| 0 <= i < all.len() implies (#[trigger] all[i]).run_start
            + all[i].run_len <= cap by {
            if i < rest.len() {
                assert(all[i] == rest[i]);
            }
        }
    }
}

/// No draw that is kept reads past the instances that were uploaded, whatever
/// the buffer's size.
pub proof fn law_draws_stay_in_the_buffer(
    slices: Seq<draws::SliceModel>,
    s: Seq<(u32, InstanceData)>,
    base: int,
    total: nat,
    cap: u32,
    i: int,
)
    requires
        0 <= base,
        base + s.len() <= total <= u32::MAX,
        in_order(s),
        0 <= i < kept(runs_of(slices, s, base, 0), total, cap).len(),
    ensures
        ({
            let r = kept(runs_of(slices, s, base, 0), total, cap)[i];
            r.run_start + r.run_len <= total && r.run_start + r.run_len <= cap
        }),
{
    let runs = runs_of(slices, s, base, 0);
    law_runs_tile_the_instances(slices, s, base, 0);
    lemma_fitting(runs, cap);
    let r = kept(runs, total, cap)[i];
    assert(runs.contains(r));
    let j = choose|j: int| 0 <= j < runs.len() && runs[j] == r;
    assert(run_draws(slices, s, base, runs[j]));
}

/// Whether a level of detail is the one to draw under a budget: the coarsest
/// that stays within it, else full detail, which is also what is drawn without
/// a budget.
pub open spec fn fits_budget(lods: Seq<LodSlice>, budget: Option<F32>, l: int) -> bool {
    match budget {
        None => l == 0,
        Some(b) => {
            &&& 0 <= l < lods.len()
            &&& l > 0 ==> lods[l].error.within(b)
            &&& forall|k: int| l < k < lods.len() ==> !(#[trigger] lods[k]).error.within(b)
        },
    }
}

proof fn lemma_level_fits(slice: draws::SliceModel, budget: Option<F32>)
    requires
        slice.lods.len() >= 1,
    ensures
        fits_budget(slice.lods, budget, level(slice, budget)),
        0 <= level(slice, budget) < slice.lods.len(),
{
    if let Some(b) = budget {
        draws::law_the_coarsest_level_in_budget_is_picked(slice.lods, b, 0);
        let l = level(slice, budget);
        assert forall|k: int| l < k < slice.lods.len() implies !(
        #[trigger] slice.lods[k]).error.within(b) by {
            draws::law_the_coarsest_level_in_budget_is_picked(slice.lods, b, k);
        }
    }
}

/// The instances of a view are those whose mesh is there, in order. Each is
/// grouped by its own mesh and by the level that its budget asks for, and keeps
/// what the device reads of it.
pub proof fn law_known_instances_are_grouped(
    slices: Seq<draws::SliceModel>,
    items: Seq<(MeshId, InstanceData)>,
    budgets: Option<Seq<F32>>,
    n: nat,
)
    requires
        groupable(slices),
    ensures
        grouped(slices, items, budgets, 0).len() == 0,
        ({
            let less = grouped(slices, items, budgets, n);
            let more = grouped(slices, items, budgets, n + 1);
            let mesh = items[n as int].0.0;
            let budget: Option<F32> = match budgets {
                Some(b) => Some(b[n as int]),
                None => None,
            };
            if mesh < slices.len() {
                &&& more.drop_last() == less && more.len() == less.len() + 1
                &&& more.last().1 == items[n as int].1
                &&& more.last().0 as int / 16 == mesh
                &&& fits_budget(slices[mesh as int].lods, budget, more.last().0 as int % 16)
            } else {
                more == less
            }
        }),
{
    let less = grouped(slices, items, budgets, n);
    let mesh = items[n as int].0.0;
    if mesh < slices.len() {
        let slice = slices[mesh as int];
        assert(1 <= slice.lods.len() <= 16);
        let budget = budget_at(budgets, n as int);
        lemma_level_fits(slice, budget);
        assert(grouped(slices, items, budgets, n + 1).drop_last() =~= less);
    }
}

/// Whether a run draws the instance at place `at` of the buffer as a mesh at one
/// of its levels.
pub open spec fn draws_as(r: Run, slice: draws::SliceModel, l: int, at: int) -> bool {
    &&& r.run_start <= at < r.run_start + r.run_len
    &&& r.vertex_offset == slice.vertex_offset
    &&& r.first_index == slice.lods[l].first_index
    &&& r.index_count == slice.lods[l].index_count
}

pub open spec fn some_run_draws(runs: Seq<Run>, slice: draws::SliceModel, l: int, at: int) -> bool {
    exists|i: int| 0 <= i < runs.len() && draws_as(#[trigger] runs[i], slice, l, at)
}

/// Each instance of a view is drawn by a run, with the vertices and indices of
/// its own mesh and level.
pub proof fn law_every_instance_is_drawn(
    slices: Seq<draws::SliceModel>,
    s: Seq<(u32, InstanceData)>,
    base: int,
    k: int,
)
    requires
        0 <= base,
        base + s.len() <= u32::MAX,
        in_order(s),
        0 <= k < s.len(),
    ensures
        some_run_draws(
            runs_of(slices, s, base, 0),
            slices[s[k].0 as int / 16],
            s[k].0 as int % 16,
            base + k,
        ),
{
    law_runs_tile_the_instances(slices, s, base, 0);
    let runs = runs_of(slices, s, base, 0);
    let i = lemma_tile_at(runs, base, base + s.len(), base + k);
    let r = runs[i];
    assert(run_draws(slices, s, base, r));
    assert(s[r.run_start - base + (base + k - r.run_start)].0 == s[r.run_start - base].0);
    assert(draws_as(runs[i], slices[s[k].0 as int / 16], s[k].0 as int % 16, base + k));
}

proof fn lemma_tile_at(runs: Seq<Run>, from: int, to: int, at: int) -> (i: int)
    requires
        tiled(runs, from, to),
        from <= at < to,
    ensures
        0 <= i < runs.len(),
        runs[i].run_start <= at < runs[i].run_start + runs[i].run_len,
    decreases runs.len(),
{
    if runs.len() == 0 {
        0
    } else {
        let last = runs.last();
        assert(runs[runs.len() - 1] == last);
        assert(last.run_start + last.run_len == to);
        if last.run_start <= at {
            runs.len() - 1
        } else {
            let rest = runs.drop_last();
            assert(rest.len() > 0);
            assert forall|i: int| 0 <= i < rest.len() implies (#[trigger] rest[i]).run_len > 0
                && rest[i].run_start + rest[i].run_len == (if i + 1 < rest.len() {
                rest[i + 1].run_start as int
            } else {
                last.run_start as int
            }) by {
                assert(rest[i] == runs[i]);
                if i + 1 < rest.len() {
                    assert(rest[i + 1] == runs[i + 1]);
                }
            }
            lemma_tile_at(rest, from, last.run_start as int, at)
        }
    }
}

/// Triangles that runs draw.
pub open spec fn drawn_triangles(runs: Seq<Run>) -> nat
    decreases runs.len(),
{
    if runs.len() == 0 {
        0
    } else {
        (runs[0].index_count as nat / 3) * runs[0].run_len as nat + drawn_triangles(
            runs.drop_first(),
        )
    }
}

/// Instances that runs draw.
pub open spec fn drawn_instances(runs: Seq<Run>) -> nat
    decreases runs.len(),
{
    if runs.len() == 0 {
        0
    } else {
        runs[0].run_len as nat + drawn_instances(runs.drop_first())
    }
}

/// The triangles that are counted are those that the runs draw, and the runs
/// draw each instance once.
pub proof fn law_what_is_drawn_is_counted(
    slices: Seq<draws::SliceModel>,
    s: Seq<(u32, InstanceData)>,
    base: int,
)
    requires
        0 <= base,
        base + s.len() <= u32::MAX,
    ensures
        triangles(slices, s, s.len()) == drawn_triangles(runs_of(slices, s, base, 0)),
        drawn_instances(runs_of(slices, s, base, 0)) == s.len(),
{
    lemma_counted(slices, s, base, 0);
}

proof fn lemma_counted(
    slices: Seq<draws::SliceModel>,
    s: Seq<(u32, InstanceData)>,
    base: int,
    at: int,
)
    requires
        0 <= base,
        base + s.len() <= u32::MAX,
        0 <= at <= s.len(),
    ensures
        triangles(slices, s, s.len()) == triangles(slices, s, at as nat) + drawn_triangles(
            runs_of(slices, s, base, at),
        ),
        drawn_instances(runs_of(slices, s, base, at)) == s.len() - at,
    decreases s.len() - at,
{
    if at < s.len() {
        let key = s[at].0;
        lemma_same_from(s, key, at);
        let n = same_from(s, key, at);
        lemma_counted(slices, s, base, at + n);
        lemma_stretch(slices, s, key, at as nat, n);
        let all = runs_of(slices, s, base, at);
        let rest = runs_of(slices, s, base, at + n);
        assert(all.drop_first() =~= rest);
        assert(all[0] == run_of(slices, key, base + at, n as int));
    }
}

/// One more instance is counted at its own level, and at no other.
pub proof fn law_levels_are_counted(s: Seq<(u32, InstanceData)>, l: int, n: nat)
    ensures
        at_level(s, l, 0) == 0,
        s[n as int].0 as int % 16 == l ==> at_level(s, l, n + 1) == at_level(s, l, n) + 1,
        s[n as int].0 as int % 16 != l ==> at_level(s, l, n + 1) == at_level(s, l, n),
{
}

/// When a frame has too many instances, the draws that are left out are those
/// that would read past the buffer, and no others.
pub proof fn law_only_what_does_not_fit_is_dropped(runs: Seq<Run>, total: nat, cap: u32)
    ensures
        kept(runs, total, cap) == (if total <= cap {
            runs
        } else {
            runs.filter(|r: Run| r.run_start + r.run_len <= cap)
        }),
{
    lemma_fitting_is_filter(runs, cap);
}

proof fn lemma_fitting_is_filter(runs: Seq<Run>, cap: u32)
    ensures
        fitting(runs, cap) == runs.filter(|r: Run| r.run_start + r.run_len <= cap),
    decreases runs.len(),
{
    reveal(Seq::filter);
    if runs.len() > 0 {
        lemma_fitting_is_filter(runs.drop_last(), cap);
    }
}

/// Whether an instance stands in the buffer, and one of the runs draws it there
/// as its mesh, at the level that its budget asks for.
pub open spec fn is_drawn(
    scratch: Seq<InstanceData>,
    runs: Seq<Run>,
    slice: draws::SliceModel,
    budget: Option<F32>,
    instance: InstanceData,
) -> bool {
    exists|at: int, l: int|
        #![trigger some_run_draws(runs, slice, l, at)]
        0 <= at < scratch.len() && scratch[at] == instance && fits_budget(slice.lods, budget, l)
            && some_run_draws(runs, slice, l, at)
}

proof fn lemma_grouped_has(
    slices: Seq<draws::SliceModel>,
    items: Seq<(MeshId, InstanceData)>,
    budgets: Option<Seq<F32>>,
    n: nat,
    i: int,
)
    requires
        0 <= i < n,
        items[i].0.0 < slices.len(),
    ensures
        grouped(slices, items, budgets, n).contains(
            (group(slices, items[i].0, budget_at(budgets, i))->0, items[i].1),
        ),
    decreases n,
{
    let all = grouped(slices, items, budgets, n);
    let x = (group(slices, items[i].0, budget_at(budgets, i))->0, items[i].1);
    if i == n - 1 {
        assert(all.last() == x);
    } else {
        lemma_grouped_has(slices, items, budgets, (n - 1) as nat, i);
        let less = grouped(slices, items, budgets, (n - 1) as nat);
        let j = choose|j: int| 0 <= j < less.len() && less[j] == x;
        assert(all[j] == x);
    }
}

proof fn lemma_view_drawn(
    slices: Seq<draws::SliceModel>,
    items: Seq<(MeshId, InstanceData)>,
    budgets: Option<Seq<F32>>,
    s: Seq<(u32, InstanceData)>,
    scratch: Seq<InstanceData>,
    base: int,
    i: int,
)
    requires
        groupable(slices),
        gathered(slices, items, budgets, s),
        0 <= i < items.len(),
        items[i].0.0 < slices.len(),
        0 <= base,
        base + s.len() <= u32::MAX,
        base + s.len() <= scratch.len(),
        scratch.subrange(base, base + s.len()) == instances_of(s),
    ensures
        is_drawn(
            scratch,
            runs_of(slices, s, base, 0),
            slices[items[i].0.0 as int],
            budget_at(budgets, i),
            items[i].1,
        ),
{
    broadcast use vstd::seq_lib::group_to_multiset_ensures;

    let all = grouped(slices, items, budgets, items.len());
    let budget = budget_at(budgets, i);
    let slice = slices[items[i].0.0 as int];
    let x = (group(slices, items[i].0, budget)->0, items[i].1);
    lemma_grouped_has(slices, items, budgets, items.len(), i);
    assert(all.to_multiset().count(x) > 0);
    assert(s.contains(x));
    let k = choose|k: int| 0 <= k < s.len() && s[k] == x;
    assert(1 <= slice.lods.len() <= 16);
    lemma_level_fits(slice, budget);
    law_every_instance_is_drawn(slices, s, base, k);
    assert(scratch[base + k] == scratch.subrange(base, base + s.len())[k]);
    assert(some_run_draws(
        runs_of(slices, s, base, 0),
        slice,
        level(slice, budget),
        base + k,
    ));
}

proof fn lemma_flattened_part(orders: Seq<Seq<(u32, InstanceData)>>, c: nat, n: nat)
    requires
        c < n,
    ensures
        ({
            let base = flattened(orders, c).len() as int;
            let all = flattened(orders, n);
            &&& base + orders[c as int].len() <= all.len()
            &&& all.subrange(base, base + orders[c as int].len()) == instances_of(orders[c as int])
        }),
    decreases n,
{
    let base = flattened(orders, c).len() as int;
    let all = flattened(orders, n);
    let own = orders[c as int];
    if c == n - 1 {
        assert(all.subrange(base, base + own.len()) =~= instances_of(own));
    } else {
        lemma_flattened_part(orders, c, (n - 1) as nat);
        let less = flattened(orders, (n - 1) as nat);
        assert(all.subrange(base, base + own.len()) =~= less.subrange(base, base + own.len()));
    }
}

/// A frame with room for all its instances draws every instance of every view:
/// the camera's, and those of up to four shadow maps. Only instances of meshes
/// that are not there are left out.
pub proof fn law_frames_draw_every_instance(
    f: FrameDraws,
    slices: Seq<draws::SliceModel>,
    main: Seq<(MeshId, InstanceData)>,
    main_budgets: Option<Seq<F32>>,
    shadows: Seq<Vec<(MeshId, InstanceData)>>,
    shadow_budgets: Seq<Option<Vec<F32>>>,
    orders: Seq<Seq<(u32, InstanceData)>>,
)
    requires
        groupable(slices),
        orders.len() == 1 + cascades_of(shadows.len()),
        views_gathered(slices, main, main_budgets, shadows, shadow_budgets, orders),
        frame_draws(f, slices, orders),
        flattened(orders, orders.len()).len() <= f.max_instances,
    ensures
        forall|i: int|
            0 <= i < main.len() && (#[trigger] main[i]).0.0 < slices.len() ==> is_drawn(
                f.runs.scratch@,
                f.main_runs@,
                slices[main[i].0.0 as int],
                match main_budgets {
                    Some(b) => Some(b[i]),
                    None => None,
                },
                main[i].1,
            ),
        forall|c: int, i: int|
            #![trigger shadows[c]@[i]]
            0 <= c < shadows.len() && c < 4 && 0 <= i < shadows[c]@.len()
                && shadows[c]@[i].0.0 < slices.len() ==> is_drawn(
                f.runs.scratch@,
                f.shadow_runs@[c]@,
                slices[shadows[c]@[i].0.0 as int],
                match shadow_budgets[c] {
                    Some(b) => Some(b@[i]),
                    None => None,
                },
                shadows[c]@[i].1,
            ),
{
    let n = orders.len();
    let all = flattened(orders, n);
    assert(f.runs.scratch@ =~= all);
    lemma_flattened_part(orders, 0, n);
    assert(flattened(orders, 0).len() == 0);
    assert forall|i: int|
        0 <= i < main.len() && (#[trigger] main[i]).0.0 < slices.len() implies is_drawn(
        f.runs.scratch@,
        f.main_runs@,
        slices[main[i].0.0 as int],
        match main_budgets {
            Some(b) => Some(b[i]),
            None => None,
        },
        main[i].1,
    ) by {
        lemma_view_drawn(slices, main, main_budgets, orders[0], all, 0, i);
    }
    assert forall|c: int, i: int|
        #![trigger shadows[c]@[i]]
        0 <= c < shadows.len() && c < 4 && 0 <= i < shadows[c]@.len() && shadows[c]@[i].0.0
            < slices.len() implies is_drawn(
        f.runs.scratch@,
        f.shadow_runs@[c]@,
        slices[shadows[c]@[i].0.0 as int],
        match shadow_budgets[c] {
            Some(b) => Some(b@[i]),
            None => None,
        },
        shadows[c]@[i].1,
    ) by {
        let s = orders[c + 1];
        lemma_flattened_part(orders, (c + 1) as nat, n);
        let base = flattened(orders, (c + 1) as nat).len() as int;
        assert(gathered(slices, shadows[c]@, own_floats(shadow_budgets[c]), orders[c + 1]));
        lemma_view_drawn(slices, shadows[c]@, own_floats(shadow_budgets[c]), s, all, base, i);
        assert(f.shadow_runs@[c]@ == runs_of(slices, s, base, 0));
    }
}

/// The triangles of the shadow maps from the first to the `n`th.
pub open spec fn cast_triangles(shadow_runs: Seq<Vec<Run>>, n: nat) -> nat
    decreases n,
{
    if n == 0 {
        0
    } else {
        cast_triangles(shadow_runs, (n - 1) as nat) + drawn_triangles(shadow_runs[n - 1]@)
    }
}

proof fn lemma_cast_triangles(
    f: FrameDraws,
    slices: Seq<draws::SliceModel>,
    orders: Seq<Seq<(u32, InstanceData)>>,
    n: nat,
)
    requires
        1 <= orders.len() <= 5,
        frame_draws(f, slices, orders),
        flattened(orders, orders.len()).len() <= f.max_instances,
        n <= 4,
    ensures
        cast_triangles(f.shadow_runs@, n) == shadow_triangles(
            slices,
            orders,
            if n + 1 < orders.len() {
                n + 1
            } else {
                orders.len()
            },
        ),
    decreases n,
{
    if n > 0 {
        lemma_cast_triangles(f, slices, orders, (n - 1) as nat);
        let c = n - 1;
        assert(f.shadow_runs@[c]@ == f.shadow_runs@[c]@);
        if n < orders.len() {
            lemma_flattened_part(orders, n, orders.len());
            let base = flattened(orders, n).len() as int;
            law_what_is_drawn_is_counted(slices, orders[n as int], base);
            assert(f.shadow_runs@[c]@ == runs_of(slices, orders[c + 1], base, 0));
        } else {
            assert(f.shadow_runs@[c]@.len() == 0);
        }
    }
}

/// A frame with room for all its instances counts the triangles that its runs
/// draw, those of the camera apart from those of the shadow maps.
pub proof fn law_frames_count_what_they_draw(
    f: FrameDraws,
    slices: Seq<draws::SliceModel>,
    orders: Seq<Seq<(u32, InstanceData)>>,
)
    requires
        1 <= orders.len() <= 5,
        frame_draws(f, slices, orders),
        flattened(orders, orders.len()).len() <= f.max_instances,
    ensures
        f.shadow_runs@.len() == 4,
        f.stats.main_tris == drawn_triangles(f.main_runs@),
        f.stats.shadow_tris == cast_triangles(f.shadow_runs@, 4),
{
    lemma_flattened_part(orders, 0, orders.len());
    assert(flattened(orders, 0).len() == 0);
    law_what_is_drawn_is_counted(slices, orders[0], 0);
    lemma_cast_triangles(f, slices, orders, 4);
}

/// The levels counted for the shadow maps of a frame are those of its maps
/// taken together.
pub proof fn law_shadow_levels_add_up(orders: Seq<Seq<(u32, InstanceData)>>, l: int, n: nat)
    requires
        n >= 1,
    ensures
        shadow_level(orders, l, 1) == 0,
        shadow_level(orders, l, n + 1) == shadow_level(orders, l, n) + at_level(
            orders[n as int],
            l,
            orders[n as int].len(),
        ),
{
}

/// The budgets that are handed on are those that were given, each in its place.
pub proof fn law_budgets_are_handed_on(b: Vec<F32>)
    ensures
        floats(Some(&b)) == Some(b@),
        floats(None) is None,
        own_floats(Some(b)) == Some(b@),
        own_floats(None) is None,
{
}

/// How many of some instances are drawn at a level.
pub open spec fn drawn_at(s: Seq<(u32, InstanceData)>, l: int) -> nat {
    s.filter(|k: (u32, InstanceData)| k.0 as int % 16 == l).len()
}

proof fn lemma_at_level(s: Seq<(u32, InstanceData)>, l: int, n: nat)
    requires
        n <= s.len(),
    ensures
        at_level(s, l, n) == drawn_at(s.take(n as int), l),
    decreases n,
{
    reveal(Seq::filter);
    if n > 0 {
        lemma_at_level(s, l, (n - 1) as nat);
        assert(s.take(n as int).drop_last() =~= s.take(n - 1));
        assert(s.take(n as int).last() == s[n - 1]);
    }
}

/// The numbers of a view are those of what it draws: its instances, the triangles
/// of its runs, and how many instances there are at each level.
pub proof fn law_views_count_what_they_draw(
    slices: Seq<draws::SliceModel>,
    s: Seq<(u32, InstanceData)>,
    r: RunStats,
    base: int,
    l: int,
)
    requires
        stats_ok(slices, s, r),
        0 <= base,
        base + s.len() <= u32::MAX,
        0 <= l < 16,
    ensures
        r.instances == s.len(),
        r.instances == drawn_instances(runs_of(slices, s, base, 0)),
        r.tris == drawn_triangles(runs_of(slices, s, base, 0)),
        r.lods[l] == drawn_at(s, l),
{
    law_what_is_drawn_is_counted(slices, s, base);
    lemma_at_level(s, l, s.len());
    assert(s.take(s.len() as int) =~= s);
    assert(r.lods[l] == at_level(s, l, s.len()));
}

/// The instances at a level in the shadow maps among the first `n` views.
pub open spec fn cast_at(orders: Seq<Seq<(u32, InstanceData)>>, l: int, n: nat) -> nat
    decreases n,
{
    if n <= 1 {
        0
    } else {
        cast_at(orders, l, (n - 1) as nat) + drawn_at(orders[n - 1], l)
    }
}

proof fn lemma_cast_at(orders: Seq<Seq<(u32, InstanceData)>>, l: int, n: nat)
    ensures
        shadow_level(orders, l, n) == cast_at(orders, l, n),
    decreases n,
{
    if n > 1 {
        lemma_cast_at(orders, l, (n - 1) as nat);
        let s = orders[n - 1];
        lemma_at_level(s, l, s.len());
        assert(s.take(s.len() as int) =~= s);
    }
}

/// A frame counts the instances at each level, those of the camera apart from
/// those of all the shadow maps together, and uploads as many instances as the
/// buffer has room for, view after view.
pub proof fn law_frames_count_their_levels(
    f: FrameDraws,
    slices: Seq<draws::SliceModel>,
    orders: Seq<Seq<(u32, InstanceData)>>,
    l: int,
)
    requires
        1 <= orders.len() <= 5,
        frame_draws(f, slices, orders),
        0 <= l < 16,
    ensures
        f.stats.main_lods[l] == drawn_at(orders[0], l),
        f.stats.shadow_lods[l] == cast_at(orders, l, orders.len()),
        ({
            let all = flattened(orders, orders.len());
            &&& f.runs.scratch@.len() == (if all.len() <= f.max_instances {
                all.len() as int
            } else {
                f.max_instances as int
            })
            &&& forall|i: int| 0 <= i < f.runs.scratch@.len() ==> f.runs.scratch@[i] == all[i]
        }),
        flattened(orders, 1) == orders[0].map_values(|k: (u32, InstanceData)| k.1),
{
    let s = orders[0];
    lemma_at_level(s, l, s.len());
    assert(s.take(s.len() as int) =~= s);
    lemma_cast_at(orders, l, orders.len());
    assert(f.stats.main_lods[l] == at_level(s, l, s.len()));
    assert(f.stats.shadow_lods[l] == shadow_level(orders, l, orders.len()));
    reveal_with_fuel(flattened, 2);
    assert(flattened(orders, 1) =~= s.map_values(|k: (u32, InstanceData)| k.1));
}

} // verus!
