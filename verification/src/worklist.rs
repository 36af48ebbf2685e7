//! What a bake has to do: each texture and each mesh of all scenes once.
use vstd::prelude::*;

use crate::bake::TexKind;
use crate::mesh::{Material, MeshData};

verus! {

/// A reference to a texture as it is sampled, if there is one.
pub open spec fn one_use(tex: Option<usize>, kind: TexKind) -> Seq<(usize, TexKind)> {
    match tex {
        Some(t) => seq![(t, kind)],
        None => seq![],
    }
}

/// The textures of a material: base colour, normal, metallic and roughness.
pub open spec fn material_uses(m: Material) -> Seq<(usize, TexKind)> {
    one_use(m.base_color_texture, TexKind::Color) + one_use(m.normal_texture, TexKind::Data)
        + one_use(m.metallic_roughness_texture, TexKind::Data)
}

/// The textures of the first `n` meshes, in order, each as often as it is used.
pub open spec fn uses_of(meshes: Seq<MeshData>, n: nat) -> Seq<(usize, TexKind)>
    decreases n,
{
    if n == 0 {
        seq![]
    } else {
        uses_of(meshes, (n - 1) as nat) + material_uses(meshes[n - 1].material)
    }
}

fn push_use(out: &mut Vec<(usize, TexKind)>, tex: Option<usize>, kind: TexKind)
    ensures
        final(out)@ == old(out)@ + one_use(tex, kind),
{
    if let Some(t) = tex {
        out.push((t, kind));
    }
    assert(out@ =~= old(out)@ + one_use(tex, kind));
}

/// Every use of a texture by the meshes of a scene.
pub fn texture_uses(meshes: &Vec<MeshData>) -> (r: Vec<(usize, TexKind)>)
    ensures
        r@ == uses_of(meshes@, meshes@.len()),
{
    let mut out: Vec<(usize, TexKind)> = Vec::new();
    assert(out@ =~= seq![]);
    for i in 0..meshes.len()
        invariant
            out@ == uses_of(meshes@, i as nat),
    {
        let m: Material = meshes[i].material;
        let ghost before = out@;
        push_use(&mut out, m.base_color_texture, TexKind::Color);
        push_use(&mut out, m.normal_texture, TexKind::Data);
        push_use(&mut out, m.metallic_roughness_texture, TexKind::Data);
        assert(out@ =~= before + material_uses(m));
    }
    out
}

/// The places among the first `n` at which a key stands for the first time.
pub open spec fn firsts(keys: Seq<u64>, n: nat) -> Seq<usize>
    decreases n,
{
    if n == 0 {
        seq![]
    } else if keys.take(n - 1).contains(keys[n - 1]) {
        firsts(keys, (n - 1) as nat)
    } else {
        firsts(keys, (n - 1) as nat).push((n - 1) as usize)
    }
}

/// The first place of each key. Equal keys are equal content, so the others
/// need no work of their own.
pub fn first_of_each(keys: &Vec<u64>) -> (r: Vec<usize>)
    ensures
        r@ == firsts(keys@, keys@.len()),
{
    let mut out: Vec<usize> = Vec::new();
    assert(out@ =~= seq![]);
    for i in 0..keys.len()
        invariant
            out@ == firsts(keys@, i as nat),
            forall|j: int| 0 <= j < out@.len() ==> #[trigger] out@[j] < i,
            i <= keys@.len(),
    {
        let key: u64 = keys[i];
        let mut known: bool = false;
        let mut j: usize = 0;
        while j < out.len() && !known
            invariant
                i < keys@.len(),
                key == keys@[i as int],
                out@ == firsts(keys@, i as nat),
                forall|j: int| 0 <= j < out@.len() ==> #[trigger] out@[j] < i,
                j <= out@.len(),
                known ==> keys@.take(i as int).contains(key),
                !known ==> forall|k: int| 0 <= k < j ==> keys@[#[trigger] out@[k] as int] != key,
            decreases out@.len() - j + if known {
                0int
            } else {
                1
            },
        {
            assert(out@[j as int] < i);
            if keys[out[j]] == key {
                assert(keys@.take(i as int)[out@[j as int] as int] == key);
                known = true;
            } else {
                j = j + 1;
            }
        }
        proof {
            if !known && keys@.take(i as int).contains(key) {
                let p = choose|p: int| 0 <= p < i && keys@.take(i as int)[p] == key;
                lemma_firsts_cover(keys@, i as nat, p);
                let k = choose|k: int|
                    0 <= k < out@.len() && keys@[#[trigger] out@[k] as int] == keys@[p];
                assert(keys@[out@[k] as int] != key);
            }
        }
        if !known {
            out.push(i);
        }
    }
    out
}

proof fn lemma_firsts_cover(keys: Seq<u64>, n: nat, p: int)
    requires
        0 <= p < n <= keys.len(),
        keys.len() <= usize::MAX,
    ensures
        exists|k: int|
            0 <= k < firsts(keys, n).len() && keys[#[trigger] firsts(keys, n)[k] as int] == keys[p],
    decreases n,
{
    let all = firsts(keys, n);
    let rest = firsts(keys, (n - 1) as nat);
    if keys.take(n - 1).contains(keys[n - 1]) {
        let q = if p < n - 1 {
            p
        } else {
            choose|q: int| 0 <= q < n - 1 && #[trigger] keys.take(n - 1)[q] == keys[n - 1]
        };
        assert(keys[q] == keys[p]);
        lemma_firsts_cover(keys, (n - 1) as nat, q);
    } else if p < n - 1 {
        lemma_firsts_cover(keys, (n - 1) as nat, p);
        let k = choose|k: int|
            0 <= k < rest.len() && keys[#[trigger] rest[k] as int] == keys[p];
        assert(all[k] == rest[k]);
    } else {
        assert(keys[all[all.len() - 1] as int] == keys[p]);
    }
}

proof fn lemma_firsts_below(keys: Seq<u64>, n: nat)
    requires
        n <= keys.len() <= usize::MAX,
    ensures
        forall|k: int| 0 <= k < firsts(keys, n).len() ==> #[trigger] firsts(keys, n)[k] < n,
    decreases n,
{
    if n > 0 {
        let rest = firsts(keys, (n - 1) as nat);
        let all = firsts(keys, n);
        lemma_firsts_below(keys, (n - 1) as nat);
        assert forall|k: int| 0 <= k < all.len() implies #[trigger] all[k] < n by {
            if k < rest.len() {
                assert(all[k] == rest[k]);
                assert(rest[k] < n - 1);
            }
        }
    }
}

/// Every key is worked on, and none twice.
pub proof fn law_each_key_once(keys: Seq<u64>, n: nat)
    requires
        n <= keys.len() <= usize::MAX,
    ensures
        forall|p: int| #![trigger keys[p]]
            0 <= p < n ==> exists|k: int|
                0 <= k < firsts(keys, n).len() && keys[#[trigger] firsts(keys, n)[k] as int]
                    == keys[p],
        forall|i: int, j: int|
            0 <= i < j < firsts(keys, n).len() ==> keys[#[trigger] firsts(keys, n)[i] as int]
                != keys[#[trigger] firsts(keys, n)[j] as int],
    decreases n,
{
    assert forall|p: int| #![trigger keys[p]] 0 <= p < n implies exists|k: int|
        0 <= k < firsts(keys, n).len() && keys[#[trigger] firsts(keys, n)[k] as int] == keys[p] by {
        lemma_firsts_cover(keys, n, p);
    }
    if n > 0 {
        law_each_key_once(keys, (n - 1) as nat);
        lemma_firsts_below(keys, (n - 1) as nat);
        let rest = firsts(keys, (n - 1) as nat);
        let all = firsts(keys, n);
        assert forall|i: int, j: int| 0 <= i < j < all.len() implies keys[#[trigger] all[i] as int]
            != keys[#[trigger] all[j] as int] by {
            if j < rest.len() {
                assert(all[i] == rest[i] && all[j] == rest[j]);
            } else {
                assert(all[i] == rest[i]);
                assert(rest[i] < n - 1);
                assert(keys.take(n - 1)[rest[i] as int] == keys[rest[i] as int]);
            }
        }
    }
}

/// Whether a material samples a texture as colour or as data.
pub open spec fn samples(m: Material, u: (usize, TexKind)) -> bool {
    match u.1 {
        TexKind::Color => m.base_color_texture == Some(u.0),
        TexKind::Data => m.normal_texture == Some(u.0) || m.metallic_roughness_texture == Some(
            u.0,
        ),
    }
}

pub open spec fn mesh_samples(meshes: Seq<MeshData>, n: nat, u: (usize, TexKind)) -> bool {
    exists|i: int| 0 <= i < n && samples((#[trigger] meshes[i]).material, u)
}

/// The uses of a scene are those of its materials: base colour as colour, the
/// other maps as data. None is missing and none is made up.
pub proof fn law_every_texture_use_is_listed(meshes: Seq<MeshData>, n: nat, u: (usize, TexKind))
    ensures
        uses_of(meshes, n).contains(u) <==> mesh_samples(meshes, n, u),
    decreases n,
{
    if n > 0 {
        let k = (n - 1) as nat;
        law_every_texture_use_is_listed(meshes, k, u);
        let m = meshes[n - 1].material;
        let (less, own, all) = (uses_of(meshes, k), material_uses(m), uses_of(meshes, n));
        lemma_own_uses(m, u);
        if less.contains(u) {
            let j = choose|j: int| 0 <= j < less.len() && less[j] == u;
            assert(all[j] == u);
            let i = choose|i: int| 0 <= i < k && samples((#[trigger] meshes[i]).material, u);
            assert(samples(meshes[i].material, u));
        }
        if own.contains(u) {
            let j = choose|j: int| 0 <= j < own.len() && own[j] == u;
            assert(all[less.len() + j] == u);
            assert(samples(meshes[n - 1].material, u));
        }
        if all.contains(u) {
            let j = choose|j: int| 0 <= j < all.len() && all[j] == u;
            if j < less.len() {
                assert(less[j] == u);
            } else {
                assert(own[j - less.len()] == u);
            }
        }
        if mesh_samples(meshes, n, u) {
            let i = choose|i: int| 0 <= i < n && samples((#[trigger] meshes[i]).material, u);
            assert(i < k ==> mesh_samples(meshes, k, u));
        }
    }
}

proof fn lemma_own_uses(m: Material, u: (usize, TexKind))
    ensures
        material_uses(m).contains(u) <==> samples(m, u),
{
    let all = material_uses(m);
    let a = one_use(m.base_color_texture, TexKind::Color);
    let b = one_use(m.normal_texture, TexKind::Data);
    let c = one_use(m.metallic_roughness_texture, TexKind::Data);
    assert(all == a + b + c);
    if a.len() > 0 {
        assert(all[0] == a[0]);
    }
    if b.len() > 0 {
        assert(all[a.len() as int] == b[0]);
    }
    if c.len() > 0 {
        assert(all[(a + b).len() as int] == c[0]);
    }
}

/// Work is done in the order of the list, at the first place of each key.
pub proof fn law_work_is_done_at_first_places(keys: Seq<u64>, n: nat, k: int)
    requires
        n <= keys.len() <= usize::MAX,
        0 <= k < firsts(keys, n).len(),
    ensures
        firsts(keys, n)[k] < n,
        forall|p: int| 0 <= p < firsts(keys, n)[k] ==> #[trigger] keys[p] != keys[firsts(keys, n)[k] as int],
        k > 0 ==> firsts(keys, n)[k - 1] < firsts(keys, n)[k],
    decreases n,
{
    let all = firsts(keys, n);
    lemma_firsts_below(keys, n);
    let rest = firsts(keys, (n - 1) as nat);
    lemma_firsts_below(keys, (n - 1) as nat);
    if k < rest.len() {
        law_work_is_done_at_first_places(keys, (n - 1) as nat, k);
        assert(all[k] == rest[k]);
    } else {
        assert(all[k] == n - 1);
        assert forall|p: int| 0 <= p < n - 1 implies #[trigger] keys[p] != keys[n - 1] by {
            assert(keys.take(n - 1)[p] == keys[p]);
        }
        if k > 0 {
            assert(all[k - 1] == rest[k - 1]);
        }
    }
}

/// The uses of a scene stand in the order of its meshes, each mesh's behind those
/// of the meshes before, and each as often as it is made.
pub proof fn law_uses_stand_in_order(meshes: Seq<MeshData>, n: nat)
    ensures
        uses_of(meshes, 0).len() == 0,
        uses_of(meshes, n + 1).take(uses_of(meshes, n).len() as int) == uses_of(meshes, n),
        ({
            let m = meshes[n as int].material;
            uses_of(meshes, n + 1).len() == uses_of(meshes, n).len() + (
            if m.base_color_texture is Some {
                1int
            } else {
                0
            }) + (if m.normal_texture is Some {
                1int
            } else {
                0
            }) + (if m.metallic_roughness_texture is Some {
                1int
            } else {
                0
            })
        }),
{
    let less = uses_of(meshes, n);
    assert(uses_of(meshes, n + 1).take(less.len() as int) =~= less);
}

} // verus!
