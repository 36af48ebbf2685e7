//! Scenes: which meshes a glTF document uses, and where each is placed.
//!
//! A mesh primitive that many nodes use is stored once and placed many times.
//! Transforms are not multiplied here: each placement names the visit to a node
//! that it comes from, and each visit the one it was reached from.
use vstd::prelude::*;
use vstd::string::*;

use crate::json;
use crate::prefab;
use crate::prefab::{PrefabError, PrefabSpec};
use crate::text;

verus! {

/// One primitive of a mesh, as far as placing it goes.
#[derive(Clone, Copy, PartialEq, Eq, Debug, Structural)]
pub struct Primitive {
    /// Made of separate triangles.
    pub triangles: bool,
    /// Has positions, without which there is nothing to draw.
    pub positions: bool,
}

/// A node of the hierarchy.
pub struct Node {
    pub name: Option<String>,
    pub children: Vec<usize>,
    pub mesh: Option<usize>,
    /// The text of its extras.
    pub extras: Option<String>,
}

/// A document, as far as placing meshes goes.
pub struct Document {
    pub nodes: Vec<Node>,
    pub meshes: Vec<Vec<Primitive>>,
    /// The roots of each scene.
    pub scenes: Vec<Vec<usize>>,
    pub default_scene: Option<usize>,
}

pub open spec fn all_below(s: Seq<usize>, n: nat) -> bool {
    forall|i: int| 0 <= i < s.len() ==> #[trigger] s[i] < n
}

fn are_below(s: &Vec<usize>, n: usize) -> (r: bool)
    ensures
        r == all_below(s@, n as nat),
{
    for i in 0..s.len()
        invariant
            forall|j: int| 0 <= j < i ==> #[trigger] s@[j] < n,
    {
        if s[i] >= n {
            assert(!(s@[i as int] < n));
            return false;
        }
    }
    true
}

impl Document {
    /// Every reference names something that is there.
    pub open spec fn linked(&self) -> bool {
        &&& forall|i: int|
            0 <= i < self.nodes@.len() ==> {
                &&& all_below((#[trigger] self.nodes@[i]).children@, self.nodes@.len())
                &&& match self.nodes@[i].mesh {
                    Some(m) => m < self.meshes@.len(),
                    None => true,
                }
            }
        &&& forall|i: int|
            0 <= i < self.scenes@.len() ==> all_below(
                (#[trigger] self.scenes@[i])@,
                self.nodes@.len(),
            )
        &&& match self.default_scene {
            Some(s) => s < self.scenes@.len(),
            None => true,
        }
    }

    /// Whether every reference names something that is there.
    pub fn is_linked(&self) -> (r: bool)
        ensures
            r == self.linked(),
    {
        let n: usize = self.nodes.len();
        for i in 0..n
            invariant
                n == self.nodes@.len(),
                forall|j: int|
                    0 <= j < i ==> {
                        &&& all_below((#[trigger] self.nodes@[j]).children@, n as nat)
                        &&& match self.nodes@[j].mesh {
                            Some(m) => m < self.meshes@.len(),
                            None => true,
                        }
                    },
        {
            let mesh_ok: bool = match self.nodes[i].mesh {
                Some(m) => m < self.meshes.len(),
                None => true,
            };
            if !mesh_ok || !are_below(&self.nodes[i].children, n) {
                return false;
            }
        }
        for i in 0..self.scenes.len()
            invariant
                n == self.nodes@.len(),
                forall|j: int| 0 <= j < i ==> all_below((#[trigger] self.scenes@[j])@, n as nat),
        {
            if !are_below(&self.scenes[i], n) {
                return false;
            }
        }
        match self.default_scene {
            Some(s) => s < self.scenes.len(),
            None => true,
        }
    }

    /// Children rank below their parents, so no node is its own ancestor.
    pub open spec fn ranked(&self, rank: spec_fn(int) -> nat) -> bool {
        forall|n: int, k: int|
            0 <= n < self.nodes@.len() && 0 <= k < self.nodes@[n].children@.len() ==> rank(
                #[trigger] self.nodes@[n].children@[k] as int,
            ) < rank(n)
    }
}

/// A visit to a node, and the visit to its parent.
#[derive(Clone, Copy, PartialEq, Eq, Debug, Structural)]
pub struct Visit {
    pub node: usize,
    pub parent: Option<usize>,
}

/// One placement in a scene.
pub struct SceneNode {
    /// The place in the list of meshes; none for a marker, which only places a
    /// prefab.
    pub mesh: Option<usize>,
    /// The visit whose transform it has; none at the origin.
    pub visit: Option<usize>,
    pub prefab: Option<PrefabSpec>,
}

/// A scene taken apart.
pub struct SceneData {
    /// The (mesh, primitive) pairs that are used, each once.
    pub meshes: Vec<(usize, usize)>,
    pub nodes: Vec<SceneNode>,
    pub visits: Vec<Visit>,
}

#[verifier::ext_equal]
pub struct PlacementModel {
    pub mesh: Option<usize>,
    pub visit: Option<usize>,
    pub prefab: Option<prefab::PrefabModel>,
}

#[verifier::ext_equal]
pub struct SceneModel {
    pub meshes: Seq<(usize, usize)>,
    pub nodes: Seq<PlacementModel>,
    pub visits: Seq<Visit>,
}

impl View for SceneNode {
    type V = PlacementModel;

    open spec fn view(&self) -> PlacementModel {
        PlacementModel {
            mesh: self.mesh,
            visit: self.visit,
            prefab: prefab::prefab_view(self.prefab),
        }
    }
}

impl View for SceneData {
    type V = SceneModel;

    open spec fn view(&self) -> SceneModel {
        SceneModel {
            meshes: self.meshes@,
            nodes: Seq::new(self.nodes@.len(), |i: int| self.nodes@[i]@),
            visits: self.visits@,
        }
    }
}

pub open spec fn empty_scene() -> SceneModel {
    SceneModel { meshes: Seq::empty(), nodes: Seq::empty(), visits: Seq::empty() }
}

/// The place of a primitive in the list; its length when it is not there.
pub open spec fn mesh_place(s: Seq<(usize, usize)>, key: (usize, usize)) -> nat
    decreases s.len(),
{
    if s.len() == 0 || s[0] == key {
        0
    } else {
        1 + mesh_place(s.skip(1), key)
    }
}

/// A scene with the first `n` primitives of mesh `m` placed: each is added to
/// the list where it is missing, and those without triangles or positions are
/// passed over.
pub open spec fn with_primitives(
    prims: Seq<Primitive>,
    m: usize,
    n: int,
    visit: Option<usize>,
    prefab: Option<prefab::PrefabModel>,
    s: SceneModel,
) -> SceneModel
    decreases n,
{
    if n <= 0 {
        s
    } else {
        let b = with_primitives(prims, m, n - 1, visit, prefab, s);
        let key = (m, (n - 1) as usize);
        let slot = mesh_place(b.meshes, key);
        if !prims[n - 1].triangles {
            b
        } else if slot < b.meshes.len() {
            SceneModel {
                nodes: b.nodes.push(PlacementModel { mesh: Some(slot as usize), visit, prefab }),
                ..b
            }
        } else if !prims[n - 1].positions {
            b
        } else {
            SceneModel {
                meshes: b.meshes.push(key),
                nodes: b.nodes.push(PlacementModel { mesh: Some(slot as usize), visit, prefab }),
                visits: b.visits,
            }
        }
    }
}

/// A scene with a node visited, down to some depth: the node first, then its
/// children in order.
pub open spec fn with_node(
    doc: Document,
    prefabs: Seq<Option<prefab::PrefabModel>>,
    node: usize,
    parent: Option<usize>,
    depth: nat,
    s: SceneModel,
) -> SceneModel
    decreases depth, 0nat,
{
    if depth == 0 {
        s
    } else {
        let v = s.visits.len() as usize;
        let there = SceneModel { visits: s.visits.push(Visit { node, parent }), ..s };
        let n = doc.nodes@[node as int];
        let prefab = prefabs[node as int];
        let placed = match n.mesh {
            Some(m) => with_primitives(
                doc.meshes@[m as int]@,
                m,
                doc.meshes@[m as int]@.len() as int,
                Some(v),
                prefab,
                there,
            ),
            None => if prefab is Some {
                SceneModel {
                    nodes: there.nodes.push(
                        PlacementModel { mesh: None, visit: Some(v), prefab },
                    ),
                    ..there
                }
            } else {
                there
            },
        };
        with_nodes(
            doc,
            prefabs,
            n.children@,
            n.children@.len(),
            Some(v),
            (depth - 1) as nat,
            placed,
        )
    }
}

/// A scene with the first `n` of some nodes visited.
pub open spec fn with_nodes(
    doc: Document,
    prefabs: Seq<Option<prefab::PrefabModel>>,
    list: Seq<usize>,
    n: nat,
    parent: Option<usize>,
    depth: nat,
    s: SceneModel,
) -> SceneModel
    decreases depth, n + 1,
{
    if n == 0 {
        s
    } else {
        with_node(
            doc,
            prefabs,
            list[n - 1],
            parent,
            depth,
            with_nodes(doc, prefabs, list, (n - 1) as nat, parent, depth, s),
        )
    }
}

/// A scene with the first `n` meshes of a document placed at the origin.
pub open spec fn with_meshes(doc: Document, n: nat) -> SceneModel
    decreases n,
{
    if n == 0 {
        empty_scene()
    } else {
        let m = (n - 1) as usize;
        with_primitives(
            doc.meshes@[m as int]@,
            m,
            doc.meshes@[m as int]@.len() as int,
            None,
            None,
            with_meshes(doc, (n - 1) as nat),
        )
    }
}

/// The scene of a document, given the prefab of each node: the default scene,
/// else the first, else every mesh at the origin.
pub open spec fn scene_of(
    doc: Document,
    prefabs: Seq<Option<prefab::PrefabModel>>,
) -> SceneModel {
    let roots = match doc.default_scene {
        Some(i) => Some(doc.scenes@[i as int]@),
        None => if doc.scenes@.len() > 0 {
            Some(doc.scenes@[0]@)
        } else {
            None
        },
    };
    match roots {
        Some(r) => with_nodes(doc, prefabs, r, r.len(), None, doc.nodes@.len(), empty_scene()),
        None => with_meshes(doc, doc.meshes@.len()),
    }
}

proof fn lemma_mesh_place(s: Seq<(usize, usize)>, key: (usize, usize), n: nat)
    requires
        n <= s.len(),
        forall|i: int| 0 <= i < n ==> #[trigger] s[i] != key,
        n < s.len() ==> s[n as int] == key,
    ensures
        mesh_place(s, key) == n,
    decreases n,
{
    if n > 0 {
        let r = s.skip(1);
        assert(s[0] != key);
        assert forall|i: int| 0 <= i < n - 1 implies #[trigger] r[i] != key by {
            assert(r[i] == s[i + 1]);
        }
        lemma_mesh_place(r, key, (n - 1) as nat);
    }
}

proof fn lemma_mesh_place_bound(s: Seq<(usize, usize)>, key: (usize, usize))
    ensures
        mesh_place(s, key) <= s.len(),
        forall|i: int| 0 <= i < mesh_place(s, key) ==> #[trigger] s[i] != key,
        mesh_place(s, key) < s.len() ==> s[mesh_place(s, key) as int] == key,
    decreases s.len(),
{
    if s.len() > 0 && s[0] != key {
        let r = s.skip(1);
        lemma_mesh_place_bound(r, key);
        assert forall|i: int| 0 <= i < mesh_place(s, key) implies #[trigger] s[i] != key by {
            if i > 0 {
                assert(r[i - 1] == s[i]);
            }
        }
        if mesh_place(s, key) < s.len() {
            assert(r[mesh_place(r, key) as int] == s[mesh_place(s, key) as int]);
        }
    }
}

fn find_mesh(s: &Vec<(usize, usize)>, key: (usize, usize)) -> (r: usize)
    ensures
        r == mesh_place(s@, key),
        r <= s@.len(),
{
    let mut i: usize = 0;
    while i < s.len()
        invariant
            i <= s.len(),
            forall|j: int| 0 <= j < i ==> #[trigger] s@[j] != key,
        decreases s.len() - i,
    {
        if s[i].0 == key.0 && s[i].1 == key.1 {
            proof {
                lemma_mesh_place(s@, key, i as nat);
            }
            return i;
        }
        i += 1;
    }
    proof {
        lemma_mesh_place(s@, key, i as nat);
    }
    i
}

fn copy_prefab(p: &Option<PrefabSpec>) -> (r: Option<PrefabSpec>)
    ensures
        prefab::prefab_view(r) == prefab::prefab_view(*p),
{
    match p {
        Some(p) => Some(p.copy()),
        None => None,
    }
}

/// Places the triangle primitives of a mesh, adding each to the list of meshes
/// the first time it is used. Every primitive of a node has its prefab.
pub fn add_mesh_nodes(
    prims: &Vec<Primitive>,
    m: usize,
    visit: Option<usize>,
    prefab: &Option<PrefabSpec>,
    out: &mut SceneData,
)
    ensures
        final(out)@ == with_primitives(
            prims@,
            m,
            prims@.len() as int,
            visit,
            prefab::prefab_view(*prefab),
            old(out)@,
        ),
{
    let ghost start = out@;
    let ghost pv = prefab::prefab_view(*prefab);
    let mut i: usize = 0;
    while i < prims.len()
        invariant
            i <= prims.len(),
            pv == prefab::prefab_view(*prefab),
            out@ == with_primitives(prims@, m, i as int, visit, pv, start),
        decreases prims.len() - i,
    {
        let ghost before = out@;
        let p: Primitive = prims[i];
        if p.triangles {
            let slot: usize = find_mesh(&out.meshes, (m, i));
            let there: bool = slot < out.meshes.len();
            if there || p.positions {
                if !there {
                    out.meshes.push((m, i));
                }
                let node: SceneNode = SceneNode {
                    mesh: Some(slot),
                    visit,
                    prefab: copy_prefab(prefab),
                };
                let ghost nv = node@;
                out.nodes.push(node);
                assert(out@.nodes =~= before.nodes.push(nv));
            }
        }
        assert(out@ =~= with_primitives(prims@, m, i + 1, visit, pv, start));
        i += 1;
    }
}

/// Whether each node's prefab stands in the list.
pub open spec fn prefab_views(s: Seq<Option<PrefabSpec>>) -> Seq<Option<prefab::PrefabModel>> {
    Seq::new(s.len(), |i: int| prefab::prefab_view(s[i]))
}

/// Visits a node and what is below it, down to some depth.
pub fn walk_node(
    doc: &Document,
    prefabs: &Vec<Option<PrefabSpec>>,
    node: usize,
    parent: Option<usize>,
    depth: usize,
    out: &mut SceneData,
)
    requires
        doc.linked(),
        prefabs@.len() == doc.nodes@.len(),
        node < doc.nodes@.len(),
    ensures
        final(out)@ == with_node(
            *doc,
            prefab_views(prefabs@),
            node,
            parent,
            depth as nat,
            old(out)@,
        ),
    decreases depth, 0nat,
{
    if depth == 0 {
        return ;
    }
    let ghost start = out@;
    let v: usize = out.visits.len();
    out.visits.push(Visit { node, parent });
    assert(out@.nodes =~= start.nodes);
    let n: &Node = &doc.nodes[node];
    assert(doc.nodes@[node as int] == *n);
    match n.mesh {
        Some(m) => add_mesh_nodes(&doc.meshes[m], m, Some(v), &prefabs[node], out),
        None => if prefabs[node].is_some() {
            let ghost before = out@;
            let marker: SceneNode = SceneNode {
                mesh: None,
                visit: Some(v),
                prefab: copy_prefab(&prefabs[node]),
            };
            let ghost mv = marker@;
            out.nodes.push(marker);
            assert(out@.nodes =~= before.nodes.push(mv));
        },
    }
    walk_nodes(doc, prefabs, &n.children, Some(v), depth - 1, out);
}

/// Visits some nodes, one after the other.
pub fn walk_nodes(
    doc: &Document,
    prefabs: &Vec<Option<PrefabSpec>>,
    list: &Vec<usize>,
    parent: Option<usize>,
    depth: usize,
    out: &mut SceneData,
)
    requires
        doc.linked(),
        prefabs@.len() == doc.nodes@.len(),
        all_below(list@, doc.nodes@.len()),
    ensures
        final(out)@ == with_nodes(
            *doc,
            prefab_views(prefabs@),
            list@,
            list@.len(),
            parent,
            depth as nat,
            old(out)@,
        ),
    decreases depth, 1nat,
{
    let ghost start = out@;
    let mut i: usize = 0;
    while i < list.len()
        invariant
            i <= list.len(),
            doc.linked(),
            prefabs@.len() == doc.nodes@.len(),
            all_below(list@, doc.nodes@.len()),
            out@ == with_nodes(
                *doc,
                prefab_views(prefabs@),
                list@,
                i as nat,
                parent,
                depth as nat,
                start,
            ),
        decreases list.len() - i,
    {
        walk_node(doc, prefabs, list[i], parent, depth, out);
        i += 1;
    }
}

/// Why a document gives no scene.
#[derive(Clone, Copy, PartialEq, Eq, Debug, Structural)]
pub enum SceneError {
    /// Nothing in it can be placed.
    NoGeometry,
}

impl SceneError {
    /// The reason in words.
    pub fn why(self) -> (r: &'static str)
        ensures
            r@ == "glTF contained no triangle mesh geometry"@,
    {
        "glTF contained no triangle mesh geometry"
    }
}

/// What a document places, given the prefab of each node; it may be nothing.
pub fn place_scene(doc: &Document, prefabs: &Vec<Option<PrefabSpec>>) -> (r: SceneData)
    requires
        doc.linked(),
        prefabs@.len() == doc.nodes@.len(),
    ensures
        r@ == scene_of(*doc, prefab_views(prefabs@)),
{
    let mut out: SceneData = SceneData {
        meshes: Vec::new(),
        nodes: Vec::new(),
        visits: Vec::new(),
    };
    assert(out@ =~= empty_scene());
    let first: Option<usize> = match doc.default_scene {
        Some(i) => Some(i),
        None => if doc.scenes.len() > 0 {
            Some(0)
        } else {
            None
        },
    };
    match first {
        Some(i) => walk_nodes(doc, prefabs, &doc.scenes[i], None, doc.nodes.len(), &mut out),
        None => {
            let none: Option<PrefabSpec> = None;
            let mut m: usize = 0;
            while m < doc.meshes.len()
                invariant
                    m <= doc.meshes.len(),
                    none is None,
                    out@ == with_meshes(*doc, m as nat),
                decreases doc.meshes.len() - m,
            {
                add_mesh_nodes(&doc.meshes[m], m, None, &none, &mut out);
                m += 1;
            }
        },
    }
    out
}

/// A scene, unless nothing is placed in it.
pub fn with_geometry(s: SceneData) -> (r: Result<SceneData, SceneError>)
    ensures
        match r {
            Ok(t) => t == s && s@.nodes.len() > 0,
            Err(_) => s@.nodes.len() == 0,
        },
{
    if s.nodes.len() == 0 {
        Err(SceneError::NoGeometry)
    } else {
        Ok(s)
    }
}

/// The prefab of a node, given what its extras read as; what cannot be
/// understood is dropped.
pub open spec fn node_prefab(n: Node) -> Option<prefab::PrefabModel> {
    match n.extras {
        Some(t) => match prefab::prefab_read(json::json_of_text(t@)) {
            Ok(p) => p,
            Err(_) => None,
        },
        None => None,
    }
}

pub open spec fn node_prefabs(doc: Document) -> Seq<Option<prefab::PrefabModel>> {
    Seq::new(doc.nodes@.len(), |i: int| node_prefab(doc.nodes@[i]))
}

/// The complaint about the extras of a node, if there is one.
pub open spec fn node_complaint(n: Node) -> Option<PrefabError> {
    match n.extras {
        Some(t) => match prefab::prefab_read(json::json_of_text(t@)) {
            Ok(_) => None,
            Err(e) => Some(e),
        },
        None => None,
    }
}

/// The prefab of each node, and the complaint about each node's extras.
pub fn read_prefabs(doc: &Document) -> (r: (Vec<Option<PrefabSpec>>, Vec<Option<PrefabError>>))
    ensures
        prefab_views(r.0@) == node_prefabs(*doc),
        r.0@.len() == doc.nodes@.len(),
        r.1@.len() == doc.nodes@.len(),
        forall|i: int|
            0 <= i < doc.nodes@.len() ==> #[trigger] r.1@[i] == node_complaint(doc.nodes@[i]),
{
    let mut prefabs: Vec<Option<PrefabSpec>> = Vec::new();
    let mut complaints: Vec<Option<PrefabError>> = Vec::new();
    let mut i: usize = 0;
    while i < doc.nodes.len()
        invariant
            i <= doc.nodes.len(),
            prefabs@.len() == i,
            complaints@.len() == i,
            forall|j: int|
                0 <= j < i ==> prefab::prefab_view(#[trigger] prefabs@[j]) == node_prefab(
                    doc.nodes@[j],
                ),
            forall|j: int|
                0 <= j < i ==> #[trigger] complaints@[j] == node_complaint(doc.nodes@[j]),
        decreases doc.nodes.len() - i,
    {
        let extras: Option<&str> = match &doc.nodes[i].extras {
            Some(t) => Some(t.as_str()),
            None => None,
        };
        match prefab::read_prefab(extras) {
            Ok(p) => {
                prefabs.push(p);
                complaints.push(None);
            },
            Err(e) => {
                prefabs.push(None);
                complaints.push(Some(e));
            },
        }
        i += 1;
    }
    assert(prefab_views(prefabs@) =~= node_prefabs(*doc));
    (prefabs, complaints)
}

/// The scene of a document: every primitive that is used becomes a mesh, and
/// every node that uses one a placement of it. A node with a prefab and no mesh
/// becomes a marker.
pub fn load_gltf_scene(doc: &Document) -> (r: Result<SceneData, SceneError>)
    requires
        doc.linked(),
    ensures
        match r {
            Ok(s) => s@ == scene_of(*doc, node_prefabs(*doc)) && s@.nodes.len() > 0,
            Err(_) => scene_of(*doc, node_prefabs(*doc)).nodes.len() == 0,
        },
{
    let (prefabs, _complaints) = read_prefabs(doc);
    with_geometry(place_scene(doc, &prefabs))
}

/// The label of a node in messages.
pub fn node_label(name: Option<&str>, index: usize) -> (r: String)
    ensures
        r@ == match name {
            Some(n) => n@ + " (#"@ + text::decimal(index as nat) + ")"@,
            None => "#"@ + text::decimal(index as nat),
        },
{
    match name {
        Some(n) => {
            let mut r: String = String::from_str(n);
            r.append(" (#");
            text::push_decimal(&mut r, index as u64);
            r.append(")");
            r
        },
        None => {
            let mut r: String = String::from_str("#");
            text::push_decimal(&mut r, index as u64);
            r
        },
    }
}

/// A primitive that can be drawn.
pub open spec fn drawable(doc: Document, key: (usize, usize)) -> bool {
    &&& key.0 < doc.meshes@.len()
    &&& key.1 < doc.meshes@[key.0 as int]@.len()
    &&& doc.meshes@[key.0 as int]@[key.1 as int].triangles
    &&& doc.meshes@[key.0 as int]@[key.1 as int].positions
}

/// What holds of every scene: no primitive is stored twice, all can be drawn,
/// placements name meshes and visits that are there, what has no mesh has a
/// prefab, and parents are visited before their children.
pub open spec fn scene_ok(doc: Document, s: SceneModel) -> bool {
    &&& s.meshes.no_duplicates()
    &&& forall|i: int| 0 <= i < s.meshes.len() ==> drawable(doc, #[trigger] s.meshes[i])
    &&& forall|i: int|
        0 <= i < s.nodes.len() ==> placement_ok(
            #[trigger] s.nodes[i],
            s.meshes.len(),
            s.visits.len(),
        )
    &&& forall|i: int| 0 <= i < s.visits.len() ==> visit_ok(doc, #[trigger] s.visits[i], i)
}

pub open spec fn placement_ok(p: PlacementModel, meshes: nat, visits: nat) -> bool {
    &&& match p.mesh {
        Some(m) => m < meshes,
        None => p.prefab is Some,
    }
    &&& match p.visit {
        Some(v) => v < visits,
        None => true,
    }
}

pub open spec fn visit_ok(doc: Document, v: Visit, i: int) -> bool {
    &&& v.node < doc.nodes@.len()
    &&& match v.parent {
        Some(p) => p < i,
        None => true,
    }
}

proof fn lemma_primitives_ok(
    doc: Document,
    m: usize,
    n: int,
    visit: Option<usize>,
    prefab: Option<prefab::PrefabModel>,
    s: SceneModel,
)
    requires
        m < doc.meshes@.len(),
        0 <= n <= doc.meshes@[m as int]@.len(),
        match visit {
            Some(v) => v < s.visits.len(),
            None => true,
        },
    ensures
        ({
            let r = with_primitives(doc.meshes@[m as int]@, m, n, visit, prefab, s);
            &&& r.visits == s.visits
            &&& s.meshes.len() <= r.meshes.len()
            &&& s.nodes.len() <= r.nodes.len()
            &&& scene_ok(doc, s) && r.meshes.len() <= usize::MAX ==> scene_ok(doc, r)
        }),
    decreases n,
{
    if n > 0 {
        let prims = doc.meshes@[m as int]@;
        lemma_primitives_ok(doc, m, n - 1, visit, prefab, s);
        let b = with_primitives(prims, m, n - 1, visit, prefab, s);
        let r = with_primitives(prims, m, n, visit, prefab, s);
        let key = (m, (n - 1) as usize);
        lemma_mesh_place_bound(b.meshes, key);
        assert(prims.len() <= usize::MAX) by {
            assert(doc.meshes@[m as int].len() == prims.len());
        }
        if scene_ok(doc, s) && r.meshes.len() <= usize::MAX {
            assert forall|i: int| 0 <= i < r.nodes.len() implies placement_ok(
                #[trigger] r.nodes[i],
                r.meshes.len(),
                r.visits.len(),
            ) by {
                if i < b.nodes.len() {
                    assert(placement_ok(b.nodes[i], b.meshes.len(), b.visits.len()));
                    assert(r.nodes[i] == b.nodes[i]);
                }
            }
            assert forall|i: int| 0 <= i < r.meshes.len() implies drawable(
                doc,
                #[trigger] r.meshes[i],
            ) by {
                if i < b.meshes.len() {
                    assert(drawable(doc, b.meshes[i]));
                }
            }
            assert forall|i: int, j: int|
                0 <= i < r.meshes.len() && 0 <= j < r.meshes.len() && i != j implies r.meshes[i]
                != r.meshes[j] by {
                if i < b.meshes.len() && j < b.meshes.len() {
                    assert(b.meshes[i] != b.meshes[j]);
                }
            }
        }
    }
}

proof fn lemma_node_ok(
    doc: Document,
    prefabs: Seq<Option<prefab::PrefabModel>>,
    node: usize,
    parent: Option<usize>,
    depth: nat,
    s: SceneModel,
)
    requires
        doc.linked(),
        node < doc.nodes@.len(),
        match parent {
            Some(p) => p < s.visits.len(),
            None => true,
        },
    ensures
        ({
            let r = with_node(doc, prefabs, node, parent, depth, s);
            &&& s.visits.len() <= r.visits.len()
            &&& s.meshes.len() <= r.meshes.len()
            &&& scene_ok(doc, s) && r.meshes.len() <= usize::MAX && r.visits.len() <= usize::MAX
                ==> scene_ok(doc, r)
        }),
    decreases depth, 0nat,
{
    if depth > 0 {
        let v = s.visits.len() as usize;
        let there = SceneModel { visits: s.visits.push(Visit { node, parent }), ..s };
        let n = doc.nodes@[node as int];
        let pre = prefabs[node as int];
        let r = with_node(doc, prefabs, node, parent, depth, s);
        let fits = s.visits.len() < usize::MAX;
        if scene_ok(doc, s) {
            assert forall|i: int| 0 <= i < there.nodes.len() implies placement_ok(
                #[trigger] there.nodes[i],
                there.meshes.len(),
                there.visits.len(),
            ) by {
                assert(placement_ok(s.nodes[i], s.meshes.len(), s.visits.len()));
            }
            assert forall|i: int| 0 <= i < there.visits.len() implies visit_ok(
                doc,
                #[trigger] there.visits[i],
                i,
            ) by {
                if i < s.visits.len() {
                    assert(visit_ok(doc, s.visits[i], i));
                }
            }
            assert(scene_ok(doc, there));
        }
        let placed = match n.mesh {
            Some(m) => with_primitives(
                doc.meshes@[m as int]@,
                m,
                doc.meshes@[m as int]@.len() as int,
                Some(v),
                pre,
                there,
            ),
            None => if pre is Some {
                SceneModel {
                    nodes: there.nodes.push(
                        PlacementModel { mesh: None, visit: Some(v), prefab: pre },
                    ),
                    ..there
                }
            } else {
                there
            },
        };
        let kids = n.children@;
        assert(all_below(kids, doc.nodes@.len()));
        if fits {
            match n.mesh {
                Some(m) => {
                    lemma_primitives_ok(
                        doc,
                        m,
                        doc.meshes@[m as int]@.len() as int,
                        Some(v),
                        pre,
                        there,
                    );
                },
                None => {
                    if scene_ok(doc, there) {
                        assert forall|i: int| 0 <= i < placed.nodes.len() implies placement_ok(
                            #[trigger] placed.nodes[i],
                            placed.meshes.len(),
                            placed.visits.len(),
                        ) by {
                            if i < there.nodes.len() {
                                assert(placement_ok(
                                    there.nodes[i],
                                    there.meshes.len(),
                                    there.visits.len(),
                                ));
                            }
                        }
                    }
                },
            }
            lemma_nodes_ok(
                doc,
                prefabs,
                kids,
                kids.len(),
                Some(v),
                (depth - 1) as nat,
                placed,
            );
        } else {
            lemma_primitives_grow(doc, n.mesh, Some(v), pre, there);
            lemma_nodes_grow(doc, prefabs, kids, kids.len(), Some(v), (depth - 1) as nat, placed);
        }
    }
}

proof fn lemma_nodes_ok(
    doc: Document,
    prefabs: Seq<Option<prefab::PrefabModel>>,
    list: Seq<usize>,
    n: nat,
    parent: Option<usize>,
    depth: nat,
    s: SceneModel,
)
    requires
        doc.linked(),
        n <= list.len(),
        all_below(list, doc.nodes@.len()),
        match parent {
            Some(p) => p < s.visits.len(),
            None => true,
        },
    ensures
        ({
            let r = with_nodes(doc, prefabs, list, n, parent, depth, s);
            &&& s.visits.len() <= r.visits.len()
            &&& s.meshes.len() <= r.meshes.len()
            &&& scene_ok(doc, s) && r.meshes.len() <= usize::MAX && r.visits.len() <= usize::MAX
                ==> scene_ok(doc, r)
        }),
    decreases depth, n + 1,
{
    if n > 0 {
        lemma_nodes_ok(doc, prefabs, list, (n - 1) as nat, parent, depth, s);
        let b = with_nodes(doc, prefabs, list, (n - 1) as nat, parent, depth, s);
        assert(list[n - 1] < doc.nodes@.len());
        lemma_node_ok(doc, prefabs, list[n - 1], parent, depth, b);
    }
}

proof fn lemma_primitives_grow(
    doc: Document,
    mesh: Option<usize>,
    visit: Option<usize>,
    prefab: Option<prefab::PrefabModel>,
    s: SceneModel,
)
    ensures
        mesh matches Some(m) ==> {
            let prims = doc.meshes@[m as int]@;
            let r = with_primitives(prims, m, prims.len() as int, visit, prefab, s);
            r.visits == s.visits && s.meshes.len() <= r.meshes.len()
        },
{
    match mesh {
        Some(m) => {
            let prims = doc.meshes@[m as int]@;
            lemma_first_primitives_grow(prims, m, prims.len() as int, visit, prefab, s);
        },
        None => {},
    }
}

proof fn lemma_first_primitives_grow(
    prims: Seq<Primitive>,
    m: usize,
    n: int,
    visit: Option<usize>,
    prefab: Option<prefab::PrefabModel>,
    s: SceneModel,
)
    ensures
        ({
            let r = with_primitives(prims, m, n, visit, prefab, s);
            r.visits == s.visits && s.meshes.len() <= r.meshes.len()
        }),
    decreases n,
{
    if n > 0 {
        lemma_first_primitives_grow(prims, m, n - 1, visit, prefab, s);
    }
}

proof fn lemma_node_grows(
    doc: Document,
    prefabs: Seq<Option<prefab::PrefabModel>>,
    node: usize,
    parent: Option<usize>,
    depth: nat,
    s: SceneModel,
)
    ensures
        ({
            let r = with_node(doc, prefabs, node, parent, depth, s);
            s.visits.len() <= r.visits.len() && s.meshes.len() <= r.meshes.len()
        }),
    decreases depth, 0nat,
{
    if depth > 0 {
        let v = s.visits.len() as usize;
        let there = SceneModel { visits: s.visits.push(Visit { node, parent }), ..s };
        let n = doc.nodes@[node as int];
        let pre = prefabs[node as int];
        lemma_primitives_grow(doc, n.mesh, Some(v), pre, there);
        let placed = match n.mesh {
            Some(m) => with_primitives(
                doc.meshes@[m as int]@,
                m,
                doc.meshes@[m as int]@.len() as int,
                Some(v),
                pre,
                there,
            ),
            None => if pre is Some {
                SceneModel {
                    nodes: there.nodes.push(
                        PlacementModel { mesh: None, visit: Some(v), prefab: pre },
                    ),
                    ..there
                }
            } else {
                there
            },
        };
        lemma_nodes_grow(
            doc,
            prefabs,
            n.children@,
            n.children@.len(),
            Some(v),
            (depth - 1) as nat,
            placed,
        );
    }
}

proof fn lemma_nodes_grow(
    doc: Document,
    prefabs: Seq<Option<prefab::PrefabModel>>,
    list: Seq<usize>,
    n: nat,
    parent: Option<usize>,
    depth: nat,
    s: SceneModel,
)
    ensures
        ({
            let r = with_nodes(doc, prefabs, list, n, parent, depth, s);
            s.visits.len() <= r.visits.len() && s.meshes.len() <= r.meshes.len()
        }),
    decreases depth, n + 1,
{
    if n > 0 {
        lemma_nodes_grow(doc, prefabs, list, (n - 1) as nat, parent, depth, s);
        let b = with_nodes(doc, prefabs, list, (n - 1) as nat, parent, depth, s);
        lemma_node_grows(doc, prefabs, list[n - 1], parent, depth, b);
    }
}

proof fn lemma_meshes_ok(doc: Document, n: nat)
    requires
        n <= doc.meshes@.len(),
    ensures
        with_meshes(doc, n).visits.len() == 0,
        with_meshes(doc, n).meshes.len() <= usize::MAX ==> scene_ok(doc, with_meshes(doc, n)),
    decreases n,
{
    if n > 0 {
        lemma_meshes_ok(doc, (n - 1) as nat);
        let m = (n - 1) as usize;
        assert(doc.meshes@.len() <= usize::MAX) by {
            assert(doc.meshes.len() == doc.meshes@.len());
        }
        let prims = doc.meshes@[m as int]@;
        lemma_primitives_ok(
            doc,
            m,
            prims.len() as int,
            None,
            None,
            with_meshes(doc, (n - 1) as nat),
        );
    }
}

/// A scene that fits in memory holds each primitive that it uses once, can draw
/// all of them, places only what is there, marks only prefabs, and visits
/// parents before their children.
pub proof fn law_scenes_are_consistent(
    doc: Document,
    prefabs: Seq<Option<prefab::PrefabModel>>,
)
    requires
        doc.linked(),
        scene_of(doc, prefabs).meshes.len() <= usize::MAX,
        scene_of(doc, prefabs).visits.len() <= usize::MAX,
    ensures
        scene_ok(doc, scene_of(doc, prefabs)),
{
    assert(scene_ok(doc, empty_scene()));
    match doc.default_scene {
        Some(i) => {
            let r = doc.scenes@[i as int]@;
            lemma_nodes_ok(doc, prefabs, r, r.len(), None, doc.nodes@.len(), empty_scene());
        },
        None => {
            if doc.scenes@.len() > 0 {
                let r = doc.scenes@[0]@;
                lemma_nodes_ok(doc, prefabs, r, r.len(), None, doc.nodes@.len(), empty_scene());
            } else {
                lemma_meshes_ok(doc, doc.meshes@.len());
            }
        },
    }
}

/// How deep a walk may go does not matter, as long as the hierarchy is not
/// deeper.
pub proof fn law_depth_does_not_matter(
    doc: Document,
    prefabs: Seq<Option<prefab::PrefabModel>>,
    rank: spec_fn(int) -> nat,
    node: usize,
    parent: Option<usize>,
    a: nat,
    b: nat,
    s: SceneModel,
)
    requires
        doc.linked(),
        doc.ranked(rank),
        node < doc.nodes@.len(),
        rank(node as int) < a,
        rank(node as int) < b,
    ensures
        with_node(doc, prefabs, node, parent, a, s) == with_node(doc, prefabs, node, parent, b, s),
    decreases a, 0nat,
{
    let v = s.visits.len() as usize;
    let there = SceneModel { visits: s.visits.push(Visit { node, parent }), ..s };
    let n = doc.nodes@[node as int];
    let pre = prefabs[node as int];
    let placed = match n.mesh {
        Some(m) => with_primitives(
            doc.meshes@[m as int]@,
            m,
            doc.meshes@[m as int]@.len() as int,
            Some(v),
            pre,
            there,
        ),
        None => if pre is Some {
            SceneModel {
                nodes: there.nodes.push(PlacementModel { mesh: None, visit: Some(v), prefab: pre }),
                ..there
            }
        } else {
            there
        },
    };
    let kids = n.children@;
    assert forall|k: int| 0 <= k < kids.len() implies rank(#[trigger] kids[k] as int) < a - 1
        && rank(kids[k] as int) < b - 1 by {
        assert(rank(doc.nodes@[node as int].children@[k] as int) < rank(node as int));
    }
    lemma_depths(
        doc,
        prefabs,
        rank,
        kids,
        kids.len(),
        Some(v),
        (a - 1) as nat,
        (b - 1) as nat,
        placed,
    );
}

proof fn lemma_depths(
    doc: Document,
    prefabs: Seq<Option<prefab::PrefabModel>>,
    rank: spec_fn(int) -> nat,
    list: Seq<usize>,
    n: nat,
    parent: Option<usize>,
    a: nat,
    b: nat,
    s: SceneModel,
)
    requires
        doc.linked(),
        doc.ranked(rank),
        n <= list.len(),
        all_below(list, doc.nodes@.len()),
        forall|k: int|
            0 <= k < list.len() ==> rank(#[trigger] list[k] as int) < a && rank(list[k] as int) < b,
    ensures
        with_nodes(doc, prefabs, list, n, parent, a, s) == with_nodes(
            doc,
            prefabs,
            list,
            n,
            parent,
            b,
            s,
        ),
    decreases a, n + 1,
{
    if n > 0 {
        lemma_depths(doc, prefabs, rank, list, (n - 1) as nat, parent, a, b, s);
        let before = with_nodes(doc, prefabs, list, (n - 1) as nat, parent, a, s);
        assert(list[n - 1] < doc.nodes@.len());
        law_depth_does_not_matter(doc, prefabs, rank, list[n - 1], parent, a, b, before);
    }
}

/// The nodes that were visited from a visit, or as roots, in order.
pub open spec fn visited_from(visits: Seq<Visit>, parent: Option<usize>) -> Seq<usize>
    decreases visits.len(),
{
    if visits.len() == 0 {
        Seq::empty()
    } else {
        let before = visited_from(visits.drop_last(), parent);
        if visits.last().parent == parent {
            before.push(visits.last().node)
        } else {
            before
        }
    }
}

/// A thing that is placed: a primitive of a mesh, or none for a marker, and the
/// prefab it has.
pub type Placed = (Option<(usize, usize)>, Option<prefab::PrefabModel>);

/// The things that some placements put at a visit, or at the origin, in order.
pub open spec fn placed_at(
    nodes: Seq<PlacementModel>,
    meshes: Seq<(usize, usize)>,
    visit: Option<usize>,
) -> Seq<Placed>
    decreases nodes.len(),
{
    if nodes.len() == 0 {
        Seq::empty()
    } else {
        let before = placed_at(nodes.drop_last(), meshes, visit);
        let last = nodes.last();
        if last.visit == visit {
            before.push(
                (
                    match last.mesh {
                        Some(i) => Some(meshes[i as int]),
                        None => None,
                    },
                    last.prefab,
                ),
            )
        } else {
            before
        }
    }
}

/// The primitives of mesh `m` that can be drawn, in order, each with a prefab.
pub open spec fn drawn(
    prims: Seq<Primitive>,
    m: usize,
    prefab: Option<prefab::PrefabModel>,
) -> Seq<Placed> {
    Seq::new(prims.len(), |p: int| (Some((m, p as usize)), prefab)).filter(
        |e: Placed| prims[(e.0->0).1 as int].triangles && prims[(e.0->0).1 as int].positions,
    )
}

/// What a node is to place: the primitives of its mesh that can be drawn, all
/// with its prefab; without a mesh its prefab alone, if it has one.
pub open spec fn due(
    doc: Document,
    prefabs: Seq<Option<prefab::PrefabModel>>,
    node: usize,
) -> Seq<Placed> {
    match doc.nodes@[node as int].mesh {
        Some(m) => drawn(doc.meshes@[m as int]@, m, prefabs[node as int]),
        None => if prefabs[node as int] is Some {
            seq![(None, prefabs[node as int])]
        } else {
            Seq::empty()
        },
    }
}

spec fn earlier(q: Option<usize>, n: nat) -> bool {
    match q {
        Some(v) => v < n,
        None => true,
    }
}

/// A scene with some more nodes visited, and all that is below them.
spec fn continues(
    doc: Document,
    prefabs: Seq<Option<prefab::PrefabModel>>,
    s: SceneModel,
    r: SceneModel,
    parent: Option<usize>,
    list: Seq<usize>,
) -> bool {
    &&& s.visits.len() <= r.visits.len()
    &&& forall|i: int| 0 <= i < s.visits.len() ==> r.visits[i] == #[trigger] s.visits[i]
    &&& s.meshes.len() <= r.meshes.len()
    &&& forall|i: int| 0 <= i < s.meshes.len() ==> r.meshes[i] == #[trigger] s.meshes[i]
    &&& visited_from(r.visits, parent) == visited_from(s.visits, parent) + list
    &&& forall|q: Option<usize>|
        q != parent && earlier(q, s.visits.len()) ==> #[trigger] visited_from(r.visits, q)
            == visited_from(s.visits, q)
    &&& forall|v: usize|
        s.visits.len() <= v < r.visits.len() ==> #[trigger] visited_from(r.visits, Some(v))
            == doc.nodes@[r.visits[v as int].node as int].children@
    &&& forall|q: Option<usize>|
        earlier(q, s.visits.len()) ==> #[trigger] placed_at(r.nodes, r.meshes, q) == placed_at(
            s.nodes,
            s.meshes,
            q,
        )
    &&& forall|v: usize|
        s.visits.len() <= v < r.visits.len() ==> #[trigger] placed_at(
            r.nodes,
            r.meshes,
            Some(v),
        ) == due(doc, prefabs, r.visits[v as int].node)
}

proof fn lemma_continued(
    doc: Document,
    prefabs: Seq<Option<prefab::PrefabModel>>,
    s: SceneModel,
    b: SceneModel,
    r: SceneModel,
    parent: Option<usize>,
    list: Seq<usize>,
    more: Seq<usize>,
)
    requires
        earlier(parent, s.visits.len()),
        continues(doc, prefabs, s, b, parent, list),
        continues(doc, prefabs, b, r, parent, more),
        r.visits.len() <= usize::MAX,
    ensures
        continues(doc, prefabs, s, r, parent, list + more),
{
    assert forall|i: int| 0 <= i < s.visits.len() implies r.visits[i] == #[trigger] s.visits[i] by {
        assert(r.visits[i] == b.visits[i]);
    }
    assert forall|i: int| 0 <= i < s.meshes.len() implies r.meshes[i] == #[trigger] s.meshes[i] by {
        assert(r.meshes[i] == b.meshes[i]);
    }
    assert(visited_from(s.visits, parent) + (list + more) =~= visited_from(s.visits, parent) + list
        + more);
    assert forall|q: Option<usize>|
        q != parent && earlier(q, s.visits.len()) implies #[trigger] visited_from(r.visits, q)
        == visited_from(s.visits, q) by {
        assert(visited_from(b.visits, q) == visited_from(s.visits, q));
    }
    assert forall|v: usize|
        s.visits.len() <= v < r.visits.len() implies #[trigger] visited_from(r.visits, Some(v))
        == doc.nodes@[r.visits[v as int].node as int].children@ by {
        if v < b.visits.len() {
            assert(visited_from(b.visits, Some(v))
                == doc.nodes@[b.visits[v as int].node as int].children@);
            assert(r.visits[v as int] == b.visits[v as int]);
        }
    }
    assert forall|q: Option<usize>|
        earlier(q, s.visits.len()) implies #[trigger] placed_at(r.nodes, r.meshes, q) == placed_at(
        s.nodes,
        s.meshes,
        q,
    ) by {
        assert(placed_at(b.nodes, b.meshes, q) == placed_at(s.nodes, s.meshes, q));
    }
    assert forall|v: usize|
        s.visits.len() <= v < r.visits.len() implies #[trigger] placed_at(
        r.nodes,
        r.meshes,
        Some(v),
    ) == due(doc, prefabs, r.visits[v as int].node) by {
        if v < b.visits.len() {
            assert(placed_at(b.nodes, b.meshes, Some(v)) == due(
                doc,
                prefabs,
                b.visits[v as int].node,
            ));
            assert(r.visits[v as int] == b.visits[v as int]);
        }
    }
}

proof fn lemma_not_yet_visited(doc: Document, visits: Seq<Visit>, v: usize)
    requires
        forall|i: int| 0 <= i < visits.len() ==> visit_ok(doc, #[trigger] visits[i], i),
        visits.len() <= v,
    ensures
        visited_from(visits, Some(v)) =~= Seq::empty(),
    decreases visits.len(),
{
    if visits.len() > 0 {
        let b = visits.drop_last();
        assert forall|i: int| 0 <= i < b.len() implies visit_ok(doc, #[trigger] b[i], i) by {
            assert(b[i] == visits[i]);
        }
        lemma_not_yet_visited(doc, b, v);
        assert(visit_ok(doc, visits[visits.len() - 1], visits.len() - 1));
    }
}

proof fn lemma_not_yet_placed(
    nodes: Seq<PlacementModel>,
    meshes: Seq<(usize, usize)>,
    n: nat,
    v: usize,
)
    requires
        forall|i: int|
            0 <= i < nodes.len() ==> placement_ok(#[trigger] nodes[i], meshes.len(), n),
        n <= v,
    ensures
        placed_at(nodes, meshes, Some(v)) =~= Seq::empty(),
    decreases nodes.len(),
{
    if nodes.len() > 0 {
        let b = nodes.drop_last();
        assert forall|i: int| 0 <= i < b.len() implies placement_ok(
            #[trigger] b[i],
            meshes.len(),
            n,
        ) by {
            assert(b[i] == nodes[i]);
        }
        lemma_not_yet_placed(b, meshes, n, v);
        assert(placement_ok(nodes[nodes.len() - 1], meshes.len(), n));
    }
}

proof fn lemma_placed_stays(
    nodes: Seq<PlacementModel>,
    meshes: Seq<(usize, usize)>,
    more: Seq<(usize, usize)>,
    n: nat,
    q: Option<usize>,
)
    requires
        forall|i: int|
            0 <= i < nodes.len() ==> placement_ok(#[trigger] nodes[i], meshes.len(), n),
        meshes.len() <= more.len(),
        forall|i: int| 0 <= i < meshes.len() ==> more[i] == #[trigger] meshes[i],
    ensures
        placed_at(nodes, more, q) == placed_at(nodes, meshes, q),
    decreases nodes.len(),
{
    if nodes.len() > 0 {
        let b = nodes.drop_last();
        assert forall|i: int| 0 <= i < b.len() implies placement_ok(
            #[trigger] b[i],
            meshes.len(),
            n,
        ) by {
            assert(b[i] == nodes[i]);
        }
        lemma_placed_stays(b, meshes, more, n, q);
        let last = nodes[nodes.len() - 1];
        assert(placement_ok(last, meshes.len(), n));
        if let Some(i) = last.mesh {
            assert(more[i as int] == meshes[i as int]);
        }
    }
}

/// The first `n` primitives of a mesh, as far as they can be drawn.
spec fn drawn_first(
    prims: Seq<Primitive>,
    m: usize,
    prefab: Option<prefab::PrefabModel>,
    n: int,
) -> Seq<Placed> {
    Seq::new(n as nat, |p: int| (Some((m, p as usize)), prefab)).filter(
        |e: Placed| prims[(e.0->0).1 as int].triangles && prims[(e.0->0).1 as int].positions,
    )
}

proof fn lemma_drawn_next(
    prims: Seq<Primitive>,
    m: usize,
    prefab: Option<prefab::PrefabModel>,
    n: int,
)
    requires
        0 < n <= prims.len() <= usize::MAX,
    ensures
        drawn_first(prims, m, prefab, n) == if prims[n - 1].triangles && prims[n - 1].positions {
            drawn_first(prims, m, prefab, n - 1).push((Some((m, (n - 1) as usize)), prefab))
        } else {
            drawn_first(prims, m, prefab, n - 1)
        },
{
    reveal(Seq::filter);
    let all = Seq::new(n as nat, |p: int| (Some((m, p as usize)), prefab));
    let before = Seq::new((n - 1) as nat, |p: int| (Some((m, p as usize)), prefab));
    assert(all.drop_last() =~= before);
}

proof fn lemma_primitives_placed(
    doc: Document,
    m: usize,
    n: int,
    visit: Option<usize>,
    prefab: Option<prefab::PrefabModel>,
    s: SceneModel,
)
    requires
        m < doc.meshes@.len(),
        0 <= n <= doc.meshes@[m as int]@.len(),
        earlier(visit, s.visits.len()),
        scene_ok(doc, s),
        with_primitives(doc.meshes@[m as int]@, m, n, visit, prefab, s).meshes.len() <= usize::MAX,
    ensures
        ({
            let prims = doc.meshes@[m as int]@;
            let r = with_primitives(prims, m, n, visit, prefab, s);
            &&& scene_ok(doc, r)
            &&& r.visits == s.visits
            &&& s.meshes.len() <= r.meshes.len()
            &&& forall|i: int| 0 <= i < s.meshes.len() ==> r.meshes[i] == #[trigger] s.meshes[i]
            &&& placed_at(r.nodes, r.meshes, visit) == placed_at(s.nodes, s.meshes, visit)
                + drawn_first(prims, m, prefab, n)
            &&& forall|q: Option<usize>|
                q != visit ==> #[trigger] placed_at(r.nodes, r.meshes, q) == placed_at(
                    s.nodes,
                    s.meshes,
                    q,
                )
        }),
    decreases n,
{
    let prims = doc.meshes@[m as int]@;
    assert(prims.len() <= usize::MAX) by {
        assert(doc.meshes@[m as int].len() == prims.len());
    }
    let r = with_primitives(prims, m, n, visit, prefab, s);
    if n == 0 {
        reveal(Seq::filter);
        assert(drawn_first(prims, m, prefab, 0) =~= Seq::empty());
        assert(placed_at(s.nodes, s.meshes, visit) + Seq::<Placed>::empty() =~= placed_at(
            s.nodes,
            s.meshes,
            visit,
        ));
    } else {
        let b = with_primitives(prims, m, n - 1, visit, prefab, s);
        lemma_primitives_placed(doc, m, n - 1, visit, prefab, s);
        lemma_primitives_ok(doc, m, n, visit, prefab, s);
        lemma_drawn_next(prims, m, prefab, n);
        let key = (m, (n - 1) as usize);
        let slot = mesh_place(b.meshes, key);
        lemma_mesh_place_bound(b.meshes, key);
        if slot < b.meshes.len() {
            assert(drawable(doc, b.meshes[slot as int]));
        }
        if r.nodes != b.nodes {
            assert(r.nodes.drop_last() =~= b.nodes);
            assert forall|q: Option<usize>| #[trigger]
                placed_at(b.nodes, r.meshes, q) == placed_at(b.nodes, b.meshes, q) by {
                lemma_placed_stays(b.nodes, b.meshes, r.meshes, b.visits.len(), q);
            }
            assert forall|q: Option<usize>| q != visit implies #[trigger] placed_at(
                r.nodes,
                r.meshes,
                q,
            ) == placed_at(s.nodes, s.meshes, q) by {
                assert(placed_at(b.nodes, r.meshes, q) == placed_at(b.nodes, b.meshes, q));
            }
            assert(placed_at(b.nodes, r.meshes, visit) == placed_at(b.nodes, b.meshes, visit));
            assert(r.meshes[slot as int] == key);
            assert(placed_at(r.nodes, r.meshes, visit) =~= placed_at(s.nodes, s.meshes, visit)
                + drawn_first(prims, m, prefab, n));
        }
    }
}

proof fn lemma_node_continues(
    doc: Document,
    prefabs: Seq<Option<prefab::PrefabModel>>,
    rank: spec_fn(int) -> nat,
    node: usize,
    parent: Option<usize>,
    depth: nat,
    s: SceneModel,
)
    requires
        doc.linked(),
        doc.ranked(rank),
        node < doc.nodes@.len(),
        rank(node as int) < depth,
        earlier(parent, s.visits.len()),
        scene_ok(doc, s),
        with_node(doc, prefabs, node, parent, depth, s).visits.len() <= usize::MAX,
        with_node(doc, prefabs, node, parent, depth, s).meshes.len() <= usize::MAX,
    ensures
        scene_ok(doc, with_node(doc, prefabs, node, parent, depth, s)),
        continues(
            doc,
            prefabs,
            s,
            with_node(doc, prefabs, node, parent, depth, s),
            parent,
            seq![node],
        ),
    decreases depth, 0nat,
{
    let v = s.visits.len() as usize;
    let there = SceneModel { visits: s.visits.push(Visit { node, parent }), ..s };
    let n = doc.nodes@[node as int];
    let pre = prefabs[node as int];
    let placed = match n.mesh {
        Some(m) => with_primitives(
            doc.meshes@[m as int]@,
            m,
            doc.meshes@[m as int]@.len() as int,
            Some(v),
            pre,
            there,
        ),
        None => if pre is Some {
            SceneModel {
                nodes: there.nodes.push(PlacementModel { mesh: None, visit: Some(v), prefab: pre }),
                ..there
            }
        } else {
            there
        },
    };
    let kids = n.children@;
    let r = with_node(doc, prefabs, node, parent, depth, s);
    lemma_node_ok(doc, prefabs, node, parent, depth, s);
    lemma_primitives_grow(doc, n.mesh, Some(v), pre, there);
    lemma_nodes_grow(doc, prefabs, kids, kids.len(), Some(v), (depth - 1) as nat, placed);
    assert(there.visits.len() <= usize::MAX);
    // The visit.
    assert(there.visits.drop_last() =~= s.visits);
    lemma_not_yet_visited(doc, s.visits, v);
    assert(visited_from(there.visits, Some(v)) == Seq::<usize>::empty());
    assert forall|i: int| 0 <= i < there.visits.len() implies visit_ok(
        doc,
        #[trigger] there.visits[i],
        i,
    ) by {
        if i < s.visits.len() {
            assert(visit_ok(doc, s.visits[i], i));
        }
    }
    assert forall|i: int| 0 <= i < there.nodes.len() implies placement_ok(
        #[trigger] there.nodes[i],
        there.meshes.len(),
        there.visits.len(),
    ) by {
        assert(placement_ok(s.nodes[i], s.meshes.len(), s.visits.len()));
    }
    assert(scene_ok(doc, there));
    // What it places.
    lemma_not_yet_placed(s.nodes, s.meshes, s.visits.len(), v);
    match n.mesh {
        Some(m) => {
            let prims = doc.meshes@[m as int]@;
            lemma_primitives_placed(doc, m, prims.len() as int, Some(v), pre, there);
            assert(drawn_first(prims, m, pre, prims.len() as int) == drawn(prims, m, pre));
        },
        None => {
            if pre is Some {
                assert(placed.nodes.drop_last() =~= there.nodes);
            }
            assert forall|i: int| 0 <= i < placed.nodes.len() implies placement_ok(
                #[trigger] placed.nodes[i],
                placed.meshes.len(),
                placed.visits.len(),
            ) by {
                if i < there.nodes.len() {
                    assert(placement_ok(
                        there.nodes[i],
                        there.meshes.len(),
                        there.visits.len(),
                    ));
                }
            }
        },
    }
    assert(placed_at(placed.nodes, placed.meshes, Some(v)) =~= due(doc, prefabs, node));
    assert forall|q: Option<usize>| q != Some(v) implies #[trigger] placed_at(
        placed.nodes,
        placed.meshes,
        q,
    ) == placed_at(s.nodes, s.meshes, q) by {}
    assert(scene_ok(doc, placed));
    // What is below it.
    assert forall|k: int| 0 <= k < kids.len() implies rank(#[trigger] kids[k] as int) < depth - 1 by {
        assert(rank(doc.nodes@[node as int].children@[k] as int) < rank(node as int));
    }
    lemma_nodes_continue(
        doc,
        prefabs,
        rank,
        kids,
        kids.len(),
        Some(v),
        (depth - 1) as nat,
        placed,
    );
    assert(kids.take(kids.len() as int) =~= kids);
    assert(continues(doc, prefabs, placed, r, Some(v), kids));
    assert(Seq::<usize>::empty() + kids =~= kids);
    assert(visited_from(r.visits, Some(v)) == kids);
    assert forall|i: int| 0 <= i < s.visits.len() implies r.visits[i] == #[trigger] s.visits[i] by {
        assert(r.visits[i] == placed.visits[i]);
    }
    assert(r.visits[v as int] == placed.visits[v as int]);
    assert forall|i: int| 0 <= i < s.meshes.len() implies r.meshes[i] == #[trigger] s.meshes[i] by {
        assert(r.meshes[i] == placed.meshes[i]);
    }
    assert forall|q: Option<usize>| earlier(q, s.visits.len()) implies #[trigger] visited_from(
        r.visits,
        q,
    ) == visited_from(there.visits, q) by {}
    assert(visited_from(there.visits, parent) == visited_from(s.visits, parent).push(node));
    assert(visited_from(s.visits, parent).push(node) =~= visited_from(s.visits, parent) + seq![
        node,
    ]);
    assert forall|q: Option<usize>|
        q != parent && earlier(q, s.visits.len()) implies #[trigger] visited_from(r.visits, q)
        == visited_from(s.visits, q) by {
        assert(visited_from(r.visits, q) == visited_from(there.visits, q));
    }
    assert forall|q: Option<usize>|
        earlier(q, s.visits.len()) implies #[trigger] placed_at(r.nodes, r.meshes, q) == placed_at(
        s.nodes,
        s.meshes,
        q,
    ) by {
        assert(placed_at(placed.nodes, placed.meshes, q) == placed_at(s.nodes, s.meshes, q));
    }
    assert(placed_at(r.nodes, r.meshes, Some(v)) == placed_at(
        placed.nodes,
        placed.meshes,
        Some(v),
    ));
    assert forall|w: usize|
        s.visits.len() <= w < r.visits.len() implies #[trigger] visited_from(r.visits, Some(w))
        == doc.nodes@[r.visits[w as int].node as int].children@ by {}
    assert forall|w: usize|
        s.visits.len() <= w < r.visits.len() implies #[trigger] placed_at(
        r.nodes,
        r.meshes,
        Some(w),
    ) == due(doc, prefabs, r.visits[w as int].node) by {}
}

proof fn lemma_nodes_continue(
    doc: Document,
    prefabs: Seq<Option<prefab::PrefabModel>>,
    rank: spec_fn(int) -> nat,
    list: Seq<usize>,
    n: nat,
    parent: Option<usize>,
    depth: nat,
    s: SceneModel,
)
    requires
        doc.linked(),
        doc.ranked(rank),
        n <= list.len(),
        all_below(list, doc.nodes@.len()),
        forall|k: int| 0 <= k < list.len() ==> rank(#[trigger] list[k] as int) < depth,
        earlier(parent, s.visits.len()),
        scene_ok(doc, s),
        with_nodes(doc, prefabs, list, n, parent, depth, s).visits.len() <= usize::MAX,
        with_nodes(doc, prefabs, list, n, parent, depth, s).meshes.len() <= usize::MAX,
    ensures
        scene_ok(doc, with_nodes(doc, prefabs, list, n, parent, depth, s)),
        continues(
            doc,
            prefabs,
            s,
            with_nodes(doc, prefabs, list, n, parent, depth, s),
            parent,
            list.take(n as int),
        ),
    decreases depth, n + 1,
{
    if n == 0 {
        assert(visited_from(s.visits, parent) + list.take(0) =~= visited_from(s.visits, parent));
    } else {
        let b = with_nodes(doc, prefabs, list, (n - 1) as nat, parent, depth, s);
        let r = with_nodes(doc, prefabs, list, n, parent, depth, s);
        let node = list[n - 1];
        lemma_node_grows(doc, prefabs, node, parent, depth, b);
        lemma_nodes_grow(doc, prefabs, list, (n - 1) as nat, parent, depth, s);
        lemma_nodes_continue(doc, prefabs, rank, list, (n - 1) as nat, parent, depth, s);
        lemma_node_continues(doc, prefabs, rank, node, parent, depth, b);
        lemma_continued(
            doc,
            prefabs,
            s,
            b,
            r,
            parent,
            list.take(n - 1),
            seq![node],
        );
        assert(list.take(n - 1) + seq![node] =~= list.take(n as int));
    }
}

/// The primitives of the first `n` meshes that can be drawn, mesh by mesh.
pub open spec fn all_drawn(doc: Document, n: nat) -> Seq<Placed>
    decreases n,
{
    if n == 0 {
        Seq::empty()
    } else {
        all_drawn(doc, (n - 1) as nat) + drawn(doc.meshes@[n - 1]@, (n - 1) as usize, None)
    }
}

proof fn lemma_meshes_placed(doc: Document, n: nat)
    requires
        n <= doc.meshes@.len(),
        with_meshes(doc, n).meshes.len() <= usize::MAX,
    ensures
        scene_ok(doc, with_meshes(doc, n)),
        with_meshes(doc, n).visits.len() == 0,
        placed_at(with_meshes(doc, n).nodes, with_meshes(doc, n).meshes, None) == all_drawn(doc, n),
        forall|v: usize|
            #[trigger] placed_at(with_meshes(doc, n).nodes, with_meshes(doc, n).meshes, Some(v))
                == Seq::<Placed>::empty(),
    decreases n,
{
    if n > 0 {
        let m = (n - 1) as usize;
        assert(doc.meshes@.len() <= usize::MAX) by {
            assert(doc.meshes.len() == doc.meshes@.len());
        }
        let prims = doc.meshes@[m as int]@;
        let b = with_meshes(doc, (n - 1) as nat);
        let r = with_meshes(doc, n);
        lemma_first_primitives_grow(prims, m, prims.len() as int, None, None, b);
        lemma_meshes_placed(doc, (n - 1) as nat);
        lemma_primitives_placed(doc, m, prims.len() as int, None, None, b);
        assert(drawn_first(prims, m, None, prims.len() as int) == drawn(prims, m, None));
        assert forall|v: usize| #[trigger]
            placed_at(r.nodes, r.meshes, Some(v)) == Seq::<Placed>::empty() by {
            assert(placed_at(b.nodes, b.meshes, Some(v)) == Seq::<Placed>::empty());
        }
    }
}

/// The roots of the scene that is shown: the default one, else the first.
pub open spec fn shown_roots(doc: Document) -> Option<Seq<usize>> {
    match doc.default_scene {
        Some(i) => Some(doc.scenes@[i as int]@),
        None => if doc.scenes@.len() == 0 {
            None
        } else {
            Some(doc.scenes@.first()@)
        },
    }
}

/// A scene is complete. Its roots are visited in their order, and from every
/// visit exactly the children of its node, in theirs; at every visit its node's
/// mesh is placed, one thing for each primitive that can be drawn, all with the
/// node's prefab, or the prefab alone where there is no mesh; and nothing else is
/// placed. Without a scene every primitive that can be drawn stands at the origin
/// once. Children rank below their parents, for a hierarchy has no cycles.
pub proof fn law_scenes_place_everything(
    doc: Document,
    prefabs: Seq<Option<prefab::PrefabModel>>,
    rank: spec_fn(int) -> nat,
)
    requires
        doc.linked(),
        doc.ranked(rank),
        forall|n: int| 0 <= n < doc.nodes@.len() ==> #[trigger] rank(n) < doc.nodes@.len(),
        scene_of(doc, prefabs).meshes.len() <= usize::MAX,
        scene_of(doc, prefabs).visits.len() <= usize::MAX,
    ensures
        ({
            let s = scene_of(doc, prefabs);
            match shown_roots(doc) {
                Some(roots) => {
                    &&& visited_from(s.visits, None) == roots
                    &&& forall|v: usize|
                        v < s.visits.len() ==> #[trigger] visited_from(s.visits, Some(v))
                            == doc.nodes@[s.visits[v as int].node as int].children@
                    &&& forall|v: usize|
                        v < s.visits.len() ==> #[trigger] placed_at(s.nodes, s.meshes, Some(v))
                            == due(doc, prefabs, s.visits[v as int].node)
                    &&& placed_at(s.nodes, s.meshes, None) == Seq::<Placed>::empty()
                },
                None => {
                    &&& s.visits.len() == 0
                    &&& placed_at(s.nodes, s.meshes, None) == all_drawn(doc, doc.meshes@.len())
                    &&& forall|v: usize|
                        #[trigger] placed_at(s.nodes, s.meshes, Some(v)) == Seq::<Placed>::empty()
                },
            }
        }),
{
    let s = scene_of(doc, prefabs);
    match shown_roots(doc) {
        Some(roots) => {
            assert(all_below(roots, doc.nodes@.len())) by {
                match doc.default_scene {
                    Some(i) => {
                        assert(all_below(doc.scenes@[i as int]@, doc.nodes@.len()));
                    },
                    None => {
                        assert(all_below(doc.scenes@[0]@, doc.nodes@.len()));
                    },
                }
            }
            assert(scene_ok(doc, empty_scene()));
            assert forall|k: int| 0 <= k < roots.len() implies rank(#[trigger] roots[k] as int)
                < doc.nodes@.len() by {
                assert(roots[k] < doc.nodes@.len());
            }
            lemma_nodes_continue(
                doc,
                prefabs,
                rank,
                roots,
                roots.len(),
                None,
                doc.nodes@.len(),
                empty_scene(),
            );
            assert(roots.take(roots.len() as int) =~= roots);
            assert(Seq::<usize>::empty() + roots =~= roots);
            assert(earlier(None, 0));
        },
        None => {
            lemma_meshes_placed(doc, doc.meshes@.len());
        },
    }
}

/// Among the primitives of a mesh that are placed, each that can be drawn is there
/// exactly once, and no other is.
pub proof fn law_each_primitive_is_drawn_once(
    prims: Seq<Primitive>,
    m: usize,
    prefab: Option<prefab::PrefabModel>,
)
    requires
        prims.len() <= usize::MAX,
    ensures
        drawn(prims, m, prefab).no_duplicates(),
        forall|p: usize|
            p < prims.len() && prims[p as int].triangles && prims[p as int].positions
                ==> #[trigger] drawn(prims, m, prefab).contains((Some((m, p)), prefab)),
        forall|i: int|
            0 <= i < drawn(prims, m, prefab).len() ==> ({
                let e = #[trigger] drawn(prims, m, prefab)[i];
                &&& e.1 == prefab
                &&& e.0 matches Some(key) && key.0 == m && key.1 < prims.len()
                    && prims[key.1 as int].triangles && prims[key.1 as int].positions
            }),
{
    lemma_drawn_once(prims, m, prefab, prims.len() as int);
    let d = drawn(prims, m, prefab);
    assert(d == drawn_first(prims, m, prefab, prims.len() as int));
}

proof fn lemma_drawn_once(
    prims: Seq<Primitive>,
    m: usize,
    prefab: Option<prefab::PrefabModel>,
    n: int,
)
    requires
        0 <= n <= prims.len() <= usize::MAX,
    ensures
        ({
            let d = drawn_first(prims, m, prefab, n);
            &&& d.no_duplicates()
            &&& forall|p: usize|
                p < n && prims[p as int].triangles && prims[p as int].positions
                    ==> #[trigger] d.contains((Some((m, p)), prefab))
            &&& forall|i: int|
                0 <= i < d.len() ==> ({
                    let e = #[trigger] d[i];
                    &&& e.1 == prefab
                    &&& e.0 matches Some(key) && key.0 == m && key.1 < n
                        && prims[key.1 as int].triangles && prims[key.1 as int].positions
                })
        }),
    decreases n,
{
    if n == 0 {
        reveal(Seq::filter);
        assert(drawn_first(prims, m, prefab, 0) =~= Seq::empty());
    } else {
        lemma_drawn_once(prims, m, prefab, n - 1);
        lemma_drawn_next(prims, m, prefab, n);
        let b = drawn_first(prims, m, prefab, n - 1);
        let d = drawn_first(prims, m, prefab, n);
        assert forall|p: usize|
            p < n && prims[p as int].triangles && prims[p as int].positions implies
            #[trigger] d.contains((Some((m, p)), prefab)) by {
            if p < n - 1 {
                assert(b.contains((Some((m, p)), prefab)));
                let i = choose|i: int| 0 <= i < b.len() && b[i] == (Some((m, p)), prefab);
                assert(d[i] == b[i]);
            } else {
                assert(d[d.len() - 1] == (Some((m, p)), prefab));
            }
        }
        if prims[n - 1].triangles && prims[n - 1].positions {
            let last = (Some((m, (n - 1) as usize)), prefab);
            assert(d == b.push(last));
            assert forall|i: int, j: int| 0 <= i < d.len() && 0 <= j < d.len() && i != j implies d[i]
                != d[j] by {
                if i < b.len() && j < b.len() {
                    assert(b[i] != b[j]);
                } else if i < b.len() {
                    assert(b[i].0 matches Some(key) && key.1 < n - 1);
                } else {
                    assert(b[j].0 matches Some(key) && key.1 < n - 1);
                }
            }
            assert forall|i: int| 0 <= i < d.len() implies ({
                let e = #[trigger] d[i];
                &&& e.1 == prefab
                &&& e.0 matches Some(key) && key.0 == m && key.1 < n
                    && prims[key.1 as int].triangles && prims[key.1 as int].positions
            }) by {
                if i < b.len() {
                    assert(d[i] == b[i]);
                }
            }
        }
    }
}

/// What is visited between a visit and one of its children is below that visit.
pub open spec fn depth_first(visits: Seq<Visit>) -> bool {
    forall|i: int, j: int|
        #![trigger visits[i], visits[j]]
        0 <= i < j < visits.len() ==> (visits[j].parent matches Some(p) ==> p < i ==> (
        visits[i].parent matches Some(q) && p <= q))
}

/// All that was visited after a visit is below it.
spec fn below(visits: Seq<Visit>, parent: Option<usize>, from: int) -> bool {
    match parent {
        Some(p) => forall|i: int|
            from <= i < visits.len() && p < i ==> ((#[trigger] visits[i]).parent matches Some(q)
                && p <= q),
        None => true,
    }
}

/// What is placed first belongs to the earlier visit.
pub open spec fn by_visit(nodes: Seq<PlacementModel>) -> bool {
    forall|i: int, j: int|
        #![trigger nodes[i], nodes[j]]
        0 <= i <= j < nodes.len() ==> (nodes[j].visit matches Some(b) ==> (
        nodes[i].visit matches Some(a) ==> a <= b))
}

spec fn in_walk_order(s: SceneModel) -> bool {
    &&& depth_first(s.visits)
    &&& by_visit(s.nodes)
    &&& forall|i: int|
        0 <= i < s.nodes.len() ==> ((#[trigger] s.nodes[i]).visit matches Some(v) && v
            < s.visits.len())
}

proof fn lemma_primitives_in_order(
    prims: Seq<Primitive>,
    m: usize,
    n: int,
    v: usize,
    prefab: Option<prefab::PrefabModel>,
    s: SceneModel,
)
    requires
        in_walk_order(s),
        v + 1 == s.visits.len(),
    ensures
        in_walk_order(with_primitives(prims, m, n, Some(v), prefab, s)),
        with_primitives(prims, m, n, Some(v), prefab, s).visits == s.visits,
    decreases n,
{
    if n > 0 {
        lemma_primitives_in_order(prims, m, n - 1, v, prefab, s);
    }
}

proof fn lemma_node_in_order(
    doc: Document,
    prefabs: Seq<Option<prefab::PrefabModel>>,
    node: usize,
    parent: Option<usize>,
    depth: nat,
    s: SceneModel,
)
    requires
        in_walk_order(s),
        below(s.visits, parent, 0),
        earlier(parent, s.visits.len()),
        with_node(doc, prefabs, node, parent, depth, s).visits.len() <= usize::MAX,
    ensures
        ({
            let r = with_node(doc, prefabs, node, parent, depth, s);
            &&& in_walk_order(r)
            &&& s.visits.len() <= r.visits.len()
            &&& forall|i: int| 0 <= i < s.visits.len() ==> r.visits[i] == #[trigger] s.visits[i]
            &&& below(r.visits, parent, 0)
        }),
    decreases depth, 0nat,
{
    if depth > 0 {
        let v = s.visits.len() as usize;
        let there = SceneModel { visits: s.visits.push(Visit { node, parent }), ..s };
        let n = doc.nodes@[node as int];
        let pre = prefabs[node as int];
        let placed = match n.mesh {
            Some(m) => with_primitives(
                doc.meshes@[m as int]@,
                m,
                doc.meshes@[m as int]@.len() as int,
                Some(v),
                pre,
                there,
            ),
            None => if pre is Some {
                SceneModel {
                    nodes: there.nodes.push(
                        PlacementModel { mesh: None, visit: Some(v), prefab: pre },
                    ),
                    ..there
                }
            } else {
                there
            },
        };
        let kids = n.children@;
        lemma_primitives_grow(doc, n.mesh, Some(v), pre, there);
        lemma_nodes_grow(doc, prefabs, kids, kids.len(), Some(v), (depth - 1) as nat, placed);
        assert(depth_first(there.visits)) by {
            assert forall|i: int, j: int|
                #![trigger there.visits[i], there.visits[j]]
                0 <= i < j < there.visits.len() implies (there.visits[j].parent matches Some(p)
                ==> p < i ==> (there.visits[i].parent matches Some(q) && p <= q)) by {
                assert(there.visits[i] == s.visits[i]);
                if j < s.visits.len() {
                    assert(there.visits[j] == s.visits[j]);
                }
            }
        }
        assert(in_walk_order(there));
        if let Some(m) = n.mesh {
            lemma_primitives_in_order(
                doc.meshes@[m as int]@,
                m,
                doc.meshes@[m as int]@.len() as int,
                v,
                pre,
                there,
            );
        }
        assert(in_walk_order(placed));
        assert(below(placed.visits, Some(v), 0));
        lemma_nodes_in_order(
            doc,
            prefabs,
            kids,
            kids.len(),
            Some(v),
            (depth - 1) as nat,
            placed,
        );
        let r = with_node(doc, prefabs, node, parent, depth, s);
        assert forall|i: int| 0 <= i < s.visits.len() implies r.visits[i]
            == #[trigger] s.visits[i] by {
            assert(r.visits[i] == placed.visits[i]);
        }
        if let Some(p) = parent {
            assert forall|i: int| 0 <= i < r.visits.len() && p < i implies (
            (#[trigger] r.visits[i]).parent matches Some(q) && p <= q) by {
                if i < s.visits.len() {
                    assert(r.visits[i] == s.visits[i]);
                } else if i == v {
                    assert(r.visits[i] == placed.visits[i]);
                }
            }
        }
    }
}

proof fn lemma_nodes_in_order(
    doc: Document,
    prefabs: Seq<Option<prefab::PrefabModel>>,
    list: Seq<usize>,
    n: nat,
    parent: Option<usize>,
    depth: nat,
    s: SceneModel,
)
    requires
        in_walk_order(s),
        below(s.visits, parent, 0),
        earlier(parent, s.visits.len()),
        with_nodes(doc, prefabs, list, n, parent, depth, s).visits.len() <= usize::MAX,
    ensures
        ({
            let r = with_nodes(doc, prefabs, list, n, parent, depth, s);
            &&& in_walk_order(r)
            &&& s.visits.len() <= r.visits.len()
            &&& forall|i: int| 0 <= i < s.visits.len() ==> r.visits[i] == #[trigger] s.visits[i]
            &&& below(r.visits, parent, 0)
        }),
    decreases depth, n + 1,
{
    if n > 0 {
        let b = with_nodes(doc, prefabs, list, (n - 1) as nat, parent, depth, s);
        let r = with_nodes(doc, prefabs, list, n, parent, depth, s);
        lemma_node_grows(doc, prefabs, list[n - 1], parent, depth, b);
        lemma_nodes_in_order(doc, prefabs, list, (n - 1) as nat, parent, depth, s);
        lemma_node_in_order(doc, prefabs, list[n - 1], parent, depth, b);
        assert forall|i: int| 0 <= i < s.visits.len() implies r.visits[i]
            == #[trigger] s.visits[i] by {
            assert(r.visits[i] == b.visits[i]);
        }
    }
}

/// A hierarchy is walked depth first, and what it places stands in the order of
/// the walk.
pub proof fn law_scenes_are_walked_in_order(
    doc: Document,
    prefabs: Seq<Option<prefab::PrefabModel>>,
)
    requires
        shown_roots(doc) is Some,
        scene_of(doc, prefabs).visits.len() <= usize::MAX,
    ensures
        depth_first(scene_of(doc, prefabs).visits),
        by_visit(scene_of(doc, prefabs).nodes),
{
    let roots = shown_roots(doc)->0;
    lemma_nodes_in_order(
        doc,
        prefabs,
        roots,
        roots.len(),
        None,
        doc.nodes@.len(),
        empty_scene(),
    );
}

/// Every mesh that a scene stores is placed somewhere in it.
pub open spec fn all_used(s: SceneModel) -> bool {
    forall|i: int| 0 <= i < s.meshes.len() ==> #[trigger] is_used(s.nodes, i)
}

/// Some placement has the mesh at a place of the list.
pub open spec fn is_used(nodes: Seq<PlacementModel>, i: int) -> bool {
    exists|k: int| 0 <= k < nodes.len() && (#[trigger] nodes[k]).mesh == Some(i as usize)
}

proof fn lemma_primitives_used(
    prims: Seq<Primitive>,
    m: usize,
    n: int,
    visit: Option<usize>,
    prefab: Option<prefab::PrefabModel>,
    s: SceneModel,
)
    requires
        all_used(s),
    ensures
        all_used(with_primitives(prims, m, n, visit, prefab, s)),
    decreases n,
{
    if n > 0 {
        lemma_primitives_used(prims, m, n - 1, visit, prefab, s);
        let b = with_primitives(prims, m, n - 1, visit, prefab, s);
        let r = with_primitives(prims, m, n, visit, prefab, s);
        lemma_mesh_place_bound(b.meshes, (m, (n - 1) as usize));
        assert forall|i: int| 0 <= i < r.meshes.len() implies #[trigger] is_used(r.nodes, i) by {
            if i < b.meshes.len() {
                assert(is_used(b.nodes, i));
                let k = choose|k: int|
                    0 <= k < b.nodes.len() && (#[trigger] b.nodes[k]).mesh == Some(i as usize);
                assert(r.nodes[k] == b.nodes[k]);
            } else {
                assert(r.nodes[r.nodes.len() - 1].mesh == Some(i as usize));
            }
        }
    }
}

proof fn lemma_node_used(
    doc: Document,
    prefabs: Seq<Option<prefab::PrefabModel>>,
    node: usize,
    parent: Option<usize>,
    depth: nat,
    s: SceneModel,
)
    requires
        all_used(s),
    ensures
        all_used(with_node(doc, prefabs, node, parent, depth, s)),
    decreases depth, 0nat,
{
    if depth > 0 {
        let v = s.visits.len() as usize;
        let there = SceneModel { visits: s.visits.push(Visit { node, parent }), ..s };
        let n = doc.nodes@[node as int];
        let pre = prefabs[node as int];
        let marked = SceneModel {
            nodes: there.nodes.push(PlacementModel { mesh: None, visit: Some(v), prefab: pre }),
            ..there
        };
        assert forall|i: int| 0 <= i < marked.meshes.len() implies #[trigger] is_used(
            marked.nodes,
            i,
        ) by {
            assert(is_used(s.nodes, i));
            let k = choose|k: int|
                0 <= k < s.nodes.len() && (#[trigger] s.nodes[k]).mesh == Some(i as usize);
            assert(marked.nodes[k] == s.nodes[k]);
        }
        let placed = match n.mesh {
            Some(m) => {
                lemma_primitives_used(
                    doc.meshes@[m as int]@,
                    m,
                    doc.meshes@[m as int]@.len() as int,
                    Some(v),
                    pre,
                    there,
                );
                with_primitives(
                    doc.meshes@[m as int]@,
                    m,
                    doc.meshes@[m as int]@.len() as int,
                    Some(v),
                    pre,
                    there,
                )
            },
            None => if pre is Some {
                marked
            } else {
                there
            },
        };
        lemma_nodes_used(
            doc,
            prefabs,
            n.children@,
            n.children@.len(),
            Some(v),
            (depth - 1) as nat,
            placed,
        );
    }
}

proof fn lemma_nodes_used(
    doc: Document,
    prefabs: Seq<Option<prefab::PrefabModel>>,
    list: Seq<usize>,
    n: nat,
    parent: Option<usize>,
    depth: nat,
    s: SceneModel,
)
    requires
        all_used(s),
    ensures
        all_used(with_nodes(doc, prefabs, list, n, parent, depth, s)),
    decreases depth, n + 1,
{
    if n > 0 {
        lemma_nodes_used(doc, prefabs, list, (n - 1) as nat, parent, depth, s);
        let b = with_nodes(doc, prefabs, list, (n - 1) as nat, parent, depth, s);
        lemma_node_used(doc, prefabs, list[n - 1], parent, depth, b);
    }
}

/// A scene stores only meshes that it places.
pub proof fn law_stored_meshes_are_placed(
    doc: Document,
    prefabs: Seq<Option<prefab::PrefabModel>>,
)
    ensures
        all_used(scene_of(doc, prefabs)),
{
    match shown_roots(doc) {
        Some(roots) => lemma_nodes_used(
            doc,
            prefabs,
            roots,
            roots.len(),
            None,
            doc.nodes@.len(),
            empty_scene(),
        ),
        None => lemma_meshes_used(doc, doc.meshes@.len()),
    }
}

proof fn lemma_meshes_used(doc: Document, n: nat)
    ensures
        all_used(with_meshes(doc, n)),
    decreases n,
{
    if n > 0 {
        lemma_meshes_used(doc, (n - 1) as nat);
        let m = (n - 1) as usize;
        let prims = doc.meshes@[m as int]@;
        lemma_primitives_used(
            prims,
            m,
            prims.len() as int,
            None,
            None,
            with_meshes(doc, (n - 1) as nat),
        );
    }
}

/// A document is linked just where every child, every mesh of a node, every root
/// of a scene and the scene to show are there.
pub proof fn law_links_name_what_is_there(doc: Document)
    ensures
        doc.linked() <==> {
            &&& forall|i: int, k: int|
                0 <= i < doc.nodes@.len() && 0 <= k < doc.nodes@[i].children@.len()
                    ==> #[trigger] doc.nodes@[i].children@[k] < doc.nodes@.len()
            &&& forall|i: int|
                0 <= i < doc.nodes@.len() ==> ((#[trigger] doc.nodes@[i]).mesh matches Some(m)
                    ==> m < doc.meshes@.len())
            &&& forall|i: int, k: int|
                0 <= i < doc.scenes@.len() && 0 <= k < doc.scenes@[i]@.len()
                    ==> #[trigger] doc.scenes@[i]@[k] < doc.nodes@.len()
            &&& doc.default_scene matches Some(s) ==> s < doc.scenes@.len()
        },
{
    let n = doc.nodes@.len();
    if doc.linked() {
        assert forall|i: int, k: int|
            0 <= i < n && 0 <= k < doc.nodes@[i].children@.len() implies #[trigger]
        doc.nodes@[i].children@[k] < n by {
            assert(all_below(doc.nodes@[i].children@, n));
        }
        assert forall|i: int, k: int|
            0 <= i < doc.scenes@.len() && 0 <= k < doc.scenes@[i]@.len() implies #[trigger]
        doc.scenes@[i]@[k] < n by {
            assert(all_below(doc.scenes@[i]@, n));
        }
    }
}

/// A node has the prefab that its extras name. Extras that cannot be understood
/// are complained about, and the node then has none.
pub proof fn law_nodes_have_the_prefab_they_name(n: Node)
    ensures
        n.extras is None ==> node_prefab(n) is None && node_complaint(n) is None,
        n.extras matches Some(t) ==> match prefab::prefab_read(json::json_of_text(t@)) {
            Ok(p) => node_prefab(n) == p && node_complaint(n) is None,
            Err(e) => node_prefab(n) is None && node_complaint(n) == Some(e),
        },
{
}

/// What is said of a scene is said of its meshes, its placements and its visits.
pub proof fn law_scenes_are_seen_whole(s: SceneData, prefabs: Seq<Option<PrefabSpec>>, i: int)
    ensures
        s@.meshes == s.meshes@,
        s@.visits == s.visits@,
        s@.nodes.len() == s.nodes@.len(),
        0 <= i < s.nodes@.len() ==> s@.nodes[i].mesh == s.nodes@[i].mesh && s@.nodes[i].visit
            == s.nodes@[i].visit && s@.nodes[i].prefab == prefab::prefab_view(s.nodes@[i].prefab),
        prefab_views(prefabs).len() == prefabs.len(),
        0 <= i < prefabs.len() ==> prefab_views(prefabs)[i] == prefab::prefab_view(prefabs[i]),
{
}

} // verus!
