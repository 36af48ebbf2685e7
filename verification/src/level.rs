//! Building a level: what the nodes of the loaded scenes become.
//!
//! Built-in meshes come first in the list of meshes, then those of each scene.
//! A node may name a prefab, which decides what is spawned for it.
use vstd::prelude::*;
use vstd::string::*;

use crate::config;
use crate::json::F64;
use crate::mesh::{Material, MeshData};
use crate::prefab;
use crate::prefab::PrefabSpec;
use crate::scene;
use crate::scene::SceneNode;
use crate::text;

verus! {

/// Places of the built-in meshes.
pub const MESH_SPHERE: u32 = 0;

pub const MESH_CUBE: u32 = 1;

pub const MESH_LEVEL_CUBE: u32 = 2;

pub const MESH_BUILTIN_COUNT: u32 = 3;

/// Materials that stand before those of the meshes.
pub const PALETTE: u32 = 24;

/// A node of a scene, in the lists of the whole level.
pub struct LevelNode {
    /// Which of the loaded scenes it comes from.
    pub scene: usize,
    pub visit: Option<usize>,
    /// Its place in the level's list of meshes.
    pub mesh: Option<usize>,
    pub prefab: Option<PrefabSpec>,
}

pub struct LevelNodeModel {
    pub scene: int,
    pub visit: Option<usize>,
    pub mesh: Option<int>,
    pub prefab: Option<prefab::PrefabModel>,
}

impl View for LevelNode {
    type V = LevelNodeModel;

    open spec fn view(&self) -> LevelNodeModel {
        LevelNodeModel {
            scene: self.scene as int,
            visit: self.visit,
            mesh: match self.mesh {
                Some(m) => Some(m as int),
                None => None,
            },
            prefab: prefab::prefab_view(self.prefab),
        }
    }
}

pub open spec fn level_views(s: Seq<LevelNode>) -> Seq<LevelNodeModel> {
    Seq::new(s.len(), |i: int| s[i]@)
}

/// A loaded scene: how many meshes it has, and its nodes.
pub struct LoadedScene {
    pub mesh_count: usize,
    pub nodes: Vec<SceneNode>,
}

/// Meshes before those of scene `n`.
pub open spec fn mesh_base(scenes: Seq<LoadedScene>, n: nat) -> int
    decreases n,
{
    if n == 0 {
        MESH_BUILTIN_COUNT as int
    } else {
        mesh_base(scenes, (n - 1) as nat) + scenes[n - 1].mesh_count
    }
}

/// A node of scene `n`, with its mesh counted from the start of the level's
/// list.
pub open spec fn rebased(node: scene::PlacementModel, n: int, base: int) -> LevelNodeModel {
    LevelNodeModel {
        scene: n,
        visit: node.visit,
        mesh: match node.mesh {
            Some(m) => Some(base + m),
            None => None,
        },
        prefab: node.prefab,
    }
}

/// The nodes of the first `n` scenes, one scene after the other.
pub open spec fn level_nodes(scenes: Seq<LoadedScene>, n: nat) -> Seq<LevelNodeModel>
    decreases n,
{
    if n == 0 {
        seq![]
    } else {
        let s = scenes[n - 1];
        level_nodes(scenes, (n - 1) as nat) + Seq::new(
            s.nodes@.len(),
            |i: int| rebased(s.nodes@[i]@, n - 1, mesh_base(scenes, (n - 1) as nat)),
        )
    }
}

/// Every node's mesh is one of its scene's.
pub open spec fn meshes_in_range(s: LoadedScene) -> bool {
    forall|i: int|
        0 <= i < s.nodes@.len() ==> match (#[trigger] s.nodes@[i]).mesh {
            Some(m) => m < s.mesh_count,
            None => true,
        }
}

fn copy_prefab(p: &Option<PrefabSpec>) -> (r: Option<PrefabSpec>)
    ensures
        prefab::prefab_view(r) == prefab::prefab_view(*p),
{
    match p {
        Some(s) => Some(s.copy()),
        None => None,
    }
}

proof fn lemma_mesh_base_grows(scenes: Seq<LoadedScene>, m: nat, n: nat)
    requires
        m <= n,
    ensures
        mesh_base(scenes, m) <= mesh_base(scenes, n),
    decreases n,
{
    if m < n {
        lemma_mesh_base_grows(scenes, m, (n - 1) as nat);
    }
}

/// Put the nodes of all scenes into one list. A scene's meshes stand behind the
/// built-in ones and behind those of the scenes before it.
pub fn merge_scenes(scenes: &Vec<LoadedScene>) -> (r: Vec<LevelNode>)
    requires
        mesh_base(scenes@, scenes@.len()) <= usize::MAX,
        forall|n: int| 0 <= n < scenes@.len() ==> meshes_in_range(#[trigger] scenes@[n]),
    ensures
        level_views(r@) == level_nodes(scenes@, scenes@.len()),
{
    let mut out: Vec<LevelNode> = Vec::new();
    let mut base: usize = MESH_BUILTIN_COUNT as usize;
    assert(level_views(out@) =~= seq![]);
    for n in 0..scenes.len()
        invariant
            mesh_base(scenes@, scenes@.len()) <= usize::MAX,
            forall|n: int| 0 <= n < scenes@.len() ==> meshes_in_range(#[trigger] scenes@[n]),
            base == mesh_base(scenes@, n as nat),
            level_views(out@) == level_nodes(scenes@, n as nat),
    {
        let s: &LoadedScene = &scenes[n];
        let ghost before = level_nodes(scenes@, n as nat);
        let ghost added = Seq::new(
            s.nodes@.len(),
            |i: int| rebased(s.nodes@[i]@, n as int, base as int),
        );
        proof {
            lemma_mesh_base_grows(scenes@, (n + 1) as nat, scenes@.len());
            assert(before + added.take(0) =~= before);
        }
        for i in 0..s.nodes.len()
            invariant
                meshes_in_range(*s),
                base + s.mesh_count <= usize::MAX,
                added == Seq::new(
                    s.nodes@.len(),
                    |i: int| rebased(s.nodes@[i]@, n as int, base as int),
                ),
                level_views(out@) == before + added.take(i as int),
        {
            let node: &SceneNode = &s.nodes[i];
            assert(s.nodes@[i as int] == *node);
            let mesh: Option<usize> = match node.mesh {
                Some(m) => Some(base + m),
                None => None,
            };
            let ghost old_views = level_views(out@);
            out.push(
                LevelNode { scene: n, visit: node.visit, mesh, prefab: copy_prefab(&node.prefab) },
            );
            proof {
                assert(out@.last()@ == added[i as int]);
                assert(level_views(out@) =~= old_views.push(added[i as int]));
                assert(level_views(out@) =~= before + added.take(i + 1));
            }
        }
        proof {
            assert(added.take(s.nodes@.len() as int) =~= added);
            assert(level_nodes(scenes@, (n + 1) as nat) =~= before + added);
        }
        base = base + s.mesh_count;
    }
    out
}

/// Every node that draws something draws a mesh of its own scene: past the
/// built-in meshes and before those of the next scene.
pub proof fn law_nodes_keep_to_their_scene(scenes: Seq<LoadedScene>, n: nat, i: int)
    requires
        n <= scenes.len(),
        forall|k: int| 0 <= k < scenes.len() ==> meshes_in_range(#[trigger] scenes[k]),
        0 <= i < level_nodes(scenes, n).len(),
    ensures
        ({
            let node = level_nodes(scenes, n)[i];
            &&& 0 <= node.scene < n
            &&& node.mesh matches Some(m) ==> {
                &&& m >= MESH_BUILTIN_COUNT
                &&& mesh_base(scenes, node.scene as nat) <= m < mesh_base(
                    scenes,
                    (node.scene + 1) as nat,
                )
            }
        }),
    decreases n,
{
    let before = level_nodes(scenes, (n - 1) as nat);
    if i < before.len() {
        assert(level_nodes(scenes, n)[i] == before[i]);
        law_nodes_keep_to_their_scene(scenes, (n - 1) as nat, i);
    } else {
        let s = scenes[n - 1];
        let j = i - before.len();
        assert(s.nodes@[j].mesh matches Some(m) ==> m < s.mesh_count);
        lemma_mesh_base_grows(scenes, 0, (n - 1) as nat);
        assert(level_nodes(scenes, n)[i] == rebased(
            s.nodes@[j]@,
            n - 1,
            mesh_base(scenes, (n - 1) as nat),
        ));
    }
}

/// Whether a prefab is the marker that places the player.
pub open spec fn is_start(p: Option<prefab::PrefabModel>) -> bool {
    match p {
        Some(s) => s.id == "player_start"@,
        None => false,
    }
}

fn has_id(p: &Option<PrefabSpec>, id: &str) -> (r: bool)
    ensures
        r == (match prefab::prefab_view(*p) {
            Some(s) => s.id == id@,
            None => false,
        }),
{
    match p {
        Some(s) => text::same(s.id.as_str(), id),
        None => false,
    }
}

/// Where the player starts: the first marker, and the way it faces in degrees
/// where it says so. A level without one has a start of its own.
pub fn player_start(nodes: &Vec<LevelNode>) -> (r: Option<(usize, Option<F64>)>)
    ensures
        match r {
            Some((i, yaw)) => {
                &&& i < nodes@.len()
                &&& is_start(nodes@[i as int]@.prefab)
                &&& yaw == nodes@[i as int]@.prefab->0.number("yaw"@)
                &&& forall|j: int| 0 <= j < i ==> !is_start((#[trigger] nodes@[j])@.prefab)
            },
            None => forall|j: int|
                0 <= j < nodes@.len() ==> !is_start((#[trigger] nodes@[j])@.prefab),
        },
        r matches Some((i, yaw)) ==> (nodes@[i as int].prefab matches Some(p) && p.id@
            == "player_start"@),
        forall|j: int|
            0 <= j < nodes@.len() && ((#[trigger] nodes@[j]).prefab matches Some(p) && p.id@
                == "player_start"@) ==> (r matches Some((i, _)) && i <= j),
{
    for i in 0..nodes.len()
        invariant
            forall|j: int| 0 <= j < i ==> !is_start((#[trigger] nodes@[j])@.prefab),
    {
        if has_id(&nodes[i].prefab, "player_start") {
            match &nodes[i].prefab {
                Some(s) => {
                    return Some((i, s.number("yaw")));
                },
                None => {},
            }
        }
    }
    None
}

/// 0.0, 0.1, 1.0, 10.0 and 12.0 as double precision bits.
pub const ZERO: u64 = 0;

pub const TENTH: u64 = 0x3fb9_9999_9999_999a;

pub const ONE: u64 = 0x3ff0_0000_0000_0000;

pub const TEN: u64 = 0x4024_0000_0000_0000;

pub const TWELVE: u64 = 0x4028_0000_0000_0000;

/// A light. It reaches exactly nothing at its radius; its source is the size of
/// what shines.
#[derive(Clone, Copy, PartialEq, Eq, Debug)]
pub struct PointLight {
    pub color: (F64, F64, F64),
    pub intensity: F64,
    pub radius: F64,
    pub source_radius: F64,
}

pub open spec fn number_or(p: prefab::PrefabModel, key: Seq<char>, bits: u64) -> F64 {
    match p.number(key) {
        Some(n) => n,
        None => F64 { bits },
    }
}

/// A number held between nothing and `top`, which counts as nothing where it is
/// below.
pub open spec fn held(x: F64, top: F64) -> F64 {
    let zero = F64 { bits: ZERO };
    let most = if top.nan() || top.below(zero) {
        zero
    } else {
        top
    };
    if x.below(zero) {
        zero
    } else if most.below(x) {
        most
    } else {
        x
    }
}

/// The light that a prefab describes. What it leaves out has a sane default, and
/// its source is no larger than its reach.
pub open spec fn light_of(p: prefab::PrefabModel) -> PointLight {
    let one = F64 { bits: ONE };
    PointLight {
        color: match p.triple("color"@) {
            Some(c) => c,
            None => (one, one, one),
        },
        intensity: number_or(p, "intensity"@, TWELVE),
        radius: number_or(p, "radius"@, TEN),
        source_radius: held(
            number_or(p, "source_radius"@, TENTH),
            number_or(p, "radius"@, TEN),
        ),
    }
}

fn hold(x: F64, top: F64) -> (r: F64)
    ensures
        r == held(x, top),
{
    let zero: F64 = F64 { bits: ZERO };
    let most: F64 = if top.is_nan() || top.is_below(zero) {
        zero
    } else {
        top
    };
    if x.is_below(zero) {
        zero
    } else if most.is_below(x) {
        most
    } else {
        x
    }
}

fn number_with_default(s: &PrefabSpec, key: &str, bits: u64) -> (r: F64)
    ensures
        r == number_or(s@, key@, bits),
{
    match s.number(key) {
        Some(n) => n,
        None => F64 { bits },
    }
}

fn read_light(s: &PrefabSpec) -> (r: PointLight)
    ensures
        r == light_of(s@),
{
    let one: F64 = F64 { bits: ONE };
    let radius: F64 = number_with_default(s, "radius", TEN);
    PointLight {
        color: match s.vec3("color") {
            Some(c) => c,
            None => (one, one, one),
        },
        intensity: number_with_default(s, "intensity", TWELVE),
        radius,
        source_radius: hold(number_with_default(s, "source_radius", TENTH), radius),
    }
}

/// What stands in for a mesh in the simulation, as a scene asks for it.
#[derive(Clone, Copy, PartialEq, Eq, Debug, Structural)]
pub enum ColliderChoice {
    /// Whatever suits the mesh.
    Auto,
    Mesh,
    Hull,
    Box,
    Nothing,
}

/// What stands in for a mesh in the simulation.
#[derive(Clone, Copy, PartialEq, Eq, Debug, Structural)]
pub enum ColliderShape {
    /// The mesh itself, triangle by triangle.
    Mesh,
    /// Its convex hull.
    Hull,
    /// Its bounds, turned with it.
    Box,
}

/// How many triangles a mesh may have to collide as it is, unless it is asked
/// for.
pub const TRIMESH_MAX_TRIS: usize = 2048;

/// The choice that a prefab makes by `collider`. One that is missing or not
/// known leaves it to the mesh.
pub open spec fn choice_of(p: prefab::PrefabModel) -> ColliderChoice {
    match p.text("collider"@) {
        Some(c) => if c == "mesh"@ {
            ColliderChoice::Mesh
        } else if c == "hull"@ {
            ColliderChoice::Hull
        } else if c == "box"@ {
            ColliderChoice::Box
        } else if c == "none"@ {
            ColliderChoice::Nothing
        } else {
            ColliderChoice::Auto
        },
        None => ColliderChoice::Auto,
    }
}

fn read_choice(s: &PrefabSpec) -> (r: ColliderChoice)
    ensures
        r == choice_of(s@),
{
    match s.str("collider") {
        Some(c) => if text::same(c, "mesh") {
            ColliderChoice::Mesh
        } else if text::same(c, "hull") {
            ColliderChoice::Hull
        } else if text::same(c, "box") {
            ColliderChoice::Box
        } else if text::same(c, "none") {
            ColliderChoice::Nothing
        } else {
            ColliderChoice::Auto
        },
        None => ColliderChoice::Auto,
    }
}

/// What is spawned for a node.
#[derive(Clone, Copy, PartialEq, Eq, Debug)]
pub struct Spawn {
    /// The mesh it draws; a marker draws nothing.
    pub mesh: Option<usize>,
    pub material: u32,
    /// Whether it stops the player. Only what draws something can.
    pub collide: bool,
    pub collider: ColliderChoice,
    /// Whether it is left out of the shadow maps.
    pub no_shadow: bool,
    pub light: Option<PointLight>,
}

pub open spec fn flag(p: prefab::PrefabModel, key: Seq<char>) -> bool {
    match p.truth(key) {
        Some(b) => b,
        None => true,
    }
}

/// Whether there is a way of its own to spawn a prefab.
pub open spec fn is_known(id: Seq<char>) -> bool {
    id == "prop"@ || id == "point_light"@
}

/// What a node becomes. The player's marker becomes nothing. A prefab that
/// nobody knows is drawn, collides and casts like a node without one.
pub open spec fn spawn_of(node: LevelNodeModel) -> Option<Spawn> {
    let mesh = match node.mesh {
        Some(m) => Some(m as usize),
        None => None,
    };
    let material = match node.mesh {
        Some(m) => (PALETTE + m) as u32,
        None => 0,
    };
    match node.prefab {
        Some(p) => if p.id == "player_start"@ {
            None
        } else if is_known(p.id) {
            Some(
                Spawn {
                    mesh,
                    material,
                    collide: node.mesh is Some && flag(p, "collide"@),
                    collider: choice_of(p),
                    no_shadow: node.mesh is Some && !flag(p, "shadow"@),
                    light: if p.id == "point_light"@ {
                        Some(light_of(p))
                    } else {
                        None
                    },
                },
            )
        } else {
            Some(
                Spawn {
                    mesh,
                    material,
                    collide: node.mesh is Some,
                    collider: ColliderChoice::Auto,
                    no_shadow: false,
                    light: None,
                },
            )
        },
        None => Some(
            Spawn {
                mesh,
                material,
                collide: node.mesh is Some,
                collider: ColliderChoice::Auto,
                no_shadow: false,
                light: None,
            },
        ),
    }
}

fn flag_of(s: &PrefabSpec, key: &str) -> (r: bool)
    ensures
        r == flag(s@, key@),
{
    match s.bool(key) {
        Some(b) => b,
        None => true,
    }
}

/// What a node becomes, if anything.
pub fn spawn(node: &LevelNode) -> (r: Option<Spawn>)
    requires
        node.mesh matches Some(m) ==> PALETTE + m <= u32::MAX,
    ensures
        r == spawn_of(node@),
{
    let mesh: Option<usize> = node.mesh;
    let visible: bool = mesh.is_some();
    let material: u32 = match mesh {
        Some(m) => PALETTE + m as u32,
        None => 0,
    };
    match &node.prefab {
        Some(s) => {
            if text::same(s.id.as_str(), "player_start") {
                return None;
            }
            let lamp: bool = text::same(s.id.as_str(), "point_light");
            if lamp || text::same(s.id.as_str(), "prop") {
                let light: Option<PointLight> = if lamp {
                    Some(read_light(s))
                } else {
                    None
                };
                return Some(
                    Spawn {
                        mesh,
                        material,
                        collide: visible && flag_of(s, "collide"),
                        collider: read_choice(s),
                        no_shadow: visible && !flag_of(s, "shadow"),
                        light,
                    },
                );
            }
        },
        None => {},
    }
    Some(
        Spawn {
            mesh,
            material,
            collide: visible,
            collider: ColliderChoice::Auto,
            no_shadow: false,
            light: None,
        },
    )
}

/// What collides for a mesh of some triangles, if anything does.
pub open spec fn shape_of(s: Spawn, tris: int) -> Option<ColliderShape> {
    if !s.collide {
        None
    } else {
        match s.collider {
            ColliderChoice::Mesh => Some(ColliderShape::Mesh),
            ColliderChoice::Hull => Some(ColliderShape::Hull),
            ColliderChoice::Box => Some(ColliderShape::Box),
            ColliderChoice::Nothing => None,
            ColliderChoice::Auto => if tris <= TRIMESH_MAX_TRIS {
                Some(ColliderShape::Mesh)
            } else {
                Some(ColliderShape::Hull)
            },
        }
    }
}

impl Spawn {
    /// What collides for its mesh of some triangles, if anything does.
    pub fn shape(&self, tris: usize) -> (r: Option<ColliderShape>)
        ensures
            r == shape_of(*self, tris as int),
    {
        if !self.collide {
            return None;
        }
        match self.collider {
            ColliderChoice::Mesh => Some(ColliderShape::Mesh),
            ColliderChoice::Hull => Some(ColliderShape::Hull),
            ColliderChoice::Box => Some(ColliderShape::Box),
            ColliderChoice::Nothing => None,
            ColliderChoice::Auto => if tris <= TRIMESH_MAX_TRIS {
                Some(ColliderShape::Mesh)
            } else {
                Some(ColliderShape::Hull)
            },
        }
    }
}

/// The prefabs among the first `n` nodes that nobody knows, each once.
pub open spec fn unknown_of(nodes: Seq<LevelNodeModel>, n: nat) -> Seq<Seq<char>>
    decreases n,
{
    if n == 0 {
        seq![]
    } else {
        let so_far = unknown_of(nodes, (n - 1) as nat);
        match nodes[n - 1].prefab {
            Some(p) => if p.id == "player_start"@ || is_known(p.id) || so_far.contains(p.id) {
                so_far
            } else {
                so_far.push(p.id)
            },
            None => so_far,
        }
    }
}

/// The prefabs that nobody knows, in the order in which they are met.
pub fn unknown_prefabs(nodes: &Vec<LevelNode>) -> (r: Vec<String>)
    ensures
        config::string_views(r@) == unknown_of(level_views(nodes@), nodes@.len()),
{
    let mut out: Vec<String> = Vec::new();
    assert(config::string_views(out@) =~= seq![]);
    for i in 0..nodes.len()
        invariant
            config::string_views(out@) == unknown_of(level_views(nodes@), i as nat),
    {
        assert(level_views(nodes@)[i as int] == nodes@[i as int]@);
        match &nodes[i].prefab {
            Some(s) => {
                let id: &str = s.id.as_str();
                if !text::same(id, "player_start") && !text::same(id, "prop") && !text::same(
                    id,
                    "point_light",
                ) && !holds(&out, id) {
                    let ghost before = out@;
                    out.push(String::from_str(id));
                    assert(config::string_views(out@) =~= config::string_views(before).push(id@));
                }
            },
            None => {},
        }
    }
    out
}

fn holds(v: &Vec<String>, t: &str) -> (r: bool)
    ensures
        r == config::string_views(v@).contains(t@),
{
    for i in 0..v.len()
        invariant
            forall|j: int| 0 <= j < i ==> (#[trigger] v@[j])@ != t@,
    {
        if text::same(v[i].as_str(), t) {
            assert(config::string_views(v@)[i as int] == t@);
            return true;
        }
    }
    proof {
        if config::string_views(v@).contains(t@) {
            let j = choose|j: int|
                0 <= j < config::string_views(v@).len() && config::string_views(v@)[j] == t@;
            assert(v@[j]@ == t@);
        }
    }
    false
}

/// Scenes can be written ahead of the prefabs they name: a node is never lost
/// for naming one that nobody knows.
pub proof fn law_unknown_prefabs_are_drawn(node: LevelNodeModel)
    requires
        node.prefab matches Some(p) ==> p.id != "player_start"@ && !is_known(p.id),
    ensures
        spawn_of(node) == spawn_of(LevelNodeModel { prefab: None, ..node }),
        spawn_of(node) is Some,
{
}

/// The two switches of a prefab do not touch each other, nor the light, and a
/// lamp obeys them as any prop does.
pub proof fn law_switches_are_independent(node: LevelNodeModel, p: prefab::PrefabModel)
    requires
        node.prefab == Some(p),
        p.id == "prop"@ || p.id == "point_light"@,
        node.mesh is Some,
    ensures
        spawn_of(node) is Some,
        spawn_of(node)->0.collide == flag(p, "collide"@),
        spawn_of(node)->0.no_shadow == !flag(p, "shadow"@),
        spawn_of(node)->0.light is Some <==> p.id == "point_light"@,
{
    reveal_strlit("prop");
    reveal_strlit("player_start");
    reveal_strlit("point_light");
    assert("prop"@.len() != "player_start"@.len());
    assert("point_light"@.len() != "player_start"@.len());
}

/// `collide: false` wins over whatever `collider` asks for. Otherwise what is
/// asked for collides; and where nothing is asked for, a mesh collides as it is
/// up to the limit, and as its hull above.
pub proof fn law_colliders_follow_the_prefab(
    node: LevelNodeModel,
    p: prefab::PrefabModel,
    tris: int,
)
    requires
        node.prefab == Some(p),
        is_known(p.id),
        node.mesh is Some,
    ensures
        spawn_of(node) is Some,
        p.truth("collide"@) == Some(false) ==> shape_of(spawn_of(node)->0, tris) is None,
        p.truth("collide"@) != Some(false) && p.text("collider"@) is None ==> shape_of(
            spawn_of(node)->0,
            tris,
        ) == Some(
            if tris <= TRIMESH_MAX_TRIS {
                ColliderShape::Mesh
            } else {
                ColliderShape::Hull
            },
        ),
        p.truth("collide"@) != Some(false) ==> {
            let shape = shape_of(spawn_of(node)->0, tris);
            &&& p.text("collider"@) == Some("mesh"@) ==> shape == Some(ColliderShape::Mesh)
            &&& p.text("collider"@) == Some("hull"@) ==> shape == Some(ColliderShape::Hull)
            &&& p.text("collider"@) == Some("box"@) ==> shape == Some(ColliderShape::Box)
            &&& p.text("collider"@) == Some("none"@) ==> shape is None
        },
{
    reveal_strlit("mesh");
    reveal_strlit("hull");
    reveal_strlit("box");
    reveal_strlit("none");
    assert("mesh"@[0] == 'm' && "hull"@[0] == 'h' && "box"@[0] == 'b' && "none"@[0] == 'n');
    reveal_strlit("prop");
    reveal_strlit("player_start");
    reveal_strlit("point_light");
    assert("prop"@.len() != "player_start"@.len());
    assert("point_light"@.len() != "player_start"@.len());
}

/// A light's source is never below nothing nor larger than its reach.
pub proof fn law_light_sources_fit(p: prefab::PrefabModel)
    requires
        !number_or(p, "source_radius"@, TENTH).nan(),
        !number_or(p, "radius"@, TEN).nan(),
    ensures
        !light_of(p).source_radius.below(F64 { bits: ZERO }),
        !light_of(p).radius.below(F64 { bits: ZERO }) ==> !light_of(p).radius.below(
            light_of(p).source_radius,
        ),
{
}

/// A texture of a scene, in the list of the textures of all scenes.
pub open spec fn rebased_texture(texture: Option<usize>, base: usize) -> Option<usize> {
    match texture {
        Some(t) => Some((base + t) as usize),
        None => None,
    }
}

fn rebase_texture(texture: Option<usize>, base: usize) -> (r: Option<usize>)
    requires
        texture matches Some(t) ==> base + t <= usize::MAX,
    ensures
        r == rebased_texture(texture, base),
{
    match texture {
        Some(t) => Some(base + t),
        None => None,
    }
}

/// A material of a scene whose textures start at `base` in the list of the
/// textures of all scenes.
pub fn rebase_material(m: &Material, base: usize) -> (r: Material)
    requires
        m.base_color_texture matches Some(t) ==> base + t <= usize::MAX,
        m.normal_texture matches Some(t) ==> base + t <= usize::MAX,
        m.metallic_roughness_texture matches Some(t) ==> base + t <= usize::MAX,
    ensures
        r == (Material {
            base_color_texture: rebased_texture(m.base_color_texture, base),
            normal_texture: rebased_texture(m.normal_texture, base),
            metallic_roughness_texture: rebased_texture(m.metallic_roughness_texture, base),
            ..*m
        }),
        r.base_color == m.base_color,
        r.metallic == m.metallic,
        r.roughness == m.roughness,
        r.emissive == m.emissive,
        r.normal_scale == m.normal_scale,
        r.base_color_texture is Some <==> m.base_color_texture is Some,
        r.normal_texture is Some <==> m.normal_texture is Some,
        r.metallic_roughness_texture is Some <==> m.metallic_roughness_texture is Some,
        m.base_color_texture matches Some(t) ==> r.base_color_texture->0 == base + t,
        m.normal_texture matches Some(t) ==> r.normal_texture->0 == base + t,
        m.metallic_roughness_texture matches Some(t) ==> r.metallic_roughness_texture->0 == base
            + t,
{
    Material {
        base_color: m.base_color,
        metallic: m.metallic,
        roughness: m.roughness,
        emissive: m.emissive,
        normal_scale: m.normal_scale,
        base_color_texture: rebase_texture(m.base_color_texture, base),
        normal_texture: rebase_texture(m.normal_texture, base),
        metallic_roughness_texture: rebase_texture(m.metallic_roughness_texture, base),
    }
}

/// The materials of a level, and where those of its built-in pieces stand.
#[derive(Debug)]
pub struct MaterialTable {
    pub materials: Vec<Material>,
    pub ground: u32,
    pub boxes: u32,
}

/// The shared palette first, then the material of each mesh, then those of the
/// ground and of the boxes.
pub open spec fn table_of(
    palette: Seq<Material>,
    meshes: Seq<MeshData>,
    ground: Material,
    boxes: Material,
) -> Seq<Material> {
    palette + Seq::new(meshes.len(), |i: int| meshes[i].material) + seq![ground, boxes]
}

pub fn material_table(
    palette: Vec<Material>,
    meshes: &Vec<MeshData>,
    ground: Material,
    boxes: Material,
) -> (r: MaterialTable)
    requires
        palette@.len() == PALETTE,
        PALETTE + meshes@.len() + 2 <= u32::MAX,
    ensures
        r.materials@ == table_of(palette@, meshes@, ground, boxes),
        r.ground == PALETTE + meshes@.len(),
        r.boxes == PALETTE + meshes@.len() + 1,
        r.materials@.len() == palette@.len() + meshes@.len() + 2,
        forall|k: int| 0 <= k < palette@.len() ==> #[trigger] r.materials@[k] == palette@[k],
        forall|i: int|
            0 <= i < meshes@.len() ==> (#[trigger] meshes@[i]).material == r.materials@[24 + i],
        r.materials@[r.ground as int] == ground,
        r.materials@[r.boxes as int] == boxes,
{
    let mut materials: Vec<Material> = palette;
    let n: usize = meshes.len();
    for i in 0..n
        invariant
            n == meshes@.len(),
            materials@ == palette@ + Seq::new(i as nat, |j: int| meshes@[j].material),
    {
        materials.push(meshes[i].material);
        assert(materials@ =~= palette@ + Seq::new((i + 1) as nat, |j: int| meshes@[j].material));
    }
    materials.push(ground);
    materials.push(boxes);
    assert(materials@ =~= table_of(palette@, meshes@, ground, boxes));
    MaterialTable { materials, ground: PALETTE + n as u32, boxes: PALETTE + n as u32 + 1 }
}

/// What is spawned for a node is drawn with the material of the node's mesh.
pub proof fn law_meshes_keep_their_materials(
    node: LevelNodeModel,
    palette: Seq<Material>,
    meshes: Seq<MeshData>,
    ground: Material,
    boxes: Material,
)
    requires
        palette.len() == PALETTE,
        PALETTE + meshes.len() + 2 <= u32::MAX,
        node.mesh matches Some(m) && 0 <= m < meshes.len(),
    ensures
        spawn_of(node) matches Some(s) ==> table_of(palette, meshes, ground, boxes)[s.material as int]
            == meshes[node.mesh->0].material,
{
}

/// Nodes of the scenes before scene `n`.
pub open spec fn nodes_before(scenes: Seq<LoadedScene>, n: nat) -> nat
    decreases n,
{
    if n == 0 {
        0
    } else {
        nodes_before(scenes, (n - 1) as nat) + scenes[n - 1].nodes@.len()
    }
}

/// Meshes of the scenes before scene `n`, behind the three built-in ones.
pub open spec fn meshes_before(scenes: Seq<LoadedScene>, n: nat) -> nat
    decreases n,
{
    if n == 0 {
        3
    } else {
        meshes_before(scenes, (n - 1) as nat) + scenes[n - 1].mesh_count as nat
    }
}

proof fn lemma_meshes_before(scenes: Seq<LoadedScene>, n: nat)
    ensures
        mesh_base(scenes, n) == meshes_before(scenes, n),
    decreases n,
{
    if n > 0 {
        lemma_meshes_before(scenes, (n - 1) as nat);
    }
}

proof fn lemma_nodes_before(scenes: Seq<LoadedScene>, n: nat)
    ensures
        level_nodes(scenes, n).len() == nodes_before(scenes, n),
    decreases n,
{
    if n > 0 {
        lemma_nodes_before(scenes, (n - 1) as nat);
    }
}

/// Every node of every scene is in the level, in order, as it was: only its mesh
/// is counted from behind the meshes that come before its scene's.
pub proof fn law_levels_hold_every_node(scenes: Seq<LoadedScene>, n: nat, k: int, i: int)
    requires
        0 <= k < n <= scenes.len(),
        0 <= i < scenes[k].nodes@.len(),
    ensures
        level_nodes(scenes, n).len() == nodes_before(scenes, n),
        ({
            let at = nodes_before(scenes, k as nat) + i;
            let node = level_nodes(scenes, n)[at];
            let own = scenes[k].nodes@[i]@;
            &&& at < level_nodes(scenes, n).len()
            &&& node.scene == k
            &&& node.visit == own.visit
            &&& node.prefab == own.prefab
            &&& node.mesh is Some <==> own.mesh is Some
            &&& own.mesh matches Some(m) ==> node.mesh->0 == meshes_before(scenes, k as nat) + m
        }),
    decreases n,
{
    lemma_nodes_before(scenes, n);
    lemma_nodes_before(scenes, (n - 1) as nat);
    lemma_meshes_before(scenes, k as nat);
    let at = nodes_before(scenes, k as nat) + i;
    if k < n - 1 {
        law_levels_hold_every_node(scenes, (n - 1) as nat, k, i);
        assert(level_nodes(scenes, n)[at] == level_nodes(scenes, (n - 1) as nat)[at]);
    }
}

/// A light has what its prefab says, and what it leaves out is white, of
/// intensity 12, reach 10 and size 0.1. Its size is kept where it is neither
/// below nothing nor past its reach, and moved to the nearer of the two where
/// it is.
pub proof fn law_lights_are_what_prefabs_say(p: prefab::PrefabModel, s: F64, reach: F64)
    ensures
        p.triple("color"@) matches Some(c) ==> light_of(p).color == c,
        p.triple("color"@) is None ==> light_of(p).color.0.bits == 0x3ff0_0000_0000_0000
            && light_of(p).color.1.bits == 0x3ff0_0000_0000_0000 && light_of(p).color.2.bits
            == 0x3ff0_0000_0000_0000,
        p.number("intensity"@) matches Some(x) ==> light_of(p).intensity == x,
        p.number("intensity"@) is None ==> light_of(p).intensity.bits == 0x4028_0000_0000_0000,
        p.number("radius"@) matches Some(x) ==> light_of(p).radius == x,
        p.number("radius"@) is None ==> light_of(p).radius.bits == 0x4024_0000_0000_0000,
        p.number("source_radius"@) is None && p.number("radius"@) is None ==> light_of(
            p,
        ).source_radius.bits == 0x3fb9_9999_9999_999a,
        p.number("source_radius"@) == Some(s) && p.number("radius"@) == Some(reach) && !s.nan()
            && !reach.nan() && !reach.below(F64 { bits: 0 }) ==> {
            let size = light_of(p).source_radius;
            &&& s.below(F64 { bits: 0 }) ==> size.bits == 0
            &&& reach.below(s) ==> size == reach
            &&& !s.below(F64 { bits: 0 }) && !reach.below(s) ==> size == s
        },
{
}

/// Only the player's marker becomes nothing. Anything else draws its node's
/// mesh, if it has one, with the material that stands for that mesh.
pub proof fn law_nodes_become_what_they_draw(node: LevelNodeModel)
    requires
        node.mesh matches Some(m) ==> 0 <= m && 24 + m <= u32::MAX,
    ensures
        spawn_of(node) is None <==> (node.prefab matches Some(p) && p.id == "player_start"@),
        spawn_of(node) matches Some(s) ==> {
            &&& s.mesh is Some <==> node.mesh is Some
            &&& node.mesh matches Some(m) ==> s.mesh->0 == m && s.material == 24 + m
            &&& node.mesh is None ==> !s.collide && !s.no_shadow
        },
{
}

/// A node with a mesh stops the player and casts a shadow unless its prefab is
/// one that can say otherwise and does.
pub proof fn law_nodes_stop_and_cast_by_default(node: LevelNodeModel)
    requires
        node.mesh is Some,
    ensures
        node.prefab is None ==> (spawn_of(node) matches Some(s) && s.collide && !s.no_shadow
            && s.light is None && s.collider is Auto),
        node.prefab matches Some(p) ==> (spawn_of(node) matches Some(s) ==> {
            let asked = p.id == "prop"@ || p.id == "point_light"@;
            &&& s.collide <==> !(asked && p.truth("collide"@) == Some(false))
            &&& s.no_shadow <==> asked && p.truth("shadow"@) == Some(false)
            &&& s.light is Some <==> p.id == "point_light"@
            &&& s.light matches Some(l) ==> l == light_of(p)
            &&& s.collider !is Auto ==> asked
        }),
{
    reveal_strlit("prop");
    reveal_strlit("player_start");
    reveal_strlit("point_light");
    assert("prop"@.len() != "player_start"@.len());
    assert("point_light"@.len() != "player_start"@.len());
    assert("prop"@.len() != "point_light"@.len());
}

/// A mesh that is left to itself collides as it is up to 2048 triangles. Words
/// that ask for no collider there is leave it to itself.
pub proof fn law_other_colliders_are_left_to_the_mesh(p: prefab::PrefabModel, s: Spawn, tris: int)
    ensures
        p.text("collider"@) is None ==> choice_of(p) is Auto,
        p.text("collider"@) matches Some(c) ==> c != "mesh"@ && c != "hull"@ && c != "box"@ && c
            != "none"@ ==> choice_of(p) is Auto,
        s.collide && s.collider is Auto ==> (shape_of(s, tris) == Some(ColliderShape::Mesh) <==> tris
            <= 2048),
        s.collide && s.collider is Auto ==> (shape_of(s, tris) == Some(ColliderShape::Hull) <==> tris
            > 2048),
        !s.collide ==> shape_of(s, tris) is None,
{
}

/// Whether one of the first `n` nodes names a prefab that nobody knows.
pub open spec fn is_unknown(nodes: Seq<LevelNodeModel>, n: nat, id: Seq<char>) -> bool {
    exists|i: int|
        0 <= i < n && ((#[trigger] nodes[i]).prefab matches Some(p) && p.id == id && id
            != "player_start"@ && id != "prop"@ && id != "point_light"@)
}

/// The prefabs that nobody knows are all listed, each once, and no others.
pub proof fn law_unknown_prefabs_are_listed_once(
    nodes: Seq<LevelNodeModel>,
    n: nat,
    id: Seq<char>,
)
    ensures
        unknown_of(nodes, n).contains(id) <==> is_unknown(nodes, n, id),
        unknown_of(nodes, n).no_duplicates(),
    decreases n,
{
    if n > 0 {
        let k = (n - 1) as nat;
        law_unknown_prefabs_are_listed_once(nodes, k, id);
        let (less, all) = (unknown_of(nodes, k), unknown_of(nodes, n));
        let last = nodes[n - 1];
        if less.contains(id) {
            let j = choose|j: int| 0 <= j < less.len() && less[j] == id;
            assert(all[j] == id);
            let i = choose|i: int|
                0 <= i < k && ((#[trigger] nodes[i]).prefab matches Some(p) && p.id == id && id
                    != "player_start"@ && id != "prop"@ && id != "point_light"@);
            assert(nodes[i].prefab matches Some(p) && p.id == id);
        }
        if all.contains(id) && !less.contains(id) {
            let j = choose|j: int| 0 <= j < all.len() && all[j] == id;
            assert(j < less.len() ==> less[j] == id);
            assert(all.last() == id);
            assert(last.prefab matches Some(p) && p.id == id);
        }
        if is_unknown(nodes, n, id) && !less.contains(id) {
            let i = choose|i: int|
                0 <= i < n && ((#[trigger] nodes[i]).prefab matches Some(p) && p.id == id && id
                    != "player_start"@ && id != "prop"@ && id != "point_light"@);
            assert(i < k ==> is_unknown(nodes, k, id));
            assert(all == less.push(id));
            assert(all.last() == id);
        }
    }
}

/// What is said of the nodes of a level is said of each of them, in order.
pub proof fn law_nodes_are_seen_whole(nodes: Seq<LevelNode>, i: int)
    ensures
        level_views(nodes).len() == nodes.len(),
        0 <= i < nodes.len() ==> {
            let v = level_views(nodes)[i];
            &&& v.scene == nodes[i].scene
            &&& v.visit == nodes[i].visit
            &&& v.mesh is Some <==> nodes[i].mesh is Some
            &&& nodes[i].mesh matches Some(m) ==> v.mesh->0 == m
            &&& v.prefab == prefab::prefab_view(nodes[i].prefab)
        },
{
}

/// The prefabs that nobody knows are listed in the order in which they are met.
pub proof fn law_unknown_prefabs_are_listed_in_order(nodes: Seq<LevelNodeModel>, n: nat)
    ensures
        unknown_of(nodes, n).len() <= unknown_of(nodes, n + 1).len() <= unknown_of(nodes, n).len()
            + 1,
        unknown_of(nodes, n + 1).take(unknown_of(nodes, n).len() as int) == unknown_of(nodes, n),
        unknown_of(nodes, 0).len() == 0,
{
    let less = unknown_of(nodes, n);
    assert(unknown_of(nodes, n + 1).take(less.len() as int) =~= less);
}

} // verus!
