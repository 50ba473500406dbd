//! Which glTF mesh primitives a scene instantiates, in scene order: the node path of each
//! instance, its name, its parent mesh, and the skeleton it is bound to.
use vstd::prelude::*;

use crate::gltf_scene::joint_of_node;
use crate::text::{decimal, decimal_string, push_str};

verus! {

/// A node of a glTF scene graph as plain values: its child nodes, the mesh it instantiates and
/// the skin bound to that mesh, when it has them.
pub struct SceneNode {
    pub children: Vec<usize>,
    pub mesh: Option<usize>,
    pub skin: Option<usize>,
}

/// A mesh of a glTF document as plain values: its name, when it has one, and for each of its
/// primitives whether the primitive converts (it has positions).
pub struct MeshInfo {
    pub name: Option<String>,
    pub usable: Vec<bool>,
}

/// How a mesh instance follows a skeleton.
#[derive(Clone, Copy, Debug, PartialEq, Eq, Structural)]
pub enum MeshBinding {
    /// Skinned by its own vertex weights to the skeleton of this skin.
    Skinned(usize),
    /// Attached rigidly to this joint of this skeleton, the nearest joint among its node and
    /// the node's ancestors.
    Rigid(usize, usize),
    /// Not bound to any skeleton.
    Free,
}

/// One mesh instance: the primitive `primitive` of mesh `mesh`, reached through the nodes of
/// `path` (from a scene root to the node that holds the mesh); its name, the index of its
/// parent instance among all instances, and its binding.
pub struct MeshPlan {
    pub node: usize,
    pub mesh: usize,
    pub primitive: usize,
    pub name: String,
    pub parent_index: Option<usize>,
    pub binding: MeshBinding,
    pub path: Vec<usize>,
}

/// A mesh instance as plain values.
pub struct PlanSpec {
    pub node: usize,
    pub mesh: usize,
    pub primitive: usize,
    pub name: Seq<char>,
    pub parent_index: Option<usize>,
    pub binding: MeshBinding,
    pub path: Seq<usize>,
}

/// A mesh instance as plain values.
pub open spec fn plan_view(p: MeshPlan) -> PlanSpec {
    PlanSpec {
        node: p.node,
        mesh: p.mesh,
        primitive: p.primitive,
        name: p.name@,
        parent_index: p.parent_index,
        binding: p.binding,
        path: p.path@,
    }
}

/// Mesh instances as plain values.
pub open spec fn plan_views(ps: Seq<MeshPlan>) -> Seq<PlanSpec> {
    ps.map_values(|p: MeshPlan| plan_view(p))
}

/// The child lists of the nodes.
pub open spec fn child_lists(nodes: Seq<SceneNode>) -> Seq<Seq<usize>> {
    nodes.map_values(|n: SceneNode| n.children@)
}

/// Every node reachable from `v` lies within `fuel` levels of it: `v` is a node, and, with
/// one level less, so is every node below each of its children. Holds from every node of a
/// graph without cycles for a fuel of the node count.
pub open spec fn levels_below(ch: Seq<Seq<usize>>, v: int, fuel: nat) -> bool
    decreases fuel,
{
    &&& fuel > 0
    &&& 0 <= v < ch.len()
    &&& forall|k: int| 0 <= k < ch[v].len() ==> levels_below(ch, #[trigger] ch[v][k] as int, (fuel - 1) as nat)
}

/// The name of primitive `p` of mesh `m`: the mesh's name, or `mesh_` and its index, followed
/// by `.` and the primitive's index when the mesh has more than one primitive.
pub open spec fn primitive_name(name: Option<String>, m: nat, count: nat, p: nat) -> Seq<char> {
    let base = match name {
        Some(t) => t@,
        None => "mesh_"@ + decimal(m),
    };
    if count > 1 {
        base + "."@ + decimal(p)
    } else {
        base
    }
}

/// The binding of a mesh on a node with skin `skin` whose nearest joint is `joint`.
pub open spec fn binding_of(skin: Option<usize>, joint: Option<(usize, usize)>) -> MeshBinding {
    match skin {
        Some(s) => MeshBinding::Skinned(s),
        None => match joint {
            Some((s, j)) => MeshBinding::Rigid(s, j),
            None => MeshBinding::Free,
        },
    }
}

/// The instances the first `k` primitives of mesh `m` give on node `v` reached through
/// `path`: one per usable primitive, the first with parent `parent`, the others with parent
/// `base` (the index the first takes).
pub open spec fn primitive_plans(
    info: MeshInfo,
    m: usize,
    v: usize,
    path: Seq<usize>,
    binding: MeshBinding,
    parent: Option<usize>,
    base: nat,
    k: nat,
) -> Seq<PlanSpec>
    decreases k,
{
    if k == 0 {
        Seq::empty()
    } else {
        let prev = primitive_plans(info, m, v, path, binding, parent, base, (k - 1) as nat);
        if k - 1 < info.usable@.len() && info.usable@[k - 1] {
            prev.push(
                PlanSpec {
                    node: v,
                    mesh: m,
                    primitive: (k - 1) as usize,
                    name: primitive_name(info.name, m as nat, info.usable@.len(), (k - 1) as nat),
                    parent_index: if prev.len() == 0 {
                        parent
                    } else {
                        Some(base as usize)
                    },
                    binding,
                    path,
                },
            )
        } else {
            prev
        }
    }
}

/// The instances node `v` itself gives, reached through `path` with nearest joint `joint`,
/// when `acc` instances came before.
pub open spec fn node_plans(
    nodes: Seq<SceneNode>,
    meshes: Seq<MeshInfo>,
    v: int,
    path: Seq<usize>,
    parent: Option<usize>,
    joint: Option<(usize, usize)>,
    base: nat,
) -> Seq<PlanSpec> {
    match nodes[v].mesh {
        Some(m) => if m < meshes.len() {
            primitive_plans(
                meshes[m as int],
                m,
                v as usize,
                path,
                binding_of(nodes[v].skin, joint),
                parent,
                base,
                meshes[m as int].usable@.len(),
            )
        } else {
            Seq::empty()
        },
        None => Seq::empty(),
    }
}

/// The instances of the walk from node `v`, after `acc`: `v` reached through `path` (which
/// ends at `v`) with parent instance `parent` and inherited joint `joint` gives its own
/// instances (see [`node_plans`]), its nearest joint being itself when it is a joint; then
/// each of its children is walked in order, with the first instance of `v` as parent when
/// it has one.
pub open spec fn walk(
    nodes: Seq<SceneNode>,
    meshes: Seq<MeshInfo>,
    lookup: Seq<(usize, usize, usize)>,
    v: int,
    path: Seq<usize>,
    parent: Option<usize>,
    joint: Option<(usize, usize)>,
    acc: Seq<PlanSpec>,
    fuel: nat,
) -> Seq<PlanSpec>
    decreases fuel, 0int, 0int,
{
    if fuel == 0 || v < 0 || v >= nodes.len() {
        acc
    } else {
        let here_joint = match joint_of_node(lookup, v as usize, lookup.len()) {
            Some(j) => Some(j),
            None => joint,
        };
        let here = node_plans(nodes, meshes, v, path, parent, here_joint, acc.len());
        let child_parent = if here.len() > 0 {
            Some(acc.len() as usize)
        } else {
            parent
        };
        walk_children(nodes, meshes, lookup, v, 0, path, child_parent, here_joint, acc + here, (fuel - 1) as nat)
    }
}

/// The walks of the children of `v` from its `k`-th on, in turn.
pub open spec fn walk_children(
    nodes: Seq<SceneNode>,
    meshes: Seq<MeshInfo>,
    lookup: Seq<(usize, usize, usize)>,
    v: int,
    k: int,
    path: Seq<usize>,
    parent: Option<usize>,
    joint: Option<(usize, usize)>,
    acc: Seq<PlanSpec>,
    fuel: nat,
) -> Seq<PlanSpec>
    decreases fuel, 1int, if 0 <= v < nodes.len() { nodes[v].children@.len() - k } else { 0 },
{
    if v < 0 || v >= nodes.len() || k < 0 || k >= nodes[v].children@.len() {
        acc
    } else {
        let c = nodes[v].children@[k];
        let acc1 = walk(nodes, meshes, lookup, c as int, path.push(c), parent, joint, acc, fuel);
        walk_children(nodes, meshes, lookup, v, k + 1, path, parent, joint, acc1, fuel)
    }
}

/// The instances of the walks from the roots `roots[0..k]`, in turn.
pub open spec fn roots_plans(
    nodes: Seq<SceneNode>,
    meshes: Seq<MeshInfo>,
    lookup: Seq<(usize, usize, usize)>,
    roots: Seq<usize>,
    k: nat,
) -> Seq<PlanSpec>
    decreases k,
{
    if k == 0 {
        Seq::empty()
    } else {
        let prev = roots_plans(nodes, meshes, lookup, roots, (k - 1) as nat);
        let r = roots[k - 1];
        walk(nodes, meshes, lookup, r as int, seq![r], None, None, prev, nodes.len())
    }
}

fn mesh_name(name: &Option<String>, m: usize, count: usize, p: usize) -> (r: String)
    ensures
        r@ == primitive_name(*name, m as nat, count as nat, p as nat),
{
    let mut s = match name {
        Some(t) => t.clone(),
        None => {
            let mut s = String::new();
            push_str(&mut s, "mesh_");
            let d = decimal_string(m);
            push_str(&mut s, d.as_str());
            s
        },
    };
    if count > 1 {
        push_str(&mut s, ".");
        let d = decimal_string(p);
        push_str(&mut s, d.as_str());
    }
    s
}

fn copy_path(path: &Vec<usize>) -> (r: Vec<usize>)
    ensures
        r@ == path@,
{
    let mut r: Vec<usize> = Vec::new();
    let mut k: usize = 0;
    while k < path.len()
        invariant
            k <= path@.len(),
            r@ == path@.subrange(0, k as int),
        decreases path@.len() - k,
    {
        r.push(path[k]);
        assert(r@ =~= path@.subrange(0, k + 1));
        k = k + 1;
    }
    assert(path@.subrange(0, path@.len() as int) =~= path@);
    r
}

fn nearest_joint(lookup: &[(usize, usize, usize)], node: usize) -> (r: Option<(usize, usize)>)
    ensures
        r == joint_of_node(lookup@, node, lookup@.len()),
{
    let mut k = lookup.len();
    while k > 0
        invariant
            k <= lookup@.len(),
            joint_of_node(lookup@, node, lookup@.len()) == joint_of_node(lookup@, node, k as nat),
        decreases k,
    {
        if lookup[k - 1].0 == node {
            return Some((lookup[k - 1].1, lookup[k - 1].2));
        }
        k = k - 1;
    }
    None
}

fn push_node_plans(
    nodes: &[SceneNode],
    meshes: &[MeshInfo],
    v: usize,
    path: &Vec<usize>,
    parent: Option<usize>,
    joint: Option<(usize, usize)>,
    out: &mut Vec<MeshPlan>,
)
    requires
        v < nodes@.len(),
    ensures
        plan_views(final(out)@) == plan_views(old(out)@) + node_plans(
            nodes@,
            meshes@,
            v as int,
            path@,
            parent,
            joint,
            old(out)@.len(),
        ),
{
    let ghost start = plan_views(out@);
    let base = out.len();
    match nodes[v].mesh {
        Some(m) => {
            if m < meshes.len() {
                let info = &meshes[m];
                let binding = match nodes[v].skin {
                    Some(s) => MeshBinding::Skinned(s),
                    None => match joint {
                        Some((s, j)) => MeshBinding::Rigid(s, j),
                        None => MeshBinding::Free,
                    },
                };
                assert(binding == binding_of(nodes@[v as int].skin, joint));
                let count = info.usable.len();
                let mut k: usize = 0;
                while k < count
                    invariant
                        k <= count,
                        count == info.usable@.len(),
                        base == start.len(),
                        plan_views(out@) == start + primitive_plans(
                            *info,
                            m,
                            v,
                            path@,
                            binding,
                            parent,
                            base as nat,
                            k as nat,
                        ),
                    decreases count - k,
                {
                    if info.usable[k] {
                        let ghost prev = primitive_plans(*info, m, v, path@, binding, parent, base as nat, k as nat);
                        let parent_index = if out.len() == base {
                            parent
                        } else {
                            Some(base)
                        };
                        let plan = MeshPlan {
                            node: v,
                            mesh: m,
                            primitive: k,
                            name: mesh_name(&info.name, m, count, k),
                            parent_index,
                            binding,
                            path: copy_path(path),
                        };
                        let ghost before = out@;
                        out.push(plan);
                        assert(plan_views(out@) =~= plan_views(before).push(plan_view(plan)));
                        assert(plan_views(out@) =~= start + prev.push(plan_view(plan)));
                    }
                    k = k + 1;
                }
            } else {
                assert(plan_views(out@) =~= start + Seq::<PlanSpec>::empty());
            }
        },
        None => {
            assert(plan_views(out@) =~= start + Seq::<PlanSpec>::empty());
        },
    }
}

fn walk_node(
    nodes: &[SceneNode],
    meshes: &[MeshInfo],
    lookup: &[(usize, usize, usize)],
    v: usize,
    path: &Vec<usize>,
    parent: Option<usize>,
    joint: Option<(usize, usize)>,
    out: &mut Vec<MeshPlan>,
    Ghost(fuel): Ghost<nat>,
)
    requires
        levels_below(child_lists(nodes@), v as int, fuel),
        child_lists(nodes@).len() == nodes@.len(),
    ensures
        plan_views(final(out)@) == walk(
            nodes@,
            meshes@,
            lookup@,
            v as int,
            path@,
            parent,
            joint,
            plan_views(old(out)@),
            fuel,
        ),
    decreases fuel,
{
    let ghost ch = child_lists(nodes@);
    let ghost acc0 = plan_views(out@);
    let here_joint = match nearest_joint(lookup, v) {
        Some(j) => Some(j),
        None => joint,
    };
    let base = out.len();
    push_node_plans(nodes, meshes, v, path, parent, here_joint, out);
    let child_parent = if out.len() > base {
        Some(base)
    } else {
        parent
    };
    let ghost acc1 = plan_views(out@);
    proof {
        let here = node_plans(nodes@, meshes@, v as int, path@, parent, here_joint, acc0.len());
        assert(acc0.len() == base);
        assert(acc1 == acc0 + here);
        assert(acc1.len() == out@.len());
        assert((here.len() > 0) == (out@.len() > base));
        assert(here_joint == match joint_of_node(lookup@, v, lookup@.len()) {
            Some(j) => Some(j),
            None => joint,
        });
    }
    let kids = &nodes[v].children;
    assert(kids@ == ch[v as int]);
    let mut k: usize = 0;
    while k < kids.len()
        invariant
            k <= kids@.len(),
            v < nodes@.len(),
            kids@ == nodes@[v as int].children@,
            ch == child_lists(nodes@),
            ch.len() == nodes@.len(),
            fuel > 0,
            levels_below(ch, v as int, fuel),
            walk(nodes@, meshes@, lookup@, v as int, path@, parent, joint, acc0, fuel) == walk_children(
                nodes@,
                meshes@,
                lookup@,
                v as int,
                k as int,
                path@,
                child_parent,
                here_joint,
                plan_views(out@),
                (fuel - 1) as nat,
            ),
        decreases kids@.len() - k,
    {
        let c = kids[k];
        assert(ch[v as int][k as int] == c);
        assert(levels_below(ch, c as int, (fuel - 1) as nat));
        let mut child_path = copy_path(path);
        child_path.push(c);
        walk_node(nodes, meshes, lookup, c, &child_path, child_parent, here_joint, out, Ghost((fuel - 1) as nat));
        k = k + 1;
    }
}

fn levels_checked(nodes: &[SceneNode], v: usize, fuel: usize) -> (r: bool)
    ensures
        r == levels_below(child_lists(nodes@), v as int, fuel as nat),
    decreases fuel,
{
    let ghost ch = child_lists(nodes@);
    if fuel == 0 || v >= nodes.len() {
        return false;
    }
    let kids = &nodes[v].children;
    assert(kids@ == ch[v as int]);
    let mut k: usize = 0;
    while k < kids.len()
        invariant
            k <= kids@.len(),
            v < nodes@.len(),
            fuel > 0,
            ch == child_lists(nodes@),
            kids@ == ch[v as int],
            forall|j: int| 0 <= j < k ==> levels_below(ch, #[trigger] ch[v as int][j] as int, (fuel - 1) as nat),
        decreases kids@.len() - k,
    {
        if !levels_checked(nodes, kids[k], fuel - 1) {
            assert(!levels_below(ch, v as int, fuel as nat)) by {
                assert(!levels_below(ch, ch[v as int][k as int] as int, (fuel - 1) as nat));
            }
            return false;
        }
        k = k + 1;
    }
    true
}

/// Whether the walk of [`mesh_plans`] from every root ends: every node reachable from a root
/// lies within as many levels of it as there are nodes (see [`levels_below`]), as it does
/// when the node graph has no cycle.
pub fn roots_end(nodes: &[SceneNode], roots: &[usize]) -> (r: bool)
    ensures
        r == forall|k: int| 0 <= k < roots@.len() ==> levels_below(child_lists(nodes@), #[trigger] roots@[k] as int, nodes@.len()),
{
    let mut k: usize = 0;
    while k < roots.len()
        invariant
            k <= roots@.len(),
            forall|j: int| 0 <= j < k ==> levels_below(child_lists(nodes@), #[trigger] roots@[j] as int, nodes@.len()),
        decreases roots@.len() - k,
    {
        if !levels_checked(nodes, roots[k], nodes.len()) {
            return false;
        }
        k = k + 1;
    }
    true
}

/// The mesh instances of a glTF scene whose nodes are `nodes`, whose meshes are `meshes` and
/// whose joint lookup (node, skeleton, joint) is `lookup`, walking from each of `roots` (the
/// root nodes of every scene, in order) through the node tree in pre-order: see
/// [`roots_plans`]. A node gives one instance per usable primitive of its mesh, bound to its
/// skin when it has one, else rigidly to the nearest joint among itself and its ancestors;
/// the first instance of a node has the parent its ancestors give, its other instances and
/// the instances below it have that first instance as parent.
pub fn mesh_plans(
    nodes: &[SceneNode],
    meshes: &[MeshInfo],
    lookup: &[(usize, usize, usize)],
    roots: &[usize],
) -> (r: Vec<MeshPlan>)
    requires
        forall|k: int| 0 <= k < roots@.len() ==> levels_below(child_lists(nodes@), #[trigger] roots@[k] as int, nodes@.len()),
    ensures
        plan_views(r@) == roots_plans(nodes@, meshes@, lookup@, roots@, roots@.len()),
{
    let mut out: Vec<MeshPlan> = Vec::new();
    assert(plan_views(out@) =~= Seq::<PlanSpec>::empty());
    let mut k: usize = 0;
    while k < roots.len()
        invariant
            k <= roots@.len(),
            forall|j: int| 0 <= j < roots@.len() ==> levels_below(child_lists(nodes@), #[trigger] roots@[j] as int, nodes@.len()),
            plan_views(out@) == roots_plans(nodes@, meshes@, lookup@, roots@, k as nat),
        decreases roots@.len() - k,
    {
        let r = roots[k];
        let mut path: Vec<usize> = Vec::new();
        path.push(r);
        assert(path@ =~= seq![r]);
        assert(levels_below(child_lists(nodes@), roots@[k as int] as int, nodes@.len()));
        walk_node(nodes, meshes, lookup, r, &path, None, None, &mut out, Ghost(nodes@.len()));
        k = k + 1;
    }
    out
}

} // verus!
