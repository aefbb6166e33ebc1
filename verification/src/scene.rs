//! The scene as the renderers read it, and the walk over its node forest.
//!
//! The scene graph is an arena of parent to child index references, so a
//! corrupt scene can hold a self-referential node, a cycle of several nodes
//! or a shared child. The walk claims each node at its first arrival, which
//! makes it terminate on every graph, and it keeps its own stack, so no
//! hierarchy is too deep for it.

use crate::arith::{repeatable, Arith};
use crate::math::{composed, identity4, mat4_mul, Mat4, Vec3, Vec4};
use crate::number::Real;
use vstd::prelude::*;

verus! {

/// How a primitive's vertex sequence is read.
#[derive(Debug, Clone, Copy, PartialEq, Eq, Structural)]
pub enum Topology {
    /// Isolated points.
    Points,
    /// Separate segments, two vertices each.
    Lines,
    /// A polyline.
    LineStrip,
    /// A closed polyline.
    LineLoop,
    /// Separate triangles, three vertices each.
    Triangles,
    /// A strip of triangles, each sharing an edge with the one before.
    TriangleStrip,
    /// Triangles around the first vertex.
    TriangleFan,
}

/// An index buffer.
#[derive(Debug, Clone)]
pub enum Indices {
    /// 16-bit indices.
    U16(Vec<u16>),
    /// 32-bit indices.
    U32(Vec<u32>),
}

/// One drawable piece of a mesh.
#[derive(Debug, Clone)]
pub struct Primitive {
    /// How the vertices are read.
    pub topology: Topology,
    /// Vertex positions.
    pub positions: Vec<Vec3>,
    /// Vertex normals, if the primitive has its own.
    pub normals: Option<Vec<Vec3>>,
    /// Index buffer; without one the vertices are read in order.
    pub indices: Option<Indices>,
    /// Index of the material.
    pub material: Option<u32>,
}

/// A mesh: primitives that share a placement.
#[derive(Debug, Clone)]
pub struct Mesh {
    /// The primitives.
    pub primitives: Vec<Primitive>,
}

/// A node of the scene forest.
#[derive(Debug, Clone)]
pub struct Node {
    /// Placement relative to the parent.
    pub matrix: Mat4,
    /// Index of the mesh that the node carries.
    pub mesh: Option<u32>,
    /// Indices of the children.
    pub children: Vec<u32>,
}

/// The part of a material that shading reads.
#[derive(Debug, Clone, Copy, PartialEq)]
pub struct Material {
    /// Linear-space RGBA base colour.
    pub base_color: Vec4,
    /// How metallic the surface is.
    pub metallic: Real,
    /// How rough the surface is.
    pub roughness: Real,
    /// Fraction of light that passes through, if the material states one.
    pub transmission: Option<Real>,
    /// Index of refraction, if the material states one.
    pub ior: Option<Real>,
    /// Linear-space emission.
    pub emissive_factor: Vec3,
    /// Multiplier of the emission, if the material states one.
    pub emissive_strength: Option<Real>,
    /// Whether the surface shows its base colour without lighting.
    pub unlit: bool,
}

/// A scene.
#[derive(Debug, Clone)]
pub struct Scene {
    /// Indices of the root nodes.
    pub roots: Vec<u32>,
    /// All nodes.
    pub nodes: Vec<Node>,
    /// All meshes.
    pub meshes: Vec<Mesh>,
    /// All materials.
    pub materials: Vec<Material>,
}

/// A node with its placement in the world.
#[derive(Debug, Clone, Copy, PartialEq)]
pub struct Visit {
    /// Index of the node.
    pub node: usize,
    /// Node space to world space.
    pub world: Mat4,
}

/// A node that is still to be visited, with the placement of its parent.
#[derive(Debug, Clone, Copy, PartialEq)]
pub struct Pending {
    /// Index of the node; it may not exist.
    pub id: u32,
    /// Placement of the parent in the world.
    pub parent: Mat4,
}

/// The given nodes under one parent, in order.
pub open spec fn under(ids: Seq<u32>, parent: Mat4) -> Seq<Pending> {
    ids.map_values(|id: u32| Pending { id, parent })
}

/// Number of nodes that nobody has claimed.
pub open spec fn unclaimed(claimed: Seq<bool>) -> nat
    decreases claimed.len(),
{
    if claimed.len() == 0 {
        0
    } else {
        unclaimed(claimed.drop_last()) + if claimed.last() {
            0nat
        } else {
            1nat
        }
    }
}

/// Claiming a node leaves one less to claim.
pub proof fn lemma_unclaimed(claimed: Seq<bool>, i: int)
    requires
        0 <= i < claimed.len(),
        !claimed[i],
    ensures
        unclaimed(claimed.update(i, true)) + 1 == unclaimed(claimed),
    decreases claimed.len(),
{
    if i == claimed.len() - 1 {
        assert(claimed.update(i, true).drop_last() =~= claimed.drop_last());
    } else {
        assert(claimed.update(i, true).drop_last() =~= claimed.drop_last().update(i, true));
        lemma_unclaimed(claimed.drop_last(), i);
    }
}

/// Visits of a walk that starts with the `pending` nodes, first come first,
/// each followed by its children before the next. A node that does not exist
/// or that was claimed already is passed over.
pub open spec fn preorder<K: Arith>(
    k: &K,
    nodes: Seq<Node>,
    pending: Seq<Pending>,
    claimed: Seq<bool>,
) -> Seq<Visit>
    decreases unclaimed(claimed), pending.len(),
{
    if pending.len() == 0 {
        seq![]
    } else {
        let id = pending.first().id as int;
        let rest = pending.drop_first();
        if id >= nodes.len() || id >= claimed.len() || claimed[id] {
            preorder(k, nodes, rest, claimed)
        } else {
            proof {
                lemma_unclaimed(claimed, id);
            }
            let world = composed(k, &pending.first().parent, &nodes[id].matrix);
            seq![Visit { node: id as usize, world }] + preorder(
                k,
                nodes,
                under(nodes[id].children@, world) + rest,
                claimed.update(id, true),
            )
        }
    }
}

/// Visits of the walk over a whole scene.
pub open spec fn scene_visits<K: Arith>(k: &K, scene: &Scene) -> Seq<Visit> {
    preorder(
        k,
        scene.nodes@,
        under(scene.roots@, identity4()),
        Seq::new(scene.nodes@.len(), |i: int| false),
    )
}

/// Every visited node exists, and none is visited twice.
pub open spec fn sound_visits(scene: &Scene, visits: Seq<Visit>) -> bool {
    &&& forall|i: int| 0 <= i < visits.len() ==> (#[trigger] visits[i]).node < scene.nodes@.len()
    &&& forall|i: int, j: int|
        0 <= i < j < visits.len() ==> (#[trigger] visits[i]).node != (#[trigger] visits[j]).node
}

/// Puts nodes on top of a stack, the first of them topmost.
fn push_all(stack: &mut Vec<Pending>, ids: &Vec<u32>, parent: Mat4)
    ensures
        final(stack)@.reverse() == under(ids@, parent) + old(stack)@.reverse(),
{
    let ghost base = stack@.reverse();
    let mut j: usize = ids.len();
    proof {
        assert(ids@.skip(j as int) =~= seq![]);
        assert(under(ids@.skip(j as int), parent) + base =~= base);
    }
    while j > 0
        invariant
            j <= ids@.len(),
            stack@.reverse() == under(ids@.skip(j as int), parent) + base,
        decreases j,
    {
        j = j - 1;
        let next = Pending { id: ids[j], parent };
        let ghost before = stack@;
        stack.push(next);
        proof {
            assert(stack@.reverse() =~= seq![next] + before.reverse());
            assert(under(ids@.skip(j as int), parent) =~= seq![next] + under(
                ids@.skip(j + 1),
                parent,
            ));
            assert(stack@.reverse() =~= under(ids@.skip(j as int), parent) + base);
        }
    }
    assert(ids@.skip(0) =~= ids@);
}

/// Walks the node forest in pre-order, composing world matrices. Each node
/// is claimed at its first arrival; indices of nodes that do not exist are
/// passed over.
pub fn walk_scene_preorder<K: Arith>(k: &K, scene: &Scene) -> (visits: Vec<Visit>)
    ensures
        sound_visits(scene, visits@),
        repeatable(k) ==> visits@ == scene_visits(k, scene),
{
    let n: usize = scene.nodes.len();
    let mut claimed: Vec<bool> = Vec::with_capacity(n);
    let mut i: usize = 0;
    while i < n
        invariant
            i <= n,
            claimed@.len() == i,
            forall|j: int| 0 <= j < i ==> !claimed@[j],
        decreases n - i,
    {
        claimed.push(false);
        i += 1;
    }
    let mut visits: Vec<Visit> = Vec::new();
    let mut stack: Vec<Pending> = Vec::new();
    push_all(&mut stack, &scene.roots, identity4());
    let ghost whole = scene_visits(k, scene);
    proof {
        assert(claimed@ =~= Seq::new(scene.nodes@.len(), |i: int| false));
        assert(stack@.reverse() =~= under(scene.roots@, identity4()));
        assert(visits@ + whole =~= whole);
    }
    while stack.len() > 0
        invariant
            claimed@.len() == scene.nodes@.len(),
            sound_visits(scene, visits@),
            forall|i: int|
                0 <= i < visits@.len() ==> claimed@[(#[trigger] visits@[i]).node as int],
            repeatable(k) ==> visits@ + preorder(
                k,
                scene.nodes@,
                stack@.reverse(),
                claimed@,
            ) == whole,
        decreases unclaimed(claimed@), stack@.len(),
    {
        let ghost pending = stack@.reverse();
        let ghost claims = claimed@;
        let ghost seen = visits@;
        let next = stack[stack.len() - 1];
        stack.pop();
        proof {
            assert(pending.first() == next);
            assert(stack@.reverse() =~= pending.drop_first());
        }
        let id: usize = next.id as usize;
        if id < scene.nodes.len() && !claimed[id] {
            proof {
                lemma_unclaimed(claims, id as int);
            }
            claimed.set(id, true);
            let world = mat4_mul(k, &next.parent, &scene.nodes[id].matrix);
            visits.push(Visit { node: id, world });
            push_all(&mut stack, &scene.nodes[id].children, world);
            proof {
                let visit = Visit { node: id, world };
                let after = preorder(k, scene.nodes@, stack@.reverse(), claimed@);
                assert(visits@ + after =~= seen + (seq![visit] + after));
            }
        }
    }
    proof {
        assert(stack@.reverse() =~= seq![]);
        assert(visits@ + preorder(k, scene.nodes@, stack@.reverse(), claimed@) =~= visits@);
    }
    visits
}

/// Whether node `c` is listed among the children of node `p`.
pub open spec fn child_of(nodes: Seq<Node>, p: int, c: int) -> bool {
    exists|j: int| 0 <= j < nodes[p].children@.len() && #[trigger] nodes[p].children@[j] == c
}

/// Whether a path leads from parent to child along existing nodes.
pub open spec fn is_path(nodes: Seq<Node>, path: Seq<int>) -> bool {
    &&& path.len() > 0
    &&& forall|i: int| 0 <= i < path.len() ==> 0 <= #[trigger] path[i] < nodes.len()
    &&& forall|i: int| 0 < i < path.len() ==> child_of(nodes, path[i - 1], #[trigger] path[i])
}

/// Whether a path leads from a root to node `n`.
pub open spec fn leads_to(scene: &Scene, path: Seq<int>, n: int) -> bool {
    &&& is_path(scene.nodes@, path)
    &&& exists|j: int| 0 <= j < scene.roots@.len() && #[trigger] scene.roots@[j] == path.first()
    &&& path.last() == n
}

/// Whether some root leads to node `n`.
pub open spec fn reachable(scene: &Scene, n: int) -> bool {
    exists|path: Seq<int>| leads_to(scene, path, n)
}

/// Whether a node is among visits.
pub open spec fn visited(visits: Seq<Visit>, n: int) -> bool {
    exists|i: int| 0 <= i < visits.len() && (#[trigger] visits[i]).node == n
}

/// An entry of the first part, or of the second, is an entry of the whole.
proof fn lemma_visited_cons(v: Visit, rest: Seq<Visit>, n: int)
    ensures
        visited(seq![v] + rest, n) == (v.node == n || visited(rest, n)),
{
    let whole = seq![v] + rest;
    if v.node == n {
        assert(whole[0].node == n);
    }
    if visited(rest, n) {
        let i = choose|i: int| 0 <= i < rest.len() && (#[trigger] rest[i]).node == n;
        assert(whole[i + 1].node == n);
    }
    if visited(whole, n) {
        let i = choose|i: int| 0 <= i < whole.len() && (#[trigger] whole[i]).node == n;
        if i > 0 {
            assert(rest[i - 1].node == n);
        }
    }
}

/// A walk from reachable nodes visits reachable nodes only.
proof fn lemma_only_reachable<K: Arith>(
    k: &K,
    scene: &Scene,
    pending: Seq<Pending>,
    claimed: Seq<bool>,
    n: int,
)
    requires
        forall|i: int|
            0 <= i < pending.len() && (#[trigger] pending[i]).id < scene.nodes@.len()
                ==> reachable(scene, pending[i].id as int),
        visited(preorder(k, scene.nodes@, pending, claimed), n),
        scene.nodes@.len() <= usize::MAX,
    ensures
        reachable(scene, n),
    decreases unclaimed(claimed), pending.len(),
{
    let nodes = scene.nodes@;
    if pending.len() > 0 {
        let id = pending.first().id as int;
        let rest = pending.drop_first();
        assert forall|i: int|
            0 <= i < rest.len() && (#[trigger] rest[i]).id < nodes.len() implies reachable(
            scene,
            rest[i].id as int,
        ) by {
            assert(rest[i] == pending[i + 1]);
        }
        if id >= nodes.len() || id >= claimed.len() || claimed[id] {
            lemma_only_reachable(k, scene, rest, claimed, n);
        } else {
            lemma_unclaimed(claimed, id);
            assert(pending[0].id == id);
            let world = composed(k, &pending.first().parent, &nodes[id].matrix);
            let below = under(nodes[id].children@, world);
            let later = preorder(k, nodes, below + rest, claimed.update(id, true));
            lemma_visited_cons(Visit { node: id as usize, world }, later, n);
            if n != id {
                assert forall|i: int|
                    0 <= i < (below + rest).len() && (#[trigger] (below + rest)[i]).id
                        < nodes.len() implies reachable(scene, (below + rest)[i].id as int) by {
                    if i < below.len() {
                        let c = nodes[id].children@[i] as int;
                        let path = choose|path: Seq<int>| leads_to(scene, path, id);
                        let longer = path.push(c);
                        assert(child_of(nodes, id, c));
                        assert forall|j: int| 0 < j < longer.len() implies child_of(
                            nodes,
                            longer[j - 1],
                            #[trigger] longer[j],
                        ) by {
                            if j < path.len() {
                                assert(longer[j] == path[j]);
                            }
                        }
                        assert(longer.first() == path.first());
                        assert(leads_to(scene, longer, c));
                    } else {
                        assert((below + rest)[i] == rest[i - below.len()]);
                    }
                }
                lemma_only_reachable(k, scene, below + rest, claimed.update(id, true), n);
            }
        }
    }
}

/// A walk visits what is pending, and the children of what it visits, unless
/// claimed before.
proof fn lemma_walk_is_closed<K: Arith>(
    k: &K,
    nodes: Seq<Node>,
    pending: Seq<Pending>,
    claimed: Seq<bool>,
)
    requires
        claimed.len() == nodes.len(),
        nodes.len() <= usize::MAX,
    ensures
        ({
            let visits = preorder(k, nodes, pending, claimed);
            &&& forall|i: int|
                0 <= i < pending.len() && (#[trigger] pending[i]).id < nodes.len()
                    ==> claimed[pending[i].id as int] || visited(visits, pending[i].id as int)
            &&& forall|p: int, c: int|
                0 <= p < nodes.len() && 0 <= c < nodes.len() && visited(visits, p)
                    && #[trigger] child_of(nodes, p, c) ==> claimed[c] || visited(visits, c)
        }),
    decreases unclaimed(claimed), pending.len(),
{
    let visits = preorder(k, nodes, pending, claimed);
    if pending.len() > 0 {
        let id = pending.first().id as int;
        let rest = pending.drop_first();
        if id >= nodes.len() || claimed[id] {
            lemma_walk_is_closed(k, nodes, rest, claimed);
            assert forall|i: int|
                0 <= i < pending.len() && (#[trigger] pending[i]).id
                    < nodes.len() implies claimed[pending[i].id as int] || visited(
                visits,
                pending[i].id as int,
            ) by {
                if i > 0 {
                    assert(pending[i] == rest[i - 1]);
                }
            }
        } else {
            lemma_unclaimed(claimed, id);
            let world = composed(k, &pending.first().parent, &nodes[id].matrix);
            let below = under(nodes[id].children@, world);
            let marked = claimed.update(id, true);
            let later = preorder(k, nodes, below + rest, marked);
            let first = Visit { node: id as usize, world };
            lemma_walk_is_closed(k, nodes, below + rest, marked);
            lemma_visited_cons(first, later, id);
            assert forall|i: int|
                0 <= i < pending.len() && (#[trigger] pending[i]).id
                    < nodes.len() implies claimed[pending[i].id as int] || visited(
                visits,
                pending[i].id as int,
            ) by {
                lemma_visited_cons(first, later, pending[i].id as int);
                if i > 0 {
                    assert(pending[i] == (below + rest)[below.len() + i - 1]);
                }
            }
            assert forall|p: int, c: int|
                0 <= p < nodes.len() && 0 <= c < nodes.len() && visited(visits, p)
                    && #[trigger] child_of(nodes, p, c) implies claimed[c] || visited(
                visits,
                c,
            ) by {
                lemma_visited_cons(first, later, p);
                lemma_visited_cons(first, later, c);
                if p == id {
                    let j = choose|j: int|
                        0 <= j < nodes[p].children@.len() && #[trigger] nodes[p].children@[j]
                            == c;
                    assert((below + rest)[j].id == c);
                }
            }
        }
    }
}

/// The nodes along a path from a root are all visited.
proof fn lemma_path_is_visited<K: Arith>(k: &K, scene: &Scene, path: Seq<int>, i: int)
    requires
        scene.nodes@.len() <= usize::MAX,
        leads_to(scene, path, path.last()),
        0 <= i < path.len(),
    ensures
        visited(scene_visits(k, scene), path[i]),
    decreases i,
{
    let nodes = scene.nodes@;
    let none = Seq::new(nodes.len(), |i: int| false);
    let roots = under(scene.roots@, identity4());
    lemma_walk_is_closed(k, nodes, roots, none);
    if i == 0 {
        let j = choose|j: int|
            0 <= j < scene.roots@.len() && #[trigger] scene.roots@[j] == path.first();
        assert(roots[j].id == path[0]);
    } else {
        lemma_path_is_visited(k, scene, path, i - 1);
        assert(child_of(nodes, path[i - 1], path[i]));
    }
}

/// The walk visits exactly the nodes that some root leads to, whatever cycles
/// or shared children the graph has.
pub proof fn law_walk_visits_the_reachable<K: Arith>(k: &K, scene: &Scene, n: int)
    ensures
        visited(scene_visits(k, scene), n) == reachable(scene, n),
{
    assert(scene.nodes@.len() == scene.nodes.len());
    if visited(scene_visits(k, scene), n) {
        let roots = under(scene.roots@, identity4());
        assert forall|i: int|
            0 <= i < roots.len() && (#[trigger] roots[i]).id < scene.nodes@.len() implies reachable(
            scene,
            roots[i].id as int,
        ) by {
            let path = seq![roots[i].id as int];
            assert(scene.roots@[i] == path.first());
            assert(leads_to(scene, path, roots[i].id as int));
        }
        lemma_only_reachable(
            k,
            scene,
            roots,
            Seq::new(scene.nodes@.len(), |i: int| false),
            n,
        );
    }
    if reachable(scene, n) {
        let path = choose|path: Seq<int>| leads_to(scene, path, n);
        lemma_path_is_visited(k, scene, path, path.len() - 1);
    }
}

/// A pending node that does not exist, or that was claimed, makes no
/// difference.
pub proof fn law_missing_node_is_passed_over<K: Arith>(
    k: &K,
    nodes: Seq<Node>,
    before: Seq<Pending>,
    missing: Pending,
    after: Seq<Pending>,
    claimed: Seq<bool>,
)
    requires
        missing.id >= nodes.len() || (missing.id < claimed.len() && claimed[missing.id as int]),
    ensures
        preorder(k, nodes, before + seq![missing] + after, claimed) == preorder(
            k,
            nodes,
            before + after,
            claimed,
        ),
    decreases unclaimed(claimed), before.len(),
{
    let long = before + seq![missing] + after;
    let short = before + after;
    if before.len() == 0 {
        assert(long.drop_first() =~= after);
        assert(short =~= after);
    } else {
        let id = before.first().id as int;
        let rest = before.drop_first();
        assert(long.first() == before.first() && short.first() == before.first());
        assert(long.drop_first() =~= rest + seq![missing] + after);
        assert(short.drop_first() =~= rest + after);
        if id >= nodes.len() || id >= claimed.len() || claimed[id] {
            law_missing_node_is_passed_over(k, nodes, rest, missing, after, claimed);
        } else {
            lemma_unclaimed(claimed, id);
            let world = composed(k, &before.first().parent, &nodes[id].matrix);
            let below = under(nodes[id].children@, world);
            let marked = claimed.update(id, true);
            law_missing_node_is_passed_over(k, nodes, below + rest, missing, after, marked);
            assert(below + (rest + seq![missing] + after) =~= (below + rest) + seq![missing]
                + after);
            assert(below + (rest + after) =~= (below + rest) + after);
        }
    }
}

/// `nodes` with node `i` listed once more among its own children.
pub open spec fn self_referring(nodes: Seq<Node>, looped: Seq<Node>, i: int) -> bool {
    &&& 0 <= i < nodes.len()
    &&& looped.len() == nodes.len()
    &&& forall|j: int| 0 <= j < nodes.len() && j != i ==> #[trigger] looped[j] == nodes[j]
    &&& looped[i].matrix == nodes[i].matrix
    &&& looped[i].children@ == nodes[i].children@.push(i as u32)
}

/// A node that lists itself among its children is visited as if it did not.
pub proof fn law_self_reference_changes_nothing<K: Arith>(
    k: &K,
    nodes: Seq<Node>,
    looped: Seq<Node>,
    i: int,
    pending: Seq<Pending>,
    claimed: Seq<bool>,
)
    requires
        self_referring(nodes, looped, i),
        i <= u32::MAX,
        claimed.len() == nodes.len(),
    ensures
        preorder(k, looped, pending, claimed) == preorder(k, nodes, pending, claimed),
    decreases unclaimed(claimed), pending.len(),
{
    if pending.len() > 0 {
        let id = pending.first().id as int;
        let rest = pending.drop_first();
        if id >= nodes.len() || claimed[id] {
            law_self_reference_changes_nothing(k, nodes, looped, i, rest, claimed);
        } else {
            lemma_unclaimed(claimed, id);
            let world = composed(k, &pending.first().parent, &nodes[id].matrix);
            let below = under(nodes[id].children@, world);
            let marked = claimed.update(id, true);
            law_self_reference_changes_nothing(k, nodes, looped, i, below + rest, marked);
            if id == i {
                let itself = Pending { id: i as u32, parent: world };
                law_missing_node_is_passed_over(k, looped, below, itself, rest, marked);
                assert(under(looped[id].children@, world) =~= below + seq![itself]);
            } else {
                assert(looped[id] == nodes[id]);
            }
        }
    }
}

/// Whether node `c` has been claimed when a walk arrives at entry `j` of the
/// children of node `i`. A walk that never arrives there leaves nothing to
/// ask.
pub open spec fn claimed_on_arrival<K: Arith>(
    k: &K,
    nodes: Seq<Node>,
    pending: Seq<Pending>,
    claimed: Seq<bool>,
    i: int,
    j: int,
    c: int,
) -> bool
    decreases unclaimed(claimed), pending.len(),
{
    if pending.len() == 0 {
        true
    } else {
        let id = pending.first().id as int;
        let rest = pending.drop_first();
        if id >= nodes.len() || id >= claimed.len() || claimed[id] {
            claimed_on_arrival(k, nodes, rest, claimed, i, j, c)
        } else {
            proof {
                lemma_unclaimed(claimed, id);
            }
            let world = composed(k, &pending.first().parent, &nodes[id].matrix);
            let marked = claimed.update(id, true);
            if id == i {
                let before = under(nodes[id].children@.take(j), world);
                marked[c] || visited(preorder(k, nodes, before, marked), c)
            } else {
                claimed_on_arrival(
                    k,
                    nodes,
                    under(nodes[id].children@, world) + rest,
                    marked,
                    i,
                    j,
                    c,
                )
            }
        }
    }
}

/// `fewer` is `nodes` without entry `j` of the children of node `i`.
pub open spec fn without_child(nodes: Seq<Node>, fewer: Seq<Node>, i: int, j: int) -> bool {
    &&& 0 <= i < nodes.len()
    &&& 0 <= j < nodes[i].children@.len()
    &&& fewer.len() == nodes.len()
    &&& forall|n: int| 0 <= n < nodes.len() && n != i ==> #[trigger] fewer[n] == nodes[n]
    &&& fewer[i].matrix == nodes[i].matrix
    &&& fewer[i].mesh == nodes[i].mesh
    &&& fewer[i].children@ == nodes[i].children@.remove(j)
}

/// The children of a claimed node are not read again.
proof fn lemma_claimed_is_not_read<K: Arith>(
    k: &K,
    nodes: Seq<Node>,
    fewer: Seq<Node>,
    i: int,
    j: int,
    pending: Seq<Pending>,
    claimed: Seq<bool>,
)
    requires
        without_child(nodes, fewer, i, j),
        claimed.len() == nodes.len(),
        claimed[i],
    ensures
        preorder(k, fewer, pending, claimed) == preorder(k, nodes, pending, claimed),
    decreases unclaimed(claimed), pending.len(),
{
    if pending.len() > 0 {
        let id = pending.first().id as int;
        let rest = pending.drop_first();
        if id >= nodes.len() || claimed[id] {
            lemma_claimed_is_not_read(k, nodes, fewer, i, j, rest, claimed);
        } else {
            lemma_unclaimed(claimed, id);
            assert(fewer[id] == nodes[id]);
            let world = composed(k, &pending.first().parent, &nodes[id].matrix);
            let below = under(nodes[id].children@, world);
            let marked = claimed.update(id, true);
            lemma_claimed_is_not_read(k, nodes, fewer, i, j, below + rest, marked);
        }
    }
}

/// A pending node that is claimed, or that what comes before it leads to,
/// makes no difference.
proof fn lemma_late_entry<K: Arith>(
    k: &K,
    nodes: Seq<Node>,
    before: Seq<Pending>,
    late: Pending,
    after: Seq<Pending>,
    claimed: Seq<bool>,
)
    requires
        claimed.len() == nodes.len(),
        late.id < nodes.len(),
        nodes.len() <= usize::MAX,
        claimed[late.id as int] || visited(preorder(k, nodes, before, claimed), late.id as int),
    ensures
        preorder(k, nodes, before + seq![late] + after, claimed) == preorder(
            k,
            nodes,
            before + after,
            claimed,
        ),
    decreases unclaimed(claimed), before.len(),
{
    let long = before + seq![late] + after;
    let short = before + after;
    if claimed[late.id as int] {
        law_missing_node_is_passed_over(k, nodes, before, late, after, claimed);
    } else if before.len() > 0 {
        let id = before.first().id as int;
        let rest = before.drop_first();
        assert(long.first() == before.first() && short.first() == before.first());
        assert(long.drop_first() =~= rest + seq![late] + after);
        assert(short.drop_first() =~= rest + after);
        if id >= nodes.len() || claimed[id] {
            lemma_late_entry(k, nodes, rest, late, after, claimed);
        } else {
            lemma_unclaimed(claimed, id);
            let world = composed(k, &before.first().parent, &nodes[id].matrix);
            let below = under(nodes[id].children@, world);
            let marked = claimed.update(id, true);
            let later = preorder(k, nodes, below + rest, marked);
            lemma_visited_cons(Visit { node: id as usize, world }, later, late.id as int);
            lemma_late_entry(k, nodes, below + rest, late, after, marked);
            assert(below + (rest + seq![late] + after) =~= (below + rest) + seq![late] + after);
            assert(below + (rest + after) =~= (below + rest) + after);
        }
    }
}

/// A walk is the same without a child reference whose node is claimed before
/// the walk arrives at it.
proof fn lemma_late_child<K: Arith>(
    k: &K,
    nodes: Seq<Node>,
    fewer: Seq<Node>,
    i: int,
    j: int,
    pending: Seq<Pending>,
    claimed: Seq<bool>,
)
    requires
        without_child(nodes, fewer, i, j),
        nodes[i].children@[j] < nodes.len(),
        claimed.len() == nodes.len(),
        nodes.len() <= usize::MAX,
        claimed_on_arrival(
            k,
            nodes,
            pending,
            claimed,
            i,
            j,
            nodes[i].children@[j] as int,
        ),
    ensures
        preorder(k, fewer, pending, claimed) == preorder(k, nodes, pending, claimed),
    decreases unclaimed(claimed), pending.len(),
{
    if pending.len() > 0 {
        let id = pending.first().id as int;
        let rest = pending.drop_first();
        if id >= nodes.len() || claimed[id] {
            lemma_late_child(k, nodes, fewer, i, j, rest, claimed);
        } else {
            lemma_unclaimed(claimed, id);
            let world = composed(k, &pending.first().parent, &nodes[id].matrix);
            let marked = claimed.update(id, true);
            let all = nodes[id].children@;
            if id == i {
                let late = Pending { id: all[j], parent: world };
                let before = under(all.take(j), world);
                let after = under(all.skip(j + 1), world) + rest;
                lemma_late_entry(k, nodes, before, late, after, marked);
                assert(under(all, world) + rest =~= before + seq![late] + after);
                assert(under(fewer[id].children@, world) + rest =~= before + after);
                lemma_claimed_is_not_read(k, nodes, fewer, i, j, before + after, marked);
            } else {
                assert(fewer[id] == nodes[id]);
                lemma_late_child(k, nodes, fewer, i, j, under(all, world) + rest, marked);
            }
        }
    }
}

/// A child reference is idle if its node does not exist, or has been claimed
/// when the walk over the scene arrives at the reference.
pub open spec fn idle_child<K: Arith>(k: &K, scene: &Scene, i: int, j: int) -> bool {
    let c = scene.nodes@[i].children@[j];
    c >= scene.nodes@.len() || claimed_on_arrival(
        k,
        scene.nodes@,
        under(scene.roots@, identity4()),
        Seq::new(scene.nodes@.len(), |n: int| false),
        i,
        j,
        c as int,
    )
}

/// A child that does not exist makes no difference.
proof fn lemma_missing_child<K: Arith>(
    k: &K,
    nodes: Seq<Node>,
    fewer: Seq<Node>,
    i: int,
    j: int,
    pending: Seq<Pending>,
    claimed: Seq<bool>,
)
    requires
        without_child(nodes, fewer, i, j),
        nodes[i].children@[j] >= nodes.len(),
        claimed.len() == nodes.len(),
    ensures
        preorder(k, fewer, pending, claimed) == preorder(k, nodes, pending, claimed),
    decreases unclaimed(claimed), pending.len(),
{
    if pending.len() > 0 {
        let id = pending.first().id as int;
        let rest = pending.drop_first();
        if id >= nodes.len() || claimed[id] {
            lemma_missing_child(k, nodes, fewer, i, j, rest, claimed);
        } else {
            lemma_unclaimed(claimed, id);
            let world = composed(k, &pending.first().parent, &nodes[id].matrix);
            let marked = claimed.update(id, true);
            let all = nodes[id].children@;
            if id == i {
                let missing = Pending { id: all[j], parent: world };
                let before = under(all.take(j), world);
                let after = under(all.skip(j + 1), world) + rest;
                law_missing_node_is_passed_over(k, nodes, before, missing, after, marked);
                assert(under(all, world) + rest =~= before + seq![missing] + after);
                assert(under(fewer[id].children@, world) + rest =~= before + after);
                lemma_claimed_is_not_read(k, nodes, fewer, i, j, before + after, marked);
            } else {
                assert(fewer[id] == nodes[id]);
                lemma_missing_child(k, nodes, fewer, i, j, under(all, world) + rest, marked);
            }
        }
    }
}

/// Dropping a child reference that is idle, such as one that closes a cycle or
/// the second one to a shared child, leaves the walk over the scene as it was.
pub proof fn law_idle_child_changes_nothing<K: Arith>(
    k: &K,
    scene: &Scene,
    plain: &Scene,
    i: int,
    j: int,
)
    requires
        plain.roots@ == scene.roots@,
        without_child(scene.nodes@, plain.nodes@, i, j),
        idle_child(k, scene, i, j),
    ensures
        scene_visits(k, plain) == scene_visits(k, scene),
{
    assert(scene.nodes@.len() == scene.nodes.len());
    let nodes = scene.nodes@;
    let roots = under(scene.roots@, identity4());
    let none = Seq::new(nodes.len(), |n: int| false);
    assert(none =~= Seq::new(plain.nodes@.len(), |n: int| false));
    if nodes[i].children@[j] >= nodes.len() {
        lemma_missing_child(k, nodes, plain.nodes@, i, j, roots, none);
    } else {
        lemma_late_child(k, nodes, plain.nodes@, i, j, roots, none);
    }
}

/// Whether node `c` is visited no later than node `i`.
pub open spec fn no_later(visits: Seq<Visit>, c: int, i: int) -> bool {
    exists|a: int, b: int|
        0 <= a <= b < visits.len() && (#[trigger] visits[a]).node == c && (
        #[trigger] visits[b]).node == i
}

/// A walk visits nobody who was claimed.
pub proof fn lemma_visits_the_unclaimed<K: Arith>(
    k: &K,
    nodes: Seq<Node>,
    pending: Seq<Pending>,
    claimed: Seq<bool>,
    n: int,
)
    requires
        claimed.len() == nodes.len(),
        nodes.len() <= usize::MAX,
        visited(preorder(k, nodes, pending, claimed), n),
    ensures
        0 <= n < nodes.len(),
        !claimed[n],
    decreases unclaimed(claimed), pending.len(),
{
    if pending.len() > 0 {
        let id = pending.first().id as int;
        let rest = pending.drop_first();
        if id >= nodes.len() || claimed[id] {
            lemma_visits_the_unclaimed(k, nodes, rest, claimed, n);
        } else {
            lemma_unclaimed(claimed, id);
            let world = composed(k, &pending.first().parent, &nodes[id].matrix);
            let below = under(nodes[id].children@, world);
            let marked = claimed.update(id, true);
            let later = preorder(k, nodes, below + rest, marked);
            lemma_visited_cons(Visit { node: id as usize, world }, later, n);
            if n != id {
                lemma_visits_the_unclaimed(k, nodes, below + rest, marked, n);
            }
        }
    }
}

/// What is visited no later than the parent has been claimed when the walk
/// arrives at the reference.
proof fn lemma_earlier_is_claimed<K: Arith>(
    k: &K,
    nodes: Seq<Node>,
    pending: Seq<Pending>,
    claimed: Seq<bool>,
    i: int,
    j: int,
    c: int,
)
    requires
        claimed.len() == nodes.len(),
        nodes.len() <= usize::MAX,
        0 <= c < nodes.len(),
        0 <= i < nodes.len(),
        claimed[c] || no_later(preorder(k, nodes, pending, claimed), c, i),
    ensures
        claimed_on_arrival(k, nodes, pending, claimed, i, j, c),
    decreases unclaimed(claimed), pending.len(),
{
    if pending.len() > 0 {
        let id = pending.first().id as int;
        let rest = pending.drop_first();
        if id >= nodes.len() || claimed[id] {
            lemma_earlier_is_claimed(k, nodes, rest, claimed, i, j, c);
        } else {
            lemma_unclaimed(claimed, id);
            let world = composed(k, &pending.first().parent, &nodes[id].matrix);
            let below = under(nodes[id].children@, world);
            let marked = claimed.update(id, true);
            let visits = preorder(k, nodes, pending, claimed);
            let later = preorder(k, nodes, below + rest, marked);
            if !marked[c] {
                let (a, b) = choose|a: int, b: int|
                    0 <= a <= b < visits.len() && (#[trigger] visits[a]).node == c && (
                    #[trigger] visits[b]).node == i;
                assert(a > 0);
                assert(later[a - 1] == visits[a]);
                assert(later[b - 1] == visits[b]);
                if id == i {
                    assert(visited(later, i));
                    lemma_visits_the_unclaimed(k, nodes, below + rest, marked, i);
                }
            }
            if id != i {
                lemma_earlier_is_claimed(k, nodes, below + rest, marked, i, j, c);
            }
        }
    }
}

/// A reference to a node that is visited no later than the parent is idle: to
/// the parent itself, to one of its ancestors, or to a node that was visited
/// under another parent.
pub proof fn law_back_reference_is_idle<K: Arith>(k: &K, scene: &Scene, i: int, j: int)
    requires
        0 <= i < scene.nodes@.len(),
        no_later(scene_visits(k, scene), scene.nodes@[i].children@[j] as int, i),
    ensures
        idle_child(k, scene, i, j),
{
    assert(scene.nodes@.len() == scene.nodes.len());
    let nodes = scene.nodes@;
    let c = nodes[i].children@[j] as int;
    if c < nodes.len() {
        lemma_earlier_is_claimed(
            k,
            nodes,
            under(scene.roots@, identity4()),
            Seq::new(nodes.len(), |n: int| false),
            i,
            j,
            c,
        );
    }
}

} // verus!
