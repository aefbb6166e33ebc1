//! Bounding-volume hierarchy over a triangle soup, and the ray queries that
//! walk it.
//!
//! Building a hierarchy and testing a ray against a box or a triangle are
//! the caller's, as arithmetic is: [`RayTests`] hands them in. What is
//! handed in is checked before it is walked.

use crate::arith::{difference, repeatable, Arith};
use crate::camera::Ray;
use crate::math::Vec3;
use crate::number::{num, Real, ONE};
use crate::raster::Weights;
use vstd::prelude::*;

verus! {

/// Shading data of a triangle of the soup.
#[derive(Debug, Clone, Copy, PartialEq)]
pub struct TriShade {
    /// World-space unit normals of the three corners.
    pub normals: (Vec3, Vec3, Vec3),
    /// Index of the scene material.
    pub material: Option<u32>,
}

/// A triangle of the soup, in world space.
#[derive(Debug, Clone, Copy, PartialEq)]
pub struct BakedTri {
    /// First corner.
    pub a: Vec3,
    /// Second corner.
    pub b: Vec3,
    /// Third corner.
    pub c: Vec3,
    /// Shading data.
    pub shade: TriShade,
}

/// Node of a hierarchy.
#[derive(Debug, Clone, Copy, PartialEq)]
pub struct BvhNode {
    /// Least coordinates of what is below.
    pub min: Vec3,
    /// Greatest coordinates of what is below.
    pub max: Vec3,
    /// First entry of a leaf, or the left child of an inner node.
    pub left_or_first: u32,
    /// Right child of an inner node.
    pub right_child: u32,
    /// Number of triangles of a leaf; zero for an inner node.
    pub tri_count: u32,
}

/// A hierarchy: its nodes, root first, and the triangle order that leaves
/// refer to.
#[derive(Debug, Clone)]
pub struct Bvh {
    /// The nodes.
    pub nodes: Vec<BvhNode>,
    /// Triangle indices, grouped by leaf.
    pub triangles: Vec<u32>,
}

/// Where a ray strikes a triangle.
#[derive(Debug, Clone, Copy, PartialEq)]
pub struct Strike {
    /// Distance along the ray.
    pub t: Real,
    /// Weight of the second corner.
    pub u: Real,
    /// Weight of the third corner.
    pub v: Real,
}

/// The ray queries that tracing needs.
pub trait RayTests: Arith {
    /// Whether a ray passes through a box within `t_max`.
    fn meets_box(&self, ray: Ray, min: Vec3, max: Vec3, t_max: Real) -> bool;

    /// Where a ray strikes a triangle within `t_max`.
    fn meets_triangle(&self, ray: Ray, tri: &BakedTri, t_max: Real) -> Option<Strike>;

    /// A hierarchy over a soup; `None` if nothing in it can be struck.
    fn hierarchy(&self, soup: &Vec<BakedTri>) -> Option<Bvh>;
}

/// What [`RayTests::meets_box`] returns.
pub open spec fn box_met<K: RayTests>(k: &K, ray: Ray, min: Vec3, max: Vec3, t_max: Real) -> bool {
    choose|r: bool| call_ensures(K::meets_box, (k, ray, min, max, t_max), r)
}

/// What [`RayTests::meets_triangle`] returns.
pub open spec fn triangle_met<K: RayTests>(
    k: &K,
    ray: Ray,
    tri: BakedTri,
    t_max: Real,
) -> Option<Strike> {
    choose|r: Option<Strike>| call_ensures(K::meets_triangle, (k, ray, &tri, t_max), r)
}

/// What a hierarchy says: its nodes and its triangle order.
pub type Tree = (Seq<BvhNode>, Seq<u32>);

/// What a hierarchy says, where there is one.
pub open spec fn tree_of(b: Option<Bvh>) -> Option<Tree> {
    match b {
        Some(b) => Some((b.nodes@, b.triangles@)),
        None => None,
    }
}

/// Whether [`RayTests::hierarchy`] can give a hierarchy that says `tree`.
pub open spec fn grows<K: RayTests>(k: &K, soup: Seq<BakedTri>, tree: Option<Tree>) -> bool {
    exists|v: Vec<BakedTri>, b: Option<Bvh>| #[trigger]
        call_ensures(K::hierarchy, (k, &v), b) && v@ == soup && tree_of(b) == tree
}

/// What the hierarchy says that [`RayTests::hierarchy`] gives for a soup.
pub open spec fn grown<K: RayTests>(k: &K, soup: Seq<BakedTri>) -> Option<Tree> {
    choose|tree: Option<Tree>| grows(k, soup, tree)
}

/// The arithmetic, the ray tests and the hierarchy are functions of what they
/// are asked about.
pub open spec fn sighted<K: RayTests>(k: &K) -> bool {
    &&& repeatable(k)
    &&& forall|ray: Ray, min: Vec3, max: Vec3, t_max: Real, r: bool| #[trigger]
        call_ensures(K::meets_box, (k, ray, min, max, t_max), r) ==> r == box_met(
            k,
            ray,
            min,
            max,
            t_max,
        )
    &&& forall|ray: Ray, tri: BakedTri, t_max: Real, r: Option<Strike>| #[trigger]
        call_ensures(K::meets_triangle, (k, ray, &tri, t_max), r) ==> r == triangle_met(
            k,
            ray,
            tri,
            t_max,
        )
    &&& forall|soup: Vec<BakedTri>, b: Option<Bvh>| #[trigger]
        call_ensures(K::hierarchy, (k, &soup), b) ==> tree_of(b) == grown(k, soup@)
}

impl BvhNode {
    /// Whether the node holds triangles rather than children.
    pub open spec fn leaf(self) -> bool {
        self.tri_count > 0
    }

    /// Whether the node holds triangles rather than children.
    pub fn is_leaf(&self) -> (r: bool)
        ensures
            r == self.leaf(),
    {
        self.tri_count > 0
    }
}

impl Bvh {
    /// Whether node `i` refers to things that exist: a leaf to entries of the
    /// triangle order, an inner node to nodes that come after it.
    pub open spec fn node_wf(&self, i: int) -> bool {
        let n = self.nodes@[i];
        if n.leaf() {
            n.left_or_first + n.tri_count <= self.triangles@.len()
        } else {
            &&& i < n.left_or_first < self.nodes@.len()
            &&& i < n.right_child < self.nodes@.len()
        }
    }

    /// Whether the hierarchy indexes a soup of `total` triangles.
    pub open spec fn wf(&self, total: int) -> bool {
        &&& self.nodes@.len() > 0
        &&& forall|i: int| 0 <= i < self.nodes@.len() ==> #[trigger] self.node_wf(i)
        &&& forall|j: int|
            0 <= j < self.triangles@.len() ==> (#[trigger] self.triangles@[j]) < total
    }

    /// Checks that the hierarchy indexes a soup of `total` triangles.
    pub fn indexes(&self, total: usize) -> (r: bool)
        ensures
            r == self.wf(total as int),
    {
        if self.nodes.len() == 0 {
            return false;
        }
        let mut i: usize = 0;
        while i < self.nodes.len()
            invariant
                i <= self.nodes@.len(),
                forall|j: int| 0 <= j < i ==> #[trigger] self.node_wf(j),
            decreases self.nodes@.len() - i,
        {
            let n = self.nodes[i];
            let ok = if n.is_leaf() {
                n.left_or_first as u64 + n.tri_count as u64 <= self.triangles.len() as u64
            } else {
                i < n.left_or_first as usize && (n.left_or_first as usize) < self.nodes.len() && i
                    < n.right_child as usize && (n.right_child as usize) < self.nodes.len()
            };
            assert(self.triangles@.len() == self.triangles.len());
            assert(ok == self.node_wf(i as int));
            if !ok {
                return false;
            }
            i += 1;
        }
        let mut j: usize = 0;
        while j < self.triangles.len()
            invariant
                j <= self.triangles@.len(),
                forall|i: int| 0 <= i < j ==> (#[trigger] self.triangles@[i]) < total,
            decreases self.triangles@.len() - j,
        {
            if self.triangles[j] as usize >= total {
                return false;
            }
            j += 1;
        }
        true
    }
}

/// A triangle that a ray struck.
#[derive(Debug, Clone, Copy, PartialEq)]
pub struct Hit {
    /// Distance along the ray.
    pub t: Real,
    /// Index of the triangle.
    pub triangle: usize,
    /// Barycentric weights of the point.
    pub barycentric: Weights,
}

/// The nearest hit so far, and the distance beyond which none counts.
#[derive(Debug, Clone, Copy, PartialEq)]
pub struct Found {
    /// The nearest hit so far.
    pub hit: Option<Hit>,
    /// Its distance, or the limit of the query.
    pub limit: Real,
}

/// Capacity of the traversal stack.
pub const STACK: usize = 64;

/// The hit that a strike on triangle `triangle` makes.
pub open spec fn hit_of<K: Arith>(k: &K, s: Strike, triangle: usize) -> Hit {
    Hit {
        t: s.t,
        triangle,
        barycentric: Weights {
            w0: difference(k, difference(k, num(ONE), s.u), s.v),
            w1: s.u,
            w2: s.v,
        },
    }
}

/// The search after triangle `triangle` was tried.
pub open spec fn tried<K: RayTests>(
    k: &K,
    soup: Seq<BakedTri>,
    ray: Ray,
    triangle: u32,
    acc: Found,
) -> Found {
    match triangle_met(k, ray, soup[triangle as int], acc.limit) {
        Some(s) => Found { hit: Some(hit_of(k, s, triangle as usize)), limit: s.t },
        None => acc,
    }
}

/// The search after several triangles were tried in order.
pub open spec fn tried_all<K: RayTests>(
    k: &K,
    soup: Seq<BakedTri>,
    ray: Ray,
    triangles: Seq<u32>,
    acc: Found,
) -> Found
    decreases triangles.len(),
{
    if triangles.len() == 0 {
        acc
    } else {
        tried(
            k,
            soup,
            ray,
            triangles.last(),
            tried_all(k, soup, ray, triangles.drop_last(), acc),
        )
    }
}

impl Bvh {
    /// The triangles of leaf `i`, in order.
    pub open spec fn leaf_triangles(&self, i: int) -> Seq<u32> {
        let n = self.nodes@[i];
        self.triangles@.subrange(n.left_or_first as int, n.left_or_first + n.tri_count)
    }

    /// The search after node `i` and what is below it, when `below` entries
    /// wait on the stack. A node whose box the ray misses within the limit is
    /// passed over; the right child comes before the left one; children that
    /// the stack has no room for are passed over.
    pub open spec fn searched<K: RayTests>(
        &self,
        k: &K,
        soup: Seq<BakedTri>,
        ray: Ray,
        i: int,
        below: int,
        acc: Found,
    ) -> Found
        decreases self.nodes@.len() - i,
    {
        let n = self.nodes@[i];
        if !(0 <= i < self.nodes@.len() && self.node_wf(i)) {
            acc
        } else if !box_met(k, ray, n.min, n.max, acc.limit) {
            acc
        } else if n.leaf() {
            tried_all(k, soup, ray, self.leaf_triangles(i), acc)
        } else if below + 2 <= STACK {
            let right = self.searched(k, soup, ray, n.right_child as int, below + 1, acc);
            self.searched(k, soup, ray, n.left_or_first as int, below, right)
        } else {
            acc
        }
    }

    /// The search after everything on a stack, topmost first.
    pub open spec fn unwound<K: RayTests>(
        &self,
        k: &K,
        soup: Seq<BakedTri>,
        ray: Ray,
        stack: Seq<u32>,
        acc: Found,
    ) -> Found
        decreases stack.len(),
    {
        if stack.len() == 0 {
            acc
        } else {
            let top = self.searched(k, soup, ray, stack.last() as int, stack.len() - 1, acc);
            self.unwound(k, soup, ray, stack.drop_last(), top)
        }
    }
}

/// Work that a node can cause when `n` nodes come from it onward.
spec fn weight(n: nat) -> nat
    decreases n,
{
    if n == 0 {
        1
    } else {
        3 * weight((n - 1) as nat)
    }
}

/// Work that a stack can cause.
spec fn load(total: int, stack: Seq<u32>) -> nat
    decreases stack.len(),
{
    if stack.len() == 0 {
        0
    } else {
        load(total, stack.drop_last()) + weight((total - stack.last()) as nat)
    }
}

/// More nodes cause more work.
proof fn lemma_weight(m: nat, n: nat)
    requires
        m < n,
    ensures
        weight(m) >= 1,
        3 * weight(m) <= weight(n),
    decreases n,
{
    if m + 1 < n {
        lemma_weight(m, (n - 1) as nat);
    } else if m > 0 {
        lemma_weight((m - 1) as nat, m);
    }
}

/// Taking an entry off a stack, and putting its two children on, lightens
/// it.
proof fn lemma_load(total: int, stack: Seq<u32>, left: u32, right: u32)
    requires
        stack.len() > 0,
        stack.last() < left < total,
        stack.last() < right < total,
    ensures
        load(total, stack.drop_last()) < load(total, stack),
        load(total, stack.drop_last().push(left).push(right)) < load(total, stack),
{
    let base = stack.drop_last();
    lemma_weight((total - left) as nat, (total - stack.last()) as nat);
    lemma_weight((total - right) as nat, (total - stack.last()) as nat);
    assert(base.push(left).push(right).drop_last() =~= base.push(left));
    assert(base.push(left).drop_last() =~= base);
    assert(base.push(left).last() == left);
    reveal_with_fuel(load, 3);
}

/// Taking an entry off a stack lightens it.
proof fn lemma_load_pop(total: int, stack: Seq<u32>)
    requires
        stack.len() > 0,
        stack.last() < total,
    ensures
        load(total, stack.drop_last()) < load(total, stack),
{
    lemma_weight(0, (total - stack.last()) as nat);
}

impl Bvh {
    /// Tries the triangles of leaf `i`.
    fn try_leaf<K: RayTests>(
        &self,
        k: &K,
        soup: &Vec<BakedTri>,
        ray: Ray,
        i: usize,
        acc: Found,
    ) -> (r: Found)
        requires
            self.wf(soup@.len() as int),
            i < self.nodes@.len(),
            self.nodes@[i as int].leaf(),
            acc.hit matches Some(h) ==> h.triangle < soup@.len(),
        ensures
            r.hit matches Some(h) ==> h.triangle < soup@.len(),
            sighted(k) ==> r == tried_all(k, soup@, ray, self.leaf_triangles(i as int), acc),
    {
        assert(self.node_wf(i as int));
        assert(self.triangles@.len() == self.triangles.len());
        let first: usize = self.nodes[i].left_or_first as usize;
        let count: usize = self.nodes[i].tri_count as usize;
        let ghost tris = self.leaf_triangles(i as int);
        let mut best = acc;
        let mut j: usize = 0;
        assert(tris.take(0) =~= seq![]);
        while j < count
            invariant
                j <= count,
                first + count <= self.triangles.len(),
                self.triangles@.len() == self.triangles.len(),
                self.wf(soup@.len() as int),
                tris == self.triangles@.subrange(first as int, first + count),
                best.hit matches Some(h) ==> h.triangle < soup@.len(),
                sighted(k) ==> best == tried_all(k, soup@, ray, tris.take(j as int), acc),
            decreases count - j,
        {
            let tri: u32 = self.triangles[first + j];
            proof {
                assert(tris.take(j + 1).drop_last() =~= tris.take(j as int));
                assert(tris.take(j + 1).last() == tri);
            }
            if let Some(s) = k.meets_triangle(ray, &soup[tri as usize], best.limit) {
                let w0 = k.minus(k.minus(num(ONE), s.u), s.v);
                let hit = Hit {
                    t: s.t,
                    triangle: tri as usize,
                    barycentric: Weights { w0, w1: s.u, w2: s.v },
                };
                best = Found { hit: Some(hit), limit: s.t };
            }
            j += 1;
        }
        assert(tris.take(j as int) =~= tris);
        best
    }

    /// Closest hit of a ray within `t_max`.
    ///
    /// Walks the nodes with a stack of fixed capacity: box tests at every
    /// node, triangle tests at the leaves.
    pub fn closest_hit<K: RayTests>(
        &self,
        k: &K,
        soup: &Vec<BakedTri>,
        ray: Ray,
        t_max: Real,
    ) -> (r: Option<Hit>)
        requires
            self.wf(soup@.len() as int),
        ensures
            r matches Some(h) ==> h.triangle < soup@.len(),
            sighted(k) ==> r == self.searched(
                k,
                soup@,
                ray,
                0,
                0,
                Found { hit: None, limit: t_max },
            ).hit,
    {
        let mut stack: [u32; 64] = [0;64];
        let mut sp: usize = 1;
        let mut acc = Found { hit: None, limit: t_max };
        let ghost total = self.nodes@.len() as int;
        let ghost goal = self.searched(k, soup@, ray, 0, 0, acc);
        proof {
            let s = stack@.take(1);
            assert(s.last() == 0);
            assert(s.drop_last() =~= seq![]);
            reveal_with_fuel(Bvh::unwound, 2);
        }
        while sp > 0
            invariant
                sp <= 64,
                total == self.nodes@.len(),
                self.wf(soup@.len() as int),
                forall|j: int| 0 <= j < sp ==> (#[trigger] stack@[j]) < total,
                acc.hit matches Some(h) ==> h.triangle < soup@.len(),
                sighted(k) ==> self.unwound(k, soup@, ray, stack@.take(sp as int), acc) == goal,
            decreases load(total, stack@.take(sp as int)),
        {
            let ghost full = stack@.take(sp as int);
            sp = sp - 1;
            let i: usize = stack[sp] as usize;
            let node = self.nodes[i];
            proof {
                assert(full.last() == i);
                assert(full.drop_last() =~= stack@.take(sp as int));
                assert(self.node_wf(i as int));
                lemma_load_pop(total, full);
            }
            if k.meets_box(ray, node.min, node.max, acc.limit) {
                if node.is_leaf() {
                    acc = self.try_leaf(k, soup, ray, i, acc);
                } else if sp + 2 <= 64 {
                    let ghost base = stack@.take(sp as int);
                    stack[sp] = node.left_or_first;
                    stack[sp + 1] = node.right_child;
                    sp = sp + 2;
                    proof {
                        let l = node.left_or_first;
                        let r = node.right_child;
                        assert(stack@.take(sp as int) =~= base.push(l).push(r));
                        assert(base.push(l).push(r).drop_last() =~= base.push(l));
                        assert(base.push(l).drop_last() =~= base);
                        reveal_with_fuel(Bvh::unwound, 3);
                        lemma_load(total, full, l, r);
                    }
                }
            }
        }
        assert(stack@.take(0) =~= seq![]);
        acc.hit
    }

    /// Whether a ray strikes one of several triangles.
    pub open spec fn any_of<K: RayTests>(
        k: &K,
        soup: Seq<BakedTri>,
        ray: Ray,
        triangles: Seq<u32>,
        t_max: Real,
    ) -> bool {
        exists|j: int|
            0 <= j < triangles.len() && triangle_met(
                k,
                ray,
                soup[(#[trigger] triangles[j]) as int],
                t_max,
            ) is Some
    }

    /// Whether a ray strikes something at or below node `i`, when `below`
    /// entries wait on the stack.
    pub open spec fn blocked<K: RayTests>(
        &self,
        k: &K,
        soup: Seq<BakedTri>,
        ray: Ray,
        i: int,
        below: int,
        t_max: Real,
    ) -> bool
        decreases self.nodes@.len() - i,
    {
        let n = self.nodes@[i];
        if !(0 <= i < self.nodes@.len() && self.node_wf(i)) {
            false
        } else if !box_met(k, ray, n.min, n.max, t_max) {
            false
        } else if n.leaf() {
            Bvh::any_of(k, soup, ray, self.leaf_triangles(i), t_max)
        } else if below + 2 <= STACK {
            ||| self.blocked(k, soup, ray, n.right_child as int, below + 1, t_max)
            ||| self.blocked(k, soup, ray, n.left_or_first as int, below, t_max)
        } else {
            false
        }
    }

    /// Whether a ray strikes something at or below an entry of a stack.
    pub open spec fn stack_blocks<K: RayTests>(
        &self,
        k: &K,
        soup: Seq<BakedTri>,
        ray: Ray,
        stack: Seq<u32>,
        t_max: Real,
    ) -> bool
        decreases stack.len(),
    {
        if stack.len() == 0 {
            false
        } else {
            ||| self.blocked(k, soup, ray, stack.last() as int, stack.len() - 1, t_max)
            ||| self.stack_blocks(k, soup, ray, stack.drop_last(), t_max)
        }
    }

    /// Whether a ray strikes a triangle of leaf `i`.
    fn leaf_blocks<K: RayTests>(
        &self,
        k: &K,
        soup: &Vec<BakedTri>,
        ray: Ray,
        i: usize,
        t_max: Real,
    ) -> (r: bool)
        requires
            self.wf(soup@.len() as int),
            i < self.nodes@.len(),
            self.nodes@[i as int].leaf(),
        ensures
            sighted(k) ==> r == Bvh::any_of(
                k,
                soup@,
                ray,
                self.leaf_triangles(i as int),
                t_max,
            ),
    {
        assert(self.node_wf(i as int));
        assert(self.triangles@.len() == self.triangles.len());
        let first: usize = self.nodes[i].left_or_first as usize;
        let count: usize = self.nodes[i].tri_count as usize;
        let ghost tris = self.leaf_triangles(i as int);
        let mut j: usize = 0;
        while j < count
            invariant
                j <= count,
                first + count <= self.triangles.len(),
                self.triangles@.len() == self.triangles.len(),
                self.wf(soup@.len() as int),
                tris == self.leaf_triangles(i as int),
                tris == self.triangles@.subrange(first as int, first + count),
                sighted(k) ==> forall|m: int|
                    0 <= m < j ==> triangle_met(
                        k,
                        ray,
                        soup@[(#[trigger] tris[m]) as int],
                        t_max,
                    ) is None,
            decreases count - j,
        {
            let tri: u32 = self.triangles[first + j];
            assert(tris[j as int] == tri);
            if k.meets_triangle(ray, &soup[tri as usize], t_max).is_some() {
                return true;
            }
            j += 1;
        }
        false
    }

    /// Whether anything blocks a ray within `t_max`: the first intersection
    /// found settles it.
    pub fn any_hit<K: RayTests>(
        &self,
        k: &K,
        soup: &Vec<BakedTri>,
        ray: Ray,
        t_max: Real,
    ) -> (r: bool)
        requires
            self.wf(soup@.len() as int),
        ensures
            sighted(k) ==> r == self.blocked(k, soup@, ray, 0, 0, t_max),
    {
        let mut stack: [u32; 64] = [0;64];
        let mut sp: usize = 1;
        let ghost total = self.nodes@.len() as int;
        let ghost goal = self.blocked(k, soup@, ray, 0, 0, t_max);
        proof {
            let s = stack@.take(1);
            assert(s.last() == 0);
            assert(s.drop_last() =~= seq![]);
            reveal_with_fuel(Bvh::stack_blocks, 2);
        }
        while sp > 0
            invariant
                sp <= 64,
                total == self.nodes@.len(),
                self.wf(soup@.len() as int),
                forall|j: int| 0 <= j < sp ==> (#[trigger] stack@[j]) < total,
                goal == self.blocked(k, soup@, ray, 0, 0, t_max),
                sighted(k) ==> self.stack_blocks(k, soup@, ray, stack@.take(sp as int), t_max)
                    == goal,
            decreases load(total, stack@.take(sp as int)),
        {
            let ghost full = stack@.take(sp as int);
            sp = sp - 1;
            let i: usize = stack[sp] as usize;
            let node = self.nodes[i];
            proof {
                assert(full.last() == i);
                assert(full.drop_last() =~= stack@.take(sp as int));
                assert(self.node_wf(i as int));
                lemma_load_pop(total, full);
            }
            if k.meets_box(ray, node.min, node.max, t_max) {
                if node.is_leaf() {
                    if self.leaf_blocks(k, soup, ray, i, t_max) {
                        return true;
                    }
                } else if sp + 2 <= 64 {
                    let ghost base = stack@.take(sp as int);
                    stack[sp] = node.left_or_first;
                    stack[sp + 1] = node.right_child;
                    sp = sp + 2;
                    proof {
                        let l = node.left_or_first;
                        let r = node.right_child;
                        assert(stack@.take(sp as int) =~= base.push(l).push(r));
                        assert(base.push(l).push(r).drop_last() =~= base.push(l));
                        assert(base.push(l).drop_last() =~= base);
                        reveal_with_fuel(Bvh::stack_blocks, 3);
                        lemma_load(total, full, l, r);
                    }
                }
            }
        }
        assert(stack@.take(0) =~= seq![]);
        false
    }
}

/// A search that found something still has after more triangles were tried.
proof fn lemma_found_stays<K: RayTests>(
    k: &K,
    soup: Seq<BakedTri>,
    ray: Ray,
    triangles: Seq<u32>,
    acc: Found,
)
    requires
        acc.hit is Some,
    ensures
        tried_all(k, soup, ray, triangles, acc).hit is Some,
    decreases triangles.len(),
{
    if triangles.len() > 0 {
        lemma_found_stays(k, soup, ray, triangles.drop_last(), acc);
    }
}

/// Trying triangles finds something if and only if one of them is struck.
proof fn lemma_tried_finds<K: RayTests>(
    k: &K,
    soup: Seq<BakedTri>,
    ray: Ray,
    triangles: Seq<u32>,
    t_max: Real,
)
    ensures
        ({
            let none = Found { hit: None, limit: t_max };
            let r = tried_all(k, soup, ray, triangles, none);
            &&& r.hit is Some == Bvh::any_of(k, soup, ray, triangles, t_max)
            &&& r.hit is None ==> r == none
        }),
    decreases triangles.len(),
{
    if triangles.len() > 0 {
        let rest = triangles.drop_last();
        let n = triangles.len() - 1;
        lemma_tried_finds(k, soup, ray, rest, t_max);
        if Bvh::any_of(k, soup, ray, rest, t_max) {
            let j = choose|j: int|
                0 <= j < rest.len() && triangle_met(
                    k,
                    ray,
                    soup[(#[trigger] rest[j]) as int],
                    t_max,
                ) is Some;
            assert(triangles[j] == rest[j]);
        } else {
            assert forall|j: int| 0 <= j < n implies triangle_met(
                k,
                ray,
                soup[(#[trigger] triangles[j]) as int],
                t_max,
            ) is None by {
                assert(triangles[j] == rest[j]);
            }
            assert(triangles[n] == triangles.last());
        }
    }
}

impl Bvh {
    /// A search that found something still has after more nodes.
    proof fn lemma_search_keeps<K: RayTests>(
        &self,
        k: &K,
        soup: Seq<BakedTri>,
        ray: Ray,
        i: int,
        below: int,
        acc: Found,
    )
        requires
            acc.hit is Some,
        ensures
            self.searched(k, soup, ray, i, below, acc).hit is Some,
        decreases self.nodes@.len() - i,
    {
        let n = self.nodes@[i];
        if 0 <= i < self.nodes@.len() && self.node_wf(i) {
            if n.leaf() {
                lemma_found_stays(k, soup, ray, self.leaf_triangles(i), acc);
            } else {
                self.lemma_search_keeps(k, soup, ray, n.right_child as int, below + 1, acc);
                let right = self.searched(k, soup, ray, n.right_child as int, below + 1, acc);
                self.lemma_search_keeps(k, soup, ray, n.left_or_first as int, below, right);
            }
        }
    }

    /// Both queries agree: something blocks a ray if and only if the ray has
    /// a closest hit.
    pub proof fn law_queries_agree<K: RayTests>(
        &self,
        k: &K,
        soup: Seq<BakedTri>,
        ray: Ray,
        i: int,
        below: int,
        t_max: Real,
    )
        ensures
            ({
                let none = Found { hit: None, limit: t_max };
                let r = self.searched(k, soup, ray, i, below, none);
                &&& r.hit is Some == self.blocked(k, soup, ray, i, below, t_max)
                &&& r.hit is None ==> r == none
            }),
        decreases self.nodes@.len() - i,
    {
        let n = self.nodes@[i];
        let none = Found { hit: None, limit: t_max };
        if 0 <= i < self.nodes@.len() && self.node_wf(i) {
            if n.leaf() {
                lemma_tried_finds(k, soup, ray, self.leaf_triangles(i), t_max);
            } else {
                let right = self.searched(k, soup, ray, n.right_child as int, below + 1, none);
                self.law_queries_agree(k, soup, ray, n.right_child as int, below + 1, t_max);
                self.law_queries_agree(k, soup, ray, n.left_or_first as int, below, t_max);
                if right.hit is Some {
                    self.lemma_search_keeps(k, soup, ray, n.left_or_first as int, below, right);
                }
            }
        }
    }

    /// All triangles at or below node `i`, in the order in which a search
    /// that passes over nothing tries them.
    pub open spec fn triangles_below(&self, i: int) -> Seq<u32>
        decreases self.nodes@.len() - i,
    {
        let n = self.nodes@[i];
        if !(0 <= i < self.nodes@.len() && self.node_wf(i)) {
            seq![]
        } else if n.leaf() {
            self.leaf_triangles(i)
        } else {
            self.triangles_below(n.right_child as int) + self.triangles_below(
                n.left_or_first as int,
            )
        }
    }

    /// Whether the stack has room for everything below node `i`.
    pub open spec fn shallow(&self, i: int, below: int) -> bool
        decreases self.nodes@.len() - i,
    {
        let n = self.nodes@[i];
        if !(0 <= i < self.nodes@.len() && self.node_wf(i)) || n.leaf() {
            true
        } else {
            &&& below + 2 <= STACK
            &&& self.shallow(n.right_child as int, below + 1)
            &&& self.shallow(n.left_or_first as int, below)
        }
    }

    /// Whether boxes bound what is below them: where a ray misses the box of
    /// a node within a limit, it strikes none of its triangles within it.
    pub open spec fn bounding<K: RayTests>(&self, k: &K, soup: Seq<BakedTri>, ray: Ray) -> bool {
        forall|i: int, t_max: Real, j: int|
            0 <= i < self.nodes@.len() && 0 <= j < self.triangles_below(i).len()
                && !#[trigger] box_met(k, ray, self.nodes@[i].min, self.nodes@[i].max, t_max)
                ==> triangle_met(
                k,
                ray,
                soup[(#[trigger] self.triangles_below(i)[j]) as int],
                t_max,
            ) is None
    }

    /// Passing over nodes costs nothing: with boxes that bound what is below
    /// them and room on the stack, a search gives what trying every triangle
    /// in turn gives.
    pub proof fn law_search_is_exhaustive<K: RayTests>(
        &self,
        k: &K,
        soup: Seq<BakedTri>,
        ray: Ray,
        i: int,
        below: int,
        acc: Found,
    )
        requires
            0 <= i < self.nodes@.len(),
            self.wf(soup.len() as int),
            self.bounding(k, soup, ray),
            self.shallow(i, below),
        ensures
            self.searched(k, soup, ray, i, below, acc) == tried_all(
                k,
                soup,
                ray,
                self.triangles_below(i),
                acc,
            ),
        decreases self.nodes@.len() - i,
    {
        let n = self.nodes@[i];
        assert(self.node_wf(i));
        if !box_met(k, ray, n.min, n.max, acc.limit) {
            lemma_none_struck(k, soup, ray, self.triangles_below(i), acc);
        } else if !n.leaf() {
            let right = self.searched(k, soup, ray, n.right_child as int, below + 1, acc);
            self.law_search_is_exhaustive(k, soup, ray, n.right_child as int, below + 1, acc);
            self.law_search_is_exhaustive(k, soup, ray, n.left_or_first as int, below, right);
            lemma_tried_add(
                k,
                soup,
                ray,
                self.triangles_below(n.right_child as int),
                self.triangles_below(n.left_or_first as int),
                acc,
            );
        }
    }
}

/// Triangles that are not struck change nothing.
proof fn lemma_none_struck<K: RayTests>(
    k: &K,
    soup: Seq<BakedTri>,
    ray: Ray,
    triangles: Seq<u32>,
    acc: Found,
)
    requires
        forall|j: int|
            0 <= j < triangles.len() ==> triangle_met(
                k,
                ray,
                soup[(#[trigger] triangles[j]) as int],
                acc.limit,
            ) is None,
    ensures
        tried_all(k, soup, ray, triangles, acc) == acc,
    decreases triangles.len(),
{
    if triangles.len() > 0 {
        let rest = triangles.drop_last();
        assert forall|j: int| 0 <= j < rest.len() implies triangle_met(
            k,
            ray,
            soup[(#[trigger] rest[j]) as int],
            acc.limit,
        ) is None by {
            assert(rest[j] == triangles[j]);
        }
        lemma_none_struck(k, soup, ray, rest, acc);
        assert(triangles[triangles.len() - 1] == triangles.last());
    }
}

/// Trying one batch after another is trying both.
proof fn lemma_tried_add<K: RayTests>(
    k: &K,
    soup: Seq<BakedTri>,
    ray: Ray,
    a: Seq<u32>,
    b: Seq<u32>,
    acc: Found,
)
    ensures
        tried_all(k, soup, ray, a + b, acc) == tried_all(
            k,
            soup,
            ray,
            b,
            tried_all(k, soup, ray, a, acc),
        ),
    decreases b.len(),
{
    if b.len() == 0 {
        assert(a + b =~= a);
    } else {
        assert((a + b).drop_last() =~= a + b.drop_last());
        assert((a + b).last() == b.last());
        lemma_tried_add(k, soup, ray, a, b.drop_last(), acc);
    }
}

/// Whether a limit only cuts off: a triangle is struck within a limit just
/// where it is struck at all, and no farther than the limit.
pub open spec fn limit_cuts_off<K: RayTests>(
    k: &K,
    ray: Ray,
    tri: BakedTri,
    strike: Option<Strike>,
) -> bool {
    &&& strike matches Some(s) ==> !s.t.nan()
    &&& forall|t_max: Real|
        !t_max.nan() ==> #[trigger] triangle_met(k, ray, tri, t_max) == (match strike {
            Some(s) => if s.t.at_most(t_max) {
                strike
            } else {
                None
            },
            None => None,
        })
}

/// Whether a strike within `t_max` is matched by a hit that is no farther
/// away.
pub open spec fn accounted_for(strike: Option<Strike>, t_max: Real, found: Found) -> bool {
    match strike {
        Some(s) => s.t.at_most(t_max) ==> found.hit is Some && found.limit.at_most(s.t),
        None => true,
    }
}

/// Whether a hit is one of the strikes on several triangles.
pub open spec fn is_strike_on<K: Arith>(
    k: &K,
    triangles: Seq<u32>,
    strikes: spec_fn(u32) -> Option<Strike>,
    h: Hit,
) -> bool {
    exists|j: int|
        0 <= j < triangles.len() && strikes(#[trigger] triangles[j]) is Some && h == hit_of(
            k,
            strikes(triangles[j])->0,
            triangles[j] as usize,
        )
}

/// The closest hit is the closest: where limits only cut off, every triangle
/// that is struck within `t_max` is struck no nearer than the hit that was
/// found, and there is one if any is struck. The hit that was found is where
/// one of the triangles is struck.
pub proof fn law_closest_is_closest<K: RayTests>(
    k: &K,
    soup: Seq<BakedTri>,
    ray: Ray,
    triangles: Seq<u32>,
    strikes: spec_fn(u32) -> Option<Strike>,
    t_max: Real,
)
    requires
        !t_max.nan(),
        forall|j: int|
            0 <= j < triangles.len() ==> limit_cuts_off(
                k,
                ray,
                soup[(#[trigger] triangles[j]) as int],
                strikes(triangles[j]),
            ),
    ensures
        ({
            let r = tried_all(k, soup, ray, triangles, Found { hit: None, limit: t_max });
            &&& !r.limit.nan()
            &&& r.limit.at_most(t_max)
            &&& r.hit is None ==> r.limit == t_max
            &&& r.hit matches Some(h) ==> h.t == r.limit && is_strike_on(k, triangles, strikes, h)
            &&& forall|j: int|
                0 <= j < triangles.len() ==> accounted_for(
                    strikes(#[trigger] triangles[j]),
                    t_max,
                    r,
                )
        }),
    decreases triangles.len(),
{
    if triangles.len() > 0 {
        let rest = triangles.drop_last();
        let n = triangles.len() - 1;
        assert forall|j: int| 0 <= j < rest.len() implies limit_cuts_off(
            k,
            ray,
            soup[(#[trigger] rest[j]) as int],
            strikes(rest[j]),
        ) by {
            assert(rest[j] == triangles[j]);
        }
        law_closest_is_closest(k, soup, ray, rest, strikes, t_max);
        let none = Found { hit: None, limit: t_max };
        let before = tried_all(k, soup, ray, rest, none);
        let r = tried_all(k, soup, ray, triangles, none);
        assert(triangles[n] == triangles.last());
        assert(limit_cuts_off(k, ray, soup[triangles[n] as int], strikes(triangles[n])));
        assert forall|j: int| 0 <= j < triangles.len() implies accounted_for(
            strikes(#[trigger] triangles[j]),
            t_max,
            r,
        ) by {
            if j < n {
                assert(rest[j] == triangles[j]);
            }
        }
        if let Some(h) = before.hit {
            let j = choose|j: int|
                0 <= j < rest.len() && strikes(#[trigger] rest[j]) is Some && h == hit_of(
                    k,
                    strikes(rest[j])->0,
                    rest[j] as usize,
                );
            assert(rest[j] == triangles[j]);
        }
    }
}

/// Hierarchies that say the same are searched with the same outcome.
pub proof fn lemma_same_search<K: RayTests>(
    k: &K,
    a: Bvh,
    b: Bvh,
    soup: Seq<BakedTri>,
    ray: Ray,
    i: int,
    below: int,
    acc: Found,
)
    requires
        tree_of(Some(a)) == tree_of(Some(b)),
    ensures
        a.searched(k, soup, ray, i, below, acc) == b.searched(k, soup, ray, i, below, acc),
    decreases a.nodes@.len() - i,
{
    let n = a.nodes@[i];
    if 0 <= i < a.nodes@.len() && a.node_wf(i) && !n.leaf() && below + 2 <= STACK {
        lemma_same_search(k, a, b, soup, ray, n.right_child as int, below + 1, acc);
        let right = a.searched(k, soup, ray, n.right_child as int, below + 1, acc);
        lemma_same_search(k, a, b, soup, ray, n.left_or_first as int, below, right);
    }
    assert(a.node_wf(i) == b.node_wf(i));
    assert(a.leaf_triangles(i) == b.leaf_triangles(i));
}

/// Hierarchies that say the same block the same rays.
pub proof fn lemma_same_shadow<K: RayTests>(
    k: &K,
    a: Bvh,
    b: Bvh,
    soup: Seq<BakedTri>,
    ray: Ray,
    i: int,
    below: int,
    t_max: Real,
)
    requires
        tree_of(Some(a)) == tree_of(Some(b)),
    ensures
        a.blocked(k, soup, ray, i, below, t_max) == b.blocked(k, soup, ray, i, below, t_max),
    decreases a.nodes@.len() - i,
{
    let n = a.nodes@[i];
    if 0 <= i < a.nodes@.len() && a.node_wf(i) && !n.leaf() && below + 2 <= STACK {
        lemma_same_shadow(k, a, b, soup, ray, n.right_child as int, below + 1, t_max);
        lemma_same_shadow(k, a, b, soup, ray, n.left_or_first as int, below, t_max);
    }
    assert(a.node_wf(i) == b.node_wf(i));
    assert(a.leaf_triangles(i) == b.leaf_triangles(i));
}

/// Trying triangles of a soup finds triangles of that soup.
proof fn lemma_tried_in_soup<K: RayTests>(
    k: &K,
    soup: Seq<BakedTri>,
    ray: Ray,
    triangles: Seq<u32>,
    acc: Found,
)
    requires
        forall|j: int| 0 <= j < triangles.len() ==> (#[trigger] triangles[j]) < soup.len(),
        acc.hit matches Some(h) ==> h.triangle < soup.len(),
    ensures
        tried_all(k, soup, ray, triangles, acc).hit matches Some(h) ==> h.triangle < soup.len(),
    decreases triangles.len(),
{
    if triangles.len() > 0 {
        let rest = triangles.drop_last();
        assert forall|j: int| 0 <= j < rest.len() implies (#[trigger] rest[j]) < soup.len() by {
            assert(rest[j] == triangles[j]);
        }
        lemma_tried_in_soup(k, soup, ray, rest, acc);
        assert(triangles.last() == triangles[triangles.len() - 1]);
    }
}

/// A search finds triangles of the soup that the hierarchy indexes.
pub proof fn lemma_found_in_soup<K: RayTests>(
    k: &K,
    b: Bvh,
    soup: Seq<BakedTri>,
    ray: Ray,
    i: int,
    below: int,
    acc: Found,
)
    requires
        b.wf(soup.len() as int),
        acc.hit matches Some(h) ==> h.triangle < soup.len(),
    ensures
        b.searched(k, soup, ray, i, below, acc).hit matches Some(h) ==> h.triangle < soup.len(),
    decreases b.nodes@.len() - i,
{
    let n = b.nodes@[i];
    if 0 <= i < b.nodes@.len() && b.node_wf(i) {
        if n.leaf() {
            let tris = b.leaf_triangles(i);
            assert forall|j: int| 0 <= j < tris.len() implies (#[trigger] tris[j]) < soup.len() by {
                assert(tris[j] == b.triangles@[n.left_or_first + j]);
            }
            lemma_tried_in_soup(k, soup, ray, tris, acc);
        } else if below + 2 <= STACK {
            lemma_found_in_soup(k, b, soup, ray, n.right_child as int, below + 1, acc);
            let right = b.searched(k, soup, ray, n.right_child as int, below + 1, acc);
            lemma_found_in_soup(k, b, soup, ray, n.left_or_first as int, below, right);
        }
    }
}

} // verus!
