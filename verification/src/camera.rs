//! Camera framing and the scene's bounding box, shared by both backends.
//!
//! Without an override the camera sits on the `+Z` axis looking toward `-Z`
//! at a distance that fits the scene's world-space bounding box with a 1.2
//! times margin. An override orbits the same fit by elevation and azimuth.

use crate::arith::{
    cosine, difference, in_radians, product, quotient, repeatable, sine, sum, tangent, Arith,
};
use crate::math::{
    added, cross, dot, mat4_mul_vec4, normalised, scaled, subtracted, transformed, vec3, vec3_add,
    vec3_cross, vec3_dot, vec3_normalise, vec3_scale, vec3_sub, vec4, Mat4, Vec3,
};
use crate::number::{
    num, number_of, Real, EPSILON, HALF, INFINITY, MINUS_HALF, MINUS_ONE, MINUS_TWO,
    MIN_POSITIVE, NEG_INFINITY, ONE, TWO, ZERO,
};
use crate::options::{CameraSpec, Projection, RenderOptions};
use crate::scene::{scene_visits, sound_visits, walk_scene_preorder, Primitive, Scene, Visit};
use crate::precision::{about, amount, precise, size, within};
use crate::shade::{orbit_direction, orbit_toward};
use vstd::prelude::*;

verus! {

/// `1.0e-3`, the least extent that is framed, as a bit pattern.
pub const LEAST_EXTENT: u32 = 0x3a83_126f;

/// `1.2`, the margin around the scene, as a bit pattern.
pub const MARGIN: u32 = 0x3f99_999a;

/// `1.5`, how far an orthographic camera stands off in extents, as a bit
/// pattern.
pub const PARALLEL_DISTANCE: u32 = 0x3fc0_0000;

/// `0.01`, the least near distance in extents, as a bit pattern.
pub const NEAR_SHARE: u32 = 0x3c23_d70a;

/// World-space axis-aligned bounding box.
#[derive(Debug, Clone, Copy, PartialEq)]
pub struct BBox {
    /// Least coordinates.
    pub min: Vec3,
    /// Greatest coordinates.
    pub max: Vec3,
}

/// `m`, or `v` where that is smaller.
pub open spec fn lowered(m: Real, v: Real) -> Real {
    if v.below(m) {
        v
    } else {
        m
    }
}

/// `m`, or `v` where that is larger.
pub open spec fn raised(m: Real, v: Real) -> Real {
    if m.below(v) {
        v
    } else {
        m
    }
}

impl BBox {
    /// The box of no points.
    pub open spec fn nothing() -> BBox {
        let (lo, hi) = (num(INFINITY), num(NEG_INFINITY));
        BBox { min: vec3(lo, lo, lo), max: vec3(hi, hi, hi) }
    }

    /// The box of no points.
    pub fn empty() -> (b: BBox)
        ensures
            b == BBox::nothing(),
    {
        let lo = num(INFINITY);
        let hi = num(NEG_INFINITY);
        BBox { min: vec3(lo, lo, lo), max: vec3(hi, hi, hi) }
    }

    /// The box stretched to hold one more point. A coordinate that is a NaN
    /// stretches nothing.
    pub open spec fn stretched(self, p: Vec3) -> BBox {
        BBox {
            min: vec3(
                lowered(self.min.x, p.x),
                lowered(self.min.y, p.y),
                lowered(self.min.z, p.z),
            ),
            max: vec3(raised(self.max.x, p.x), raised(self.max.y, p.y), raised(self.max.z, p.z)),
        }
    }

    /// The box stretched to hold all the points.
    pub open spec fn around(self, points: Seq<Vec3>) -> BBox
        decreases points.len(),
    {
        if points.len() == 0 {
            self
        } else {
            self.around(points.drop_last()).stretched(points.last())
        }
    }

    /// Stretches the box to hold one more point.
    pub fn extend(&mut self, p: Vec3)
        ensures
            *final(self) == old(self).stretched(p),
    {
        if p.x.lt(self.min.x) {
            self.min.x = p.x;
        }
        if self.max.x.lt(p.x) {
            self.max.x = p.x;
        }
        if p.y.lt(self.min.y) {
            self.min.y = p.y;
        }
        if self.max.y.lt(p.y) {
            self.max.y = p.y;
        }
        if p.z.lt(self.min.z) {
            self.min.z = p.z;
        }
        if self.max.z.lt(p.z) {
            self.max.z = p.z;
        }
    }

    /// Whether the box is upside down along its first axis, as the box of no
    /// points is.
    pub open spec fn inverted(self) -> bool {
        self.max.x.below(self.min.x)
    }

    /// Whether no point has stretched the box along its first axis.
    pub fn is_empty(&self) -> (r: bool)
        ensures
            r == self.inverted(),
    {
        self.max.x.lt(self.min.x)
    }
}

/// Stretching to one batch after another is stretching to both.
proof fn lemma_around_add(b: BBox, p: Seq<Vec3>, q: Seq<Vec3>)
    ensures
        b.around(p + q) == b.around(p).around(q),
    decreases q.len(),
{
    if q.len() == 0 {
        assert(p + q =~= p);
    } else {
        assert((p + q).drop_last() =~= p + q.drop_last());
        lemma_around_add(b, p, q.drop_last());
    }
}

/// World-space point of a vertex; none if the transform sends it to
/// infinity.
pub open spec fn world_point<K: Arith>(k: &K, world: &Mat4, p: Vec3) -> Seq<Vec3> {
    let v = transformed(k, world, vec4(p.x, p.y, p.z, num(ONE)));
    if num(EPSILON).below(v.w.unsigned()) {
        seq![vec3(quotient(k, v.x, v.w), quotient(k, v.y, v.w), quotient(k, v.z, v.w))]
    } else {
        seq![]
    }
}

/// World-space points of vertices.
pub open spec fn world_points<K: Arith>(k: &K, world: &Mat4, positions: Seq<Vec3>) -> Seq<Vec3>
    decreases positions.len(),
{
    if positions.len() == 0 {
        seq![]
    } else {
        world_points(k, world, positions.drop_last()) + world_point(k, world, positions.last())
    }
}

/// World-space points of all vertices of primitives.
pub open spec fn mesh_points<K: Arith>(k: &K, world: &Mat4, prims: Seq<Primitive>) -> Seq<Vec3>
    decreases prims.len(),
{
    if prims.len() == 0 {
        seq![]
    } else {
        mesh_points(k, world, prims.drop_last()) + world_points(
            k,
            world,
            prims.last().positions@,
        )
    }
}

/// The primitives that a visited node carries: none if it has no mesh or
/// names one that does not exist.
pub open spec fn carried(scene: &Scene, node: int) -> Seq<Primitive> {
    match scene.nodes@[node].mesh {
        Some(id) => if id < scene.meshes@.len() {
            scene.meshes@[id as int].primitives@
        } else {
            seq![]
        },
        None => seq![],
    }
}

/// World-space points of all vertices that the visited nodes carry.
pub open spec fn visit_points<K: Arith>(k: &K, scene: &Scene, visits: Seq<Visit>) -> Seq<Vec3>
    decreases visits.len(),
{
    if visits.len() == 0 {
        seq![]
    } else {
        let v = visits.last();
        visit_points(k, scene, visits.drop_last()) + mesh_points(
            k,
            &v.world,
            carried(scene, v.node as int),
        )
    }
}

/// The bounding box that the camera frames: that of every mesh vertex, or,
/// where there is none, a unit box around the origin.
pub open spec fn framed_box<K: Arith>(k: &K, scene: &Scene) -> BBox {
    let b = BBox::nothing().around(visit_points(k, scene, scene_visits(k, scene)));
    if b.inverted() {
        let (lo, hi) = (num(MINUS_HALF), num(HALF));
        BBox { min: vec3(lo, lo, lo), max: vec3(hi, hi, hi) }
    } else {
        b
    }
}

/// Stretches a box to the world-space points of vertices.
fn extend_to_points<K: Arith>(k: &K, b: &mut BBox, world: &Mat4, positions: &Vec<Vec3>)
    ensures
        repeatable(k) ==> *final(b) == old(b).around(world_points(k, world, positions@)),
{
    let ghost start = *b;
    let mut i: usize = 0;
    assert(positions@.take(0) =~= seq![]);
    while i < positions.len()
        invariant
            i <= positions@.len(),
            repeatable(k) ==> *b == start.around(
                world_points(k, world, positions@.take(i as int)),
            ),
        decreases positions@.len() - i,
    {
        let p = positions[i];
        proof {
            assert(positions@.take(i + 1).drop_last() =~= positions@.take(i as int));
            lemma_around_add(
                start,
                world_points(k, world, positions@.take(i as int)),
                world_point(k, world, p),
            );
            reveal_with_fuel(BBox::around, 2);
        }
        let v = mat4_mul_vec4(k, world, vec4(p.x, p.y, p.z, num(ONE)));
        if num(EPSILON).lt(v.w.abs()) {
            let q = vec3(k.over(v.x, v.w), k.over(v.y, v.w), k.over(v.z, v.w));
            assert(seq![q].drop_last() =~= seq![]);
            b.extend(q);
        }
        i += 1;
    }
    assert(positions@.take(i as int) =~= positions@);
}

/// Stretches a box to the world-space points of primitives.
fn extend_to_mesh<K: Arith>(k: &K, b: &mut BBox, world: &Mat4, prims: &Vec<Primitive>)
    ensures
        repeatable(k) ==> *final(b) == old(b).around(mesh_points(k, world, prims@)),
{
    let ghost start = *b;
    let mut i: usize = 0;
    assert(prims@.take(0) =~= seq![]);
    while i < prims.len()
        invariant
            i <= prims@.len(),
            repeatable(k) ==> *b == start.around(mesh_points(k, world, prims@.take(i as int))),
        decreases prims@.len() - i,
    {
        proof {
            assert(prims@.take(i + 1).drop_last() =~= prims@.take(i as int));
            lemma_around_add(
                start,
                mesh_points(k, world, prims@.take(i as int)),
                world_points(k, world, prims@[i as int].positions@),
            );
        }
        extend_to_points(k, b, world, &prims[i].positions);
        i += 1;
    }
    assert(prims@.take(i as int) =~= prims@);
}

/// The bounding box that the camera frames.
pub fn scene_bbox<K: Arith>(k: &K, scene: &Scene) -> (r: BBox)
    ensures
        repeatable(k) ==> r == framed_box(k, scene),
{
    let visits = walk_scene_preorder(k, scene);
    let mut b = BBox::empty();
    let mut i: usize = 0;
    assert(visits@.take(0) =~= seq![]);
    while i < visits.len()
        invariant
            i <= visits@.len(),
            sound_visits(scene, visits@),
            repeatable(k) ==> b == BBox::nothing().around(
                visit_points(k, scene, visits@.take(i as int)),
            ),
        decreases visits@.len() - i,
    {
        let v = visits[i];
        proof {
            assert(visits@.take(i + 1).drop_last() =~= visits@.take(i as int));
            lemma_around_add(
                BBox::nothing(),
                visit_points(k, scene, visits@.take(i as int)),
                mesh_points(k, &v.world, carried(scene, v.node as int)),
            );
        }
        if let Some(id) = scene.nodes[v.node].mesh {
            if (id as usize) < scene.meshes.len() {
                extend_to_mesh(k, &mut b, &v.world, &scene.meshes[id as usize].primitives);
            }
        }
        i += 1;
    }
    assert(visits@.take(i as int) =~= visits@);
    if b.is_empty() {
        let lo = num(MINUS_HALF);
        let hi = num(HALF);
        BBox { min: vec3(lo, lo, lo), max: vec3(hi, hi, hi) }
    } else {
        b
    }
}

/// A framed camera: matrices for the rasteriser, and the placement from
/// which rays are made.
#[derive(Debug, Clone, Copy, PartialEq)]
pub struct Camera {
    /// World to view; rows are the camera basis.
    pub view: Mat4,
    /// View to clip.
    pub proj: Mat4,
    /// Position in world space.
    pub eye: Vec3,
    /// Unit vector toward the target.
    pub forward: Vec3,
    /// Unit vector to the right.
    pub side: Vec3,
    /// Unit vector upward.
    pub up: Vec3,
    /// Projection kind.
    pub projection: Projection,
    /// Near plane distance along `forward`.
    pub near: Real,
    /// Far plane distance along `forward`.
    pub far: Real,
    /// Half width of the view plane: at unit distance in perspective, in
    /// world units otherwise.
    pub half_w: Real,
    /// Half height of the view plane, likewise.
    pub half_h: Real,
}

/// A ray.
#[derive(Debug, Clone, Copy, PartialEq)]
pub struct Ray {
    /// Where it starts.
    pub origin: Vec3,
    /// Where it goes.
    pub direction: Vec3,
}

/// Where a camera stands, and how far from its target.
#[derive(Debug, Clone, Copy, PartialEq)]
pub struct Stand {
    /// Position in world space.
    pub eye: Vec3,
    /// Distance from the target.
    pub distance: Real,
}

/// What a projection makes of the framed scene.
#[derive(Debug, Clone, Copy, PartialEq)]
pub struct Frustum {
    /// View to clip.
    pub proj: Mat4,
    /// Near plane distance.
    pub near: Real,
    /// Far plane distance.
    pub far: Real,
    /// Half width of the view plane.
    pub half_w: Real,
    /// Half height of the view plane.
    pub half_h: Real,
}

/// Right-handed view matrix; its rows are side, up and backward.
pub open spec fn view_matrix<K: Arith>(k: &K, eye: Vec3, target: Vec3, up: Vec3) -> Mat4 {
    let f = normalised(k, subtracted(k, target, eye));
    let s = normalised(k, cross(k, f, up));
    let u = cross(k, s, f);
    Mat4 {
        r0: vec4(s.x, s.y, s.z, dot(k, s, eye).flipped()),
        r1: vec4(u.x, u.y, u.z, dot(k, u, eye).flipped()),
        r2: vec4(f.x.flipped(), f.y.flipped(), f.z.flipped(), dot(k, f, eye)),
        r3: vec4(num(ZERO), num(ZERO), num(ZERO), num(ONE)),
    }
}

/// Right-handed view matrix; its rows are side, up and backward.
pub fn look_at<K: Arith>(k: &K, eye: Vec3, target: Vec3, up: Vec3) -> (r: Mat4)
    ensures
        repeatable(k) ==> r == view_matrix(k, eye, target, up),
{
    let f = vec3_normalise(k, vec3_sub(k, target, eye));
    let s = vec3_normalise(k, vec3_cross(k, f, up));
    let u = vec3_cross(k, s, f);
    Mat4 {
        r0: vec4(s.x, s.y, s.z, vec3_dot(k, s, eye).neg()),
        r1: vec4(u.x, u.y, u.z, vec3_dot(k, u, eye).neg()),
        r2: vec4(f.x.neg(), f.y.neg(), f.z.neg(), vec3_dot(k, f, eye)),
        r3: vec4(num(ZERO), num(ZERO), num(ZERO), num(ONE)),
    }
}

/// Right-handed perspective projection; depth goes from -1 to 1.
pub open spec fn perspective_matrix<K: Arith>(
    k: &K,
    fov_y: Real,
    aspect: Real,
    near: Real,
    far: Real,
) -> Mat4 {
    let f = quotient(k, num(ONE), tangent(k, product(k, fov_y, num(HALF))));
    let nf = quotient(k, num(ONE), difference(k, near, far));
    let slope = product(k, sum(k, far, near), nf);
    let shift = product(k, product(k, product(k, num(TWO), far), near), nf);
    Mat4 {
        r0: vec4(quotient(k, f, aspect), num(ZERO), num(ZERO), num(ZERO)),
        r1: vec4(num(ZERO), f, num(ZERO), num(ZERO)),
        r2: vec4(num(ZERO), num(ZERO), slope, shift),
        r3: vec4(num(ZERO), num(ZERO), num(MINUS_ONE), num(ZERO)),
    }
}

/// Right-handed perspective projection; depth goes from -1 to 1.
pub fn perspective<K: Arith>(
    k: &K,
    fov_y: Real,
    aspect: Real,
    near: Real,
    far: Real,
) -> (r: Mat4)
    ensures
        repeatable(k) ==> r == perspective_matrix(k, fov_y, aspect, near, far),
{
    let f = k.over(num(ONE), k.tan(k.times(fov_y, num(HALF))));
    let nf = k.over(num(ONE), k.minus(near, far));
    let slope = k.times(k.plus(far, near), nf);
    let shift = k.times(k.times(k.times(num(TWO), far), near), nf);
    Mat4 {
        r0: vec4(k.over(f, aspect), num(ZERO), num(ZERO), num(ZERO)),
        r1: vec4(num(ZERO), f, num(ZERO), num(ZERO)),
        r2: vec4(num(ZERO), num(ZERO), slope, shift),
        r3: vec4(num(ZERO), num(ZERO), num(MINUS_ONE), num(ZERO)),
    }
}

/// Right-handed orthographic projection; the homogeneous coordinate stays one.
pub open spec fn orthographic_matrix<K: Arith>(
    k: &K,
    left: Real,
    right: Real,
    bottom: Real,
    top: Real,
    near: Real,
    far: Real,
) -> Mat4 {
    let rl = difference(k, right, left);
    let tb = difference(k, top, bottom);
    let fne = difference(k, far, near);
    let dx = quotient(k, sum(k, right, left).flipped(), rl);
    let dy = quotient(k, sum(k, top, bottom).flipped(), tb);
    let dz = quotient(k, sum(k, far, near).flipped(), fne);
    Mat4 {
        r0: vec4(quotient(k, num(TWO), rl), num(ZERO), num(ZERO), dx),
        r1: vec4(num(ZERO), quotient(k, num(TWO), tb), num(ZERO), dy),
        r2: vec4(num(ZERO), num(ZERO), quotient(k, num(MINUS_TWO), fne), dz),
        r3: vec4(num(ZERO), num(ZERO), num(ZERO), num(ONE)),
    }
}

/// Right-handed orthographic projection; the homogeneous coordinate stays one.
pub fn orthographic<K: Arith>(
    k: &K,
    left: Real,
    right: Real,
    bottom: Real,
    top: Real,
    near: Real,
    far: Real,
) -> (r: Mat4)
    ensures
        repeatable(k) ==> r == orthographic_matrix(k, left, right, bottom, top, near, far),
{
    let rl = k.minus(right, left);
    let tb = k.minus(top, bottom);
    let fne = k.minus(far, near);
    let dx = k.over(k.plus(right, left).neg(), rl);
    let dy = k.over(k.plus(top, bottom).neg(), tb);
    let dz = k.over(k.plus(far, near).neg(), fne);
    Mat4 {
        r0: vec4(k.over(num(TWO), rl), num(ZERO), num(ZERO), dx),
        r1: vec4(num(ZERO), k.over(num(TWO), tb), num(ZERO), dy),
        r2: vec4(num(ZERO), num(ZERO), k.over(num(MINUS_TWO), fne), dz),
        r3: vec4(num(ZERO), num(ZERO), num(ZERO), num(ONE)),
    }
}

/// Distance at which the scene fits the frame.
pub open spec fn fitting_distance<K: Arith>(
    k: &K,
    projection: Projection,
    fov_y: Real,
    radius: Real,
    extent: Real,
) -> Real {
    match projection {
        Projection::Perspective => quotient(k, radius, tangent(k, product(k, fov_y, num(HALF)))),
        Projection::Orthographic => product(k, extent, num(PARALLEL_DISTANCE)),
    }
}

/// Distance at which the scene fits the frame.
pub fn auto_distance<K: Arith>(
    k: &K,
    projection: Projection,
    fov_y: Real,
    radius: Real,
    extent: Real,
) -> (r: Real)
    ensures
        repeatable(k) ==> r == fitting_distance(k, projection, fov_y, radius, extent),
{
    match projection {
        Projection::Perspective => k.over(radius, k.tan(k.times(fov_y, num(HALF)))),
        Projection::Orthographic => k.times(extent, num(PARALLEL_DISTANCE)),
    }
}

/// Placement on an orbit; the distance is a multiple of the fitting one.
pub open spec fn orbit_stand<K: Arith>(k: &K, cam: CameraSpec, fit: Real, center: Vec3) -> Stand {
    let dist = product(k, fit, cam.distance);
    let dir = orbit_toward(k, cam.azimuth_deg, cam.elevation_deg);
    Stand { eye: added(k, center, scaled(k, dir, dist)), distance: dist }
}

/// Placement on an orbit; the distance is a multiple of the fitting one.
pub fn user_orbit<K: Arith>(k: &K, cam: CameraSpec, fit: Real, center: Vec3) -> (r: Stand)
    ensures
        repeatable(k) ==> r == orbit_stand(k, cam, fit, center),
{
    let dist = k.times(fit, cam.distance);
    let dir = orbit_direction(k, cam.azimuth_deg, cam.elevation_deg);
    Stand { eye: vec3_add(k, center, vec3_scale(k, dir, dist)), distance: dist }
}

/// Placement of the camera: on its orbit, or down the `+Z` axis.
pub open spec fn camera_stand<K: Arith>(
    k: &K,
    camera: Option<CameraSpec>,
    fit: Real,
    center: Vec3,
) -> Stand {
    match camera {
        Some(cam) => orbit_stand(k, cam, fit, center),
        None => Stand { eye: vec3(center.x, center.y, sum(k, center.z, fit)), distance: fit },
    }
}

/// Placement of the camera: on its orbit, or down the `+Z` axis.
pub fn place_camera<K: Arith>(
    k: &K,
    camera: Option<CameraSpec>,
    fit: Real,
    center: Vec3,
) -> (r: Stand)
    ensures
        repeatable(k) ==> r == camera_stand(k, camera, fit, center),
{
    match camera {
        Some(cam) => user_orbit(k, cam, fit, center),
        None => Stand { eye: vec3(center.x, center.y, k.plus(center.z, fit)), distance: fit },
    }
}

/// Perspective frustum around the scene.
pub open spec fn perspective_frustum<K: Arith>(
    k: &K,
    fov_y: Real,
    aspect: Real,
    distance: Real,
    extent: Real,
) -> Frustum {
    let near = difference(k, distance, extent).greater(product(k, extent, num(NEAR_SHARE)));
    let far = sum(k, distance, product(k, extent, num(TWO)));
    let tan_half = tangent(k, product(k, fov_y, num(HALF)));
    Frustum {
        proj: perspective_matrix(k, fov_y, aspect, near, far),
        near,
        far,
        half_w: product(k, tan_half, aspect),
        half_h: tan_half,
    }
}

/// Perspective frustum around the scene.
pub fn frame_perspective<K: Arith>(
    k: &K,
    fov_y: Real,
    aspect: Real,
    distance: Real,
    extent: Real,
) -> (r: Frustum)
    ensures
        repeatable(k) ==> r == perspective_frustum(k, fov_y, aspect, distance, extent),
{
    let near = k.minus(distance, extent).max(k.times(extent, num(NEAR_SHARE)));
    let far = k.plus(distance, k.times(extent, num(TWO)));
    let tan_half = k.tan(k.times(fov_y, num(HALF)));
    Frustum {
        proj: perspective(k, fov_y, aspect, near, far),
        near,
        far,
        half_w: k.times(tan_half, aspect),
        half_h: tan_half,
    }
}

/// Orthographic frustum around the scene: the full extent on the smaller
/// axis.
pub open spec fn orthographic_frustum<K: Arith>(
    k: &K,
    radius: Real,
    aspect: Real,
    distance: Real,
    extent: Real,
) -> Frustum {
    let wide = num(ONE).at_most(aspect);
    let half_w = if wide {
        product(k, radius, aspect)
    } else {
        radius
    };
    let half_h = if wide {
        radius
    } else {
        quotient(k, radius, aspect)
    };
    let near = difference(k, distance, product(k, extent, num(TWO))).lesser(extent.flipped());
    let far = sum(k, distance, product(k, extent, num(TWO)));
    let proj = orthographic_matrix(
        k,
        half_w.flipped(),
        half_w,
        half_h.flipped(),
        half_h,
        near,
        far,
    );
    Frustum { proj, near, far, half_w, half_h }
}

/// Orthographic frustum around the scene: the full extent on the smaller
/// axis.
pub fn frame_orthographic<K: Arith>(
    k: &K,
    radius: Real,
    aspect: Real,
    distance: Real,
    extent: Real,
) -> (r: Frustum)
    ensures
        repeatable(k) ==> r == orthographic_frustum(k, radius, aspect, distance, extent),
{
    let wide = num(ONE).le(aspect);
    let half_w = if wide {
        k.times(radius, aspect)
    } else {
        radius
    };
    let half_h = if wide {
        radius
    } else {
        k.over(radius, aspect)
    };
    let near = k.minus(distance, k.times(extent, num(TWO))).min(extent.neg());
    let far = k.plus(distance, k.times(extent, num(TWO)));
    let proj = orthographic(k, half_w.neg(), half_w, half_h.neg(), half_h, near, far);
    Frustum { proj, near, far, half_w, half_h }
}

/// Centre of a box.
pub open spec fn center_of<K: Arith>(k: &K, b: &BBox) -> Vec3 {
    vec3(
        product(k, sum(k, b.min.x, b.max.x), num(HALF)),
        product(k, sum(k, b.min.y, b.max.y), num(HALF)),
        product(k, sum(k, b.min.z, b.max.z), num(HALF)),
    )
}

/// Centre of a box.
pub fn bbox_center<K: Arith>(k: &K, b: &BBox) -> (r: Vec3)
    ensures
        repeatable(k) ==> r == center_of(k, b),
{
    vec3(
        k.times(k.plus(b.min.x, b.max.x), num(HALF)),
        k.times(k.plus(b.min.y, b.max.y), num(HALF)),
        k.times(k.plus(b.min.z, b.max.z), num(HALF)),
    )
}

/// Longest side of a box, and at least [`LEAST_EXTENT`].
pub open spec fn extent_of<K: Arith>(k: &K, b: &BBox) -> Real {
    let dx = difference(k, b.max.x, b.min.x);
    let dy = difference(k, b.max.y, b.min.y);
    let dz = difference(k, b.max.z, b.min.z);
    dx.greater(dy).greater(dz).greater(num(LEAST_EXTENT))
}

/// Longest side of a box, and at least [`LEAST_EXTENT`].
pub fn bbox_extent<K: Arith>(k: &K, b: &BBox) -> (r: Real)
    ensures
        repeatable(k) ==> r == extent_of(k, b),
{
    let dx = k.minus(b.max.x, b.min.x);
    let dy = k.minus(b.max.y, b.min.y);
    let dz = k.minus(b.max.z, b.min.z);
    dx.max(dy).max(dz).max(num(LEAST_EXTENT))
}

/// A camera that frames `bbox` under `opts`, for a frame whose width is
/// `aspect` times its height.
pub open spec fn framed_camera<K: Arith>(
    k: &K,
    aspect: Real,
    bbox: &BBox,
    opts: &RenderOptions,
) -> Camera {
    let center = center_of(k, bbox);
    let extent = extent_of(k, bbox);
    let radius = product(k, product(k, extent, num(HALF)), num(MARGIN));
    let fov_y = in_radians(k, opts.fov_deg);
    let fit = fitting_distance(k, opts.projection, fov_y, radius, extent);
    let stand = camera_stand(k, opts.camera, fit, center);
    let world_up = vec3(num(ZERO), num(ONE), num(ZERO));
    let forward = normalised(k, subtracted(k, center, stand.eye));
    let side = normalised(k, cross(k, forward, world_up));
    let frustum = match opts.projection {
        Projection::Perspective => perspective_frustum(k, fov_y, aspect, stand.distance, extent),
        Projection::Orthographic => orthographic_frustum(
            k,
            radius,
            aspect,
            stand.distance,
            extent,
        ),
    };
    Camera {
        view: view_matrix(k, stand.eye, center, world_up),
        proj: frustum.proj,
        eye: stand.eye,
        forward,
        side,
        up: cross(k, side, forward),
        projection: opts.projection,
        near: frustum.near,
        far: frustum.far,
        half_w: frustum.half_w,
        half_h: frustum.half_h,
    }
}

/// A camera that frames `bbox` under `opts`, for a frame whose width is
/// `aspect` times its height.
pub fn frame_camera<K: Arith>(
    k: &K,
    aspect: Real,
    bbox: &BBox,
    opts: &RenderOptions,
) -> (r: Camera)
    ensures
        repeatable(k) ==> r == framed_camera(k, aspect, bbox, opts),
{
    let center = bbox_center(k, bbox);
    let extent = bbox_extent(k, bbox);
    let radius = k.times(k.times(extent, num(HALF)), num(MARGIN));
    let fov_y = k.radians(opts.fov_deg);
    let fit = auto_distance(k, opts.projection, fov_y, radius, extent);
    let stand = place_camera(k, opts.camera, fit, center);
    let world_up = vec3(num(ZERO), num(ONE), num(ZERO));
    let forward = vec3_normalise(k, vec3_sub(k, center, stand.eye));
    let side = vec3_normalise(k, vec3_cross(k, forward, world_up));
    let frustum = match opts.projection {
        Projection::Perspective => frame_perspective(k, fov_y, aspect, stand.distance, extent),
        Projection::Orthographic => frame_orthographic(k, radius, aspect, stand.distance, extent),
    };
    Camera {
        view: look_at(k, stand.eye, center, world_up),
        proj: frustum.proj,
        eye: stand.eye,
        forward,
        side,
        up: vec3_cross(k, side, forward),
        projection: opts.projection,
        near: frustum.near,
        far: frustum.far,
        half_w: frustum.half_w,
        half_h: frustum.half_h,
    }
}

/// A camera for a frame of `width` by `height`; a dimension of zero counts
/// as one.
pub open spec fn camera_for<K: Arith>(
    k: &K,
    width: int,
    height: int,
    bbox: &BBox,
    opts: &RenderOptions,
) -> Camera {
    let w = if width < 1 {
        1
    } else {
        width
    };
    let h = if height < 1 {
        1
    } else {
        height
    };
    framed_camera(k, quotient(k, number_of(w), number_of(h)), bbox, opts)
}

impl Camera {
    /// Builds a camera that honours the camera, projection and field of view
    /// of `opts`.
    pub fn build<K: Arith>(
        k: &K,
        width: u32,
        height: u32,
        bbox: &BBox,
        opts: &RenderOptions,
    ) -> (r: Camera)
        ensures
            repeatable(k) ==> r == camera_for(k, width as int, height as int, bbox, opts),
    {
        let w: u32 = if width < 1 {
            1
        } else {
            width
        };
        let h: u32 = if height < 1 {
            1
        } else {
            height
        };
        let aspect = k.over(Real::of_u32(w), Real::of_u32(h));
        frame_camera(k, aspect, bbox, opts)
    }
}

/// The ray through the point `(px, py)` of a `width` by `height` viewport,
/// with a unit direction.
pub open spec fn ray_through<K: Arith>(
    k: &K,
    cam: &Camera,
    px: Real,
    py: Real,
    width: Real,
    height: Real,
) -> Ray {
    let ndc_x = difference(
        k,
        product(k, quotient(k, px, width.greater(num(ONE))), num(TWO)),
        num(ONE),
    );
    let ndc_y = difference(
        k,
        num(ONE),
        product(k, quotient(k, py, height.greater(num(ONE))), num(TWO)),
    );
    let right = scaled(k, cam.side, product(k, ndc_x, cam.half_w));
    let above = scaled(k, cam.up, product(k, ndc_y, cam.half_h));
    let across = added(k, right, above);
    match cam.projection {
        Projection::Perspective => Ray {
            origin: cam.eye,
            direction: normalised(k, added(k, across, cam.forward)),
        },
        Projection::Orthographic => Ray {
            origin: added(k, cam.eye, across),
            direction: cam.forward,
        },
    }
}

/// The ray through the point `(px, py)` of a `width` by `height` viewport,
/// with a unit direction.
pub fn primary_ray<K: Arith>(
    k: &K,
    cam: &Camera,
    px: Real,
    py: Real,
    width: Real,
    height: Real,
) -> (r: Ray)
    ensures
        repeatable(k) ==> r == ray_through(k, cam, px, py, width, height),
{
    let ndc_x = k.minus(k.times(k.over(px, width.max(num(ONE))), num(TWO)), num(ONE));
    let ndc_y = k.minus(num(ONE), k.times(k.over(py, height.max(num(ONE))), num(TWO)));
    let right = vec3_scale(k, cam.side, k.times(ndc_x, cam.half_w));
    let above = vec3_scale(k, cam.up, k.times(ndc_y, cam.half_h));
    let across = vec3_add(k, right, above);
    match cam.projection {
        Projection::Perspective => Ray {
            origin: cam.eye,
            direction: vec3_normalise(k, vec3_add(k, across, cam.forward)),
        },
        Projection::Orthographic => Ray {
            origin: vec3_add(k, cam.eye, across),
            direction: cam.forward,
        },
    }
}

/// The depth that the projection gives to a point `view_depth` in front of
/// the camera: -1 at the near plane, 1 at the far one.
pub open spec fn depth_of<K: Arith>(k: &K, cam: &Camera, view_depth: Real) -> Real {
    match cam.projection {
        Projection::Perspective => {
            let nf = quotient(k, num(ONE), difference(k, cam.near, cam.far));
            let d = view_depth.greater(num(MIN_POSITIVE));
            let slope = product(k, sum(k, cam.far, cam.near).flipped(), nf);
            let shift = product(k, product(k, product(k, num(TWO), cam.far), cam.near), nf);
            sum(k, slope, quotient(k, shift, d))
        },
        Projection::Orthographic => {
            let fne = difference(k, cam.far, cam.near);
            if fne.unsigned().below(num(EPSILON)) {
                num(ZERO)
            } else {
                quotient(
                    k,
                    difference(k, product(k, num(TWO), view_depth), sum(k, cam.far, cam.near)),
                    fne,
                )
            }
        },
    }
}

/// The depth that the projection gives to a point `view_depth` in front of
/// the camera: -1 at the near plane, 1 at the far one.
pub fn ndc_z<K: Arith>(k: &K, cam: &Camera, view_depth: Real) -> (r: Real)
    ensures
        repeatable(k) ==> r == depth_of(k, cam, view_depth),
{
    match cam.projection {
        Projection::Perspective => {
            let nf = k.over(num(ONE), k.minus(cam.near, cam.far));
            let d = view_depth.max(num(MIN_POSITIVE));
            let slope = k.times(k.plus(cam.far, cam.near).neg(), nf);
            let shift = k.times(k.times(k.times(num(TWO), cam.far), cam.near), nf);
            k.plus(slope, k.over(shift, d))
        },
        Projection::Orthographic => {
            let fne = k.minus(cam.far, cam.near);
            if fne.abs().lt(num(EPSILON)) {
                num(ZERO)
            } else {
                k.over(k.minus(k.times(num(TWO), view_depth), k.plus(cam.far, cam.near)), fne)
            }
        },
    }
}

/// Distance of a point along the camera's forward axis.
pub open spec fn forward_depth<K: Arith>(k: &K, cam: &Camera, p: Vec3) -> Real {
    dot(k, subtracted(k, p, cam.eye), cam.forward)
}

/// Distance of a point along the camera's forward axis.
pub fn view_depth<K: Arith>(k: &K, cam: &Camera, p: Vec3) -> (r: Real)
    ensures
        repeatable(k) ==> r == forward_depth(k, cam, p),
{
    vec3_dot(k, vec3_sub(k, p, cam.eye), cam.forward)
}

/// Whether `lo` to `hi` spans a number.
pub open spec fn spans(lo: Real, v: Real, hi: Real) -> bool {
    lo.at_most(v) && v.at_most(hi)
}

/// Bounds that are no NaN stay so, and only widen.
proof fn lemma_stretch(b: BBox, p: Vec3)
    requires
        !b.min.x.nan() && !b.min.y.nan() && !b.min.z.nan(),
        !b.max.x.nan() && !b.max.y.nan() && !b.max.z.nan(),
    ensures
        ({
            let s = b.stretched(p);
            &&& !s.min.x.nan() && !s.min.y.nan() && !s.min.z.nan()
            &&& !s.max.x.nan() && !s.max.y.nan() && !s.max.z.nan()
            &&& s.min.x.at_most(b.min.x) && s.min.y.at_most(b.min.y) && s.min.z.at_most(b.min.z)
            &&& b.max.x.at_most(s.max.x) && b.max.y.at_most(s.max.y) && b.max.z.at_most(s.max.z)
        }),
{
}

/// Bounds around points are no NaN.
proof fn lemma_around_is_ordered(b: BBox, points: Seq<Vec3>)
    requires
        !b.min.x.nan() && !b.min.y.nan() && !b.min.z.nan(),
        !b.max.x.nan() && !b.max.y.nan() && !b.max.z.nan(),
    ensures
        ({
            let s = b.around(points);
            &&& !s.min.x.nan() && !s.min.y.nan() && !s.min.z.nan()
            &&& !s.max.x.nan() && !s.max.y.nan() && !s.max.z.nan()
        }),
    decreases points.len(),
{
    if points.len() > 0 {
        lemma_around_is_ordered(b, points.drop_last());
        lemma_stretch(b.around(points.drop_last()), points.last());
    }
}

/// The bounding box holds every point: each coordinate that is no NaN lies
/// between the bounds of its axis.
pub proof fn law_box_holds_every_point(points: Seq<Vec3>, i: int)
    requires
        0 <= i < points.len(),
    ensures
        ({
            let b = BBox::nothing().around(points);
            let p = points[i];
            &&& !p.x.nan() ==> spans(b.min.x, p.x, b.max.x)
            &&& !p.y.nan() ==> spans(b.min.y, p.y, b.max.y)
            &&& !p.z.nan() ==> spans(b.min.z, p.z, b.max.z)
        }),
    decreases points.len(),
{
    let rest = points.drop_last();
    lemma_around_is_ordered(BBox::nothing(), rest);
    lemma_stretch(BBox::nothing().around(rest), points.last());
    if i < points.len() - 1 {
        law_box_holds_every_point(rest, i);
        assert(rest[i] == points[i]);
    }
}

/// A bound is that of no points, or a coordinate of a point.
pub open spec fn attained(bound: Real, none: Real, coordinates: Seq<Real>) -> bool {
    bound == none || coordinates.contains(bound)
}

/// The bounding box is no larger than its points demand: every bound is a
/// coordinate of some point, or that of the box of no points.
pub proof fn law_box_is_tight(points: Seq<Vec3>)
    ensures
        ({
            let b = BBox::nothing().around(points);
            let (lo, hi) = (num(INFINITY), num(NEG_INFINITY));
            let xs = points.map_values(|p: Vec3| p.x);
            let ys = points.map_values(|p: Vec3| p.y);
            let zs = points.map_values(|p: Vec3| p.z);
            &&& attained(b.min.x, lo, xs) && attained(b.max.x, hi, xs)
            &&& attained(b.min.y, lo, ys) && attained(b.max.y, hi, ys)
            &&& attained(b.min.z, lo, zs) && attained(b.max.z, hi, zs)
        }),
    decreases points.len(),
{
    if points.len() > 0 {
        let rest = points.drop_last();
        law_box_is_tight(rest);
        let last = points.len() - 1;
        let xs = points.map_values(|p: Vec3| p.x);
        let ys = points.map_values(|p: Vec3| p.y);
        let zs = points.map_values(|p: Vec3| p.z);
        assert(xs[last] == points.last().x && ys[last] == points.last().y && zs[last]
            == points.last().z);
        assert(rest.map_values(|p: Vec3| p.x) =~= xs.drop_last());
        assert(rest.map_values(|p: Vec3| p.y) =~= ys.drop_last());
        assert(rest.map_values(|p: Vec3| p.z) =~= zs.drop_last());
        assert forall|s: Seq<Real>, v: Real| #[trigger]
            s.drop_last().contains(v) && s.len() > 0 implies s.contains(v) by {
            let j = choose|j: int| 0 <= j < s.drop_last().len() && s.drop_last()[j] == v;
            assert(s[j] == v);
        }
    }
}

/// A scene without geometry is framed as a unit box around the origin.
pub proof fn law_no_geometry_frames_the_unit_box<K: Arith>(k: &K, scene: &Scene)
    requires
        visit_points(k, scene, scene_visits(k, scene)).len() == 0,
    ensures
        ({
            let b = framed_box(k, scene);
            let (lo, hi) = (num(MINUS_HALF), num(HALF));
            b == (BBox { min: vec3(lo, lo, lo), max: vec3(hi, hi, hi) })
        }),
{
    crate::number::lemma_worth_order(0, 0x7f80_0000);
    assert(crate::number::worth(0) == 0);
    assert(BBox::nothing().inverted());
}

/// The rays of one camera share what its projection shares: their origin, the
/// eye, in perspective, and their direction, straight ahead, in an
/// orthographic view.
pub proof fn law_primary_rays_share_eye_or_direction<K: Arith>(
    k: &K,
    cam: &Camera,
    px: Real,
    py: Real,
    width: Real,
    height: Real,
)
    ensures
        cam.projection is Perspective ==> ray_through(k, cam, px, py, width, height).origin
            == cam.eye,
        cam.projection is Orthographic ==> ray_through(k, cam, px, py, width, height).direction
            == cam.forward,
{
}

/// Whether a number is finite and at most `most` in size.
pub open spec fn at_most_size(a: Real, most: real) -> bool {
    a.finite() && size(amount(a)) <= most
}

/// One coordinate of the eye: the centre's, moved by the distance times a
/// direction that is a product of two numbers of at most one.
proof fn lemma_orbit_coordinate<K: Arith>(
    k: &K,
    center: Real,
    dir: Real,
    exact: real,
    dist: Real,
    exact_dist: real,
)
    requires
        precise(k),
        at_most_size(center, 1000 as real),
        dir.finite(),
        size(exact) <= 1 as real,
        within(amount(dir), exact, 1 as real / 1000000 as real),
        dist.finite(),
        0 as real <= exact_dist <= 1000 as real,
        within(amount(dist), exact_dist, 1 as real / 2000 as real),
    ensures
        within(
            amount(sum(k, center, product(k, dir, dist))) - amount(center),
            exact_dist * exact,
            1 as real / 200 as real,
        ),
{
    let (x, d) = (amount(dir), amount(dist));
    assert(size(x * d) <= 1002 as real && within(
        x * d,
        exact_dist * exact,
        2 as real / 1000 as real,
    )) by (nonlinear_arith)
        requires
            size(exact) <= 1 as real,
            within(x, exact, 1 as real / 1000000 as real),
            0 as real <= exact_dist <= 1000 as real,
            within(d, exact_dist, 1 as real / 2000 as real),
    ;
    let p = product(k, dir, dist);
    assert(about(p, x * d));
    assert(about(sum(k, center, p), amount(center) + amount(p)));
}

/// The eye stands where the angles say: seen from the centre it is the orbit's
/// distance away, at the elevation and at the azimuth that were asked for,
/// measured from `+Z` toward `+X`, but for rounding.
///
/// With `sa` and `ca` the sine and cosine of the azimuth and `se` and `ce`
/// those of the elevation, its offset has the height `se`, and `ce` in the
/// plane, of which `sa` is along `+X` and `ca` along `+Z`.
pub proof fn law_orbit_follows_the_angles<K: Arith>(
    k: &K,
    cam: CameraSpec,
    fit: Real,
    center: Vec3,
)
    requires
        precise(k),
        at_most_size(center.x, 1000 as real),
        at_most_size(center.y, 1000 as real),
        at_most_size(center.z, 1000 as real),
        fit.finite() && cam.distance.finite(),
        0 as real <= amount(fit) * amount(cam.distance) <= 1000 as real,
        at_most_size(sine(k, in_radians(k, cam.azimuth_deg)), 1 as real),
        at_most_size(cosine(k, in_radians(k, cam.azimuth_deg)), 1 as real),
        at_most_size(sine(k, in_radians(k, cam.elevation_deg)), 1 as real),
        at_most_size(cosine(k, in_radians(k, cam.elevation_deg)), 1 as real),
    ensures
        ({
            let eye = orbit_stand(k, cam, fit, center).eye;
            let sa = amount(sine(k, in_radians(k, cam.azimuth_deg)));
            let ca = amount(cosine(k, in_radians(k, cam.azimuth_deg)));
            let se = amount(sine(k, in_radians(k, cam.elevation_deg)));
            let ce = amount(cosine(k, in_radians(k, cam.elevation_deg)));
            let d = amount(fit) * amount(cam.distance);
            let slack = 1 as real / 200 as real;
            &&& within(amount(eye.x) - amount(center.x), d * (ce * sa), slack)
            &&& within(amount(eye.y) - amount(center.y), d * se, slack)
            &&& within(amount(eye.z) - amount(center.z), d * (ce * ca), slack)
        }),
{
    let sa = sine(k, in_radians(k, cam.azimuth_deg));
    let ca = cosine(k, in_radians(k, cam.azimuth_deg));
    let se = sine(k, in_radians(k, cam.elevation_deg));
    let ce = cosine(k, in_radians(k, cam.elevation_deg));
    let d = amount(fit) * amount(cam.distance);
    let dist = product(k, fit, cam.distance);
    assert(about(dist, d));
    lemma_unit_product(amount(ce), amount(sa));
    lemma_unit_product(amount(ce), amount(ca));
    let (x, z) = (product(k, ce, sa), product(k, ce, ca));
    assert(about(x, amount(ce) * amount(sa)));
    assert(about(z, amount(ce) * amount(ca)));
    lemma_orbit_coordinate(k, center.x, x, amount(ce) * amount(sa), dist, d);
    lemma_orbit_coordinate(k, center.y, se, amount(se), dist, d);
    lemma_orbit_coordinate(k, center.z, z, amount(ce) * amount(ca), dist, d);
}

/// A product of amounts of at most one is at most one.
proof fn lemma_unit_product(a: real, b: real)
    requires
        size(a) <= 1 as real,
        size(b) <= 1 as real,
    ensures
        size(a * b) <= 1 as real,
{
    assert(size(a * b) <= 1 as real) by (nonlinear_arith)
        requires
            size(a) <= 1 as real,
            size(b) <= 1 as real,
    ;
}

/// The eye has the azimuth that was asked for: its offset along `+X` stands to
/// that along `+Z` as sine to cosine, and both have their signs, but for
/// rounding. So the eye is on the `+Z` side at no azimuth, on the `+X` side a
/// quarter turn on, and on the `-Z` side half a turn on.
pub proof fn law_azimuth_turns_the_eye<K: Arith>(
    k: &K,
    cam: CameraSpec,
    fit: Real,
    center: Vec3,
)
    requires
        precise(k),
        at_most_size(center.x, 1000 as real),
        at_most_size(center.y, 1000 as real),
        at_most_size(center.z, 1000 as real),
        fit.finite() && cam.distance.finite(),
        0 as real <= amount(fit) * amount(cam.distance) <= 1000 as real,
        at_most_size(sine(k, in_radians(k, cam.azimuth_deg)), 1 as real),
        at_most_size(cosine(k, in_radians(k, cam.azimuth_deg)), 1 as real),
        at_most_size(sine(k, in_radians(k, cam.elevation_deg)), 1 as real),
        at_most_size(cosine(k, in_radians(k, cam.elevation_deg)), 1 as real),
        amount(cosine(k, in_radians(k, cam.elevation_deg))) >= 0 as real,
    ensures
        ({
            let eye = orbit_stand(k, cam, fit, center).eye;
            let (ox, oz) = (
                amount(eye.x) - amount(center.x),
                amount(eye.z) - amount(center.z),
            );
            let sa = amount(sine(k, in_radians(k, cam.azimuth_deg)));
            let ca = amount(cosine(k, in_radians(k, cam.azimuth_deg)));
            let slack = 1 as real / 100 as real;
            &&& within(ox * ca, oz * sa, slack)
            &&& ox * sa + slack >= 0 as real
            &&& oz * ca + slack >= 0 as real
        }),
{
    law_orbit_follows_the_angles(k, cam, fit, center);
    let eye = orbit_stand(k, cam, fit, center).eye;
    let (ox, oz) = (amount(eye.x) - amount(center.x), amount(eye.z) - amount(center.z));
    let sa = amount(sine(k, in_radians(k, cam.azimuth_deg)));
    let ca = amount(cosine(k, in_radians(k, cam.azimuth_deg)));
    let ce = amount(cosine(k, in_radians(k, cam.elevation_deg)));
    let d = amount(fit) * amount(cam.distance);
    let slack = 1 as real / 200 as real;
    let r = d * ce;
    assert(d * (ce * sa) == r * sa && d * (ce * ca) == r * ca) by (nonlinear_arith)
        requires
            r == d * ce,
    ;
    assert(r >= 0 as real) by (nonlinear_arith)
        requires
            r == d * ce,
            d >= 0 as real,
            ce >= 0 as real,
    ;
    assert(within(ox * ca, r * sa * ca, slack) && within(oz * sa, r * ca * sa, slack) && r * sa * ca
        == r * ca * sa) by (nonlinear_arith)
        requires
            within(ox, r * sa, slack),
            within(oz, r * ca, slack),
            size(sa) <= 1 as real,
            size(ca) <= 1 as real,
            slack == 1 as real / 200 as real,
    ;
    assert(ox * sa + slack >= 0 as real && oz * ca + slack >= 0 as real) by (nonlinear_arith)
        requires
            r >= 0 as real,
            within(ox, r * sa, slack),
            within(oz, r * ca, slack),
            size(sa) <= 1 as real,
            size(ca) <= 1 as real,
            slack == 1 as real / 200 as real,
    ;
}

} // verus!
