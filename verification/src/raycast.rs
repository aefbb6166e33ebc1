//! Whitted-style recursive ray tracing.
//!
//! The scene is baked once per render into a soup of world-space triangles;
//! lines and points have no surface and are left out. One primary ray per
//! sample finds the closest triangle, which is then shaded; in Phong mode
//! with shadow rays and with recursive reflection and refraction.

use crate::arith::{difference, product, quotient, repeatable, root, sum, whole_power, Arith};
use crate::bvh::{
    lemma_found_in_soup, lemma_same_search, lemma_same_shadow, sighted, tree_of, BakedTri, Bvh,
    Found, Hit, RayTests, TriShade,
};
use crate::camera::{
    camera_for, carried, depth_of, forward_depth, framed_box, ndc_z, primary_ray, ray_through,
    scene_bbox, view_depth, Camera, Ray,
};
use crate::frame::{resolve, resolved, shows, Samples};
use crate::framebuffer::Rgba8;
use crate::image::RgbaImage;
use crate::math::{
    added, dot, mat4_mul_point, moved, normalised, scaled, subtracted, vec3, vec3_add, vec3_dot,
    vec3_normalise, vec3_scale, vec3_sub, vec4, Mat4, Vec3, Vec4,
};
use crate::number::{num, number_of, Real, HALF, INFINITY, MINUS_ONE, ONE, TWO, ZERO};
use crate::options::{RenderOptions, ShadingMode};
use crate::raster::{mix3, mix4, mixed3, mixed4};
use crate::scanline::{
    carries_material, carries_nothing, colour_of, corner_normals, fallback_colour, is_flat_colour,
    item_at, item_count, lemma_carried_further, unit_normals, vertex_normals_for_face,
    vertex_order, vertex_sequence, world_normals, Item,
};
use crate::scene::{
    scene_visits, sound_visits, walk_scene_preorder, Material, Primitive, Scene, Topology, Visit,
};
use crate::shade::{
    build_light, depth_pixel, depth_to_rgba, light_of, linear_rgba_to_srgb_u8, lit, normal_pixel,
    normal_to_rgba, shade_pixel, srgb_pixel, DirLight, AMBIENT,
};
use vstd::prelude::*;

verus! {

/// Maximum recursion depth of reflection and refraction rays. The primary
/// ray has depth zero.
pub const MAX_DEPTH: u32 = 4;

/// `1.0e-4`, how far secondary rays start off a surface so that they do not
/// strike it again, as a bit pattern.
pub const RAY_EPSILON: u32 = 0x38d1_b717;

/// `-1.0e-4` as a bit pattern.
pub const MINUS_RAY_EPSILON: u32 = 0xb8d1_b717;

/// `1.0e-2`, the reflective or transmitted share under which no secondary ray
/// is traced, as a bit pattern.
pub const SECONDARY_RAY_THRESHOLD: u32 = 0x3c23_d70a;

/// `0.03`, the barycentric distance from an edge under which a hit shows in
/// wireframe mode, as a bit pattern.
pub const WIREFRAME_EDGE_WIDTH: u32 = 0x3cf5_c28f;

/// `1.5`, the index of refraction of a material that states none, as a bit
/// pattern.
pub const DEFAULT_IOR: u32 = 0x3fc0_0000;

/// `0.04`, the reflectance of a surface that is not metallic at all, as a bit
/// pattern.
pub const DIELECTRIC_REFLECTANCE: u32 = 0x3d23_d70a;

/// `0.96`, what being metallic adds to the reflectance, as a bit pattern.
pub const METAL_SHARE: u32 = 0x3f75_c28f;

/// The part of a material that ray shading reads, with its factors moved
/// into their ranges.
#[derive(Debug, Clone, Copy, PartialEq)]
pub struct ShadeMaterial {
    /// Linear-space RGBA base colour.
    pub base_color: Vec4,
    /// Drives the weight of the reflection.
    pub metallic: Real,
    /// Fades the reflection out.
    pub roughness: Real,
    /// Fraction of light that passes through.
    pub transmission: Real,
    /// Index of refraction.
    pub ior: Real,
    /// Linear-space emission.
    pub emissive: Vec3,
    /// Whether the base colour shows without lighting.
    pub unlit: bool,
}

/// The material of a surface that names none: the fallback colour, without
/// reflection or transmission.
#[verifier::allow_in_spec]
pub fn fallback_material() -> ShadeMaterial
    returns
        (ShadeMaterial {
            base_color: fallback_colour(),
            metallic: num(ZERO),
            roughness: num(ONE),
            transmission: num(ZERO),
            ior: num(DEFAULT_IOR),
            emissive: vec3(num(ZERO), num(ZERO), num(ZERO)),
            unlit: false,
        }),
{
    ShadeMaterial {
        base_color: fallback_colour(),
        metallic: num(ZERO),
        roughness: num(ONE),
        transmission: num(ZERO),
        ior: num(DEFAULT_IOR),
        emissive: vec3(num(ZERO), num(ZERO), num(ZERO)),
        unlit: false,
    }
}

/// What ray shading makes of a material.
pub open spec fn shade_material_of<K: Arith>(k: &K, m: &Material) -> ShadeMaterial {
    let transmission = match m.transmission {
        Some(t) => t.in_unit(),
        None => num(ZERO),
    };
    let ior = match m.ior {
        Some(n) => n.greater(num(ONE)),
        None => num(DEFAULT_IOR).greater(num(ONE)),
    };
    let strength = match m.emissive_strength {
        Some(s) => s.greater(num(ZERO)),
        None => num(ONE).greater(num(ZERO)),
    };
    ShadeMaterial {
        base_color: m.base_color,
        metallic: m.metallic.in_unit(),
        roughness: m.roughness.in_unit(),
        transmission,
        ior,
        emissive: scaled(k, m.emissive_factor, strength),
        unlit: m.unlit,
    }
}

/// What ray shading makes of a material.
pub fn shade_material<K: Arith>(k: &K, m: &Material) -> (r: ShadeMaterial)
    ensures
        repeatable(k) ==> r == shade_material_of(k, m),
{
    let transmission = match m.transmission {
        Some(t) => t.unit_clamp(),
        None => num(ZERO),
    };
    let ior = match m.ior {
        Some(n) => n.max(num(ONE)),
        None => num(DEFAULT_IOR).max(num(ONE)),
    };
    let strength = match m.emissive_strength {
        Some(s) => s.max(num(ZERO)),
        None => num(ONE).max(num(ZERO)),
    };
    ShadeMaterial {
        base_color: m.base_color,
        metallic: m.metallic.unit_clamp(),
        roughness: m.roughness.unit_clamp(),
        transmission,
        ior,
        emissive: vec3_scale(k, m.emissive_factor, strength),
        unlit: m.unlit,
    }
}

/// Number of triangles that a vertex sequence of length `n` makes.
pub open spec fn triangle_count(topology: Topology, n: int) -> int {
    match topology {
        Topology::Triangles => n / 3,
        Topology::TriangleStrip | Topology::TriangleFan => if n >= 3 {
            n - 2
        } else {
            0
        },
        _ => 0,
    }
}

/// Corners of the `i`-th triangle of a vertex sequence. Every other triangle
/// of a strip swaps its last two corners, so that all face the same way.
pub open spec fn triangle_at(topology: Topology, s: Seq<u32>, i: int) -> Seq<u32> {
    match topology {
        Topology::Triangles => seq![s[3 * i], s[3 * i + 1], s[3 * i + 2]],
        Topology::TriangleStrip => if i % 2 == 0 {
            seq![s[i], s[i + 1], s[i + 2]]
        } else {
            seq![s[i], s[i + 2], s[i + 1]]
        },
        _ => seq![s[0], s[i + 1], s[i + 2]],
    }
}

/// Triangles of a vertex sequence, by `oxideav_mesh3d`'s
/// `Primitive::triangle_indices` on a primitive with the given topology and
/// with `order` as its 32-bit index buffer: a list is cut into triples, a
/// strip makes a triangle at every vertex but the last two with alternating
/// winding, a fan shares its first vertex, and lines and points make none.
#[verifier::external_body]
fn triangle_list(topology: Topology, order: Vec<u32>) -> (r: Vec<[u32; 3]>)
    ensures
        r@.len() == triangle_count(topology, order@.len() as int),
        forall|i: int|
            0 <= i < r@.len() ==> (#[trigger] r@[i])@ == triangle_at(topology, order@, i),
{
    let mut prim = oxideav_mesh3d::Primitive::new(match topology {
        Topology::Triangles => oxideav_mesh3d::Topology::Triangles,
        Topology::TriangleStrip => oxideav_mesh3d::Topology::TriangleStrip,
        Topology::TriangleFan => oxideav_mesh3d::Topology::TriangleFan,
        Topology::Lines => oxideav_mesh3d::Topology::Lines,
        Topology::LineStrip => oxideav_mesh3d::Topology::LineStrip,
        Topology::LineLoop => oxideav_mesh3d::Topology::LineLoop,
        Topology::Points => oxideav_mesh3d::Topology::Points,
    });
    prim.indices = Some(oxideav_mesh3d::Indices::U32(order));
    prim.triangle_indices()
}

/// The baked triangle with the given corners; none if a corner does not
/// exist.
pub open spec fn baked_triangle<K: Arith>(
    k: &K,
    prim: &Primitive,
    world: &Mat4,
    corners: Seq<u32>,
) -> Seq<BakedTri> {
    let (a, b, c) = (corners[0] as int, corners[1] as int, corners[2] as int);
    let positions = prim.positions@;
    if a < positions.len() && b < positions.len() && c < positions.len() {
        let normals = corner_normals(
            k,
            positions,
            world,
            unit_normals(k, prim.normals, world),
            a,
            b,
            c,
        );
        seq![
            BakedTri {
                a: moved(k, world, positions[a]),
                b: moved(k, world, positions[b]),
                c: moved(k, world, positions[c]),
                shade: TriShade { normals, material: prim.material },
            },
        ]
    } else {
        seq![]
    }
}

/// The first `n` triangles of a primitive, baked.
pub open spec fn baked_primitive<K: Arith>(
    k: &K,
    prim: &Primitive,
    world: &Mat4,
    n: int,
) -> Seq<BakedTri>
    decreases n,
{
    if n <= 0 {
        seq![]
    } else {
        let order = vertex_order(prim.indices, prim.positions@.len() as int);
        baked_primitive(k, prim, world, n - 1) + baked_triangle(
            k,
            prim,
            world,
            triangle_at(prim.topology, order, n - 1),
        )
    }
}

/// All triangles of a primitive, baked.
pub open spec fn primitive_soup<K: Arith>(
    k: &K,
    prim: &Primitive,
    world: &Mat4,
) -> Seq<BakedTri> {
    let order = vertex_order(prim.indices, prim.positions@.len() as int);
    baked_primitive(k, prim, world, triangle_count(prim.topology, order.len() as int))
}

/// All triangles of primitives that share a placement, baked.
pub open spec fn mesh_soup<K: Arith>(
    k: &K,
    prims: Seq<Primitive>,
    world: &Mat4,
) -> Seq<BakedTri>
    decreases prims.len(),
{
    if prims.len() == 0 {
        seq![]
    } else {
        mesh_soup(k, prims.drop_last(), world) + primitive_soup(k, &prims.last(), world)
    }
}

/// All triangles that the visited nodes carry, baked.
pub open spec fn visit_soup<K: Arith>(k: &K, scene: &Scene, visits: Seq<Visit>) -> Seq<BakedTri>
    decreases visits.len(),
{
    if visits.len() == 0 {
        seq![]
    } else {
        let v = visits.last();
        visit_soup(k, scene, visits.drop_last()) + mesh_soup(
            k,
            carried(scene, v.node as int),
            &v.world,
        )
    }
}

/// Appends a primitive's triangles to the soup.
fn bake_primitive<K: Arith>(k: &K, prim: &Primitive, world: &Mat4, soup: &mut Vec<BakedTri>)
    ensures
        repeatable(k) ==> final(soup)@ == old(soup)@ + primitive_soup(k, prim, world),
{
    let ghost start = soup@;
    let order = vertex_sequence(prim);
    let ghost s = order@;
    let tris = triangle_list(prim.topology, order);
    if tris.len() == 0 {
        assert(start + primitive_soup(k, prim, world) =~= start);
        return;
    }
    let normals = world_normals(k, &prim.normals, world);
    let n: usize = prim.positions.len();
    let mut i: usize = 0;
    assert(start + baked_primitive(k, prim, world, 0) =~= start);
    while i < tris.len()
        invariant
            i <= tris@.len(),
            n == prim.positions@.len(),
            s == vertex_order(prim.indices, prim.positions@.len() as int),
            tris@.len() == triangle_count(prim.topology, s.len() as int),
            forall|j: int|
                0 <= j < tris@.len() ==> (#[trigger] tris@[j])@ == triangle_at(
                    prim.topology,
                    s,
                    j,
                ),
            repeatable(k) ==> normals@ == unit_normals(k, prim.normals, world),
            repeatable(k) ==> soup@ == start + baked_primitive(k, prim, world, i as int),
        decreases tris@.len() - i,
    {
        let ghost before = soup@;
        let a: usize = tris[i][0] as usize;
        let b: usize = tris[i][1] as usize;
        let c: usize = tris[i][2] as usize;
        let ghost here = baked_triangle(k, prim, world, tris@[i as int]@);
        if a < n && b < n && c < n {
            let corner_normals = vertex_normals_for_face(
                k,
                &prim.positions,
                world,
                &normals,
                a,
                b,
                c,
            );
            let tri = BakedTri {
                a: mat4_mul_point(k, world, prim.positions[a]),
                b: mat4_mul_point(k, world, prim.positions[b]),
                c: mat4_mul_point(k, world, prim.positions[c]),
                shade: TriShade { normals: corner_normals, material: prim.material },
            };
            soup.push(tri);
            proof {
                if repeatable(k) {
                    assert(here =~= seq![tri]);
                }
            }
        }
        proof {
            if repeatable(k) {
                let done = baked_primitive(k, prim, world, i as int);
                assert(soup@ =~= before + here);
                assert((start + done) + here =~= start + (done + here));
            }
        }
        i += 1;
    }
}

/// Appends the triangles of primitives that share a placement to the soup.
fn bake_mesh<K: Arith>(k: &K, prims: &Vec<Primitive>, world: &Mat4, soup: &mut Vec<BakedTri>)
    ensures
        repeatable(k) ==> final(soup)@ == old(soup)@ + mesh_soup(k, prims@, world),
{
    let ghost start = soup@;
    let mut i: usize = 0;
    proof {
        assert(prims@.take(0) =~= seq![]);
        assert(start + mesh_soup(k, prims@.take(0), world) =~= start);
    }
    while i < prims.len()
        invariant
            i <= prims@.len(),
            repeatable(k) ==> soup@ == start + mesh_soup(k, prims@.take(i as int), world),
        decreases prims@.len() - i,
    {
        proof {
            assert(prims@.take(i + 1).drop_last() =~= prims@.take(i as int));
            assert(prims@.take(i + 1).last() == prims@[i as int]);
            let done = mesh_soup(k, prims@.take(i as int), world);
            let here = primitive_soup(k, &prims@[i as int], world);
            assert((start + done) + here =~= start + (done + here));
        }
        bake_primitive(k, &prims[i], world, soup);
        i += 1;
    }
    assert(prims@.take(i as int) =~= prims@);
}

/// Bakes a scene into a soup of world-space triangles, in walk order.
pub fn bake_scene<K: Arith>(k: &K, scene: &Scene) -> (soup: Vec<BakedTri>)
    ensures
        repeatable(k) ==> soup@ == visit_soup(k, scene, scene_visits(k, scene)),
{
    let visits = walk_scene_preorder(k, scene);
    let mut soup: Vec<BakedTri> = Vec::new();
    let mut i: usize = 0;
    assert(visits@.take(0) =~= seq![]);
    while i < visits.len()
        invariant
            i <= visits@.len(),
            sound_visits(scene, visits@),
            repeatable(k) ==> soup@ == visit_soup(k, scene, visits@.take(i as int)),
        decreases visits@.len() - i,
    {
        let v = visits[i];
        let ghost before = soup@;
        proof {
            assert(visits@.take(i + 1).drop_last() =~= visits@.take(i as int));
            assert(visits@.take(i + 1).last() == v);
            assert(before + Seq::<BakedTri>::empty() =~= before);
        }
        if let Some(id) = scene.nodes[v.node].mesh {
            if (id as usize) < scene.meshes.len() {
                bake_mesh(k, &scene.meshes[id as usize].primitives, &v.world, &mut soup);
            }
        }
        i += 1;
    }
    assert(visits@.take(i as int) =~= visits@);
    soup
}

/// A baked scene: triangles, materials, and a hierarchy unless nothing can
/// be struck.
pub struct TraceScene {
    /// The triangles.
    pub soup: Vec<BakedTri>,
    /// What ray shading makes of the scene's materials.
    pub materials: Vec<ShadeMaterial>,
    /// The hierarchy over the triangles.
    pub bvh: Option<Bvh>,
}

impl TraceScene {
    /// The hierarchy indexes the soup.
    pub open spec fn wf(&self) -> bool {
        self.bvh matches Some(b) ==> b.wf(self.soup@.len() as int)
    }

    /// Whether this is what a scene bakes to, with a hierarchy that the ray
    /// tests gave for its soup.
    pub open spec fn bakes<K: RayTests>(&self, k: &K, scene: &Scene) -> bool {
        &&& call_ensures(K::hierarchy, (k, &self.soup), self.bvh)
        &&& repeatable(k) ==> self.soup@ == visit_soup(k, scene, scene_visits(k, scene))
        &&& self.materials@.len() == scene.materials@.len()
        &&& repeatable(k) ==> forall|i: int|
            0 <= i < self.materials@.len() ==> #[trigger] self.materials@[i] == shade_material_of(
                k,
                &scene.materials@[i],
            )
    }

    /// Bakes a scene. `None` if the hierarchy that the ray tests gave does
    /// not index the soup.
    pub fn build<K: RayTests>(k: &K, scene: &Scene) -> (r: Option<TraceScene>)
        ensures
            r matches Some(t) ==> t.wf() && t.bakes(k, scene),
            r is None ==> exists|soup: Vec<BakedTri>, bvh: Bvh| #[trigger]
                call_ensures(K::hierarchy, (k, &soup), Some(bvh)) && !bvh.wf(soup@.len() as int)
                    && (repeatable(k) ==> soup@ == visit_soup(k, scene, scene_visits(k, scene))),
    {
        let mut materials: Vec<ShadeMaterial> = Vec::with_capacity(scene.materials.len());
        let mut i: usize = 0;
        while i < scene.materials.len()
            invariant
                i <= scene.materials@.len(),
                materials@.len() == i,
                repeatable(k) ==> forall|j: int|
                    0 <= j < i ==> #[trigger] materials@[j] == shade_material_of(
                        k,
                        &scene.materials@[j],
                    ),
            decreases scene.materials@.len() - i,
        {
            materials.push(shade_material(k, &scene.materials[i]));
            i += 1;
        }
        let soup = bake_scene(k, scene);
        let bvh = k.hierarchy(&soup);
        if let Some(b) = &bvh {
            if !b.indexes(soup.len()) {
                return None;
            }
        }
        Some(TraceScene { soup, materials, bvh })
    }

    /// Closest hit of a ray within `t_max`.
    pub open spec fn closest<K: RayTests>(&self, k: &K, ray: Ray, t_max: Real) -> Option<Hit> {
        match self.bvh {
            Some(b) => b.searched(
                k,
                self.soup@,
                ray,
                0,
                0,
                Found { hit: None, limit: t_max },
            ).hit,
            None => None,
        }
    }

    /// Closest hit of a ray within `t_max`.
    pub fn closest_hit<K: RayTests>(&self, k: &K, ray: Ray, t_max: Real) -> (r: Option<Hit>)
        requires
            self.wf(),
        ensures
            r matches Some(h) ==> h.triangle < self.soup@.len(),
            sighted(k) ==> r == self.closest(k, ray, t_max),
    {
        match &self.bvh {
            Some(b) => b.closest_hit(k, &self.soup, ray, t_max),
            None => None,
        }
    }

    /// Whether anything blocks a ray within `t_max`.
    pub open spec fn shadowed<K: RayTests>(&self, k: &K, ray: Ray, t_max: Real) -> bool {
        match self.bvh {
            Some(b) => b.blocked(k, self.soup@, ray, 0, 0, t_max),
            None => false,
        }
    }

    /// Whether anything blocks a ray within `t_max`.
    pub fn any_hit<K: RayTests>(&self, k: &K, ray: Ray, t_max: Real) -> (r: bool)
        requires
            self.wf(),
        ensures
            sighted(k) ==> r == self.shadowed(k, ray, t_max),
    {
        match &self.bvh {
            Some(b) => b.any_hit(k, &self.soup, ray, t_max),
            None => false,
        }
    }

    /// The material of a triangle: the fallback where it names none, or one
    /// that does not exist.
    pub open spec fn material_of(&self, triangle: int) -> ShadeMaterial {
        match self.soup@[triangle].shade.material {
            Some(id) => if id < self.materials@.len() {
                self.materials@[id as int]
            } else {
                fallback_material()
            },
            None => fallback_material(),
        }
    }

    /// The material at a hit.
    pub fn hit_material(&self, hit: &Hit) -> (r: ShadeMaterial)
        requires
            hit.triangle < self.soup@.len(),
        ensures
            r == self.material_of(hit.triangle as int),
    {
        match self.soup[hit.triangle].shade.material {
            Some(id) => if (id as usize) < self.materials.len() {
                self.materials[id as usize]
            } else {
                fallback_material()
            },
            None => fallback_material(),
        }
    }

    /// Interpolated world-space unit normal at a hit.
    pub open spec fn normal_of<K: Arith>(&self, k: &K, hit: Hit) -> Vec3 {
        let n = self.soup@[hit.triangle as int].shade.normals;
        normalised(k, mixed3(k, hit.barycentric, n.0, n.1, n.2))
    }

    /// Interpolated world-space unit normal at a hit.
    pub fn hit_normal<K: Arith>(&self, k: &K, hit: &Hit) -> (r: Vec3)
        requires
            hit.triangle < self.soup@.len(),
        ensures
            repeatable(k) ==> r == self.normal_of(k, *hit),
    {
        let n = self.soup[hit.triangle].shade.normals;
        vec3_normalise(k, mix3(k, hit.barycentric, n.0, n.1, n.2))
    }
}

/// The point of a ray at distance `t`.
pub open spec fn ray_point<K: Arith>(k: &K, ray: Ray, t: Real) -> Vec3 {
    vec3(
        sum(k, ray.origin.x, product(k, t, ray.direction.x)),
        sum(k, ray.origin.y, product(k, t, ray.direction.y)),
        sum(k, ray.origin.z, product(k, t, ray.direction.z)),
    )
}

/// The point of a ray at distance `t`.
pub fn point_at<K: Arith>(k: &K, ray: Ray, t: Real) -> (r: Vec3)
    ensures
        repeatable(k) ==> r == ray_point(k, ray, t),
{
    vec3(
        k.plus(ray.origin.x, k.times(t, ray.direction.x)),
        k.plus(ray.origin.y, k.times(t, ray.direction.y)),
        k.plus(ray.origin.z, k.times(t, ray.direction.z)),
    )
}

/// Mirrors `d` about the unit normal `n`: `d - 2 (d . n) n`.
pub open spec fn reflected<K: Arith>(k: &K, d: Vec3, n: Vec3) -> Vec3 {
    subtracted(k, d, scaled(k, n, product(k, num(TWO), dot(k, d, n))))
}

/// Mirrors `d` about the unit normal `n`: `d - 2 (d . n) n`.
pub fn reflect<K: Arith>(k: &K, d: Vec3, n: Vec3) -> (r: Vec3)
    ensures
        repeatable(k) ==> r == reflected(k, d, n),
{
    vec3_sub(k, d, vec3_scale(k, n, k.times(num(TWO), vec3_dot(k, d, n))))
}

/// Bends the unit direction `d` through the unit normal `n`, which points to
/// the side it comes from, with the relative index `eta`. `None` on total
/// internal reflection.
pub open spec fn refracted<K: Arith>(k: &K, d: Vec3, n: Vec3, eta: Real) -> Option<Vec3> {
    let cos_i = dot(k, d, n).flipped().in_sign();
    let sin2_t = product(
        k,
        product(k, eta, eta),
        difference(k, num(ONE), product(k, cos_i, cos_i)),
    );
    if num(ONE).below(sin2_t) {
        None
    } else {
        let cos_t = root(k, difference(k, num(ONE), sin2_t));
        let along = scaled(k, d, eta);
        let across = scaled(k, n, difference(k, product(k, eta, cos_i), cos_t));
        Some(normalised(k, added(k, along, across)))
    }
}

/// Bends the unit direction `d` through the unit normal `n`, which points to
/// the side it comes from, with the relative index `eta`. `None` on total
/// internal reflection.
pub fn refract<K: Arith>(k: &K, d: Vec3, n: Vec3, eta: Real) -> (r: Option<Vec3>)
    ensures
        repeatable(k) ==> r == refracted(k, d, n, eta),
{
    let cos_i = vec3_dot(k, d, n).neg().sign_clamp();
    let sin2_t = k.times(k.times(eta, eta), k.minus(num(ONE), k.times(cos_i, cos_i)));
    if num(ONE).lt(sin2_t) {
        None
    } else {
        let cos_t = k.sqrt(k.minus(num(ONE), sin2_t));
        let along = vec3_scale(k, d, eta);
        let across = vec3_scale(k, n, k.minus(k.times(eta, cos_i), cos_t));
        Some(vec3_normalise(k, vec3_add(k, along, across)))
    }
}

/// The surface at a hit, seen from the incoming ray.
#[derive(Debug, Clone, Copy, PartialEq)]
pub struct Site {
    /// The point.
    pub point: Vec3,
    /// Unit normal on the side that the ray comes from.
    pub normal: Vec3,
    /// Whether the ray comes from the side that the surface faces.
    pub entering: bool,
    /// Unit direction of the ray.
    pub in_dir: Vec3,
}

/// The surface at distance `t` of a ray, given its interpolated normal.
pub open spec fn site_of<K: Arith>(k: &K, ray: Ray, t: Real, raw_normal: Vec3) -> Site {
    let entering = dot(k, ray.direction, raw_normal).below(num(ZERO));
    let normal = if entering {
        raw_normal
    } else {
        scaled(k, raw_normal, num(MINUS_ONE))
    };
    Site { point: ray_point(k, ray, t), normal, entering, in_dir: normalised(k, ray.direction) }
}

/// The surface at distance `t` of a ray, given its interpolated normal.
pub fn site_at<K: Arith>(k: &K, ray: Ray, t: Real, raw_normal: Vec3) -> (r: Site)
    ensures
        repeatable(k) ==> r == site_of(k, ray, t, raw_normal),
{
    let entering = vec3_dot(k, ray.direction, raw_normal).lt(num(ZERO));
    let normal = if entering {
        raw_normal
    } else {
        vec3_scale(k, raw_normal, num(MINUS_ONE))
    };
    Site {
        point: point_at(k, ray, t),
        normal,
        entering,
        in_dir: vec3_normalise(k, ray.direction),
    }
}

/// A ray that leaves a surface, started `offset` along its normal.
pub open spec fn lifted<K: Arith>(k: &K, site: &Site, direction: Vec3, offset: Real) -> Ray {
    Ray { origin: added(k, site.point, scaled(k, site.normal, offset)), direction }
}

/// A ray that leaves a surface, started `offset` along its normal.
pub fn lift<K: Arith>(k: &K, site: &Site, direction: Vec3, offset: Real) -> (r: Ray)
    ensures
        repeatable(k) ==> r == lifted(k, site, direction, offset),
{
    Ray { origin: vec3_add(k, site.point, vec3_scale(k, site.normal, offset)), direction }
}

/// Direct lighting plus emission. A surface in shadow keeps only the ambient
/// term; emission is unaffected by shadow.
pub open spec fn direct_lit<K: Arith>(
    k: &K,
    m: &ShadeMaterial,
    normal: Vec3,
    light: &DirLight,
    dark: bool,
) -> Vec4 {
    let base = m.base_color;
    let diffuse = if dark {
        let ambient = num(AMBIENT);
        vec4(
            product(k, base.x, ambient),
            product(k, base.y, ambient),
            product(k, base.z, ambient),
            base.w,
        )
    } else {
        lit(k, base, normal, light)
    };
    vec4(
        sum(k, diffuse.x, m.emissive.x),
        sum(k, diffuse.y, m.emissive.y),
        sum(k, diffuse.z, m.emissive.z),
        diffuse.w,
    )
}

/// Direct lighting plus emission. A surface in shadow keeps only the ambient
/// term; emission is unaffected by shadow.
pub fn direct_light<K: Arith>(
    k: &K,
    m: &ShadeMaterial,
    normal: Vec3,
    light: &DirLight,
    dark: bool,
) -> (r: Vec4)
    ensures
        repeatable(k) ==> r == direct_lit(k, m, normal, light, dark),
{
    let base = m.base_color;
    let diffuse = if dark {
        let ambient = num(AMBIENT);
        vec4(k.times(base.x, ambient), k.times(base.y, ambient), k.times(base.z, ambient), base.w)
    } else {
        shade_pixel(k, base, normal, light)
    };
    vec4(
        k.plus(diffuse.x, m.emissive.x),
        k.plus(diffuse.y, m.emissive.y),
        k.plus(diffuse.z, m.emissive.z),
        diffuse.w,
    )
}

/// `a` with `share` of it replaced by `b`.
pub open spec fn blended_channel<K: Arith>(k: &K, a: Real, b: Real, share: Real) -> Real {
    sum(k, product(k, a, difference(k, num(ONE), share)), product(k, b, share))
}

/// `a` with `share` of it replaced by `b`.
pub fn blend_channel<K: Arith>(k: &K, a: Real, b: Real, share: Real) -> (r: Real)
    ensures
        repeatable(k) ==> r == blended_channel(k, a, b, share),
{
    k.plus(k.times(a, k.minus(num(ONE), share)), k.times(b, share))
}

/// `a` with `share` of its colour replaced by `b`; alpha stays.
pub open spec fn blended<K: Arith>(k: &K, a: Vec4, b: Vec4, share: Real) -> Vec4 {
    vec4(
        blended_channel(k, a.x, b.x, share),
        blended_channel(k, a.y, b.y, share),
        blended_channel(k, a.z, b.z, share),
        a.w,
    )
}

/// `a` with `share` of its colour replaced by `b`; alpha stays.
pub fn blend<K: Arith>(k: &K, a: Vec4, b: Vec4, share: Real) -> (r: Vec4)
    ensures
        repeatable(k) ==> r == blended(k, a, b, share),
{
    vec4(
        blend_channel(k, a.x, b.x, share),
        blend_channel(k, a.y, b.y, share),
        blend_channel(k, a.z, b.z, share),
        a.w,
    )
}

/// A colour multiplied by a base colour; alpha stays.
pub open spec fn tinted<K: Arith>(k: &K, c: Vec4, base: Vec4) -> Vec4 {
    vec4(product(k, c.x, base.x), product(k, c.y, base.y), product(k, c.z, base.z), c.w)
}

/// A colour multiplied by a base colour; alpha stays.
pub fn tint<K: Arith>(k: &K, c: Vec4, base: Vec4) -> (r: Vec4)
    ensures
        repeatable(k) ==> r == tinted(k, c, base),
{
    vec4(k.times(c.x, base.x), k.times(c.y, base.y), k.times(c.z, base.z), c.w)
}

/// Weight of the mirror term: metallic, faded by roughness.
pub open spec fn gloss_of<K: Arith>(k: &K, m: &ShadeMaterial) -> Real {
    product(k, m.metallic, difference(k, num(ONE), m.roughness))
}

/// Weight of the mirror term: metallic, faded by roughness.
pub fn glossiness<K: Arith>(k: &K, m: &ShadeMaterial) -> (r: Real)
    ensures
        repeatable(k) ==> r == gloss_of(k, m),
{
    k.times(m.metallic, k.minus(num(ONE), m.roughness))
}

/// Share of the mirror ray, by Schlick's approximation.
pub open spec fn reflectance_of<K: Arith>(
    k: &K,
    m: &ShadeMaterial,
    site: &Site,
    gloss: Real,
) -> Real {
    let cos_in = dot(k, site.in_dir, site.normal).flipped().in_unit();
    let f0 = sum(k, num(DIELECTRIC_REFLECTANCE), product(k, num(METAL_SHARE), m.metallic));
    let grazing = whole_power(k, difference(k, num(ONE), cos_in), 5);
    let fresnel = sum(k, f0, product(k, difference(k, num(ONE), f0), grazing));
    product(k, fresnel.in_unit(), gloss)
}

/// Share of the mirror ray, by Schlick's approximation.
pub fn reflectance<K: Arith>(k: &K, m: &ShadeMaterial, site: &Site, gloss: Real) -> (r: Real)
    ensures
        repeatable(k) ==> r == reflectance_of(k, m, site, gloss),
{
    let cos_in = vec3_dot(k, site.in_dir, site.normal).neg().unit_clamp();
    let f0 = k.plus(num(DIELECTRIC_REFLECTANCE), k.times(num(METAL_SHARE), m.metallic));
    let grazing = k.powi(k.minus(num(ONE), cos_in), 5);
    let fresnel = k.plus(f0, k.times(k.minus(num(ONE), f0), grazing));
    k.times(fresnel.unit_clamp(), gloss)
}

/// The ray that a surface mirrors.
pub open spec fn mirror_of<K: Arith>(k: &K, site: &Site) -> Ray {
    lifted(k, site, reflected(k, site.in_dir, site.normal), num(RAY_EPSILON))
}

/// The ray that a surface mirrors.
pub fn mirror_ray<K: Arith>(k: &K, site: &Site) -> (r: Ray)
    ensures
        repeatable(k) ==> r == mirror_of(k, site),
{
    lift(k, site, reflect(k, site.in_dir, site.normal), num(RAY_EPSILON))
}

/// Direction of the light that passes through a surface; `None` on total
/// internal reflection.
pub open spec fn bent_toward<K: Arith>(k: &K, m: &ShadeMaterial, site: &Site) -> Option<Vec3> {
    let eta = if site.entering {
        quotient(k, num(ONE), m.ior)
    } else {
        m.ior
    };
    refracted(k, site.in_dir, site.normal, eta)
}

/// Direction of the light that passes through a surface; `None` on total
/// internal reflection.
pub fn bent_direction<K: Arith>(k: &K, m: &ShadeMaterial, site: &Site) -> (r: Option<Vec3>)
    ensures
        repeatable(k) ==> r == bent_toward(k, m, site),
{
    let eta = if site.entering {
        k.over(num(ONE), m.ior)
    } else {
        m.ior
    };
    refract(k, site.in_dir, site.normal, eta)
}

/// Opaque black.
#[verifier::allow_in_spec]
pub fn black() -> Vec4
    returns
        vec4(num(ZERO), num(ZERO), num(ZERO), num(ONE)),
{
    vec4(num(ZERO), num(ZERO), num(ZERO), num(ONE))
}

/// Transparent black.
#[verifier::allow_in_spec]
pub fn clear() -> Vec4
    returns
        vec4(num(ZERO), num(ZERO), num(ZERO), num(ZERO)),
{
    vec4(num(ZERO), num(ZERO), num(ZERO), num(ZERO))
}

/// Linear colour at a hit, `depth` reflections or refractions away from the
/// eye.
///
/// An unlit surface shows its base colour. Any other is lit, with a shadow
/// ray toward the light. Up to [`MAX_DEPTH`] it also mirrors what its
/// reflection ray finds, tinted and weighted, if it is glossy enough, and
/// lets through what its refraction ray finds if it transmits enough; under
/// total internal reflection the mirror direction takes the latter's place.
/// A ray that escapes finds nothing.
pub open spec fn whitted<K: RayTests>(
    k: &K,
    traced: &TraceScene,
    light: &DirLight,
    ray: Ray,
    hit: Hit,
    depth: int,
) -> Vec4
    decreases MAX_DEPTH - depth,
{
    let m = traced.material_of(hit.triangle as int);
    let site = site_of(k, ray, hit.t, traced.normal_of(k, hit));
    let toward = lifted(k, &site, light.direction, num(RAY_EPSILON));
    let dark = traced.shadowed(k, toward, num(INFINITY));
    let local = direct_lit(k, &m, site.normal, light, dark);
    let gloss = gloss_of(k, &m);
    let mirror = mirror_of(k, &site);
    if m.unlit {
        m.base_color
    } else if depth >= MAX_DEPTH {
        local
    } else {
        let mirrored = if num(SECONDARY_RAY_THRESHOLD).below(gloss) {
            let found = match traced.closest(k, mirror, num(INFINITY)) {
                Some(h) => whitted(k, traced, light, mirror, h, depth + 1),
                None => black(),
            };
            let kr = reflectance_of(k, &m, &site, gloss);
            blended(k, local, tinted(k, found, m.base_color), kr)
        } else {
            local
        };
        if num(SECONDARY_RAY_THRESHOLD).below(m.transmission) {
            match bent_toward(k, &m, &site) {
                Some(dir) => {
                    let through = lifted(k, &site, dir, num(MINUS_RAY_EPSILON));
                    let found = match traced.closest(k, through, num(INFINITY)) {
                        Some(h) => whitted(k, traced, light, through, h, depth + 1),
                        None => clear(),
                    };
                    blended(k, mirrored, tinted(k, found, m.base_color), m.transmission)
                },
                None => match traced.closest(k, mirror, num(INFINITY)) {
                    Some(h) => blended(
                        k,
                        mirrored,
                        whitted(k, traced, light, mirror, h, depth + 1),
                        m.transmission,
                    ),
                    None => mirrored,
                },
            }
        } else {
            mirrored
        }
    }
}

/// Whitted shading at a hit: Lambert plus ambient with a shadow ray, plus
/// recursive reflection and refraction.
pub fn trace_whitted<K: RayTests>(
    k: &K,
    traced: &TraceScene,
    light: &DirLight,
    ray: Ray,
    hit: &Hit,
    depth: u32,
) -> (r: Vec4)
    requires
        traced.wf(),
        hit.triangle < traced.soup@.len(),
    ensures
        sighted(k) ==> r == whitted(k, traced, light, ray, *hit, depth as int),
    decreases MAX_DEPTH - depth,
{
    let m = traced.hit_material(hit);
    if m.unlit {
        return m.base_color;
    }
    let site = site_at(k, ray, hit.t, traced.hit_normal(k, hit));
    let toward = lift(k, &site, light.direction, num(RAY_EPSILON));
    let dark = traced.any_hit(k, toward, num(INFINITY));
    let local = direct_light(k, &m, site.normal, light, dark);
    if depth >= MAX_DEPTH {
        return local;
    }
    let mut out = local;
    let gloss = glossiness(k, &m);
    let mirror = mirror_ray(k, &site);
    if num(SECONDARY_RAY_THRESHOLD).lt(gloss) {
        let found = match traced.closest_hit(k, mirror, num(INFINITY)) {
            Some(h) => trace_whitted(k, traced, light, mirror, &h, depth + 1),
            None => black(),
        };
        let kr = reflectance(k, &m, &site, gloss);
        out = blend(k, out, tint(k, found, m.base_color), kr);
    }
    if num(SECONDARY_RAY_THRESHOLD).lt(m.transmission) {
        match bent_direction(k, &m, &site) {
            Some(dir) => {
                let through = lift(k, &site, dir, num(MINUS_RAY_EPSILON));
                let found = match traced.closest_hit(k, through, num(INFINITY)) {
                    Some(h) => trace_whitted(k, traced, light, through, &h, depth + 1),
                    None => clear(),
                };
                out = blend(k, out, tint(k, found, m.base_color), m.transmission);
            },
            None => {
                if let Some(h) = traced.closest_hit(k, mirror, num(INFINITY)) {
                    let found = trace_whitted(k, traced, light, mirror, &h, depth + 1);
                    out = blend(k, out, found, m.transmission);
                }
            },
        }
    }
    out
}

/// Whether a hit is close enough to an edge to show in wireframe mode.
pub open spec fn on_edge(hit: Hit) -> bool {
    let w = hit.barycentric;
    num(INFINITY).lesser(w.w0).lesser(w.w1).lesser(w.w2).at_most(num(WIREFRAME_EDGE_WIDTH))
}

/// Whether a hit is close enough to an edge to show in wireframe mode.
pub fn near_edge(hit: &Hit) -> (r: bool)
    ensures
        r == on_edge(*hit),
{
    let w = hit.barycentric;
    num(INFINITY).min(w.w0).min(w.w1).min(w.w2).le(num(WIREFRAME_EDGE_WIDTH))
}

/// What a sample shows that was hit.
pub open spec fn hit_pixel<K: RayTests>(
    k: &K,
    traced: &TraceScene,
    camera: &Camera,
    light: &DirLight,
    ray: Ray,
    hit: Hit,
    mode: ShadingMode,
    background: Rgba8,
) -> Rgba8 {
    let base = traced.material_of(hit.triangle as int).base_color;
    match mode {
        ShadingMode::Flat => srgb_pixel(k, base),
        ShadingMode::Wireframe => if on_edge(hit) {
            srgb_pixel(k, base)
        } else {
            background
        },
        ShadingMode::Gouraud => {
            let n = traced.soup@[hit.triangle as int].shade.normals;
            srgb_pixel(
                k,
                mixed4(
                    k,
                    hit.barycentric,
                    lit(k, base, n.0, light),
                    lit(k, base, n.1, light),
                    lit(k, base, n.2, light),
                ),
            )
        },
        ShadingMode::Phong => srgb_pixel(k, whitted(k, traced, light, ray, hit, 0)),
        ShadingMode::NormalDebug => normal_pixel(k, traced.normal_of(k, hit)),
        ShadingMode::DepthDebug => depth_pixel(
            k,
            depth_of(k, camera, forward_depth(k, camera, ray_point(k, ray, hit.t))),
        ),
    }
}

/// What a sample shows: its closest hit, or the background.
pub open spec fn traced_pixel<K: RayTests>(
    k: &K,
    traced: &TraceScene,
    camera: &Camera,
    light: &DirLight,
    ray: Ray,
    mode: ShadingMode,
    background: Rgba8,
) -> Rgba8 {
    match traced.closest(k, ray, num(INFINITY)) {
        Some(hit) => hit_pixel(k, traced, camera, light, ray, hit, mode, background),
        None => background,
    }
}

/// Shades one primary ray under a shading mode.
pub fn trace_pixel<K: RayTests>(
    k: &K,
    traced: &TraceScene,
    camera: &Camera,
    light: &DirLight,
    ray: Ray,
    mode: ShadingMode,
    background: Rgba8,
) -> (r: Rgba8)
    requires
        traced.wf(),
    ensures
        sighted(k) ==> r == traced_pixel(k, traced, camera, light, ray, mode, background),
{
    let hit = match traced.closest_hit(k, ray, num(INFINITY)) {
        Some(hit) => hit,
        None => {
            return background;
        },
    };
    match mode {
        ShadingMode::Flat => linear_rgba_to_srgb_u8(k, traced.hit_material(&hit).base_color),
        ShadingMode::Wireframe => if near_edge(&hit) {
            linear_rgba_to_srgb_u8(k, traced.hit_material(&hit).base_color)
        } else {
            background
        },
        ShadingMode::Gouraud => {
            let n = traced.soup[hit.triangle].shade.normals;
            let base = traced.hit_material(&hit).base_color;
            let ca = shade_pixel(k, base, n.0, light);
            let cb = shade_pixel(k, base, n.1, light);
            let cc = shade_pixel(k, base, n.2, light);
            linear_rgba_to_srgb_u8(k, mix4(k, hit.barycentric, ca, cb, cc))
        },
        ShadingMode::Phong => {
            linear_rgba_to_srgb_u8(k, trace_whitted(k, traced, light, ray, &hit, 0))
        },
        ShadingMode::NormalDebug => normal_to_rgba(k, traced.hit_normal(k, &hit)),
        ShadingMode::DepthDebug => {
            let p = point_at(k, ray, hit.t);
            depth_to_rgba(k, ndc_z(k, camera, view_depth(k, camera, p)))
        },
    }
}

/// The primary ray of sample `(x, y)` on a frame of `w` by `h`.
pub open spec fn sample_ray<K: Arith>(
    k: &K,
    camera: &Camera,
    x: int,
    y: int,
    w: int,
    h: int,
) -> Ray {
    ray_through(
        k,
        camera,
        sum(k, number_of(x), num(HALF)),
        sum(k, number_of(y), num(HALF)),
        number_of(w),
        number_of(h),
    )
}

/// The samples of a traced frame of `w` by `h`.
pub open spec fn traced_samples<K: RayTests>(
    k: &K,
    traced: &TraceScene,
    camera: Camera,
    light: DirLight,
    mode: ShadingMode,
    background: Rgba8,
    w: int,
    h: int,
) -> Samples {
    |x: int, y: int|
        traced_pixel(
            k,
            traced,
            &camera,
            &light,
            sample_ray(k, &camera, x, y, w, h),
            mode,
            background,
        )
}

/// Traces one ray for every sample, row after row.
fn trace_frame<K: RayTests>(
    k: &K,
    traced: &TraceScene,
    camera: &Camera,
    light: &DirLight,
    mode: ShadingMode,
    background: Rgba8,
    w: u32,
    h: u32,
) -> (full: RgbaImage)
    requires
        traced.wf(),
        w * 4 <= usize::MAX,
        w * h * 4 <= isize::MAX,
    ensures
        full.width == w,
        full.height == h,
        full.packed(),
        sighted(k) ==> shows(
            full,
            w as int,
            h as int,
            traced_samples(
                k,
                traced,
                *camera,
                *light,
                mode,
                background,
                w as int,
                h as int,
            ),
        ),
{
    let wf = Real::of_u32(w);
    let hf = Real::of_u32(h);
    let ghost samples = traced_samples(
        k,
        traced,
        *camera,
        *light,
        mode,
        background,
        w as int,
        h as int,
    );
    let mut pixels: Vec<u8> = Vec::new();
    let mut y: u32 = 0;
    assert(0 * w == 0) by (nonlinear_arith);
    while y < h
        invariant
            y <= h,
            traced.wf(),
            wf == number_of(w as int),
            hf == number_of(h as int),
            samples == traced_samples(
                k,
                traced,
                *camera,
                *light,
                mode,
                background,
                w as int,
                h as int,
            ),
            pixels@.len() == (y * w) * 4,
            sighted(k) ==> forall|i: int, j: int|
                0 <= i < w && 0 <= j < y ==> pixels@.subrange(
                    #[trigger] byte_offset(w as int, i, j),
                    byte_offset(w as int, i, j) + 4,
                ) == samples(i, j).bytes(),
        decreases h - y,
    {
        let mut x: u32 = 0;
        while x < w
            invariant
                x <= w,
                y < h,
                traced.wf(),
                wf == number_of(w as int),
                hf == number_of(h as int),
                samples == traced_samples(
                    k,
                    traced,
                    *camera,
                    *light,
                    mode,
                    background,
                    w as int,
                    h as int,
                ),
                pixels@.len() == (y * w + x) * 4,
                sighted(k) ==> forall|i: int, j: int|
                    0 <= i < w && (0 <= j < y || j == y && i < x) ==> pixels@.subrange(
                        #[trigger] byte_offset(w as int, i, j),
                        byte_offset(w as int, i, j) + 4,
                    ) == samples(i, j).bytes(),
            decreases w - x,
        {
            let px = k.plus(Real::of_u32(x), num(HALF));
            let py = k.plus(Real::of_u32(y), num(HALF));
            let ray = primary_ray(k, camera, px, py, wf, hf);
            let c = trace_pixel(k, traced, camera, light, ray, mode, background);
            let ghost before = pixels@;
            pixels.push(c.r);
            pixels.push(c.g);
            pixels.push(c.b);
            pixels.push(c.a);
            proof {
                if sighted(k) {
                    assert(c == samples(x as int, y as int));
                    assert forall|i: int, j: int|
                        0 <= i < w && (0 <= j < y || j == y && i < x + 1) implies pixels@.subrange(
                        #[trigger] byte_offset(w as int, i, j),
                        byte_offset(w as int, i, j) + 4,
                    ) == samples(i, j).bytes() by {
                        let o = byte_offset(w as int, i, j);
                        if j == y && i == x {
                            assert(pixels@.subrange(o, o + 4) =~= c.bytes());
                        } else {
                            lemma_earlier(w as int, i, j, x as int, y as int);
                            assert(pixels@.subrange(o, o + 4) =~= before.subrange(o, o + 4));
                        }
                    }
                }
            }
            x += 1;
        }
        assert(y * w + w == (y + 1) * w) by (nonlinear_arith);
        y += 1;
    }
    let full = RgbaImage { width: w, height: h, stride: (w as usize) * 4, pixels };
    proof {
        assert(full.pixels@.len() == full.height * full.stride) by (nonlinear_arith)
            requires
                full.pixels@.len() == (h * w) * 4,
                full.stride == w * 4,
                full.height == h,
        ;
        if sighted(k) {
            assert forall|x: int, y: int| #[trigger] full.in_bounds(x, y) implies full.quad(x, y)
                == samples(x, y).bytes() by {
                assert(full.offset(x, y) == byte_offset(w as int, x, y)) by (nonlinear_arith)
                    requires
                        full.offset(x, y) == y * full.stride + x * 4,
                        full.stride == w * 4,
                        byte_offset(w as int, x, y) == (y * w + x) * 4,
                ;
            }
        }
    }
    full
}

/// Offset of pixel `(x, y)` in a packed image of width `w`.
spec fn byte_offset(w: int, x: int, y: int) -> int {
    (y * w + x) * 4
}

/// Pixels that come earlier lie before.
proof fn lemma_earlier(w: int, i: int, j: int, x: int, y: int)
    requires
        0 <= i < w,
        0 <= x,
        0 <= j,
        j < y || (j == y && i < x),
    ensures
        0 <= byte_offset(w, i, j),
        byte_offset(w, i, j) + 4 <= byte_offset(w, x, y),
{
    assert(0 <= j * w + i && j * w + i + 1 <= y * w + x) by (nonlinear_arith)
        requires
            0 <= i < w,
            0 <= x,
            0 <= j,
            j < y || (j == y && i < x),
    ;
}

/// Whether `image` is what tracing the baked scene under `opts` shows.
pub open spec fn traced_frame<K: RayTests>(
    k: &K,
    scene: &Scene,
    traced: &TraceScene,
    opts: &RenderOptions,
    image: RgbaImage,
) -> bool {
    let (w, h) = (opts.sample_columns(), opts.sample_rows());
    resolved(
        image,
        opts.frame_width(),
        opts.frame_height(),
        opts.frame_samples(),
        traced_samples(
            k,
            traced,
            camera_for(k, w, h, &framed_box(k, scene), opts),
            light_of(k, opts.light),
            opts.shading,
            Rgba8::from_bytes(opts.background.0@),
            w,
            h,
        ),
    )
}

/// Renders a baked scene into a packed RGBA8 image.
pub fn render_baked<K: RayTests>(
    k: &K,
    scene: &Scene,
    traced: &TraceScene,
    opts: &RenderOptions,
) -> (image: RgbaImage)
    requires
        opts.fits(),
        traced.wf(),
    ensures
        image.width == opts.frame_width(),
        image.height == opts.frame_height(),
        image.packed(),
        sighted(k) ==> traced_frame(k, scene, traced, opts, image),
{
    let (width, height, aa) = opts.frame_size();
    let render_w: u32 = width * aa;
    let render_h: u32 = height * aa;
    let bbox = scene_bbox(k, scene);
    let camera = Camera::build(k, render_w, render_h, &bbox, opts);
    let light = build_light(k, opts.light);
    let background = Rgba8::of(opts.background.0);
    let full = trace_frame(
        k,
        traced,
        &camera,
        &light,
        opts.shading,
        background,
        render_w,
        render_h,
    );
    resolve(full, opts)
}

/// Renders a scene into a packed RGBA8 image by recursive ray tracing. It
/// honours the same options as the scanline backend. `None` if the hierarchy
/// that the ray tests gave does not index the baked scene.
pub fn render_scene<K: RayTests>(k: &K, scene: &Scene, opts: &RenderOptions) -> (r: Option<
    RgbaImage,
>)
    requires
        opts.fits(),
    ensures
        r matches Some(image) ==> {
            &&& image.width == opts.frame_width()
            &&& image.height == opts.frame_height()
            &&& image.packed()
            &&& exists|traced: TraceScene| #[trigger]
                traced.bakes(k, scene) && traced.wf() && (sighted(k) ==> traced_frame(
                    k,
                    scene,
                    &traced,
                    opts,
                    image,
                ))
        },
        r is None ==> exists|soup: Vec<BakedTri>, bvh: Bvh| #[trigger]
            call_ensures(K::hierarchy, (k, &soup), Some(bvh)) && !bvh.wf(soup@.len() as int) && (
            repeatable(k) ==> soup@ == visit_soup(k, scene, scene_visits(k, scene))),
{
    match TraceScene::build(k, scene) {
        Some(traced) => {
            let image = render_baked(k, scene, &traced, opts);
            assert(traced.bakes(k, scene));
            Some(image)
        },
        None => None,
    }
}

/// Lines and points have no surface: they bake to nothing and are invisible
/// to rays.
pub proof fn law_lines_and_points_are_invisible<K: Arith>(k: &K, prim: &Primitive, world: &Mat4)
    requires
        !(prim.topology is Triangles || prim.topology is TriangleStrip
            || prim.topology is TriangleFan),
    ensures
        primitive_soup(k, prim, world).len() == 0,
{
}

/// Whether two triangles have the same corners in the same turning order.
pub open spec fn same_turning(t: Seq<u32>, a: u32, b: u32, c: u32) -> bool {
    t == seq![a, b, c] || t == seq![b, c, a] || t == seq![c, a, b]
}

/// Both backends read the same triangles out of a primitive, with the same
/// winding.
pub proof fn law_backends_read_the_same_triangles(topology: Topology, s: Seq<u32>, i: int)
    requires
        topology is Triangles || topology is TriangleStrip || topology is TriangleFan,
        0 <= i < triangle_count(topology, s.len() as int),
    ensures
        triangle_count(topology, s.len() as int) == item_count(topology, s.len() as int),
        item_at(topology, s, i) matches Item::Triangle(a, b, c) && same_turning(
            triangle_at(topology, s, i),
            a,
            b,
            c,
        ),
{
    match item_at(topology, s, i) {
        Item::Triangle(a, b, c) => {
            if topology is TriangleStrip && i % 2 != 0 {
                assert(triangle_at(topology, s, i) =~= seq![b, c, a]);
            } else {
                assert(triangle_at(topology, s, i) =~= seq![a, b, c]);
            }
        },
        _ => {},
    }
}

/// A triangle with a corner that does not exist bakes to nothing.
pub proof fn law_garbage_corners_bake_to_nothing<K: Arith>(
    k: &K,
    prim: &Primitive,
    world: &Mat4,
    corners: Seq<u32>,
)
    requires
        corners[0] >= prim.positions@.len() || corners[1] >= prim.positions@.len() || corners[2]
            >= prim.positions@.len(),
    ensures
        baked_triangle(k, prim, world, corners).len() == 0,
{
}

/// In flat mode both backends give a surface the same colour: the encoded
/// base colour of its material.
pub proof fn law_flat_colour_is_shared<K: RayTests>(
    k: &K,
    scene: &Scene,
    traced: &TraceScene,
    camera: &Camera,
    light: &DirLight,
    ray: Ray,
    hit: Hit,
    background: Rgba8,
)
    requires
        repeatable(k),
        traced.bakes(k, scene),
        hit.triangle < traced.soup@.len(),
    ensures
        hit_pixel(k, traced, camera, light, ray, hit, ShadingMode::Flat, background) == srgb_pixel(
            k,
            colour_of(
                scene.materials@,
                traced.soup@[hit.triangle as int].shade.material,
            ),
        ),
{
}

/// In wireframe mode a sample shows either the background or what it shows
/// in flat mode.
pub proof fn law_wireframe_shows_less_than_flat<K: RayTests>(
    k: &K,
    traced: &TraceScene,
    camera: &Camera,
    light: &DirLight,
    ray: Ray,
    background: Rgba8,
)
    ensures
        ({
            let wire = traced_pixel(
                k,
                traced,
                camera,
                light,
                ray,
                ShadingMode::Wireframe,
                background,
            );
            wire == background || wire == traced_pixel(
                k,
                traced,
                camera,
                light,
                ray,
                ShadingMode::Flat,
                background,
            )
        }),
{
}

/// A ray that strikes nothing shows the background in every mode.
pub proof fn law_miss_shows_the_background<K: RayTests>(
    k: &K,
    traced: &TraceScene,
    camera: &Camera,
    light: &DirLight,
    ray: Ray,
    mode: ShadingMode,
    background: Rgba8,
)
    requires
        traced.closest(k, ray, num(INFINITY)) is None,
    ensures
        traced_pixel(k, traced, camera, light, ray, mode, background) == background,
{
}

/// An unlit surface shows its base colour, whatever the light, the shadows
/// and the depth.
pub proof fn law_unlit_ignores_light<K: RayTests>(
    k: &K,
    traced: &TraceScene,
    light: &DirLight,
    ray: Ray,
    hit: Hit,
    depth: int,
)
    requires
        traced.material_of(hit.triangle as int).unlit,
    ensures
        whitted(k, traced, light, ray, hit, depth) == traced.material_of(
            hit.triangle as int,
        ).base_color,
{
}

/// The light that a surface gets directly, with its own emission.
pub open spec fn local_light<K: RayTests>(
    k: &K,
    traced: &TraceScene,
    light: &DirLight,
    ray: Ray,
    hit: Hit,
) -> Vec4 {
    let m = traced.material_of(hit.triangle as int);
    let site = site_of(k, ray, hit.t, traced.normal_of(k, hit));
    let toward = lifted(k, &site, light.direction, num(RAY_EPSILON));
    direct_lit(k, &m, site.normal, light, traced.shadowed(k, toward, num(INFINITY)))
}

/// No secondary rays: an inert surface, and any surface at the depth limit,
/// shows only the light that it gets directly.
pub proof fn law_inert_surface_is_lit_directly<K: RayTests>(
    k: &K,
    traced: &TraceScene,
    light: &DirLight,
    ray: Ray,
    hit: Hit,
    depth: int,
)
    requires
        !traced.material_of(hit.triangle as int).unlit,
        depth >= MAX_DEPTH || ({
            let m = traced.material_of(hit.triangle as int);
            &&& !num(SECONDARY_RAY_THRESHOLD).below(gloss_of(k, &m))
            &&& !num(SECONDARY_RAY_THRESHOLD).below(m.transmission)
        }),
    ensures
        whitted(k, traced, light, ray, hit, depth) == local_light(k, traced, light, ray, hit),
{
}

/// Ray shading keeps the base colour's alpha, whatever reflects or shines
/// through.
pub proof fn law_ray_shading_keeps_alpha<K: RayTests>(
    k: &K,
    traced: &TraceScene,
    light: &DirLight,
    ray: Ray,
    hit: Hit,
    depth: int,
)
    ensures
        whitted(k, traced, light, ray, hit, depth).w == traced.material_of(
            hit.triangle as int,
        ).base_color.w,
{
}

/// A walk over nodes that carry nothing bakes to nothing.
pub proof fn law_nothing_carried_bakes_to_nothing<K: Arith>(
    k: &K,
    scene: &Scene,
    visits: Seq<Visit>,
)
    requires
        carries_nothing(scene, visits),
    ensures
        visit_soup(k, scene, visits).len() == 0,
    decreases visits.len(),
{
    if visits.len() > 0 {
        let rest = visits.drop_last();
        assert forall|i: int| 0 <= i < rest.len() implies carried(
            scene,
            (#[trigger] rest[i]).node as int,
        ).len() == 0 by {
            assert(rest[i] == visits[i]);
        }
        law_nothing_carried_bakes_to_nothing(k, scene, rest);
        assert(visits.last() == visits[visits.len() - 1]);
    }
}

/// Whether two baked scenes say the same.
pub open spec fn same_bake(a: &TraceScene, b: &TraceScene) -> bool {
    &&& a.soup@ == b.soup@
    &&& a.materials@ == b.materials@
    &&& tree_of(a.bvh) == tree_of(b.bvh)
}

/// Baked scenes that say the same answer queries in the same way.
proof fn lemma_same_queries<K: RayTests>(
    k: &K,
    a: &TraceScene,
    b: &TraceScene,
    ray: Ray,
    t_max: Real,
)
    requires
        same_bake(a, b),
    ensures
        a.closest(k, ray, t_max) == b.closest(k, ray, t_max),
        a.shadowed(k, ray, t_max) == b.shadowed(k, ray, t_max),
{
    if let (Some(x), Some(y)) = (a.bvh, b.bvh) {
        let none = Found { hit: None, limit: t_max };
        lemma_same_search(k, x, y, a.soup@, ray, 0, 0, none);
        lemma_same_shadow(k, x, y, a.soup@, ray, 0, 0, t_max);
    }
}

/// Baked scenes that say the same are shaded in the same way.
proof fn lemma_same_whitted<K: RayTests>(
    k: &K,
    a: &TraceScene,
    b: &TraceScene,
    light: &DirLight,
    ray: Ray,
    hit: Hit,
    depth: int,
)
    requires
        same_bake(a, b),
    ensures
        whitted(k, a, light, ray, hit, depth) == whitted(k, b, light, ray, hit, depth),
    decreases MAX_DEPTH - depth,
{
    let m = a.material_of(hit.triangle as int);
    let site = site_of(k, ray, hit.t, a.normal_of(k, hit));
    let toward = lifted(k, &site, light.direction, num(RAY_EPSILON));
    lemma_same_queries(k, a, b, toward, num(INFINITY));
    if depth < MAX_DEPTH {
        let mirror = mirror_of(k, &site);
        lemma_same_queries(k, a, b, mirror, num(INFINITY));
        if let Some(h) = a.closest(k, mirror, num(INFINITY)) {
            lemma_same_whitted(k, a, b, light, mirror, h, depth + 1);
        }
        if let Some(dir) = bent_toward(k, &m, &site) {
            let through = lifted(k, &site, dir, num(MINUS_RAY_EPSILON));
            lemma_same_queries(k, a, b, through, num(INFINITY));
            if let Some(h) = a.closest(k, through, num(INFINITY)) {
                lemma_same_whitted(k, a, b, light, through, h, depth + 1);
            }
        }
    }
}

/// Baked scenes that say the same show the same samples.
proof fn lemma_same_pixel<K: RayTests>(
    k: &K,
    a: &TraceScene,
    b: &TraceScene,
    camera: &Camera,
    light: &DirLight,
    ray: Ray,
    mode: ShadingMode,
    background: Rgba8,
)
    requires
        same_bake(a, b),
    ensures
        traced_pixel(k, a, camera, light, ray, mode, background) == traced_pixel(
            k,
            b,
            camera,
            light,
            ray,
            mode,
            background,
        ),
{
    lemma_same_queries(k, a, b, ray, num(INFINITY));
    if let Some(h) = a.closest(k, ray, num(INFINITY)) {
        lemma_same_whitted(k, a, b, light, ray, h, 0);
    }
}

/// A scene bakes to the same whenever it is baked.
pub proof fn law_baking_is_repeatable<K: RayTests>(
    k: &K,
    scene: &Scene,
    a: &TraceScene,
    b: &TraceScene,
)
    requires
        sighted(k),
        a.bakes(k, scene),
        b.bakes(k, scene),
    ensures
        same_bake(a, b),
{
    assert(a.materials@ =~= b.materials@);
}

/// Baked scenes that say the same make the same frame.
pub proof fn lemma_same_frame<K: RayTests>(
    k: &K,
    scene: &Scene,
    a: &TraceScene,
    b: &TraceScene,
    opts: &RenderOptions,
    image: RgbaImage,
)
    requires
        same_bake(a, b),
        traced_frame(k, scene, a, opts, image),
    ensures
        traced_frame(k, scene, b, opts, image),
{
    let (w, h) = (opts.sample_columns(), opts.sample_rows());
    let camera = camera_for(k, w, h, &framed_box(k, scene), opts);
    let light = light_of(k, opts.light);
    let background = Rgba8::from_bytes(opts.background.0@);
    let f = traced_samples(k, a, camera, light, opts.shading, background, w, h);
    let g = traced_samples(k, b, camera, light, opts.shading, background, w, h);
    assert forall|x: int, y: int| #[trigger] f(x, y) == g(x, y) by {
        let ray = sample_ray(k, &camera, x, y, w, h);
        lemma_same_pixel(k, a, b, &camera, &light, ray, opts.shading, background);
    }
    assert(f =~= g);
}

/// A baked triangle of a primitive has the primitive's material.
proof fn lemma_baked_material<K: Arith>(k: &K, prim: &Primitive, world: &Mat4, n: int, t: int)
    requires
        0 <= t < baked_primitive(k, prim, world, n).len(),
    ensures
        baked_primitive(k, prim, world, n)[t].shade.material == prim.material,
    decreases n,
{
    if n > 0 && t < baked_primitive(k, prim, world, n - 1).len() {
        lemma_baked_material(k, prim, world, n - 1, t);
    }
}

/// A baked triangle of a mesh has the material of a primitive.
proof fn lemma_mesh_material<K: Arith>(
    k: &K,
    prims: Seq<Primitive>,
    world: &Mat4,
    t: int,
) -> (j: int)
    requires
        0 <= t < mesh_soup(k, prims, world).len(),
    ensures
        0 <= j < prims.len(),
        mesh_soup(k, prims, world)[t].shade.material == prims[j].material,
    decreases prims.len(),
{
    let rest = prims.drop_last();
    let prim = prims.last();
    let n = mesh_soup(k, rest, world).len();
    if t < n {
        let j = lemma_mesh_material(k, rest, world, t);
        assert(rest[j] == prims[j]);
        j
    } else {
        let order = vertex_order(prim.indices, prim.positions@.len() as int);
        let count = triangle_count(prim.topology, order.len() as int);
        lemma_baked_material(k, &prim, world, count, t - n);
        prims.len() - 1
    }
}

/// Every baked triangle has the material of something that a visited node
/// carries.
pub proof fn law_baked_materials_are_carried<K: Arith>(
    k: &K,
    scene: &Scene,
    visits: Seq<Visit>,
    t: int,
)
    requires
        0 <= t < visit_soup(k, scene, visits).len(),
    ensures
        carries_material(scene, visits, visit_soup(k, scene, visits)[t].shade.material),
    decreases visits.len(),
{
    let rest = visits.drop_last();
    let v = visits.last();
    let n = visit_soup(k, scene, rest).len();
    let m = visit_soup(k, scene, visits)[t].shade.material;
    if t < n {
        law_baked_materials_are_carried(k, scene, rest, t);
        lemma_carried_further(scene, visits, m);
    } else {
        let prims = carried(scene, v.node as int);
        let j = lemma_mesh_material(k, prims, &v.world, t - n);
        assert(visits[visits.len() - 1] == v);
        assert(carried(scene, visits[visits.len() - 1].node as int)[j] == prims[j]);
        assert(prims[j].material == m);
    }
}

/// In flat mode every sample is background or the encoded base colour of
/// something that a visited node carries.
pub proof fn law_flat_samples<K: RayTests>(
    k: &K,
    scene: &Scene,
    traced: &TraceScene,
    camera: &Camera,
    light: &DirLight,
    ray: Ray,
    background: Rgba8,
)
    requires
        repeatable(k),
        traced.bakes(k, scene),
        traced.wf(),
    ensures
        ({
            let shown = traced_pixel(
                k,
                traced,
                camera,
                light,
                ray,
                ShadingMode::Flat,
                background,
            );
            shown == background || is_flat_colour(k, scene, scene_visits(k, scene), shown)
        }),
{
    if let Some(b) = traced.bvh {
        let none = Found { hit: None, limit: num(INFINITY) };
        lemma_found_in_soup(k, b, traced.soup@, ray, 0, 0, none);
        if let Some(h) = traced.closest(k, ray, num(INFINITY)) {
            law_flat_colour_is_shared(k, scene, traced, camera, light, ray, h, background);
            law_baked_materials_are_carried(
                k,
                scene,
                scene_visits(k, scene),
                h.triangle as int,
            );
        }
    }
}

} // verus!
