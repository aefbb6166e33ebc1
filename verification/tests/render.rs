//! End-to-end tests: both backends, the camera, shading, the registry and the
//! frame source, driven by the machine's binary32 arithmetic.

use oxideav_mesh3d::ray::{intersect_aabb, intersect_triangle};
use oxideav_mesh3d::{
    Indices, Material, MaterialId, Mesh, MeshId, Node, NodeId, Primitive, Scene3D, Topology,
    Transform,
};
use oxideav_render::arith::{Arith, Notation};
use oxideav_render::bvh::{BakedTri, Bvh, BvhNode, RayTests, Strike};
use oxideav_render::camera::{self, BBox, Camera, Ray};
use oxideav_render::error::{Error, OptionFault};
use oxideav_render::framebuffer::{Framebuffer, Rgba8};
use oxideav_render::math::{Mat4, Vec3, Vec4};
use oxideav_render::options::{
    BackgroundColor, CameraSpec, LightSpec, Projection, RenderBackend, RenderOptions, ShadingMode,
};
use oxideav_render::registry::{register_into, MakeRenderer, RenderRegistry, RendererFactory};
use oxideav_render::renderer::{make_renderer, AnyRenderer, Renderer};
use oxideav_render::scanline::Item;
use oxideav_render::scene;
use oxideav_render::shade::{self, AMBIENT};
use oxideav_render::source::{MediaKind, PixelLayout, RenderSource, SourceError};
use oxideav_render::{math, raycast, scanline, Real, RgbaImage};

#[derive(Debug, Clone, Copy)]
struct Machine;

fn f(x: Real) -> f32 {
    f32::from_bits(x.bits)
}

fn r(x: f32) -> Real {
    Real { bits: x.to_bits() }
}

fn a3(v: Vec3) -> [f32; 3] {
    [f(v.x), f(v.y), f(v.z)]
}

fn a4(v: Vec4) -> [f32; 4] {
    [f(v.x), f(v.y), f(v.z), f(v.w)]
}

fn v3(a: [f32; 3]) -> Vec3 {
    math::vec3(r(a[0]), r(a[1]), r(a[2]))
}

fn v4(a: [f32; 4]) -> Vec4 {
    math::vec4(r(a[0]), r(a[1]), r(a[2]), r(a[3]))
}

fn m4(m: [[f32; 4]; 4]) -> Mat4 {
    Mat4 {
        r0: v4(m[0]),
        r1: v4(m[1]),
        r2: v4(m[2]),
        r3: v4(m[3]),
    }
}

impl Arith for Machine {
    fn plus(&self, a: Real, b: Real) -> Real {
        r(f(a) + f(b))
    }

    fn minus(&self, a: Real, b: Real) -> Real {
        r(f(a) - f(b))
    }

    fn times(&self, a: Real, b: Real) -> Real {
        r(f(a) * f(b))
    }

    fn over(&self, a: Real, b: Real) -> Real {
        r(f(a) / f(b))
    }

    fn powf(&self, a: Real, b: Real) -> Real {
        r(f(a).powf(f(b)))
    }

    fn hypot(&self, a: Real, b: Real) -> Real {
        r(f(a).hypot(f(b)))
    }

    fn sqrt(&self, a: Real) -> Real {
        r(f(a).sqrt())
    }

    fn sin(&self, a: Real) -> Real {
        r(f(a).sin())
    }

    fn cos(&self, a: Real) -> Real {
        r(f(a).cos())
    }

    fn tan(&self, a: Real) -> Real {
        r(f(a).tan())
    }

    fn radians(&self, a: Real) -> Real {
        r(f(a).to_radians())
    }

    fn powi(&self, a: Real, n: i32) -> Real {
        r(f(a).powi(n))
    }
}

fn outside_ray(ray: Ray) -> oxideav_mesh3d::ray::Ray {
    oxideav_mesh3d::ray::Ray::new(a3(ray.origin), a3(ray.direction))
}

impl RayTests for Machine {
    fn meets_box(&self, ray: Ray, min: Vec3, max: Vec3, t_max: Real) -> bool {
        intersect_aabb(outside_ray(ray), a3(min), a3(max), f(t_max)).is_some()
    }

    fn meets_triangle(&self, ray: Ray, tri: &BakedTri, t_max: Real) -> Option<Strike> {
        intersect_triangle(outside_ray(ray), a3(tri.a), a3(tri.b), a3(tri.c), f(t_max)).map(
            |(t, u, v, _front)| Strike {
                t: r(t),
                u: r(u),
                v: r(v),
            },
        )
    }

    fn hierarchy(&self, soup: &Vec<BakedTri>) -> Option<Bvh> {
        let mut prim = Primitive::new(Topology::Triangles);
        for tri in soup {
            prim.positions.extend([a3(tri.a), a3(tri.b), a3(tri.c)]);
        }
        oxideav_mesh3d::Bvh::build(&prim).map(|tree| Bvh {
            nodes: tree
                .nodes
                .iter()
                .map(|n| BvhNode {
                    min: v3(n.bounds.min),
                    max: v3(n.bounds.max),
                    left_or_first: n.left_or_first,
                    right_child: n.right_child,
                    tri_count: n.tri_count,
                })
                .collect(),
            triangles: tree.triangles,
        })
    }
}

fn plain_primitive(prim: &Primitive) -> scene::Primitive {
    scene::Primitive {
        topology: match prim.topology {
            Topology::Triangles => scene::Topology::Triangles,
            Topology::TriangleStrip => scene::Topology::TriangleStrip,
            Topology::TriangleFan => scene::Topology::TriangleFan,
            Topology::Lines => scene::Topology::Lines,
            Topology::LineStrip => scene::Topology::LineStrip,
            Topology::LineLoop => scene::Topology::LineLoop,
            Topology::Points => scene::Topology::Points,
        },
        positions: prim.positions.iter().map(|p| v3(*p)).collect(),
        normals: prim
            .normals
            .as_ref()
            .map(|ns| ns.iter().map(|n| v3(*n)).collect()),
        indices: prim.indices.as_ref().map(|i| match i {
            Indices::U16(v) => scene::Indices::U16(v.clone()),
            Indices::U32(v) => scene::Indices::U32(v.clone()),
        }),
        material: prim.material.map(|m| m.0),
    }
}

fn plain(s: &Scene3D) -> scene::Scene {
    scene::Scene {
        roots: s.roots.iter().map(|id| id.0).collect(),
        nodes: s
            .nodes
            .iter()
            .map(|n| scene::Node {
                matrix: m4(n.transform.to_matrix()),
                mesh: n.mesh.map(|m| m.0),
                children: n.children.iter().map(|c| c.0).collect(),
            })
            .collect(),
        meshes: s
            .meshes
            .iter()
            .map(|m| scene::Mesh {
                primitives: m.primitives.iter().map(plain_primitive).collect(),
            })
            .collect(),
        materials: s
            .materials
            .iter()
            .map(|m| scene::Material {
                base_color: v4(m.base_color),
                metallic: r(m.metallic),
                roughness: r(m.roughness),
                transmission: m.ext.transmission.as_ref().map(|t| r(t.factor)),
                ior: m.ext.ior.map(r),
                emissive_factor: v3(m.emissive_factor),
                emissive_strength: m.ext.emissive_strength.map(r),
                unlit: m.ext.unlit,
            })
            .collect(),
    }
}

fn scan_scene(scene: &Scene3D, opts: &RenderOptions) -> RgbaImage {
    scanline::render_scene(&Machine, &plain(scene), opts)
}

fn ray_scene(scene: &Scene3D, opts: &RenderOptions) -> RgbaImage {
    raycast::render_scene(&Machine, &plain(scene), opts).expect("sound hierarchy")
}

fn linear_rgba_to_srgb_u8(c: [f32; 4]) -> [u8; 4] {
    let p = shade::linear_rgba_to_srgb_u8(&Machine, v4(c));
    [p.r, p.g, p.b, p.a]
}

fn linear_to_srgb_u8(c: f32) -> u8 {
    shade::linear_to_srgb_u8(&Machine, r(c))
}

fn shade_pixel(base: [f32; 4], normal: [f32; 3], light: &shade::DirLight) -> [f32; 4] {
    a4(shade::shade_pixel(&Machine, v4(base), v3(normal), light))
}

fn normal_to_byte(n: f32) -> u8 {
    shade::normal_to_byte(&Machine, r(n))
}

fn depth_to_byte(z: f32) -> u8 {
    shade::depth_to_byte(&Machine, r(z))
}

fn vec3_normalise(v: [f32; 3]) -> [f32; 3] {
    a3(math::vec3_normalise(&Machine, v3(v)))
}

fn vec3_cross(a: [f32; 3], b: [f32; 3]) -> [f32; 3] {
    a3(math::vec3_cross(&Machine, v3(a), v3(b)))
}

fn vec3_dot(a: [f32; 3], b: [f32; 3]) -> f32 {
    f(math::vec3_dot(&Machine, v3(a), v3(b)))
}

fn vec3_add(a: [f32; 3], b: [f32; 3]) -> [f32; 3] {
    a3(math::vec3_add(&Machine, v3(a), v3(b)))
}

fn vec3_scale(v: [f32; 3], s: f32) -> [f32; 3] {
    a3(math::vec3_scale(&Machine, v3(v), r(s)))
}

fn reflect(d: [f32; 3], n: [f32; 3]) -> [f32; 3] {
    a3(raycast::reflect(&Machine, v3(d), v3(n)))
}

fn refract(d: [f32; 3], n: [f32; 3], eta: f32) -> Option<[f32; 3]> {
    raycast::refract(&Machine, v3(d), v3(n), r(eta)).map(a3)
}

fn unit_bbox() -> BBox {
    BBox {
        min: v3([-1.0, -1.0, -1.0]),
        max: v3([1.0, 1.0, 1.0]),
    }
}

fn build(width: u32, height: u32, opts: &RenderOptions) -> Camera {
    Camera::build(&Machine, width, height, &unit_bbox(), opts)
}

fn shoot(cam: &Camera, px: f32, py: f32, w: f32, h: f32) -> ([f32; 3], [f32; 3]) {
    let ray = camera::primary_ray(&Machine, cam, r(px), r(py), r(w), r(h));
    (a3(ray.origin), a3(ray.direction))
}

fn camera_spec(elevation: f32, azimuth: f32, distance: f32) -> CameraSpec {
    CameraSpec {
        elevation_deg: r(elevation),
        azimuth_deg: r(azimuth),
        distance: r(distance),
    }
}

fn light_spec(azimuth: f32, elevation: f32, intensity: f32) -> LightSpec {
    LightSpec {
        azimuth_deg: r(azimuth),
        elevation_deg: r(elevation),
        intensity: r(intensity),
    }
}

const WHITE_BG: BackgroundColor = BackgroundColor([255, 255, 255, 255]);

fn push_mesh_node(scene: &mut Scene3D, prim: Primitive) {
    let mesh_id = scene.meshes.len() as u32;
    scene
        .meshes
        .push(Mesh::new(format!("m{mesh_id}")).with_primitive(prim));
    let node_id = scene.nodes.len() as u32;
    scene.nodes.push(Node {
        mesh: Some(MeshId(mesh_id)),
        ..Node::default()
    });
    scene.roots.push(NodeId(node_id));
}

fn unit_triangle_scene() -> Scene3D {
    let mut prim = Primitive::new(Topology::Triangles);
    prim.positions = vec![[-0.5, -0.5, 0.0], [0.5, -0.5, 0.0], [0.0, 0.5, 0.0]];
    let mut scene = Scene3D::new();
    push_mesh_node(&mut scene, prim);
    scene
}

fn mode_options(mode: ShadingMode) -> RenderOptions {
    RenderOptions {
        width: 64,
        height: 64,
        shading: mode,
        background: WHITE_BG,
        ..RenderOptions::default()
    }
}

fn scan_with_mode(mode: ShadingMode) -> RgbaImage {
    scan_scene(&unit_triangle_scene(), &mode_options(mode))
}

fn ray_with_mode(mode: ShadingMode) -> RgbaImage {
    ray_scene(&unit_triangle_scene(), &mode_options(mode))
}

fn non_bg_count(img: &RgbaImage, bg: [u8; 4]) -> usize {
    img.pixels.chunks_exact(4).filter(|p| *p != bg).count()
}

#[test]
fn every_mode_paints_the_triangle() {
    for mode in [
        ShadingMode::Flat,
        ShadingMode::Gouraud,
        ShadingMode::Phong,
        ShadingMode::Wireframe,
        ShadingMode::NormalDebug,
        ShadingMode::DepthDebug,
    ] {
        let img = ray_with_mode(mode);
        assert!(
            non_bg_count(&img, [255, 255, 255, 255]) > 0,
            "{mode:?} must paint at least one pixel"
        );
    }
}

#[test]
fn raycast_empty_scene_yields_pure_background() {
    let scene = Scene3D::new();
    let opts = RenderOptions {
        width: 8,
        height: 8,
        background: BackgroundColor([42, 7, 99, 255]),
        ..RenderOptions::default()
    };
    let img = ray_scene(&scene, &opts);
    for px in img.pixels.chunks_exact(4) {
        assert_eq!(px, &[42, 7, 99, 255]);
    }
}

#[test]
fn output_dimensions_match_options_with_and_without_aa() {
    for aa in [1, 2, 4] {
        let opts = RenderOptions {
            width: 33,
            height: 17,
            aa,
            background: WHITE_BG,
            ..RenderOptions::default()
        };
        let img = ray_scene(&unit_triangle_scene(), &opts);
        assert_eq!((img.width, img.height), (33, 17), "aa={aa}");
        assert_eq!(img.pixels.len(), 33 * 17 * 4, "aa={aa}");
    }
}

#[test]
fn coverage_matches_scanline_backend() {
    // The two backends share camera framing, so the same triangle
    // must cover a nearly identical pixel set. Allow a small edge
    // disagreement (rasteriser samples pixel centres with edge
    // fill rules; rays sample exact centres).
    let scene = unit_triangle_scene();
    let opts = RenderOptions {
        width: 64,
        height: 64,
        shading: ShadingMode::Flat,
        background: WHITE_BG,
        ..RenderOptions::default()
    };
    let ray_img = ray_scene(&scene, &opts);
    let scan_img = scan_scene(&scene, &opts);
    let mut both = 0usize;
    let mut only_one = 0usize;
    for (r, s) in ray_img
        .pixels
        .chunks_exact(4)
        .zip(scan_img.pixels.chunks_exact(4))
    {
        let rp = r != [255, 255, 255, 255];
        let sp = s != [255, 255, 255, 255];
        if rp && sp {
            both += 1;
        } else if rp != sp {
            only_one += 1;
        }
    }
    assert!(
        both > 100,
        "expected substantial shared coverage, got {both}"
    );
    assert!(
        only_one * 10 < both,
        "backends disagree on too many pixels: shared={both}, disputed={only_one}"
    );
}

#[test]
fn flat_colour_matches_scanline_exactly() {
    // Interior pixels in Flat mode are the same sRGB-encoded base
    // colour in both backends.
    let scene = unit_triangle_scene();
    let opts = RenderOptions {
        width: 64,
        height: 64,
        shading: ShadingMode::Flat,
        background: WHITE_BG,
        ..RenderOptions::default()
    };
    let img = ray_scene(&scene, &opts);
    let expected = linear_rgba_to_srgb_u8([0.7, 0.7, 0.75, 1.0]);
    let painted: Vec<&[u8]> = img
        .pixels
        .chunks_exact(4)
        .filter(|p| *p != [255, 255, 255, 255])
        .collect();
    assert!(!painted.is_empty());
    for p in painted {
        assert_eq!(p, expected, "flat shading must be the unlit base colour");
    }
}

#[test]
fn strip_and_fan_topologies_are_visible() {
    for topology in [Topology::TriangleStrip, Topology::TriangleFan] {
        let mut prim = Primitive::new(topology);
        prim.positions = vec![
            [-0.5, -0.5, 0.0],
            [0.5, -0.5, 0.0],
            [-0.5, 0.5, 0.0],
            [0.5, 0.5, 0.0],
        ];
        let mut scene = Scene3D::new();
        push_mesh_node(&mut scene, prim);
        let opts = RenderOptions {
            width: 32,
            height: 32,
            shading: ShadingMode::Flat,
            background: WHITE_BG,
            ..RenderOptions::default()
        };
        let img = ray_scene(&scene, &opts);
        assert!(
            non_bg_count(&img, [255, 255, 255, 255]) > 0,
            "{topology:?} must bake into visible triangles"
        );
    }
}

#[test]
fn line_and_point_topologies_are_invisible() {
    for topology in [Topology::Lines, Topology::LineStrip, Topology::Points] {
        let mut prim = Primitive::new(topology);
        prim.positions = vec![[-0.5, -0.5, 0.0], [0.5, 0.5, 0.0]];
        let mut scene = Scene3D::new();
        push_mesh_node(&mut scene, prim);
        let opts = RenderOptions {
            width: 16,
            height: 16,
            shading: ShadingMode::Flat,
            background: WHITE_BG,
            ..RenderOptions::default()
        };
        let img = ray_scene(&scene, &opts);
        assert_eq!(
            non_bg_count(&img, [255, 255, 255, 255]),
            0,
            "{topology:?} has no surface area for rays"
        );
    }
}

#[test]
fn indexed_u16_triangles_render() {
    let mut prim = Primitive::new(Topology::Triangles);
    prim.positions = vec![[-0.5, -0.5, 0.0], [0.5, -0.5, 0.0], [0.0, 0.5, 0.0]];
    prim.indices = Some(Indices::U16(vec![0, 1, 2]));
    let mut scene = Scene3D::new();
    push_mesh_node(&mut scene, prim);
    let opts = RenderOptions {
        width: 32,
        height: 32,
        shading: ShadingMode::Flat,
        background: WHITE_BG,
        ..RenderOptions::default()
    };
    let img = ray_scene(&scene, &opts);
    assert!(non_bg_count(&img, [255, 255, 255, 255]) > 0);
}

#[test]
fn material_base_colour_reaches_pixels() {
    let mut prim = Primitive::new(Topology::Triangles);
    prim.positions = vec![[-0.5, -0.5, 0.0], [0.5, -0.5, 0.0], [0.0, 0.5, 0.0]];
    prim.material = Some(MaterialId(0));
    let mut scene = Scene3D::new();
    scene.materials.push(Material {
        base_color: [1.0, 0.0, 0.0, 1.0],
        metallic: 0.0,
        roughness: 1.0,
        ..Material::new()
    });
    push_mesh_node(&mut scene, prim);
    let opts = RenderOptions {
        width: 32,
        height: 32,
        shading: ShadingMode::Flat,
        background: WHITE_BG,
        ..RenderOptions::default()
    };
    let img = ray_scene(&scene, &opts);
    let expected = linear_rgba_to_srgb_u8([1.0, 0.0, 0.0, 1.0]);
    let hit_red = img.pixels.chunks_exact(4).any(|p| p == expected);
    assert!(hit_red, "material base colour must reach the framebuffer");
}

#[test]
fn depth_debug_is_grayscale_and_nearer_is_brighter() {
    // Two coplanar-to-screen triangles at different depths: the
    // nearer one must be brighter (near → white convention).
    let mut near = Primitive::new(Topology::Triangles);
    near.positions = vec![[-0.9, -0.4, 0.5], [-0.1, -0.4, 0.5], [-0.5, 0.4, 0.5]];
    let mut far = Primitive::new(Topology::Triangles);
    far.positions = vec![[0.1, -0.4, -0.5], [0.9, -0.4, -0.5], [0.5, 0.4, -0.5]];
    let mut scene = Scene3D::new();
    push_mesh_node(&mut scene, near);
    push_mesh_node(&mut scene, far);
    let opts = RenderOptions {
        width: 64,
        height: 64,
        shading: ShadingMode::DepthDebug,
        background: BackgroundColor([255, 0, 0, 255]),
        ..RenderOptions::default()
    };
    let img = ray_scene(&scene, &opts);
    // Gather grayscale values on each half of the image.
    let mut left_max = 0u8;
    let mut right_max = 0u8;
    for y in 0..64 {
        for x in 0..64 {
            let p = img.pixel(x, y).unwrap();
            if p == [255, 0, 0, 255] {
                continue;
            }
            assert_eq!(p[0], p[1]);
            assert_eq!(p[1], p[2]);
            if x < 32 {
                left_max = left_max.max(p[0]);
            } else {
                right_max = right_max.max(p[0]);
            }
        }
    }
    assert!(left_max > 0 && right_max > 0, "both triangles must appear");
    assert!(
        left_max > right_max,
        "near (+z, left) triangle must be brighter: {left_max} vs {right_max}"
    );
}

#[test]
fn phong_shading_is_darker_than_flat_on_tilted_face() {
    // A face tilted away from the default light shades darker
    // than its unlit base colour.
    let mut prim = Primitive::new(Topology::Triangles);
    prim.positions = vec![[-0.5, -0.5, 0.0], [0.5, -0.5, 0.0], [0.0, 0.5, 0.0]];
    prim.normals = Some(vec![[0.0, 0.0, 1.0]; 3]);
    let mut scene = Scene3D::new();
    push_mesh_node(&mut scene, prim);
    let opts = RenderOptions {
        width: 32,
        height: 32,
        shading: ShadingMode::Phong,
        background: WHITE_BG,
        ..RenderOptions::default()
    };
    let img = ray_scene(&scene, &opts);
    let flat = linear_rgba_to_srgb_u8([0.7, 0.7, 0.75, 1.0]);
    let painted: Vec<[u8; 4]> = img
        .pixels
        .chunks_exact(4)
        .filter(|p| *p != [255, 255, 255, 255])
        .map(|p| [p[0], p[1], p[2], p[3]])
        .collect();
    assert!(!painted.is_empty());
    for p in &painted {
        assert!(
            p[0] <= flat[0] && p[1] <= flat[1] && p[2] <= flat[2],
            "lit colour must not exceed base colour: {p:?} vs {flat:?}"
        );
    }
}

#[test]
fn wireframe_paints_fewer_pixels_than_flat() {
    let flat = ray_with_mode(ShadingMode::Flat);
    let wire = ray_with_mode(ShadingMode::Wireframe);
    let bg = [255, 255, 255, 255];
    let flat_n = non_bg_count(&flat, bg);
    let wire_n = non_bg_count(&wire, bg);
    assert!(wire_n > 0, "wireframe must paint the edge band");
    assert!(
        wire_n < flat_n,
        "edge band must be sparser than the filled face: {wire_n} vs {flat_n}"
    );
}

#[test]
fn reflect_mirrors_about_normal() {
    let r = reflect([1.0, -1.0, 0.0], [0.0, 1.0, 0.0]);
    assert!((r[0] - 1.0).abs() < 1.0e-6);
    assert!((r[1] - 1.0).abs() < 1.0e-6);
    assert!(r[2].abs() < 1.0e-6);
}

#[test]
fn refract_straight_through_at_eta_one() {
    let d = vec3_normalise([0.3, -0.9, 0.1]);
    let t = refract(d, [0.0, 1.0, 0.0], 1.0).expect("eta 1 never TIRs");
    for i in 0..3 {
        assert!((t[i] - d[i]).abs() < 1.0e-5, "eta=1 must not bend the ray");
    }
}

#[test]
fn refract_reports_total_internal_reflection() {
    // Grazing exit from a dense medium (eta > 1) must TIR.
    let d = vec3_normalise([0.9, -0.1, 0.0]);
    assert!(refract(d, [0.0, 1.0, 0.0], 1.5).is_none());
}

#[test]
fn shadow_ray_darkens_occluded_floor() {
    // A floor plane with a small raised occluder, lit at a 45°
    // slant so the occluder's shadow falls on floor that a
    // near-top-down camera can see (a straight-down light would
    // hide the shadow under the occluder itself). Identical
    // geometry rendered twice — once with the slanted light
    // (shadow visible), once with the light coming from the
    // mirrored azimuth (shadow falls on the other side): both
    // must contain ambient-only floor pixels; the floor-only
    // control scene must not.
    let mut floor = Primitive::new(Topology::Triangles);
    floor.positions = vec![
        [-1.0, 0.0, -1.0],
        [1.0, 0.0, -1.0],
        [-1.0, 0.0, 1.0],
        [1.0, 0.0, -1.0],
        [1.0, 0.0, 1.0],
        [-1.0, 0.0, 1.0],
    ];
    floor.normals = Some(vec![[0.0, 1.0, 0.0]; 6]);

    let mut occluder = Primitive::new(Topology::Triangles);
    occluder.positions = vec![
        [-0.3, 0.5, -0.3],
        [0.3, 0.5, -0.3],
        [-0.3, 0.5, 0.3],
        [0.3, 0.5, -0.3],
        [0.3, 0.5, 0.3],
        [-0.3, 0.5, 0.3],
    ];

    // Slanted light: from +Z at 45° elevation. Floor lit at
    // cos(45°) ⇒ linear 0.7 × (0.2 + 0.8·0.707) ≈ 0.535 ⇒ sRGB
    // ≈ 194. Shadowed floor keeps ambient only: 0.7 × 0.2 = 0.14
    // ⇒ sRGB ≈ 110.
    let light = light_spec(0.0, 45.0, 1.0);
    let camera = camera_spec(80.0, 0.0, 1.5);
    let bg = [255, 0, 255, 255];
    let opts = RenderOptions {
        width: 48,
        height: 48,
        shading: ShadingMode::Phong,
        background: BackgroundColor(bg),
        light,
        camera: Some(camera),
        ..RenderOptions::default()
    };

    let mut scene = Scene3D::new();
    push_mesh_node(&mut scene, floor.clone());
    push_mesh_node(&mut scene, occluder);
    let shadow_img = ray_scene(&scene, &opts);

    let mut control = Scene3D::new();
    push_mesh_node(&mut control, floor);
    let control_img = ray_scene(&control, &opts);

    let min_luma = |img: &RgbaImage| -> u8 {
        img.pixels
            .chunks_exact(4)
            .filter(|p| *p != bg)
            .map(|p| p[0])
            .min()
            .unwrap_or(255)
    };
    let shadow_min = min_luma(&shadow_img);
    let control_min = min_luma(&control_img);
    assert!(
        shadow_min <= 120,
        "occluder scene must contain ambient-only shadowed floor, min luma {shadow_min}"
    );
    assert!(
        control_min >= 160,
        "floor-only control must be fully lit everywhere, min luma {control_min}"
    );
}

#[test]
fn metallic_floor_reflects_offscreen_triangle() {
    // A mirror floor with a red wall standing on it: floor
    // pixels near the wall pick up red from the reflection,
    // compared against the same scene with an inert floor.
    let mut floor = Primitive::new(Topology::Triangles);
    floor.positions = vec![
        [-1.0, 0.0, -1.0],
        [1.0, 0.0, -1.0],
        [-1.0, 0.0, 1.0],
        [1.0, 0.0, -1.0],
        [1.0, 0.0, 1.0],
        [-1.0, 0.0, 1.0],
    ];
    floor.normals = Some(vec![[0.0, 1.0, 0.0]; 6]);
    floor.material = Some(MaterialId(0));

    let mut wall = Primitive::new(Topology::Triangles);
    wall.positions = vec![
        [-1.0, 0.0, -1.0],
        [1.0, 0.0, -1.0],
        [-1.0, 1.0, -1.0],
        [1.0, 0.0, -1.0],
        [1.0, 1.0, -1.0],
        [-1.0, 1.0, -1.0],
    ];
    wall.normals = Some(vec![[0.0, 0.0, 1.0]; 6]);
    wall.material = Some(MaterialId(1));

    let mirror = Material {
        base_color: [1.0, 1.0, 1.0, 1.0],
        metallic: 1.0,
        roughness: 0.0,
        ..Material::new()
    };
    let inert = Material {
        base_color: [1.0, 1.0, 1.0, 1.0],
        metallic: 0.0,
        roughness: 1.0,
        ..Material::new()
    };
    let red_wall = Material {
        base_color: [1.0, 0.0, 0.0, 1.0],
        metallic: 0.0,
        roughness: 1.0,
        ..Material::new()
    };

    let camera = camera_spec(30.0, 0.0, 1.5);
    let opts = RenderOptions {
        width: 48,
        height: 48,
        shading: ShadingMode::Phong,
        background: BackgroundColor([0, 0, 255, 255]),
        camera: Some(camera),
        ..RenderOptions::default()
    };

    let render_floor = |floor_mat: Material| -> RgbaImage {
        let mut scene = Scene3D::new();
        scene.materials.push(floor_mat);
        scene.materials.push(red_wall.clone());
        push_mesh_node(&mut scene, floor.clone());
        push_mesh_node(&mut scene, wall.clone());
        ray_scene(&scene, &opts)
    };

    let mirror_img = render_floor(mirror);
    let inert_img = render_floor(inert);

    // Somewhere in the lower half (the floor) the mirror image
    // must be substantially redder than the inert image.
    let mut best_delta = 0i32;
    for y in 24..48 {
        for x in 0..48 {
            let m = mirror_img.pixel(x, y).unwrap();
            let i = inert_img.pixel(x, y).unwrap();
            let redness_m = m[0] as i32 - ((m[1] as i32 + m[2] as i32) / 2);
            let redness_i = i[0] as i32 - ((i[1] as i32 + i[2] as i32) / 2);
            best_delta = best_delta.max(redness_m - redness_i);
        }
    }
    assert!(
        best_delta > 40,
        "mirror floor must reflect the red wall (best redness delta {best_delta})"
    );
}

#[test]
fn transmissive_pane_shows_through_tinted() {
    // A transmissive pane in front of a red wall: rays through
    // the pane must still find the wall (vs. an opaque pane that
    // hides it).
    let mut wall = Primitive::new(Topology::Triangles);
    wall.positions = vec![
        [-1.0, -1.0, -1.0],
        [1.0, -1.0, -1.0],
        [-1.0, 1.0, -1.0],
        [1.0, -1.0, -1.0],
        [1.0, 1.0, -1.0],
        [-1.0, 1.0, -1.0],
    ];
    wall.normals = Some(vec![[0.0, 0.0, 1.0]; 6]);
    wall.material = Some(MaterialId(1));

    let mut pane = Primitive::new(Topology::Triangles);
    pane.positions = vec![
        [-1.0, -1.0, 0.0],
        [1.0, -1.0, 0.0],
        [-1.0, 1.0, 0.0],
        [1.0, -1.0, 0.0],
        [1.0, 1.0, 0.0],
        [-1.0, 1.0, 0.0],
    ];
    pane.normals = Some(vec![[0.0, 0.0, 1.0]; 6]);
    pane.material = Some(MaterialId(0));

    let red_wall = Material {
        base_color: [1.0, 0.0, 0.0, 1.0],
        metallic: 0.0,
        roughness: 1.0,
        ..Material::new()
    };
    let mut glass = Material {
        base_color: [1.0, 1.0, 1.0, 1.0],
        metallic: 0.0,
        roughness: 0.0,
        ..Material::new()
    };
    glass.ext.transmission = Some(oxideav_mesh3d::material::Transmission {
        factor: 1.0,
        factor_texture: None,
    });
    glass.ext.ior = Some(1.0); // index-matched: no bending
    let opaque = Material {
        base_color: [1.0, 1.0, 1.0, 1.0],
        metallic: 0.0,
        roughness: 1.0,
        ..Material::new()
    };

    let opts = RenderOptions {
        width: 32,
        height: 32,
        shading: ShadingMode::Phong,
        background: BackgroundColor([0, 0, 255, 255]),
        ..RenderOptions::default()
    };

    let render_pane = |pane_mat: Material| -> RgbaImage {
        let mut scene = Scene3D::new();
        scene.materials.push(pane_mat);
        scene.materials.push(red_wall.clone());
        push_mesh_node(&mut scene, pane.clone());
        push_mesh_node(&mut scene, wall.clone());
        ray_scene(&scene, &opts)
    };

    let glass_img = render_pane(glass);
    let opaque_img = render_pane(opaque);

    let g = glass_img.pixel(16, 16).unwrap();
    let o = opaque_img.pixel(16, 16).unwrap();
    assert!(
        g[0] > 100 && g[1] < 100,
        "glass pane must show the red wall through it, got {g:?}"
    );
    assert!(
        o[0].abs_diff(o[1]) < 30,
        "opaque pane must stay neutral, got {o:?}"
    );
}

#[test]
fn unlit_material_ignores_light_and_shadow() {
    // An unlit triangle renders its exact base colour even when
    // the light grazes it; the same geometry with a lit material
    // shades darker.
    let mut prim = Primitive::new(Topology::Triangles);
    prim.positions = vec![[-0.5, -0.5, 0.0], [0.5, -0.5, 0.0], [0.0, 0.5, 0.0]];
    prim.normals = Some(vec![[0.0, 0.0, 1.0]; 3]);
    prim.material = Some(MaterialId(0));

    let base = [0.3, 0.8, 0.2, 1.0];
    let mut unlit_mat = Material {
        base_color: base,
        metallic: 0.0,
        roughness: 1.0,
        ..Material::new()
    };
    unlit_mat.ext.unlit = true;
    let lit_mat = Material {
        base_color: base,
        metallic: 0.0,
        roughness: 1.0,
        ..Material::new()
    };

    // Light nearly opposite the surface normal.
    let opts = RenderOptions {
        width: 32,
        height: 32,
        shading: ShadingMode::Phong,
        background: WHITE_BG,
        light: light_spec(180.0, 0.0, 1.0),
        ..RenderOptions::default()
    };

    let render_mat = |mat: Material| -> RgbaImage {
        let mut scene = Scene3D::new();
        scene.materials.push(mat);
        push_mesh_node(&mut scene, prim.clone());
        ray_scene(&scene, &opts)
    };

    let unlit_img = render_mat(unlit_mat);
    let lit_img = render_mat(lit_mat);
    let expected = linear_rgba_to_srgb_u8(base);
    let unlit_painted: Vec<[u8; 4]> = unlit_img
        .pixels
        .chunks_exact(4)
        .filter(|p| *p != [255, 255, 255, 255])
        .map(|p| [p[0], p[1], p[2], p[3]])
        .collect();
    assert!(!unlit_painted.is_empty());
    for p in &unlit_painted {
        assert_eq!(*p, expected, "unlit surface must be the exact base colour");
    }
    let lit_darker = lit_img
        .pixels
        .chunks_exact(4)
        .filter(|p| *p != [255, 255, 255, 255])
        .all(|p| p[1] < expected[1]);
    assert!(
        lit_darker,
        "the lit control must shade darker than the unlit base colour"
    );
}

#[test]
fn emissive_material_self_illuminates() {
    // Black base + red emission: the surface must glow red, and
    // halving KHR_materials_emissive_strength must dim it.
    let mut prim = Primitive::new(Topology::Triangles);
    prim.positions = vec![[-0.5, -0.5, 0.0], [0.5, -0.5, 0.0], [0.0, 0.5, 0.0]];
    prim.normals = Some(vec![[0.0, 0.0, 1.0]; 3]);
    prim.material = Some(MaterialId(0));

    let emissive_mat = |strength: Option<f32>| -> Material {
        let mut m = Material {
            base_color: [0.0, 0.0, 0.0, 1.0],
            metallic: 0.0,
            roughness: 1.0,
            emissive_factor: [0.5, 0.0, 0.0],
            ..Material::new()
        };
        m.ext.emissive_strength = strength;
        m
    };

    let opts = RenderOptions {
        width: 32,
        height: 32,
        shading: ShadingMode::Phong,
        background: WHITE_BG,
        ..RenderOptions::default()
    };
    let render_mat = |mat: Material| -> RgbaImage {
        let mut scene = Scene3D::new();
        scene.materials.push(mat);
        push_mesh_node(&mut scene, prim.clone());
        ray_scene(&scene, &opts)
    };

    let full = render_mat(emissive_mat(None)); // strength default 1.0
    let dim = render_mat(emissive_mat(Some(0.5)));
    let max_red = |img: &RgbaImage| -> u8 {
        img.pixels
            .chunks_exact(4)
            .filter(|p| *p != [255, 255, 255, 255])
            .map(|p| p[0])
            .max()
            .unwrap_or(0)
    };
    let full_red = max_red(&full);
    let dim_red = max_red(&dim);
    let expected_full = linear_to_srgb_u8(0.5);
    let expected_dim = linear_to_srgb_u8(0.25);
    assert_eq!(full_red, expected_full, "emission must reach the pixel");
    assert_eq!(
        dim_red, expected_dim,
        "emissive_strength must scale the emission"
    );
    // Green / blue channels stay black (base colour is black,
    // emission is pure red).
    let clean_channels = full
        .pixels
        .chunks_exact(4)
        .filter(|p| *p != [255, 255, 255, 255])
        .all(|p| p[1] == 0 && p[2] == 0);
    assert!(clean_channels, "emission must not leak across channels");
}

#[test]
fn nested_transform_hierarchy_is_honoured() {
    // A child triangle translated by its parent must move in the
    // image relative to an un-translated sibling scene.
    let mut prim = Primitive::new(Topology::Triangles);
    prim.positions = vec![[-0.5, -0.5, 0.0], [0.5, -0.5, 0.0], [0.0, 0.5, 0.0]];

    let mut scene = Scene3D::new();
    scene
        .meshes
        .push(Mesh::new("t".to_string()).with_primitive(prim));
    // Parent shifts +X by 2; child carries the mesh.
    scene.nodes.push(Node {
        transform: Transform::Trs {
            translation: [2.0, 0.0, 0.0],
            rotation: [0.0, 0.0, 0.0, 1.0],
            scale: [1.0, 1.0, 1.0],
        },
        children: vec![NodeId(1)],
        ..Node::default()
    });
    scene.nodes.push(Node {
        mesh: Some(MeshId(0)),
        ..Node::default()
    });
    scene.roots.push(NodeId(0));

    let opts = RenderOptions {
        width: 32,
        height: 32,
        shading: ShadingMode::Flat,
        background: WHITE_BG,
        ..RenderOptions::default()
    };
    let img = ray_scene(&scene, &opts);
    // Auto-framing recentres on the shifted bbox, so the triangle
    // still lands mid-frame — assert it renders at all (the walk
    // composed parent × child without panicking) and matches the
    // scanline backend's coverage for the same scene.
    let scan = scan_scene(&scene, &opts);
    let ray_n = non_bg_count(&img, [255, 255, 255, 255]);
    let scan_n = non_bg_count(&scan, [255, 255, 255, 255]);
    assert!(ray_n > 0);
    assert!(
        (ray_n as i64 - scan_n as i64).unsigned_abs() as usize <= ray_n / 4 + 8,
        "backends must agree on transformed coverage: ray={ray_n} scan={scan_n}"
    );
}

#[test]
fn renders_triangle_changes_some_pixels() {
    let img = scan_with_mode(ShadingMode::Flat);
    assert_eq!(img.width, 64);
    assert_eq!(img.height, 64);
    assert_eq!(img.pixels.len(), 64 * 64 * 4);
    let drawn = img
        .pixels
        .chunks_exact(4)
        .any(|p| p != [255, 255, 255, 255]);
    assert!(drawn, "expected at least one rasterised pixel");
}

#[test]
fn wireframe_paints_triangle_edges() {
    let scene = unit_triangle_scene();
    let opts = RenderOptions {
        width: 32,
        height: 32,
        shading: ShadingMode::Wireframe,
        background: BackgroundColor([0, 0, 0, 255]),
        ..RenderOptions::default()
    };
    let img = scan_scene(&scene, &opts);
    let drawn = img.pixels.chunks_exact(4).any(|p| p != [0, 0, 0, 255]);
    assert!(drawn, "wireframe should paint at least one edge pixel");
}

#[test]
fn gouraud_renders_pixels() {
    let img = scan_with_mode(ShadingMode::Gouraud);
    let drawn = img
        .pixels
        .chunks_exact(4)
        .any(|p| p != [255, 255, 255, 255]);
    assert!(drawn, "gouraud should rasterise the triangle");
}

#[test]
fn phong_renders_pixels() {
    let img = scan_with_mode(ShadingMode::Phong);
    let drawn = img
        .pixels
        .chunks_exact(4)
        .any(|p| p != [255, 255, 255, 255]);
    assert!(drawn, "phong should rasterise the triangle");
}

#[test]
fn scanline_empty_scene_yields_pure_background() {
    let scene = Scene3D::new();
    let opts = RenderOptions {
        width: 8,
        height: 8,
        background: BackgroundColor([42, 7, 99, 255]),
        ..RenderOptions::default()
    };
    let img = scan_scene(&scene, &opts);
    for px in img.pixels.chunks_exact(4) {
        assert_eq!(px, &[42, 7, 99, 255]);
    }
}

#[test]
fn scanline_linear_to_srgb_handles_endpoints() {
    assert_eq!(linear_to_srgb_u8(0.0), 0);
    assert_eq!(linear_to_srgb_u8(1.0), 255);
}

#[test]
fn scanline_camera_with_user_override_is_finite() {
    let opts = RenderOptions {
        camera: Some(camera_spec(30.0, 45.0, 1.5)),
        ..RenderOptions::default()
    };
    let cam = build(64, 64, &opts);
    for row in [cam.view.r0, cam.view.r1, cam.view.r2, cam.view.r3] {
        for v in a4(row) {
            assert!(v.is_finite(), "camera view matrix component not finite");
        }
    }
}

#[test]
fn scanline_ortho_projection_matrix_has_zero_w_translation() {
    let opts = RenderOptions {
        projection: Projection::Orthographic,
        ..RenderOptions::default()
    };
    let cam = build(64, 64, &opts);
    // Ortho proj's bottom row is [0, 0, 0, 1] (no perspective divide).
    assert_eq!(a4(cam.proj.r3), [0.0, 0.0, 0.0, 1.0]);
}

#[test]
fn normal_to_byte_endpoints() {
    assert_eq!(normal_to_byte(-1.0), 0);
    assert_eq!(normal_to_byte(0.0), 128);
    assert_eq!(normal_to_byte(1.0), 255);
}

#[test]
fn normal_to_byte_clamps_out_of_range() {
    assert_eq!(normal_to_byte(-2.0), 0);
    assert_eq!(normal_to_byte(2.0), 255);
    assert_eq!(normal_to_byte(f32::NAN), 128);
}

#[test]
fn depth_to_byte_endpoints() {
    assert_eq!(depth_to_byte(-1.0), 255);
    assert_eq!(depth_to_byte(1.0), 0);
    let mid = depth_to_byte(0.0);
    assert!(
        (120..=140).contains(&mid),
        "mid-z grayscale should be ~128, got {mid}"
    );
}

#[test]
fn normal_debug_renders_pixels() {
    let img = scan_with_mode(ShadingMode::NormalDebug);
    let drawn = img
        .pixels
        .chunks_exact(4)
        .any(|p| p != [255, 255, 255, 255]);
    assert!(drawn, "normal-debug should rasterise the triangle");
}

#[test]
fn depth_debug_renders_grayscale() {
    let img = scan_with_mode(ShadingMode::DepthDebug);
    let drawn = img
        .pixels
        .chunks_exact(4)
        .any(|p| p != [255, 255, 255, 255]);
    assert!(drawn, "depth-debug should rasterise the triangle");
    for px in img.pixels.chunks_exact(4) {
        if px == [255, 255, 255, 255] {
            continue;
        }
        assert_eq!(px[0], px[1], "depth-debug pixel must be grayscale");
        assert_eq!(px[1], px[2], "depth-debug pixel must be grayscale");
        assert_eq!(px[3], 255, "depth-debug pixel alpha must be opaque");
    }
}

#[test]
fn aa_default_keeps_output_dims() {
    let scene = unit_triangle_scene();
    let opts = RenderOptions {
        width: 32,
        height: 32,
        background: BackgroundColor([255, 255, 255, 255]),
        ..RenderOptions::default()
    };
    let img = scan_scene(&scene, &opts);
    assert_eq!(img.width, 32);
    assert_eq!(img.height, 32);
    assert_eq!(img.pixels.len(), 32 * 32 * 4);
}

#[test]
fn aa_factor_two_keeps_output_dims() {
    let scene = unit_triangle_scene();
    let opts = RenderOptions {
        width: 32,
        height: 32,
        background: BackgroundColor([255, 255, 255, 255]),
        aa: 2,
        ..RenderOptions::default()
    };
    let img = scan_scene(&scene, &opts);
    assert_eq!(img.width, 32);
    assert_eq!(img.height, 32);
    assert_eq!(img.pixels.len(), 32 * 32 * 4);
}

#[test]
fn aa_softens_triangle_edges() {
    let scene = unit_triangle_scene();
    let bg = BackgroundColor([255, 255, 255, 255]);
    let opts_1 = RenderOptions {
        width: 64,
        height: 64,
        background: bg,
        ..RenderOptions::default()
    };
    let opts_4 = RenderOptions {
        aa: 4,
        ..opts_1.clone()
    };
    let img1 = scan_scene(&scene, &opts_1);
    let img4 = scan_scene(&scene, &opts_4);
    let intermediate = |img: &RgbaImage| -> usize {
        img.pixels
            .chunks_exact(4)
            .filter(|p| {
                let is_bg = p == &[255, 255, 255, 255];
                let r = p[0];
                let same = p[0] == p[1] && p[1] == p[2];
                !is_bg && !(same && (r == 0 || r == 255))
            })
            .count()
    };
    let int1 = intermediate(&img1);
    let int4 = intermediate(&img4);
    assert!(
        int4 > int1,
        "expected SSAA to introduce more intermediate edge pixels; got 1×={int1}, 4×={int4}"
    );
}

#[test]
fn aa_factor_one_matches_no_aa() {
    let scene = unit_triangle_scene();
    let bg = BackgroundColor([200, 100, 50, 255]);
    let opts_off = RenderOptions {
        width: 16,
        height: 16,
        background: bg,
        ..RenderOptions::default()
    };
    let opts_one = RenderOptions {
        aa: 1,
        ..opts_off.clone()
    };
    let img_off = scan_scene(&scene, &opts_off);
    let img_one = scan_scene(&scene, &opts_one);
    assert_eq!(img_off.pixels, img_one.pixels);
}


#[test]
fn camera_camera_with_user_override_is_finite() {
    let opts = RenderOptions {
        camera: Some(camera_spec(30.0, 45.0, 1.5)),
        ..RenderOptions::default()
    };
    let cam = build(64, 64, &opts);
    for row in [cam.view.r0, cam.view.r1, cam.view.r2, cam.view.r3] {
        for v in a4(row) {
            assert!(v.is_finite(), "camera view matrix component not finite");
        }
    }
}

#[test]
fn camera_ortho_projection_matrix_has_zero_w_translation() {
    let opts = RenderOptions {
        projection: Projection::Orthographic,
        ..RenderOptions::default()
    };
    let cam = build(64, 64, &opts);
    // Ortho proj's bottom row is [0, 0, 0, 1] (no perspective divide).
    assert_eq!(a4(cam.proj.r3), [0.0, 0.0, 0.0, 1.0]);
}

#[test]
fn centre_pixel_primary_ray_points_forward() {
    let cam = build(64, 64, &RenderOptions::default());
    let (origin, dir) = shoot(&cam, 32.0, 32.0, 64.0, 64.0);
    assert_eq!(origin, a3(cam.eye));
    let forward = a3(cam.forward);
    for i in 0..3 {
        assert!(
            (dir[i] - forward[i]).abs() < 1.0e-6,
            "centre ray must align with forward, axis {i}: {dir:?} vs {:?}",
            forward
        );
    }
    // Unit length.
    let len = (dir[0] * dir[0] + dir[1] * dir[1] + dir[2] * dir[2]).sqrt();
    assert!((len - 1.0).abs() < 1.0e-5);
}

#[test]
fn corner_primary_rays_are_symmetric() {
    let cam = build(64, 64, &RenderOptions::default());
    let (_, tl) = shoot(&cam, 0.0, 0.0, 64.0, 64.0);
    let (_, br) = shoot(&cam, 64.0, 64.0, 64.0, 64.0);
    // The default camera looks down -Z with side = +X-ish, so
    // opposite corners mirror through the forward axis.
    let sum = vec3_add(tl, br);
    let fwd2 = vec3_scale(a3(cam.forward), vec3_dot(sum, a3(cam.forward)));
    for i in 0..3 {
        assert!(
            (sum[i] - fwd2[i]).abs() < 1.0e-5,
            "corner rays should mirror across forward: {tl:?} + {br:?}"
        );
    }
}

#[test]
fn ortho_primary_rays_are_parallel() {
    let opts = RenderOptions {
        projection: Projection::Orthographic,
        ..RenderOptions::default()
    };
    let cam = build(64, 64, &opts);
    let (o1, d1) = shoot(&cam, 0.0, 0.0, 64.0, 64.0);
    let (o2, d2) = shoot(&cam, 64.0, 32.0, 64.0, 64.0);
    assert_eq!(d1, d2, "orthographic rays must be parallel");
    assert_ne!(o1, o2, "orthographic ray origins must spread");
}

#[test]
fn ndc_z_endpoints_map_near_far() {
    for projection in [Projection::Perspective, Projection::Orthographic] {
        let opts = RenderOptions {
            projection,
            ..RenderOptions::default()
        };
        let cam = build(64, 64, &opts);
        let zn = f(camera::ndc_z(&Machine, &cam, cam.near));
        let zf = f(camera::ndc_z(&Machine, &cam, cam.far));
        assert!(
            (zn - -1.0).abs() < 1.0e-4,
            "{projection:?}: near plane must map to -1, got {zn}"
        );
        assert!(
            (zf - 1.0).abs() < 1.0e-4,
            "{projection:?}: far plane must map to +1, got {zf}"
        );
    }
}

#[test]
fn view_depth_of_target_is_camera_distance() {
    let cam = build(64, 64, &RenderOptions::default());
    // The auto-framed camera looks at the bbox centre (origin).
    let d = f(camera::view_depth(&Machine, &cam, v3([0.0, 0.0, 0.0])));
    let eye = a3(cam.eye);
    let dist = (eye[0] * eye[0] + eye[1] * eye[1] + eye[2] * eye[2]).sqrt();
    assert!(
        (d - dist).abs() < 1.0e-4,
        "view depth {d} vs eye dist {dist}"
    );
}

#[test]
fn camera_basis_is_orthonormal() {
    let opts = RenderOptions {
        camera: Some(camera_spec(20.0, 110.0, 2.0)),
        ..RenderOptions::default()
    };
    let cam = build(64, 48, &opts);
    let (forward, side, up) = (a3(cam.forward), a3(cam.side), a3(cam.up));
    for (a, b) in [
        (forward, side),
        (side, up),
        (up, forward),
    ] {
        assert!(vec3_dot(a, b).abs() < 1.0e-5, "basis not orthogonal");
    }
    for v in [forward, side, up] {
        let len = vec3_dot(v, v).sqrt();
        assert!((len - 1.0).abs() < 1.0e-5, "basis vector not unit");
    }
}

#[test]
fn projection_of_ray_point_lands_on_source_pixel() {
    // Round-trip consistency between the two camera consumers:
    // walk a primary ray to some t, project that world point back
    // through view+proj, and check it lands on the source pixel.
    for projection in [Projection::Perspective, Projection::Orthographic] {
        let opts = RenderOptions {
            projection,
            ..RenderOptions::default()
        };
        let cam = build(80, 60, &opts);
        for (px, py) in [(40.0, 30.0), (10.0, 12.0), (70.0, 55.0)] {
            let (origin, dir) = shoot(&cam, px, py, 80.0, 60.0);
            let p = vec3_add(origin, vec3_scale(dir, 2.5));
            let viewp = a3(math::mat4_mul_point(&Machine, &cam.view, v3(p)));
            let clip = a4(math::mat4_mul_vec4(
                &Machine,
                &cam.proj,
                v4([viewp[0], viewp[1], viewp[2], 1.0]),
            ));
            let w = if clip[3].abs() > f32::EPSILON {
                clip[3]
            } else {
                1.0
            };
            let sx = (clip[0] / w * 0.5 + 0.5) * 80.0;
            let sy = (1.0 - (clip[1] / w * 0.5 + 0.5)) * 60.0;
            assert!(
                (sx - px).abs() < 0.05 && (sy - py).abs() < 0.05,
                "{projection:?}: pixel ({px}, {py}) round-tripped to ({sx}, {sy})"
            );
        }
    }
}

#[test]
fn empty_scene_bbox_is_unit_box() {
    let scene = Scene3D::new();
    let bbox = camera::scene_bbox(&Machine, &plain(&scene));
    assert_eq!(a3(bbox.min), [-0.5, -0.5, -0.5]);
    assert_eq!(a3(bbox.max), [0.5, 0.5, 0.5]);
}

#[test]
fn identity_round_trips_points() {
    let id = math::identity4();
    assert_eq!(
        a3(math::mat4_mul_point(&Machine, &id, v3([1.0, -2.0, 3.0]))),
        [1.0, -2.0, 3.0]
    );
    assert_eq!(math::mat4_mul(&Machine, &id, &id), id);
}

#[test]
fn cross_of_axes_is_third_axis() {
    assert_eq!(
        vec3_cross([1.0, 0.0, 0.0], [0.0, 1.0, 0.0]),
        [0.0, 0.0, 1.0]
    );
}

#[test]
fn normalise_zero_vector_is_zero() {
    assert_eq!(vec3_normalise([0.0, 0.0, 0.0]), [0.0, 0.0, 0.0]);
}

#[test]
fn add_scale_compose() {
    let p = vec3_add([1.0, 2.0, 3.0], vec3_scale([2.0, 0.0, -1.0], 0.5));
    assert_eq!(p, [2.0, 2.0, 2.5]);
}

#[test]
fn shade_linear_to_srgb_handles_endpoints() {
    assert_eq!(linear_to_srgb_u8(0.0), 0);
    assert_eq!(linear_to_srgb_u8(1.0), 255);
}

#[test]
fn linear_to_srgb_clamps_out_of_range_and_nan() {
    assert_eq!(linear_to_srgb_u8(-1.0), 0);
    assert_eq!(linear_to_srgb_u8(2.0), 255);
    // NaN propagates through `clamp` and the curve; the final
    // float → integer cast saturates NaN to 0 — pin that.
    assert_eq!(linear_to_srgb_u8(f32::NAN), 0);
}

#[test]
fn shade_full_normal_alignment_is_brightest() {
    let light = shade::build_light(&Machine, light_spec(0.0, 90.0, 1.0));
    let aligned = shade_pixel([1.0, 1.0, 1.0, 1.0], [0.0, 1.0, 0.0], &light);
    let opposed = shade_pixel([1.0, 1.0, 1.0, 1.0], [0.0, -1.0, 0.0], &light);
    assert!((aligned[0] - 1.0).abs() < 1.0e-5);
    assert!(
        (opposed[0] - f32::from_bits(AMBIENT)).abs() < 1.0e-5,
        "back-face gets ambient only"
    );
}

#[test]
fn shade_preserves_alpha() {
    let light = shade::build_light(&Machine, LightSpec::default_light());
    let c = shade_pixel([0.5, 0.5, 0.5, 0.25], [0.0, 1.0, 0.0], &light);
    assert!((c[3] - 0.25).abs() < 1.0e-6);
}

#[test]
fn zero_intensity_light_leaves_ambient() {
    let light = shade::build_light(&Machine, LightSpec {
        intensity: r(0.0),
        ..LightSpec::default_light()
    });
    let c = shade_pixel([1.0, 1.0, 1.0, 1.0], a3(light.direction), &light);
    assert!((c[0] - f32::from_bits(AMBIENT)).abs() < 1.0e-5);
}

#[test]
fn build_light_direction_is_unit() {
    let l = shade::build_light(&Machine, LightSpec::default_light());
    let d = a3(l.direction);
    let len = (d[0] * d[0] + d[1] * d[1] + d[2] * d[2]).sqrt();
    assert!((len - 1.0).abs() < 1.0e-5);
}

#[test]
fn defaults_are_stable() {
    let opts = RenderOptions::default();
    assert_eq!(opts.width, 512);
    assert_eq!(opts.height, 512);
    assert_eq!(opts.background, BackgroundColor([0, 0, 0, 0]));
    assert_eq!(opts.shading, ShadingMode::Phong);
    assert_eq!(opts.projection, Projection::Perspective);
    assert!((f(opts.fov_deg) - 60.0).abs() < 1e-6);
    assert_eq!(opts.aa, 1);
    assert!(opts.camera.is_none());
    assert!((f(opts.light.azimuth_deg) - 45.0).abs() < 1e-6);
    assert!((f(opts.light.elevation_deg) - 45.0).abs() < 1e-6);
    assert!((f(opts.light.intensity) - 1.0).abs() < 1e-6);
}

#[test]
fn backend_enum_phase_d_has_scanline_and_raycast() {
    // Compile-time pin: both live backends stay constructible and
    // distinct. Phase E extends this with `PathTrace`.
    assert_ne!(RenderBackend::Scanline, RenderBackend::Raycast);
    for backend in [RenderBackend::Scanline, RenderBackend::Raycast] {
        assert!(make_renderer(backend, Machine).is_ok(), "{backend:?}");
    }
}

#[test]
fn validate_accepts_default_options() {
    assert!(RenderOptions::default().validate().is_ok());
}

#[test]
fn validate_rejects_zero_width_or_height() {
    let opts = RenderOptions {
        width: 0,
        ..RenderOptions::default()
    };
    let msg = match opts.validate() {
        Err(Error::InvalidOptions(s)) => s.constraint(),
        other => panic!("expected InvalidOptions, got {other:?}"),
    };
    assert!(msg.contains("width"), "msg should mention width: {msg}");

    let opts = RenderOptions {
        height: 0,
        ..RenderOptions::default()
    };
    let msg = match opts.validate() {
        Err(Error::InvalidOptions(s)) => s.constraint(),
        other => panic!("expected InvalidOptions, got {other:?}"),
    };
    assert!(msg.contains("height"), "msg should mention height: {msg}");
}

#[test]
fn validate_rejects_out_of_range_fov() {
    for bad in [0.0_f32, -1.0, 180.0, 360.0, f32::NAN, f32::INFINITY] {
        let opts = RenderOptions {
            fov_deg: r(bad),
            ..RenderOptions::default()
        };
        assert!(
            matches!(opts.validate(), Err(Error::InvalidOptions(_))),
            "fov_deg = {bad} should be rejected"
        );
    }
}

#[test]
fn validate_rejects_out_of_range_aa() {
    for bad in [0_u32, 9, u32::MAX] {
        let opts = RenderOptions {
            aa: bad,
            ..RenderOptions::default()
        };
        assert!(
            matches!(opts.validate(), Err(Error::InvalidOptions(_))),
            "aa = {bad} should be rejected"
        );
    }
    // In-range still passes.
    for ok in [1_u32, 4, 8] {
        let opts = RenderOptions {
            aa: ok,
            ..RenderOptions::default()
        };
        assert!(opts.validate().is_ok(), "aa = {ok} should pass");
    }
}

#[test]
fn validate_rejects_negative_or_non_finite_light() {
    let opts = RenderOptions {
        light: LightSpec {
            intensity: r(-0.1),
            ..LightSpec::default_light()
        },
        ..RenderOptions::default()
    };
    assert!(matches!(opts.validate(), Err(Error::InvalidOptions(_))));

    let opts = RenderOptions {
        light: LightSpec {
            intensity: r(f32::NAN),
            ..LightSpec::default_light()
        },
        ..RenderOptions::default()
    };
    assert!(matches!(opts.validate(), Err(Error::InvalidOptions(_))));

    let opts = RenderOptions {
        light: LightSpec {
            azimuth_deg: r(f32::NAN),
            ..LightSpec::default_light()
        },
        ..RenderOptions::default()
    };
    assert!(matches!(opts.validate(), Err(Error::InvalidOptions(_))));
}

#[test]
fn validate_rejects_bad_camera_distance() {
    let opts = RenderOptions {
        camera: Some(camera_spec(30.0, 45.0, 0.0)),
        ..RenderOptions::default()
    };
    assert!(matches!(opts.validate(), Err(Error::InvalidOptions(_))));

    let opts = RenderOptions {
        camera: Some(camera_spec(30.0, 45.0, -1.0)),
        ..RenderOptions::default()
    };
    assert!(matches!(opts.validate(), Err(Error::InvalidOptions(_))));

    let opts = RenderOptions {
        camera: Some(camera_spec(30.0, 45.0, f32::INFINITY)),
        ..RenderOptions::default()
    };
    assert!(matches!(opts.validate(), Err(Error::InvalidOptions(_))));
}

#[test]
fn validate_accepts_good_camera_override() {
    let opts = RenderOptions {
        camera: Some(camera_spec(30.0, 45.0, 1.5)),
        ..RenderOptions::default()
    };
    assert!(opts.validate().is_ok());
}

#[test]
fn make_renderer_scanline_returns_working_backend_in_phase_b() {
    let renderer = make_renderer(RenderBackend::Scanline, Machine);
    assert!(renderer.is_ok(), "Phase B must hand back a real renderer");
}

#[test]
fn render_options_default_is_512x512_phong_perspective() {
    let opts = RenderOptions::default();
    assert_eq!((opts.width, opts.height), (512, 512));
    assert_eq!(opts.shading, ShadingMode::Phong);
    assert_eq!(opts.projection, Projection::Perspective);
}

/// End-to-end smoke through the trait: construct a one-triangle
/// scene, route through `make_renderer(Scanline).render`, verify
/// at least one pixel changed off the background. This is the
/// per-crate equivalent of the cli-convert mesh3d_convert test.
#[test]
fn scanline_renderer_via_trait_paints_some_pixels() {
    let mut prim = Primitive::new(Topology::Triangles);
    prim.positions = vec![[-0.5, -0.5, 0.0], [0.5, -0.5, 0.0], [0.0, 0.5, 0.0]];
    let mesh = Mesh::new("triangle".to_string()).with_primitive(prim);
    let mut scene = Scene3D::new();
    scene.meshes.push(mesh);
    scene.nodes.push(Node {
        mesh: Some(MeshId(0)),
        ..Node::default()
    });
    scene.roots.push(oxideav_mesh3d::NodeId(0));

    let mut renderer =
        make_renderer(RenderBackend::Scanline, Machine).expect("Scanline must construct");
    let opts = RenderOptions {
        width: 32,
        height: 32,
        background: BackgroundColor([255, 255, 255, 255]),
        shading: ShadingMode::Flat,
        ..RenderOptions::default()
    };
    let img = renderer.render(&plain(&scene), &opts).expect("render must succeed");
    assert_eq!(img.width, 32);
    assert_eq!(img.height, 32);
    let any_drawn = img
        .pixels
        .chunks_exact(4)
        .any(|p| p != [255, 255, 255, 255]);
    assert!(any_drawn, "scanline backend must paint at least one pixel");
}

#[test]
fn empty_registry_has_zero_names() {
    let reg = RenderRegistry::<Machine>::new();
    assert!(reg.names().is_empty());
}

#[test]
fn default_registry_is_empty() {
    let reg = RenderRegistry::<Machine>::default();
    assert!(reg.names().is_empty());
}

#[test]
fn register_into_exposes_scanline_and_raycast() {
    let mut reg = RenderRegistry::<Machine>::new();
    register_into(&mut reg, Machine);
    let names = reg.names();
    for expected in ["scanline", "raycast"] {
        assert!(
            names.contains(&expected),
            "register_into must register \"{expected}\", got {names:?}"
        );
    }
}

#[test]
fn make_raycast_constructs_working_backend() {
    let mut reg = RenderRegistry::<Machine>::new();
    register_into(&mut reg, Machine);
    let mut renderer = reg
        .make("raycast")
        .expect("registry must hand back a raycast renderer");
    let scene = Scene3D::new();
    let opts = RenderOptions {
        width: 4,
        height: 4,
        ..RenderOptions::default()
    };
    let img = renderer.render(&plain(&scene), &opts).expect("render must succeed");
    assert_eq!((img.width, img.height), (4, 4));
}

#[test]
fn make_scanline_paints_some_pixels() {
    let mut reg = RenderRegistry::<Machine>::new();
    register_into(&mut reg, Machine);

    let mut prim = Primitive::new(Topology::Triangles);
    prim.positions = vec![[-0.5, -0.5, 0.0], [0.5, -0.5, 0.0], [0.0, 0.5, 0.0]];
    let mesh = Mesh::new("triangle".to_string()).with_primitive(prim);
    let mut scene = Scene3D::new();
    scene.meshes.push(mesh);
    scene.nodes.push(Node {
        mesh: Some(MeshId(0)),
        ..Node::default()
    });
    scene.roots.push(oxideav_mesh3d::NodeId(0));

    let mut renderer = reg
        .make("scanline")
        .expect("registry must hand back a scanline renderer");
    let opts = RenderOptions {
        width: 32,
        height: 32,
        background: BackgroundColor([255, 255, 255, 255]),
        shading: ShadingMode::Flat,
        ..RenderOptions::default()
    };
    let img = renderer.render(&plain(&scene), &opts).expect("render must succeed");
    assert_eq!(img.width, 32);
    assert_eq!(img.height, 32);
    let any_drawn = img
        .pixels
        .chunks_exact(4)
        .any(|p| p != [255, 255, 255, 255]);
    assert!(
        any_drawn,
        "scanline backend via registry must paint at least one pixel"
    );
}

#[test]
fn make_unknown_backend_returns_backend_not_found() {
    let reg = RenderRegistry::<Machine>::new();
    match reg.make("nope") {
        Err(Error::BackendNotFound(name)) => assert_eq!(name, "nope"),
        Err(other) => panic!("expected BackendNotFound(\"nope\"), got {other:?}"),
        Ok(_) => panic!("expected BackendNotFound(\"nope\"), got Ok"),
    }
}

#[test]
fn debug_impl_lists_registered_names() {
    let mut reg = RenderRegistry::<Machine>::new();
    register_into(&mut reg, Machine);
    let debug = reg.describe();
    assert!(
        debug.contains("scanline"),
        "Debug impl must surface registered names, got {debug}"
    );
}

fn small_opts() -> RenderOptions {
    RenderOptions {
        width: 32,
        height: 32,
        background: BackgroundColor([255, 255, 255, 255]),
        shading: ShadingMode::Flat,
        ..RenderOptions::default()
    }
}

#[test]
fn params_advertise_expected_video_shape() {
    let scene = unit_triangle_scene();
    let renderer = make_renderer(RenderBackend::Scanline, Machine).expect("scanline");
    let opts = small_opts();
    let src = RenderSource::new(plain(&scene), renderer, opts);
    let p = src.params();
    assert_eq!(p.codec_id, "rawvideo");
    assert_eq!(p.media_type, MediaKind::Video);
    assert_eq!(p.width, 32);
    assert_eq!(p.height, 32);
    assert_eq!(p.pixel_format, PixelLayout::Rgba);
    assert_eq!(p.frame_rate, (1, 1));
}

#[test]
fn first_next_frame_yields_video_then_eof() {
    let scene = unit_triangle_scene();
    let renderer = make_renderer(RenderBackend::Scanline, Machine).expect("scanline");
    let opts = small_opts();
    let mut src = RenderSource::new(plain(&scene), renderer, opts);

    let frame = src.next_frame().expect("first call must yield a frame");
    let v = frame;
    assert_eq!(v.planes.len(), 1, "RGBA8 is single-plane");
    assert_eq!(v.planes[0].stride, 32 * 4);
    assert_eq!(v.planes[0].data.len(), 32 * 32 * 4);

    // Second call must surface Eof.
    match src.next_frame() {
        Err(SourceError::Eof) => {}
        Err(other) => panic!("expected Eof, got {other:?}"),
        Ok(_) => panic!("expected Eof, got Ok"),
    }

    // Third call still Eof (idempotent post-emit).
    assert!(matches!(src.next_frame(), Err(SourceError::Eof)));
}

#[test]
fn rendered_frame_has_some_non_background_pixels() {
    // Sanity-check that the actual rasterised pixels reach the
    // `VideoFrame` plane bytes — i.e. the pipeline source surface
    // delivers the same pixels the existing trait-level smoke test
    // asserts on.
    let scene = unit_triangle_scene();
    let renderer = make_renderer(RenderBackend::Scanline, Machine).expect("scanline");
    let opts = small_opts();
    let mut src = RenderSource::new(plain(&scene), renderer, opts);

    let frame = src.next_frame().expect("first frame");
    let v = frame;
    let any_drawn = v.planes[0]
        .data
        .chunks_exact(4)
        .any(|p| p != [255, 255, 255, 255]);
    assert!(
        any_drawn,
        "scanline backend must paint at least one pixel into the VideoFrame"
    );
}

#[test]
fn duration_micros_reports_one_second() {
    let scene = unit_triangle_scene();
    let renderer = make_renderer(RenderBackend::Scanline, Machine).expect("scanline");
    let opts = small_opts();
    let src = RenderSource::new(plain(&scene), renderer, opts);
    assert_eq!(src.duration_micros(), Some(1_000_000));
}

#[test]
fn dimensions_round_trip_through_params() {
    // A non-square framebuffer to catch any accidental width/height
    // swap inside `RenderSource::new` or `next_frame`.
    let scene = unit_triangle_scene();
    let renderer = make_renderer(RenderBackend::Scanline, Machine).expect("scanline");
    let opts = RenderOptions {
        width: 48,
        height: 24,
        background: BackgroundColor([0, 0, 0, 0]),
        shading: ShadingMode::Flat,
        ..RenderOptions::default()
    };
    let mut src = RenderSource::new(plain(&scene), renderer, opts);
    let p = src.params();
    assert_eq!(p.width, 48);
    assert_eq!(p.height, 24);

    let frame = src.next_frame().expect("frame");
    let v = frame;
    assert_eq!(v.planes[0].stride, 48 * 4);
    assert_eq!(v.planes[0].data.len(), 48 * 24 * 4);
}

// Walks over awkward graphs.

fn bare_node(children: Vec<u32>) -> scene::Node {
    scene::Node {
        matrix: math::identity4(),
        mesh: None,
        children,
    }
}

fn bare_scene(roots: Vec<u32>, children: Vec<Vec<u32>>) -> scene::Scene {
    scene::Scene {
        roots,
        nodes: children.into_iter().map(bare_node).collect(),
        meshes: Vec::new(),
        materials: Vec::new(),
    }
}

fn walk(s: &scene::Scene) -> Vec<usize> {
    scene::walk_scene_preorder(&Machine, s)
        .iter()
        .map(|v| v.node)
        .collect()
}

#[test]
fn walk_is_preorder() {
    let s = bare_scene(
        vec![4, 0],
        vec![vec![1, 2], vec![3], vec![], vec![], vec![]],
    );
    assert_eq!(walk(&s), vec![4, 0, 1, 3, 2]);
}

#[test]
fn walk_claims_each_node_once() {
    assert_eq!(walk(&bare_scene(vec![0], vec![vec![0]])), vec![0]);
    assert_eq!(walk(&bare_scene(vec![0], vec![vec![1], vec![0]])), vec![0, 1]);
    let diamond = bare_scene(vec![0], vec![vec![1, 2], vec![3], vec![3], vec![]]);
    assert_eq!(walk(&diamond), vec![0, 1, 3, 2]);
    assert_eq!(walk(&bare_scene(vec![1, 1], vec![vec![], vec![]])), vec![1]);
}

#[test]
fn walk_passes_over_missing_nodes_and_unreachable_ones() {
    let s = bare_scene(vec![9, 0, 7], vec![vec![5, 2, u32::MAX], vec![0], vec![]]);
    assert_eq!(walk(&s), vec![0, 2]);
}

#[test]
fn walk_is_not_limited_in_depth() {
    let n = 10_000_u32;
    let children = (0..n)
        .map(|i| if i + 1 < n { vec![i + 1] } else { vec![] })
        .collect();
    assert_eq!(walk(&bare_scene(vec![0], children)).len(), n as usize);
}

#[test]
fn walk_composes_parent_and_child() {
    let shift = |x: f32| {
        m4([
            [1.0, 0.0, 0.0, x],
            [0.0, 1.0, 0.0, 0.0],
            [0.0, 0.0, 1.0, 0.0],
            [0.0, 0.0, 0.0, 1.0],
        ])
    };
    let mut s = bare_scene(vec![0], vec![vec![1], vec![]]);
    s.nodes[0].matrix = shift(2.0);
    s.nodes[1].matrix = shift(3.0);
    let visits = scene::walk_scene_preorder(&Machine, &s);
    assert_eq!(f(visits[0].world.r0.w), 2.0);
    assert_eq!(f(visits[1].world.r0.w), 5.0);
}

fn awkward_scenes() -> Vec<Scene3D> {
    let mut out = Vec::new();
    let mut looped = unit_triangle_scene();
    looped.nodes[0].children = vec![NodeId(0)];
    out.push(looped);
    let mut pair = unit_triangle_scene();
    pair.nodes[0].children = vec![NodeId(1)];
    pair.nodes.push(Node {
        children: vec![NodeId(0)],
        ..Node::default()
    });
    out.push(pair);
    let mut shared = unit_triangle_scene();
    shared.roots = vec![NodeId(1), NodeId(2)];
    for _ in 0..2 {
        shared.nodes.push(Node {
            children: vec![NodeId(0)],
            ..Node::default()
        });
    }
    out.push(shared);
    let mut missing = unit_triangle_scene();
    missing.roots.push(NodeId(77));
    missing.nodes[0].children = vec![NodeId(55)];
    missing.nodes.push(Node {
        mesh: Some(MeshId(9)),
        ..Node::default()
    });
    missing.roots.push(NodeId(1));
    out.push(missing);
    out
}

#[test]
fn awkward_graphs_render_like_the_plain_scene() {
    for mode in [ShadingMode::Phong, ShadingMode::Wireframe] {
        let opts = RenderOptions {
            width: 24,
            height: 16,
            shading: mode,
            background: WHITE_BG,
            ..RenderOptions::default()
        };
        let scan = scan_scene(&unit_triangle_scene(), &opts);
        let ray = ray_scene(&unit_triangle_scene(), &opts);
        for s in awkward_scenes() {
            assert_eq!(scan_scene(&s, &opts), scan);
            assert_eq!(ray_scene(&s, &opts), ray);
        }
    }
}

#[test]
fn poisoned_vertices_and_garbage_indices_render() {
    let mut prim = Primitive::new(Topology::Triangles);
    prim.positions = vec![
        [-0.5, -0.5, 0.0],
        [0.5, -0.5, 0.0],
        [0.0, 0.5, 0.0],
        [f32::NAN, 0.0, 0.0],
        [0.0, f32::INFINITY, 0.0],
    ];
    prim.indices = Some(Indices::U32(vec![0, 1, 2, 0, 1, 3, 0, 4, 2, 0, 1, 99, u32::MAX, 1, 2]));
    let mut scene = Scene3D::new();
    push_mesh_node(&mut scene, prim);
    for mode in [ShadingMode::Flat, ShadingMode::Phong, ShadingMode::NormalDebug] {
        let opts = RenderOptions {
            width: 8,
            height: 8,
            shading: mode,
            ..RenderOptions::default()
        };
        assert_eq!(scan_scene(&scene, &opts).pixel_count(), 64);
        assert_eq!(ray_scene(&scene, &opts).pixel_count(), 64);
    }
}

#[test]
fn sizes_and_samples_are_clamped() {
    let base = RenderOptions {
        width: 6,
        height: 5,
        background: WHITE_BG,
        ..RenderOptions::default()
    };
    let with = |w: u32, h: u32, aa: u32| RenderOptions {
        width: w,
        height: h,
        aa,
        ..base.clone()
    };
    let s = unit_triangle_scene();
    for render in [scan_scene, ray_scene] {
        assert_eq!(render(&s, &with(6, 5, 0)), render(&s, &with(6, 5, 1)));
        assert_eq!(render(&s, &with(6, 5, 9)), render(&s, &with(6, 5, 8)));
        let one = render(&s, &with(0, 0, 1));
        assert_eq!((one.width, one.height, one.pixels.len()), (1, 1, 4));
    }
}

#[test]
fn empty_scene_stays_background_when_supersampled() {
    let opts = RenderOptions {
        width: 5,
        height: 4,
        aa: 3,
        background: BackgroundColor([42, 7, 99, 255]),
        ..RenderOptions::default()
    };
    for img in [scan_scene(&Scene3D::new(), &opts), ray_scene(&Scene3D::new(), &opts)] {
        for px in img.pixels_rgba() {
            assert_eq!(px, [42, 7, 99, 255]);
        }
    }
}

// Lines and points.

fn line_pixels(a: [f32; 3], b: [f32; 3]) -> Vec<(u32, u32)> {
    let mut fb = Framebuffer::new(16, 16, Rgba8::of([0, 0, 0, 0]));
    oxideav_render::line::draw_line(&Machine, &mut fb, v3(a), v3(b), Rgba8::of([255; 4]));
    let img = fb.into_image();
    let mut out = Vec::new();
    for y in 0..16 {
        for x in 0..16 {
            if img.pixel(x, y) == Some([255; 4]) {
                out.push((x, y));
            }
        }
    }
    out
}

#[test]
fn line_reaches_both_ends_in_every_octant() {
    for (x, y) in [(14, 9), (9, 14), (1, 9), (9, 1), (14, 6), (6, 14), (1, 6), (6, 1), (7, 7)] {
        let px = line_pixels([7.0, 7.0, 0.0], [x as f32, y as f32, 0.0]);
        assert!(px.contains(&(7, 7)) && px.contains(&(x, y)));
        let dx = 7_u32.abs_diff(x);
        let dy = 7_u32.abs_diff(y);
        assert_eq!(px.len() as u32, dx.max(dy) + 1);
    }
}

#[test]
fn line_takes_the_nearest_pixels() {
    assert_eq!(
        line_pixels([0.0, 0.0, 0.0], [5.0, 2.0, 0.0]),
        vec![(0, 0), (1, 0), (2, 1), (3, 1), (4, 2), (5, 2)]
    );
    assert_eq!(
        line_pixels([2.4, 0.6, 0.0], [2.4, 3.4, 0.0]),
        vec![(2, 1), (2, 2), (2, 3)]
    );
}

#[test]
fn line_depth_runs_from_end_to_end() {
    // The far half of a receding line is hidden by a plane at mid depth.
    let mut fb = Framebuffer::new(9, 1, Rgba8::of([0; 4]));
    for x in 0..9 {
        fb.set_pixel(x, 0, r(0.5), Rgba8::of([1; 4]));
    }
    let (a, b) = (v3([0.0, 0.0, 0.0]), v3([8.0, 0.0, 1.0]));
    oxideav_render::line::draw_line(&Machine, &mut fb, a, b, Rgba8::of([2; 4]));
    let img = fb.into_image();
    let row: Vec<u8> = (0..9).map(|x| img.pixel(x, 0).unwrap()[0]).collect();
    assert_eq!(row, vec![2, 2, 2, 2, 1, 1, 1, 1, 1]);
}

#[test]
fn every_topology_expands_as_documented() {
    let s = vec![10, 11, 12, 13, 14];
    let e = |t| scanline::expand(t, &s);
    assert_eq!(e(scene::Topology::Triangles), vec![Item::Triangle(10, 11, 12)]);
    assert_eq!(
        e(scene::Topology::TriangleStrip),
        vec![
            Item::Triangle(10, 11, 12),
            Item::Triangle(12, 11, 13),
            Item::Triangle(12, 13, 14)
        ]
    );
    assert_eq!(
        e(scene::Topology::TriangleFan),
        vec![
            Item::Triangle(10, 11, 12),
            Item::Triangle(10, 12, 13),
            Item::Triangle(10, 13, 14)
        ]
    );
    assert_eq!(e(scene::Topology::Lines), vec![Item::Line(10, 11), Item::Line(12, 13)]);
    assert_eq!(e(scene::Topology::LineStrip).len(), 4);
    assert_eq!(e(scene::Topology::LineLoop)[4], Item::Line(14, 10));
    assert_eq!(e(scene::Topology::Points).len(), 5);
    assert!(scanline::expand(scene::Topology::LineLoop, &vec![1]).is_empty());
    assert!(scanline::expand(scene::Topology::TriangleFan, &vec![1, 2]).is_empty());
}

#[test]
fn line_and_point_topologies_are_drawn_by_the_scanline_backend() {
    for topology in [
        Topology::Lines,
        Topology::LineStrip,
        Topology::LineLoop,
        Topology::Points,
    ] {
        let mut prim = Primitive::new(topology);
        prim.positions = vec![[-0.5, -0.5, 0.0], [0.5, 0.5, 0.0]];
        let mut scene = Scene3D::new();
        push_mesh_node(&mut scene, prim);
        let img = scan_scene(&scene, &mode_options(ShadingMode::Flat));
        assert!(non_bg_count(&img, [255; 4]) > 0, "{topology:?}");
    }
}

#[test]
fn vertex_behind_the_camera_drops_what_touches_it() {
    let m = m4([
        [1.0, 0.0, 0.0, 0.0],
        [0.0, 1.0, 0.0, 0.0],
        [0.0, 0.0, 1.0, 0.0],
        [0.0, 0.0, -1.0, 0.0],
    ]);
    let at = |z: f32| scanline::project_vertex(&Machine, v3([1.0, 1.0, z]), &m, r(8.0), r(4.0));
    assert!(at(1.0).is_none());
    assert!(at(0.0).is_none());
    assert_eq!(at(-2.0).map(a3), Some([6.0, 1.0, -1.0]));
}

// Baking and the hierarchy.

fn strip(topology: Topology, n: usize) -> Primitive {
    let mut prim = Primitive::new(topology);
    for i in 0..n {
        prim.positions.push([i as f32, (i % 2) as f32, 0.0]);
    }
    prim
}

fn baked(prim: Primitive) -> Vec<[[f32; 3]; 3]> {
    let mut scene = Scene3D::new();
    push_mesh_node(&mut scene, prim);
    raycast::bake_scene(&Machine, &plain(&scene))
        .iter()
        .map(|t| [a3(t.a), a3(t.b), a3(t.c)])
        .collect()
}

#[test]
fn strips_and_fans_bake_with_consistent_winding() {
    let p = |i: usize| [i as f32, (i % 2) as f32, 0.0];
    assert_eq!(
        baked(strip(Topology::TriangleStrip, 5)),
        vec![[p(0), p(1), p(2)], [p(1), p(3), p(2)], [p(2), p(3), p(4)]]
    );
    assert_eq!(
        baked(strip(Topology::TriangleFan, 4)),
        vec![[p(0), p(1), p(2)], [p(0), p(2), p(3)]]
    );
    assert_eq!(baked(strip(Topology::Triangles, 5)), vec![[p(0), p(1), p(2)]]);
    for topology in [
        Topology::Lines,
        Topology::LineStrip,
        Topology::LineLoop,
        Topology::Points,
    ] {
        assert!(baked(strip(topology, 6)).is_empty());
    }
}

#[test]
fn indices_and_missing_corners_bake_as_expected() {
    let p = |i: usize| [i as f32, (i % 2) as f32, 0.0];
    let mut prim = strip(Topology::Triangles, 4);
    prim.indices = Some(Indices::U16(vec![3, 2, 1, 0, 1, 9, 1, 2, 3]));
    assert_eq!(baked(prim), vec![[p(3), p(2), p(1)], [p(1), p(2), p(3)]]);
}

#[test]
fn baked_normals_are_own_or_of_the_face() {
    let mut own = Primitive::new(Topology::Triangles);
    own.positions = vec![[0.0, 0.0, 0.0], [1.0, 0.0, 0.0], [0.0, 1.0, 0.0]];
    own.normals = Some(vec![[2.0, 0.0, 0.0]; 3]);
    let mut short = own.clone();
    short.normals = Some(vec![[2.0, 0.0, 0.0]; 2]);
    for (prim, expected) in [(own, [1.0, 0.0, 0.0]), (short, [0.0, 0.0, 1.0])] {
        let mut scene = Scene3D::new();
        push_mesh_node(&mut scene, prim);
        let soup = raycast::bake_scene(&Machine, &plain(&scene));
        assert_eq!(a3(soup[0].shade.normals.2), expected);
    }
}

fn grid(n: usize) -> Scene3D {
    let mut prim = Primitive::new(Topology::Triangles);
    for i in 0..n {
        for j in 0..n {
            let (x, y) = (i as f32, j as f32);
            let z = ((i * 7 + j * 3) % 5) as f32 * 0.3;
            prim.positions
                .extend([[x, y, z], [x + 1.4, y, z], [x, y + 1.4, z]]);
        }
    }
    let mut scene = Scene3D::new();
    push_mesh_node(&mut scene, prim);
    scene
}

#[test]
fn closest_hit_is_that_of_trying_every_triangle() {
    let scene = plain(&grid(9));
    let traced = raycast::TraceScene::build(&Machine, &scene).expect("sound");
    let mut struck = 0;
    for i in 0..40 {
        for j in 0..40 {
            let ray = Ray {
                origin: v3([i as f32 * 0.27 - 0.5, j as f32 * 0.27 - 0.5, 5.0]),
                direction: v3([0.05, -0.03, -1.0]),
            };
            let hit = traced.closest_hit(&Machine, ray, r(f32::INFINITY));
            let mut best: Option<f32> = None;
            for tri in &traced.soup {
                if let Some(s) = Machine.meets_triangle(ray, tri, r(f32::INFINITY)) {
                    let t = f(s.t);
                    best = Some(best.map_or(t, |b| if t < b { t } else { b }));
                }
            }
            assert_eq!(hit.map(|h| f(h.t)), best);
            assert_eq!(
                traced.any_hit(&Machine, ray, r(f32::INFINITY)),
                best.is_some()
            );
            let near = r(0.5);
            assert_eq!(
                traced.any_hit(&Machine, ray, near),
                traced.closest_hit(&Machine, ray, near).is_some()
            );
            if let Some(h) = hit {
                struck += 1;
                let w = h.barycentric;
                assert!((f(w.w0) + f(w.w1) + f(w.w2) - 1.0).abs() < 1.0e-5);
            }
        }
    }
    assert!(struck > 500);
}

#[test]
fn malformed_hierarchies_are_refused() {
    let leaf = |first: u32, count: u32| BvhNode {
        min: v3([0.0; 3]),
        max: v3([1.0; 3]),
        left_or_first: first,
        right_child: 0,
        tri_count: count,
    };
    let inner = |left: u32, right: u32| BvhNode {
        right_child: right,
        ..leaf(left, 0)
    };
    let tree = |nodes: Vec<BvhNode>, triangles: Vec<u32>| Bvh { nodes, triangles };
    assert!(tree(vec![leaf(0, 2)], vec![1, 0]).indexes(2));
    assert!(tree(vec![inner(1, 2), leaf(0, 1), leaf(1, 1)], vec![0, 1]).indexes(2));
    assert!(!tree(vec![], vec![]).indexes(0));
    assert!(!tree(vec![leaf(0, 3)], vec![1, 0]).indexes(2));
    assert!(!tree(vec![leaf(0, 2)], vec![1, 2]).indexes(2));
    assert!(!tree(vec![inner(0, 1), leaf(0, 1)], vec![0]).indexes(1));
    assert!(!tree(vec![inner(1, 2), leaf(0, 1)], vec![0]).indexes(1));
}

#[derive(Debug, Clone, Copy)]
struct BadTree;

impl Arith for BadTree {
    fn plus(&self, a: Real, b: Real) -> Real {
        Machine.plus(a, b)
    }

    fn minus(&self, a: Real, b: Real) -> Real {
        Machine.minus(a, b)
    }

    fn times(&self, a: Real, b: Real) -> Real {
        Machine.times(a, b)
    }

    fn over(&self, a: Real, b: Real) -> Real {
        Machine.over(a, b)
    }

    fn powf(&self, a: Real, b: Real) -> Real {
        Machine.powf(a, b)
    }

    fn hypot(&self, a: Real, b: Real) -> Real {
        Machine.hypot(a, b)
    }

    fn sqrt(&self, a: Real) -> Real {
        Machine.sqrt(a)
    }

    fn sin(&self, a: Real) -> Real {
        Machine.sin(a)
    }

    fn cos(&self, a: Real) -> Real {
        Machine.cos(a)
    }

    fn tan(&self, a: Real) -> Real {
        Machine.tan(a)
    }

    fn radians(&self, a: Real) -> Real {
        Machine.radians(a)
    }

    fn powi(&self, a: Real, n: i32) -> Real {
        Machine.powi(a, n)
    }
}

impl RayTests for BadTree {
    fn meets_box(&self, ray: Ray, min: Vec3, max: Vec3, t_max: Real) -> bool {
        Machine.meets_box(ray, min, max, t_max)
    }

    fn meets_triangle(&self, ray: Ray, tri: &BakedTri, t_max: Real) -> Option<Strike> {
        Machine.meets_triangle(ray, tri, t_max)
    }

    fn hierarchy(&self, _soup: &Vec<BakedTri>) -> Option<Bvh> {
        Some(Bvh {
            nodes: Vec::new(),
            triangles: Vec::new(),
        })
    }
}

#[test]
fn broken_hierarchy_is_an_error() {
    let mut renderer = make_renderer(RenderBackend::Raycast, BadTree).expect("constructs");
    let got = renderer.render(&plain(&unit_triangle_scene()), &small_opts());
    assert!(matches!(got, Err(Error::BrokenHierarchy)));
}

// Ray shading.

#[test]
fn wireframe_shows_background_or_the_flat_colour() {
    let flat = ray_with_mode(ShadingMode::Flat);
    let wire = ray_with_mode(ShadingMode::Wireframe);
    for (w, c) in wire.pixels_rgba().into_iter().zip(flat.pixels_rgba()) {
        assert!(w == [255; 4] || w == c);
    }
}

#[test]
fn dangling_material_falls_back_in_both_backends() {
    let mut prim = Primitive::new(Topology::Triangles);
    prim.positions = vec![[-0.5, -0.5, 0.0], [0.5, -0.5, 0.0], [0.0, 0.5, 0.0]];
    prim.material = Some(MaterialId(u32::MAX));
    let mut scene = Scene3D::new();
    push_mesh_node(&mut scene, prim);
    let opts = mode_options(ShadingMode::Flat);
    let expected = linear_rgba_to_srgb_u8([0.7, 0.7, 0.75, 1.0]);
    for img in [scan_scene(&scene, &opts), ray_scene(&scene, &opts)] {
        assert!(img
            .pixels_rgba()
            .into_iter()
            .all(|p| p == [255; 4] || p == expected));
        assert!(non_bg_count(&img, [255; 4]) > 0);
    }
}

#[test]
fn materials_are_moved_into_their_ranges() {
    let mut m = Material::new();
    m.metallic = 3.0;
    m.roughness = -1.0;
    m.ext.ior = Some(0.5);
    m.emissive_factor = [0.5, 1.0, 0.0];
    m.ext.emissive_strength = Some(-4.0);
    m.ext.transmission = Some(oxideav_mesh3d::material::Transmission {
        factor: 7.0,
        factor_texture: None,
    });
    let mut scene = Scene3D::new();
    scene.materials.push(m);
    scene.materials.push(Material::new());
    let s = plain(&scene);
    let m = raycast::shade_material(&Machine, &s.materials[0]);
    assert_eq!((f(m.metallic), f(m.roughness)), (1.0, 0.0));
    assert_eq!((f(m.transmission), f(m.ior)), (1.0, 1.0));
    assert_eq!(a3(m.emissive), [0.0, 0.0, 0.0]);
    let d = raycast::shade_material(&Machine, &s.materials[1]);
    assert_eq!((f(d.transmission), f(d.ior)), (0.0, 1.5));
}

#[test]
fn facing_mirrors_stop_at_the_depth_limit() {
    // Two parallel mirrors would reflect for ever.
    let mut mirrors = Primitive::new(Topology::Triangles);
    for z in [-1.0_f32, 1.0] {
        mirrors
            .positions
            .extend([[-9.0, -9.0, z], [9.0, -9.0, z], [0.0, 9.0, z]]);
    }
    mirrors.material = Some(MaterialId(0));
    let mut scene = Scene3D::new();
    scene.materials.push(Material {
        metallic: 1.0,
        roughness: 0.0,
        ..Material::new()
    });
    push_mesh_node(&mut scene, mirrors);
    let opts = RenderOptions {
        width: 8,
        height: 8,
        ..RenderOptions::default()
    };
    assert_eq!(ray_scene(&scene, &opts).pixel_count(), 64);
}

#[test]
fn whitted_keeps_alpha() {
    let mut prim = Primitive::new(Topology::Triangles);
    prim.positions = vec![[-0.5, -0.5, 0.0], [0.5, -0.5, 0.0], [0.0, 0.5, 0.0]];
    prim.material = Some(MaterialId(0));
    let mut scene = Scene3D::new();
    scene.materials.push(Material {
        base_color: [0.5, 0.5, 0.5, 0.4],
        metallic: 1.0,
        roughness: 0.2,
        ..Material::new()
    });
    push_mesh_node(&mut scene, prim);
    let img = ray_scene(&scene, &mode_options(ShadingMode::Phong));
    let painted: Vec<[u8; 4]> = img
        .pixels_rgba()
        .into_iter()
        .filter(|p| *p != [255; 4])
        .collect();
    assert!(!painted.is_empty());
    assert!(painted.iter().all(|p| p[3] == 102));
}

// Bounding box.

#[test]
fn bounding_box_holds_its_points_and_ignores_nan() {
    let mut b = BBox::empty();
    assert!(b.is_empty());
    b.extend(v3([1.0, -2.0, 3.0]));
    b.extend(v3([f32::NAN, 5.0, -1.0]));
    b.extend(v3([-4.0, 0.0, 0.0]));
    assert!(!b.is_empty());
    assert_eq!(a3(b.min), [-4.0, -2.0, -1.0]);
    assert_eq!(a3(b.max), [1.0, 5.0, 3.0]);
}

#[test]
fn scene_box_is_in_world_space() {
    let mut scene = unit_triangle_scene();
    scene.nodes[0].transform = Transform::Trs {
        translation: [10.0, 0.0, 0.0],
        rotation: [0.0, 0.0, 0.0, 1.0],
        scale: [2.0, 2.0, 2.0],
    };
    let b = camera::scene_bbox(&Machine, &plain(&scene));
    assert_eq!(a3(b.min), [9.0, -1.0, 0.0]);
    assert_eq!(a3(b.max), [11.0, 1.0, 0.0]);
}

// Options and errors.

#[test]
fn every_fault_is_reported_with_its_value() {
    let d = RenderOptions::default;
    let light = LightSpec::default_light;
    let inf = f32::INFINITY;
    let cases: Vec<(RenderOptions, OptionFault, &str)> = vec![
        (
            RenderOptions { width: 0, height: 0, ..d() },
            OptionFault::Width(0),
            "width must be >= 1",
        ),
        (
            RenderOptions { height: 0, aa: 0, ..d() },
            OptionFault::Height(0),
            "height must be >= 1",
        ),
        (
            RenderOptions { fov_deg: r(inf), ..d() },
            OptionFault::FovNotFinite(r(inf)),
            "fov_deg must be finite",
        ),
        (
            RenderOptions { fov_deg: r(180.0), ..d() },
            OptionFault::FovRange(r(180.0)),
            "fov_deg must be in (0, 180)",
        ),
        (
            RenderOptions { aa: 9, ..d() },
            OptionFault::Aa(9),
            "aa must be in 1..=8",
        ),
        (
            RenderOptions {
                light: LightSpec { intensity: r(-1.0), ..light() },
                ..d()
            },
            OptionFault::LightIntensity(r(-1.0)),
            "light.intensity must be finite and >= 0.0",
        ),
        (
            RenderOptions {
                light: LightSpec { elevation_deg: r(inf), ..light() },
                ..d()
            },
            OptionFault::LightAngles(r(45.0), r(inf)),
            "light.azimuth_deg / light.elevation_deg must be finite",
        ),
        (
            RenderOptions { camera: Some(camera_spec(inf, 2.0, 0.0)), ..d() },
            OptionFault::CameraAngles(r(2.0), r(inf)),
            "camera.azimuth_deg / camera.elevation_deg must be finite",
        ),
        (
            RenderOptions { camera: Some(camera_spec(1.0, 2.0, 0.0)), ..d() },
            OptionFault::CameraDistance(r(0.0)),
            "camera.distance must be finite and > 0",
        ),
    ];
    for (opts, fault, text) in cases {
        match opts.validate() {
            Err(Error::InvalidOptions(got)) => {
                assert_eq!(got, fault);
                assert_eq!(got.constraint(), text);
            }
            other => panic!("expected {fault:?}, got {other:?}"),
        }
    }
}

#[test]
fn background_converts_from_bytes() {
    assert_eq!(BackgroundColor::from([1, 2, 3, 4]), BackgroundColor([1, 2, 3, 4]));
    assert_eq!(BackgroundColor::default(), BackgroundColor([0; 4]));
}

#[test]
fn scene_errors_convert() {
    let e = Error::from(oxideav_mesh3d::Error::invalid("bad mesh"));
    assert!(matches!(e, Error::Scene(_)));
    assert!(format!("{:?}", Error::NotImplemented).contains("NotImplemented"));
}

#[test]
fn selected_backend_is_constructed() {
    let scan = make_renderer(RenderBackend::Scanline, Machine);
    assert!(matches!(scan, Ok(AnyRenderer::Scanline(_))));
    let ray = make_renderer(RenderBackend::Raycast, Machine);
    assert!(matches!(ray, Ok(AnyRenderer::Raycast(_))));
}

// Registry and custom backends.

struct Flaky {
    failures: u32,
}

impl Renderer for Flaky {
    fn render(&mut self, _scene: &scene::Scene, _opts: &RenderOptions) -> Result<RgbaImage, Error> {
        if self.failures > 0 {
            self.failures -= 1;
            return Err(Error::NotImplemented);
        }
        Ok(RgbaImage::filled(2, 1, [5, 6, 7, 8]))
    }
}

struct FlakyFactory {
    failures: u32,
}

impl MakeRenderer<Machine> for FlakyFactory {
    fn make(&self) -> Result<AnyRenderer<Machine>, Error> {
        Ok(AnyRenderer::Custom(Box::new(Flaky {
            failures: self.failures,
        })))
    }
}

#[test]
fn earlier_registration_wins() {
    let mut reg = RenderRegistry::<Machine>::new();
    reg.register(
        "scanline",
        RendererFactory::Custom(Box::new(FlakyFactory { failures: 0 })),
    );
    register_into(&mut reg, Machine);
    assert_eq!(reg.names(), vec!["scanline", "scanline", "raycast"]);
    assert!(matches!(reg.make("scanline"), Ok(AnyRenderer::Custom(_))));
    assert!(matches!(reg.make("raycast"), Ok(AnyRenderer::Raycast(_))));
}

#[test]
fn later_registration_is_shadowed() {
    let mut reg = RenderRegistry::<Machine>::new();
    register_into(&mut reg, Machine);
    reg.register(
        "scanline",
        RendererFactory::Custom(Box::new(FlakyFactory { failures: 0 })),
    );
    assert!(matches!(reg.make("scanline"), Ok(AnyRenderer::Scanline(_))));
    match reg.make("Scanline") {
        Err(Error::BackendNotFound(name)) => assert_eq!(name, "Scanline"),
        _ => panic!("names are case-sensitive"),
    }
}

#[test]
fn description_lists_names_in_order() {
    let mut reg = RenderRegistry::<Machine>::new();
    assert_eq!(reg.describe(), "RenderRegistry { names: [] }");
    register_into(&mut reg, Machine);
    assert_eq!(
        reg.describe(),
        "RenderRegistry { names: [\"scanline\", \"raycast\"] }"
    );
}

#[test]
fn failed_render_leaves_the_stream_open() {
    let renderer = AnyRenderer::Custom(Box::new(Flaky { failures: 1 }));
    let mut src = RenderSource::<Machine>::new(plain(&Scene3D::new()), renderer, small_opts());
    match src.next_frame() {
        Err(SourceError::Invalid(Error::NotImplemented)) => {}
        other => panic!("expected the renderer's error, got {other:?}"),
    }
    let frame = src.next_frame().expect("second try");
    assert_eq!(frame.pts, Some(0));
    assert_eq!(frame.planes[0].stride, 8);
    assert_eq!(frame.planes[0].data, vec![5, 6, 7, 8, 5, 6, 7, 8]);
    assert!(matches!(src.next_frame(), Err(SourceError::Eof)));
}

#[test]
fn frame_carries_the_rendered_pixels() {
    let opts = small_opts();
    for backend in [RenderBackend::Scanline, RenderBackend::Raycast] {
        let s = plain(&unit_triangle_scene());
        let img = make_renderer(backend, Machine)
            .expect("constructs")
            .render(&s, &opts)
            .expect("renders");
        let renderer = make_renderer(backend, Machine).expect("constructs");
        let mut src = RenderSource::new(s, renderer, opts.clone());
        let frame = src.next_frame().expect("frame");
        assert_eq!(frame.planes[0].data, img.pixels);
    }
}

struct Refusing;

impl MakeRenderer<Machine> for Refusing {
    fn make(&self) -> Result<AnyRenderer<Machine>, Error> {
        Err(Error::BackendNotFound("no device".to_string()))
    }
}

#[test]
fn factory_result_is_handed_on() {
    let mut reg = RenderRegistry::<Machine>::new();
    reg.register("gpu", RendererFactory::Custom(Box::new(Refusing)));
    reg.register(
        "gpu",
        RendererFactory::Custom(Box::new(FlakyFactory { failures: 0 })),
    );
    match reg.make("gpu") {
        Err(Error::BackendNotFound(text)) => assert_eq!(text, "no device"),
        _ => panic!("expected the factory's error"),
    }
}

struct Probe;

impl Renderer for Probe {
    fn render(&mut self, scene: &scene::Scene, opts: &RenderOptions) -> Result<RgbaImage, Error> {
        Ok(RgbaImage::filled(
            opts.width,
            opts.height,
            [scene.nodes.len() as u8, scene.roots.len() as u8, 0, 255],
        ))
    }
}

#[test]
fn custom_renderer_gets_scene_and_options() {
    let s = plain(&unit_triangle_scene());
    let (nodes, roots) = (s.nodes.len() as u8, s.roots.len() as u8);
    let opts = RenderOptions {
        width: 3,
        height: 2,
        ..small_opts()
    };
    let mut custom = AnyRenderer::<Machine>::Custom(Box::new(Probe));
    let img = custom.render(&s, &opts).expect("renders");
    assert_eq!((img.width, img.height), (3, 2));
    assert_eq!(img.pixel(0, 0), Some([nodes, roots, 0, 255]));
    let mut src = RenderSource::<Machine>::new(s, custom, opts);
    let frame = src.next_frame().expect("frame");
    assert_eq!(frame.planes[0].data, img.pixels);
}

// Depth levels.

#[test]
fn depth_out_of_range_is_clamped() {
    assert_eq!(depth_to_byte(f32::NEG_INFINITY), 255);
    assert_eq!(depth_to_byte(-7.5), 255);
    assert_eq!(depth_to_byte(7.5), 0);
    assert_eq!(depth_to_byte(f32::INFINITY), 0);
    assert_eq!(depth_to_byte(f32::NAN), 0);
    assert_eq!(normal_to_byte(f32::NEG_INFINITY), 128);
}

#[test]
fn nearer_is_no_darker() {
    let mut last = 255;
    let mut z = -1.5_f32;
    while z < 1.5 {
        let level = depth_to_byte(z);
        assert!(level <= last, "depth {z} shows as {level} after {last}");
        last = level;
        z += 0.003;
    }
    assert_eq!(last, 0);
}

// Whole images.

#[test]
fn rendering_twice_gives_the_same_bytes() {
    let scene = unit_triangle_scene();
    for aa in [1, 2] {
        let opts = RenderOptions { aa, ..small_opts() };
        assert_eq!(scan_scene(&scene, &opts), scan_scene(&scene, &opts));
        assert_eq!(ray_scene(&scene, &opts), ray_scene(&scene, &opts));
    }
}

#[test]
fn flat_images_hold_background_and_base_colour_only() {
    let opts = RenderOptions {
        shading: ShadingMode::Flat,
        aa: 1,
        background: BackgroundColor([255, 255, 255, 255]),
        ..small_opts()
    };
    let scene = unit_triangle_scene();
    let a = scan_scene(&scene, &opts);
    let b = ray_scene(&scene, &opts);
    let base = shade::linear_rgba_to_srgb_u8(&Machine, v4([0.7, 0.7, 0.75, 1.0]));
    let base = [base.r, base.g, base.b, base.a];
    let mut painted = 0;
    for (p, q) in a.pixels_rgba().into_iter().zip(b.pixels_rgba()) {
        assert!(p == [255; 4] || p == base);
        assert!(q == [255; 4] || q == base);
        if p != [255; 4] && q != [255; 4] {
            painted += 1;
            assert_eq!(p, q);
        }
    }
    assert!(painted > 0);
}

#[test]
fn primary_rays_share_eye_or_direction() {
    for projection in [Projection::Perspective, Projection::Orthographic] {
        let opts = RenderOptions {
            projection,
            ..small_opts()
        };
        let bbox = BBox {
            min: v3([-1.0, -1.0, -1.0]),
            max: v3([1.0, 1.0, 1.0]),
        };
        let cam = Camera::build(&Machine, 80, 60, &bbox, &opts);
        let ray = camera::primary_ray(&Machine, &cam, r(12.5), r(40.0), r(80.0), r(60.0));
        if matches!(projection, Projection::Perspective) {
            assert_eq!(a3(ray.origin), a3(cam.eye));
        } else {
            assert_eq!(a3(ray.direction), a3(cam.forward));
        }
    }
}

// Messages.

impl Notation for Machine {
    fn written(&self, a: Real) -> String {
        f(a).to_string()
    }
}

#[test]
fn messages_name_what_went_wrong() {
    let invalid = |fault| Error::InvalidOptions(fault).message(&Machine);
    assert_eq!(
        Error::NotImplemented.message(&Machine),
        "renderer backend not implemented in this phase"
    );
    assert_eq!(
        Error::BackendNotFound("voxel".to_string()).message(&Machine),
        "renderer backend 'voxel' not registered"
    );
    assert_eq!(
        invalid(OptionFault::Width(0)),
        "invalid render options: width must be >= 1, got 0"
    );
    assert_eq!(
        invalid(OptionFault::Height(0)),
        "invalid render options: height must be >= 1, got 0"
    );
    assert_eq!(
        invalid(OptionFault::Aa(u32::MAX)),
        "invalid render options: aa must be in 1..=8, got 4294967295"
    );
    assert_eq!(
        invalid(OptionFault::FovNotFinite(r(f32::NAN))),
        "invalid render options: fov_deg must be finite, got NaN"
    );
    assert_eq!(
        invalid(OptionFault::FovRange(r(180.5))),
        "invalid render options: fov_deg must be in (0, 180), got 180.5"
    );
    assert_eq!(
        invalid(OptionFault::LightIntensity(r(-0.25))),
        "invalid render options: light.intensity must be finite and >= 0.0, got -0.25"
    );
    assert_eq!(
        invalid(OptionFault::LightAngles(r(f32::INFINITY), r(45.0))),
        "invalid render options: \
         light.azimuth_deg / light.elevation_deg must be finite, got (inf, 45)"
    );
    assert_eq!(
        invalid(OptionFault::CameraAngles(r(1.5), r(f32::NEG_INFINITY))),
        "invalid render options: \
         camera.azimuth_deg / camera.elevation_deg must be finite, got (1.5, -inf)"
    );
    assert_eq!(
        invalid(OptionFault::CameraDistance(r(0.0))),
        "invalid render options: camera.distance must be finite and > 0, got 0"
    );
    assert_eq!(
        Error::BrokenHierarchy.message(&Machine),
        "hierarchy does not index its triangles"
    );
}

#[test]
fn descriptions_hold_the_value() {
    let fault = OptionFault::FovRange(r(200.0));
    assert_eq!(
        fault.describe(&Machine),
        "fov_deg must be in (0, 180), got 200"
    );
    assert_eq!(
        fault.describe_with("too much"),
        "fov_deg must be in (0, 180), got too much"
    );
    assert_eq!(
        Error::InvalidOptions(fault).message_with("too much"),
        "invalid render options: fov_deg must be in (0, 180), got too much"
    );
}

#[test]
fn scene_message_carries_the_cause() {
    let cause = oxideav_mesh3d::Error::invalid("bad header");
    let text = cause.to_string();
    let e = Error::from(cause);
    assert_eq!(e.message(&Machine), format!("3D scene error: {text}"));
    assert_eq!(e.message_with("elsewhere"), "3D scene error: elsewhere");
}

#[test]
fn registry_description_escapes_names() {
    let names = [
        "plain-name_1",
        "it's",
        "a \"quoted\" \\ name",
        "tab\tline\ncarriage\rnul\0",
        "\u{1}\u{1b}\u{7f}",
        "caf\u{e9} \u{200b}\u{301}",
        "",
    ];
    let mut reg = RenderRegistry::<Machine>::new();
    for name in names {
        reg.register(
            name,
            RendererFactory::Custom(Box::new(FlakyFactory { failures: 0 })),
        );
    }
    assert_eq!(
        reg.describe(),
        format!("RenderRegistry {{ names: {names:?} }}")
    );
}

// Options out of range.

#[test]
fn options_out_of_range_render_like_the_clamped_ones() {
    let scene = unit_triangle_scene();
    for (width, height, aa) in [(0, 5, 0), (6, 0, 1), (3, 4, 9), (0, 0, u32::MAX)] {
        let wild = RenderOptions {
            width,
            height,
            aa,
            ..small_opts()
        };
        let tame = RenderOptions {
            width: width.max(1),
            height: height.max(1),
            aa: aa.clamp(1, 8),
            ..small_opts()
        };
        assert_eq!(scan_scene(&scene, &wild), scan_scene(&scene, &tame));
        assert_eq!(ray_scene(&scene, &wild), ray_scene(&scene, &tame));
    }
}

// Child references that are passed over.

#[test]
fn idle_references_leave_the_walk_as_it_was() {
    let walked = |s: &scene::Scene| scene::walk_scene_preorder(&Machine, s);
    let plain = bare_scene(vec![0], vec![vec![1, 2], vec![3], vec![], vec![]]);
    let two_node_cycle = bare_scene(vec![0], vec![vec![1, 2], vec![3], vec![], vec![1]]);
    let back_to_root = bare_scene(vec![0], vec![vec![1, 2], vec![0, 3], vec![], vec![]]);
    let shared_child = bare_scene(vec![0], vec![vec![1, 2], vec![3], vec![3], vec![]]);
    let under_a_sibling = bare_scene(vec![0], vec![vec![1, 3, 2], vec![3], vec![], vec![]]);
    let missing = bare_scene(vec![0], vec![vec![1, 9, 2], vec![3], vec![], vec![]]);
    for odd in [
        two_node_cycle,
        back_to_root,
        shared_child,
        under_a_sibling,
        missing,
    ] {
        assert_eq!(walked(&odd), walked(&plain));
    }
}
