//! Scanline rasteriser.
//!
//! Walks the node forest, projects every vertex, expands each primitive into
//! triangles, lines and points, and draws those one at a time against the
//! depth buffer.

use crate::arith::{difference, product, quotient, repeatable, sum, Arith};
use crate::camera::{camera_for, carried, framed_box, scene_bbox, Camera};
use crate::frame::{resolve, resolved, shows, Samples};
use crate::framebuffer::{lemma_painted_add, Canvas, Fragment, Framebuffer, Rgba8};
use crate::image::RgbaImage;
use crate::line::{draw_line, line_fragments};
use crate::math::{
    composed, cross, mat3_mul_vec3, mat4_mul, mat4_mul_point, mat4_mul_vec4, moved, normalised,
    subtracted, transformed, turned, vec3, vec3_cross, vec3_normalise, vec3_sub, vec4, Mat4, Vec3,
    Vec4,
};
use crate::number::{num, number_of, Real, HALF, ONE, ZERO};
use crate::options::{RenderOptions, ShadingMode};
use crate::raster::{
    edge_of, fill_triangle, law_triangle_draws_covered_pixels, pixel_fragments,
    triangle_fragments, Paint, Tri,
};
use crate::scene::{
    scene_visits, sound_visits, walk_scene_preorder, Indices, Material, Primitive, Scene, Topology,
    Visit,
};
use crate::shade::{
    build_light, light_of, linear_rgba_to_srgb_u8, lit, shade_pixel, srgb_pixel, DirLight,
};
use vstd::prelude::*;

verus! {

/// `0.7` as a bit pattern.
pub const FALLBACK_RED_GREEN: u32 = 0x3f33_3333;

/// `0.75` as a bit pattern.
pub const FALLBACK_BLUE: u32 = 0x3f40_0000;

/// Linear colour of a surface without a material.
#[verifier::allow_in_spec]
pub fn fallback_colour() -> Vec4
    returns
        vec4(num(FALLBACK_RED_GREEN), num(FALLBACK_RED_GREEN), num(FALLBACK_BLUE), num(ONE)),
{
    vec4(num(FALLBACK_RED_GREEN), num(FALLBACK_RED_GREEN), num(FALLBACK_BLUE), num(ONE))
}

/// Linear colour of a primitive: its material's base colour, or the fallback
/// where it names none or one that does not exist.
pub open spec fn colour_of(materials: Seq<Material>, material: Option<u32>) -> Vec4 {
    match material {
        Some(id) => if id < materials.len() {
            materials[id as int].base_color
        } else {
            fallback_colour()
        },
        None => fallback_colour(),
    }
}

/// Linear colour of a primitive.
pub fn primitive_colour_linear(scene: &Scene, prim: &Primitive) -> (r: Vec4)
    ensures
        r == colour_of(scene.materials@, prim.material),
{
    match prim.material {
        Some(id) => if (id as usize) < scene.materials.len() {
            scene.materials[id as usize].base_color
        } else {
            fallback_colour()
        },
        None => fallback_colour(),
    }
}

/// One thing to draw, by vertex index.
#[derive(Debug, Clone, Copy, PartialEq, Eq, Structural)]
pub enum Item {
    /// A triangle.
    Triangle(u32, u32, u32),
    /// A segment.
    Line(u32, u32),
    /// A point.
    Point(u32),
}

/// The order in which a primitive's vertices are read: its index buffer, or
/// all vertices one after the other. Counting wraps at `2^32`.
pub open spec fn vertex_order(indices: Option<Indices>, count: int) -> Seq<u32> {
    match indices {
        Some(Indices::U16(v)) => v@.map_values(|i: u16| i as u32),
        Some(Indices::U32(v)) => v@,
        None => Seq::new((count % 0x1_0000_0000) as nat, |i: int| i as u32),
    }
}

/// The order in which a primitive's vertices are read.
pub fn vertex_sequence(prim: &Primitive) -> (r: Vec<u32>)
    ensures
        r@ == vertex_order(prim.indices, prim.positions@.len() as int),
{
    let mut out: Vec<u32> = Vec::new();
    match &prim.indices {
        Some(Indices::U16(v)) => {
            let mut i: usize = 0;
            while i < v.len()
                invariant
                    i <= v@.len(),
                    out@ == v@.take(i as int).map_values(|i: u16| i as u32),
                decreases v@.len() - i,
            {
                out.push(v[i] as u32);
                proof {
                    assert(out@ =~= v@.take(i + 1).map_values(|i: u16| i as u32));
                }
                i += 1;
            }
            assert(v@.take(i as int) =~= v@);
        },
        Some(Indices::U32(v)) => {
            let mut i: usize = 0;
            while i < v.len()
                invariant
                    i <= v@.len(),
                    out@ == v@.take(i as int),
                decreases v@.len() - i,
            {
                out.push(v[i]);
                assert(out@ =~= v@.take(i + 1));
                i += 1;
            }
            assert(v@.take(i as int) =~= v@);
        },
        None => {
            let n: u64 = (prim.positions.len() as u64) % 0x1_0000_0000;
            let mut i: u64 = 0;
            while i < n
                invariant
                    i <= n < 0x1_0000_0000,
                    out@ == Seq::new(i as nat, |j: int| j as u32),
                decreases n - i,
            {
                out.push(i as u32);
                assert(out@ =~= Seq::new((i + 1) as nat, |j: int| j as u32));
                i += 1;
            }
            assert(prim.positions@.len() == prim.positions.len());
        },
    }
    out
}

/// Number of things that a vertex sequence of length `n` makes.
pub open spec fn item_count(topology: Topology, n: int) -> int {
    match topology {
        Topology::Triangles => n / 3,
        Topology::TriangleStrip | Topology::TriangleFan => if n >= 2 {
            n - 2
        } else {
            0
        },
        Topology::Lines => n / 2,
        Topology::LineStrip => if n >= 1 {
            n - 1
        } else {
            0
        },
        Topology::LineLoop => if n >= 2 {
            n
        } else {
            0
        },
        Topology::Points => n,
    }
}

/// The `i`-th thing that the vertex sequence `s` makes. Every other triangle
/// of a strip swaps its first two corners, so that all face the same way; a
/// loop closes with a segment from its last vertex to its first.
pub open spec fn item_at(topology: Topology, s: Seq<u32>, i: int) -> Item {
    match topology {
        Topology::Triangles => Item::Triangle(s[3 * i], s[3 * i + 1], s[3 * i + 2]),
        Topology::TriangleStrip => if i % 2 == 0 {
            Item::Triangle(s[i], s[i + 1], s[i + 2])
        } else {
            Item::Triangle(s[i + 1], s[i], s[i + 2])
        },
        Topology::TriangleFan => Item::Triangle(s[0], s[i + 1], s[i + 2]),
        Topology::Lines => Item::Line(s[2 * i], s[2 * i + 1]),
        Topology::LineStrip => Item::Line(s[i], s[i + 1]),
        Topology::LineLoop => if i + 1 < s.len() {
            Item::Line(s[i], s[i + 1])
        } else {
            Item::Line(s[i], s[0])
        },
        Topology::Points => Item::Point(s[i]),
    }
}

/// All things that a vertex sequence makes, in drawing order.
pub open spec fn items_of(topology: Topology, s: Seq<u32>) -> Seq<Item> {
    Seq::new(item_count(topology, s.len() as int) as nat, |i: int| item_at(topology, s, i))
}

/// The `i`-th thing that a vertex sequence makes.
fn pick_item(topology: Topology, s: &Vec<u32>, i: usize) -> (item: Item)
    requires
        0 <= i < item_count(topology, s@.len() as int),
    ensures
        item == item_at(topology, s@, i as int),
{
    assert(s@.len() == s.len());
    match topology {
        Topology::Triangles => Item::Triangle(s[3 * i], s[3 * i + 1], s[3 * i + 2]),
        Topology::TriangleStrip => if i % 2 == 0 {
            Item::Triangle(s[i], s[i + 1], s[i + 2])
        } else {
            Item::Triangle(s[i + 1], s[i], s[i + 2])
        },
        Topology::TriangleFan => Item::Triangle(s[0], s[i + 1], s[i + 2]),
        Topology::Lines => Item::Line(s[2 * i], s[2 * i + 1]),
        Topology::LineStrip => Item::Line(s[i], s[i + 1]),
        Topology::LineLoop => if i + 1 < s.len() {
            Item::Line(s[i], s[i + 1])
        } else {
            Item::Line(s[i], s[0])
        },
        Topology::Points => Item::Point(s[i]),
    }
}

/// All things that a vertex sequence makes, in drawing order.
pub fn expand(topology: Topology, s: &Vec<u32>) -> (items: Vec<Item>)
    ensures
        items@ == items_of(topology, s@),
{
    let n: usize = s.len();
    let count: usize = match topology {
        Topology::Triangles => n / 3,
        Topology::TriangleStrip | Topology::TriangleFan => if n >= 2 {
            n - 2
        } else {
            0
        },
        Topology::Lines => n / 2,
        Topology::LineStrip => if n >= 1 {
            n - 1
        } else {
            0
        },
        Topology::LineLoop => if n >= 2 {
            n
        } else {
            0
        },
        Topology::Points => n,
    };
    let mut items: Vec<Item> = Vec::new();
    let mut i: usize = 0;
    while i < count
        invariant
            i <= count,
            count == item_count(topology, s@.len() as int),
            items@ == items_of(topology, s@).take(i as int),
        decreases count - i,
    {
        items.push(pick_item(topology, s, i));
        assert(items@ =~= items_of(topology, s@).take(i + 1));
        i += 1;
    }
    assert(items@ =~= items_of(topology, s@));
    items
}

/// Projects a vertex to pixel coordinates and depth. `None` for a vertex
/// behind the camera; whatever touches one is not drawn.
pub open spec fn screen_point<K: Arith>(
    k: &K,
    pos: Vec3,
    mvp: &Mat4,
    width: Real,
    height: Real,
) -> Option<Vec3> {
    let v = transformed(k, mvp, vec4(pos.x, pos.y, pos.z, num(ONE)));
    if v.w.at_most(num(ZERO)) {
        None
    } else {
        let x = sum(k, product(k, quotient(k, v.x, v.w), num(HALF)), num(HALF));
        let y = difference(
            k,
            num(ONE),
            sum(k, product(k, quotient(k, v.y, v.w), num(HALF)), num(HALF)),
        );
        Some(vec3(product(k, x, width), product(k, y, height), quotient(k, v.z, v.w)))
    }
}

/// Projects a vertex to pixel coordinates and depth. `None` for a vertex
/// behind the camera; whatever touches one is not drawn.
pub fn project_vertex<K: Arith>(
    k: &K,
    pos: Vec3,
    mvp: &Mat4,
    width: Real,
    height: Real,
) -> (r: Option<Vec3>)
    ensures
        repeatable(k) ==> r == screen_point(k, pos, mvp, width, height),
{
    let v = mat4_mul_vec4(k, mvp, vec4(pos.x, pos.y, pos.z, num(ONE)));
    if v.w.le(num(ZERO)) {
        None
    } else {
        let x = k.plus(k.times(k.over(v.x, v.w), num(HALF)), num(HALF));
        let y = k.minus(num(ONE), k.plus(k.times(k.over(v.y, v.w), num(HALF)), num(HALF)));
        Some(vec3(k.times(x, width), k.times(y, height), k.over(v.z, v.w)))
    }
}

/// Screen-space vertices of a primitive.
pub open spec fn screen_points<K: Arith>(
    k: &K,
    positions: Seq<Vec3>,
    mvp: &Mat4,
    width: Real,
    height: Real,
) -> Seq<Option<Vec3>> {
    Seq::new(positions.len(), |i: int| screen_point(k, positions[i], mvp, width, height))
}

/// World-space unit normals of a primitive; none where it has none.
pub open spec fn unit_normals<K: Arith>(
    k: &K,
    normals: Option<Vec<Vec3>>,
    world: &Mat4,
) -> Seq<Vec3> {
    match normals {
        Some(ns) => Seq::new(ns@.len(), |i: int| normalised(k, turned(k, world, ns@[i]))),
        None => seq![],
    }
}

/// Projects every vertex once.
fn project_all<K: Arith>(
    k: &K,
    positions: &Vec<Vec3>,
    mvp: &Mat4,
    width: Real,
    height: Real,
) -> (r: Vec<Option<Vec3>>)
    ensures
        r@.len() == positions@.len(),
        repeatable(k) ==> r@ == screen_points(k, positions@, mvp, width, height),
{
    let mut out: Vec<Option<Vec3>> = Vec::with_capacity(positions.len());
    let mut i: usize = 0;
    while i < positions.len()
        invariant
            i <= positions@.len(),
            out@.len() == i,
            repeatable(k) ==> forall|j: int|
                0 <= j < i ==> #[trigger] out@[j] == screen_point(
                    k,
                    positions@[j],
                    mvp,
                    width,
                    height,
                ),
        decreases positions@.len() - i,
    {
        out.push(project_vertex(k, positions[i], mvp, width, height));
        i += 1;
    }
    proof {
        if repeatable(k) {
            assert(out@ =~= screen_points(k, positions@, mvp, width, height));
        }
    }
    out
}

/// Brings a primitive's normals to world space. The world matrix is taken to
/// be rigid up to a uniform scale, so its upper-left 3 by 3 suffices.
pub fn world_normals<K: Arith>(k: &K, normals: &Option<Vec<Vec3>>, world: &Mat4) -> (r: Vec<Vec3>)
    ensures
        repeatable(k) ==> r@ == unit_normals(k, *normals, world),
{
    let mut out: Vec<Vec3> = Vec::new();
    if let Some(ns) = normals {
        let mut i: usize = 0;
        while i < ns.len()
            invariant
                i <= ns@.len(),
                out@.len() == i,
                repeatable(k) ==> forall|j: int|
                    0 <= j < i ==> #[trigger] out@[j] == normalised(k, turned(k, world, ns@[j])),
            decreases ns@.len() - i,
        {
            out.push(vec3_normalise(k, mat3_mul_vec3(k, world, ns[i])));
            i += 1;
        }
    }
    proof {
        if repeatable(k) {
            assert(out@ =~= unit_normals(k, *normals, world));
        }
    }
    out
}

/// The entry at `i`, or the origin where there is none.
pub open spec fn position_at(positions: Seq<Vec3>, i: int) -> Vec3 {
    if 0 <= i < positions.len() {
        positions[i]
    } else {
        vec3(num(ZERO), num(ZERO), num(ZERO))
    }
}

/// The entry at `i`, or the origin where there is none.
fn position_or_origin(positions: &Vec<Vec3>, i: usize) -> (p: Vec3)
    ensures
        p == position_at(positions@, i as int),
{
    if i < positions.len() {
        positions[i]
    } else {
        vec3(num(ZERO), num(ZERO), num(ZERO))
    }
}

/// Unit normal of the triangle through three points.
pub open spec fn face_unit_normal<K: Arith>(k: &K, wa: Vec3, wb: Vec3, wc: Vec3) -> Vec3 {
    normalised(k, cross(k, subtracted(k, wb, wa), subtracted(k, wc, wa)))
}

/// Unit normal of the triangle through three points.
pub fn face_normal<K: Arith>(k: &K, wa: Vec3, wb: Vec3, wc: Vec3) -> (r: Vec3)
    ensures
        repeatable(k) ==> r == face_unit_normal(k, wa, wb, wc),
{
    vec3_normalise(k, vec3_cross(k, vec3_sub(k, wb, wa), vec3_sub(k, wc, wa)))
}

/// Normals of the three corners of a face: the primitive's own where it has
/// one for each, and otherwise the normal of the face.
pub open spec fn corner_normals<K: Arith>(
    k: &K,
    positions: Seq<Vec3>,
    world: &Mat4,
    normals: Seq<Vec3>,
    a: int,
    b: int,
    c: int,
) -> (Vec3, Vec3, Vec3) {
    if a < normals.len() && b < normals.len() && c < normals.len() {
        (normals[a], normals[b], normals[c])
    } else {
        let n = face_unit_normal(
            k,
            moved(k, world, position_at(positions, a)),
            moved(k, world, position_at(positions, b)),
            moved(k, world, position_at(positions, c)),
        );
        (n, n, n)
    }
}

/// Normals of the three corners of a face.
pub fn vertex_normals_for_face<K: Arith>(
    k: &K,
    positions: &Vec<Vec3>,
    world: &Mat4,
    normals: &Vec<Vec3>,
    a: usize,
    b: usize,
    c: usize,
) -> (r: (Vec3, Vec3, Vec3))
    ensures
        repeatable(k) ==> r == corner_normals(
            k,
            positions@,
            world,
            normals@,
            a as int,
            b as int,
            c as int,
        ),
{
    if a < normals.len() && b < normals.len() && c < normals.len() {
        return (normals[a], normals[b], normals[c]);
    }
    let wa = mat4_mul_point(k, world, position_or_origin(positions, a));
    let wb = mat4_mul_point(k, world, position_or_origin(positions, b));
    let wc = mat4_mul_point(k, world, position_or_origin(positions, c));
    let n = face_normal(k, wa, wb, wc);
    (n, n, n)
}

/// Whether a shading mode looks at normals.
pub open spec fn reads_normals(mode: ShadingMode) -> bool {
    mode is Gouraud || mode is Phong || mode is NormalDebug
}

/// What drawing a primitive works from.
#[verifier::ext_equal]
pub struct Setup {
    /// Vertex positions in object space.
    pub positions: Seq<Vec3>,
    /// Object space to world space.
    pub world: Mat4,
    /// Screen-space vertices; `None` behind the camera.
    pub projected: Seq<Option<Vec3>>,
    /// World-space unit normals, where the mode reads them.
    pub normals: Seq<Vec3>,
    /// Linear base colour.
    pub colour: Vec4,
    /// The light.
    pub light: DirLight,
    /// The shading mode.
    pub mode: ShadingMode,
}

impl Setup {
    /// The setup for a primitive on a canvas of `width` by `height`.
    pub open spec fn of<K: Arith>(
        k: &K,
        prim: &Primitive,
        world: Mat4,
        camera: &Camera,
        light: DirLight,
        colour: Vec4,
        mode: ShadingMode,
        width: int,
        height: int,
    ) -> Setup {
        let mvp = composed(k, &composed(k, &camera.proj, &camera.view), &world);
        Setup {
            positions: prim.positions@,
            world,
            projected: screen_points(
                k,
                prim.positions@,
                &mvp,
                number_of(width),
                number_of(height),
            ),
            normals: if reads_normals(mode) {
                unit_normals(k, prim.normals, &world)
            } else {
                seq![]
            },
            colour,
            light,
            mode,
        }
    }

    /// The screen-space vertex `i`; `None` if it does not exist or is behind
    /// the camera.
    pub open spec fn corner(self, i: u32) -> Option<Vec3> {
        if i < self.projected.len() {
            self.projected[i as int]
        } else {
            None
        }
    }

    /// The paint of a filled face.
    pub open spec fn face_paint<K: Arith>(self, k: &K, a: u32, b: u32, c: u32) -> Paint {
        let (na, nb, nc) = corner_normals(
            k,
            self.positions,
            &self.world,
            self.normals,
            a as int,
            b as int,
            c as int,
        );
        match self.mode {
            ShadingMode::Flat | ShadingMode::Wireframe => Paint::Flat(srgb_pixel(k, self.colour)),
            ShadingMode::Gouraud => Paint::Gouraud(
                lit(k, self.colour, na, &self.light),
                lit(k, self.colour, nb, &self.light),
                lit(k, self.colour, nc, &self.light),
            ),
            ShadingMode::Phong => Paint::Phong(na, nb, nc, self.colour, self.light),
            ShadingMode::NormalDebug => Paint::Normal(na, nb, nc),
            ShadingMode::DepthDebug => Paint::Depth,
        }
    }

    /// The fragments of one thing on a canvas of `width` by `height`. What
    /// touches a missing or clipped vertex has none.
    pub open spec fn item_fragments<K: Arith>(
        self,
        k: &K,
        width: int,
        height: int,
        item: Item,
    ) -> Seq<Fragment> {
        let flat = srgb_pixel(k, self.colour);
        match item {
            Item::Triangle(a, b, c) => match (self.corner(a), self.corner(b), self.corner(c)) {
                (Some(va), Some(vb), Some(vc)) => if self.mode is Wireframe {
                    line_fragments(k, va, vb, flat) + line_fragments(k, vb, vc, flat)
                        + line_fragments(k, vc, va, flat)
                } else {
                    triangle_fragments(
                        k,
                        width,
                        height,
                        &(Tri { a: va, b: vb, c: vc }),
                        &self.face_paint(k, a, b, c),
                    )
                },
                _ => seq![],
            },
            Item::Line(a, b) => match (self.corner(a), self.corner(b)) {
                (Some(va), Some(vb)) => line_fragments(k, va, vb, flat),
                _ => seq![],
            },
            Item::Point(a) => match self.corner(a) {
                Some(p) => seq![
                    Fragment { x: p.x.rounded(), y: p.y.rounded(), z: p.z, colour: flat },
                ],
                None => seq![],
            },
        }
    }

    /// The fragments of several things, in order.
    pub open spec fn items_fragments<K: Arith>(
        self,
        k: &K,
        width: int,
        height: int,
        items: Seq<Item>,
    ) -> Seq<Fragment>
        decreases items.len(),
    {
        if items.len() == 0 {
            seq![]
        } else {
            self.items_fragments(k, width, height, items.drop_last()) + self.item_fragments(
                k,
                width,
                height,
                items.last(),
            )
        }
    }
}

/// A primitive made ready for drawing.
pub struct Batch<'a> {
    prim: &'a Primitive,
    world: Mat4,
    projected: Vec<Option<Vec3>>,
    normals: Vec<Vec3>,
    colour: Vec4,
    light: DirLight,
    mode: ShadingMode,
}

impl<'a> View for Batch<'a> {
    type V = Setup;

    closed spec fn view(&self) -> Setup {
        Setup {
            positions: self.prim.positions@,
            world: self.world,
            projected: self.projected@,
            normals: self.normals@,
            colour: self.colour,
            light: self.light,
            mode: self.mode,
        }
    }
}

impl<'a> Batch<'a> {
    /// Projects a primitive's vertices, and brings its normals to world
    /// space where the mode reads them.
    pub fn new<K: Arith>(
        k: &K,
        prim: &'a Primitive,
        world: &Mat4,
        camera: &Camera,
        light: &DirLight,
        colour: Vec4,
        mode: ShadingMode,
        width: u32,
        height: u32,
    ) -> (b: Batch<'a>)
        ensures
            repeatable(k) ==> b@ == Setup::of(
                k,
                prim,
                *world,
                camera,
                *light,
                colour,
                mode,
                width as int,
                height as int,
            ),
    {
        let mvp = mat4_mul(k, &mat4_mul(k, &camera.proj, &camera.view), world);
        let projected = project_all(
            k,
            &prim.positions,
            &mvp,
            Real::of_u32(width),
            Real::of_u32(height),
        );
        let normals = match mode {
            ShadingMode::Gouraud | ShadingMode::Phong | ShadingMode::NormalDebug => world_normals(
                k,
                &prim.normals,
                world,
            ),
            _ => Vec::new(),
        };
        Batch { prim, world: *world, projected, normals, colour, light: *light, mode }
    }

    /// The screen-space vertex `i`.
    fn corner(&self, i: u32) -> (v: Option<Vec3>)
        ensures
            v == self@.corner(i),
    {
        if (i as usize) < self.projected.len() {
            self.projected[i as usize]
        } else {
            None
        }
    }

    /// The paint of a filled face.
    fn face_paint<K: Arith>(&self, k: &K, a: u32, b: u32, c: u32) -> (paint: Paint)
        ensures
            repeatable(k) ==> paint == self@.face_paint(k, a, b, c),
    {
        match self.mode {
            ShadingMode::Flat | ShadingMode::Wireframe => Paint::Flat(
                linear_rgba_to_srgb_u8(k, self.colour),
            ),
            ShadingMode::DepthDebug => Paint::Depth,
            _ => {
                let (na, nb, nc) = vertex_normals_for_face(
                    k,
                    &self.prim.positions,
                    &self.world,
                    &self.normals,
                    a as usize,
                    b as usize,
                    c as usize,
                );
                match self.mode {
                    ShadingMode::Gouraud => Paint::Gouraud(
                        shade_pixel(k, self.colour, na, &self.light),
                        shade_pixel(k, self.colour, nb, &self.light),
                        shade_pixel(k, self.colour, nc, &self.light),
                    ),
                    ShadingMode::Phong => Paint::Phong(na, nb, nc, self.colour, self.light),
                    _ => Paint::Normal(na, nb, nc),
                }
            },
        }
    }

    /// Draws one triangle: filled, or its edges in wireframe mode.
    pub fn draw_tri<K: Arith>(&self, k: &K, fb: &mut Framebuffer, a: u32, b: u32, c: u32)
        requires
            old(fb).wf(),
        ensures
            final(fb).wf(),
            final(fb)@.width == old(fb)@.width,
            final(fb)@.height == old(fb)@.height,
            repeatable(k) ==> final(fb)@ == old(fb)@.painted(
                self@.item_fragments(
                    k,
                    old(fb)@.width,
                    old(fb)@.height,
                    Item::Triangle(a, b, c),
                ),
            ),
    {
        let (va, vb, vc) = match (self.corner(a), self.corner(b), self.corner(c)) {
            (Some(va), Some(vb), Some(vc)) => (va, vb, vc),
            _ => {
                return;
            },
        };
        match self.mode {
            ShadingMode::Wireframe => {
                let flat = linear_rgba_to_srgb_u8(k, self.colour);
                proof {
                    let ab = line_fragments(k, va, vb, flat);
                    let bc = line_fragments(k, vb, vc, flat);
                    let ca = line_fragments(k, vc, va, flat);
                    lemma_painted_add(fb@, ab, bc);
                    lemma_painted_add(fb@, ab + bc, ca);
                }
                draw_line(k, fb, va, vb, flat);
                draw_line(k, fb, vb, vc, flat);
                draw_line(k, fb, vc, va, flat);
            },
            _ => {
                let paint = self.face_paint(k, a, b, c);
                fill_triangle(k, fb, &(Tri { a: va, b: vb, c: vc }), &paint);
            },
        }
    }

    /// Draws the segment between two vertices.
    pub fn draw_line_pair<K: Arith>(&self, k: &K, fb: &mut Framebuffer, a: u32, b: u32)
        requires
            old(fb).wf(),
        ensures
            final(fb).wf(),
            final(fb)@.width == old(fb)@.width,
            final(fb)@.height == old(fb)@.height,
            repeatable(k) ==> final(fb)@ == old(fb)@.painted(
                self@.item_fragments(k, old(fb)@.width, old(fb)@.height, Item::Line(a, b)),
            ),
    {
        match (self.corner(a), self.corner(b)) {
            (Some(va), Some(vb)) => {
                draw_line(k, fb, va, vb, linear_rgba_to_srgb_u8(k, self.colour));
            },
            _ => {},
        }
    }

    /// Draws one vertex as a pixel.
    pub fn draw_point<K: Arith>(&self, k: &K, fb: &mut Framebuffer, a: u32)
        requires
            old(fb).wf(),
        ensures
            final(fb).wf(),
            final(fb)@.width == old(fb)@.width,
            final(fb)@.height == old(fb)@.height,
            repeatable(k) ==> final(fb)@ == old(fb)@.painted(
                self@.item_fragments(k, old(fb)@.width, old(fb)@.height, Item::Point(a)),
            ),
    {
        if let Some(p) = self.corner(a) {
            let flat = linear_rgba_to_srgb_u8(k, self.colour);
            proof {
                let f = Fragment { x: p.x.rounded(), y: p.y.rounded(), z: p.z, colour: flat };
                assert(seq![f].drop_last() =~= seq![]);
                reveal_with_fuel(Canvas::painted, 2);
            }
            fb.set_pixel(p.x.round_i32(), p.y.round_i32(), p.z, flat);
        }
    }
}

/// The fragments of a primitive.
pub open spec fn primitive_fragments<K: Arith>(
    k: &K,
    prim: &Primitive,
    world: Mat4,
    camera: &Camera,
    light: DirLight,
    colour: Vec4,
    mode: ShadingMode,
    width: int,
    height: int,
) -> Seq<Fragment> {
    let order = vertex_order(prim.indices, prim.positions@.len() as int);
    Setup::of(k, prim, world, camera, light, colour, mode, width, height).items_fragments(
        k,
        width,
        height,
        items_of(prim.topology, order),
    )
}

/// A primitive without vertices has no fragments.
proof fn lemma_no_vertices<K: Arith>(
    s: Setup,
    k: &K,
    width: int,
    height: int,
    items: Seq<Item>,
)
    requires
        s.projected.len() == 0,
    ensures
        s.items_fragments(k, width, height, items) == Seq::<Fragment>::empty(),
    decreases items.len(),
{
    if items.len() > 0 {
        lemma_no_vertices(s, k, width, height, items.drop_last());
    }
}

/// Draws a primitive: projects its vertices, expands its topology into
/// triangles, lines and points, and draws those in order.
pub fn draw_primitive<K: Arith>(
    k: &K,
    prim: &Primitive,
    world: &Mat4,
    camera: &Camera,
    light: &DirLight,
    colour: Vec4,
    fb: &mut Framebuffer,
    mode: ShadingMode,
)
    requires
        old(fb).wf(),
    ensures
        final(fb).wf(),
        final(fb)@.width == old(fb)@.width,
        final(fb)@.height == old(fb)@.height,
        repeatable(k) ==> final(fb)@ == old(fb)@.painted(
            primitive_fragments(
                k,
                prim,
                *world,
                camera,
                *light,
                colour,
                mode,
                old(fb)@.width,
                old(fb)@.height,
            ),
        ),
{
    let ghost start = fb@;
    let ghost w = start.width;
    let ghost h = start.height;
    if prim.positions.len() == 0 {
        proof {
            lemma_no_vertices(
                Setup::of(k, prim, *world, camera, *light, colour, mode, w, h),
                k,
                w,
                h,
                items_of(
                    prim.topology,
                    vertex_order(prim.indices, prim.positions@.len() as int),
                ),
            );
        }
        return;
    }
    let batch = Batch::new(k, prim, world, camera, light, colour, mode, fb.width(), fb.height());
    let items = expand(prim.topology, &vertex_sequence(prim));
    let mut i: usize = 0;
    assert(items@.take(0) =~= seq![]);
    while i < items.len()
        invariant
            i <= items@.len(),
            fb.wf(),
            fb@.width == w,
            fb@.height == h,
            repeatable(k) ==> fb@ == start.painted(
                batch@.items_fragments(k, w, h, items@.take(i as int)),
            ),
        decreases items@.len() - i,
    {
        proof {
            assert(items@.take(i + 1).drop_last() =~= items@.take(i as int));
            assert(items@.take(i + 1).last() == items@[i as int]);
            lemma_painted_add(
                start,
                batch@.items_fragments(k, w, h, items@.take(i as int)),
                batch@.item_fragments(k, w, h, items@[i as int]),
            );
        }
        match items[i] {
            Item::Triangle(a, b, c) => batch.draw_tri(k, fb, a, b, c),
            Item::Line(a, b) => batch.draw_line_pair(k, fb, a, b),
            Item::Point(a) => batch.draw_point(k, fb, a),
        }
        i += 1;
    }
    assert(items@.take(i as int) =~= items@);
}

/// What a frame is drawn with.
pub struct View3D {
    /// The camera.
    pub camera: Camera,
    /// The light.
    pub light: DirLight,
    /// The shading mode.
    pub mode: ShadingMode,
}

/// The fragments of primitives that share a placement.
pub open spec fn mesh_fragments<K: Arith>(
    k: &K,
    scene: &Scene,
    prims: Seq<Primitive>,
    world: Mat4,
    view: &View3D,
    width: int,
    height: int,
) -> Seq<Fragment>
    decreases prims.len(),
{
    if prims.len() == 0 {
        seq![]
    } else {
        let prim = prims.last();
        mesh_fragments(k, scene, prims.drop_last(), world, view, width, height)
            + primitive_fragments(
            k,
            &prim,
            world,
            &view.camera,
            view.light,
            colour_of(scene.materials@, prim.material),
            view.mode,
            width,
            height,
        )
    }
}

/// The fragments of what the visited nodes carry.
pub open spec fn visit_fragments<K: Arith>(
    k: &K,
    scene: &Scene,
    visits: Seq<Visit>,
    view: &View3D,
    width: int,
    height: int,
) -> Seq<Fragment>
    decreases visits.len(),
{
    if visits.len() == 0 {
        seq![]
    } else {
        let v = visits.last();
        visit_fragments(k, scene, visits.drop_last(), view, width, height) + mesh_fragments(
            k,
            scene,
            carried(scene, v.node as int),
            v.world,
            view,
            width,
            height,
        )
    }
}

/// Draws primitives that share a placement.
fn draw_mesh<K: Arith>(
    k: &K,
    scene: &Scene,
    prims: &Vec<Primitive>,
    world: &Mat4,
    view: &View3D,
    fb: &mut Framebuffer,
)
    requires
        old(fb).wf(),
    ensures
        final(fb).wf(),
        final(fb)@.width == old(fb)@.width,
        final(fb)@.height == old(fb)@.height,
        repeatable(k) ==> final(fb)@ == old(fb)@.painted(
            mesh_fragments(k, scene, prims@, *world, view, old(fb)@.width, old(fb)@.height),
        ),
{
    let ghost start = fb@;
    let ghost w = start.width;
    let ghost h = start.height;
    let mut i: usize = 0;
    assert(prims@.take(0) =~= seq![]);
    while i < prims.len()
        invariant
            i <= prims@.len(),
            fb.wf(),
            fb@.width == w,
            fb@.height == h,
            repeatable(k) ==> fb@ == start.painted(
                mesh_fragments(k, scene, prims@.take(i as int), *world, view, w, h),
            ),
        decreases prims@.len() - i,
    {
        let colour = primitive_colour_linear(scene, &prims[i]);
        proof {
            assert(prims@.take(i + 1).drop_last() =~= prims@.take(i as int));
            assert(prims@.take(i + 1).last() == prims@[i as int]);
            lemma_painted_add(
                start,
                mesh_fragments(k, scene, prims@.take(i as int), *world, view, w, h),
                primitive_fragments(
                    k,
                    &prims@[i as int],
                    *world,
                    &view.camera,
                    view.light,
                    colour,
                    view.mode,
                    w,
                    h,
                ),
            );
        }
        draw_primitive(k, &prims[i], world, &view.camera, &view.light, colour, fb, view.mode);
        i += 1;
    }
    assert(prims@.take(i as int) =~= prims@);
}

/// Draws what the nodes of a scene carry, in walk order.
pub fn draw_scene<K: Arith>(k: &K, scene: &Scene, view: &View3D, fb: &mut Framebuffer)
    requires
        old(fb).wf(),
    ensures
        final(fb).wf(),
        final(fb)@.width == old(fb)@.width,
        final(fb)@.height == old(fb)@.height,
        repeatable(k) ==> final(fb)@ == old(fb)@.painted(
            visit_fragments(
                k,
                scene,
                scene_visits(k, scene),
                view,
                old(fb)@.width,
                old(fb)@.height,
            ),
        ),
{
    let ghost start = fb@;
    let ghost w = start.width;
    let ghost h = start.height;
    let visits = walk_scene_preorder(k, scene);
    let mut i: usize = 0;
    assert(visits@.take(0) =~= seq![]);
    while i < visits.len()
        invariant
            i <= visits@.len(),
            sound_visits(scene, visits@),
            fb.wf(),
            fb@.width == w,
            fb@.height == h,
            repeatable(k) ==> fb@ == start.painted(
                visit_fragments(k, scene, visits@.take(i as int), view, w, h),
            ),
        decreases visits@.len() - i,
    {
        let v = visits[i];
        proof {
            assert(visits@.take(i + 1).drop_last() =~= visits@.take(i as int));
            assert(visits@.take(i + 1).last() == v);
            lemma_painted_add(
                start,
                visit_fragments(k, scene, visits@.take(i as int), view, w, h),
                mesh_fragments(k, scene, carried(scene, v.node as int), v.world, view, w, h),
            );
        }
        if let Some(id) = scene.nodes[v.node].mesh {
            if (id as usize) < scene.meshes.len() {
                draw_mesh(k, scene, &scene.meshes[id as usize].primitives, &v.world, view, fb);
            }
        }
        i += 1;
    }
    assert(visits@.take(i as int) =~= visits@);
}

/// What a frame under `opts` is drawn with.
pub open spec fn view_for<K: Arith>(k: &K, scene: &Scene, opts: &RenderOptions) -> View3D {
    View3D {
        camera: camera_for(
            k,
            opts.sample_columns(),
            opts.sample_rows(),
            &framed_box(k, scene),
            opts,
        ),
        light: light_of(k, opts.light),
        mode: opts.shading,
    }
}

/// The canvas of a rendered scene, before supersampling.
pub open spec fn scene_canvas<K: Arith>(k: &K, scene: &Scene, opts: &RenderOptions) -> Canvas {
    let (w, h) = (opts.sample_columns(), opts.sample_rows());
    Canvas::cleared(w, h, Rgba8::from_bytes(opts.background.0@)).painted(
        visit_fragments(
            k,
            scene,
            scene_visits(k, scene),
            &view_for(k, scene, opts),
            w,
            h,
        ),
    )
}

/// The colours of a canvas as samples.
pub open spec fn canvas_samples(c: Canvas) -> Samples {
    |x: int, y: int| c.at(x, y).colour
}

/// Renders a scene into a packed RGBA8 image.
///
/// With more than one sample per pixel the scene is rasterised larger and
/// box-filtered down.
pub fn render_scene<K: Arith>(k: &K, scene: &Scene, opts: &RenderOptions) -> (image: RgbaImage)
    requires
        opts.fits(),
    ensures
        image.width == opts.frame_width(),
        image.height == opts.frame_height(),
        image.packed(),
        repeatable(k) ==> resolved(
            image,
            opts.frame_width(),
            opts.frame_height(),
            opts.frame_samples(),
            canvas_samples(scene_canvas(k, scene, opts)),
        ),
{
    let (width, height, aa) = opts.frame_size();
    let render_w: u32 = width * aa;
    let render_h: u32 = height * aa;
    let background = Rgba8::of(opts.background.0);
    let mut fb = Framebuffer::new(render_w, render_h, background);
    let bbox = scene_bbox(k, scene);
    let camera = Camera::build(k, render_w, render_h, &bbox, opts);
    let light = build_light(k, opts.light);
    let view = View3D { camera, light, mode: opts.shading };
    draw_scene(k, scene, &view, &mut fb);
    let ghost c = fb@;
    let full = fb.into_image();
    let image = resolve(full, opts);
    proof {
        assert(shows(full, opts.sample_columns(), opts.sample_rows(), canvas_samples(c)));
    }
    image
}

/// What names a vertex that does not exist, or one behind the camera, draws
/// nothing.
pub proof fn law_clipped_items_draw_nothing<K: Arith>(
    s: Setup,
    k: &K,
    width: int,
    height: int,
    item: Item,
)
    requires
        match item {
            Item::Triangle(a, b, c) => s.corner(a) is None || s.corner(b) is None || s.corner(
                c,
            ) is None,
            Item::Line(a, b) => s.corner(a) is None || s.corner(b) is None,
            Item::Point(a) => s.corner(a) is None,
        },
    ensures
        s.item_fragments(k, width, height, item).len() == 0,
{
}

/// Whether the nodes that a walk visits carry no primitives.
pub open spec fn carries_nothing(scene: &Scene, visits: Seq<Visit>) -> bool {
    forall|i: int|
        0 <= i < visits.len() ==> carried(scene, (#[trigger] visits[i]).node as int).len() == 0
}

/// A walk over nodes that carry nothing draws nothing.
pub proof fn law_nothing_carried_draws_nothing<K: Arith>(
    k: &K,
    scene: &Scene,
    visits: Seq<Visit>,
    view: &View3D,
    width: int,
    height: int,
)
    requires
        carries_nothing(scene, visits),
    ensures
        visit_fragments(k, scene, visits, view, width, height).len() == 0,
    decreases visits.len(),
{
    if visits.len() > 0 {
        let rest = visits.drop_last();
        assert forall|i: int| 0 <= i < rest.len() implies carried(
            scene,
            (#[trigger] rest[i]).node as int,
        ).len() == 0 by {
            assert(rest[i] == visits[i]);
        }
        law_nothing_carried_draws_nothing(k, scene, rest, view, width, height);
        assert(visits.last() == visits[visits.len() - 1]);
    }
}

/// In flat and wireframe mode, and for lines and points in every mode,
/// whatever is drawn has the encoded base colour.
pub proof fn law_flat_items_have_the_base_colour<K: Arith>(
    s: Setup,
    k: &K,
    width: int,
    height: int,
    item: Item,
    i: int,
)
    requires
        s.mode is Flat || s.mode is Wireframe || item is Line || item is Point,
        0 <= i < s.item_fragments(k, width, height, item).len(),
    ensures
        s.item_fragments(k, width, height, item)[i].colour == srgb_pixel(k, s.colour),
{
    if let Item::Triangle(a, b, c) = item {
        if s.mode is Flat {
            let t = Tri { a: s.corner(a)->0, b: s.corner(b)->0, c: s.corner(c)->0 };
            let paint = s.face_paint(k, a, b, c);
            let f = triangle_fragments(k, width, height, &t, &paint)[i];
            law_triangle_draws_covered_pixels(k, width, height, &t, &paint, i);
            let area_inv = quotient(k, num(ONE), edge_of(k, t.a, t.b, t.c));
            assert(pixel_fragments(k, &t, area_inv, &paint, f.x, f.y)[0] == f);
        }
    }
}

/// In depth mode a filled face is opaque gray.
pub proof fn law_depth_faces_are_gray<K: Arith>(
    s: Setup,
    k: &K,
    width: int,
    height: int,
    a: u32,
    b: u32,
    c: u32,
    i: int,
)
    requires
        s.mode is DepthDebug,
        0 <= i < s.item_fragments(k, width, height, Item::Triangle(a, b, c)).len(),
    ensures
        ({
            let colour = s.item_fragments(k, width, height, Item::Triangle(a, b, c))[i].colour;
            colour.r == colour.g == colour.b && colour.a == 255
        }),
{
    let t = Tri { a: s.corner(a)->0, b: s.corner(b)->0, c: s.corner(c)->0 };
    let paint = s.face_paint(k, a, b, c);
    let f = triangle_fragments(k, width, height, &t, &paint)[i];
    law_triangle_draws_covered_pixels(k, width, height, &t, &paint, i);
    let area_inv = quotient(k, num(ONE), edge_of(k, t.a, t.b, t.c));
    assert(pixel_fragments(k, &t, area_inv, &paint, f.x, f.y)[0] == f);
}

/// Whether a visited node carries a primitive with this material.
pub open spec fn carries_material(
    scene: &Scene,
    visits: Seq<Visit>,
    material: Option<u32>,
) -> bool {
    exists|i: int, j: int|
        0 <= i < visits.len() && 0 <= j < carried(scene, visits[i].node as int).len() && (
        #[trigger] carried(scene, visits[i].node as int)[j]).material == material
}

/// Whether a colour is the encoded base colour of something that a visited
/// node carries.
pub open spec fn is_flat_colour<K: Arith>(
    k: &K,
    scene: &Scene,
    visits: Seq<Visit>,
    colour: Rgba8,
) -> bool {
    exists|material: Option<u32>| #[trigger]
        carries_material(scene, visits, material) && colour == srgb_pixel(
            k,
            colour_of(scene.materials@, material),
        )
}

/// What is carried along part of a walk is carried along the whole.
pub proof fn lemma_carried_further(scene: &Scene, visits: Seq<Visit>, material: Option<u32>)
    requires
        visits.len() > 0,
        carries_material(scene, visits.drop_last(), material),
    ensures
        carries_material(scene, visits, material),
{
    let rest = visits.drop_last();
    let (i, j) = choose|i: int, j: int|
        0 <= i < rest.len() && 0 <= j < carried(scene, rest[i].node as int).len() && (
        #[trigger] carried(scene, rest[i].node as int)[j]).material == material;
    assert(carried(scene, visits[i].node as int)[j].material == material);
}

/// In flat mode all fragments of a primitive have its base colour.
proof fn lemma_items_are_flat<K: Arith>(
    s: Setup,
    k: &K,
    width: int,
    height: int,
    items: Seq<Item>,
    i: int,
)
    requires
        s.mode is Flat,
        0 <= i < s.items_fragments(k, width, height, items).len(),
    ensures
        s.items_fragments(k, width, height, items)[i].colour == srgb_pixel(k, s.colour),
    decreases items.len(),
{
    let n = s.items_fragments(k, width, height, items.drop_last()).len();
    if i < n {
        lemma_items_are_flat(s, k, width, height, items.drop_last(), i);
    } else {
        law_flat_items_have_the_base_colour(s, k, width, height, items.last(), i - n);
    }
}

/// In flat mode a fragment of a mesh has the base colour of a primitive.
proof fn lemma_mesh_is_flat<K: Arith>(
    k: &K,
    scene: &Scene,
    prims: Seq<Primitive>,
    world: Mat4,
    view: &View3D,
    width: int,
    height: int,
    i: int,
) -> (j: int)
    requires
        view.mode is Flat,
        0 <= i < mesh_fragments(k, scene, prims, world, view, width, height).len(),
    ensures
        0 <= j < prims.len(),
        mesh_fragments(k, scene, prims, world, view, width, height)[i].colour == srgb_pixel(
            k,
            colour_of(scene.materials@, prims[j].material),
        ),
    decreases prims.len(),
{
    let rest = prims.drop_last();
    let prim = prims.last();
    let n = mesh_fragments(k, scene, rest, world, view, width, height).len();
    if i < n {
        let j = lemma_mesh_is_flat(k, scene, rest, world, view, width, height, i);
        assert(rest[j] == prims[j]);
        j
    } else {
        let colour = colour_of(scene.materials@, prim.material);
        let s = Setup::of(
            k,
            &prim,
            world,
            &view.camera,
            view.light,
            colour,
            view.mode,
            width,
            height,
        );
        let order = vertex_order(prim.indices, prim.positions@.len() as int);
        lemma_items_are_flat(s, k, width, height, items_of(prim.topology, order), i - n);
        prims.len() - 1
    }
}

/// In flat mode every fragment of a scene has the encoded base colour of
/// something that a visited node carries.
pub proof fn law_flat_fragments<K: Arith>(
    k: &K,
    scene: &Scene,
    visits: Seq<Visit>,
    view: &View3D,
    width: int,
    height: int,
    i: int,
)
    requires
        view.mode is Flat,
        0 <= i < visit_fragments(k, scene, visits, view, width, height).len(),
    ensures
        is_flat_colour(
            k,
            scene,
            visits,
            visit_fragments(k, scene, visits, view, width, height)[i].colour,
        ),
    decreases visits.len(),
{
    let rest = visits.drop_last();
    let v = visits.last();
    let frags = visit_fragments(k, scene, visits, view, width, height);
    let n = visit_fragments(k, scene, rest, view, width, height).len();
    if i < n {
        law_flat_fragments(k, scene, rest, view, width, height, i);
        let m = choose|m: Option<u32>| #[trigger]
            carries_material(scene, rest, m) && frags[i].colour == srgb_pixel(
                k,
                colour_of(scene.materials@, m),
            );
        lemma_carried_further(scene, visits, m);
    } else {
        let prims = carried(scene, v.node as int);
        let j = lemma_mesh_is_flat(k, scene, prims, v.world, view, width, height, i - n);
        assert(visits[visits.len() - 1] == v);
        assert(carried(scene, visits[visits.len() - 1].node as int)[j] == prims[j]);
        assert(carries_material(scene, visits, prims[j].material));
    }
}

} // verus!
