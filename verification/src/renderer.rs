//! The renderer surface: the trait that every backend implements, the two
//! backends, and the factory that picks one.

use crate::arith::{repeatable, Arith};
use crate::bvh::{grown, sighted, tree_of, BakedTri, Bvh, RayTests};
use crate::camera::{camera_for, framed_box};
use crate::error::Error;
use crate::frame::{law_one_sample, law_uniform_samples, resolved};
use crate::framebuffer::{law_painting_invents_no_colours, lemma_slot, Canvas, Rgba8};
use crate::image::{lemma_same_pixels, RgbaImage};
use crate::math::Vec4;
use crate::options::{RenderBackend, RenderOptions};
use crate::raycast::{
    law_baking_is_repeatable, law_flat_samples, law_nothing_carried_bakes_to_nothing,
    lemma_same_frame, sample_ray, traced_frame, traced_samples, visit_soup, TraceScene,
};
use crate::scanline::{
    canvas_samples, carries_material, carries_nothing, colour_of, is_flat_colour,
    law_flat_fragments, law_nothing_carried_draws_nothing, scene_canvas, view_for, visit_fragments,
};
use crate::scene::{scene_visits, Scene};
use crate::shade::{light_of, srgb_pixel};
use vstd::prelude::*;

verus! {

/// The surface that a custom backend implements.
///
/// A renderer consumes a [`Scene`] and [`RenderOptions`] and produces an
/// [`RgbaImage`]. The trait is object-safe, so that callers need not know the
/// backend's type.
pub trait Renderer: Send {
    /// Whether rendering `scene` under `opts` can come out as `r`. A backend
    /// that says nothing leaves it open.
    open spec fn renders(
        &self,
        scene: &Scene,
        opts: &RenderOptions,
        r: Result<RgbaImage, Error>,
    ) -> bool {
        true
    }

    /// Renders `scene` under `opts`.
    fn render(&mut self, scene: &Scene, opts: &RenderOptions) -> (r: Result<RgbaImage, Error>)
        requires
            opts.fits(),
        ensures
            old(self).renders(scene, opts, r),
    ;
}

/// Whether `image` is what the scanline backend makes of a scene.
pub open spec fn scanline_image<K: Arith>(
    k: &K,
    scene: &Scene,
    opts: &RenderOptions,
    image: RgbaImage,
) -> bool {
    &&& image.width == opts.frame_width()
    &&& image.height == opts.frame_height()
    &&& image.packed()
    &&& repeatable(k) ==> resolved(
        image,
        opts.frame_width(),
        opts.frame_height(),
        opts.frame_samples(),
        canvas_samples(scene_canvas(k, scene, opts)),
    )
}

/// Whether `image` is what the raycast backend makes of a scene, with some
/// hierarchy that the ray tests gave for its triangles.
pub open spec fn raycast_image<K: RayTests>(
    k: &K,
    scene: &Scene,
    opts: &RenderOptions,
    image: RgbaImage,
) -> bool {
    &&& image.width == opts.frame_width()
    &&& image.height == opts.frame_height()
    &&& image.packed()
    &&& exists|traced: TraceScene| #[trigger]
        traced.bakes(k, scene) && traced.wf() && (sighted(k) ==> traced_frame(
            k,
            scene,
            &traced,
            opts,
            image,
        ))
}

/// Whether the ray tests gave a hierarchy for the scene's triangles that
/// does not index them.
pub open spec fn broken_hierarchy<K: RayTests>(k: &K, scene: &Scene) -> bool {
    exists|soup: Vec<BakedTri>, bvh: Bvh| #[trigger]
        call_ensures(K::hierarchy, (k, &soup), Some(bvh)) && !bvh.wf(soup@.len() as int) && (
        repeatable(k) ==> soup@ == visit_soup(k, scene, scene_visits(k, scene)))
}

/// Scanline rasteriser: half-space edge functions with a per-pixel z-buffer.
/// Cheap; no global illumination, no raytraced shadows.
#[derive(Debug, Clone, Copy)]
pub struct ScanlineRenderer<K> {
    /// The arithmetic.
    pub arith: K,
}

impl<K> ScanlineRenderer<K> {
    /// Constructs a scanline renderer. It keeps no state between renders.
    pub fn new(arith: K) -> (r: Self)
        ensures
            r.arith == arith,
    {
        ScanlineRenderer { arith }
    }
}

impl<K: Arith + Send> Renderer for ScanlineRenderer<K> {
    open spec fn renders(
        &self,
        scene: &Scene,
        opts: &RenderOptions,
        r: Result<RgbaImage, Error>,
    ) -> bool {
        r matches Ok(image) && scanline_image(&self.arith, scene, opts, image)
    }

    fn render(&mut self, scene: &Scene, opts: &RenderOptions) -> (r: Result<RgbaImage, Error>)
        ensures
            *final(self) == *old(self),
    {
        Ok(crate::scanline::render_scene(&self.arith, scene, opts))
    }
}

/// Whitted recursive ray tracer.
#[derive(Debug, Clone, Copy)]
pub struct RaycastRenderer<K> {
    /// The arithmetic and the ray tests.
    pub tests: K,
}

impl<K> RaycastRenderer<K> {
    /// Constructs a raycast renderer. It keeps no state between renders.
    pub fn new(tests: K) -> (r: Self)
        ensures
            r.tests == tests,
    {
        RaycastRenderer { tests }
    }
}

impl<K: RayTests + Send> Renderer for RaycastRenderer<K> {
    open spec fn renders(
        &self,
        scene: &Scene,
        opts: &RenderOptions,
        r: Result<RgbaImage, Error>,
    ) -> bool {
        match r {
            Ok(image) => raycast_image(&self.tests, scene, opts, image),
            Err(e) => e is BrokenHierarchy && broken_hierarchy(&self.tests, scene),
        }
    }

    fn render(&mut self, scene: &Scene, opts: &RenderOptions) -> (r: Result<RgbaImage, Error>)
        ensures
            *final(self) == *old(self),
    {
        match crate::raycast::render_scene(&self.tests, scene, opts) {
            Some(image) => Ok(image),
            None => Err(Error::BrokenHierarchy),
        }
    }
}

/// A renderer of any kind.
pub enum AnyRenderer<K> {
    /// The scanline backend.
    Scanline(ScanlineRenderer<K>),
    /// The raycast backend.
    Raycast(RaycastRenderer<K>),
    /// A backend from elsewhere.
    Custom(Box<dyn Renderer>),
}

impl<K: RayTests + Send> AnyRenderer<K> {
    /// Renders `scene` under `opts`.
    pub fn render(&mut self, scene: &Scene, opts: &RenderOptions) -> (r: Result<RgbaImage, Error>)
        requires
            opts.fits(),
        ensures
            match *old(self) {
                AnyRenderer::Scanline(s) => {
                    &&& *final(self) == *old(self)
                    &&& r matches Ok(image) && scanline_image(&s.arith, scene, opts, image)
                },
                AnyRenderer::Raycast(t) => {
                    &&& *final(self) == *old(self)
                    &&& match r {
                        Ok(image) => raycast_image(&t.tests, scene, opts, image),
                        Err(e) => e is BrokenHierarchy && broken_hierarchy(&t.tests, scene),
                    }
                },
                AnyRenderer::Custom(c) => *final(self) is Custom && c.renders(scene, opts, r),
            },
    {
        match self {
            AnyRenderer::Scanline(s) => s.render(scene, opts),
            AnyRenderer::Raycast(t) => t.render(scene, opts),
            AnyRenderer::Custom(c) => c.render(scene, opts),
        }
    }
}

/// The renderer of a built-in backend.
pub open spec fn built_in<K>(backend: RenderBackend, tests: K) -> AnyRenderer<K> {
    match backend {
        RenderBackend::Scanline => AnyRenderer::Scanline(ScanlineRenderer { arith: tests }),
        RenderBackend::Raycast => AnyRenderer::Raycast(RaycastRenderer { tests }),
    }
}

/// Constructs a renderer for `backend`, which works with the given
/// arithmetic and ray tests.
pub fn make_renderer<K>(backend: RenderBackend, tests: K) -> (r: Result<AnyRenderer<K>, Error>)
    ensures
        r == Ok::<AnyRenderer<K>, Error>(built_in(backend, tests)),
{
    match backend {
        RenderBackend::Scanline => Ok(AnyRenderer::Scanline(ScanlineRenderer::new(tests))),
        RenderBackend::Raycast => Ok(AnyRenderer::Raycast(RaycastRenderer::new(tests))),
    }
}

/// No hierarchy indexes a soup without triangles.
proof fn lemma_nothing_to_index(b: Bvh)
    ensures
        !b.wf(0),
{
    if b.wf(0) {
        let last = b.nodes@.len() - 1;
        if b.triangles@.len() > 0 {
            assert(b.triangles@[0] < 0);
        }
        assert(b.node_wf(last));
    }
}

/// A scene in which no visited node carries anything, such as one without
/// nodes, shows nothing but background in the scanline backend, with and
/// without supersampling.
pub proof fn law_scanline_empty_scene<K: Arith>(
    k: &K,
    scene: &Scene,
    opts: &RenderOptions,
    image: RgbaImage,
)
    requires
        repeatable(k),
        scanline_image(k, scene, opts, image),
        carries_nothing(scene, scene_visits(k, scene)),
    ensures
        forall|x: int, y: int| #[trigger]
            image.in_bounds(x, y) ==> image.quad(x, y) == Rgba8::from_bytes(
                opts.background.0@,
            ).bytes(),
{
    let (w, h) = (opts.sample_columns(), opts.sample_rows());
    let colour = Rgba8::from_bytes(opts.background.0@);
    law_nothing_carried_draws_nothing(
        k,
        scene,
        scene_visits(k, scene),
        &view_for(k, scene, opts),
        w,
        h,
    );
    let c = scene_canvas(k, scene, opts);
    assert(w >= 1 && h >= 1) by (nonlinear_arith)
        requires
            w == opts.frame_width() * opts.frame_samples(),
            h == opts.frame_height() * opts.frame_samples(),
            opts.frame_width() >= 1,
            opts.frame_height() >= 1,
            opts.frame_samples() >= 1,
    ;
    assert forall|i: int, j: int| 0 <= i < w && 0 <= j < h implies #[trigger] canvas_samples(
        c,
    )(i, j) == colour by {
        assert(c.wf()) by {
            assert(w * h >= 0) by (nonlinear_arith)
                requires
                    w >= 1,
                    h >= 1,
            ;
        }
        lemma_slot(c, i, j);
    }
    law_uniform_samples(
        image,
        opts.frame_width(),
        opts.frame_height(),
        opts.frame_samples(),
        canvas_samples(c),
        colour,
    );
}

/// A scene in which no visited node carries anything, such as one without
/// nodes, shows nothing but background in the raycast backend, with and
/// without supersampling.
pub proof fn law_raycast_empty_scene<K: RayTests>(
    k: &K,
    scene: &Scene,
    opts: &RenderOptions,
    image: RgbaImage,
)
    requires
        sighted(k),
        raycast_image(k, scene, opts, image),
        carries_nothing(scene, scene_visits(k, scene)),
    ensures
        forall|x: int, y: int| #[trigger]
            image.in_bounds(x, y) ==> image.quad(x, y) == Rgba8::from_bytes(
                opts.background.0@,
            ).bytes(),
{
    let (w, h) = (opts.sample_columns(), opts.sample_rows());
    let colour = Rgba8::from_bytes(opts.background.0@);
    law_nothing_carried_bakes_to_nothing(k, scene, scene_visits(k, scene));
    let traced = choose|traced: TraceScene| #[trigger]
        traced.bakes(k, scene) && traced.wf() && (sighted(k) ==> traced_frame(
            k,
            scene,
            &traced,
            opts,
            image,
        ));
    if let Some(b) = traced.bvh {
        lemma_nothing_to_index(b);
    }
    let samples = traced_samples(
        k,
        &traced,
        camera_for(k, w, h, &framed_box(k, scene), opts),
        light_of(k, opts.light),
        opts.shading,
        colour,
        w,
        h,
    );
    law_uniform_samples(
        image,
        opts.frame_width(),
        opts.frame_height(),
        opts.frame_samples(),
        samples,
        colour,
    );
}

/// A scene without roots has no visits, so nothing in it is carried.
pub proof fn law_rootless_scene_carries_nothing<K: Arith>(k: &K, scene: &Scene)
    requires
        scene.roots@.len() == 0,
    ensures
        carries_nothing(scene, scene_visits(k, scene)),
{
}

/// Whether two images are the same, byte for byte.
pub open spec fn same_image(a: RgbaImage, b: RgbaImage) -> bool {
    &&& a.width == b.width
    &&& a.height == b.height
    &&& a.stride == b.stride
    &&& a.pixels@ == b.pixels@
}

/// The scanline backend makes the same image of a scene whenever it renders
/// it.
pub proof fn law_scanline_is_repeatable<K: Arith>(
    k: &K,
    scene: &Scene,
    opts: &RenderOptions,
    a: RgbaImage,
    b: RgbaImage,
)
    requires
        repeatable(k),
        scanline_image(k, scene, opts, a),
        scanline_image(k, scene, opts, b),
    ensures
        same_image(a, b),
{
    assert forall|x: int, y: int, c: int| #[trigger]
        a.in_bounds(x, y) && 0 <= c < 4 implies #[trigger] a.quad(x, y)[c] == b.quad(x, y)[c] by {
        assert(b.in_bounds(x, y));
    }
    lemma_same_pixels(a, b);
}

/// The raycast backend makes the same image of a scene whenever it renders
/// it, and does not fail on a scene that it has rendered.
pub proof fn law_raycast_is_repeatable<K: RayTests>(
    k: &K,
    scene: &Scene,
    opts: &RenderOptions,
    a: RgbaImage,
    b: RgbaImage,
)
    requires
        sighted(k),
        raycast_image(k, scene, opts, a),
        raycast_image(k, scene, opts, b),
    ensures
        same_image(a, b),
        !broken_hierarchy(k, scene),
{
    let s = choose|s: TraceScene| #[trigger]
        s.bakes(k, scene) && s.wf() && (sighted(k) ==> traced_frame(k, scene, &s, opts, a));
    let t = choose|t: TraceScene| #[trigger]
        t.bakes(k, scene) && t.wf() && (sighted(k) ==> traced_frame(k, scene, &t, opts, b));
    law_baking_is_repeatable(k, scene, &s, &t);
    lemma_same_frame(k, scene, &s, &t, opts, a);
    assert forall|x: int, y: int, c: int| #[trigger]
        a.in_bounds(x, y) && 0 <= c < 4 implies #[trigger] a.quad(x, y)[c] == b.quad(x, y)[c] by {
        assert(b.in_bounds(x, y));
    }
    lemma_same_pixels(a, b);
    if broken_hierarchy(k, scene) {
        let (soup, bvh) = choose|soup: Vec<BakedTri>, bvh: Bvh| #[trigger]
            call_ensures(K::hierarchy, (k, &soup), Some(bvh)) && !bvh.wf(soup@.len() as int) && (
            repeatable(k) ==> soup@ == visit_soup(k, scene, scene_visits(k, scene)));
        assert(tree_of(Some(bvh)) == grown(k, s.soup@));
        let other = s.bvh->0;
        assert(tree_of(s.bvh) == grown(k, s.soup@));
        assert forall|i: int| 0 <= i < bvh.nodes@.len() implies #[trigger] bvh.node_wf(i) by {
            assert(other.node_wf(i));
        }
    }
}

/// Whether the four bytes of a pixel are the background, or the encoded base
/// colour of something that the scene carries.
pub open spec fn is_flat_pixel<K: Arith>(
    k: &K,
    scene: &Scene,
    opts: &RenderOptions,
    quad: Seq<u8>,
) -> bool {
    ||| quad == Rgba8::from_bytes(opts.background.0@).bytes()
    ||| exists|colour: Rgba8| #[trigger]
        is_flat_colour(k, scene, scene_visits(k, scene), colour) && quad == colour.bytes()
}

/// In flat mode, with one sample per pixel, every pixel of the scanline
/// backend's image is background or the encoded base colour of something that
/// the scene carries.
pub proof fn law_flat_scanline_pixels<K: Arith>(
    k: &K,
    scene: &Scene,
    opts: &RenderOptions,
    image: RgbaImage,
    x: int,
    y: int,
)
    requires
        repeatable(k),
        scanline_image(k, scene, opts, image),
        opts.shading is Flat,
        opts.frame_samples() == 1,
        image.in_bounds(x, y),
    ensures
        is_flat_pixel(k, scene, opts, image.quad(x, y)),
{
    let (w, h) = (opts.frame_width(), opts.frame_height());
    assert(opts.sample_columns() == w && opts.sample_rows() == h);
    let background = Rgba8::from_bytes(opts.background.0@);
    let visits = scene_visits(k, scene);
    let view = view_for(k, scene, opts);
    let frags = visit_fragments(k, scene, visits, &view, w, h);
    let blank = Canvas::cleared(w, h, background);
    law_one_sample(image, w, h, canvas_samples(scene_canvas(k, scene, opts)));
    assert(blank.wf()) by {
        assert(w * h >= 0) by (nonlinear_arith)
            requires
                w >= 1,
                h >= 1,
        ;
    }
    lemma_slot(blank, x, y);
    law_painting_invents_no_colours(blank, frags, x, y);
    let shown = blank.painted(frags).at(x, y).colour;
    if shown != background {
        let i = choose|i: int| 0 <= i < frags.len() && shown == (#[trigger] frags[i]).colour;
        law_flat_fragments(k, scene, visits, &view, w, h, i);
    }
}

/// In flat mode, with one sample per pixel, every pixel of the raycast
/// backend's image is background or the encoded base colour of something that
/// the scene carries.
pub proof fn law_flat_raycast_pixels<K: RayTests>(
    k: &K,
    scene: &Scene,
    opts: &RenderOptions,
    image: RgbaImage,
    x: int,
    y: int,
)
    requires
        sighted(k),
        raycast_image(k, scene, opts, image),
        opts.shading is Flat,
        opts.frame_samples() == 1,
        image.in_bounds(x, y),
    ensures
        is_flat_pixel(k, scene, opts, image.quad(x, y)),
{
    let (w, h) = (opts.frame_width(), opts.frame_height());
    assert(opts.sample_columns() == w && opts.sample_rows() == h);
    let background = Rgba8::from_bytes(opts.background.0@);
    let camera = camera_for(k, w, h, &framed_box(k, scene), opts);
    let light = light_of(k, opts.light);
    let traced = choose|traced: TraceScene| #[trigger]
        traced.bakes(k, scene) && traced.wf() && (sighted(k) ==> traced_frame(
            k,
            scene,
            &traced,
            opts,
            image,
        ));
    let samples = traced_samples(k, &traced, camera, light, opts.shading, background, w, h);
    law_one_sample(image, w, h, samples);
    let ray = sample_ray(k, &camera, x, y, w, h);
    law_flat_samples(k, scene, &traced, &camera, &light, ray, background);
    assert(image.quad(x, y) == samples(x, y).bytes());
}

/// Whether everything that a scene carries has the base colour `colour`.
pub open spec fn has_one_colour<K: Arith>(k: &K, scene: &Scene, colour: Vec4) -> bool {
    forall|material: Option<u32>| #[trigger]
        carries_material(scene, scene_visits(k, scene), material) ==> colour_of(
            scene.materials@,
            material,
        ) == colour
}

/// In flat mode, with one sample per pixel, the two backends agree on what
/// they paint: of a scene with one base colour, whatever pixel is not
/// background shows that colour, encoded, in either image. So a pixel that
/// both paint has the same bytes in both.
pub proof fn law_flat_images_agree<K: RayTests>(
    k: &K,
    scene: &Scene,
    opts: &RenderOptions,
    colour: Vec4,
    a: RgbaImage,
    b: RgbaImage,
    x: int,
    y: int,
)
    requires
        sighted(k),
        scanline_image(k, scene, opts, a),
        raycast_image(k, scene, opts, b),
        opts.shading is Flat,
        opts.frame_samples() == 1,
        has_one_colour(k, scene, colour),
        a.in_bounds(x, y),
    ensures
        ({
            let background = Rgba8::from_bytes(opts.background.0@).bytes();
            let painted = srgb_pixel(k, colour).bytes();
            &&& b.in_bounds(x, y)
            &&& a.quad(x, y) == background || a.quad(x, y) == painted
            &&& b.quad(x, y) == background || b.quad(x, y) == painted
            &&& a.quad(x, y) != background && b.quad(x, y) != background ==> a.quad(x, y)
                == b.quad(x, y)
        }),
{
    law_flat_scanline_pixels(k, scene, opts, a, x, y);
    law_flat_raycast_pixels(k, scene, opts, b, x, y);
}

} // verus!
