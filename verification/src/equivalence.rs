//! What makes no difference to an image: options that are clamped, and child
//! references that the walk passes over.

use crate::arith::{repeatable, Arith};
use crate::bvh::{sighted, RayTests};
use crate::camera::{camera_for, carried, framed_box, visit_points};
use crate::image::RgbaImage;
use crate::math::{identity4, Mat4};
use crate::options::RenderOptions;
use crate::raycast::{traced_frame, visit_soup, TraceScene};
use crate::renderer::{
    broken_hierarchy, law_raycast_is_repeatable, law_scanline_is_repeatable, raycast_image,
    same_image, scanline_image,
};
use crate::scanline::{mesh_fragments, scene_canvas, view_for, visit_fragments, View3D};
use crate::scene::{
    idle_child, law_idle_child_changes_nothing, lemma_visits_the_unclaimed, scene_visits, under,
    visited, without_child, Primitive, Scene, Visit,
};
use vstd::prelude::*;

verus! {

impl RenderOptions {
    /// The options with size and sample count moved into range.
    pub open spec fn clamped(self) -> RenderOptions {
        RenderOptions {
            width: self.frame_width() as u32,
            height: self.frame_height() as u32,
            aa: self.frame_samples() as u32,
            ..self
        }
    }
}

/// Clamped options have the frame of the options that were clamped.
proof fn lemma_clamped_frame(opts: &RenderOptions)
    ensures
        opts.clamped().frame_width() == opts.frame_width(),
        opts.clamped().frame_height() == opts.frame_height(),
        opts.clamped().frame_samples() == opts.frame_samples(),
        opts.clamped().fits() == opts.fits(),
{
}

/// Sizes and sample counts out of range are clamped silently by the scanline
/// backend: what it makes of a scene under some options is what it makes of it
/// under the clamped ones, and the images are the same.
pub proof fn law_scanline_clamps<K: Arith>(
    k: &K,
    scene: &Scene,
    opts: &RenderOptions,
    a: RgbaImage,
    b: RgbaImage,
)
    ensures
        opts.clamped().fits() == opts.fits(),
        scanline_image(k, scene, opts, a) == scanline_image(k, scene, &opts.clamped(), a),
        repeatable(k) && scanline_image(k, scene, opts, a) && scanline_image(
            k,
            scene,
            &opts.clamped(),
            b,
        ) ==> same_image(a, b),
{
    lemma_clamped_frame(opts);
    let other = opts.clamped();
    assert(view_for(k, scene, opts) == view_for(k, scene, &other));
    assert(scene_canvas(k, scene, opts) == scene_canvas(k, scene, &other));
    if repeatable(k) && scanline_image(k, scene, opts, a) && scanline_image(k, scene, &other, b) {
        law_scanline_is_repeatable(k, scene, &other, a, b);
    }
}

/// Clamped options trace the frame of the options that were clamped.
proof fn lemma_clamped_trace<K: RayTests>(
    k: &K,
    scene: &Scene,
    traced: &TraceScene,
    opts: &RenderOptions,
    image: RgbaImage,
)
    ensures
        traced_frame(k, scene, traced, opts, image) == traced_frame(
            k,
            scene,
            traced,
            &opts.clamped(),
            image,
        ),
{
    lemma_clamped_frame(opts);
    let (w, h) = (opts.sample_columns(), opts.sample_rows());
    let bbox = framed_box(k, scene);
    assert(camera_for(k, w, h, &bbox, opts) == camera_for(k, w, h, &bbox, &opts.clamped()));
}

/// Sizes and sample counts out of range are clamped silently by the raycast
/// backend: what it makes of a scene under some options is what it makes of it
/// under the clamped ones, and the images are the same.
pub proof fn law_raycast_clamps<K: RayTests>(
    k: &K,
    scene: &Scene,
    opts: &RenderOptions,
    a: RgbaImage,
    b: RgbaImage,
)
    ensures
        opts.clamped().fits() == opts.fits(),
        raycast_image(k, scene, opts, a) == raycast_image(k, scene, &opts.clamped(), a),
        sighted(k) && raycast_image(k, scene, opts, a) && raycast_image(
            k,
            scene,
            &opts.clamped(),
            b,
        ) ==> same_image(a, b),
{
    lemma_clamped_frame(opts);
    let other = opts.clamped();
    assert forall|traced: TraceScene| #[trigger] traced.bakes(k, scene) implies traced_frame(
        k,
        scene,
        &traced,
        opts,
        a,
    ) == traced_frame(k, scene, &traced, &other, a) by {
        lemma_clamped_trace(k, scene, &traced, opts, a);
    }
    if sighted(k) && raycast_image(k, scene, opts, a) && raycast_image(k, scene, &other, b) {
        law_raycast_is_repeatable(k, scene, &other, a, b);
    }
}

/// Whether two scenes carry the same things at the nodes of a walk, with the
/// same materials.
pub open spec fn same_load(a: &Scene, b: &Scene, visits: Seq<Visit>) -> bool {
    &&& a.materials@ == b.materials@
    &&& forall|i: int|
        0 <= i < visits.len() ==> carried(a, (#[trigger] visits[i]).node as int) == carried(
            b,
            visits[i].node as int,
        )
}

/// A shorter walk meets fewer things.
proof fn lemma_shorter_load(a: &Scene, b: &Scene, visits: Seq<Visit>)
    requires
        same_load(a, b, visits),
        visits.len() > 0,
    ensures
        same_load(a, b, visits.drop_last()),
        carried(a, visits.last().node as int) == carried(b, visits.last().node as int),
{
    let rest = visits.drop_last();
    assert forall|i: int| 0 <= i < rest.len() implies carried(
        a,
        (#[trigger] rest[i]).node as int,
    ) == carried(b, rest[i].node as int) by {
        assert(rest[i] == visits[i]);
    }
    assert(visits.last() == visits[visits.len() - 1]);
}

/// The same load has the same points.
proof fn lemma_same_points<K: Arith>(k: &K, a: &Scene, b: &Scene, visits: Seq<Visit>)
    requires
        same_load(a, b, visits),
    ensures
        visit_points(k, a, visits) == visit_points(k, b, visits),
    decreases visits.len(),
{
    if visits.len() > 0 {
        lemma_shorter_load(a, b, visits);
        lemma_same_points(k, a, b, visits.drop_last());
    }
}

/// The same load bakes to the same triangles.
proof fn lemma_same_soup<K: Arith>(k: &K, a: &Scene, b: &Scene, visits: Seq<Visit>)
    requires
        same_load(a, b, visits),
    ensures
        visit_soup(k, a, visits) == visit_soup(k, b, visits),
    decreases visits.len(),
{
    if visits.len() > 0 {
        lemma_shorter_load(a, b, visits);
        lemma_same_soup(k, a, b, visits.drop_last());
    }
}

/// Primitives have the same fragments under the same materials.
proof fn lemma_same_mesh<K: Arith>(
    k: &K,
    a: &Scene,
    b: &Scene,
    prims: Seq<Primitive>,
    world: Mat4,
    view: &View3D,
    width: int,
    height: int,
)
    requires
        a.materials@ == b.materials@,
    ensures
        mesh_fragments(k, a, prims, world, view, width, height) == mesh_fragments(
            k,
            b,
            prims,
            world,
            view,
            width,
            height,
        ),
    decreases prims.len(),
{
    if prims.len() > 0 {
        lemma_same_mesh(k, a, b, prims.drop_last(), world, view, width, height);
    }
}

/// The same load has the same fragments.
proof fn lemma_same_fragments<K: Arith>(
    k: &K,
    a: &Scene,
    b: &Scene,
    visits: Seq<Visit>,
    view: &View3D,
    width: int,
    height: int,
)
    requires
        same_load(a, b, visits),
    ensures
        visit_fragments(k, a, visits, view, width, height) == visit_fragments(
            k,
            b,
            visits,
            view,
            width,
            height,
        ),
    decreases visits.len(),
{
    if visits.len() > 0 {
        let v = visits.last();
        lemma_shorter_load(a, b, visits);
        lemma_same_fragments(k, a, b, visits.drop_last(), view, width, height);
        lemma_same_mesh(
            k,
            a,
            b,
            carried(a, v.node as int),
            v.world,
            view,
            width,
            height,
        );
    }
}

/// A scene and the same scene without a child reference carry the same.
proof fn lemma_plain_load<K: Arith>(k: &K, scene: &Scene, plain: &Scene, i: int, j: int)
    requires
        without_child(scene.nodes@, plain.nodes@, i, j),
        plain.meshes@ == scene.meshes@,
        plain.materials@ == scene.materials@,
    ensures
        same_load(scene, plain, scene_visits(k, scene)),
{
    let visits = scene_visits(k, scene);
    assert(scene.nodes@.len() == scene.nodes.len());
    assert forall|v: int| 0 <= v < visits.len() implies carried(
        scene,
        (#[trigger] visits[v]).node as int,
    ) == carried(plain, visits[v].node as int) by {
        let n = visits[v].node as int;
        assert(visited(visits, n));
        lemma_visits_the_unclaimed(
            k,
            scene.nodes@,
            under(scene.roots@, identity4()),
            Seq::new(scene.nodes@.len(), |n: int| false),
            n,
        );
        if n != i {
            assert(plain.nodes@[n] == scene.nodes@[n]);
        }
    }
}

/// A scene with an idle child reference, such as one that closes a cycle or
/// the second one to a shared child, renders like the plain scene without it,
/// in both backends.
pub proof fn law_idle_child_renders_like_plain<K: RayTests>(
    k: &K,
    scene: &Scene,
    plain: &Scene,
    i: int,
    j: int,
    opts: &RenderOptions,
    image: RgbaImage,
)
    requires
        plain.roots@ == scene.roots@,
        plain.meshes@ == scene.meshes@,
        plain.materials@ == scene.materials@,
        without_child(scene.nodes@, plain.nodes@, i, j),
        idle_child(k, scene, i, j),
    ensures
        scanline_image(k, scene, opts, image) == scanline_image(k, plain, opts, image),
        raycast_image(k, scene, opts, image) == raycast_image(k, plain, opts, image),
        broken_hierarchy(k, scene) == broken_hierarchy(k, plain),
{
    let visits = scene_visits(k, scene);
    let (w, h) = (opts.sample_columns(), opts.sample_rows());
    law_idle_child_changes_nothing(k, scene, plain, i, j);
    lemma_plain_load(k, scene, plain, i, j);
    lemma_same_points(k, scene, plain, visits);
    lemma_same_soup(k, scene, plain, visits);
    assert(framed_box(k, scene) == framed_box(k, plain));
    assert(view_for(k, scene, opts) == view_for(k, plain, opts));
    lemma_same_fragments(k, scene, plain, visits, &view_for(k, scene, opts), w, h);
    assert(scene_canvas(k, scene, opts) == scene_canvas(k, plain, opts));
    if raycast_image(k, scene, opts, image) {
        let t = choose|t: TraceScene| #[trigger]
            t.bakes(k, scene) && t.wf() && (sighted(k) ==> traced_frame(
                k,
                scene,
                &t,
                opts,
                image,
            ));
        assert(t.bakes(k, plain));
    }
    if raycast_image(k, plain, opts, image) {
        let t = choose|t: TraceScene| #[trigger]
            t.bakes(k, plain) && t.wf() && (sighted(k) ==> traced_frame(
                k,
                plain,
                &t,
                opts,
                image,
            ));
        assert(t.bakes(k, scene));
    }
}

} // verus!
