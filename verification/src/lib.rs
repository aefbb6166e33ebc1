//! A 3D-scene to raster-image renderer with its logic verified.
//!
//! Two backends stand behind one [`Renderer`] trait. The scanline backend
//! fills triangles into a depth-buffered frame; the raycast backend follows
//! rays through a bounding volume hierarchy and shades with shadows,
//! reflection and refraction. Both walk the scene the same way, frame it with
//! the same camera, light it with the same light and encode colours the same
//! way.
//!
//! Numbers are binary32 bit patterns ([`Real`]). Their order, rounding and
//! conversion are defined and proved here; sums, products and the other
//! operations come from a value that the caller hands in ([`arith::Arith`],
//! [`bvh::RayTests`]). A contract that begins with `repeatable(k)` speaks of
//! an arithmetic that gives the same answer to the same question.
//!
//! What a backend draws is a sequence of fragments
//! ([`framebuffer::Fragment`]), and an image is what remains when each has
//! been tried against the depth buffer. Laws that relate several functions are
//! public proof functions whose names begin with `law_`.

use vstd::prelude::*;

pub mod arith;
pub mod bvh;
pub mod camera;
pub mod equivalence;
pub mod error;
pub mod frame;
pub mod framebuffer;
pub mod image;
pub mod interpolation;
pub mod line;
pub mod math;
pub mod number;
pub mod optics;
pub mod options;
pub mod precision;
pub mod raster;
pub mod raycast;
pub mod registry;
pub mod renderer;
pub mod scanline;
pub mod scene;
pub mod shade;
pub mod source;
pub mod text;

pub use error::{Error, OptionFault};
pub use image::RgbaImage;
pub use number::Real;
pub use options::{
    BackgroundColor, CameraSpec, LightSpec, Projection, RenderBackend, RenderOptions, ShadingMode,
};
pub use registry::{register_into, MakeRenderer, RenderRegistry, RendererFactory};
pub use renderer::{make_renderer, AnyRenderer, RaycastRenderer, Renderer, ScanlineRenderer};
pub use scene::Scene;
pub use source::RenderSource;

verus! {

/// Crate identifier used by registries that enumerate backends.
pub const CRATE_NAME: &'static str = "oxideav-render";

} // verus!
