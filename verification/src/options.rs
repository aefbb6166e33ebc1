//! [`RenderOptions`] and companion enums: the surface that every renderer
//! consumes.

use crate::error::{Error, OptionFault};
use crate::number::{lemma_worth_order, num, Real, ONE, ZERO};
use vstd::prelude::*;

verus! {

/// `45.0` as a bit pattern.
pub const FORTY_FIVE: u32 = 0x4234_0000;

/// `60.0` as a bit pattern.
pub const SIXTY: u32 = 0x4270_0000;

/// `180.0` as a bit pattern.
pub const STRAIGHT_ANGLE: u32 = 0x4334_0000;

/// Backend selector.
#[derive(Debug, Clone, Copy, PartialEq, Eq, Structural)]
#[non_exhaustive]
pub enum RenderBackend {
    /// Scanline rasteriser: half-space edge functions with a per-pixel
    /// z-buffer. Fast, no global illumination, no raytraced shadows.
    Scanline,
    /// Whitted recursive ray tracer: the same shading modes, plus (in
    /// `Phong` mode) hard shadows and recursive reflection and refraction.
    /// Line and point topologies have no surface area and are invisible to
    /// rays.
    Raycast,
}

/// Shading model selector.
#[derive(Debug, Clone, Copy, PartialEq, Eq, Structural)]
#[non_exhaustive]
pub enum ShadingMode {
    /// Constant material colour per triangle, without lighting.
    Flat,
    /// Per-vertex lighting interpolated across the triangle.
    Gouraud,
    /// Per-pixel lighting. The default.
    Phong,
    /// Triangle edges only, no fill.
    Wireframe,
    /// Per-pixel normal as `((n + 1) / 2) * 255`.
    NormalDebug,
    /// Depth as grayscale, white near and black far.
    DepthDebug,
}

impl Default for ShadingMode {
    fn default() -> (r: Self)
        ensures
            r == ShadingMode::Phong,
    {
        ShadingMode::Phong
    }
}

/// Camera projection type.
#[derive(Debug, Clone, Copy, PartialEq, Eq, Structural)]
#[non_exhaustive]
pub enum Projection {
    /// Perspective projection. The default.
    Perspective,
    /// Orthographic projection: parallel rays, no foreshortening.
    Orthographic,
}

impl Default for Projection {
    fn default() -> (r: Self)
        ensures
            r == Projection::Perspective,
    {
        Projection::Perspective
    }
}

/// Background colour for the cleared framebuffer (RGBA8). The default is
/// fully transparent black.
#[derive(Debug, Clone, Copy, PartialEq, Eq, Hash)]
pub struct BackgroundColor(pub [u8; 4]);

impl Default for BackgroundColor {
    fn default() -> (r: Self)
        ensures
            r.0@ == seq![0u8, 0u8, 0u8, 0u8],
    {
        let r = BackgroundColor([0, 0, 0, 0]);
        assert(r.0@ =~= seq![0u8, 0u8, 0u8, 0u8]);
        r
    }
}

impl From<[u8; 4]> for BackgroundColor {
    fn from(rgba: [u8; 4]) -> (r: Self) {
        BackgroundColor(rgba)
    }
}

impl vstd::std_specs::convert::FromSpecImpl<[u8; 4]> for BackgroundColor {
    open spec fn obeys_from_spec() -> bool {
        true
    }

    open spec fn from_spec(rgba: [u8; 4]) -> Self {
        BackgroundColor(rgba)
    }
}

/// Directional light. Angles are in degrees; `intensity` is multiplied into
/// the diffuse term.
#[derive(Debug, Clone, Copy, PartialEq)]
pub struct LightSpec {
    /// Rotation around `+Y`, measured from `+Z` toward `+X`.
    pub azimuth_deg: Real,
    /// Pitch above the `XZ` plane.
    pub elevation_deg: Real,
    /// Diffuse multiplier. Must be non-negative and finite.
    pub intensity: Real,
}

impl LightSpec {
    /// The default light: from the upper-right-front quadrant at unit
    /// intensity.
    pub open spec fn baseline() -> Self {
        LightSpec {
            azimuth_deg: num(FORTY_FIVE),
            elevation_deg: num(FORTY_FIVE),
            intensity: num(ONE),
        }
    }

    /// Default directional light.
    pub fn default_light() -> (r: Self)
        ensures
            r == LightSpec::baseline(),
    {
        LightSpec {
            azimuth_deg: num(FORTY_FIVE),
            elevation_deg: num(FORTY_FIVE),
            intensity: num(ONE),
        }
    }
}

impl Default for LightSpec {
    fn default() -> (r: Self)
        ensures
            r == LightSpec::baseline(),
    {
        LightSpec::default_light()
    }
}

/// Camera placement override: an orbit around the scene's centre. Angles
/// are in degrees.
#[derive(Debug, Clone, Copy, PartialEq)]
pub struct CameraSpec {
    /// Pitch of the orbit above the scene's `XZ` plane.
    pub elevation_deg: Real,
    /// Yaw of the orbit around the scene's `Y` axis.
    pub azimuth_deg: Real,
    /// Distance from the scene's centre, in units of the auto-frame
    /// distance. Must be positive and finite.
    pub distance: Real,
}

/// Caller-facing render options.
#[derive(Debug, Clone, PartialEq)]
pub struct RenderOptions {
    /// Output width in pixels.
    pub width: u32,
    /// Output height in pixels.
    pub height: u32,
    /// Framebuffer clear colour.
    pub background: BackgroundColor,
    /// Shading model.
    pub shading: ShadingMode,
    /// Camera projection type.
    pub projection: Projection,
    /// Vertical field of view in degrees, strictly between 0 and 180.
    pub fov_deg: Real,
    /// Directional light. `Flat`, `Wireframe` and the debug modes ignore
    /// it.
    pub light: LightSpec,
    /// Camera placement override. `None` frames the scene's bounding box,
    /// looking down the `+Z` axis toward `-Z`.
    pub camera: Option<CameraSpec>,
    /// Supersampling factor in `1..=8`. `1` is off; higher values render
    /// larger and box-filter down to the requested output.
    pub aa: u32,
}

impl Default for RenderOptions {
    fn default() -> (r: Self)
        ensures
            r.width == 512,
            r.height == 512,
            r.background.0@ == seq![0u8, 0u8, 0u8, 0u8],
            r.shading == ShadingMode::Phong,
            r.projection == Projection::Perspective,
            r.fov_deg == num(SIXTY),
            r.light == LightSpec::baseline(),
            r.camera is None,
            r.aa == 1,
    {
        RenderOptions {
            width: 512,
            height: 512,
            background: BackgroundColor::default(),
            shading: ShadingMode::default(),
            projection: Projection::default(),
            fov_deg: num(SIXTY),
            light: LightSpec::default_light(),
            camera: None,
            aa: 1,
        }
    }
}

impl RenderOptions {
    /// The first constraint that the options break, in the order in which
    /// they are checked.
    pub open spec fn fault(&self) -> Option<OptionFault> {
        let light = self.light;
        if self.width == 0 {
            Some(OptionFault::Width(self.width))
        } else if self.height == 0 {
            Some(OptionFault::Height(self.height))
        } else if !self.fov_deg.finite() {
            Some(OptionFault::FovNotFinite(self.fov_deg))
        } else if !(num(ZERO).below(self.fov_deg) && self.fov_deg.below(num(STRAIGHT_ANGLE))) {
            Some(OptionFault::FovRange(self.fov_deg))
        } else if !(1 <= self.aa <= 8) {
            Some(OptionFault::Aa(self.aa))
        } else if !light.intensity.finite() || light.intensity.below(num(ZERO)) {
            Some(OptionFault::LightIntensity(light.intensity))
        } else if !light.azimuth_deg.finite() || !light.elevation_deg.finite() {
            Some(OptionFault::LightAngles(light.azimuth_deg, light.elevation_deg))
        } else {
            match self.camera {
                Some(cam) => if !cam.azimuth_deg.finite() || !cam.elevation_deg.finite() {
                    Some(OptionFault::CameraAngles(cam.azimuth_deg, cam.elevation_deg))
                } else if !cam.distance.finite() || cam.distance.at_most(num(ZERO)) {
                    Some(OptionFault::CameraDistance(cam.distance))
                } else {
                    None
                },
                None => None,
            }
        }
    }

    /// Checks the options against the renderer contract and reports the
    /// first offending field.
    ///
    /// Rendering does not call this by itself: backends clamp instead, so a
    /// caller who wants strict failure on bad input calls it first.
    pub fn validate(&self) -> (r: Result<(), Error>)
        ensures
            r is Ok <==> self.fault() is None,
            r is Err ==> r->Err_0 is InvalidOptions && self.fault() == Some(
                r->Err_0->InvalidOptions_0,
            ),
    {
        if self.width == 0 {
            return Err(Error::InvalidOptions(OptionFault::Width(self.width)));
        }
        if self.height == 0 {
            return Err(Error::InvalidOptions(OptionFault::Height(self.height)));
        }
        if !self.fov_deg.is_finite() {
            return Err(Error::InvalidOptions(OptionFault::FovNotFinite(self.fov_deg)));
        }
        if !(num(ZERO).lt(self.fov_deg) && self.fov_deg.lt(num(STRAIGHT_ANGLE))) {
            return Err(Error::InvalidOptions(OptionFault::FovRange(self.fov_deg)));
        }
        if self.aa < 1 || self.aa > 8 {
            return Err(Error::InvalidOptions(OptionFault::Aa(self.aa)));
        }
        let light = self.light;
        if !light.intensity.is_finite() || light.intensity.lt(num(ZERO)) {
            return Err(Error::InvalidOptions(OptionFault::LightIntensity(light.intensity)));
        }
        if !light.azimuth_deg.is_finite() || !light.elevation_deg.is_finite() {
            return Err(
                Error::InvalidOptions(
                    OptionFault::LightAngles(light.azimuth_deg, light.elevation_deg),
                ),
            );
        }
        if let Some(cam) = self.camera {
            if !cam.azimuth_deg.is_finite() || !cam.elevation_deg.is_finite() {
                return Err(
                    Error::InvalidOptions(
                        OptionFault::CameraAngles(cam.azimuth_deg, cam.elevation_deg),
                    ),
                );
            }
            if !cam.distance.is_finite() || cam.distance.le(num(ZERO)) {
                return Err(Error::InvalidOptions(OptionFault::CameraDistance(cam.distance)));
            }
        }
        Ok(())
    }
}

/// The default options pass validation.
pub proof fn law_default_options_are_valid(opts: RenderOptions)
    requires
        opts.width == 512,
        opts.height == 512,
        opts.fov_deg == num(SIXTY),
        opts.light == LightSpec::baseline(),
        opts.camera is None,
        opts.aa == 1,
    ensures
        opts.fault() is None,
{
    lemma_worth_order(0, 0x4270_0000);
    lemma_worth_order(0x4270_0000, 0x4334_0000);
    lemma_worth_order(0, 0x3f80_0000);
}

} // verus!
