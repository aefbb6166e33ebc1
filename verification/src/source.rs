//! A scene and a renderer as a source of video frames.
//!
//! A still scene makes a single frame: the first request renders it, and
//! every request after that meets the end of the stream.

use crate::bvh::RayTests;
use crate::error::Error;
use crate::image::RgbaImage;
use crate::options::RenderOptions;
use crate::renderer::{broken_hierarchy, raycast_image, scanline_image, AnyRenderer};
use crate::scene::Scene;
use vstd::prelude::*;

verus! {

/// What kind of stream a source gives.
#[derive(Debug, Clone, Copy, PartialEq, Eq, Structural)]
pub enum MediaKind {
    /// Video frames.
    Video,
}

/// How a frame's pixels are laid out.
#[derive(Debug, Clone, Copy, PartialEq, Eq, Structural)]
pub enum PixelLayout {
    /// Packed RGBA8.
    Rgba,
}

/// What a source advertises before its first frame.
#[derive(Debug, Clone, Copy, PartialEq, Eq)]
pub struct StreamParams {
    /// Codec name.
    pub codec_id: &'static str,
    /// Kind of stream.
    pub media_type: MediaKind,
    /// Frame width.
    pub width: u32,
    /// Frame height.
    pub height: u32,
    /// Pixel layout.
    pub pixel_format: PixelLayout,
    /// Frames per second, as a fraction.
    pub frame_rate: (i64, i64),
}

/// One plane of a frame.
#[derive(Debug, Clone)]
pub struct VideoPlane {
    /// Bytes per row.
    pub stride: usize,
    /// The bytes.
    pub data: Vec<u8>,
}

/// A frame.
#[derive(Debug, Clone)]
pub struct VideoFrame {
    /// Presentation time.
    pub pts: Option<i64>,
    /// The planes.
    pub planes: Vec<VideoPlane>,
}

/// Why a source gives no frame.
#[derive(Debug)]
pub enum SourceError {
    /// The stream has ended.
    Eof,
    /// Rendering failed.
    Invalid(Error),
}

/// Whether a frame carries an image as its single plane.
pub open spec fn carries(frame: VideoFrame, image: RgbaImage, pts: i64) -> bool {
    &&& frame.pts == Some(pts)
    &&& frame.planes@.len() == 1
    &&& frame.planes@[0].stride == image.stride
    &&& frame.planes@[0].data == image.pixels
}

/// Turns an image into a packed single-plane frame.
pub fn rgba_image_to_video_frame(img: RgbaImage, pts: i64) -> (frame: VideoFrame)
    ensures
        carries(frame, img, pts),
{
    let mut planes: Vec<VideoPlane> = Vec::new();
    planes.push(VideoPlane { stride: img.stride, data: img.pixels });
    VideoFrame { pts: Some(pts), planes }
}

/// A source that gives the rendered scene as a single frame.
pub struct RenderSource<K> {
    scene: Scene,
    renderer: AnyRenderer<K>,
    opts: RenderOptions,
    params: StreamParams,
    emitted: bool,
}

impl<K> RenderSource<K> {
    /// The scene.
    pub closed spec fn scene(&self) -> Scene {
        self.scene
    }

    /// The renderer.
    pub closed spec fn renderer(&self) -> AnyRenderer<K> {
        self.renderer
    }

    /// The options.
    pub closed spec fn opts(&self) -> RenderOptions {
        self.opts
    }

    /// What is advertised.
    pub closed spec fn advertised(&self) -> StreamParams {
        self.params
    }

    /// Whether the frame was given.
    pub closed spec fn ended(&self) -> bool {
        self.emitted
    }

    /// Constructs a source for a still scene. Width and height of the
    /// options are advertised, so that what comes after the source can
    /// configure itself before the frame arrives.
    pub fn new(scene: Scene, renderer: AnyRenderer<K>, opts: RenderOptions) -> (s: Self)
        ensures
            s.scene() == scene,
            s.renderer() == renderer,
            s.opts() == opts,
            !s.ended(),
            s.advertised().codec_id@ == "rawvideo"@,
            s.advertised().media_type == MediaKind::Video,
            s.advertised().width == opts.width,
            s.advertised().height == opts.height,
            s.advertised().pixel_format == PixelLayout::Rgba,
            s.advertised().frame_rate == (1i64, 1i64),
    {
        let params = StreamParams {
            codec_id: "rawvideo",
            media_type: MediaKind::Video,
            width: opts.width,
            height: opts.height,
            pixel_format: PixelLayout::Rgba,
            frame_rate: (1, 1),
        };
        RenderSource { scene, renderer, opts, params, emitted: false }
    }

    /// What is advertised.
    pub fn params(&self) -> (p: &StreamParams)
        ensures
            *p == self.advertised(),
    {
        &self.params
    }

    /// Duration of the stream in microseconds: one frame at one per second.
    pub fn duration_micros(&self) -> (d: Option<i64>)
        ensures
            d == Some(1_000_000i64),
    {
        Some(1_000_000)
    }
}

impl<K: RayTests + Send> RenderSource<K> {
    /// Renders and gives the frame, once. After that the stream has ended.
    /// A failed render leaves it open, so that the next request tries again.
    pub fn next_frame(&mut self) -> (r: Result<VideoFrame, SourceError>)
        requires
            old(self).opts().fits(),
        ensures
            final(self).scene() == old(self).scene(),
            final(self).opts() == old(self).opts(),
            final(self).advertised() == old(self).advertised(),
            old(self).ended() ==> (r matches Err(SourceError::Eof)) && *final(self) == *old(self),
            !old(self).ended() ==> {
                let scene = old(self).scene();
                let opts = old(self).opts();
                &&& final(self).ended() == r is Ok
                &&& !(r matches Err(SourceError::Eof))
                &&& match old(self).renderer() {
                    AnyRenderer::Scanline(s) => {
                        &&& final(self).renderer() == old(self).renderer()
                        &&& r matches Ok(frame) && exists|image: RgbaImage| #[trigger]
                            carries(frame, image, 0) && scanline_image(
                                &s.arith,
                                &scene,
                                &opts,
                                image,
                            )
                    },
                    AnyRenderer::Raycast(t) => {
                        &&& final(self).renderer() == old(self).renderer()
                        &&& match r {
                            Ok(frame) => exists|image: RgbaImage| #[trigger]
                                carries(frame, image, 0) && raycast_image(
                                    &t.tests,
                                    &scene,
                                    &opts,
                                    image,
                                ),
                            Err(e) => e matches SourceError::Invalid(cause)
                                && cause is BrokenHierarchy && broken_hierarchy(
                                &t.tests,
                                &scene,
                            ),
                        }
                    },
                    AnyRenderer::Custom(c) => {
                        &&& final(self).renderer() is Custom
                        &&& match r {
                            Ok(frame) => exists|image: RgbaImage| #[trigger]
                                carries(frame, image, 0) && c.renders(&scene, &opts, Ok(image)),
                            Err(e) => e matches SourceError::Invalid(cause) && c.renders(
                                &scene,
                                &opts,
                                Err(cause),
                            ),
                        }
                    },
                }
            },
    {
        if self.emitted {
            return Err(SourceError::Eof);
        }
        match self.renderer.render(&self.scene, &self.opts) {
            Ok(img) => {
                self.emitted = true;
                Ok(rgba_image_to_video_frame(img, 0))
            },
            Err(e) => Err(SourceError::Invalid(e)),
        }
    }
}

} // verus!
