//! Error type of the crate.

use crate::arith::Notation;
use crate::number::Real;
use crate::text::{append_decimal, decimal};
use oxideav_mesh3d::Error as SceneError;
use vstd::prelude::*;
use vstd::string::StringExecFns;

verus! {

/// The error of the 3D-scene crate, carried through unread.
#[verifier::external_type_specification]
#[verifier::external_body]
pub struct ExSceneError(SceneError);

/// Crate-local error.
#[derive(Debug)]
#[non_exhaustive]
pub enum Error {
    /// Reserved for backend selectors whose implementation has not landed
    /// yet. Both live backends construct, so nothing returns it today.
    NotImplemented,
    /// A 3D-scene operation failed before the renderer could touch it:
    /// decode, asset load or scene walk.
    Scene(SceneError),
    /// A registry lookup missed. Holds the name that nothing had
    /// registered.
    BackendNotFound(String),
    /// A malformed render option was caught before any backend touched it.
    InvalidOptions(OptionFault),
    /// The hierarchy that ray tests gave does not index the triangles that it
    /// was built for.
    BrokenHierarchy,
}

impl From<SceneError> for Error {
    fn from(e: SceneError) -> (r: Self) {
        Error::Scene(e)
    }
}

impl vstd::std_specs::convert::FromSpecImpl<SceneError> for Error {
    open spec fn obeys_from_spec() -> bool {
        true
    }

    open spec fn from_spec(e: SceneError) -> Self {
        Error::Scene(e)
    }
}

/// The option that breaks the renderer contract, with the value it has.
#[derive(Debug, Clone, Copy, PartialEq)]
pub enum OptionFault {
    /// `width` is zero.
    Width(u32),
    /// `height` is zero.
    Height(u32),
    /// `fov_deg` is infinite or a NaN.
    FovNotFinite(Real),
    /// `fov_deg` is outside the open interval from 0 to 180.
    FovRange(Real),
    /// `aa` is outside `1..=8`.
    Aa(u32),
    /// `light.intensity` is negative, infinite or a NaN.
    LightIntensity(Real),
    /// `light.azimuth_deg` or `light.elevation_deg` is infinite or a NaN.
    LightAngles(Real, Real),
    /// `camera.azimuth_deg` or `camera.elevation_deg` is infinite or a NaN.
    CameraAngles(Real, Real),
    /// `camera.distance` is not positive, infinite or a NaN.
    CameraDistance(Real),
}

impl OptionFault {
    /// The constraint that the option breaks, in words.
    pub open spec fn broken(self) -> Seq<char> {
        (match self {
            OptionFault::Width(_) => "width must be >= 1",
            OptionFault::Height(_) => "height must be >= 1",
            OptionFault::FovNotFinite(_) => "fov_deg must be finite",
            OptionFault::FovRange(_) => "fov_deg must be in (0, 180)",
            OptionFault::Aa(_) => "aa must be in 1..=8",
            OptionFault::LightIntensity(_) => "light.intensity must be finite and >= 0.0",
            OptionFault::LightAngles(_, _) =>
                "light.azimuth_deg / light.elevation_deg must be finite",
            OptionFault::CameraAngles(_, _) =>
                "camera.azimuth_deg / camera.elevation_deg must be finite",
            OptionFault::CameraDistance(_) => "camera.distance must be finite and > 0",
        })@
    }

    /// The constraint that the option breaks, in words.
    pub fn constraint(&self) -> (text: &'static str)
        ensures
            text@ == self.broken(),
    {
        match *self {
            OptionFault::Width(_) => "width must be >= 1",
            OptionFault::Height(_) => "height must be >= 1",
            OptionFault::FovNotFinite(_) => "fov_deg must be finite",
            OptionFault::FovRange(_) => "fov_deg must be in (0, 180)",
            OptionFault::Aa(_) => "aa must be in 1..=8",
            OptionFault::LightIntensity(_) => "light.intensity must be finite and >= 0.0",
            OptionFault::LightAngles(_, _) =>
                "light.azimuth_deg / light.elevation_deg must be finite",
            OptionFault::CameraAngles(_, _) =>
                "camera.azimuth_deg / camera.elevation_deg must be finite",
            OptionFault::CameraDistance(_) => "camera.distance must be finite and > 0",
        }
    }
}

/// Whether a number can be written as `shown`.
pub open spec fn writes<K: Notation>(k: &K, a: Real, shown: Seq<char>) -> bool {
    exists|t: String| #[trigger] call_ensures(K::written, (k, a), t) && t@ == shown
}

/// Whether a pair of numbers can be written as `shown`.
pub open spec fn writes_pair<K: Notation>(k: &K, a: Real, b: Real, shown: Seq<char>) -> bool {
    exists|s: Seq<char>, t: Seq<char>| #[trigger]
        writes(k, a, s) && #[trigger] writes(k, b, t) && shown == "("@ + s + ", "@ + t + ")"@
}

impl OptionFault {
    /// The constraint that the option breaks, and the value that it got.
    pub open spec fn description(self, got: Seq<char>) -> Seq<char> {
        self.broken() + ", got "@ + got
    }

    /// Whether the value that the option has is written as `got`: an integer
    /// in decimal, a number as `k` writes it, a pair of numbers in brackets.
    pub open spec fn shows<K: Notation>(self, k: &K, got: Seq<char>) -> bool {
        match self {
            OptionFault::Width(n) | OptionFault::Height(n) | OptionFault::Aa(n) => got == decimal(
                n as nat,
            ),
            OptionFault::FovNotFinite(v)
            | OptionFault::FovRange(v)
            | OptionFault::LightIntensity(v)
            | OptionFault::CameraDistance(v) => writes(k, v, got),
            OptionFault::LightAngles(a, b) | OptionFault::CameraAngles(a, b) => writes_pair(
                k,
                a,
                b,
                got,
            ),
        }
    }

    /// Describes the fault, where `got` is how the value is written.
    pub fn describe_with(&self, got: &str) -> (text: String)
        ensures
            text@ == self.description(got@),
    {
        let mut text: String = self.constraint().to_owned();
        text.append(", got ");
        text.append(got);
        text
    }

    /// How the value that the option has is written.
    fn value_text<K: Notation>(&self, k: &K) -> (got: String)
        ensures
            self.shows(k, got@),
    {
        match *self {
            OptionFault::Width(n) | OptionFault::Height(n) | OptionFault::Aa(n) => {
                let mut got: String = String::new();
                append_decimal(&mut got, n);
                assert(got@ =~= decimal(n as nat));
                got
            },
            OptionFault::FovNotFinite(v)
            | OptionFault::FovRange(v)
            | OptionFault::LightIntensity(v)
            | OptionFault::CameraDistance(v) => k.written(v),
            OptionFault::LightAngles(a, b) | OptionFault::CameraAngles(a, b) => {
                let s = k.written(a);
                let t = k.written(b);
                let mut got: String = "(".to_owned();
                got.append(s.as_str());
                got.append(", ");
                got.append(t.as_str());
                got.append(")");
                assert(writes(k, a, s@) && writes(k, b, t@));
                got
            },
        }
    }

    /// Describes the fault: the constraint, and the value that the option has.
    pub fn describe<K: Notation>(&self, k: &K) -> (text: String)
        ensures
            exists|got: Seq<char>| #[trigger]
                self.shows(k, got) && text@ == self.description(got),
    {
        let got = self.value_text(k);
        self.describe_with(got.as_str())
    }
}

/// What the scene crate says of its error: the text that the `Display` impl of
/// `oxideav_mesh3d::Error` writes. Nothing is claimed of it. The text of an
/// I/O error is the operating system's, so it is no function of the error
/// alone.
#[verifier::external_body]
fn scene_text(e: &SceneError) -> (text: String) {
    format!("{e}")
}

impl Error {
    /// The message for people, where `detail` is what the scene crate says of
    /// its own error, or how the value of a faulty option is written.
    pub open spec fn text(self, detail: Seq<char>) -> Seq<char> {
        match self {
            Error::NotImplemented => "renderer backend not implemented in this phase"@,
            Error::Scene(_) => "3D scene error: "@ + detail,
            Error::BackendNotFound(name) => "renderer backend '"@ + name@ + "' not registered"@,
            Error::InvalidOptions(fault) => "invalid render options: "@ + fault.description(
                detail,
            ),
            Error::BrokenHierarchy => "hierarchy does not index its triangles"@,
        }
    }

    /// Whether `detail` is what the scene crate can say of its own error.
    pub closed spec fn told(self, detail: Seq<char>) -> bool {
        match self {
            Error::Scene(e) => exists|t: String| #[trigger]
                call_ensures(scene_text, (&e,), t) && t@ == detail,
            _ => false,
        }
    }

    /// The message for people, where `detail` is what the scene crate says of
    /// its own error, or how the value of a faulty option is written.
    pub fn message_with(&self, detail: &str) -> (text: String)
        ensures
            text@ == self.text(detail@),
    {
        match self {
            Error::NotImplemented => "renderer backend not implemented in this phase".to_owned(),
            Error::Scene(_) => {
                let mut text: String = "3D scene error: ".to_owned();
                text.append(detail);
                text
            },
            Error::BackendNotFound(name) => {
                let mut text: String = "renderer backend '".to_owned();
                text.append(name.as_str());
                text.append("' not registered");
                text
            },
            Error::InvalidOptions(fault) => {
                let mut text: String = "invalid render options: ".to_owned();
                text.append(fault.describe_with(detail).as_str());
                text
            },
            Error::BrokenHierarchy => "hierarchy does not index its triangles".to_owned(),
        }
    }

    /// The message for people. It ends with what the scene crate says, if the
    /// error is that crate's, and holds the value of a faulty option.
    pub fn message<K: Notation>(&self, k: &K) -> (text: String)
        ensures
            match *self {
                Error::Scene(_) => exists|detail: Seq<char>| #[trigger]
                    self.told(detail) && text@ == self.text(detail),
                Error::InvalidOptions(fault) => exists|got: Seq<char>| #[trigger]
                    fault.shows(k, got) && text@ == self.text(got),
                _ => text@ == self.text(seq![]),
            },
    {
        match self {
            Error::Scene(e) => {
                let detail = scene_text(e);
                assert(self.told(detail@));
                self.message_with(detail.as_str())
            },
            Error::InvalidOptions(fault) => {
                let got = fault.value_text(k);
                self.message_with(got.as_str())
            },
            _ => self.message_with(""),
        }
    }
}

} // verus!
