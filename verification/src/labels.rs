//! Closed vocabularies and the text each of their members is written as.

use vstd::prelude::*;

verus! {

/// How a lookup table is sampled between its entries.
#[derive(Debug, Copy, Clone, PartialEq, Eq, Structural)]
pub enum Interpolation {
    Nearest,
    Linear,
    Best,
    /// For three-dimensional tables only.
    Tetrahedral,
}

impl Interpolation {
    /// The keyword of each interpolation mode.
    pub open spec fn keyword(self) -> Seq<char> {
        match self {
            Interpolation::Nearest => "nearest"@,
            Interpolation::Linear => "linear"@,
            Interpolation::Best => "best"@,
            Interpolation::Tetrahedral => "tetrahedral"@,
        }
    }

    /// The keyword as text.
    pub fn as_str(&self) -> (s: &'static str)
        ensures
            s@ == self.keyword(),
    {
        match *self {
            Interpolation::Nearest => "nearest",
            Interpolation::Linear => "linear",
            Interpolation::Best => "best",
            Interpolation::Tetrahedral => "tetrahedral",
        }
    }
}

/// What kind of values a colour space encodes.
#[derive(Debug, Copy, Clone, PartialEq, Eq, Structural)]
pub enum Encoding {
    SceneLinear,
    DisplayLinear,
    Log,
    SDRVideo,
    HDRVideo,
    Data,
}

impl Encoding {
    /// The keyword of each encoding.
    pub open spec fn keyword(self) -> Seq<char> {
        match self {
            Encoding::SceneLinear => "scene-linear"@,
            Encoding::DisplayLinear => "display-linear"@,
            Encoding::Log => "log"@,
            Encoding::SDRVideo => "sdr-video"@,
            Encoding::HDRVideo => "hdr-video"@,
            Encoding::Data => "data"@,
        }
    }

    /// The keyword as text.
    pub fn as_str(&self) -> (s: &'static str)
        ensures
            s@ == self.keyword(),
    {
        match *self {
            Encoding::SceneLinear => "scene-linear",
            Encoding::DisplayLinear => "display-linear",
            Encoding::Log => "log",
            Encoding::SDRVideo => "sdr-video",
            Encoding::HDRVideo => "hdr-video",
            Encoding::Data => "data",
        }
    }
}

/// The storage format of one channel value.
#[derive(Debug, Copy, Clone, PartialEq, Eq, Structural)]
pub enum BitDepth {
    UI8,
    UI10,
    UI12,
    UI14,
    UI16,
    UI32,
    F16,
    F32,
}

impl BitDepth {
    /// The keyword of each bit depth: the width, then `ui` for unsigned
    /// integers and `f` for binary fractions with an exponent.
    pub open spec fn keyword(self) -> Seq<char> {
        match self {
            BitDepth::UI8 => "8ui"@,
            BitDepth::UI10 => "10ui"@,
            BitDepth::UI12 => "12ui"@,
            BitDepth::UI14 => "14ui"@,
            BitDepth::UI16 => "16ui"@,
            BitDepth::UI32 => "32ui"@,
            BitDepth::F16 => "16f"@,
            BitDepth::F32 => "32f"@,
        }
    }

    /// The keyword as text.
    pub fn as_str(&self) -> (s: &'static str)
        ensures
            s@ == self.keyword(),
    {
        match *self {
            BitDepth::UI8 => "8ui",
            BitDepth::UI10 => "10ui",
            BitDepth::UI12 => "12ui",
            BitDepth::UI14 => "14ui",
            BitDepth::UI16 => "16ui",
            BitDepth::UI32 => "32ui",
            BitDepth::F16 => "16f",
            BitDepth::F32 => "32f",
        }
    }
}

/// How a range of values is spread over the entries of a table.
#[derive(Debug, Copy, Clone, PartialEq, Eq, Structural)]
pub enum Allocation {
    Uniform,
    Log2,
}

impl Allocation {
    /// The keyword of each allocation.
    pub open spec fn keyword(self) -> Seq<char> {
        match self {
            Allocation::Uniform => "uniform"@,
            Allocation::Log2 => "lg2"@,
        }
    }

    /// The keyword as text.
    pub fn as_str(&self) -> (s: &'static str)
        ensures
            s@ == self.keyword(),
    {
        match *self {
            Allocation::Uniform => "uniform",
            Allocation::Log2 => "lg2",
        }
    }
}

/// Which graph a preview shows.
#[derive(Debug, Copy, Clone, PartialEq, Eq, Structural)]
pub enum PreviewMode {
    ToLinear,
    FromLinear,
    ExposureMappings,
}

/// Which list of images is shown.
#[derive(Debug, Copy, Clone, PartialEq, Eq, Structural)]
pub enum ImageViewID {
    Bracketed,
    LensCap,
}

impl ImageViewID {
    /// The title of each list.
    pub open spec fn title(self) -> Seq<char> {
        match self {
            ImageViewID::Bracketed => "Bracketed Exposures"@,
            ImageViewID::LensCap => "Lens Cap Images"@,
        }
    }

    /// The title as text.
    pub fn ui_text(&self) -> (s: &'static str)
        ensures
            s@ == self.title(),
    {
        match *self {
            ImageViewID::Bracketed => "Bracketed Exposures",
            ImageViewID::LensCap => "Lens Cap Images",
        }
    }
}

/// The transfer function that a table is made for: the one estimated
/// from exposures, none at all, or one of the published encodings.
#[allow(non_camel_case_types)]
#[derive(Debug, Copy, Clone, PartialEq, Eq, Structural)]
pub enum TransferFunction {
    Estimated,
    Linear,
    CanonLog1,
    CanonLog2,
    CanonLog3,
    DJIDlog,
    FujifilmFlog,
    HLG,
    NikonNlog,
    PanasonicVlog,
    PQ,
    PQ_108,
    PQ_1000,
    Rec709,
    SonySlog1,
    SonySlog2,
    SonySlog3,
    sRGB,
}

impl TransferFunction {
    /// The name that each transfer function is shown under.
    pub open spec fn title(self) -> Seq<char> {
        match self {
            TransferFunction::Estimated => "Estimated"@,
            TransferFunction::Linear => "Linear"@,
            TransferFunction::CanonLog1 => "Canon Log"@,
            TransferFunction::CanonLog2 => "Canon Log 2"@,
            TransferFunction::CanonLog3 => "Canon Log 3"@,
            TransferFunction::DJIDlog => "DJI D-Log"@,
            TransferFunction::FujifilmFlog => "Fujifilm F-Log"@,
            TransferFunction::HLG => "Rec.2100 - HLG"@,
            TransferFunction::NikonNlog => "Nikon N-Log"@,
            TransferFunction::PanasonicVlog => "Panasonic V-Log"@,
            TransferFunction::PQ => "Rec.2100 - PQ"@,
            TransferFunction::PQ_108 => "Rec.2100 - PQ - 108 nits"@,
            TransferFunction::PQ_1000 => "Rec.2100 - PQ - 1000 nits"@,
            TransferFunction::Rec709 => "Rec.709"@,
            TransferFunction::SonySlog1 => "Sony S-Log"@,
            TransferFunction::SonySlog2 => "Sony S-Log2"@,
            TransferFunction::SonySlog3 => "Sony S-Log3"@,
            TransferFunction::sRGB => "sRGB"@,
        }
    }

    /// The title as text.
    pub fn ui_text(&self) -> (s: &'static str)
        ensures
            s@ == self.title(),
    {
        match *self {
            TransferFunction::Estimated => "Estimated",
            TransferFunction::Linear => "Linear",
            TransferFunction::CanonLog1 => "Canon Log",
            TransferFunction::CanonLog2 => "Canon Log 2",
            TransferFunction::CanonLog3 => "Canon Log 3",
            TransferFunction::DJIDlog => "DJI D-Log",
            TransferFunction::FujifilmFlog => "Fujifilm F-Log",
            TransferFunction::HLG => "Rec.2100 - HLG",
            TransferFunction::NikonNlog => "Nikon N-Log",
            TransferFunction::PanasonicVlog => "Panasonic V-Log",
            TransferFunction::PQ => "Rec.2100 - PQ",
            TransferFunction::PQ_108 => "Rec.2100 - PQ - 108 nits",
            TransferFunction::PQ_1000 => "Rec.2100 - PQ - 1000 nits",
            TransferFunction::Rec709 => "Rec.709",
            TransferFunction::SonySlog1 => "Sony S-Log",
            TransferFunction::SonySlog2 => "Sony S-Log2",
            TransferFunction::SonySlog3 => "Sony S-Log3",
            TransferFunction::sRGB => "sRGB",
        }
    }
}

} // verus!
