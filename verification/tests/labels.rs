use sensor_analysis::labels::{
    Allocation, BitDepth, Encoding, ImageViewID, Interpolation, PreviewMode, TransferFunction,
};

#[test]
fn interpolation_keywords() {
    assert_eq!(Interpolation::Nearest.as_str(), "nearest");
    assert_eq!(Interpolation::Linear.as_str(), "linear");
    assert_eq!(Interpolation::Best.as_str(), "best");
    assert_eq!(Interpolation::Tetrahedral.as_str(), "tetrahedral");
}

#[test]
fn encoding_keywords() {
    assert_eq!(Encoding::SceneLinear.as_str(), "scene-linear");
    assert_eq!(Encoding::DisplayLinear.as_str(), "display-linear");
    assert_eq!(Encoding::Log.as_str(), "log");
    assert_eq!(Encoding::SDRVideo.as_str(), "sdr-video");
    assert_eq!(Encoding::HDRVideo.as_str(), "hdr-video");
    assert_eq!(Encoding::Data.as_str(), "data");
}

#[test]
fn bit_depth_keywords() {
    assert_eq!(BitDepth::UI8.as_str(), "8ui");
    assert_eq!(BitDepth::UI10.as_str(), "10ui");
    assert_eq!(BitDepth::UI12.as_str(), "12ui");
    assert_eq!(BitDepth::UI14.as_str(), "14ui");
    assert_eq!(BitDepth::UI16.as_str(), "16ui");
    assert_eq!(BitDepth::UI32.as_str(), "32ui");
    assert_eq!(BitDepth::F16.as_str(), "16f");
    assert_eq!(BitDepth::F32.as_str(), "32f");
}

#[test]
fn allocation_keywords() {
    assert_eq!(Allocation::Uniform.as_str(), "uniform");
    assert_eq!(Allocation::Log2.as_str(), "lg2");
}

#[test]
fn image_view_titles() {
    assert_eq!(ImageViewID::Bracketed.ui_text(), "Bracketed Exposures");
    assert_eq!(ImageViewID::LensCap.ui_text(), "Lens Cap Images");
}

#[test]
fn transfer_function_titles() {
    let expected = [
        (TransferFunction::Estimated, "Estimated"),
        (TransferFunction::Linear, "Linear"),
        (TransferFunction::CanonLog1, "Canon Log"),
        (TransferFunction::CanonLog2, "Canon Log 2"),
        (TransferFunction::CanonLog3, "Canon Log 3"),
        (TransferFunction::DJIDlog, "DJI D-Log"),
        (TransferFunction::FujifilmFlog, "Fujifilm F-Log"),
        (TransferFunction::HLG, "Rec.2100 - HLG"),
        (TransferFunction::NikonNlog, "Nikon N-Log"),
        (TransferFunction::PanasonicVlog, "Panasonic V-Log"),
        (TransferFunction::PQ, "Rec.2100 - PQ"),
        (TransferFunction::PQ_108, "Rec.2100 - PQ - 108 nits"),
        (TransferFunction::PQ_1000, "Rec.2100 - PQ - 1000 nits"),
        (TransferFunction::Rec709, "Rec.709"),
        (TransferFunction::SonySlog1, "Sony S-Log"),
        (TransferFunction::SonySlog2, "Sony S-Log2"),
        (TransferFunction::SonySlog3, "Sony S-Log3"),
        (TransferFunction::sRGB, "sRGB"),
    ];
    for (function, title) in expected.iter() {
        assert_eq!(function.ui_text(), *title);
    }
}

#[test]
fn preview_modes_differ() {
    assert_ne!(PreviewMode::ToLinear, PreviewMode::FromLinear);
    assert_ne!(PreviewMode::FromLinear, PreviewMode::ExposureMappings);
    assert_eq!(PreviewMode::ToLinear, PreviewMode::ToLinear);
}
