//! Why a picture cannot be processed.
use crate::images;
use crate::text;
use crate::text::numbered;
use vstd::prelude::*;
use vstd::string::*;

verus! {

/// The largest resolution for which the exact matching is offered.
pub const MAX_OPTIMAL_SIDELEN: u32 = 32;

#[derive(Debug)]
pub enum ProcessError {
    /// A picture without width or height.
    ZeroDimensions,
    /// More pixels than the machine can count.
    DimensionsTooLarge,
    /// More bytes without opacity than the machine can count.
    RgbTooLarge,
    /// More bytes with opacity than the machine can count.
    RgbaTooLarge,
    /// An amount of bytes that fits neither form.
    ByteLength { rgb: usize, rgba: usize, got: usize },
    /// A resolution outside the supported range.
    Resolution(u32),
    /// A resolution beyond what the exact matching supports.
    OptimalResolution(u32),
    /// A crop window that does not lie inside its picture.
    CropOutside,
    /// An encoded picture that cannot be decoded.
    Decode(image::ImageError),
}

impl ProcessError {
    /// The words for the error. Those for a decoding error are the decoder's own.
    pub fn message(&self) -> (words: String)
        ensures
            match self {
                ProcessError::ZeroDimensions => words@ == "image dimensions must be non-zero"@,
                ProcessError::DimensionsTooLarge => words@ == "image dimensions are too large"@,
                ProcessError::RgbTooLarge => words@ == "RGB image is too large"@,
                ProcessError::RgbaTooLarge => words@ == "RGBA image is too large"@,
                ProcessError::ByteLength { rgb, rgba, got } => words@
                    == "invalid image byte length: expected "@ + text::decimal(*rgb as nat)
                    + " RGB or "@ + text::decimal(*rgba as nat) + " RGBA bytes, got "@
                    + text::decimal(*got as nat),
                ProcessError::Resolution(sidelen) => words@
                    == "resolution must be between 1 and 256, got "@ + text::decimal(
                    *sidelen as nat,
                ),
                ProcessError::OptimalResolution(sidelen) => words@
                    == "High quality supports resolutions up to "@ + text::decimal(
                    MAX_OPTIMAL_SIDELEN as nat,
                ) + "px; choose Fast for "@ + text::decimal(*sidelen as nat) + "px"@,
                ProcessError::CropOutside => words@ == "crop window lies outside the image"@,
                ProcessError::Decode(_) => true,
            },
    {
        match self {
            ProcessError::ZeroDimensions => "image dimensions must be non-zero".to_owned(),
            ProcessError::DimensionsTooLarge => "image dimensions are too large".to_owned(),
            ProcessError::RgbTooLarge => "RGB image is too large".to_owned(),
            ProcessError::RgbaTooLarge => "RGBA image is too large".to_owned(),
            ProcessError::ByteLength { rgb, rgba, got } => {
                let mut words = numbered(
                    "invalid image byte length: expected ",
                    *rgb,
                    " RGB or ",
                );
                words.append(text::decimal_text(*rgba).as_str());
                words.append(" RGBA bytes, got ");
                words.append(text::decimal_text(*got).as_str());
                words
            },
            ProcessError::Resolution(sidelen) => {
                let mut words = "resolution must be between 1 and 256, got ".to_owned();
                words.append(text::decimal_text(*sidelen as usize).as_str());
                words
            },
            ProcessError::OptimalResolution(sidelen) => {
                let mut words = numbered(
                    "High quality supports resolutions up to ",
                    MAX_OPTIMAL_SIDELEN as usize,
                    "px; choose Fast for ",
                );
                words.append(text::decimal_text(*sidelen as usize).as_str());
                words.append("px");
                words
            },
            ProcessError::CropOutside => "crop window lies outside the image".to_owned(),
            ProcessError::Decode(error) => images::image_error_text(error),
        }
    }
}

} // verus!
