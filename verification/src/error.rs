use vstd::prelude::*;

verus! {

/// The error type of the image codec crate, held opaquely so that decode
/// failures can be surfaced verbatim.
#[verifier::external_type_specification]
#[verifier::external_body]
pub struct ExImageError(image::ImageError);

/// Why a scale factor was rejected by validation.
#[derive(Clone, Copy, Debug, PartialEq, Eq, Structural)]
pub enum ScaleIssue {
    /// The scale is at least as large as the image width or height.
    LargerThanImage,
    /// The scale is 0 or 1, which performs no meaningful averaging.
    TooSmall,
    /// The scale exceeds half a dimension or does not divide both dimensions
    /// evenly, which would produce visually uneven block boundaries.
    Uneven,
}

impl ScaleIssue {
    /// The human-readable message for this rejection, as the command surface
    /// prints it.
    pub fn message(&self) -> (r: String)
        ensures
            r@ == match *self {
                ScaleIssue::LargerThanImage => "\nScale is bigger that the image"@,
                ScaleIssue::TooSmall => "\nScale must be bigger than 1 pixel"@,
                ScaleIssue::Uneven => "\nScale too big for this image, result will be ugly.
                Best results will be in range: 3 - width/3 or 3 - height/3.
                Additionally, scale should be so that width/height are divisible by scale evenly."@,
            },
    {
        match *self {
            ScaleIssue::LargerThanImage => "\nScale is bigger that the image".to_owned(),
            ScaleIssue::TooSmall => "\nScale must be bigger than 1 pixel".to_owned(),
            ScaleIssue::Uneven => "\nScale too big for this image, result will be ugly.
                Best results will be in range: 3 - width/3 or 3 - height/3.
                Additionally, scale should be so that width/height are divisible by scale evenly.".to_owned(),
        }
    }
}

/// A failure of the whole pixelation run.
#[derive(Debug)]
pub enum RunError {
    /// The input bytes are not a recognized or parsable image.
    Decode(image::ImageError),
    /// The scale factor fails validation against the image dimensions.
    InvalidScale(ScaleIssue),
}

} // verus!
