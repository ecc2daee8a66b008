//! Errors of a conversion.
use vstd::prelude::*;
use image::ImageError;

verus! {

/// A limit of the output format that a conversion ran into.
#[derive(Debug, Clone, Copy, PartialEq, Eq, Structural)]
pub enum PdfLimit {
    /// The page at this position has an image dimension of 0 or above
    /// `i32::MAX`, or a compressed image stream longer than `i32::MAX` bytes.
    PageSize(usize),
    /// This many pages would need object ids beyond `i32::MAX`.
    TooManyPages(usize),
}

/// Why a conversion failed.
#[derive(Debug)]
pub enum AppError {
    /// The image codec could not decode or re-encode an image.
    Image(ImageError),
    /// An image decoded to a zero width or height.
    EmptyImage,
    /// No supported image file was found.
    NoImagesFound,
    /// The document cannot be written in the output format.
    PdfCreation(PdfLimit),
}

} // verus!
