//! Decoded source images, and the codec calls on them.
use vstd::prelude::*;
use image::{DynamicImage, GenericImageView, ImageError, ImageFormat, ImageOutputFormat};
use std::io::Cursor;

verus! {

#[verifier::external_type_specification]
#[verifier::external_body]
pub struct ExDynamicImage(DynamicImage);

#[verifier::external_type_specification]
#[verifier::external_body]
pub struct ExImageError(ImageError);

/// The formats of the images that are taken in.
#[derive(Debug, Clone, Copy, PartialEq, Eq, Structural)]
pub enum ImageKind {
    Jpeg,
    Png,
    WebP,
}

/// The pixel size of the image that `bytes` decode to as format `kind`; none
/// when the codec cannot decode them.
pub uninterp spec fn decoded_size(bytes: Seq<u8>, kind: ImageKind) -> Option<(u32, u32)>;

/// The JPEG stream at `quality` of the image that `bytes` decode to as
/// format `kind`; none when the encoder fails on it.
pub uninterp spec fn jpeg_of(bytes: Seq<u8>, kind: ImageKind, quality: u8) -> Option<Seq<u8>>;

/// An image decoded from `source()` as format `kind()`.
pub struct DecodedImage {
    image: DynamicImage,
    source: Ghost<Seq<u8>>,
    kind: Ghost<ImageKind>,
}

impl DecodedImage {
    /// The bytes the image was decoded from.
    pub closed spec fn source(&self) -> Seq<u8> {
        self.source@
    }

    /// The format the image was decoded as.
    pub closed spec fn kind(&self) -> ImageKind {
        self.kind@
    }
}

/// Relies on `image::load_from_memory_with_format`: decodes `bytes` as format
/// `kind`; it fails exactly when no image can be read from them.
#[verifier::external_body]
pub fn decode_image(bytes: &[u8], kind: ImageKind) -> (r: Result<DecodedImage, ImageError>)
    ensures
        r is Ok <==> decoded_size(bytes@, kind) is Some,
        r is Ok ==> r->Ok_0.source() == bytes@ && r->Ok_0.kind() == kind,
{
    let format = match kind {
        ImageKind::Jpeg => ImageFormat::Jpeg,
        ImageKind::Png => ImageFormat::Png,
        ImageKind::WebP => ImageFormat::WebP,
    };
    let image = image::load_from_memory_with_format(bytes, format)?;
    Ok(DecodedImage { image, source: Ghost(bytes@), kind: Ghost(kind) })
}

/// Relies on `GenericImageView::dimensions` of `DynamicImage`: the width and
/// height in pixels of the decoded image.
#[verifier::external_body]
pub fn image_dimensions(img: &DecodedImage) -> (r: (u32, u32))
    requires
        decoded_size(img.source(), img.kind()) is Some,
    ensures
        r == decoded_size(img.source(), img.kind())->Some_0,
{
    img.image.dimensions()
}

/// Relies on `DynamicImage::write_to` with `ImageOutputFormat::Jpeg`: the
/// image encoded as a JPEG stream at `quality`.
#[verifier::external_body]
pub fn encode_jpeg(img: &DecodedImage, quality: u8) -> (r: Result<Vec<u8>, ImageError>)
    ensures
        r is Ok <==> jpeg_of(img.source(), img.kind(), quality) is Some,
        r is Ok ==> r->Ok_0@ == jpeg_of(img.source(), img.kind(), quality)->Some_0,
{
    let mut buffer: Vec<u8> = Vec::new();
    img.image.write_to(&mut Cursor::new(&mut buffer), ImageOutputFormat::Jpeg(quality))?;
    Ok(buffer)
}

} // verus!
