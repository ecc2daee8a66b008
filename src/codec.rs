//! Decoding the source images and re-encoding them for the document.
use vstd::prelude::*;
use crate::document::PageImage;
use crate::error::AppError;
use crate::decoded::{decode_image, decoded_size, encode_jpeg, image_dimensions, jpeg_of, DecodedImage, ImageKind};
use crate::sort_key::{extension_of, find_last_dot, is_image_name, lower_equals, lower_seq, supported_extensions};

verus! {

/// JPEG quality of the re-encoded page images.
pub const JPEG_QUALITY: u8 = 80;

/// The format that a file name's extension names, in any ASCII case.
pub open spec fn kind_of_name(name: Seq<u8>) -> Option<ImageKind> {
    match extension_of(name) {
        Some(e) => if lower_seq(e) == seq![106u8, 112u8, 103u8] || lower_seq(e) == seq![
            106u8,
            112u8,
            101u8,
            103u8,
        ] {
            Some(ImageKind::Jpeg)
        } else if lower_seq(e) == seq![112u8, 110u8, 103u8] {
            Some(ImageKind::Png)
        } else if lower_seq(e) == seq![119u8, 101u8, 98u8, 112u8] {
            Some(ImageKind::WebP)
        } else {
            None
        },
        None => None,
    }
}

/// A name has a supported extension exactly when its extension names a
/// format: the supported extensions are the names of the formats.
pub proof fn lemma_image_name_has_kind(name: Seq<u8>)
    ensures
        is_image_name(name) <==> kind_of_name(name) is Some,
{
    if is_image_name(name) {
        let e = extension_of(name)->Some_0;
        let i = choose|i: int| 0 <= i < supported_extensions().len() && supported_extensions()[i] == lower_seq(e);
        assert(0 <= i < 4);
    }
    if kind_of_name(name) is Some {
        let low = lower_seq(extension_of(name)->Some_0);
        let exts = supported_extensions();
        if low == exts[0] {
        } else if low == exts[1] {
        } else if low == exts[2] {
        } else {
            assert(low == exts[3]);
        }
    }
}

/// The format that `name`'s extension names, if any.
pub fn image_kind(name: &[u8]) -> (r: Option<ImageKind>)
    ensures
        r == kind_of_name(name@),
{
    let n = name.len();
    let start = match find_last_dot(name) {
        Some(k) => {
            if k == 0 {
                return None;
            }
            assert(k < n);
            k + 1
        },
        None => {
            return None;
        },
    };
    assert(extension_of(name@) == Some(name@.subrange(start as int, name@.len() as int)));
    if lower_equals(name, start, &vec![106u8, 112u8, 103u8]) || lower_equals(name, start, &vec![106u8, 112u8, 101u8, 103u8]) {
        Some(ImageKind::Jpeg)
    } else if lower_equals(name, start, &vec![112u8, 110u8, 103u8]) {
        Some(ImageKind::Png)
    } else if lower_equals(name, start, &vec![119u8, 101u8, 98u8, 112u8]) {
        Some(ImageKind::WebP)
    } else {
        None
    }
}

/// Whether `bytes` of format `kind` decode to an image with a positive
/// width and height.
pub open spec fn decodes(bytes: Seq<u8>, kind: ImageKind) -> bool {
    &&& decoded_size(bytes, kind) is Some
    &&& decoded_size(bytes, kind)->Some_0.0 >= 1
    &&& decoded_size(bytes, kind)->Some_0.1 >= 1
}

/// Whether `bytes` of format `kind` decode, and re-encode at `JPEG_QUALITY`.
pub open spec fn converts(bytes: Seq<u8>, kind: ImageKind) -> bool {
    decodes(bytes, kind) && jpeg_of(bytes, kind, JPEG_QUALITY) is Some
}

/// Decodes one source image of format `kind`. Bytes that the codec cannot
/// read give `AppError::Image`; an image of zero width or height gives
/// `AppError::EmptyImage`.
pub fn process_image(bytes: &[u8], kind: ImageKind) -> (r: Result<DecodedImage, AppError>)
    ensures
        r is Ok <==> decodes(bytes@, kind),
        r is Ok ==> r->Ok_0.source() == bytes@ && r->Ok_0.kind() == kind,
        decoded_size(bytes@, kind) is None ==> r is Err && r->Err_0 is Image,
        decoded_size(bytes@, kind) is Some && !decodes(bytes@, kind) ==> r is Err
            && r->Err_0 is EmptyImage,
{
    let img = match decode_image(bytes, kind) {
        Ok(img) => img,
        Err(e) => {
            return Err(AppError::Image(e));
        },
    };
    let (width, height) = image_dimensions(&img);
    if width == 0 || height == 0 {
        return Err(AppError::EmptyImage);
    }
    Ok(img)
}

/// The decoded image re-encoded as a JPEG stream at `JPEG_QUALITY`; an
/// encoder failure is an `AppError::Image`.
pub fn image_to_jpeg_bytes(img: &DecodedImage) -> (r: Result<Vec<u8>, AppError>)
    ensures
        r is Ok <==> jpeg_of(img.source(), img.kind(), JPEG_QUALITY) is Some,
        r is Ok ==> r->Ok_0@ == jpeg_of(img.source(), img.kind(), JPEG_QUALITY)->Some_0,
        r is Err ==> r->Err_0 is Image,
{
    match encode_jpeg(img, JPEG_QUALITY) {
        Ok(jpeg) => Ok(jpeg),
        Err(e) => Err(AppError::Image(e)),
    }
}

/// The page of one source image of format `kind`: decoded, checked for a
/// positive size, and re-encoded, keeping its pixel size.
pub fn load_page(bytes: &[u8], kind: ImageKind) -> (r: Result<PageImage, AppError>)
    ensures
        r is Ok <==> converts(bytes@, kind),
        r is Err ==> r->Err_0 is Image || r->Err_0 is EmptyImage,
        r is Ok ==> r->Ok_0.width == decoded_size(bytes@, kind)->Some_0.0
            && r->Ok_0.height == decoded_size(bytes@, kind)->Some_0.1
            && r->Ok_0.jpeg@ == jpeg_of(bytes@, kind, JPEG_QUALITY)->Some_0,
{
    let img = process_image(bytes, kind)?;
    let (width, height) = image_dimensions(&img);
    let jpeg = image_to_jpeg_bytes(&img)?;
    Ok(PageImage { width, height, jpeg })
}

} // verus!
