//! The calls into `pdf_writer` that assemble the document.
//!
//! A `Pdf` writer records, for each indirect object written into it, the
//! object's id (`Chunk::indirect` pushes it onto the chunk's offset list).
//! `written_objects` names the objects written, in order, as plain values;
//! each call below states the one object it adds.
use vstd::prelude::*;
use pdf_writer::{Filter, Finish, Name, Pdf, Ref};

verus! {

#[verifier::external_type_specification]
#[verifier::external_body]
pub struct ExPdf(Pdf);

/// An indirect object as written into a PDF.
pub enum PdfObject {
    /// An image XObject: `/Filter /DCTDecode`, `/ColorSpace /DeviceRGB`, the
    /// given `/Width`, `/Height` and `/BitsPerComponent`, and `data` as its
    /// stream.
    JpegImage { id: i32, width: i32, height: i32, bits: i32, data: Seq<u8> },
    /// A plain stream holding `data`.
    Stream { id: i32, data: Seq<u8> },
    /// A page: its `/MediaBox`, its `/Contents`, and one XObject resource
    /// named `image_name` that refers to `image`.
    Page { id: i32, media_box: Seq<i32>, contents: i32, image_name: Seq<u8>, image: i32 },
    /// The page tree: its `/Kids` and `/Count`.
    PageTree { id: i32, kids: Seq<i32>, count: i32 },
    /// The catalog, pointing at the page tree `pages`.
    Catalog { id: i32, pages: i32 },
}

impl PdfObject {
    pub open spec fn id(self) -> i32 {
        match self {
            PdfObject::JpegImage { id, .. } => id,
            PdfObject::Stream { id, .. } => id,
            PdfObject::Page { id, .. } => id,
            PdfObject::PageTree { id, .. } => id,
            PdfObject::Catalog { id, .. } => id,
        }
    }
}

/// The indirect objects written into `pdf`, in the order written.
pub uninterp spec fn written_objects(pdf: Pdf) -> Seq<PdfObject>;

/// The bytes that a writer holding `objects` finishes to.
pub uninterp spec fn pdf_bytes(objects: Seq<PdfObject>) -> Seq<u8>;

/// The ids of the objects written into `pdf`, in the order written.
pub open spec fn written_ids(pdf: Pdf) -> Seq<i32> {
    written_objects(pdf).map_values(|o: PdfObject| o.id())
}

/// Relies on `Pdf::new`: a new writer holds no indirect object.
#[verifier::external_body]
pub(crate) fn new_pdf() -> (r: Pdf)
    ensures
        written_objects(r) == Seq::<PdfObject>::empty(),
{
    Pdf::new()
}

/// Relies on `Chunk::image_xobject` and the `ImageXObject` setters: writes
/// object `id` as a DCT-encoded, DeviceRGB image of the given size.
/// `Ref::new` panics unless the id is positive; `Stream::start` panics on
/// data longer than `i32::MAX`.
#[verifier::external_body]
pub(crate) fn write_jpeg_image(
    pdf: &mut Pdf,
    id: i32,
    jpeg: &[u8],
    width: i32,
    height: i32,
    bits: i32,
)
    requires
        id > 0,
        jpeg@.len() <= i32::MAX,
    ensures
        written_objects(*final(pdf)) == written_objects(*old(pdf)).push(
            PdfObject::JpegImage { id, width, height, bits, data: jpeg@ },
        ),
{
    let mut image = pdf.image_xobject(Ref::new(id), jpeg);
    image.filter(Filter::DctDecode);
    image.width(width);
    image.height(height);
    image.color_space().device_rgb();
    image.bits_per_component(bits);
    image.finish();
}

/// Relies on `Chunk::stream`: writes object `id` as a stream holding `data`.
/// It panics on the same inputs as `write_jpeg_image`.
#[verifier::external_body]
pub(crate) fn write_stream(pdf: &mut Pdf, id: i32, data: &[u8])
    requires
        id > 0,
        data@.len() <= i32::MAX,
    ensures
        written_objects(*final(pdf)) == written_objects(*old(pdf)).push(
            PdfObject::Stream { id, data: data@ },
        ),
{
    pdf.stream(Ref::new(id), data);
}

/// Relies on `Chunk::page` and the `Page` writer: writes object `id` as a
/// page with the given media box, content stream, and one image resource
/// under `image_name`. `Ref::new` panics unless each id is positive.
#[verifier::external_body]
pub(crate) fn write_page(
    pdf: &mut Pdf,
    id: i32,
    media_box: [i32; 4],
    contents_id: i32,
    image_name: &[u8],
    image_id: i32,
)
    requires
        id > 0,
        contents_id > 0,
        image_id > 0,
    ensures
        written_objects(*final(pdf)) == written_objects(*old(pdf)).push(
            PdfObject::Page {
                id,
                media_box: media_box@,
                contents: contents_id,
                image_name: image_name@,
                image: image_id,
            },
        ),
{
    let mut page = pdf.page(Ref::new(id));
    page.insert(Name(b"MediaBox")).array().items(media_box);
    page.contents(Ref::new(contents_id));
    page.resources().x_objects().pair(Name(image_name), Ref::new(image_id));
    page.finish();
}

/// Relies on `Chunk::pages` and the `Pages` writer: writes object `id` as the
/// page tree with the given kids and count. `Ref::new` panics unless each id
/// is positive.
#[verifier::external_body]
pub(crate) fn write_page_tree(pdf: &mut Pdf, id: i32, kids: &Vec<i32>, count: i32)
    requires
        id > 0,
        forall|k: int| 0 <= k < kids@.len() ==> kids@[k] > 0,
    ensures
        written_objects(*final(pdf)) == written_objects(*old(pdf)).push(
            PdfObject::PageTree { id, kids: kids@, count },
        ),
{
    let mut tree = pdf.pages(Ref::new(id));
    tree.kids(kids.iter().map(|&k| Ref::new(k)));
    tree.count(count);
    tree.finish();
}

/// Relies on `Pdf::catalog`: writes object `id` as the document catalog,
/// pointing at the page tree `pages_id`.
#[verifier::external_body]
pub(crate) fn write_catalog(pdf: &mut Pdf, id: i32, pages_id: i32)
    requires
        id > 0,
        pages_id > 0,
    ensures
        written_objects(*final(pdf)) == written_objects(*old(pdf)).push(
            PdfObject::Catalog { id, pages: pages_id },
        ),
{
    let mut catalog = pdf.catalog(Ref::new(id));
    catalog.pages(Ref::new(pages_id));
    catalog.finish();
}

/// Relies on `Pdf::finish`: writes the cross-reference table and trailer
/// and hands back the bytes, which depend on the objects written alone. It panics when an id was written twice, and its
/// table size `1 + largest id` must fit in an `i32`.
#[verifier::external_body]
pub(crate) fn finish_pdf(pdf: Pdf) -> (r: Vec<u8>)
    requires
        written_ids(pdf).no_duplicates(),
        forall|k: int| 0 <= k < written_ids(pdf).len() ==> written_ids(pdf)[k] < i32::MAX,
    ensures
        r@ == pdf_bytes(written_objects(pdf)),
{
    pdf.finish()
}

} // verus!
