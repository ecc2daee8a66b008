//! The converter: from the entries of a directory to the bytes of one PDF.
use vstd::prelude::*;
use crate::codec::{converts, image_kind, kind_of_name, lemma_image_name_has_kind, load_page, JPEG_QUALITY};
use crate::decoded::{decoded_size, jpeg_of, ImageKind};
use crate::document::{build_document, document_fits, document_objects, pages_view, shapes_fit, PageImage, PageShape};
use crate::pdf_writer_api::pdf_bytes;
use crate::error::AppError;
use crate::sequencer::{is_page_order, lemma_page_order_empty, lemma_page_order_unique, order_entries, selected, ScanEntry};
use crate::sort_key::{is_image_file_name, is_image_name, supported_extensions};

verus! {

/// Converts the image files of a directory into one PDF document.
pub struct ImageToPdfConverter {
    /// The supported image extensions, in lower case.
    supported_extensions: Vec<Vec<u8>>,
}

impl ImageToPdfConverter {
    /// The converter holds the supported extensions.
    pub closed spec fn wf(&self) -> bool {
        self.supported_extensions@.map_values(|v: Vec<u8>| v@) == supported_extensions()
    }

    /// A converter for `jpg`, `jpeg`, `png` and `webp` files.
    pub fn new() -> (r: Self)
        ensures
            r.wf(),
    {
        let exts: Vec<Vec<u8>> = vec![
            vec![106u8, 112u8, 103u8],
            vec![106u8, 112u8, 101u8, 103u8],
            vec![112u8, 110u8, 103u8],
            vec![119u8, 101u8, 98u8, 112u8],
        ];
        let r = Self { supported_extensions: exts };
        assert(r.supported_extensions@.map_values(|v: Vec<u8>| v@) =~= supported_extensions());
        r
    }

    /// Whether a file called `name` is taken in: its extension is supported,
    /// in any ASCII case.
    pub fn is_supported(&self, name: &[u8]) -> (r: bool)
        requires
            self.wf(),
        ensures
            r == is_image_name(name@),
    {
        is_image_file_name(name, &self.supported_extensions)
    }

    /// The positions in `entries` of the files that become pages, in page
    /// order: regular files with a supported extension, by ascending sort
    /// key; of files that share a key only the last stays. Fails with
    /// `NoImagesFound` exactly when there is none.
    pub fn collect_and_sort_images(&self, entries: &Vec<ScanEntry>) -> (r: Result<Vec<usize>, AppError>)
        requires
            self.wf(),
        ensures
            (r matches Err(AppError::NoImagesFound)) <==> forall|i: int|
                0 <= i < entries@.len() ==> !selected(entries@, i),
            r is Err ==> r->Err_0 is NoImagesFound,
            r is Ok ==> is_page_order(entries@, r->Ok_0@) && r->Ok_0@.len() > 0,
    {
        let order = order_entries(entries, &self.supported_extensions);
        proof {
            lemma_page_order_empty(entries@, order@);
        }
        if order.len() == 0 {
            Err(AppError::NoImagesFound)
        } else {
            Ok(order)
        }
    }

    /// Converts the image files among `entries` into the bytes of one PDF,
    /// one page per file in page order. Fails with `NoImagesFound` exactly
    /// when no entry is a supported image file; otherwise with `Image` at the
    /// first file in page order that does not decode or re-encode, without
    /// reading further; otherwise with `PdfCreation` when the document does
    /// not fit the output format; else succeeds with the document of the
    /// converted pages.
    pub fn convert(&self, entries: &Vec<ScanEntry>) -> (r: Result<Vec<u8>, AppError>)
        requires
            self.wf(),
        ensures
            (r matches Err(AppError::NoImagesFound)) <==> forall|i: int|
                0 <= i < entries@.len() ==> !selected(entries@, i),
            forall|o: Seq<usize>|
                #[trigger] is_page_order(entries@, o) && o.len() > 0 ==> {
                    &&& image_failure(r) <==> exists|k: int|
                        0 <= k < o.len() && !#[trigger] entry_converts(entries@[o[k] as int])
                    &&& r is Ok <==> (forall|k: int|
                        0 <= k < o.len() ==> #[trigger] entry_converts(entries@[o[k] as int]))
                        && shapes_fit(order_pages(entries@, o))
                    &&& r is Ok ==> r->Ok_0@ == pdf_bytes(document_objects(order_pages(entries@, o)))
                },
    {
        let order = match self.collect_and_sort_images(entries) {
            Ok(order) => order,
            Err(e) => {
                proof {
                    assert forall|o: Seq<usize>| #[trigger] is_page_order(entries@, o) implies o.len() == 0 by {
                        lemma_page_order_empty(entries@, o);
                    }
                }
                return Err(e);
            },
        };
        let mut pages: Vec<PageImage> = Vec::new();
        let mut k: usize = 0;
        while k < order.len()
            invariant
                k <= order@.len(),
                order@.len() > 0,
                is_page_order(entries@, order@),
                !forall|i: int| 0 <= i < entries@.len() ==> !selected(entries@, i),
                pages@.len() == k,
                forall|j: int| 0 <= j < k ==> #[trigger] entry_converts(entries@[order@[j] as int]),
                forall|j: int| 0 <= j < k ==> pages_view(pages@)[j] == #[trigger] order_pages(entries@, order@)[j],
            decreases order@.len() - k,
        {
            proof {
                reveal(crate::sequencer::order_selected);
                assert(order@[k as int] < entries@.len());
                assert(selected(entries@, order@[k as int] as int));
            }
            let entry = &entries[order[k]];
            let kind = image_kind(entry.name.as_slice());
            proof {
                lemma_image_name_has_kind(entry.name@);
            }
            match load_page(entry.data.as_slice(), kind.unwrap()) {
                Ok(page) => {
                    let ghost prev = pages@;
                    pages.push(page);
                    proof {
                        assert forall|j: int| 0 <= j < k + 1 implies pages_view(pages@)[j] == #[trigger] order_pages(entries@, order@)[j] by {
                            if j < k {
                                assert(pages_view(pages@)[j] == pages_view(prev)[j]);
                            }
                        }
                    }
                },
                Err(e) => {
                    proof {
                        assert forall|o: Seq<usize>| #[trigger] is_page_order(entries@, o) && o.len() > 0 implies
                            exists|k: int| 0 <= k < o.len() && !#[trigger] entry_converts(entries@[o[k] as int]) by {
                            lemma_page_order_unique(entries@, o, order@);
                            assert(!entry_converts(entries@[o[k as int] as int]));
                        }
                    }
                    return Err(e);
                },
            }
            k = k + 1;
        }
        assert(pages_view(pages@) =~= order_pages(entries@, order@));
        let r = build_document(&pages);
        proof {
            let o = order@;
            assert(document_fits(pages@) == shapes_fit(order_pages(entries@, o)));
            assert(!image_failure(r));
            assert(!exists|k: int| 0 <= k < o.len() && !#[trigger] entry_converts(entries@[o[k] as int]));
            if let Err(AppError::PdfCreation(crate::error::PdfLimit::PageSize(j))) = r {
                assert(pages_view(pages@)[j as int] == crate::document::page_view(pages@[j as int]));
            }
            assert(r is Ok <==> shapes_fit(order_pages(entries@, o)));
            assert(r is Ok ==> r->Ok_0@ == pdf_bytes(document_objects(order_pages(entries@, o))));
            assert forall|o2: Seq<usize>| #[trigger] is_page_order(entries@, o2) && o2.len() > 0 implies {
                &&& image_failure(r) <==> exists|k: int|
                    0 <= k < o2.len() && !#[trigger] entry_converts(entries@[o2[k] as int])
                &&& r is Ok <==> (forall|k: int|
                    0 <= k < o2.len() ==> #[trigger] entry_converts(entries@[o2[k] as int]))
                    && shapes_fit(order_pages(entries@, o2))
                &&& r is Ok ==> r->Ok_0@ == pdf_bytes(document_objects(order_pages(entries@, o2)))
            } by {
                lemma_page_order_unique(entries@, o2, order@);
            }
        }
        r
    }
}

/// Whether `r` failed on an image: it did not decode, had no pixels, or did
/// not re-encode.
pub open spec fn image_failure(r: Result<Vec<u8>, AppError>) -> bool {
    r matches Err(AppError::Image(_)) || r matches Err(AppError::EmptyImage)
}

/// The format of entry `e`, named by its extension.
pub open spec fn entry_kind(e: ScanEntry) -> ImageKind {
    kind_of_name(e.name@)->Some_0
}

/// Whether the image of entry `e` decodes and re-encodes.
pub open spec fn entry_converts(e: ScanEntry) -> bool {
    converts(e.data@, entry_kind(e))
}

/// The page that entry `e` becomes, when it converts.
pub open spec fn entry_page(e: ScanEntry) -> PageShape {
    (
        decoded_size(e.data@, entry_kind(e))->Some_0.0,
        decoded_size(e.data@, entry_kind(e))->Some_0.1,
        jpeg_of(e.data@, entry_kind(e), JPEG_QUALITY)->Some_0,
    )
}

/// The pages of the entries of `order`, in order.
pub open spec fn order_pages(entries: Seq<ScanEntry>, order: Seq<usize>) -> Seq<PageShape> {
    Seq::new(order.len(), |k: int| entry_page(entries[order[k] as int]))
}

impl Default for ImageToPdfConverter {
    fn default() -> (r: Self)
        ensures
            r.wf(),
    {
        Self::new()
    }
}

} // verus!
