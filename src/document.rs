//! Document assembly: object ids, page geometry and content streams, and the
//! writing of all objects into one PDF.
use vstd::prelude::*;
use pdf_writer::Pdf;
use crate::error::{AppError, PdfLimit};
use crate::sort_key::pow10;
use crate::pdf_writer_api::{
    finish_pdf, new_pdf, write_catalog, write_jpeg_image, write_page, write_page_tree,
    write_stream, written_ids, written_objects, pdf_bytes, PdfObject,
};

verus! {

/// Id of the document catalog.
pub const CATALOG_ID: i32 = 1;

/// Id of the page-tree root.
pub const PAGE_TREE_ID: i32 = 2;

/// Bits per colour channel of an embedded image.
pub const BITS_PER_COMPONENT: i32 = 8;

/// The most pages whose object ids all stay below `i32::MAX`.
pub const MAX_PAGES: usize = 715827881;

/// One page's image, decoded and re-encoded.
pub struct PageImage {
    /// Width in pixels.
    pub width: u32,
    /// Height in pixels.
    pub height: u32,
    /// The image re-encoded as a JPEG stream.
    pub jpeg: Vec<u8>,
}

/// The objects of one page, ready to be written.
pub struct PagePlan {
    /// Id of the page object.
    pub page_id: i32,
    /// Id of the page's image object.
    pub image_id: i32,
    /// Id of the page's content stream.
    pub content_id: i32,
    /// The page box `[x0, y0, x1, y1]`, in points.
    pub media_box: [i32; 4],
    /// The page's content stream.
    pub content: Vec<u8>,
}

/// Id of the page object of the page at position `k`.
pub open spec fn page_id(k: int) -> int {
    3 + 3 * k
}

/// Id of the image object of the page at position `k`.
pub open spec fn image_id(k: int) -> int {
    4 + 3 * k
}

/// Id of the content stream of the page at position `k`.
pub open spec fn content_id(k: int) -> int {
    5 + 3 * k
}

/// The ids written for the first `n` pages: per page its image, its content
/// stream, then the page itself.
pub open spec fn pages_ids(n: nat) -> Seq<i32> {
    Seq::new(
        3 * n,
        |j: int|
            if j % 3 == 0 {
                image_id(j / 3) as i32
            } else if j % 3 == 1 {
                content_id(j / 3) as i32
            } else {
                page_id(j / 3) as i32
            },
    )
}

/// The ids written for a document of `n` pages, in order.
pub open spec fn document_ids(n: nat) -> Seq<i32> {
    pages_ids(n) + seq![PAGE_TREE_ID, CATALOG_ID]
}

/// The kids of the page tree of a document of `n` pages.
pub open spec fn page_kids(n: nat) -> Seq<i32> {
    Seq::new(n, |k: int| page_id(k) as i32)
}

/// `n` in decimal, without leading zeros.
pub open spec fn decimal(n: nat) -> Seq<u8>
    decreases n,
{
    if n < 10 {
        seq![(48 + n) as u8]
    } else {
        decimal(n / 10).push((48 + n % 10) as u8)
    }
}

/// The local name of a page's image resource: `Im1`.
pub open spec fn image_name() -> Seq<u8> {
    seq![73u8, 109u8, 49u8]
}

/// The content stream of a page of `w` by `h` points: save the graphics
/// state, scale the unit square to the page, paint the image, restore
/// (`q`, `w 0 0 h 0 0 cm`, `/Im1 Do`, `Q`).
pub open spec fn content_stream(w: nat, h: nat) -> Seq<u8> {
    seq![113u8, 10u8] + decimal(w) + seq![32u8, 48u8, 32u8, 48u8, 32u8] + decimal(h) + seq![
        32u8,
        48u8,
        32u8,
        48u8,
        32u8,
        99u8,
        109u8,
        10u8,
        47u8,
    ] + image_name() + seq![32u8, 68u8, 111u8, 10u8, 81u8]
}

/// A page as plain values: width, height and JPEG stream.
pub type PageShape = (u32, u32, Seq<u8>);

pub open spec fn page_view(p: PageImage) -> PageShape {
    (p.width, p.height, p.jpeg@)
}

pub open spec fn pages_view(pages: Seq<PageImage>) -> Seq<PageShape> {
    pages.map_values(|p: PageImage| page_view(p))
}

/// Whether a page can be written: both dimensions in `1..=i32::MAX` and its
/// stream at most `i32::MAX` bytes long.
pub open spec fn shape_fits(p: PageShape) -> bool {
    0 < p.0 <= i32::MAX && 0 < p.1 <= i32::MAX && p.2.len() <= i32::MAX
}

/// Whether every page can be written, and the ids of all objects fit.
pub open spec fn shapes_fit(pages: Seq<PageShape>) -> bool {
    pages.len() <= MAX_PAGES && forall|k: int| 0 <= k < pages.len() ==> shape_fits(#[trigger] pages[k])
}

pub open spec fn page_fits(p: PageImage) -> bool {
    shape_fits(page_view(p))
}

pub open spec fn document_fits(pages: Seq<PageImage>) -> bool {
    shapes_fit(pages_view(pages))
}

/// Object `r` (0: image, 1: content stream, 2: page) of the page at `k`.
pub open spec fn page_object(pages: Seq<PageShape>, k: int, r: int) -> PdfObject {
    let p = pages[k];
    if r == 0 {
        PdfObject::JpegImage {
            id: image_id(k) as i32,
            width: p.0 as i32,
            height: p.1 as i32,
            bits: BITS_PER_COMPONENT,
            data: p.2,
        }
    } else if r == 1 {
        PdfObject::Stream { id: content_id(k) as i32, data: content_stream(p.0 as nat, p.1 as nat) }
    } else {
        PdfObject::Page {
            id: page_id(k) as i32,
            media_box: seq![0i32, 0i32, p.0 as i32, p.1 as i32],
            contents: content_id(k) as i32,
            image_name: image_name(),
            image: image_id(k) as i32,
        }
    }
}

/// The objects of the first `n` pages, in the order written.
pub open spec fn pages_objects(pages: Seq<PageShape>, n: nat) -> Seq<PdfObject> {
    Seq::new(3 * n, |j: int| page_object(pages, j / 3, j % 3))
}

/// The objects of the document of `pages`, in the order written: per page its
/// image, content stream and page; then the page tree listing the pages,
/// then the catalog.
pub open spec fn document_objects(pages: Seq<PageShape>) -> Seq<PdfObject> {
    pages_objects(pages, pages.len()) + seq![
        PdfObject::PageTree {
            id: PAGE_TREE_ID,
            kids: page_kids(pages.len()),
            count: pages.len() as i32,
        },
        PdfObject::Catalog { id: CATALOG_ID, pages: PAGE_TREE_ID },
    ]
}

/// The ids of a document's objects are `document_ids`.
pub proof fn lemma_document_objects_ids(pages: Seq<PageShape>)
    requires
        pages.len() <= MAX_PAGES,
    ensures
        document_objects(pages).map_values(|o: PdfObject| o.id()) == document_ids(pages.len()),
{
    let n = pages.len();
    let ids = document_objects(pages).map_values(|o: PdfObject| o.id());
    assert forall|j: int| 0 <= j < ids.len() implies ids[j] == document_ids(n)[j] by {
        if j < 3 * n {
            assert(document_objects(pages)[j] == page_object(pages, j / 3, j % 3));
        }
    }
    assert(ids =~= document_ids(n));
}

/// Appends `n` in decimal to `out`.
fn push_decimal(out: &mut Vec<u8>, n: u32)
    ensures
        final(out)@ == old(out)@ + decimal(n as nat),
    decreases n,
{
    if n >= 10 {
        push_decimal(out, n / 10);
    }
    out.push(48 + (n % 10) as u8);
    assert(final(out)@ =~= old(out)@ + decimal(n as nat));
}

/// The content stream of a page of `w` by `h` points.
pub fn content_stream_of(w: u32, h: u32) -> (r: Vec<u8>)
    ensures
        r@ == content_stream(w as nat, h as nat),
{
    let mut out: Vec<u8> = vec![113u8, 10u8];
    push_decimal(&mut out, w);
    let mut mid: Vec<u8> = vec![32u8, 48u8, 32u8, 48u8, 32u8];
    out.append(&mut mid);
    push_decimal(&mut out, h);
    let mut tail: Vec<u8> = vec![32u8, 48u8, 32u8, 48u8, 32u8, 99u8, 109u8, 10u8, 47u8, 73u8, 109u8, 49u8, 32u8, 68u8, 111u8, 10u8, 81u8];
    out.append(&mut tail);
    assert(out@ =~= content_stream(w as nat, h as nat));
    out
}

/// The objects of the page at position `index`: its ids, a page box equal to
/// the image's pixel size (one pixel per point), and its content stream.
pub fn plan_page(index: usize, page: &PageImage) -> (r: PagePlan)
    requires
        index < MAX_PAGES,
        page_fits(*page),
    ensures
        r.page_id == page_id(index as int),
        r.image_id == image_id(index as int),
        r.content_id == content_id(index as int),
        r.media_box@ == seq![0i32, 0i32, page.width as i32, page.height as i32],
        r.content@ == content_stream(page.width as nat, page.height as nat),
{
    let k = index as i32;
    let media_box: [i32; 4] = [0, 0, page.width as i32, page.height as i32];
    assert(media_box@ =~= seq![0i32, 0i32, page.width as i32, page.height as i32]);
    PagePlan {
        page_id: 3 + 3 * k,
        image_id: 4 + 3 * k,
        content_id: 5 + 3 * k,
        media_box,
        content: content_stream_of(page.width, page.height),
    }
}

proof fn lemma_decimal_len(n: nat, d: nat)
    requires
        d >= 1,
        n < pow10(d),
    ensures
        decimal(n).len() <= d,
    decreases d,
{
    if n >= 10 {
        if d == 1 {
            assert(pow10(1) == 10) by {
                reveal_with_fuel(pow10, 2);
            }
        } else {
            let q = pow10((d - 1) as nat);
            assert(n / 10 < q) by (nonlinear_arith)
                requires
                    n < 10 * q,
                    n >= 10,
            ;
            lemma_decimal_len(n / 10, (d - 1) as nat);
        }
    }
}

/// A `u32` has at most ten decimal digits.
proof fn lemma_u32_decimal_len(n: u32)
    ensures
        decimal(n as nat).len() <= 10,
{
    assert(pow10(10) == 10000000000) by {
        reveal_with_fuel(pow10, 11);
    }
    lemma_decimal_len(n as nat, 10);
}

/// Object ids: a document of `n` pages writes `2 + 3n` objects, under ids that
/// are all distinct and are exactly `1` to `2 + 3n`; the page tree lists the
/// page ids in page order.
pub proof fn lemma_document_ids(n: nat)
    requires
        n <= MAX_PAGES,
    ensures
        document_ids(n).len() == 2 + 3 * n,
        document_ids(n).no_duplicates(),
        forall|j: int| 0 <= j < document_ids(n).len() ==> 1 <= #[trigger] document_ids(n)[j] <= 2 + 3 * n,
        forall|v: int| 1 <= v <= 2 + 3 * n ==> #[trigger] document_ids(n).contains(v as i32),
        page_kids(n).len() == n,
        forall|k: int, l: int| 0 <= k < l < n ==> #[trigger] page_kids(n)[k] < #[trigger] page_kids(n)[l],
        forall|k: int| 0 <= k < n ==> #[trigger] page_kids(n)[k] == document_ids(n)[3 * k + 2],
{
    let ids = document_ids(n);
    assert forall|j: int| 0 <= j < 3 * n implies #[trigger] ids[j] as int == if j % 3 == 2 { j + 1 } else { j + 4 } by {
        assert(ids[j] == pages_ids(n)[j]);
    }
    assert forall|i: int, j: int| 0 <= i < ids.len() && 0 <= j < ids.len() && i != j implies ids[i] != ids[j] by {
        if i < 3 * n && j < 3 * n {
            assert(ids[i] as int == if i % 3 == 2 { i + 1 } else { i + 4 });
            assert(ids[j] as int == if j % 3 == 2 { j + 1 } else { j + 4 });
        } else if i < 3 * n {
            assert(ids[i] as int == if i % 3 == 2 { i + 1 } else { i + 4 });
        } else if j < 3 * n {
            assert(ids[j] as int == if j % 3 == 2 { j + 1 } else { j + 4 });
        }
    }
    assert forall|j: int| 0 <= j < ids.len() implies 1 <= #[trigger] ids[j] <= 2 + 3 * n by {
        if j < 3 * n {
            assert(ids[j] as int == if j % 3 == 2 { j + 1 } else { j + 4 });
        }
    }
    assert forall|v: int| 1 <= v <= 2 + 3 * n implies #[trigger] ids.contains(v as i32) by {
        if v == 1 {
            assert(ids[3 * n + 1int] == v);
        } else if v == 2 {
            assert(ids[3 * n as int] == v);
        } else if v % 3 == 0 {
            assert(ids[v - 1] as int == v);
        } else {
            assert(ids[v - 4] as int == v);
        }
    }
    assert forall|k: int| 0 <= k < n implies #[trigger] page_kids(n)[k] == ids[3 * k + 2] by {
        assert(ids[3 * k + 2] as int == 3 * k + 3);
    }
}

/// Checks that every page can be written and that the ids of all objects fit.
pub fn check_pages(pages: &Vec<PageImage>) -> (r: Result<(), PdfLimit>)
    ensures
        match r {
            Ok(()) => document_fits(pages@),
            Err(PdfLimit::TooManyPages(m)) => m == pages@.len() && pages@.len() > MAX_PAGES,
            Err(PdfLimit::PageSize(k)) => pages@.len() <= MAX_PAGES && k < pages@.len()
                && !page_fits(pages@[k as int])
                && forall|j: int| 0 <= j < k ==> page_fits(#[trigger] pages@[j]),
        },
{
    if pages.len() > MAX_PAGES {
        return Err(PdfLimit::TooManyPages(pages.len()));
    }
    let mut k: usize = 0;
    while k < pages.len()
        invariant
            k <= pages@.len(),
            pages@.len() <= MAX_PAGES,
            forall|j: int| 0 <= j < k ==> page_fits(#[trigger] pages@[j]),
        decreases pages@.len() - k,
    {
        let p = &pages[k];
        if p.width == 0 || p.width > 2147483647 || p.height == 0 || p.height > 2147483647
            || p.jpeg.len() > 2147483647 {
            return Err(PdfLimit::PageSize(k));
        }
        k = k + 1;
    }
    Ok(())
}

/// The kids of the page tree of a document of `n` pages: the page ids, in
/// page order.
pub fn page_kids_of(n: usize) -> (r: Vec<i32>)
    requires
        n <= MAX_PAGES,
    ensures
        r@ == page_kids(n as nat),
{
    let mut kids: Vec<i32> = Vec::new();
    let mut k: usize = 0;
    while k < n
        invariant
            k <= n <= MAX_PAGES,
            kids@ == page_kids(k as nat),
        decreases n - k,
    {
        kids.push(3 + 3 * (k as i32));
        assert(kids@ =~= page_kids((k + 1) as nat));
        k = k + 1;
    }
    kids
}

/// Writes every object of the document into a new PDF writer: per page, in
/// page order, its image, its content stream and the page; then the page
/// tree listing the pages (`page_kids`), then the catalog.
pub fn write_document(pages: &Vec<PageImage>) -> (r: Pdf)
    requires
        document_fits(pages@),
    ensures
        written_objects(r) == document_objects(pages_view(pages@)),
        written_ids(r) == document_ids(pages@.len()),
{
    let mut pdf = new_pdf();
    let name: Vec<u8> = vec![73u8, 109u8, 49u8];
    assert(name@ =~= image_name());
    let mut k: usize = 0;
    assert(pages_objects(pages_view(pages@), 0) =~= Seq::<PdfObject>::empty());
    while k < pages.len()
        invariant
            k <= pages@.len(),
            document_fits(pages@),
            written_objects(pdf) == pages_objects(pages_view(pages@), k as nat),
            name@ == image_name(),
        decreases pages@.len() - k,
    {
        let page = &pages[k];
        let ghost pv = pages_view(pages@);
        assert(pv[k as int] == page_view(pages@[k as int]));
        assert(shape_fits(pv[k as int]));
        assert(page_fits(pages@[k as int]));
        let ghost before = written_objects(pdf);
        let plan = plan_page(k, page);
        proof {
            lemma_u32_decimal_len(page.width);
            lemma_u32_decimal_len(page.height);
        }
        write_jpeg_image(
            &mut pdf,
            plan.image_id,
            page.jpeg.as_slice(),
            page.width as i32,
            page.height as i32,
            BITS_PER_COMPONENT,
        );
        write_stream(&mut pdf, plan.content_id, plan.content.as_slice());
        write_page(&mut pdf, plan.page_id, plan.media_box, plan.content_id, name.as_slice(), plan.image_id);
        proof {
            let next = pages_objects(pv, (k + 1) as nat);
            let j = 3 * k as int;
            assert(next[j] == page_object(pv, k as int, 0));
            assert(next[j + 1] == page_object(pv, k as int, 1));
            assert(next[j + 2] == page_object(pv, k as int, 2));
            assert forall|i: int| 0 <= i < j implies next[i] == before[i] by {
                assert(before[i] == page_object(pv, i / 3, i % 3));
            }
            assert(written_objects(pdf) =~= next);
        }
        k = k + 1;
    }
    let kids = page_kids_of(pages.len());
    write_page_tree(&mut pdf, PAGE_TREE_ID, &kids, kids.len() as i32);
    write_catalog(&mut pdf, CATALOG_ID, PAGE_TREE_ID);
    assert(written_objects(pdf) =~= document_objects(pages_view(pages@)));
    proof {
        lemma_document_objects_ids(pages_view(pages@));
    }
    pdf
}

/// Assembles the document of `pages`, in order, into PDF bytes; fails when
/// the output format cannot hold it (see `check_pages`).
pub fn build_document(pages: &Vec<PageImage>) -> (r: Result<Vec<u8>, AppError>)
    ensures
        r is Ok ==> r->Ok_0@ == pdf_bytes(document_objects(pages_view(pages@))),
        match r {
            Ok(_) => document_fits(pages@),
            Err(AppError::PdfCreation(PdfLimit::TooManyPages(m))) => m == pages@.len() && pages@.len() > MAX_PAGES,
            Err(AppError::PdfCreation(PdfLimit::PageSize(k))) => pages@.len() <= MAX_PAGES && k < pages@.len()
                && !page_fits(pages@[k as int])
                && forall|j: int| 0 <= j < k ==> page_fits(#[trigger] pages@[j]),
            Err(_) => false,
        },
{
    match check_pages(pages) {
        Err(limit) => Err(AppError::PdfCreation(limit)),
        Ok(()) => {
            let pdf = write_document(pages);
            proof {
                lemma_document_ids(pages@.len());
            }
            Ok(finish_pdf(pdf))
        },
    }
}

/// The ids of `objects`, in order.
pub open spec fn object_ids(objects: Seq<PdfObject>) -> Seq<i32> {
    objects.map_values(|o: PdfObject| o.id())
}

/// The structure of the document of `pages` that fit: `2 + 3n` objects with
/// distinct ids `1` to `2 + 3n`; the page at `k` is object `3 + 3k` with page
/// box `[0, 0, W, H]`, content stream `5 + 3k` and image `4 + 3k` of width
/// `W` and height `H`; object `3n` is the page tree listing the pages in
/// order with count `n`, and object `3n + 1` the catalog pointing at it.
pub proof fn lemma_document_structure(pages: Seq<PageShape>)
    requires
        shapes_fit(pages),
    ensures
        document_objects(pages).len() == 2 + 3 * pages.len(),
        object_ids(document_objects(pages)) == document_ids(pages.len()),
        object_ids(document_objects(pages)).no_duplicates(),
        forall|v: int|
            1 <= v <= 2 + 3 * pages.len() ==> #[trigger] object_ids(document_objects(pages)).contains(
                v as i32,
            ),
        forall|k: int|
            0 <= k < pages.len() ==> #[trigger] document_objects(pages)[3 * k + 2] == (
            PdfObject::Page {
                id: (3 + 3 * k) as i32,
                media_box: seq![0i32, 0i32, pages[k].0 as i32, pages[k].1 as i32],
                contents: (5 + 3 * k) as i32,
                image_name: image_name(),
                image: (4 + 3 * k) as i32,
            }),
        forall|k: int|
            0 <= k < pages.len() ==> #[trigger] document_objects(pages)[3 * k] == (
            PdfObject::JpegImage {
                id: (4 + 3 * k) as i32,
                width: pages[k].0 as i32,
                height: pages[k].1 as i32,
                bits: BITS_PER_COMPONENT,
                data: pages[k].2,
            }),
        forall|k: int|
            0 <= k < pages.len() ==> #[trigger] document_objects(pages)[3 * k + 1] == (
            PdfObject::Stream {
                id: (5 + 3 * k) as i32,
                data: content_stream(pages[k].0 as nat, pages[k].1 as nat),
            }),
        document_objects(pages)[3 * pages.len() as int] == (PdfObject::PageTree {
            id: PAGE_TREE_ID,
            kids: page_kids(pages.len()),
            count: pages.len() as i32,
        }),
        document_objects(pages)[3 * pages.len() + 1int] == (PdfObject::Catalog {
            id: CATALOG_ID,
            pages: PAGE_TREE_ID,
        }),
{
    lemma_document_objects_ids(pages);
    lemma_document_ids(pages.len());
    let n = pages.len();
    assert forall|k: int| 0 <= k < n implies #[trigger] document_objects(pages)[3 * k + 2]
        == page_object(pages, k, 2) by {
        assert((3 * k + 2) / 3 == k && (3 * k + 2) % 3 == 2);
    }
    assert forall|k: int| 0 <= k < n implies #[trigger] document_objects(pages)[3 * k]
        == page_object(pages, k, 0) by {
        assert((3 * k) / 3 == k && (3 * k) % 3 == 0);
    }
    assert forall|k: int| 0 <= k < n implies #[trigger] document_objects(pages)[3 * k + 1]
        == page_object(pages, k, 1) by {
        assert((3 * k + 1) / 3 == k && (3 * k + 1) % 3 == 1);
    }
}

} // verus!
