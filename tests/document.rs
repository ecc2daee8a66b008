use rs_img2pdf::document::{build_document, check_pages, content_stream_of, plan_page, PageImage};
use rs_img2pdf::error::{AppError, PdfLimit};

fn page(width: u32, height: u32) -> PageImage {
    PageImage { width, height, jpeg: vec![0xff, 0xd8, 0xff, 0xd9] }
}

fn contains(hay: &[u8], needle: &str) -> bool {
    hay.windows(needle.len()).any(|w| w == needle.as_bytes())
}

#[test]
fn page_box_equals_pixel_size() {
    let plan = plan_page(0, &page(100, 200));
    assert_eq!(plan.media_box, [0, 0, 100, 200]);
    let plan = plan_page(2, &page(1, 2147483647));
    assert_eq!(plan.media_box, [0, 0, 1, 2147483647]);
}

#[test]
fn page_ids_follow_allocation_order() {
    let plan = plan_page(0, &page(5, 5));
    assert_eq!((plan.page_id, plan.image_id, plan.content_id), (3, 4, 5));
    let plan = plan_page(4, &page(5, 5));
    assert_eq!((plan.page_id, plan.image_id, plan.content_id), (15, 16, 17));
}

#[test]
fn content_stream_scales_the_image() {
    assert_eq!(content_stream_of(100, 200), b"q\n100 0 0 200 0 0 cm\n/Im1 Do\nQ".to_vec());
    assert_eq!(content_stream_of(7, 4294967295), b"q\n7 0 0 4294967295 0 0 cm\n/Im1 Do\nQ".to_vec());
    assert_eq!(plan_page(0, &page(50, 50)).content, b"q\n50 0 0 50 0 0 cm\n/Im1 Do\nQ".to_vec());
}

#[test]
fn three_pages_give_eleven_objects() {
    let pages = vec![page(50, 50), page(100, 200), page(300, 300)];
    let bytes = build_document(&pages).unwrap();
    for id in 1..=11 {
        assert!(contains(&bytes, &format!("\n{} 0 obj", id)), "object {}", id);
    }
    assert!(!contains(&bytes, "\n12 0 obj"));
    assert!(contains(&bytes, "/Kids [3 0 R 6 0 R 9 0 R]"));
    assert!(contains(&bytes, "/Count 3"));
    assert!(contains(&bytes, "/MediaBox [0 0 50 50]"));
    assert!(contains(&bytes, "/MediaBox [0 0 100 200]"));
    assert!(contains(&bytes, "/MediaBox [0 0 300 300]"));
    assert!(contains(&bytes, "/Filter /DCTDecode"));
    assert!(contains(&bytes, "/Im1 4 0 R"));
}

#[test]
fn zero_sized_page_is_refused() {
    let pages = vec![page(10, 10), page(0, 10)];
    assert_eq!(check_pages(&pages), Err(PdfLimit::PageSize(1)));
    match build_document(&pages) {
        Err(AppError::PdfCreation(PdfLimit::PageSize(1))) => {}
        other => panic!("unexpected {:?}", other.map(|b| b.len())),
    }
}

#[test]
fn oversized_page_is_refused() {
    let pages = vec![page(2147483648, 10)];
    assert_eq!(check_pages(&pages), Err(PdfLimit::PageSize(0)));
    assert_eq!(check_pages(&vec![page(1, 1)]), Ok(()));
}
