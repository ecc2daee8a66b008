use rs_img2pdf::converter::ImageToPdfConverter;
use rs_img2pdf::error::AppError;
use rs_img2pdf::sequencer::ScanEntry;
use rs_img2pdf::sort_key::{bytes_less, extract_numeric_sort_key, find_last_dot, sort_key_of};

fn file(name: &str) -> ScanEntry {
    ScanEntry { name: name.as_bytes().to_vec(), is_file: true, data: Vec::new() }
}

fn names(entries: &[ScanEntry], order: &[usize]) -> Vec<String> {
    order.iter().map(|&i| String::from_utf8(entries[i].name.clone()).unwrap()).collect()
}

#[test]
fn numeric_keys_are_zero_padded() {
    assert_eq!(sort_key_of(b"img003.png"), b"0000000003".to_vec());
    assert_eq!(sort_key_of(b"img_012_final.jpg"), b"0000000012".to_vec());
    assert_eq!(sort_key_of(b"4294967295.png"), b"4294967295".to_vec());
}

#[test]
fn numeric_keys_order_like_numbers() {
    let a = sort_key_of(b"img003.png");
    let b = sort_key_of(b"img010.png");
    let c = sort_key_of(b"img100.png");
    assert!(bytes_less(&a, &b));
    assert!(bytes_less(&b, &c));
    assert!(!bytes_less(&c, &a));
    assert!(!bytes_less(&a, &a));
}

#[test]
fn keys_fall_back_to_the_file_name() {
    assert_eq!(sort_key_of(b"cover.png"), b"cover.png".to_vec());
    assert_eq!(sort_key_of(b"4294967296.png"), b"4294967296.png".to_vec());
    assert_eq!(sort_key_of(b"99999999999999999999.jpg"), b"99999999999999999999.jpg".to_vec());
}

#[test]
fn digits_of_the_extension_are_not_read() {
    assert_eq!(extract_numeric_sort_key(b"page.7z", 4), None);
    assert_eq!(extract_numeric_sort_key(b"page7.png", 5), Some(b"0000000007".to_vec()));
}

#[test]
fn last_dot_is_found() {
    assert_eq!(find_last_dot(b"a.b.png"), Some(3));
    assert_eq!(find_last_dot(b"noext"), None);
    assert_eq!(find_last_dot(b".png"), Some(0));
}

#[test]
fn fallback_keys_sort_by_their_first_byte() {
    let numeric = sort_key_of(b"0.png");
    let before = sort_key_of(b"#cover.png");
    let after = sort_key_of(b"cover.png");
    assert!(bytes_less(&before, &numeric));
    assert!(bytes_less(&numeric, &after));
    let entries = vec![file("cover.png"), file("page2.png"), file("#intro.png")];
    let c = ImageToPdfConverter::new();
    let order = c.collect_and_sort_images(&entries).unwrap();
    assert_eq!(names(&entries, &order), vec!["#intro.png", "page2.png", "cover.png"]);
}

#[test]
fn supported_extensions_in_any_case() {
    let c = ImageToPdfConverter::new();
    assert!(c.is_supported(b"a.jpg"));
    assert!(c.is_supported(b"a.JPEG"));
    assert!(c.is_supported(b"a.Png"));
    assert!(c.is_supported(b"a.webp"));
    assert!(!c.is_supported(b"a.txt"));
    assert!(!c.is_supported(b".png"));
    assert!(!c.is_supported(b"png"));
    assert!(!c.is_supported(b"a.png.bak"));
}

#[test]
fn page_order_of_a_directory() {
    let dir = ScanEntry { name: b"sub.png".to_vec(), is_file: false, data: Vec::new() };
    let entries = vec![file("b2.png"), file("a1.jpg"), file("notes.txt"), dir, file("c10.webp")];
    let c = ImageToPdfConverter::new();
    let order = c.collect_and_sort_images(&entries).unwrap();
    assert_eq!(order, vec![1, 0, 4]);
}

#[test]
fn equal_keys_keep_the_last_file() {
    let entries = vec![file("a1.png"), file("b01.png"), file("c2.png")];
    let c = ImageToPdfConverter::new();
    let order = c.collect_and_sort_images(&entries).unwrap();
    assert_eq!(order, vec![1, 2]);
}

#[test]
fn no_entries_give_no_pages() {
    let c = ImageToPdfConverter::default();
    assert!(matches!(c.collect_and_sort_images(&Vec::new()), Err(AppError::NoImagesFound)));
}

#[test]
fn listing_order_does_not_matter() {
    let c = ImageToPdfConverter::new();
    let first = vec![file("b2.png"), file("a1.jpg"), file("notes.txt"), file("c10.webp")];
    let second = vec![file("c10.webp"), file("notes.txt"), file("a1.jpg"), file("b2.png")];
    let o1 = c.collect_and_sort_images(&first).unwrap();
    let o2 = c.collect_and_sort_images(&second).unwrap();
    assert_eq!(names(&first, &o1), names(&second, &o2));
    assert_eq!(names(&first, &o1), vec!["a1.jpg", "b2.png", "c10.webp"]);
}
