use image::{DynamicImage, GenericImageView, ImageOutputFormat, RgbImage};
use rs_img2pdf::codec::{image_kind, image_to_jpeg_bytes, load_page, process_image};
use rs_img2pdf::decoded::ImageKind;
use rs_img2pdf::converter::ImageToPdfConverter;
use rs_img2pdf::error::AppError;
use rs_img2pdf::sequencer::ScanEntry;
use std::io::Cursor;

fn encoded(width: u32, height: u32, format: ImageOutputFormat) -> Vec<u8> {
    let img = DynamicImage::ImageRgb8(RgbImage::new(width, height));
    let mut out = Vec::new();
    img.write_to(&mut Cursor::new(&mut out), format).unwrap();
    out
}

fn entry(name: &str, data: Vec<u8>) -> ScanEntry {
    ScanEntry { name: name.as_bytes().to_vec(), is_file: true, data }
}

fn contains(hay: &[u8], needle: &str) -> bool {
    hay.windows(needle.len()).any(|w| w == needle.as_bytes())
}

fn position(hay: &[u8], needle: &str) -> usize {
    hay.windows(needle.len()).position(|w| w == needle.as_bytes()).unwrap()
}

fn sample_dir() -> Vec<ScanEntry> {
    vec![
        entry("b2.png", encoded(100, 200, ImageOutputFormat::Png)),
        entry("a1.jpg", encoded(50, 50, ImageOutputFormat::Jpeg(90))),
        entry("c10.webp", encoded(300, 300, ImageOutputFormat::WebP)),
    ]
}

#[test]
fn kind_follows_the_extension() {
    assert_eq!(image_kind(b"a.JPG"), Some(ImageKind::Jpeg));
    assert_eq!(image_kind(b"a.jpeg"), Some(ImageKind::Jpeg));
    assert_eq!(image_kind(b"a.png"), Some(ImageKind::Png));
    assert_eq!(image_kind(b"a.WebP"), Some(ImageKind::WebP));
    assert_eq!(image_kind(b"a.gif"), None);
}

#[test]
fn png_is_reencoded_as_jpeg() {
    let page = load_page(&encoded(30, 20, ImageOutputFormat::Png), ImageKind::Png).unwrap();
    assert_eq!((page.width, page.height), (30, 20));
    assert_eq!(&page.jpeg[..2], &[0xff, 0xd8]);
    let img = image::load_from_memory(&page.jpeg).unwrap();
    assert_eq!((img.width(), img.height()), (30, 20));
}

#[test]
fn sixteen_bit_png_decodes_but_does_not_reencode() {
    let img = DynamicImage::ImageRgb16(image::ImageBuffer::new(4, 3));
    let mut png = Vec::new();
    img.write_to(&mut Cursor::new(&mut png), ImageOutputFormat::Png).unwrap();
    let decoded = process_image(&png, ImageKind::Png).unwrap();
    assert!(matches!(image_to_jpeg_bytes(&decoded), Err(AppError::Image(_))));
    assert!(matches!(load_page(&png, ImageKind::Png), Err(AppError::Image(_))));
}

#[test]
fn decoded_image_reencodes_to_jpeg() {
    let decoded = process_image(&encoded(8, 6, ImageOutputFormat::Png), ImageKind::Png).unwrap();
    let jpeg = image_to_jpeg_bytes(&decoded).unwrap();
    let back = image::load_from_memory(&jpeg).unwrap();
    assert_eq!((back.width(), back.height()), (8, 6));
}

#[test]
fn undecodable_image_fails() {
    match process_image(b"not an image", ImageKind::Png) {
        Err(AppError::Image(_)) => {}
        _ => panic!("expected an image error"),
    }
}

#[test]
fn three_images_in_numeric_order() {
    let c = ImageToPdfConverter::new();
    let entries = sample_dir();
    assert_eq!(c.collect_and_sort_images(&entries).unwrap(), vec![1, 0, 2]);
    let bytes = c.convert(&entries).unwrap();
    assert!(contains(&bytes, "/Count 3"));
    assert!(contains(&bytes, "/Kids [3 0 R 6 0 R 9 0 R]"));
    let first = position(&bytes, "/MediaBox [0 0 50 50]");
    let second = position(&bytes, "/MediaBox [0 0 100 200]");
    let third = position(&bytes, "/MediaBox [0 0 300 300]");
    assert!(first < second && second < third);
}

#[test]
fn converting_twice_gives_the_same_document() {
    let c = ImageToPdfConverter::new();
    let once = c.convert(&sample_dir()).unwrap();
    let twice = c.convert(&sample_dir()).unwrap();
    assert_eq!(once, twice);
}

#[test]
fn empty_directory_has_no_images() {
    let c = ImageToPdfConverter::new();
    assert!(matches!(c.convert(&Vec::new()), Err(AppError::NoImagesFound)));
}

#[test]
fn unsupported_files_only_have_no_images() {
    let c = ImageToPdfConverter::new();
    let entries = vec![entry("notes.txt", b"hello".to_vec()), entry("a1.gif", Vec::new())];
    assert!(matches!(c.collect_and_sort_images(&entries), Err(AppError::NoImagesFound)));
    assert!(matches!(c.convert(&entries), Err(AppError::NoImagesFound)));
}

#[test]
fn one_bad_file_stops_the_conversion() {
    let c = ImageToPdfConverter::new();
    let mut entries = sample_dir();
    entries.push(entry("d20.png", b"broken".to_vec()));
    assert!(matches!(c.convert(&entries), Err(AppError::Image(_))));
}
