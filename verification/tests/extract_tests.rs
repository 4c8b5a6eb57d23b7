use image_scrapper::extract::{
    derive_name, extract_from_page, extract_images, get_img_src, image_urls, is_image_name,
    ExtractError, ImgElement,
};
use image_scrapper::text::last_segment;

#[test]
fn onclick_overrides_src() {
    let r = get_img_src("thumb.jpg", Some("Previewurl('full/1.jpg')"));
    assert_eq!(r, "full/1.jpg");
}

#[test]
fn onclick_that_does_not_match_keeps_src() {
    assert_eq!(get_img_src("thumb.jpg", Some("open()")), "thumb.jpg");
    assert_eq!(get_img_src("thumb.jpg", None), "thumb.jpg");
    assert_eq!(get_img_src("thumb.jpg", Some("Previewurl(x)")), "thumb.jpg");
}

#[test]
fn onclick_with_empty_argument() {
    assert_eq!(get_img_src("thumb.jpg", Some("Previewurl('')")), "");
}

#[test]
fn onclick_argument_with_line_break_keeps_src() {
    assert_eq!(get_img_src("thumb.jpg", Some("Previewurl('a\nb')")), "thumb.jpg");
}

#[test]
fn image_name_pattern() {
    assert!(is_image_name("photo.jpg"));
    assert!(is_image_name("photo.jpeg"));
    assert!(is_image_name("photo.png"));
    assert!(is_image_name(".jpg"));
    assert!(!is_image_name("a caption"));
    assert!(!is_image_name("PHOTO.JPG"));
    assert!(!is_image_name("photo.gif"));
    assert!(!is_image_name("a\nb.jpg"));
}

#[test]
fn alt_with_line_break_falls_back_to_path() {
    assert_eq!(derive_name("full/1.jpg", Some("a\nb.jpg")), "1.jpg");
}

#[test]
fn name_from_alt_when_image_like() {
    assert_eq!(derive_name("i/a.jpg", Some("photo.jpg")), "photo.jpg");
}

#[test]
fn name_from_path_when_alt_is_caption() {
    assert_eq!(derive_name("full/1.jpg", Some("a caption")), "1.jpg");
    assert_eq!(derive_name("full/1.jpg", None), "1.jpg");
}

#[test]
fn last_segment_cases() {
    assert_eq!(last_segment("a/b/c.jpg"), "c.jpg");
    assert_eq!(last_segment("abc"), "abc");
    assert_eq!(last_segment("a/b/"), "");
    assert_eq!(last_segment(""), "");
}

#[test]
fn extract_resolves_and_names() {
    let html = "<html><body>\
        <img src=\"i/a.jpg\" alt=\"a caption\">\
        <img src=\"thumb.jpg\" onclick=\"Previewurl('i/b.jpg')\" alt=\"b.jpg\">\
        </body></html>";
    let infos = extract_from_page(html, "https://ex.test/g.html").unwrap();
    assert_eq!(infos.len(), 2);
    assert_eq!(infos[0].name.as_deref(), Some("a.jpg"));
    assert_eq!(infos[0].url, "https://ex.test/i/a.jpg");
    assert_eq!(infos[1].name.as_deref(), Some("b.jpg"));
    assert_eq!(infos[1].url, "https://ex.test/i/b.jpg");
    let urls = image_urls(&infos);
    assert_eq!(urls, vec![
        "https://ex.test/i/a.jpg".to_string(),
        "https://ex.test/i/b.jpg".to_string(),
    ]);
}

#[test]
fn extract_fails_without_src() {
    let elements = vec![ImgElement { src: None, onclick: None, alt: None }];
    let r = extract_images(&elements, "https://ex.test/g.html");
    assert_eq!(r, Err(ExtractError::MissingSrc));
}

#[test]
fn extract_fails_on_bad_page_url() {
    let elements = vec![ImgElement {
        src: Some("i/a.jpg".to_string()),
        onclick: None,
        alt: None,
    }];
    let r = extract_images(&elements, "not a url");
    assert_eq!(r, Err(ExtractError::UrlError));
}

#[test]
fn extract_normalizes_against_page_url() {
    let elements = vec![ImgElement {
        src: Some("../i/a.jpg".to_string()),
        onclick: None,
        alt: None,
    }];
    let infos = extract_images(&elements, "https://ex.test/g/h/page.html").unwrap();
    assert_eq!(infos[0].url, "https://ex.test/g/i/a.jpg");
}
