use image_scrapper::digest::{fingerprint, fingerprint_hex, to_hex};

#[test]
fn hex_of_known_bytes() {
    let bytes: Vec<u8> = vec![0x00, 0xab, 0xff, 0x1a];
    assert_eq!(to_hex(&bytes), "00abff1a");
}

#[test]
fn empty_page_fingerprint_is_seed() {
    let urls: Vec<String> = vec![];
    let expected = format!("{:x}", md5::compute(b"start"));
    assert_eq!(fingerprint_hex(&urls), expected);
}

#[test]
fn fingerprint_matches_manual_xor_fold() {
    let a = "https://ex.test/i/a.jpg".to_string();
    let b = "https://ex.test/i/b.jpg".to_string();
    let urls = vec![a.clone(), b.clone()];
    let mut acc = md5::compute(b"start").0;
    for u in [&a, &b] {
        let d = md5::compute(u.as_bytes()).0;
        for k in 0..16 {
            acc[k] ^= d[k];
        }
    }
    let got = fingerprint(&urls);
    assert_eq!(got, acc.to_vec());
    assert_eq!(fingerprint_hex(&urls), format!("{:x}", md5::Digest(acc)));
}

#[test]
fn fingerprint_is_order_independent() {
    let a = "https://ex.test/i/a.jpg".to_string();
    let b = "https://ex.test/i/b.jpg".to_string();
    let c = "https://ex.test/i/c.png".to_string();
    let one = vec![a.clone(), b.clone(), c.clone()];
    let two = vec![c, a, b];
    assert_eq!(fingerprint_hex(&one), fingerprint_hex(&two));
}

#[test]
fn different_sets_differ() {
    let one = vec!["https://ex.test/i/a.jpg".to_string()];
    let two = vec!["https://ex.test/i/b.jpg".to_string()];
    assert_ne!(fingerprint_hex(&one), fingerprint_hex(&two));
}
