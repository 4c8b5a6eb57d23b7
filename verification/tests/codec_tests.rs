use image_scrapper::codec::{decode_data, encode_data};
use image_scrapper::data::{Data, ImageInfo};

fn sample() -> Data {
    Data {
        topisc: vec![
            (
                "0123abcd".to_string(),
                vec![
                    ImageInfo {
                        name: Some("a.jpg".to_string()),
                        url: "https://ex.test/i/a.jpg".to_string(),
                    },
                    ImageInfo { name: None, url: "https://ex.test/i/b.jpg".to_string() },
                ],
            ),
            (
                "ffee0011".to_string(),
                vec![ImageInfo {
                    name: Some("snö.png".to_string()),
                    url: "https://ex.test/ö/c.png".to_string(),
                }],
            ),
        ],
    }
}

#[test]
fn round_trip_reproduces_the_mapping() {
    let d = sample();
    let bytes = encode_data(&d);
    let back = decode_data(&bytes).unwrap();
    assert_eq!(back, d);
}

#[test]
fn round_trip_of_the_empty_database() {
    let d = Data::new();
    let bytes = encode_data(&d);
    let back = decode_data(&bytes).unwrap();
    assert_eq!(back, d);
    assert_eq!(back.len(), 0);
}

#[test]
fn truncated_snapshot_is_rejected() {
    let d = sample();
    let mut bytes = encode_data(&d);
    bytes.pop();
    assert!(decode_data(&bytes).is_none());
    assert!(decode_data(&vec![]).is_none());
    assert!(decode_data(&vec![1u8, 0, 0]).is_none());
}

#[test]
fn trailing_bytes_are_rejected() {
    let d = sample();
    let mut bytes = encode_data(&d);
    bytes.push(0u8);
    assert!(decode_data(&bytes).is_none());
}

#[test]
fn repeated_fingerprint_is_rejected() {
    let records = vec![ImageInfo { name: None, url: "https://ex.test/i/a.jpg".to_string() }];
    let dup = Data {
        topisc: vec![
            ("same".to_string(), records.clone()),
            ("same".to_string(), records),
        ],
    };
    let bytes = encode_data(&dup);
    assert!(decode_data(&bytes).is_none());
}

#[test]
fn invalid_code_point_is_rejected() {
    // one entry, key of one character whose code point is a surrogate
    let mut bytes = Vec::new();
    bytes.extend_from_slice(&1u64.to_le_bytes()); // entry count
    bytes.extend_from_slice(&1u64.to_le_bytes()); // key length
    bytes.extend_from_slice(&0xD800u32.to_le_bytes()); // surrogate code point
    bytes.extend_from_slice(&0u64.to_le_bytes()); // record count
    assert!(decode_data(&bytes).is_none());
}
