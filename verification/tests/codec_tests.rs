//! The on-disk entry format and the hex codec.

use imaged::diskcodec::{encode_entry, parse_entry, CacheFileError};
use imaged::hexcodec::{from_hex, to_hex};
use imaged::image_types::{ImageOutput, ImageType, InputImageType};

fn sample_output() -> ImageOutput {
    ImageOutput {
        buf: vec![9, 8, 7, 6, 5],
        img_type: ImageType::Webp,
        width: 640,
        height: 480,
        orig_size: 123456789,
        orig_type: InputImageType::Jpeg,
        orig_width: 1920,
        orig_height: 1080,
    }
}

#[test]
fn entry_round_trips() {
    let out = sample_output();
    let bytes = encode_entry(&out);
    let back = parse_entry(bytes.as_slice()).expect("a written entry must parse");
    assert_eq!(back.buf, out.buf);
    assert_eq!(back.img_type, out.img_type);
    assert_eq!(back.width, out.width);
    assert_eq!(back.height, out.height);
    assert_eq!(back.orig_size, out.orig_size);
    assert_eq!(back.orig_type, out.orig_type);
    assert_eq!(back.orig_width, out.orig_width);
    assert_eq!(back.orig_height, out.orig_height);
}

#[test]
fn entry_layout_is_header_meta_body() {
    let out = sample_output();
    let bytes = encode_entry(&out);
    assert!(bytes.len() > 4);
    let l = u32::from_be_bytes([bytes[0], bytes[1], bytes[2], bytes[3]]) as usize;
    let meta = std::str::from_utf8(&bytes[4..4 + l]).expect("metadata is UTF-8 JSON");
    assert_eq!(
        meta,
        "{\"img_type\":\"webp\",\"width\":640,\"height\":480,\"orig_size\":123456789,\
         \"orig_type\":\"jpeg\",\"orig_width\":1920,\"orig_height\":1080}"
    );
    assert_eq!(&bytes[4 + l..], &[9, 8, 7, 6, 5]);
}

#[test]
fn short_file_is_rejected() {
    assert!(matches!(parse_entry(&[1, 2, 3]), Err(CacheFileError::TooShort)));
    assert!(matches!(parse_entry(&[]), Err(CacheFileError::TooShort)));
}

#[test]
fn declared_length_beyond_file_is_rejected() {
    // header says 100 bytes of metadata but the file ends early
    let bytes = vec![0, 0, 0, 100, b'{', b'}'];
    assert!(matches!(parse_entry(bytes.as_slice()), Err(CacheFileError::BadLength)));
}

#[test]
fn garbage_metadata_is_rejected() {
    let mut bytes = vec![0, 0, 0, 4];
    bytes.extend_from_slice(b"oops");
    assert!(matches!(parse_entry(bytes.as_slice()), Err(CacheFileError::BadMeta)));
}

#[test]
fn tampered_metadata_is_rejected() {
    let out = sample_output();
    let mut bytes = encode_entry(&out);
    // corrupt one metadata byte
    bytes[6] = b'X';
    assert!(matches!(parse_entry(bytes.as_slice()), Err(CacheFileError::BadMeta)));
}

#[test]
fn hex_round_trips() {
    let data = vec![0x00, 0x0F, 0xA5, 0xFF];
    let hex = to_hex(data.as_slice());
    assert_eq!(hex, b"000fa5ff".to_vec());
    assert_eq!(from_hex(hex.as_slice()), Some(data));
}

#[test]
fn hex_accepts_uppercase() {
    assert_eq!(from_hex(b"A5FF"), Some(vec![0xA5, 0xFF]));
}

#[test]
fn hex_rejects_odd_length_and_bad_digits() {
    assert_eq!(from_hex(b"abc"), None);
    assert_eq!(from_hex(b"zz"), None);
}

#[test]
fn hex_matches_hex_crate() {
    let data = vec![1u8, 2, 254, 128, 63];
    let ours = String::from_utf8(to_hex(data.as_slice())).unwrap();
    assert_eq!(ours, hex::encode(&data));
}
