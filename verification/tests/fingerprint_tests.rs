//! The canonical fingerprint serialization, its digest and the disk path.

use imaged::fingerprint::{canonical_bytes, digest_hex, entry_path, Fingerprint};
use imaged::image_types::{ImageType, ProcessOptions};

fn opts_all() -> ProcessOptions {
    ProcessOptions {
        width: Some(100),
        height: Some(50),
        out_type: Some(ImageType::Avif),
        quality: Some(80),
        blur: Some(3),
    }
}

fn opts_none() -> ProcessOptions {
    ProcessOptions { width: None, height: None, out_type: None, quality: None, blur: None }
}

#[test]
fn canonical_serialization_is_exact() {
    let canon = canonical_bytes(b"http://example.com/a.jpg", opts_all());
    assert_eq!(
        String::from_utf8(canon).unwrap(),
        "{\"input\":\"http://example.com/a.jpg\",\"ops\":{\"width\":100,\"height\":50,\
         \"out_type\":\"avif\",\"quality\":80,\"blur\":3}}"
    );
}

#[test]
fn absent_options_are_omitted() {
    let canon = canonical_bytes(b"u", opts_none());
    assert_eq!(String::from_utf8(canon).unwrap(), "{\"input\":\"u\",\"ops\":{}}");
    let only_q = ProcessOptions { quality: Some(5), ..opts_none() };
    let canon2 = canonical_bytes(b"u", only_q);
    assert_eq!(
        String::from_utf8(canon2).unwrap(),
        "{\"input\":\"u\",\"ops\":{\"quality\":5}}"
    );
}

#[test]
fn url_is_escaped_like_json() {
    let canon = canonical_bytes(b"a\"b\\c\nd", opts_none());
    let expect_prefix = "{\"input\":\"a\\\"b\\\\c\\nd\"";
    let got = String::from_utf8(canon).unwrap();
    assert!(got.starts_with(expect_prefix), "got: {got}");
    // cross-check the escaping against serde_json's own string writer
    let v = serde_json::Value::String("a\"b\\c\nd".to_string());
    let theirs = serde_json::to_string(&v).unwrap();
    assert!(got.contains(theirs.as_str().trim_matches('"')));
}

#[test]
fn control_bytes_use_unicode_escapes() {
    let canon = canonical_bytes(&[0x01], opts_none());
    let got = String::from_utf8(canon).unwrap();
    assert_eq!(got, "{\"input\":\"\\u0001\",\"ops\":{}}");
}

#[test]
fn digest_matches_blake3_over_canonical_bytes() {
    let fp = Fingerprint::new(b"http://example.com/x.png".to_vec(), opts_all());
    let canon = canonical_bytes(b"http://example.com/x.png", opts_all());
    let expect = blake3::hash(&canon);
    let got = String::from_utf8(digest_hex(&fp)).unwrap();
    assert_eq!(got, expect.to_hex().as_str());
}

#[test]
fn path_is_sharded_by_digest_tail() {
    let fp = Fingerprint::new(b"u".to_vec(), opts_none());
    let h = String::from_utf8(digest_hex(&fp)).unwrap();
    let path = String::from_utf8(entry_path(b"/var/cache", &fp)).unwrap();
    let last = &h[63..64];
    let mid = &h[61..63];
    assert_eq!(path, format!("/var/cache/{last}/{mid}/{h}"));
}

#[test]
fn equal_fingerprints_share_canonical_bytes_and_path() {
    let a = Fingerprint::new(b"same".to_vec(), opts_all());
    let b = Fingerprint::new(b"same".to_vec(), opts_all());
    assert_eq!(a.canonical(), b.canonical());
    assert_eq!(entry_path(b"/r", &a), entry_path(b"/r", &b));
    let c = Fingerprint::new(b"same".to_vec(), opts_none());
    assert_ne!(a.canonical(), c.canonical());
}
