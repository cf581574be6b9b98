//! The signed-URL verifier: canonical message and HMAC verification.

use hmac::{Hmac, KeyInit, Mac};
use imaged::signature::{get_message, SignatureError, Verifier};
use sha2::Sha256;

fn msg(path: &str, query: Option<&str>) -> String {
    let bytes = get_message(path.as_bytes(), query.map(|q| q.as_bytes()));
    String::from_utf8(bytes).unwrap()
}

fn sign(key: &[u8], message: &[u8]) -> Vec<u8> {
    let mut mac = <Hmac<Sha256> as KeyInit>::new_from_slice(key).unwrap();
    mac.update(message);
    mac.finalize().into_bytes().to_vec()
}

#[test]
fn message_has_leading_slash_and_question_mark() {
    assert_eq!(msg("/p", None), "/p?");
    assert_eq!(msg("p", None), "/p?");
    assert_eq!(msg("/p", Some("")), "/p?");
}

#[test]
fn message_sorts_query_by_key() {
    assert_eq!(msg("/p", Some("b=2&a=1")), "/p?a=1&b=2");
    assert_eq!(msg("/p", Some("a=1&b=2")), "/p?a=1&b=2");
}

#[test]
fn message_drops_signature_parameter() {
    assert_eq!(msg("/p", Some("a=1&s=abcdef")), "/p?a=1");
    assert_eq!(msg("/p", Some("s=abcdef")), "/p?");
    // the signature may stand anywhere
    assert_eq!(msg("/p", Some("s=1&z=9&a=2")), "/p?a=2&z=9");
}

#[test]
fn message_decodes_and_reencodes() {
    // '+' means space and is re-encoded as '+'
    assert_eq!(msg("/p", Some("a=x+y")), "/p?a=x+y");
    // %2C decodes to a comma, re-encoded as %2C
    assert_eq!(msg("/p", Some("a=%2c")), "/p?a=%2C");
    // a key without '=' has an empty value
    assert_eq!(msg("/p", Some("flag")), "/p?flag=");
    // empty segments vanish
    assert_eq!(msg("/p", Some("&&a=1&&")), "/p?a=1");
}

#[test]
fn message_matches_urlencoded_crate() {
    let raw = "zeta=%2Fx&alpha=a+b&mid=%2c";
    let mut pairs: Vec<(String, String)> = serde_urlencoded::from_str(raw).unwrap();
    pairs.sort_by(|(k1, _), (k2, _)| k1.cmp(k2));
    let theirs = serde_urlencoded::to_string(&pairs).unwrap();
    assert_eq!(msg("/p", Some(raw)), format!("/p?{theirs}"));
}

#[test]
fn signed_request_verifies() {
    let key = b"super-secret".to_vec();
    let key_hex = hex::encode(&key).into_bytes();
    let ver = Verifier::new(&vec![key_hex]).unwrap();
    let message = msg("/p", Some("b=2&a=1&s=ignored"));
    let sig_hex = hex::encode(sign(&key, message.as_bytes()));
    assert!(ver.verify(b"/p", Some(b"b=2&a=1&s=ignored"), sig_hex.as_bytes()).is_ok());
    // reordering the query parameters must not affect verification
    assert!(ver.verify(b"/p", Some(b"a=1&s=ignored&b=2"), sig_hex.as_bytes()).is_ok());
    // neither does changing the s parameter itself
    assert!(ver.verify(b"/p", Some(b"a=1&b=2&s=other"), sig_hex.as_bytes()).is_ok());
}

#[test]
fn any_configured_key_may_verify() {
    let k1 = b"first".to_vec();
    let k2 = b"second".to_vec();
    let ver = Verifier::new(&vec![
        hex::encode(&k1).into_bytes(),
        hex::encode(&k2).into_bytes(),
    ])
    .unwrap();
    let message = msg("/p", Some("a=1"));
    let sig_hex = hex::encode(sign(&k2, message.as_bytes()));
    assert!(ver.verify(b"/p", Some(b"a=1"), sig_hex.as_bytes()).is_ok());
}

#[test]
fn wrong_key_signature_is_rejected() {
    let configured = b"right-key".to_vec();
    let ver = Verifier::new(&vec![hex::encode(&configured).into_bytes()]).unwrap();
    let message = msg("/p", Some("a=1"));
    let sig_hex = hex::encode(sign(b"wrong-key", message.as_bytes()));
    assert_eq!(
        ver.verify(b"/p", Some(b"a=1"), sig_hex.as_bytes()),
        Err(SignatureError::Unverified)
    );
}

#[test]
fn flipped_signature_bit_is_rejected() {
    let key = b"k".to_vec();
    let ver = Verifier::new(&vec![hex::encode(&key).into_bytes()]).unwrap();
    let message = msg("/p", Some("a=1"));
    let mut sig = sign(&key, message.as_bytes());
    sig[0] ^= 1;
    let sig_hex = hex::encode(&sig);
    assert_eq!(
        ver.verify(b"/p", Some(b"a=1"), sig_hex.as_bytes()),
        Err(SignatureError::Unverified)
    );
}

#[test]
fn changed_parameter_is_rejected() {
    let key = b"k".to_vec();
    let ver = Verifier::new(&vec![hex::encode(&key).into_bytes()]).unwrap();
    let message = msg("/p", Some("width=100"));
    let sig_hex = hex::encode(sign(&key, message.as_bytes()));
    assert!(ver.verify(b"/p", Some(b"width=100"), sig_hex.as_bytes()).is_ok());
    assert_eq!(
        ver.verify(b"/p", Some(b"width=200"), sig_hex.as_bytes()),
        Err(SignatureError::Unverified)
    );
}

#[test]
fn malformed_hex_signature_is_rejected() {
    let ver = Verifier::new(&vec![hex::encode(b"k").into_bytes()]).unwrap();
    assert_eq!(
        ver.verify(b"/p", None, b"not-hex!"),
        Err(SignatureError::BadSignatureHex)
    );
}

#[test]
fn invalid_key_hex_fails_construction() {
    assert_eq!(
        Verifier::new(&vec![b"xyz".to_vec()]).err(),
        Some(SignatureError::BadKeyHex)
    );
}
