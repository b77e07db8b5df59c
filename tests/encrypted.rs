use qrstream::codec::{open_envelope, seal_with};
use qrstream::error::Error;
use qrstream::options::PasswordSource;
use qrstream::pipeline::{decode, encode_image, encode_text};
use qrstream::split::EcLevel;

const QRSTREAM_MAGIC: &str = "QRST";
const QRSTREAM_VERSION: u8 = 1;

fn fixed_key() -> [u8; 32] {
    let text = "key:000102030405060708090a0b0c0d0e0f101112131415161718191a1b1c1d1e1f";
    match PasswordSource::parse(text).unwrap() {
        PasswordSource::Key(k) => k,
        other => panic!("not a key: {:?}", other),
    }
}

fn sealed_encode(data: &str, format: &str, key: [u8; 32]) -> Result<Vec<u8>, Error> {
    if format == "txt" {
        encode_text(data.as_bytes(), Some(key), EcLevel::Quartile)
    } else {
        encode_image(data.as_bytes(), Some(key), EcLevel::Quartile, 1)
    }
}

#[test]
fn encrypted_test_format_txt_encode() {
    let data = "Hello World";
    let stdout = String::from_utf8(sealed_encode(data, "txt", fixed_key()).unwrap()).unwrap();
    assert!(stdout.starts_with(&format!("{QRSTREAM_MAGIC}/{QRSTREAM_VERSION};p=11;t=")));
}

#[test]
fn encrypted_test_format_txt_decode() {
    let data = "Hello World";
    let encoded = sealed_encode(data, "txt", fixed_key()).unwrap();
    let decoded = String::from_utf8(decode(&encoded, Some(fixed_key())).unwrap()).unwrap();
    assert_eq!(data, decoded);
}

#[test]
fn encrypted_test_format_png_encode() {
    let data = "Hello World";
    assert!(sealed_encode(data, "png", fixed_key()).unwrap().starts_with(b"\x89PNG\x0d\x0a\x1a\x0a"));
}

#[test]
fn encrypted_test_format_png_decode() {
    let data = "Hello World";
    let encoded = sealed_encode(data, "png", fixed_key()).unwrap();
    let decoded = String::from_utf8(decode(&encoded, Some(fixed_key())).unwrap()).unwrap();
    assert_eq!(data, decoded);
}

#[test]
fn wrong_key_text_fails_with_invalid_input() {
    let encoded = sealed_encode("Hello World", "txt", fixed_key()).unwrap();
    let mut other = fixed_key();
    other[0] ^= 1;
    assert!(matches!(decode(&encoded, Some(other)), Err(Error::InvalidInput)));
}

#[test]
fn wrong_key_image_fails_with_invalid_input() {
    let encoded = sealed_encode("Hello World", "png", fixed_key()).unwrap();
    let mut other = fixed_key();
    other[31] ^= 0x80;
    assert!(matches!(decode(&encoded, Some(other)), Err(Error::InvalidInput)));
}

#[test]
fn sealed_text_without_key_is_not_the_plaintext() {
    let encoded = sealed_encode("Hello World", "txt", fixed_key()).unwrap();
    let opened = decode(&encoded, None).unwrap();
    assert_eq!(opened.len(), 1 + 12 + 11 + 16);
    assert_ne!(&opened[13..24], b"Hello World");
}

#[test]
fn truncated_envelope_fails() {
    assert!(matches!(open_envelope(&[12u8, 1, 2, 3], &fixed_key()), Err(Error::InvalidInput)));
    assert!(matches!(open_envelope(&[], &fixed_key()), Err(Error::InvalidInput)));
}

#[test]
fn seal_with_lays_out_control_nonce_and_tag() {
    let nonce = [7u8; 12];
    let sealed = seal_with(b"abc", &fixed_key(), &nonce, 0xffff_ffff).unwrap();
    assert_eq!(sealed[0], 0xe0 | 12);
    assert_eq!(&sealed[1..13], &nonce);
    assert_eq!(sealed.len(), 1 + 12 + 3 + 16);
    assert_eq!(open_envelope(&sealed, &fixed_key()).unwrap(), b"abc".to_vec());
    let zero = seal_with(b"abc", &fixed_key(), &nonce, 0).unwrap();
    assert_eq!(zero[0], 12);
}
