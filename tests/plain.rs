use qrstream::error::Error;
use qrstream::pipeline::{decode, encode_image, encode_text};
use qrstream::split::EcLevel;

const QRSTREAM_MAGIC: &str = "QRST";
const QRSTREAM_VERSION: u8 = 1;

fn plain_encode(data: &str, format: &str) -> Result<Vec<u8>, Error> {
    if format == "txt" {
        encode_text(data.as_bytes(), None, EcLevel::Quartile)
    } else {
        encode_image(data.as_bytes(), None, EcLevel::Quartile, 1)
    }
}

#[test]
fn plain_test_format_txt_encode() {
    let data = "Hello World";
    let stdout = String::from_utf8(plain_encode(data, "txt").unwrap()).unwrap();
    assert!(stdout.starts_with(&format!("{QRSTREAM_MAGIC}/{QRSTREAM_VERSION};p=11;t=")));
}

#[test]
fn plain_test_format_txt_decode() {
    let data = "Hello World";
    let encoded = plain_encode(data, "txt").unwrap();
    let decoded = String::from_utf8(decode(&encoded, None).unwrap()).unwrap();
    assert_eq!(data, decoded);
}

#[test]
fn plain_test_format_png_encode() {
    let data = "Hello World";
    assert!(plain_encode(data, "png").unwrap().starts_with(b"\x89PNG\x0d\x0a\x1a\x0a"));
}

#[test]
fn plain_test_format_png_decode() {
    let data = "Hello World";
    let encoded = plain_encode(data, "png").unwrap();
    let decoded = String::from_utf8(decode(&encoded, None).unwrap()).unwrap();
    assert_eq!(data, decoded);
}
