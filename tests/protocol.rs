use qrstream::assemble::assemble_text;
use qrstream::codec::{from_text, to_text};
use qrstream::error::Error;
use qrstream::frame::{frame_line, parse_fragment};
use qrstream::options::{parse_ec_level, InputSource, OutputFormat, PasswordSource};
use qrstream::pipeline::{decode, decode_text, encode_data, encode_payload, is_png, text_output};
use qrstream::render::render;
use qrstream::split::{split_parts, EcLevel};

fn lines(parts: &[&str]) -> Vec<u8> {
    let mut out = Vec::new();
    for p in parts {
        out.extend_from_slice(p.as_bytes());
        out.push(b'\n');
    }
    out
}

#[test]
fn frame_line_packs_index_and_count() {
    assert_eq!(frame_line(b"abc", 0, 1), b"QRST/1;p=11;t=abc".to_vec());
    assert_eq!(frame_line(b"x", 2, 5), b"QRST/1;p=35;t=x".to_vec());
    assert_eq!(frame_line(b"", 14, 16), b"QRST/1;p=f0;t=".to_vec());
    assert_eq!(frame_line(b"z", 15, 16), b"QRST/1;p=00;t=z".to_vec());
}

#[test]
fn parse_fragment_reads_fields() {
    let f = parse_fragment(b"QRST/1;p=35;t=hello").unwrap().unwrap();
    assert_eq!((f.index, f.count, f.text), (2, 5, b"hello".to_vec()));
    let f = parse_fragment(b"QRST/1;t=early;p=12;t=late").unwrap().unwrap();
    assert_eq!((f.index, f.count, f.text), (0, 2, b"late".to_vec()));
    let f = parse_fragment(b"QRST/1;p=00;t=end").unwrap().unwrap();
    assert_eq!((f.index, f.count), (15, 16));
    let f = parse_fragment(b"QRST/0;p=1A;t=").unwrap().unwrap();
    assert_eq!((f.index, f.count, f.text), (0, 10, Vec::new()));
    assert!(parse_fragment(b"something else").unwrap().is_none());
    assert!(parse_fragment(b"").unwrap().is_none());
}

#[test]
fn parse_fragment_errors() {
    assert!(matches!(parse_fragment(b"QRST/1"), Err(Error::InvalidInput)));
    assert!(matches!(parse_fragment(b"QRST;p=11;t=a"), Err(Error::InvalidInput)));
    assert!(matches!(parse_fragment(b"QRST/2;p=11;t=a"), Err(Error::ValueValidation)));
    assert!(matches!(parse_fragment(b"QRST/x;p=11;t=a"), Err(Error::ValueValidation)));
    assert!(matches!(parse_fragment(b"QRST/1;p=zz;t=a"), Err(Error::ValueValidation)));
    assert!(matches!(parse_fragment(b"QRST/1;p=12;p=13;t=a"), Err(Error::ValueValidation)));
    assert!(matches!(parse_fragment(b"QRST/1;p=21;t=a"), Err(Error::ValueValidation)));
    assert!(matches!(parse_fragment(b"QRST/1;p=11"), Err(Error::InvalidInput)));
    assert!(matches!(parse_fragment(b"QRST/1;t=a"), Err(Error::InvalidInput)));
}

#[test]
fn assemble_orders_parts_and_skips_other_lines() {
    let text = lines(&["intro", "QRST/1;p=23;t=bb", "QRST/1;p=33;t=c", "noise", "QRST/1;p=13;t=aa"]);
    assert_eq!(assemble_text(&text).unwrap(), b"aabbc".to_vec());
    let crlf = b"QRST/1;p=12;t=ab\r\nQRST/1;p=22;t=cd\r\n".to_vec();
    assert_eq!(assemble_text(&crlf).unwrap(), b"abcd".to_vec());
}

#[test]
fn assemble_rejects_mixed_counts() {
    let text = lines(&["QRST/1;p=12;t=a", "QRST/1;p=23;t=b"]);
    assert!(matches!(assemble_text(&text), Err(Error::ValueValidation)));
}

#[test]
fn assemble_rejects_missing_index() {
    let text = lines(&["QRST/1;p=13;t=a", "QRST/1;p=33;t=c"]);
    assert!(matches!(assemble_text(&text), Err(Error::ValueValidation)));
}

#[test]
fn assemble_rejects_duplicates_and_empty_input() {
    let text = lines(&["QRST/1;p=12;t=a", "QRST/1;p=22;t=b", "QRST/1;p=22;t=b"]);
    assert!(matches!(assemble_text(&text), Err(Error::InvalidInput)));
    assert!(matches!(assemble_text(b"no frames here"), Err(Error::InvalidInput)));
    assert!(matches!(assemble_text(b""), Err(Error::InvalidInput)));
}

#[test]
fn base64_text_is_url_safe_without_padding() {
    assert_eq!(to_text(&[0xfb, 0xff]), b"-_8".to_vec());
    assert_eq!(to_text(b"Hello World"), b"SGVsbG8gV29ybGQ".to_vec());
    assert_eq!(from_text(b"SGVsbG8gV29ybGQ").unwrap(), b"Hello World".to_vec());
    assert!(matches!(from_text(b"SGVsbG8gV29ybGQ="), Err(Error::InvalidInput)));
    assert!(matches!(from_text(b"a"), Err(Error::InvalidInput)));
}

#[test]
fn plain_text_encoding_is_exact() {
    let parts = encode_data(b"Hello World", None, EcLevel::Quartile).unwrap();
    assert_eq!(parts.len(), 1);
    assert_eq!(text_output(&parts), b"QRST/1;p=11;t=SGVsbG8gV29ybGQ\n".to_vec());
    assert!(parts[0].symbol.width >= 21);
    assert_eq!(parts[0].symbol.modules.len(), parts[0].symbol.width * parts[0].symbol.width);
}

#[test]
fn decoding_is_invariant_under_reordering() {
    let data: Vec<u8> = (0..4000u32).map(|i| (i * 7 + 3) as u8).collect();
    let parts = encode_data(&data, None, EcLevel::Low).unwrap();
    assert!(parts.len() >= 2);
    let mut shuffled = Vec::new();
    shuffled.extend_from_slice(b"header line\n");
    for p in parts.iter().rev() {
        shuffled.extend_from_slice(&p.line);
        shuffled.extend_from_slice(b"\nnot a frame\n");
    }
    assert_eq!(decode_text(&shuffled, None).unwrap(), data);
    assert_eq!(decode_text(&text_output(&parts), None).unwrap(), data);
}

#[test]
fn split_uses_the_fewest_parts() {
    let data: Vec<u8> = (0..4000u32).map(|i| (i * 13) as u8).collect();
    let text = to_text(&data);
    let parts = split_parts(&text, EcLevel::Low).unwrap();
    assert_eq!(parts.len(), 2);
    let one = encode_payload(b"short", EcLevel::High).unwrap();
    assert_eq!(one.len(), 1);
}

#[test]
fn oversized_payload_fails_with_usage() {
    let data: Vec<u8> = (0..30000u32).map(|i| (i % 251) as u8).collect();
    assert!(matches!(encode_data(&data, None, EcLevel::High), Err(Error::Usage)));
}

#[test]
fn empty_payload_round_trips() {
    let parts = encode_data(b"", None, EcLevel::Medium).unwrap();
    assert_eq!(text_output(&parts), b"QRST/1;p=11;t=\n".to_vec());
    assert_eq!(decode(&text_output(&parts), None).unwrap(), Vec::<u8>::new());
}

#[test]
fn decode_rejects_non_utf8_and_bad_png() {
    assert!(matches!(decode(&[0xff, 0xfe, 0x00], None), Err(Error::InvalidInput)));
    let fake_png = b"\x89PNG\x0d\x0a\x1a\x0a garbage".to_vec();
    assert!(is_png(&fake_png));
    assert!(!is_png(b"\x89PNG\x0d\x0a\x1a\x0a"));
    assert!(matches!(decode(&fake_png, None), Err(Error::InvalidInput)));
}

#[test]
fn option_values_parse() {
    assert!(matches!(OutputFormat::parse("png"), Ok(OutputFormat::Png)));
    assert!(matches!(OutputFormat::parse("txt"), Ok(OutputFormat::Txt)));
    assert!(matches!(OutputFormat::parse("gif"), Err(Error::ValueValidation)));
    assert!(matches!(parse_ec_level("Q"), Ok(EcLevel::Quartile)));
    assert!(matches!(parse_ec_level("H"), Ok(EcLevel::High)));
    assert!(matches!(parse_ec_level("X"), Err(Error::ValueValidation)));
    assert!(matches!(InputSource::parse("stdin", false), Ok(InputSource::Stdin)));
    assert!(matches!(InputSource::parse("camera", false), Ok(InputSource::Camera)));
    match InputSource::parse("env:DATA", false) {
        Ok(InputSource::Env(n)) => assert_eq!(n, b"DATA".to_vec()),
        _ => panic!("expected env source"),
    }
    assert!(matches!(InputSource::parse("missing.bin", false), Err(Error::InvalidInput)));
    assert!(matches!(InputSource::parse("here.bin", true), Ok(InputSource::File(_))));
}

#[test]
fn password_sources_parse() {
    assert!(matches!(PasswordSource::parse("prompt"), Ok(PasswordSource::Prompt)));
    match PasswordSource::parse("secret words") {
        Ok(PasswordSource::Value(v)) => assert_eq!(v, b"secret words".to_vec()),
        _ => panic!("expected a passphrase"),
    }
    let odd = format!("key:{}", "f".repeat(63));
    match PasswordSource::parse(&odd) {
        Ok(PasswordSource::Key(k)) => {
            assert_eq!(k[0], 0x0f);
            assert_eq!(k[31], 0xff);
        }
        _ => panic!("expected a key"),
    }
    assert!(matches!(PasswordSource::parse("key:abcd"), Err(Error::InvalidInput)));
    let bad = format!("key:{}", "g".repeat(64));
    assert!(matches!(PasswordSource::parse(&bad), Err(Error::InvalidInput)));
}

#[test]
fn canvas_layout_follows_per_row() {
    let parts = encode_data(b"Hello World", None, EcLevel::Quartile).unwrap();
    let w = parts[0].symbol.width;
    let scale = std::cmp::max(4, 360 / w);
    let side = (w * scale) as u32;
    let img = render(&parts, 1).unwrap();
    assert_eq!(img.width, side + 128);
    assert_eq!(img.height, side + 128);
    assert_eq!(img.pixels.len(), (img.width * img.height) as usize);
    assert_eq!(img.pixels[0], 255);
    let wide = render(&parts, 3).unwrap();
    assert_eq!(wide.width, 3 * side + 4 * 64);
    assert!(matches!(render(&parts, 0), Err(Error::ValueValidation)));
}

#[test]
fn image_needs_a_positive_row_width() {
    let r = qrstream::pipeline::encode_image(b"Hello World", None, EcLevel::Quartile, 0);
    assert!(matches!(r, Err(Error::ValueValidation)));
    let two = qrstream::pipeline::encode_image(b"Hello World", None, EcLevel::Quartile, 2).unwrap();
    assert!(two.starts_with(b"\x89PNG\x0d\x0a\x1a\x0a"));
    assert_eq!(decode(&two, None).unwrap(), b"Hello World".to_vec());
}

#[test]
fn signs_are_not_digits() {
    assert!(matches!(parse_fragment(b"QRST/+1;p=11;t=a"), Err(Error::ValueValidation)));
    assert!(matches!(parse_fragment(b"QRST/1;p=+1;t=a"), Err(Error::ValueValidation)));
    let plus = format!("key:+f{}", "f".repeat(62));
    assert!(matches!(PasswordSource::parse(&plus), Err(Error::InvalidInput)));
}

#[test]
fn shown_key_parses_back() {
    let key: [u8; 32] = std::array::from_fn(|i| (i as u8).wrapping_mul(37).wrapping_add(5));
    let hex = qrstream::options::key_hex(&key);
    assert_eq!(hex.len(), 64);
    assert_eq!(&hex[0..4], b"052a");
    let text = format!("key:{}", String::from_utf8(hex).unwrap());
    match PasswordSource::parse(&text) {
        Ok(PasswordSource::Key(k)) => assert_eq!(k, key),
        _ => panic!("expected the same key"),
    }
}

#[test]
fn text_output_is_one_line_per_part() {
    let data: Vec<u8> = (0..4000u32).map(|i| (i * 29) as u8).collect();
    let text = qrstream::pipeline::encode_text(&data, None, EcLevel::Low).unwrap();
    let parts = encode_data(&data, None, EcLevel::Low).unwrap();
    assert_eq!(text, text_output(&parts));
    let lines: Vec<&[u8]> = text.split(|b| *b == b'\n').filter(|l| !l.is_empty()).collect();
    assert_eq!(lines.len(), parts.len());
    assert!(lines[0].starts_with(b"QRST/1;p=12;t="));
    assert!(lines[1].starts_with(b"QRST/1;p=22;t="));
}

#[test]
fn sealed_text_grows_by_tag_and_header() {
    let key = [9u8; 32];
    let sealed = qrstream::codec::seal(b"Hello World", &key).unwrap();
    assert_eq!(sealed.len(), 1 + 12 + 11 + 16);
    assert_eq!(sealed[0] & 0x1f, 12);
}
