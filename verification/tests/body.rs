use std::io::Write;

use flate2::write::GzEncoder;
use flate2::Compression;
use pidjezdy::body::{
    decode_body, error_body_preview, keep_within_limit, prefix_within_limit, preview_text,
    DecodeError, GZIP_MAGIC, MAX_BODY_BYTES, MAX_ERROR_BODY_BYTES,
};

const DEPARTURES: &[u8] = br#"[[{"departure":{"timestamp_scheduled":"2026-09-04T12:10:00+02:00"}}]]"#;

fn gzip(bytes: &[u8]) -> Vec<u8> {
    let mut encoder = GzEncoder::new(Vec::new(), Compression::default());
    encoder.write_all(bytes).unwrap();
    encoder.finish().unwrap()
}

#[test]
fn decodes_plain_and_gzip_bodies_by_magic_bytes() {
    assert_eq!(decode_body(DEPARTURES).unwrap(), DEPARTURES);
    assert_eq!(decode_body(&gzip(DEPARTURES)).unwrap(), DEPARTURES);
}

#[test]
fn rejects_invalid_gzip_bodies() {
    assert!(matches!(
        decode_body(&[GZIP_MAGIC[0], GZIP_MAGIC[1], 0, 1, 2]),
        Err(DecodeError::Decompress(_))
    ));
}

#[test]
fn rejects_oversized_raw_and_decompressed_bodies() {
    let oversized = vec![b' '; usize::try_from(MAX_BODY_BYTES).unwrap() + 1];
    assert!(keep_within_limit(oversized.clone(), MAX_BODY_BYTES).is_none());
    assert!(keep_within_limit(vec![b' '; 10], MAX_BODY_BYTES).is_some());

    assert!(matches!(
        decode_body(&gzip(&oversized)),
        Err(DecodeError::ResponseTooLarge {
            limit: MAX_BODY_BYTES
        })
    ));
}

#[test]
fn fetch_handles_gzip_bytes_without_relying_on_the_header() {
    let compressed = gzip(DEPARTURES);
    assert_ne!(compressed, DEPARTURES);
    assert_eq!(decode_body(&compressed).unwrap(), DEPARTURES);
}

#[test]
fn fetch_handles_a_misleading_gzip_header() {
    assert_eq!(decode_body(DEPARTURES).unwrap(), DEPARTURES);
}

#[test]
fn fetch_reports_unsuccessful_http_status() {
    assert_eq!(error_body_preview(b"temporarily unavailable", false), "temporarily unavailable");
    let corrupt_gzip = [GZIP_MAGIC[0], GZIP_MAGIC[1], 0, 1, 2];
    let preview = error_body_preview(&corrupt_gzip, false);
    assert!(!preview.is_empty());

    let oversized = vec![b'x'; usize::try_from(MAX_ERROR_BODY_BYTES).unwrap() + 1];
    let (raw, truncated) = prefix_within_limit(oversized, MAX_ERROR_BODY_BYTES);
    assert!(truncated);
    assert_eq!(raw.len() as u64, MAX_ERROR_BODY_BYTES);
    assert!(error_body_preview(&raw, truncated).ends_with('…'));
}

#[test]
fn error_previews_collapse_white_space_and_controls() {
    assert_eq!(preview_text("  a \u{7}\n b\t\tc  ", false), "a b c");
    assert_eq!(preview_text(" \n\t", false), "empty response body");
    assert_eq!(preview_text("", true), "empty response body");
    assert_eq!(preview_text("cut", true), "cut…");
    assert_eq!(error_body_preview(&gzip(b"  gone \n away "), false), "gone away");
    let long = vec![b'y'; usize::try_from(MAX_ERROR_BODY_BYTES).unwrap() + 5];
    let preview = error_body_preview(&gzip(&long), false);
    assert!(preview.ends_with('…'));
    assert_eq!(preview.chars().count() as u64, MAX_ERROR_BODY_BYTES + 1);
    assert_eq!(error_body_preview(&[0xff, b'a'], false), "\u{fffd}a");
}

#[test]
fn ascii_error_bodies_are_previewed_as_they_are() {
    assert_eq!(error_body_preview(b"Service Unavailable", false), "Service Unavailable");
}
