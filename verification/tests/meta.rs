//! ETags and metadata.

use fals3::conditions::{
    check_read_preconditions, check_write_preconditions, etag_matches, etags_equal,
    strip_etag_quotes, IfConditions,
};
use fals3::meta::{
    compute_etag, compute_md5_bytes, compute_multipart_etag, default_storage_class, stamp_of,
    ObjectMeta,
};
use std::collections::HashMap;
use std::time::{SystemTime, UNIX_EPOCH};

#[test]
fn etag_empty_body() {
    // MD5 of empty string is well-known.
    assert_eq!(compute_etag(b""), "\"d41d8cd98f00b204e9800998ecf8427e\"");
}

#[test]
fn etag_hello() {
    // MD5("hello") = 5d41402abc4b2a76b9719d911017c592
    assert_eq!(
        compute_etag(b"hello"),
        "\"5d41402abc4b2a76b9719d911017c592\""
    );
}

// ---- ETag stability ----

#[test]
fn etag_same_body_stable() {
    let body = b"hello world";
    assert_eq!(compute_etag(body), compute_etag(body));
}

#[test]
fn etag_different_bodies_differ() {
    assert_ne!(compute_etag(b"hello"), compute_etag(b"world"));
}

#[test]
fn etag_wrapped_in_double_quotes() {
    let etag = compute_etag(b"any content");
    assert!(etag.starts_with('"'), "etag must start with '\"'");
    assert!(etag.ends_with('"'), "etag must end with '\"'");
    assert!(etag.len() > 2, "etag must contain content between quotes");
}

#[test]
fn multipart_etag_concat_md5s() {
    // Two parts, each "abc": md5("abc") = 900150983cd24fb0d6963f7d28e17f72.
    // multipart_etag = md5(<bytes of md5("abc")> || <bytes of md5("abc")>) + "-2".
    let part_md5 = compute_md5_bytes(b"abc");
    let etag = compute_multipart_etag(&[part_md5, part_md5]);
    let mut concat = Vec::new();
    concat.extend_from_slice(&part_md5);
    concat.extend_from_slice(&part_md5);
    let expected = format!("\"{:x}-2\"", md5::compute(&concat));
    assert_eq!(etag, expected);
    assert!(etag.ends_with("-2\""));
}


#[test]
fn md5_bytes_exact() {
    assert_eq!(
        compute_md5_bytes(b"abc"),
        [
            0x90, 0x01, 0x50, 0x98, 0x3c, 0xd2, 0x4f, 0xb0, 0xd6, 0x96, 0x3f, 0x7d, 0x28, 0xe1,
            0x7f, 0x72
        ]
    );
}

#[test]
fn multipart_etags_are_not_those_of_bodies() {
    let one = compute_multipart_etag(&[compute_md5_bytes(b"abc")]);
    assert_ne!(one, compute_etag(b"abc"));
    assert!(one.ends_with("-1\""));
    assert_eq!(compute_multipart_etag(&[]), "\"d41d8cd98f00b204e9800998ecf8427e-0\"");
    let twelve = compute_multipart_etag(&[[0u8; 16]; 12]);
    assert!(twelve.ends_with("-12\""));
}

fn seconds() -> u64 {
    SystemTime::now().duration_since(UNIX_EPOCH).unwrap().as_secs()
}

#[test]
fn new_metadata_is_stamped_with_the_clock() {
    let before = seconds();
    let m = ObjectMeta::new(b"hello", Some("text/plain".into()), HashMap::new(), None);
    let after = seconds();
    assert!(before <= m.last_modified && m.last_modified <= after);
    assert_eq!(m.etag, compute_etag(b"hello"));
    assert_eq!(m.size, 5);
    assert_eq!(m.storage_class, "STANDARD");
    assert_eq!(default_storage_class(), "STANDARD");
    let m = ObjectMeta::with_explicit_etag(7, "\"x-2\"".into(), None, HashMap::new(), None);
    assert!(before <= m.last_modified);
    assert_eq!(m.etag, "\"x-2\"");
    assert_eq!(m.size, 7);
}

fn meta_at(etag: &str, last_modified: u64) -> ObjectMeta {
    ObjectMeta::with_etag_at(1, etag.into(), None, HashMap::new(), None, last_modified)
}

#[test]
fn etags_match_without_quotes_and_space() {
    assert_eq!(strip_etag_quotes("  \"abc\" "), "abc");
    assert_eq!(strip_etag_quotes("\"\"abc"), "abc");
    assert_eq!(strip_etag_quotes("\""), "");
    assert!(etag_matches("abc", "\"abc\""));
    assert!(etag_matches("*", "\"abc\""));
    assert!(etag_matches("\"*\"", "\"abc\""));
    assert!(!etag_matches("abd", "\"abc\""));
    assert!(etags_equal(" abc", "\"abc\""));
    assert!(!etags_equal("*", "\"abc\""));
}

fn read_code(m: &ObjectMeta, c: &IfConditions) -> Option<&'static str> {
    check_read_preconditions(m, c).err().map(|e| e.code())
}

#[test]
fn conditions_on_reads() {
    let m = meta_at("\"abc\"", 100);
    assert_eq!(read_code(&m, &IfConditions::default()), None);
    let c = IfConditions { if_unmodified_since: Some(100), ..Default::default() };
    assert_eq!(read_code(&m, &c), None);
    let c = IfConditions { if_unmodified_since: Some(99), ..Default::default() };
    assert_eq!(read_code(&m, &c), Some("PreconditionFailed"));
    let c = IfConditions { if_modified_since: Some(99), ..Default::default() };
    assert_eq!(read_code(&m, &c), None);
    let c = IfConditions { if_modified_since: Some(100), ..Default::default() };
    assert_eq!(read_code(&m, &c), Some("NotModified"));
    let c = IfConditions {
        if_unmodified_since: Some(99),
        if_none_match: Some("*".into()),
        ..Default::default()
    };
    assert_eq!(read_code(&m, &c), Some("PreconditionFailed"));
}

#[test]
fn conditions_on_writes() {
    let m = meta_at("\"abc\"", 100);
    let code = |e: Option<&ObjectMeta>, c: &IfConditions| {
        check_write_preconditions(e, c).err().map(|e| e.code())
    };
    let c = IfConditions { if_none_match: Some("abc".into()), ..Default::default() };
    assert_eq!(code(Some(&m), &c), Some("PreconditionFailed"));
    assert_eq!(code(None, &c), None);
    let c = IfConditions { if_none_match: Some("abd".into()), ..Default::default() };
    assert_eq!(code(Some(&m), &c), None);
    let c = IfConditions { if_match: Some("*".into()), ..Default::default() };
    assert_eq!(code(Some(&m), &c), None);
    assert_eq!(code(None, &c), Some("PreconditionFailed"));
    let c = IfConditions { if_unmodified_since: Some(99), ..Default::default() };
    assert_eq!(code(Some(&m), &c), Some("PreconditionFailed"));
    assert_eq!(code(None, &c), None);
    let c = IfConditions { if_modified_since: Some(1000), ..Default::default() };
    assert_eq!(code(Some(&m), &c), None);
    assert!(IfConditions::default().is_empty());
    assert!(!c.is_empty());
}

#[test]
fn a_clock_before_the_epoch_stamps_zero() {
    assert_eq!(stamp_of(None), 0);
    assert_eq!(stamp_of(Some(0)), 0);
    assert_eq!(stamp_of(Some(1_700_000_000)), 1_700_000_000);
    assert_eq!(stamp_of(Some(u64::MAX)), u64::MAX);
}
