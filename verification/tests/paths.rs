//! Bucket names, object keys and paths.

use fals3::paths::{
    assert_within_base, bucket_path, components_of, file_name_of, is_sidecar, is_under, join,
    meta_path, object_path, parent_of, temporary_of, validate_bucket_name, validate_key,
};
use fals3::Fals3Error;


#[test]
fn key_single_dot_valid() {
    assert!(validate_key(".").is_ok());
}

#[test]
fn key_double_slash_valid() {
    assert!(validate_key("a//b").is_ok());
}

#[test]
fn key_1024_chars_valid() {
    let key = "a".repeat(1024);
    assert!(validate_key(&key).is_ok());
}

#[test]
fn key_unicode_valid() {
    assert!(validate_key("こんにちは/世界.txt").is_ok());
}

#[test]
fn key_null_byte_in_middle_invalid() {
    assert!(validate_key("valid\0key").is_err());
}

// ---- Bucket name edge cases ----

#[test]
fn bucket_exactly_3_chars_valid() {
    assert!(validate_bucket_name("abc").is_ok());
}

#[test]
fn bucket_exactly_63_chars_valid() {
    let name = "a".repeat(63);
    assert!(validate_bucket_name(&name).is_ok());
}

#[test]
fn bucket_2_chars_invalid() {
    assert!(validate_bucket_name("ab").is_err());
}

#[test]
fn bucket_64_chars_invalid() {
    let name = "a".repeat(64);
    assert!(validate_bucket_name(&name).is_err());
}

#[test]
fn bucket_all_digits_valid() {
    assert!(validate_bucket_name("123").is_ok());
}

#[test]
fn bucket_single_hyphen_in_middle_valid() {
    assert!(validate_bucket_name("a-b").is_ok());
}


// --- bucket name validation ---

#[test]
fn valid_bucket_names() {
    for name in &["abc", "my-bucket", "test123", "a-b-c", "x".repeat(63).as_str()] {
        validate_bucket_name(name).unwrap_or_else(|e| panic!("{name}: {}", e.message()));
    }
}

#[test]
fn bucket_too_short() {
    assert!(validate_bucket_name("ab").is_err());
}

#[test]
fn bucket_too_long() {
    let name = "a".repeat(64);
    assert!(validate_bucket_name(&name).is_err());
}

#[test]
fn bucket_leading_hyphen() {
    assert!(validate_bucket_name("-bad").is_err());
}

#[test]
fn bucket_trailing_hyphen() {
    assert!(validate_bucket_name("bad-").is_err());
}

#[test]
fn bucket_uppercase_rejected() {
    assert!(validate_bucket_name("MyBucket").is_err());
}

#[test]
fn bucket_underscore_rejected() {
    assert!(validate_bucket_name("my_bucket").is_err());
}

// --- key validation ---

#[test]
fn valid_keys() {
    for key in &[
        "file.txt",
        "users/1/avatar.png",
        "deep/nested/path/obj",
        "with spaces/ok",
        "unicode-こんにちは",
    ] {
        validate_key(key).unwrap_or_else(|e| panic!("{key}: {}", e.message()));
    }
}

#[test]
fn empty_key_rejected() {
    assert!(validate_key("").is_err());
}

#[test]
fn nul_byte_rejected() {
    assert!(validate_key("bad\0key").is_err());
}

#[test]
fn dotdot_segment_rejected() {
    assert!(validate_key("../escape").is_err());
    assert!(validate_key("ok/../escape").is_err());
}

#[test]
fn absolute_key_rejected() {
    assert!(validate_key("/absolute").is_err());
}

// --- path helpers ---

#[test]
fn bucket_path_correct() {
    let base = "/tmp/s3";
    assert_eq!(bucket_path(base, "my-bucket"), "/tmp/s3/my-bucket");
}

#[test]
fn object_path_correct() {
    let base = "/tmp/s3";
    assert_eq!(
        object_path(base, "my-bucket", "users/1/avatar.png"),
        "/tmp/s3/my-bucket/users/1/avatar.png"
    );
}

#[test]
fn meta_path_correct() {
    let base = "/tmp/s3";
    assert_eq!(
        meta_path(base, "my-bucket", "users/1/avatar.png"),
        "/tmp/s3/my-bucket/users/1/avatar.png.fals3-meta.json"
    );
}

// ---- reasons ----

fn bucket_reason(name: &str) -> String {
    match validate_bucket_name(name) {
        Err(Fals3Error::InvalidBucketName { name: n, reason }) => {
            assert_eq!(n, name);
            reason
        }
        other => panic!("{name}: {other:?}"),
    }
}

#[test]
fn bucket_reasons_in_order() {
    assert_eq!(bucket_reason("-"), "bucket name must be between 3 and 63 characters");
    assert_eq!(bucket_reason("-A-"), "bucket name must not start or end with a hyphen");
    assert_eq!(
        bucket_reason("aB_"),
        "bucket name must contain only lowercase letters, digits, and hyphens; got 'B'"
    );
    assert_eq!(
        bucket_reason("a.b"),
        "bucket name must contain only lowercase letters, digits, and hyphens; got '.'"
    );
}

#[test]
fn bucket_length_counts_bytes() {
    // Two characters of three bytes each are long enough, and then refused as characters.
    assert_eq!(
        bucket_reason("世界"),
        "bucket name must contain only lowercase letters, digits, and hyphens; got '世'"
    );
}

#[test]
fn bucket_consecutive_hyphens_rejected() {
    assert_eq!(bucket_reason("a--b"), "bucket name must not contain consecutive hyphens");
    assert!(validate_bucket_name("a-b-c-d").is_ok());
}

#[test]
fn the_uploads_directory_is_no_bucket_name() {
    assert!(validate_bucket_name(".fals3-uploads").is_err());
}

fn key_reason(key: &str) -> String {
    match validate_key(key) {
        Err(Fals3Error::InvalidObjectKey { key: k, reason }) => {
            assert_eq!(k, key);
            reason
        }
        other => panic!("{key}: {other:?}"),
    }
}

#[test]
fn key_reasons() {
    assert_eq!(key_reason(""), "key must not be empty");
    assert_eq!(key_reason("/a\0"), "key must not contain NUL bytes");
    assert_eq!(key_reason("/../a"), "key must be a relative path");
    assert_eq!(key_reason("a/.."), "key must not contain '..' segments");
    assert!(validate_key("a/..b/c..").is_ok());
    assert!(validate_key("a/").is_ok());
}

// ---- components ----

#[test]
fn components_skip_what_counts_for_nothing() {
    assert_eq!(components_of("/a//b/./c/"), vec!["/", "a", "b", "c"]);
    assert_eq!(components_of("./a"), vec![".", "a"]);
    assert_eq!(components_of("a/../b"), vec!["a", "..", "b"]);
    assert_eq!(components_of(""), Vec::<String>::new());
}

#[test]
fn paths_are_joined() {
    assert_eq!(join("/a", "b"), "/a/b");
    assert_eq!(join("/a/", "b"), "/a/b");
    assert_eq!(join("/a", "/b"), "/b");
    assert_eq!(join("", "b"), "b");
    assert_eq!(join("/a", ""), "/a/");
}

#[test]
fn file_names_and_parents() {
    assert_eq!(file_name_of("/a/b.txt"), Some("b.txt".to_string()));
    assert_eq!(file_name_of("/a/b/"), Some("b".to_string()));
    assert_eq!(file_name_of("/a/b/."), Some("b".to_string()));
    assert_eq!(file_name_of("/a/.."), None);
    assert_eq!(file_name_of("/"), None);
    assert_eq!(parent_of("/a/b.txt"), Some("/a".to_string()));
    assert_eq!(parent_of("/a"), Some("/".to_string()));
    assert_eq!(parent_of("a"), Some("".to_string()));
    assert_eq!(parent_of("/a//b/"), Some("/a".to_string()));
    assert_eq!(parent_of("/"), None);
    assert_eq!(parent_of(""), None);
}

#[test]
fn temporary_files_stand_beside() {
    assert_eq!(temporary_of("/a/k.fals3-meta.json"), "/a/k.fals3-meta.tmp");
    assert_eq!(temporary_of("/a/meta.json"), "/a/meta.tmp");
    assert_eq!(temporary_of("/a/plain"), "/a/plain.tmp");
    assert_eq!(temporary_of("/a/.hidden"), "/a/.hidden.tmp");
}

#[test]
fn sidecars_by_name() {
    assert!(is_sidecar("k.fals3-meta.json"));
    assert!(is_sidecar(".fals3-meta.json"));
    assert!(!is_sidecar("k.fals3-meta.json.txt"));
    assert!(!is_sidecar("k"));
}

#[test]
fn sidecars_lie_in_the_bucket() {
    assert_eq!(meta_path("/tmp/s3", "my-bucket", "."), "/tmp/s3/my-bucket/..fals3-meta.json");
    assert_eq!(meta_path("/tmp/s3", "bkt", "a/"), "/tmp/s3/bkt/a/.fals3-meta.json");
    assert_eq!(meta_path("/tmp/s3", "bkt", "a/."), "/tmp/s3/bkt/a/..fals3-meta.json");
    assert_eq!(meta_path("/tmp/s3", "bkt", "a//b"), "/tmp/s3/bkt/a//b.fals3-meta.json");
    for key in &[".", "a/", "a/.", "./a", "..a"] {
        assert!(validate_key(key).is_ok());
        assert!(is_under("/base/bkt", &meta_path("/base", "bkt", key)));
    }
}

// ---- staying under the base ----

#[test]
fn paths_under_the_base() {
    assert!(is_under("/base", "/base/bkt/k"));
    assert!(is_under("/base", "/base"));
    assert!(is_under("/base/", "/base//bkt"));
    assert!(!is_under("/base", "/based/bkt"));
    assert!(!is_under("/base", "base/bkt"));
}

#[test]
fn escapes_are_refused() {
    assert!(assert_within_base("/base", "/base/b/k", "/base/b/k").is_ok());
    match assert_within_base("/base", "/base/b/k", "/elsewhere/k") {
        Err(Fals3Error::PathEscape { path, base }) => {
            assert_eq!(path, "/base/b/k");
            assert_eq!(base, "/base");
        }
        other => panic!("{other:?}"),
    }
}

#[test]
fn every_good_key_stays_in_its_bucket() {
    for key in &["k", "a/b", "a//b", "./a", "a/./b", "..a", "a/.", "with space"] {
        assert!(validate_key(key).is_ok());
        assert!(is_under("/base/bkt", &object_path("/base", "bkt", key)));
    }
}
