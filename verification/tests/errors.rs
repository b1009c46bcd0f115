//! Errors, their codes and their messages.

use fals3::Fals3Error;

#[test]
fn no_such_bucket_code() {
    let e = Fals3Error::NoSuchBucket { bucket: "x".into() };
    assert_eq!(e.code(), "NoSuchBucket");
    assert_eq!(e.http_status(), 404);
}

#[test]
fn bucket_already_exists_code() {
    let e = Fals3Error::BucketAlreadyExists { bucket: "x".into() };
    assert_eq!(e.code(), "BucketAlreadyExists");
    assert_eq!(e.http_status(), 409);
}

#[test]
fn no_such_key_code() {
    let e = Fals3Error::NoSuchKey { bucket: "b".into(), key: "k".into() };
    assert_eq!(e.code(), "NoSuchKey");
    assert_eq!(e.http_status(), 404);
}

#[test]
fn precondition_failed_code() {
    assert_eq!(Fals3Error::PreconditionFailed.code(), "PreconditionFailed");
    assert_eq!(Fals3Error::PreconditionFailed.http_status(), 412);
}

#[test]
fn io_error_maps_to_internal() {
    let e = Fals3Error::Io(std::io::Error::new(std::io::ErrorKind::Other, "disk full"));
    assert_eq!(e.code(), "InternalError");
    assert_eq!(e.http_status(), 500);
}

// ---- Error code mapping ----

#[test]
fn error_code_no_such_bucket() {
    assert_eq!(
        Fals3Error::NoSuchBucket { bucket: "b".into() }.code(),
        "NoSuchBucket"
    );
}

#[test]
fn error_code_bucket_already_exists() {
    assert_eq!(
        Fals3Error::BucketAlreadyExists { bucket: "b".into() }.code(),
        "BucketAlreadyExists"
    );
}

#[test]
fn error_code_bucket_not_empty() {
    assert_eq!(
        Fals3Error::BucketNotEmpty { bucket: "b".into() }.code(),
        "BucketNotEmpty"
    );
}

#[test]
fn error_code_invalid_bucket_name() {
    assert_eq!(
        Fals3Error::InvalidBucketName {
            name: "B".into(),
            reason: "uppercase".into()
        }
        .code(),
        "InvalidBucketName"
    );
}

#[test]
fn error_code_no_such_key() {
    assert_eq!(
        Fals3Error::NoSuchKey {
            bucket: "b".into(),
            key: "k".into()
        }
        .code(),
        "NoSuchKey"
    );
}

#[test]
fn error_code_invalid_object_key() {
    assert_eq!(
        Fals3Error::InvalidObjectKey {
            key: "".into(),
            reason: "empty".into()
        }
        .code(),
        "InvalidObjectKey"
    );
}

#[test]
fn error_code_precondition_failed() {
    assert_eq!(Fals3Error::PreconditionFailed.code(), "PreconditionFailed");
}

#[test]
fn error_code_not_modified() {
    assert_eq!(Fals3Error::NotModified.code(), "NotModified");
}

#[test]
fn error_code_no_such_upload() {
    assert_eq!(
        Fals3Error::NoSuchUpload {
            upload_id: "u".into()
        }
        .code(),
        "NoSuchUpload"
    );
}

#[test]
fn error_code_invalid_part() {
    assert_eq!(Fals3Error::InvalidPart.code(), "InvalidPart");
}

#[test]
fn error_code_invalid_part_order() {
    assert_eq!(Fals3Error::InvalidPartOrder.code(), "InvalidPartOrder");
}

#[test]
fn error_code_path_escape() {
    assert_eq!(
        Fals3Error::PathEscape {
            path: "/tmp/escape".into(),
            base: "/tmp/safe".into()
        }
        .code(),
        "PathEscape"
    );
}

#[test]
fn error_code_io_internal() {
    let e = Fals3Error::Io(std::io::Error::other("disk full"));
    assert_eq!(e.code(), "InternalError");
}

#[test]
fn error_code_json_internal() {
    let json_err: serde_json::Error =
        serde_json::from_str::<serde_json::Value>("not json").unwrap_err();
    assert_eq!(Fals3Error::Json(json_err).code(), "InternalError");
}

#[test]
fn error_code_internal_string() {
    assert_eq!(
        Fals3Error::Internal("something went wrong".into()).code(),
        "InternalError"
    );
}


// ---- status and messages ----

#[test]
fn http_statuses() {
    let b = || "b".to_string();
    let all: Vec<(Fals3Error, u16)> = vec![
        (Fals3Error::NoSuchBucket { bucket: b() }, 404),
        (Fals3Error::BucketAlreadyExists { bucket: b() }, 409),
        (Fals3Error::BucketNotEmpty { bucket: b() }, 409),
        (Fals3Error::InvalidBucketName { name: b(), reason: b() }, 400),
        (Fals3Error::NoSuchKey { bucket: b(), key: b() }, 404),
        (Fals3Error::InvalidObjectKey { key: b(), reason: b() }, 400),
        (Fals3Error::PreconditionFailed, 412),
        (Fals3Error::NotModified, 304),
        (Fals3Error::NoSuchUpload { upload_id: b() }, 404),
        (Fals3Error::InvalidPart, 400),
        (Fals3Error::InvalidPartOrder, 400),
        (Fals3Error::PathEscape { path: b(), base: b() }, 400),
        (Fals3Error::Internal(b()), 500),
    ];
    for (e, status) in all {
        assert_eq!(e.http_status(), status);
    }
}

#[test]
fn messages() {
    let e = Fals3Error::NoSuchBucket { bucket: "ghost".into() };
    assert_eq!(e.message(), "The specified bucket does not exist");
    assert_eq!(e.js_message(), "[NoSuchBucket] The specified bucket does not exist");
    let e = Fals3Error::InvalidBucketName { name: "B".into(), reason: "uppercase".into() };
    assert_eq!(e.message(), "Invalid bucket name 'B': uppercase");
    let e = Fals3Error::InvalidObjectKey { key: "k".into(), reason: "why".into() };
    assert_eq!(e.message(), "Invalid object key 'k': why");
    let e = Fals3Error::PathEscape { path: "/x".into(), base: "/b".into() };
    assert_eq!(e.message(), "Path '/x' escapes base directory '/b'");
    let e = Fals3Error::Internal("oops".into());
    assert_eq!(e.message(), "Internal error: oops");
    assert_eq!(e.js_message(), "[InternalError] Internal error: oops");
    assert_eq!(
        Fals3Error::PreconditionFailed.message(),
        "At least one of the pre-conditions you specified did not hold"
    );
    assert_eq!(
        Fals3Error::NotModified.message(),
        "The specified copy source is not modified"
    );
    assert_eq!(
        Fals3Error::InvalidPartOrder.message(),
        "The list of parts was not in ascending order"
    );
}

#[test]
fn messages_of_outside_errors() {
    let e = Fals3Error::Io(std::io::Error::new(std::io::ErrorKind::Other, "disk full"));
    assert_eq!(e.message(), "I/O error: disk full");
    let json = serde_json::from_str::<serde_json::Value>("not json").unwrap_err();
    let shown = json.to_string();
    assert_eq!(
        Fals3Error::Json(json).message(),
        format!("Metadata serialization error: {shown}")
    );
}
