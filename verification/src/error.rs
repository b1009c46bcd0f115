//! The errors of the store, with their AWS codes and messages.

use crate::text::joined;
use vstd::prelude::*;

verus! {

/// `std::io::Error`, carried through unopened.
#[verifier::external_type_specification]
#[verifier::external_body]
pub struct ExIoError(std::io::Error);

/// `serde_json::Error`, carried through unopened.
#[verifier::external_type_specification]
#[verifier::external_body]
pub struct ExJsonError(serde_json::Error);

/// All errors that the store produces.
///
/// `code` gives the AWS-compatible error code, so that callers can assert
/// `err.code() == "NoSuchBucket"`.
#[derive(Debug)]
pub enum Fals3Error {
    NoSuchBucket { bucket: String },
    BucketAlreadyExists { bucket: String },
    BucketNotEmpty { bucket: String },
    InvalidBucketName { name: String, reason: String },
    NoSuchKey { bucket: String, key: String },
    InvalidObjectKey { key: String, reason: String },
    PreconditionFailed,
    NotModified,
    NoSuchUpload { upload_id: String },
    InvalidPart,
    InvalidPartOrder,
    PathEscape { path: String, base: String },
    Io(std::io::Error),
    Json(serde_json::Error),
    Internal(String),
}

/// What an error says, as mathematical values.
#[verifier::ext_equal]
pub enum ErrorView {
    NoSuchBucket { bucket: Seq<char> },
    BucketAlreadyExists { bucket: Seq<char> },
    BucketNotEmpty { bucket: Seq<char> },
    InvalidBucketName { name: Seq<char>, reason: Seq<char> },
    NoSuchKey { bucket: Seq<char>, key: Seq<char> },
    InvalidObjectKey { key: Seq<char>, reason: Seq<char> },
    PreconditionFailed,
    NotModified,
    NoSuchUpload { upload_id: Seq<char> },
    InvalidPart,
    InvalidPartOrder,
    PathEscape { path: Seq<char>, base: Seq<char> },
    Io(std::io::Error),
    Json(serde_json::Error),
    Internal(Seq<char>),
}

impl View for Fals3Error {
    type V = ErrorView;

    open spec fn view(&self) -> ErrorView {
        match *self {
            Fals3Error::NoSuchBucket { bucket } => ErrorView::NoSuchBucket { bucket: bucket@ },
            Fals3Error::BucketAlreadyExists { bucket } => ErrorView::BucketAlreadyExists {
                bucket: bucket@,
            },
            Fals3Error::BucketNotEmpty { bucket } => ErrorView::BucketNotEmpty { bucket: bucket@ },
            Fals3Error::InvalidBucketName { name, reason } => ErrorView::InvalidBucketName {
                name: name@,
                reason: reason@,
            },
            Fals3Error::NoSuchKey { bucket, key } => ErrorView::NoSuchKey {
                bucket: bucket@,
                key: key@,
            },
            Fals3Error::InvalidObjectKey { key, reason } => ErrorView::InvalidObjectKey {
                key: key@,
                reason: reason@,
            },
            Fals3Error::PreconditionFailed => ErrorView::PreconditionFailed,
            Fals3Error::NotModified => ErrorView::NotModified,
            Fals3Error::NoSuchUpload { upload_id } => ErrorView::NoSuchUpload {
                upload_id: upload_id@,
            },
            Fals3Error::InvalidPart => ErrorView::InvalidPart,
            Fals3Error::InvalidPartOrder => ErrorView::InvalidPartOrder,
            Fals3Error::PathEscape { path, base } => ErrorView::PathEscape {
                path: path@,
                base: base@,
            },
            Fals3Error::Io(e) => ErrorView::Io(e),
            Fals3Error::Json(e) => ErrorView::Json(e),
            Fals3Error::Internal(why) => ErrorView::Internal(why@),
        }
    }
}

impl ErrorView {
    /// The AWS error code.
    pub open spec fn code(self) -> Seq<char> {
        match self {
            ErrorView::NoSuchBucket { .. } => "NoSuchBucket"@,
            ErrorView::BucketAlreadyExists { .. } => "BucketAlreadyExists"@,
            ErrorView::BucketNotEmpty { .. } => "BucketNotEmpty"@,
            ErrorView::InvalidBucketName { .. } => "InvalidBucketName"@,
            ErrorView::NoSuchKey { .. } => "NoSuchKey"@,
            ErrorView::InvalidObjectKey { .. } => "InvalidObjectKey"@,
            ErrorView::PreconditionFailed => "PreconditionFailed"@,
            ErrorView::NotModified => "NotModified"@,
            ErrorView::NoSuchUpload { .. } => "NoSuchUpload"@,
            ErrorView::InvalidPart => "InvalidPart"@,
            ErrorView::InvalidPartOrder => "InvalidPartOrder"@,
            ErrorView::PathEscape { .. } => "PathEscape"@,
            ErrorView::Io(_) => "InternalError"@,
            ErrorView::Json(_) => "InternalError"@,
            ErrorView::Internal(_) => "InternalError"@,
        }
    }

    /// The HTTP status code.
    pub open spec fn http_status(self) -> u16 {
        match self {
            ErrorView::NoSuchBucket { .. } => 404,
            ErrorView::BucketAlreadyExists { .. } => 409,
            ErrorView::BucketNotEmpty { .. } => 409,
            ErrorView::InvalidBucketName { .. } => 400,
            ErrorView::NoSuchKey { .. } => 404,
            ErrorView::InvalidObjectKey { .. } => 400,
            ErrorView::PreconditionFailed => 412,
            ErrorView::NotModified => 304,
            ErrorView::NoSuchUpload { .. } => 404,
            ErrorView::InvalidPart => 400,
            ErrorView::InvalidPartOrder => 400,
            ErrorView::PathEscape { .. } => 400,
            ErrorView::Io(_) => 500,
            ErrorView::Json(_) => 500,
            ErrorView::Internal(_) => 500,
        }
    }

    /// The message, where `detail` is the text of the I/O or JSON error inside.
    pub open spec fn message(self, detail: Seq<char>) -> Seq<char> {
        match self {
            ErrorView::NoSuchBucket { .. } => "The specified bucket does not exist"@,
            ErrorView::BucketAlreadyExists { .. } =>
                "The requested bucket name is not available"@,
            ErrorView::BucketNotEmpty { .. } => "The bucket you tried to delete is not empty"@,
            ErrorView::InvalidBucketName { name, reason } => "Invalid bucket name '"@ + name
                + "': "@ + reason,
            ErrorView::NoSuchKey { .. } => "The specified key does not exist"@,
            ErrorView::InvalidObjectKey { key, reason } => "Invalid object key '"@ + key + "': "@
                + reason,
            ErrorView::PreconditionFailed =>
                "At least one of the pre-conditions you specified did not hold"@,
            ErrorView::NotModified => "The specified copy source is not modified"@,
            ErrorView::NoSuchUpload { .. } => "The specified upload does not exist"@,
            ErrorView::InvalidPart => "One or more of the specified parts could not be found"@,
            ErrorView::InvalidPartOrder => "The list of parts was not in ascending order"@,
            ErrorView::PathEscape { path, base } => "Path '"@ + path
                + "' escapes base directory '"@ + base + "'"@,
            ErrorView::Io(_) => "I/O error: "@ + detail,
            ErrorView::Json(_) => "Metadata serialization error: "@ + detail,
            ErrorView::Internal(why) => "Internal error: "@ + why,
        }
    }
}

impl Fals3Error {
    /// AWS-compatible error code, suitable for `err.code` in JS.
    pub fn code(&self) -> (r: &'static str)
        ensures
            r@ == self@.code(),
    {
        match self {
            Fals3Error::NoSuchBucket { .. } => "NoSuchBucket",
            Fals3Error::BucketAlreadyExists { .. } => "BucketAlreadyExists",
            Fals3Error::BucketNotEmpty { .. } => "BucketNotEmpty",
            Fals3Error::InvalidBucketName { .. } => "InvalidBucketName",
            Fals3Error::NoSuchKey { .. } => "NoSuchKey",
            Fals3Error::InvalidObjectKey { .. } => "InvalidObjectKey",
            Fals3Error::PreconditionFailed => "PreconditionFailed",
            Fals3Error::NotModified => "NotModified",
            Fals3Error::NoSuchUpload { .. } => "NoSuchUpload",
            Fals3Error::InvalidPart => "InvalidPart",
            Fals3Error::InvalidPartOrder => "InvalidPartOrder",
            Fals3Error::PathEscape { .. } => "PathEscape",
            Fals3Error::Io(_) => "InternalError",
            Fals3Error::Json(_) => "InternalError",
            Fals3Error::Internal(_) => "InternalError",
        }
    }

    /// HTTP status code analogue.
    pub fn http_status(&self) -> (r: u16)
        ensures
            r == self@.http_status(),
    {
        match self {
            Fals3Error::NoSuchBucket { .. } => 404,
            Fals3Error::BucketAlreadyExists { .. } => 409,
            Fals3Error::BucketNotEmpty { .. } => 409,
            Fals3Error::InvalidBucketName { .. } => 400,
            Fals3Error::NoSuchKey { .. } => 404,
            Fals3Error::InvalidObjectKey { .. } => 400,
            Fals3Error::PreconditionFailed => 412,
            Fals3Error::NotModified => 304,
            Fals3Error::NoSuchUpload { .. } => 404,
            Fals3Error::InvalidPart => 400,
            Fals3Error::InvalidPartOrder => 400,
            Fals3Error::PathEscape { .. } => 400,
            Fals3Error::Io(_) => 500,
            Fals3Error::Json(_) => 500,
            Fals3Error::Internal(_) => 500,
        }
    }

    /// The message, given the text of the I/O or JSON error inside.
    pub fn message_with(&self, detail: &str) -> (r: String)
        ensures
            r@ == self@.message(detail@),
    {
        match self {
            Fals3Error::NoSuchBucket { .. } => "The specified bucket does not exist".to_owned(),
            Fals3Error::BucketAlreadyExists { .. } =>
                "The requested bucket name is not available".to_owned(),
            Fals3Error::BucketNotEmpty { .. } =>
                "The bucket you tried to delete is not empty".to_owned(),
            Fals3Error::InvalidBucketName { name, reason } => {
                let s: String = joined("Invalid bucket name '", name.as_str());
                s.concat("': ").concat(reason.as_str())
            },
            Fals3Error::NoSuchKey { .. } => "The specified key does not exist".to_owned(),
            Fals3Error::InvalidObjectKey { key, reason } => {
                let s: String = joined("Invalid object key '", key.as_str());
                s.concat("': ").concat(reason.as_str())
            },
            Fals3Error::PreconditionFailed =>
                "At least one of the pre-conditions you specified did not hold".to_owned(),
            Fals3Error::NotModified => "The specified copy source is not modified".to_owned(),
            Fals3Error::NoSuchUpload { .. } => "The specified upload does not exist".to_owned(),
            Fals3Error::InvalidPart =>
                "One or more of the specified parts could not be found".to_owned(),
            Fals3Error::InvalidPartOrder =>
                "The list of parts was not in ascending order".to_owned(),
            Fals3Error::PathEscape { path, base } => {
                let s: String = joined("Path '", path.as_str());
                s.concat("' escapes base directory '").concat(base.as_str()).concat("'")
            },
            Fals3Error::Io(_) => joined("I/O error: ", detail),
            Fals3Error::Json(_) => joined("Metadata serialization error: ", detail),
            Fals3Error::Internal(why) => joined("Internal error: ", why.as_str()),
        }
    }

    /// The message of the error.
    ///
    /// For an I/O or JSON error the text of the error inside follows a fixed
    /// opening; what that text says is left to its own type.
    pub fn message(&self) -> (r: String)
        ensures
            exists|detail: Seq<char>| r@ == #[trigger] self@.message(detail),
    {
        match self {
            Fals3Error::Io(e) => self.message_with(e.to_string().as_str()),
            Fals3Error::Json(e) => self.message_with(e.to_string().as_str()),
            _ => self.message_with(""),
        }
    }

    /// What a JavaScript caller sees as `err.message`: `[<code>] <message>`.
    pub fn js_message(&self) -> (r: String)
        ensures
            exists|detail: Seq<char>|
                r@ == "["@ + self@.code() + "] "@ + #[trigger] self@.message(detail),
    {
        let m: String = self.message();
        let s: String = joined("[", self.code());
        s.concat("] ").concat(m.as_str())
    }
}

} // verus!
