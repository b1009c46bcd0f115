//! The record of a multipart upload.

use std::collections::HashMap;
use vstd::prelude::*;

verus! {

/// What is on record of a multipart upload under way.
#[derive(Debug)]
pub struct UploadMeta {
    pub bucket: String,
    pub key: String,
    pub content_type: Option<String>,
    pub user_metadata: HashMap<String, String>,
    pub content_encoding: Option<String>,
    /// Unix timestamp (seconds).
    pub started_at: u64,
}

/// What the record of an upload says, as mathematical values.
#[verifier::ext_equal]
pub struct UploadView {
    pub bucket: Seq<char>,
    pub key: Seq<char>,
    pub content_type: Option<Seq<char>>,
    pub user_metadata: Map<Seq<char>, Seq<char>>,
    pub content_encoding: Option<Seq<char>>,
    pub started_at: u64,
}

impl View for UploadMeta {
    type V = UploadView;

    open spec fn view(&self) -> UploadView {
        UploadView {
            bucket: self.bucket@,
            key: self.key@,
            content_type: self.content_type.deep_view(),
            user_metadata: self.user_metadata.deep_view(),
            content_encoding: self.content_encoding.deep_view(),
            started_at: self.started_at,
        }
    }
}

} // verus!
