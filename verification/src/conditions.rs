//! Preconditions on reads, writes and copy sources.

use crate::error::Fals3Error;
use crate::error::ErrorView;
use crate::meta::ObjectMeta;
use crate::meta::MetaView;
use crate::text;
use crate::text::{same_text, trim, Margin};
use vstd::prelude::*;

verus! {

/// HTTP-style precondition headers used by S3 for conditional reads, writes, and
/// copy-source checks.
///
/// On reads, a failed `if_match` or `if_unmodified_since` gives
/// `PreconditionFailed`, a failed `if_none_match` or `if_modified_since` gives
/// `NotModified`. On writes, `if_none_match: "*"` means that the object must not
/// exist, and `if_match` that it must exist with this ETag.
///
/// ETags may be given with or without double quotes around them. The wildcard
/// `*` matches any existing object.
#[derive(Debug, Clone)]
pub struct IfConditions {
    pub if_match: Option<String>,
    pub if_none_match: Option<String>,
    /// Unix timestamp (seconds).
    pub if_modified_since: Option<u64>,
    /// Unix timestamp (seconds).
    pub if_unmodified_since: Option<u64>,
}

/// What the conditions say, as mathematical values.
#[verifier::ext_equal]
pub struct ConditionsView {
    pub if_match: Option<Seq<char>>,
    pub if_none_match: Option<Seq<char>>,
    pub if_modified_since: Option<u64>,
    pub if_unmodified_since: Option<u64>,
}

impl View for IfConditions {
    type V = ConditionsView;

    open spec fn view(&self) -> ConditionsView {
        ConditionsView {
            if_match: self.if_match.deep_view(),
            if_none_match: self.if_none_match.deep_view(),
            if_modified_since: self.if_modified_since,
            if_unmodified_since: self.if_unmodified_since,
        }
    }
}

impl ConditionsView {
    /// No condition is set.
    pub open spec fn is_empty(self) -> bool {
        &&& self.if_match is None
        &&& self.if_none_match is None
        &&& self.if_modified_since is None
        &&& self.if_unmodified_since is None
    }
}

impl Default for IfConditions {
    fn default() -> (r: Self)
        ensures
            r@.is_empty(),
    {
        IfConditions {
            if_match: None,
            if_none_match: None,
            if_modified_since: None,
            if_unmodified_since: None,
        }
    }
}

impl IfConditions {
    /// Whether no condition is set.
    pub fn is_empty(&self) -> (r: bool)
        ensures
            r == self@.is_empty(),
    {
        self.if_match.is_none() && self.if_none_match.is_none() && self.if_modified_since.is_none()
            && self.if_unmodified_since.is_none()
    }
}

/// An ETag without the space and the double quotes around it.
pub open spec fn bare(etag: Seq<char>) -> Seq<char> {
    text::trimmed(text::trimmed(etag, Margin::Space), Margin::Quote)
}

/// The ETag `provided` in a condition matches the `actual` one.
pub open spec fn matches_etag(provided: Seq<char>, actual: Seq<char>) -> bool {
    bare(provided) == "*"@ || bare(provided) == bare(actual)
}

/// An ETag without the space and the double quotes around it.
pub fn strip_etag_quotes(s: &str) -> (r: String)
    ensures
        r@ == bare(s@),
{
    let t: String = trim(s, Margin::Space);
    trim(t.as_str(), Margin::Quote)
}

/// Whether the ETag in a condition matches the actual one.
pub fn etag_matches(provided: &str, actual_quoted: &str) -> (r: bool)
    ensures
        r == matches_etag(provided@, actual_quoted@),
{
    let p: String = strip_etag_quotes(provided);
    let a: String = strip_etag_quotes(actual_quoted);
    same_text(p.as_str(), "*") || p == a
}

/// Whether two ETags are the same but for space and quotes around them.
pub fn etags_equal(a: &str, b: &str) -> (r: bool)
    ensures
        r == (bare(a@) == bare(b@)),
{
    strip_etag_quotes(a) == strip_etag_quotes(b)
}

/// Why an existing object may not be read under the conditions `c`, if so.
///
/// The conditions count in this order: `if_match`, `if_unmodified_since`,
/// `if_none_match`, `if_modified_since`.
pub open spec fn read_fault(meta: MetaView, c: ConditionsView) -> Option<ErrorView> {
    if c.if_match is Some && !matches_etag(c.if_match->0, meta.etag) {
        Some(ErrorView::PreconditionFailed)
    } else if c.if_unmodified_since is Some && meta.last_modified > c.if_unmodified_since->0 {
        Some(ErrorView::PreconditionFailed)
    } else if c.if_none_match is Some && matches_etag(c.if_none_match->0, meta.etag) {
        Some(ErrorView::NotModified)
    } else if c.if_modified_since is Some && meta.last_modified <= c.if_modified_since->0 {
        Some(ErrorView::NotModified)
    } else {
        None
    }
}

/// An object may be written over `existing` under the conditions `c`.
pub open spec fn may_write(existing: Option<MetaView>, c: ConditionsView) -> bool {
    match existing {
        Some(meta) => {
            &&& c.if_none_match is Some ==> !matches_etag(c.if_none_match->0, meta.etag)
            &&& c.if_match is Some ==> matches_etag(c.if_match->0, meta.etag)
            &&& c.if_unmodified_since is Some ==> meta.last_modified <= c.if_unmodified_since->0
        },
        None => c.if_match is None,
    }
}

/// Why an object may not be written over `existing` under the conditions `c`, if
/// so.
pub open spec fn write_fault(existing: Option<MetaView>, c: ConditionsView) -> Option<ErrorView> {
    if may_write(existing, c) {
        None
    } else {
        Some(ErrorView::PreconditionFailed)
    }
}

/// Evaluate preconditions against an existing object, in the order of AWS S3:
///
/// 1. `If-Match`: `PreconditionFailed`
/// 2. `If-Unmodified-Since`: `PreconditionFailed`
/// 3. `If-None-Match`: `NotModified`
/// 4. `If-Modified-Since`: `NotModified`
pub fn check_read_preconditions(meta: &ObjectMeta, c: &IfConditions) -> (r: Result<(), Fals3Error>)
    ensures
        match r {
            Ok(_) => read_fault(meta@, c@) is None,
            Err(e) => read_fault(meta@, c@) == Some(e@),
        },
{
    if let Some(im) = &c.if_match {
        if !etag_matches(im.as_str(), meta.etag.as_str()) {
            return Err(Fals3Error::PreconditionFailed);
        }
    }
    if let Some(ts) = c.if_unmodified_since {
        if meta.last_modified > ts {
            return Err(Fals3Error::PreconditionFailed);
        }
    }
    if let Some(inm) = &c.if_none_match {
        if etag_matches(inm.as_str(), meta.etag.as_str()) {
            return Err(Fals3Error::NotModified);
        }
    }
    if let Some(ts) = c.if_modified_since {
        if meta.last_modified <= ts {
            return Err(Fals3Error::NotModified);
        }
    }
    Ok(())
}

/// The metadata of an object that may not exist.
pub open spec fn meta_view(existing: Option<&ObjectMeta>) -> Option<MetaView> {
    match existing {
        Some(meta) => Some(meta@),
        None => None,
    }
}

/// Evaluate write preconditions for `PutObject`.
///
/// - `if_none_match: "*"`: the object must not exist.
/// - `if_none_match: <etag>`: the object, if any, must not have this ETag.
/// - `if_match: <etag>`: the object must exist with this ETag.
/// - `if_unmodified_since`: the object, if any, must not be newer.
/// - `if_modified_since`: ignored on writes.
pub fn check_write_preconditions(existing: Option<&ObjectMeta>, c: &IfConditions) -> (r: Result<
    (),
    Fals3Error,
>)
    ensures
        match r {
            Ok(_) => may_write(meta_view(existing), c@),
            Err(e) => !may_write(meta_view(existing), c@) && e@ == ErrorView::PreconditionFailed,
        },
{
    match existing {
        None => {
            if c.if_match.is_some() {
                return Err(Fals3Error::PreconditionFailed);
            }
        },
        Some(meta) => {
            if let Some(inm) = &c.if_none_match {
                if etag_matches(inm.as_str(), meta.etag.as_str()) {
                    return Err(Fals3Error::PreconditionFailed);
                }
            }
            if let Some(im) = &c.if_match {
                if !etag_matches(im.as_str(), meta.etag.as_str()) {
                    return Err(Fals3Error::PreconditionFailed);
                }
            }
            if let Some(ts) = c.if_unmodified_since {
                if meta.last_modified > ts {
                    return Err(Fals3Error::PreconditionFailed);
                }
            }
        },
    }
    Ok(())
}

} // verus!
