//! Copying objects.

use crate::conditions::IfConditions;
use crate::error::Fals3Error;
use crate::error::ErrorView;
use crate::exchange;
use crate::exchange::{Answer, Effect, Operation, Query, Scripted, Step};
use crate::exchange::{AnswerView, QueryView, Script};
use crate::meta;
use crate::meta::ObjectMeta;
use crate::meta::MetaView;
use crate::paths;
use crate::paths::{bucket_path, meta_path, object_path, validate_bucket_name, validate_key};
use crate::store::steps;
use crate::store::steps::{object_effects, take_admitted, take_bucket, take_bytes, take_done};
use crate::store::steps::{take_found, take_resolved, take_time};
use crate::store::Store;
use std::collections::HashMap;
use vstd::prelude::*;

verus! {

pub struct CopyObjectInput {
    pub src_bucket: String,
    pub src_key: String,
    pub dst_bucket: String,
    pub dst_key: String,
    /// If `Some`, replace metadata on the copy; if `None`, preserve source
    /// metadata.
    pub metadata_directive: Option<MetadataDirective>,
    /// Preconditions evaluated against the **source** object (S3
    /// `x-amz-copy-source-if-*` headers).
    pub source_conditions: IfConditions,
}

pub enum MetadataDirective {
    Replace { content_type: Option<String>, metadata: HashMap<String, String> },
}

#[derive(Debug)]
pub struct CopyObjectOutput {
    pub etag: String,
    pub last_modified: u64,
}

/// What a copy gives back, as mathematical values.
#[verifier::ext_equal]
pub struct CopyView {
    pub etag: Seq<char>,
    pub last_modified: u64,
}

impl View for CopyObjectOutput {
    type V = CopyView;

    open spec fn view(&self) -> CopyView {
        CopyView { etag: self.etag@, last_modified: self.last_modified }
    }
}

impl MetadataDirective {
    /// The directive for what is to be replaced: none where nothing is, and no
    /// user metadata where only the content type is.
    pub fn replacing(
        content_type: Option<String>,
        metadata: Option<HashMap<String, String>>,
    ) -> (r: Option<MetadataDirective>)
        ensures
            match r {
                Some(MetadataDirective::Replace { content_type: c, metadata: m }) => {
                    &&& content_type is Some || metadata is Some
                    &&& c == content_type
                    &&& match metadata {
                        Some(given) => m == given,
                        None => m@ == Map::<String, String>::empty(),
                    }
                },
                None => content_type is None && metadata is None,
            },
    {
        if content_type.is_some() || metadata.is_some() {
            let metadata: HashMap<String, String> = match metadata {
                Some(m) => m,
                None => HashMap::new(),
            };
            Some(MetadataDirective::Replace { content_type, metadata })
        } else {
            None
        }
    }
}

/// Why a copy is refused by the names alone, if so.
pub open spec fn copy_fault(i: CopyObjectInput) -> Option<ErrorView> {
    if paths::bucket_fault(i.src_bucket@) is Some {
        paths::bucket_fault(i.src_bucket@)
    } else if paths::bucket_fault(i.dst_bucket@) is Some {
        paths::bucket_fault(i.dst_bucket@)
    } else if paths::key_fault(i.src_key@) is Some {
        paths::key_fault(i.src_key@)
    } else {
        paths::key_fault(i.dst_key@)
    }
}

/// The metadata of a copy: its own ETag, time and size, and either what replaces
/// the metadata of the source or that metadata.
pub open spec fn copy_meta(i: CopyObjectInput, src: MetaView, body: Seq<u8>, now: u64) -> MetaView {
    let (content_type, user_metadata, content_encoding) = match i.metadata_directive {
        Some(MetadataDirective::Replace { content_type, metadata }) => (
            content_type.deep_view(),
            metadata.deep_view(),
            None,
        ),
        None => (src.content_type, src.user_metadata, src.content_encoding),
    };
    MetaView {
        etag: meta::etag_of(body),
        last_modified: now,
        content_type,
        user_metadata,
        content_encoding,
        storage_class: "STANDARD"@,
        size: body.len() as u64,
    }
}

/// Copying an object: the names are checked, then both buckets; the source is
/// read under the lock of its bucket, as getting it would; then the copy is
/// written under the lock of the other bucket, as putting it would.
pub open spec fn copy_object_script(base: Seq<char>, i: CopyObjectInput) -> Script<CopyView> {
    steps::unless(copy_fault(i), copy_from_src_bucket(base, i))
}

pub open spec fn copy_from_src_bucket(base: Seq<char>, i: CopyObjectInput) -> Script<CopyView> {
    steps::in_bucket(base, i.src_bucket@, copy_from_dst_bucket(base, i))
}

pub open spec fn copy_from_dst_bucket(base: Seq<char>, i: CopyObjectInput) -> Script<CopyView> {
    steps::in_bucket(base, i.dst_bucket@, copy_from_src_lock(base, i))
}

pub open spec fn copy_from_src_lock(base: Seq<char>, i: CopyObjectInput) -> Script<CopyView> {
    steps::once_done(
        QueryView::LockExclusive { bucket: i.src_bucket@ },
        copy_from_src_path(base, i),
    )
}

pub open spec fn copy_from_src_path(base: Seq<char>, i: CopyObjectInput) -> Script<CopyView> {
    steps::under_base(
        base,
        paths::object_file(base, i.src_bucket@, i.src_key@),
        copy_from_exists(base, i),
    )
}

pub open spec fn copy_from_exists(base: Seq<char>, i: CopyObjectInput) -> Script<CopyView> {
    steps::where_found(base, i.src_bucket@, i.src_key@, copy_from_sidecar(base, i))
}

pub open spec fn copy_from_sidecar(base: Seq<char>, i: CopyObjectInput) -> Script<CopyView> {
    steps::where_admitted(
        base,
        i.src_bucket@,
        i.src_key@,
        i.source_conditions@,
        |src: MetaView| copy_from_body(base, i, src),
    )
}

pub open spec fn copy_from_body(base: Seq<char>, i: CopyObjectInput, src: MetaView) -> Script<
    CopyView,
> {
    steps::ask_bytes(
        paths::object_file(base, i.src_bucket@, i.src_key@),
        |body: Seq<u8>| copy_from_unlock(base, i, src, body),
    )
}

pub open spec fn copy_from_unlock(
    base: Seq<char>,
    i: CopyObjectInput,
    src: MetaView,
    body: Seq<u8>,
) -> Script<CopyView> {
    steps::once_done(QueryView::Unlock, copy_from_dst_lock(base, i, src, body))
}

pub open spec fn copy_from_dst_lock(
    base: Seq<char>,
    i: CopyObjectInput,
    src: MetaView,
    body: Seq<u8>,
) -> Script<CopyView> {
    steps::once_done(
        QueryView::LockExclusive { bucket: i.dst_bucket@ },
        copy_from_dst_path(base, i, src, body),
    )
}

pub open spec fn copy_from_dst_path(
    base: Seq<char>,
    i: CopyObjectInput,
    src: MetaView,
    body: Seq<u8>,
) -> Script<CopyView> {
    steps::under_base(
        base,
        paths::object_file(base, i.dst_bucket@, i.dst_key@),
        copy_from_clock(base, i, src, body),
    )
}

pub open spec fn copy_from_clock(
    base: Seq<char>,
    i: CopyObjectInput,
    src: MetaView,
    body: Seq<u8>,
) -> Script<CopyView> {
    steps::ask_time(
        |now: u64|
            Script::Finish(
                steps::object_writing(
                    base,
                    i.dst_bucket@,
                    i.dst_key@,
                    body,
                    copy_meta(i, src, body, now),
                ),
                CopyView { etag: meta::etag_of(body), last_modified: now },
            ),
    )
}

/// The object that is copied.
struct Source {
    meta: ObjectMeta,
    body: Vec<u8>,
}

enum CopyStage {
    SrcBucket,
    DstBucket,
    SrcLock,
    SrcPath,
    Exists,
    Sidecar,
    Body(ObjectMeta),
    Unlock(Source),
    DstLock(Source),
    DstPath(Source),
    Clock(Source),
}

/// `copy_object` under way.
pub struct CopyObject {
    base: String,
    input: CopyObjectInput,
    stage: CopyStage,
}

impl Scripted for CopyObject {
    type Output = CopyObjectOutput;

    closed spec fn script(&self) -> Script<CopyView> {
        let (base, i) = (self.base@, self.input);
        match self.stage {
            CopyStage::SrcBucket => copy_from_src_bucket(base, i),
            CopyStage::DstBucket => copy_from_dst_bucket(base, i),
            CopyStage::SrcLock => copy_from_src_lock(base, i),
            CopyStage::SrcPath => copy_from_src_path(base, i),
            CopyStage::Exists => copy_from_exists(base, i),
            CopyStage::Sidecar => copy_from_sidecar(base, i),
            CopyStage::Body(m) => copy_from_body(base, i, m@),
            CopyStage::Unlock(s) => copy_from_unlock(base, i, s.meta@, s.body@),
            CopyStage::DstLock(s) => copy_from_dst_lock(base, i, s.meta@, s.body@),
            CopyStage::DstPath(s) => copy_from_dst_path(base, i, s.meta@, s.body@),
            CopyStage::Clock(s) => copy_from_clock(base, i, s.meta@, s.body@),
        }
    }
}

impl CopyObject {
    fn src_path(&self) -> (r: String)
        ensures
            r@ == paths::object_file(self.base@, self.input.src_bucket@, self.input.src_key@),
    {
        object_path(
            self.base.as_str(),
            self.input.src_bucket.as_str(),
            self.input.src_key.as_str(),
        )
    }

    fn dst_path(&self) -> (r: String)
        ensures
            r@ == paths::object_file(self.base@, self.input.dst_bucket@, self.input.dst_key@),
    {
        object_path(
            self.base.as_str(),
            self.input.dst_bucket.as_str(),
            self.input.dst_key.as_str(),
        )
    }

    fn write(base: String, input: CopyObjectInput, src: Source, now: u64) -> (step: Step<
        CopyObject,
        CopyObjectOutput,
    >)
        ensures
            exchange::follows(
                step,
                Script::Finish(
                    steps::object_writing(
                        base@,
                        input.dst_bucket@,
                        input.dst_key@,
                        src.body@,
                        copy_meta(input, src.meta@, src.body@, now),
                    ),
                    CopyView { etag: meta::etag_of(src.body@), last_modified: now },
                ),
            ),
    {
        let Source { meta: src_meta, body } = src;
        let m: ObjectMeta = match input.metadata_directive {
            Some(MetadataDirective::Replace { content_type, metadata }) => ObjectMeta::new_at(
                body.as_slice(),
                content_type,
                metadata,
                None,
                now,
            ),
            None => ObjectMeta::new_at(
                body.as_slice(),
                src_meta.content_type,
                src_meta.user_metadata,
                src_meta.content_encoding,
                now,
            ),
        };
        let etag: String = m.etag.clone();
        let last_modified: u64 = m.last_modified;
        let fx: Vec<Effect> = object_effects(
            base.as_str(),
            input.dst_bucket.as_str(),
            input.dst_key.as_str(),
            body,
            m,
        );
        Step::Finish(fx, CopyObjectOutput { etag, last_modified })
    }
}

impl Operation for CopyObject {
    open spec fn takes(&self, a: AnswerView) -> bool {
        true
    }

    fn can_take(&self, a: &Answer) -> (r: bool) {
        true
    }

    fn resume(self, a: Answer) -> (step: Step<Self, CopyObjectOutput>) {
        let src_path: String = self.src_path();
        let dst_path: String = self.dst_path();
        match self.stage {
            CopyStage::SrcBucket => match take_bucket(self.input.src_bucket.as_str(), a) {
                Err(e) => Step::Fail(e),
                Ok(_) => Step::Ask(
                    Query::IsDir {
                        path: bucket_path(self.base.as_str(), self.input.dst_bucket.as_str()),
                    },
                    CopyObject { stage: CopyStage::DstBucket, ..self },
                ),
            },
            CopyStage::DstBucket => match take_bucket(self.input.dst_bucket.as_str(), a) {
                Err(e) => Step::Fail(e),
                Ok(_) => Step::Ask(
                    Query::LockExclusive { bucket: self.input.src_bucket.clone() },
                    CopyObject { stage: CopyStage::SrcLock, ..self },
                ),
            },
            CopyStage::SrcLock => match take_done(a) {
                Err(e) => Step::Fail(e),
                Ok(_) => Step::Ask(
                    Query::Resolve { path: src_path },
                    CopyObject { stage: CopyStage::SrcPath, ..self },
                ),
            },
            CopyStage::SrcPath => match take_resolved(self.base.as_str(), src_path.as_str(), a) {
                Err(e) => Step::Fail(e),
                Ok(_) => Step::Ask(
                    Query::IsFile { path: src_path },
                    CopyObject { stage: CopyStage::Exists, ..self },
                ),
            },
            CopyStage::Exists => match take_found(
                self.input.src_bucket.as_str(),
                self.input.src_key.as_str(),
                a,
            ) {
                Err(e) => Step::Fail(e),
                Ok(_) => {
                    let sidecar: String = meta_path(
                        self.base.as_str(),
                        self.input.src_bucket.as_str(),
                        self.input.src_key.as_str(),
                    );
                    Step::Ask(
                        ObjectMeta::read(sidecar.as_str()),
                        CopyObject { stage: CopyStage::Sidecar, ..self },
                    )
                },
            },
            CopyStage::Sidecar => match take_admitted(&self.input.source_conditions, a) {
                Err(e) => Step::Fail(e),
                Ok(m) => Step::Ask(
                    Query::ReadBytes { path: src_path },
                    CopyObject { stage: CopyStage::Body(m), ..self },
                ),
            },
            CopyStage::Body(m) => match take_bytes(a) {
                Err(e) => Step::Fail(e),
                Ok(body) => Step::Ask(
                    Query::Unlock,
                    CopyObject {
                        base: self.base,
                        input: self.input,
                        stage: CopyStage::Unlock(Source { meta: m, body }),
                    },
                ),
            },
            CopyStage::Unlock(s) => match take_done(a) {
                Err(e) => Step::Fail(e),
                Ok(_) => Step::Ask(
                    Query::LockExclusive { bucket: self.input.dst_bucket.clone() },
                    CopyObject {
                        base: self.base,
                        input: self.input,
                        stage: CopyStage::DstLock(s),
                    },
                ),
            },
            CopyStage::DstLock(s) => match take_done(a) {
                Err(e) => Step::Fail(e),
                Ok(_) => Step::Ask(
                    Query::Resolve { path: dst_path },
                    CopyObject {
                        base: self.base,
                        input: self.input,
                        stage: CopyStage::DstPath(s),
                    },
                ),
            },
            CopyStage::DstPath(s) => match take_resolved(
                self.base.as_str(),
                dst_path.as_str(),
                a,
            ) {
                Err(e) => Step::Fail(e),
                Ok(_) => Step::Ask(
                    Query::Now,
                    CopyObject { base: self.base, input: self.input, stage: CopyStage::Clock(s) },
                ),
            },
            CopyStage::Clock(s) => match take_time(a) {
                Err(e) => Step::Fail(e),
                Ok(now) => CopyObject::write(self.base, self.input, s, now),
            },
        }
    }
}

fn validate_copy(i: &CopyObjectInput) -> (r: Result<(), Fals3Error>)
    ensures
        match r {
            Ok(_) => copy_fault(*i) is None,
            Err(e) => copy_fault(*i) == Some(e@),
        },
{
    match validate_bucket_name(i.src_bucket.as_str()) {
        Err(e) => Err(e),
        Ok(_) => match validate_bucket_name(i.dst_bucket.as_str()) {
            Err(e) => Err(e),
            Ok(_) => match validate_key(i.src_key.as_str()) {
                Err(e) => Err(e),
                Ok(_) => validate_key(i.dst_key.as_str()),
            },
        },
    }
}

impl Store {
    /// Copy an object within or across buckets.
    ///
    /// Errors: `NoSuchBucket`, `NoSuchKey`, `InvalidBucketName`,
    /// `InvalidObjectKey`, `PreconditionFailed`, `NotModified`.
    pub fn copy_object(&self, input: CopyObjectInput) -> (step: Step<CopyObject, CopyObjectOutput>)
        ensures
            exchange::follows(step, copy_object_script(self.base(), input)),
    {
        match validate_copy(&input) {
            Err(e) => Step::Fail(e),
            Ok(_) => Step::Ask(
                Query::IsDir { path: bucket_path(self.base_dir(), input.src_bucket.as_str()) },
                CopyObject {
                    base: self.base_dir().to_owned(),
                    input,
                    stage: CopyStage::SrcBucket,
                },
            ),
        }
    }
}

} // verus!
