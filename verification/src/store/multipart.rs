//! Multipart uploads.

use crate::conditions;
use crate::conditions::etags_equal;
use crate::error::Fals3Error;
use crate::error::ErrorView;
use crate::exchange;
use crate::exchange::{Answer, Effect, Operation, Query, Scripted, Step};
use crate::exchange::{AnswerView, EffectView, QueryView, Script};
use crate::meta;
use crate::meta::{compute_etag, compute_md5_bytes, compute_multipart_etag, ObjectMeta};
use crate::meta::MetaView;
use crate::paths;
use crate::paths::{bucket_path, object_path, temporary_of, validate_bucket_name};
use crate::paths::validate_key;
use crate::store::objects;
use crate::store::parts;
use crate::store::parts::{new_upload_id, part_body_path};
use crate::store::parts::{is_upload_id, part_etag_path, upload_dir, upload_meta_path};
use crate::store::parts::{validate_part_number, validate_upload_id};
use crate::store::steps;
use crate::store::steps::{object_effects, take_bucket, take_bytes, take_done};
use crate::store::steps::{take_flag, take_resolved, take_seed, take_text, take_time};
use crate::store::steps::take_upload;
use crate::store::Store;
use crate::upload::UploadMeta;
use crate::upload::UploadView;
use std::collections::HashMap;
use vstd::prelude::*;
use vstd::utf8;

verus! {

pub struct CreateMultipartUploadInput {
    pub bucket: String,
    pub key: String,
    pub content_type: Option<String>,
    pub metadata: HashMap<String, String>,
    pub content_encoding: Option<String>,
}

#[derive(Debug)]
pub struct CreateMultipartUploadOutput {
    pub bucket: String,
    pub key: String,
    pub upload_id: String,
}

pub struct UploadPartInput {
    pub upload_id: String,
    pub part_number: u32,
    pub body: Vec<u8>,
}

#[derive(Debug)]
pub struct UploadPartOutput {
    pub part_number: u32,
    pub etag: String,
}

#[derive(Debug, Clone)]
pub struct CompletedPart {
    pub part_number: u32,
    pub etag: String,
}

pub struct CompleteMultipartUploadInput {
    pub upload_id: String,
    /// Parts in ascending `part_number` order. Each `etag` must match the ETag
    /// returned by the corresponding `upload_part` call.
    pub parts: Vec<CompletedPart>,
}

#[derive(Debug)]
pub struct CompleteMultipartUploadOutput {
    pub bucket: String,
    pub key: String,
    /// AWS-style multipart ETag: `"<md5-of-md5s>-<part-count>"`.
    pub etag: String,
}

pub struct AbortMultipartUploadInput {
    pub upload_id: String,
}

/// A new upload, as mathematical values.
#[verifier::ext_equal]
pub struct CreatedView {
    pub bucket: Seq<char>,
    pub key: Seq<char>,
    pub upload_id: Seq<char>,
}

impl View for CreateMultipartUploadOutput {
    type V = CreatedView;

    open spec fn view(&self) -> CreatedView {
        CreatedView { bucket: self.bucket@, key: self.key@, upload_id: self.upload_id@ }
    }
}

/// A part that was uploaded, as mathematical values.
#[verifier::ext_equal]
pub struct UploadedView {
    pub part_number: u32,
    pub etag: Seq<char>,
}

impl View for UploadPartOutput {
    type V = UploadedView;

    open spec fn view(&self) -> UploadedView {
        UploadedView { part_number: self.part_number, etag: self.etag@ }
    }
}

/// A finished upload, as mathematical values.
#[verifier::ext_equal]
pub struct CompletedView {
    pub bucket: Seq<char>,
    pub key: Seq<char>,
    pub etag: Seq<char>,
}

impl View for CompleteMultipartUploadOutput {
    type V = CompletedView;

    open spec fn view(&self) -> CompletedView {
        CompletedView { bucket: self.bucket@, key: self.key@, etag: self.etag@ }
    }
}

// ---- create ----

/// The record of an upload begun at the time `now`.
pub open spec fn new_record(i: CreateMultipartUploadInput, now: u64) -> UploadView {
    UploadView {
        bucket: i.bucket@,
        key: i.key@,
        content_type: i.content_type.deep_view(),
        user_metadata: i.metadata.deep_view(),
        content_encoding: i.content_encoding.deep_view(),
        started_at: now,
    }
}

/// Makes the directory of an upload and writes its record, which takes its place
/// at once.
pub open spec fn record_writing(dir: Seq<char>, u: UploadView) -> Seq<EffectView> {
    let path = parts::record_file(dir);
    seq![
        EffectView::CreateDirAll { path: dir },
        EffectView::WriteUpload { path: paths::temporary(path), upload: u },
        EffectView::Rename { from: paths::temporary(path), to: path },
    ]
}

/// Beginning an upload: the names are checked, then the bucket; then the upload
/// gets an id and its record.
pub open spec fn create_multipart_upload_script(
    base: Seq<char>,
    i: CreateMultipartUploadInput,
) -> Script<CreatedView> {
    steps::unless(
        objects::name_fault(i.bucket@, i.key@),
        steps::in_bucket(base, i.bucket@, create_from_seed(base, i)),
    )
}

pub open spec fn create_from_seed(base: Seq<char>, i: CreateMultipartUploadInput) -> Script<
    CreatedView,
> {
    steps::ask_seed(
        |nanos: u128, count: u64| create_from_clock(base, i, parts::upload_id_of(nanos, count)),
    )
}

pub open spec fn create_from_clock(
    base: Seq<char>,
    i: CreateMultipartUploadInput,
    id: Seq<char>,
) -> Script<CreatedView> {
    steps::ask_time(
        |now: u64|
            Script::Finish(
                record_writing(parts::upload_home(base, id), new_record(i, now)),
                CreatedView { bucket: i.bucket@, key: i.key@, upload_id: id },
            ),
    )
}

enum CreateStage {
    Bucket,
    Seed,
    Clock(String),
}

/// `create_multipart_upload` under way.
pub struct CreateMultipartUpload {
    base: String,
    input: CreateMultipartUploadInput,
    stage: CreateStage,
}

impl Scripted for CreateMultipartUpload {
    type Output = CreateMultipartUploadOutput;

    closed spec fn script(&self) -> Script<CreatedView> {
        match self.stage {
            CreateStage::Bucket => steps::in_bucket(
                self.base@,
                self.input.bucket@,
                create_from_seed(self.base@, self.input),
            ),
            CreateStage::Seed => create_from_seed(self.base@, self.input),
            CreateStage::Clock(id) => create_from_clock(self.base@, self.input, id@),
        }
    }
}

impl Operation for CreateMultipartUpload {
    open spec fn takes(&self, a: AnswerView) -> bool {
        true
    }

    fn can_take(&self, a: &Answer) -> (r: bool) {
        true
    }

    fn resume(self, a: Answer) -> (step: Step<Self, CreateMultipartUploadOutput>) {
        match self.stage {
            CreateStage::Bucket => match take_bucket(self.input.bucket.as_str(), a) {
                Err(e) => Step::Fail(e),
                Ok(_) => Step::Ask(
                    Query::Seed,
                    CreateMultipartUpload { stage: CreateStage::Seed, ..self },
                ),
            },
            CreateStage::Seed => match take_seed(a) {
                Err(e) => Step::Fail(e),
                Ok((nanos, count)) => Step::Ask(
                    Query::Now,
                    CreateMultipartUpload {
                        stage: CreateStage::Clock(new_upload_id(nanos, count)),
                        ..self
                    },
                ),
            },
            CreateStage::Clock(id) => match take_time(a) {
                Err(e) => Step::Fail(e),
                Ok(now) => {
                    let dir: String = upload_dir(self.base.as_str(), id.as_str());
                    let path: String = upload_meta_path(dir.as_str());
                    let tmp: String = temporary_of(path.as_str());
                    let upload: UploadMeta = UploadMeta {
                        bucket: self.input.bucket.clone(),
                        key: self.input.key.clone(),
                        content_type: self.input.content_type,
                        user_metadata: self.input.metadata,
                        content_encoding: self.input.content_encoding,
                        started_at: now,
                    };
                    let ghost u = upload@;
                    let ghost home = dir@;
                    let mut fx: Vec<Effect> = Vec::new();
                    fx.push(Effect::CreateDirAll { path: dir });
                    fx.push(Effect::WriteUpload { path: tmp.clone(), upload });
                    fx.push(Effect::Rename { from: tmp, to: path });
                    proof {
                        assert(exchange::effects(fx@) =~= record_writing(home, u));
                    }
                    Step::Finish(
                        fx,
                        CreateMultipartUploadOutput {
                            bucket: self.input.bucket,
                            key: self.input.key,
                            upload_id: id,
                        },
                    )
                },
            },
        }
    }
}

// ---- upload a part ----

/// Writes the body of a part, then its ETag.
pub open spec fn part_writing(dir: Seq<char>, n: u32, body: Seq<u8>) -> Seq<EffectView> {
    seq![
        EffectView::Write { path: parts::body_file(dir, n), bytes: body },
        EffectView::Write {
            path: parts::etag_file(dir, n),
            bytes: utf8::encode_utf8(meta::etag_of(body)),
        },
    ]
}

/// Uploading a part: `InvalidPart` for a bad part number, `NoSuchUpload` where
/// there is no upload; otherwise the part is written.
pub open spec fn upload_part_script(base: Seq<char>, i: UploadPartInput) -> Script<UploadedView> {
    steps::unless(
        parts::part_number_fault(i.part_number),
        steps::unless(parts::id_fault(i.upload_id@), upload_from_dir(base, i)),
    )
}

pub open spec fn upload_from_dir(base: Seq<char>, i: UploadPartInput) -> Script<UploadedView> {
    let dir = parts::upload_home(base, i.upload_id@);
    in_upload(
        base,
        i.upload_id@,
        Script::Finish(
            part_writing(dir, i.part_number, i.body@),
            UploadedView { part_number: i.part_number, etag: meta::etag_of(i.body@) },
        ),
    )
}

/// Goes on with `rest` if the upload is there.
pub open spec fn in_upload<T>(base: Seq<char>, upload_id: Seq<char>, rest: Script<T>) -> Script<T> {
    Script::Ask(
        QueryView::IsDir { path: parts::upload_home(base, upload_id) },
        |a: AnswerView| steps::unless(upload_refusal(upload_id, a), rest),
    )
}

/// Why an operation cannot go on when told whether the upload is there, if so.
pub open spec fn upload_refusal(upload_id: Seq<char>, a: AnswerView) -> Option<ErrorView> {
    match a {
        AnswerView::Flag(true) => None,
        AnswerView::Flag(false) => Some(ErrorView::NoSuchUpload { upload_id }),
        _ => Some(exchange::refusal(a)),
    }
}

pub fn take_upload_dir(upload_id: &str, a: Answer) -> (r: Result<(), Fals3Error>)
    ensures
        match r {
            Ok(_) => upload_refusal(upload_id@, a@) is None,
            Err(e) => upload_refusal(upload_id@, a@) == Some(e@),
        },
{
    match take_flag(a) {
        Ok(true) => Ok(()),
        Ok(false) => Err(Fals3Error::NoSuchUpload { upload_id: upload_id.to_owned() }),
        Err(e) => Err(e),
    }
}

/// `upload_part` under way.
pub struct UploadPart {
    base: String,
    input: UploadPartInput,
}

impl Scripted for UploadPart {
    type Output = UploadPartOutput;

    closed spec fn script(&self) -> Script<UploadedView> {
        upload_from_dir(self.base@, self.input)
    }
}

impl Operation for UploadPart {
    open spec fn takes(&self, a: AnswerView) -> bool {
        true
    }

    fn can_take(&self, a: &Answer) -> (r: bool) {
        true
    }

    fn resume(self, a: Answer) -> (step: Step<Self, UploadPartOutput>) {
        match take_upload_dir(self.input.upload_id.as_str(), a) {
            Err(e) => Step::Fail(e),
            Ok(_) => {
                let dir: String = upload_dir(self.base.as_str(), self.input.upload_id.as_str());
                let n: u32 = self.input.part_number;
                let etag: String = compute_etag(self.input.body.as_slice());
                let mut bytes: Vec<u8> = Vec::new();
                bytes.extend_from_slice(etag.as_str().as_bytes());
                proof {
                    assert(bytes@ =~= utf8::encode_utf8(etag@));
                }
                let mut fx: Vec<Effect> = Vec::new();
                fx.push(
                    Effect::Write {
                        path: part_body_path(dir.as_str(), n),
                        bytes: self.input.body,
                    },
                );
                fx.push(Effect::Write { path: part_etag_path(dir.as_str(), n), bytes });
                proof {
                    assert(exchange::effects(fx@) =~= part_writing(dir@, n, self.input.body@));
                }
                Step::Finish(fx, UploadPartOutput { part_number: n, etag })
            },
        }
    }
}

// ---- complete ----

/// The part numbers ascend strictly.
pub open spec fn numbers_ascend(ps: Seq<CompletedPart>) -> bool {
    forall|k: int| 0 <= k < ps.len() - 1 ==> (#[trigger] ps[k]).part_number < ps[k + 1].part_number
}

/// Why a list of parts is refused by itself, if so.
pub open spec fn parts_fault(ps: Seq<CompletedPart>) -> Option<ErrorView> {
    if ps.len() == 0 {
        Some(ErrorView::InvalidPart)
    } else if !numbers_ascend(ps) {
        Some(ErrorView::InvalidPartOrder)
    } else {
        None
    }
}

fn validate_parts(ps: &Vec<CompletedPart>) -> (r: Result<(), Fals3Error>)
    ensures
        match r {
            Ok(_) => parts_fault(ps@) is None,
            Err(e) => parts_fault(ps@) == Some(e@),
        },
{
    if ps.len() == 0 {
        return Err(Fals3Error::InvalidPart);
    }
    let mut k: usize = 0;
    while k < ps.len() - 1
        invariant
            0 < ps@.len(),
            k <= ps@.len() - 1,
            forall|j: int|
                0 <= j < k ==> (#[trigger] ps@[j]).part_number < ps@[j + 1].part_number,
        decreases ps@.len() - k,
    {
        if ps[k].part_number >= ps[k + 1].part_number {
            return Err(Fals3Error::InvalidPartOrder);
        }
        k = k + 1;
    }
    Ok(())
}

/// Reads one part: `InvalidPart` for a bad number, where its body or its ETag is
/// not there, and where the ETag is another one.
pub open spec fn part_reading<T>(
    dir: Seq<char>,
    p: CompletedPart,
    k: spec_fn(Seq<u8>) -> Script<T>,
) -> Script<T> {
    steps::unless(parts::part_number_fault(p.part_number), part_from_body(dir, p, k))
}

pub open spec fn part_from_body<T>(
    dir: Seq<char>,
    p: CompletedPart,
    k: spec_fn(Seq<u8>) -> Script<T>,
) -> Script<T> {
    steps::ask_flag(
        QueryView::IsFile { path: parts::body_file(dir, p.part_number) },
        |there: bool|
            if there {
                part_from_etag(dir, p, k)
            } else {
                Script::Fail(ErrorView::InvalidPart)
            },
    )
}

pub open spec fn part_from_etag<T>(
    dir: Seq<char>,
    p: CompletedPart,
    k: spec_fn(Seq<u8>) -> Script<T>,
) -> Script<T> {
    steps::ask_flag(
        QueryView::IsFile { path: parts::etag_file(dir, p.part_number) },
        |there: bool|
            if there {
                part_from_text(dir, p, k)
            } else {
                Script::Fail(ErrorView::InvalidPart)
            },
    )
}

pub open spec fn part_from_text<T>(
    dir: Seq<char>,
    p: CompletedPart,
    k: spec_fn(Seq<u8>) -> Script<T>,
) -> Script<T> {
    steps::ask_text(
        parts::etag_file(dir, p.part_number),
        |stored: Seq<char>|
            if conditions::bare(p.etag@) == conditions::bare(stored) {
                part_from_bytes(dir, p, k)
            } else {
                Script::Fail(ErrorView::InvalidPart)
            },
    )
}

pub open spec fn part_from_bytes<T>(
    dir: Seq<char>,
    p: CompletedPart,
    k: spec_fn(Seq<u8>) -> Script<T>,
) -> Script<T> {
    steps::ask_bytes(parts::body_file(dir, p.part_number), k)
}

/// Finishing an upload: `NoSuchUpload` where it is not there, then the list of
/// parts is checked, then each part is read; then the object is written and the
/// upload goes.
pub open spec fn complete_multipart_upload_script(
    base: Seq<char>,
    i: CompleteMultipartUploadInput,
) -> Script<CompletedView> {
    steps::unless(parts::id_fault(i.upload_id@), complete_from_dir(base, i))
}

pub open spec fn complete_from_dir(base: Seq<char>, i: CompleteMultipartUploadInput) -> Script<
    CompletedView,
> {
    in_upload(
        base,
        i.upload_id@,
        steps::unless(parts_fault(i.parts@), complete_from_record(base, i)),
    )
}

pub open spec fn complete_from_record(base: Seq<char>, i: CompleteMultipartUploadInput) -> Script<
    CompletedView,
> {
    steps::ask_upload(
        parts::record_file(parts::upload_home(base, i.upload_id@)),
        |u: UploadView| complete_from_part(base, i, u, 0, Seq::empty(), Seq::empty()),
    )
}

/// Reading the parts from the `n`th one on, with the bytes of the ones before and
/// their digests.
pub open spec fn complete_from_part(
    base: Seq<char>,
    i: CompleteMultipartUploadInput,
    u: UploadView,
    n: int,
    body: Seq<u8>,
    digests: Seq<Seq<u8>>,
) -> Script<CompletedView>
    decreases i.parts@.len() - n, 1int,
{
    if 0 <= n < i.parts@.len() {
        part_reading(
            parts::upload_home(base, i.upload_id@),
            i.parts@[n],
            complete_with_part(base, i, u, n, body, digests),
        )
    } else {
        complete_from_bucket(base, i.upload_id@, u, body, digests)
    }
}

/// How reading goes on with the bytes of the `n`th part.
pub open spec fn complete_with_part(
    base: Seq<char>,
    i: CompleteMultipartUploadInput,
    u: UploadView,
    n: int,
    body: Seq<u8>,
    digests: Seq<Seq<u8>>,
) -> spec_fn(Seq<u8>) -> Script<CompletedView>
    decreases i.parts@.len() - n, 0int,
{
    |bytes: Seq<u8>|
        if 0 <= n < i.parts@.len() {
            complete_from_part(
                base,
                i,
                u,
                n + 1,
                body + bytes,
                digests.push(meta::md5_digest(bytes)),
            )
        } else {
            Script::Fail(ErrorView::InvalidPart)
        }
}

pub open spec fn complete_from_bucket(
    base: Seq<char>,
    upload_id: Seq<char>,
    u: UploadView,
    body: Seq<u8>,
    digests: Seq<Seq<u8>>,
) -> Script<CompletedView> {
    steps::in_bucket(base, u.bucket, complete_from_lock(base, upload_id, u, body, digests))
}

pub open spec fn complete_from_lock(
    base: Seq<char>,
    upload_id: Seq<char>,
    u: UploadView,
    body: Seq<u8>,
    digests: Seq<Seq<u8>>,
) -> Script<CompletedView> {
    steps::once_done(
        QueryView::LockExclusive { bucket: u.bucket },
        complete_from_path(base, upload_id, u, body, digests),
    )
}

pub open spec fn complete_from_path(
    base: Seq<char>,
    upload_id: Seq<char>,
    u: UploadView,
    body: Seq<u8>,
    digests: Seq<Seq<u8>>,
) -> Script<CompletedView> {
    steps::under_base(
        base,
        paths::object_file(base, u.bucket, u.key),
        complete_from_clock(base, upload_id, u, body, digests),
    )
}

pub open spec fn complete_from_clock(
    base: Seq<char>,
    upload_id: Seq<char>,
    u: UploadView,
    body: Seq<u8>,
    digests: Seq<Seq<u8>>,
) -> Script<CompletedView> {
    steps::ask_time(
        |now: u64|
            Script::Finish(
                steps::object_writing(
                    base,
                    u.bucket,
                    u.key,
                    body,
                    completed_meta(u, body, digests, now),
                ).push(EffectView::DiscardDirAll { path: parts::upload_home(base, upload_id) }),
                CompletedView {
                    bucket: u.bucket,
                    key: u.key,
                    etag: meta::multipart_etag_of(digests),
                },
            ),
    )
}

/// The metadata of an object made of parts: a multipart ETag, the size of all
/// parts, and what is on record of the upload.
pub open spec fn completed_meta(
    u: UploadView,
    body: Seq<u8>,
    digests: Seq<Seq<u8>>,
    now: u64,
) -> MetaView {
    MetaView {
        etag: meta::multipart_etag_of(digests),
        last_modified: now,
        content_type: u.content_type,
        user_metadata: u.user_metadata,
        content_encoding: u.content_encoding,
        storage_class: "STANDARD"@,
        size: body.len() as u64,
    }
}

/// What has been read of an upload: its record, and its first parts.
struct Gathered {
    upload: UploadMeta,
    next: usize,
    body: Vec<u8>,
    md5s: Vec<[u8; 16]>,
}

impl Gathered {
    spec fn digests(self) -> Seq<Seq<u8>> {
        self.md5s@.map_values(|d: [u8; 16]| d@)
    }
}

enum CompleteStage {
    Dir,
    Record,
    PartBody(Gathered),
    PartEtag(Gathered),
    PartText(Gathered),
    PartBytes(Gathered),
    Bucket(Gathered),
    Lock(Gathered),
    Path(Gathered),
    Clock(Gathered),
}

/// `complete_multipart_upload` under way.
pub struct CompleteMultipartUpload {
    base: String,
    input: CompleteMultipartUploadInput,
    stage: CompleteStage,
}

impl Scripted for CompleteMultipartUpload {
    type Output = CompleteMultipartUploadOutput;

    closed spec fn script(&self) -> Script<CompletedView> {
        let (base, i) = (self.base@, self.input);
        let dir = parts::upload_home(base, i.upload_id@);
        match self.stage {
            CompleteStage::Dir => complete_from_dir(base, i),
            CompleteStage::Record => complete_from_record(base, i),
            CompleteStage::PartBody(g) => part_from_body(
                dir,
                i.parts@[g.next as int],
                self.with_part(g),
            ),
            CompleteStage::PartEtag(g) => part_from_etag(
                dir,
                i.parts@[g.next as int],
                self.with_part(g),
            ),
            CompleteStage::PartText(g) => part_from_text(
                dir,
                i.parts@[g.next as int],
                self.with_part(g),
            ),
            CompleteStage::PartBytes(g) => part_from_bytes(
                dir,
                i.parts@[g.next as int],
                self.with_part(g),
            ),
            CompleteStage::Bucket(g) => complete_from_bucket(
                base,
                i.upload_id@,
                g.upload@,
                g.body@,
                g.digests(),
            ),
            CompleteStage::Lock(g) => complete_from_lock(
                base,
                i.upload_id@,
                g.upload@,
                g.body@,
                g.digests(),
            ),
            CompleteStage::Path(g) => complete_from_path(
                base,
                i.upload_id@,
                g.upload@,
                g.body@,
                g.digests(),
            ),
            CompleteStage::Clock(g) => complete_from_clock(
                base,
                i.upload_id@,
                g.upload@,
                g.body@,
                g.digests(),
            ),
        }
    }
}

impl CompleteMultipartUpload {
    spec fn with_part(self, g: Gathered) -> spec_fn(Seq<u8>) -> Script<CompletedView> {
        complete_with_part(
            self.base@,
            self.input,
            g.upload@,
            g.next as int,
            g.body@,
            g.digests(),
        )
    }

    /// While a part is read, there is one to read.
    #[verifier::type_invariant]
    spec fn is_valid(self) -> bool {
        match self.stage {
            CompleteStage::PartBody(g) => g.next < self.input.parts.len(),
            CompleteStage::PartEtag(g) => g.next < self.input.parts.len(),
            CompleteStage::PartText(g) => g.next < self.input.parts.len(),
            CompleteStage::PartBytes(g) => g.next < self.input.parts.len(),
            _ => true,
        }
    }

    /// Goes on to the next part, or to the bucket where there is none.
    fn go_on(base: String, input: CompleteMultipartUploadInput, g: Gathered) -> (step: Step<
        CompleteMultipartUpload,
        CompleteMultipartUploadOutput,
    >)
        ensures
            exchange::follows(
                step,
                complete_from_part(
                    base@,
                    input,
                    g.upload@,
                    g.next as int,
                    g.body@,
                    g.digests(),
                ),
            ),
    {
        if g.next < input.parts.len() {
            let n: u32 = input.parts[g.next].part_number;
            match validate_part_number(n) {
                Err(e) => Step::Fail(e),
                Ok(_) => {
                    let dir: String = upload_dir(base.as_str(), input.upload_id.as_str());
                    Step::Ask(
                        Query::IsFile { path: part_body_path(dir.as_str(), n) },
                        CompleteMultipartUpload {
                            base,
                            input,
                            stage: CompleteStage::PartBody(g),
                        },
                    )
                },
            }
        } else {
            Step::Ask(
                Query::IsDir { path: bucket_path(base.as_str(), g.upload.bucket.as_str()) },
                CompleteMultipartUpload { base, input, stage: CompleteStage::Bucket(g) },
            )
        }
    }

    /// Writes the object and lets go of the upload.
    fn write(base: &str, upload_id: &str, g: Gathered, now: u64) -> (step: Step<
        CompleteMultipartUpload,
        CompleteMultipartUploadOutput,
    >)
        ensures
            exchange::follows(
                step,
                Script::Finish(
                    steps::object_writing(
                        base@,
                        g.upload@.bucket,
                        g.upload@.key,
                        g.body@,
                        completed_meta(g.upload@, g.body@, g.digests(), now),
                    ).push(
                        EffectView::DiscardDirAll { path: parts::upload_home(base@, upload_id@) },
                    ),
                    CompletedView {
                        bucket: g.upload@.bucket,
                        key: g.upload@.key,
                        etag: meta::multipart_etag_of(g.digests()),
                    },
                ),
            ),
    {
        let Gathered { upload, next: _, body, md5s } = g;
        let etag: String = compute_multipart_etag(md5s.as_slice());
        let m: ObjectMeta = ObjectMeta::with_etag_at(
            body.len() as u64,
            etag.clone(),
            upload.content_type,
            upload.user_metadata,
            upload.content_encoding,
            now,
        );
        let mut fx: Vec<Effect> = object_effects(
            base,
            upload.bucket.as_str(),
            upload.key.as_str(),
            body,
            m,
        );
        let ghost was = fx@;
        fx.push(Effect::DiscardDirAll { path: upload_dir(base, upload_id) });
        proof {
            assert(exchange::effects(fx@) =~= exchange::effects(was).push(fx@.last()@));
        }
        Step::Finish(
            fx,
            CompleteMultipartUploadOutput { bucket: upload.bucket, key: upload.key, etag },
        )
    }
}

impl Operation for CompleteMultipartUpload {
    open spec fn takes(&self, a: AnswerView) -> bool {
        true
    }

    fn can_take(&self, a: &Answer) -> (r: bool) {
        true
    }

    fn resume(self, a: Answer) -> (step: Step<Self, CompleteMultipartUploadOutput>) {
        proof {
            use_type_invariant(&self);
        }
        let CompleteMultipartUpload { base, input, stage } = self;
        let dir: String = upload_dir(base.as_str(), input.upload_id.as_str());
        match stage {
            CompleteStage::Dir => match take_upload_dir(input.upload_id.as_str(), a) {
                Err(e) => Step::Fail(e),
                Ok(_) => match validate_parts(&input.parts) {
                    Err(e) => Step::Fail(e),
                    Ok(_) => Step::Ask(
                        Query::ReadUpload { path: upload_meta_path(dir.as_str()) },
                        CompleteMultipartUpload { base, input, stage: CompleteStage::Record },
                    ),
                },
            },
            CompleteStage::Record => match take_upload(a) {
                Err(e) => Step::Fail(e),
                Ok(upload) => {
                    let g: Gathered = Gathered {
                        upload,
                        next: 0,
                        body: Vec::new(),
                        md5s: Vec::new(),
                    };
                    proof {
                        assert(g.digests() =~= Seq::<Seq<u8>>::empty());
                        assert(g.body@ =~= Seq::<u8>::empty());
                    }
                    CompleteMultipartUpload::go_on(base, input, g)
                },
            },
            CompleteStage::PartBody(g) => match take_flag(a) {
                Err(e) => Step::Fail(e),
                Ok(false) => Step::Fail(Fals3Error::InvalidPart),
                Ok(true) => {
                    let n: u32 = input.parts[g.next].part_number;
                    Step::Ask(
                        Query::IsFile { path: part_etag_path(dir.as_str(), n) },
                        CompleteMultipartUpload {
                            base,
                            input,
                            stage: CompleteStage::PartEtag(g),
                        },
                    )
                },
            },
            CompleteStage::PartEtag(g) => match take_flag(a) {
                Err(e) => Step::Fail(e),
                Ok(false) => Step::Fail(Fals3Error::InvalidPart),
                Ok(true) => {
                    let n: u32 = input.parts[g.next].part_number;
                    Step::Ask(
                        Query::ReadText { path: part_etag_path(dir.as_str(), n) },
                        CompleteMultipartUpload {
                            base,
                            input,
                            stage: CompleteStage::PartText(g),
                        },
                    )
                },
            },
            CompleteStage::PartText(g) => match take_text(a) {
                Err(e) => Step::Fail(e),
                Ok(stored) => {
                    let n: u32 = input.parts[g.next].part_number;
                    if etags_equal(input.parts[g.next].etag.as_str(), stored.as_str()) {
                        Step::Ask(
                            Query::ReadBytes { path: part_body_path(dir.as_str(), n) },
                            CompleteMultipartUpload {
                                base,
                                input,
                                stage: CompleteStage::PartBytes(g),
                            },
                        )
                    } else {
                        Step::Fail(Fals3Error::InvalidPart)
                    }
                },
            },
            CompleteStage::PartBytes(g) => match take_bytes(a) {
                Err(e) => Step::Fail(e),
                Ok(bytes) => {
                    let ghost was = g.digests();
                    let Gathered { upload, next, mut body, mut md5s } = g;
                    let ghost front = body@;
                    let d: [u8; 16] = compute_md5_bytes(bytes.as_slice());
                    md5s.push(d);
                    body.extend_from_slice(bytes.as_slice());
                    let h: Gathered = Gathered { upload, next: next + 1, body, md5s };
                    proof {
                        assert(h.digests() =~= was.push(meta::md5_digest(bytes@)));
                        assert(h.body@ =~= front + bytes@);
                    }
                    CompleteMultipartUpload::go_on(base, input, h)
                },
            },
            CompleteStage::Bucket(g) => match take_bucket(g.upload.bucket.as_str(), a) {
                Err(e) => Step::Fail(e),
                Ok(_) => Step::Ask(
                    Query::LockExclusive { bucket: g.upload.bucket.clone() },
                    CompleteMultipartUpload { base, input, stage: CompleteStage::Lock(g) },
                ),
            },
            CompleteStage::Lock(g) => match take_done(a) {
                Err(e) => Step::Fail(e),
                Ok(_) => Step::Ask(
                    Query::Resolve {
                        path: object_path(
                            base.as_str(),
                            g.upload.bucket.as_str(),
                            g.upload.key.as_str(),
                        ),
                    },
                    CompleteMultipartUpload { base, input, stage: CompleteStage::Path(g) },
                ),
            },
            CompleteStage::Path(g) => {
                let path: String = object_path(
                    base.as_str(),
                    g.upload.bucket.as_str(),
                    g.upload.key.as_str(),
                );
                match take_resolved(base.as_str(), path.as_str(), a) {
                    Err(e) => Step::Fail(e),
                    Ok(_) => Step::Ask(
                        Query::Now,
                        CompleteMultipartUpload { base, input, stage: CompleteStage::Clock(g) },
                    ),
                }
            },
            CompleteStage::Clock(g) => match take_time(a) {
                Err(e) => Step::Fail(e),
                Ok(now) => CompleteMultipartUpload::write(
                    base.as_str(),
                    input.upload_id.as_str(),
                    g,
                    now,
                ),
            },
        }
    }
}

// ---- abort ----

/// Aborting an upload: it goes, if it is there.
pub open spec fn abort_multipart_upload_script(base: Seq<char>, upload_id: Seq<char>) -> Script<
    (),
> {
    if parts::is_id(upload_id) {
        abort_from_dir(base, upload_id)
    } else {
        Script::Finish(Seq::empty(), ())
    }
}

pub open spec fn abort_from_dir(base: Seq<char>, upload_id: Seq<char>) -> Script<()> {
    let path = parts::upload_home(base, upload_id);
    steps::ask_flag(
        QueryView::IsDir { path },
        |there: bool|
            Script::Finish(
                if there {
                    seq![EffectView::RemoveDirAll { path }]
                } else {
                    Seq::empty()
                },
                (),
            ),
    )
}

/// `abort_multipart_upload` under way.
pub struct AbortMultipartUpload {
    base: String,
    upload_id: String,
}

impl Scripted for AbortMultipartUpload {
    type Output = ();

    closed spec fn script(&self) -> Script<()> {
        abort_from_dir(self.base@, self.upload_id@)
    }
}

impl Operation for AbortMultipartUpload {
    open spec fn takes(&self, a: AnswerView) -> bool {
        true
    }

    fn can_take(&self, a: &Answer) -> (r: bool) {
        true
    }

    fn resume(self, a: Answer) -> (step: Step<Self, ()>) {
        match take_flag(a) {
            Err(e) => Step::Fail(e),
            Ok(there) => {
                let path: String = upload_dir(self.base.as_str(), self.upload_id.as_str());
                let ghost p = path@;
                let mut fx: Vec<Effect> = Vec::new();
                if there {
                    fx.push(Effect::RemoveDirAll { path });
                }
                proof {
                    assert(exchange::effects(fx@) =~= if there {
                        seq![EffectView::RemoveDirAll { path: p }]
                    } else {
                        Seq::empty()
                    });
                }
                Step::Finish(fx, ())
            },
        }
    }
}

impl Store {
    /// Begin a multipart upload. Returns a fresh `upload_id` that subsequent
    /// `upload_part` and `complete_multipart_upload` calls reference.
    ///
    /// Nothing is written into the destination bucket yet. Errors:
    /// `NoSuchBucket`, `InvalidBucketName`, `InvalidObjectKey`.
    pub fn create_multipart_upload(&self, input: CreateMultipartUploadInput) -> (step: Step<
        CreateMultipartUpload,
        CreateMultipartUploadOutput,
    >)
        ensures
            exchange::follows(step, create_multipart_upload_script(self.base(), input)),
    {
        match validate_bucket_name(input.bucket.as_str()) {
            Err(e) => Step::Fail(e),
            Ok(_) => match validate_key(input.key.as_str()) {
                Err(e) => Step::Fail(e),
                Ok(_) => Step::Ask(
                    Query::IsDir { path: bucket_path(self.base_dir(), input.bucket.as_str()) },
                    CreateMultipartUpload {
                        base: self.base_dir().to_owned(),
                        input,
                        stage: CreateStage::Bucket,
                    },
                ),
            },
        }
    }

    /// Upload a single part of an in-flight multipart upload.
    ///
    /// `part_number` must be in `1..=MAX_PART_NUMBER`. Re-uploading the same part
    /// number replaces the previous body. Returns the part's MD5 ETag, which
    /// callers pass back in `complete_multipart_upload`. Errors: `InvalidPart`,
    /// `NoSuchUpload`.
    pub fn upload_part(&self, input: UploadPartInput) -> (step: Step<UploadPart, UploadPartOutput>)
        ensures
            exchange::follows(step, upload_part_script(self.base(), input)),
    {
        match validate_part_number(input.part_number) {
            Err(e) => Step::Fail(e),
            Ok(_) => match validate_upload_id(input.upload_id.as_str()) {
                Err(e) => Step::Fail(e),
                Ok(_) => Step::Ask(
                    Query::IsDir { path: upload_dir(self.base_dir(), input.upload_id.as_str()) },
                    UploadPart { base: self.base_dir().to_owned(), input },
                ),
            },
        }
    }

    /// Finalise a multipart upload by concatenating its parts in order and
    /// writing the resulting object to the bucket.
    ///
    /// Errors: `NoSuchUpload`, `InvalidPart` for an empty list and for a part that
    /// was not uploaded as listed, `InvalidPartOrder`, `NoSuchBucket`.
    pub fn complete_multipart_upload(&self, input: CompleteMultipartUploadInput) -> (step: Step<
        CompleteMultipartUpload,
        CompleteMultipartUploadOutput,
    >)
        ensures
            exchange::follows(step, complete_multipart_upload_script(self.base(), input)),
    {
        match validate_upload_id(input.upload_id.as_str()) {
            Err(e) => Step::Fail(e),
            Ok(_) => Step::Ask(
                Query::IsDir { path: upload_dir(self.base_dir(), input.upload_id.as_str()) },
                CompleteMultipartUpload {
                    base: self.base_dir().to_owned(),
                    input,
                    stage: CompleteStage::Dir,
                },
            ),
        }
    }

    /// Cancel an in-flight multipart upload and discard all uploaded parts.
    ///
    /// Idempotent: aborting an unknown `upload_id` succeeds silently.
    pub fn abort_multipart_upload(&self, input: AbortMultipartUploadInput) -> (step: Step<
        AbortMultipartUpload,
        (),
    >)
        ensures
            exchange::follows(
                step,
                abort_multipart_upload_script(self.base(), input.upload_id@),
            ),
    {
        if !is_upload_id(input.upload_id.as_str()) {
            let fx: Vec<Effect> = Vec::new();
            proof {
                assert(exchange::effects(fx@) =~= Seq::<EffectView>::empty());
            }
            return Step::Finish(fx, ());
        }
        Step::Ask(
            Query::IsDir { path: upload_dir(self.base_dir(), input.upload_id.as_str()) },
            AbortMultipartUpload {
                base: self.base_dir().to_owned(),
                upload_id: input.upload_id,
            },
        )
    }
}

} // verus!
