//! Writing, reading and deleting objects.

use crate::conditions;
use crate::conditions::{check_write_preconditions, IfConditions};
use crate::error::Fals3Error;
use crate::error::ErrorView;
use crate::exchange;
use crate::exchange::{Answer, Effect, Operation, Query, Scripted, Step};
use crate::exchange::{AnswerView, EffectView, QueryView, Script};
use crate::meta;
use crate::meta::ObjectMeta;
use crate::meta::MetaView;
use crate::paths;
use crate::paths::{bucket_path, meta_path, object_path, validate_bucket_name, validate_key};
use crate::store::steps;
use crate::store::steps::{object_effects, take_admitted, take_bucket, take_bytes, take_done};
use crate::store::steps::{take_flag, take_found, take_meta, take_resolved, take_time};
use crate::store::Store;
use std::collections::HashMap;
use vstd::prelude::*;

verus! {

pub struct PutObjectInput {
    pub bucket: String,
    pub key: String,
    pub body: Vec<u8>,
    pub content_type: Option<String>,
    pub metadata: HashMap<String, String>,
    pub content_encoding: Option<String>,
    pub conditions: IfConditions,
}

#[derive(Debug)]
pub struct PutObjectOutput {
    pub etag: String,
}

pub struct GetObjectInput {
    pub bucket: String,
    pub key: String,
    /// Byte range: `(start, end_inclusive)`. `None` means the full object.
    pub range: Option<(u64, u64)>,
    pub conditions: IfConditions,
}

#[derive(Debug)]
pub struct GetObjectOutput {
    pub body: Vec<u8>,
    pub meta: ObjectMeta,
}

pub struct HeadObjectInput {
    pub bucket: String,
    pub key: String,
    pub conditions: IfConditions,
}

pub struct DeleteObjectInput {
    pub bucket: String,
    pub key: String,
}

impl View for PutObjectOutput {
    /// The ETag of the object.
    type V = Seq<char>;

    open spec fn view(&self) -> Seq<char> {
        self.etag@
    }
}

/// An object as it is read.
#[verifier::ext_equal]
pub struct ObjectView {
    pub body: Seq<u8>,
    pub meta: MetaView,
}

impl View for GetObjectOutput {
    type V = ObjectView;

    open spec fn view(&self) -> ObjectView {
        ObjectView { body: self.body@, meta: self.meta@ }
    }
}

/// Why an operation on an object is refused by the names alone, if so.
pub open spec fn name_fault(bucket: Seq<char>, key: Seq<char>) -> Option<ErrorView> {
    match paths::bucket_fault(bucket) {
        Some(e) => Some(e),
        None => paths::key_fault(key),
    }
}

fn validate_names(bucket: &str, key: &str) -> (r: Result<(), Fals3Error>)
    ensures
        match r {
            Ok(_) => name_fault(bucket@, key@) is None,
            Err(e) => name_fault(bucket@, key@) == Some(e@),
        },
{
    match validate_bucket_name(bucket) {
        Err(e) => Err(e),
        Ok(_) => validate_key(key),
    }
}

// ---- put ----

/// The metadata of an object put at the time `now`.
pub open spec fn put_meta(i: PutObjectInput, now: u64) -> MetaView {
    MetaView {
        etag: meta::etag_of(i.body@),
        last_modified: now,
        content_type: i.content_type.deep_view(),
        user_metadata: i.metadata.deep_view(),
        content_encoding: i.content_encoding.deep_view(),
        storage_class: "STANDARD"@,
        size: i.body@.len() as u64,
    }
}

/// Putting an object: the names are checked, then the bucket, then whether the
/// object lies under the base, then the conditions; then the object is written.
pub open spec fn put_object_script(base: Seq<char>, i: PutObjectInput) -> Script<Seq<char>> {
    steps::unless(
        name_fault(i.bucket@, i.key@),
        steps::in_bucket(base, i.bucket@, put_from_lock(base, i)),
    )
}

pub open spec fn put_from_lock(base: Seq<char>, i: PutObjectInput) -> Script<Seq<char>> {
    steps::once_done(QueryView::LockExclusive { bucket: i.bucket@ }, put_from_path(base, i))
}

pub open spec fn put_from_path(base: Seq<char>, i: PutObjectInput) -> Script<Seq<char>> {
    steps::under_base(
        base,
        paths::object_file(base, i.bucket@, i.key@),
        if i.conditions@.is_empty() {
            put_from_clock(base, i)
        } else {
            put_from_exists(base, i)
        },
    )
}

pub open spec fn put_from_exists(base: Seq<char>, i: PutObjectInput) -> Script<Seq<char>> {
    steps::ask_flag(
        QueryView::IsFile { path: paths::object_file(base, i.bucket@, i.key@) },
        |there: bool|
            if there {
                put_from_sidecar(base, i)
            } else {
                steps::unless(
                    conditions::write_fault(None, i.conditions@),
                    put_from_clock(base, i),
                )
            },
    )
}

pub open spec fn put_from_sidecar(base: Seq<char>, i: PutObjectInput) -> Script<Seq<char>> {
    steps::ask_meta(
        paths::meta_file(base, i.bucket@, i.key@),
        |m: MetaView|
            steps::unless(
                conditions::write_fault(Some(m), i.conditions@),
                put_from_clock(base, i),
            ),
    )
}

pub open spec fn put_from_clock(base: Seq<char>, i: PutObjectInput) -> Script<Seq<char>> {
    steps::ask_time(
        |now: u64|
            Script::Finish(
                steps::object_writing(base, i.bucket@, i.key@, i.body@, put_meta(i, now)),
                meta::etag_of(i.body@),
            ),
    )
}

enum PutStage {
    Bucket,
    Lock,
    Path,
    Exists,
    Sidecar,
    Clock,
}

/// `put_object` under way.
pub struct PutObject {
    base: String,
    input: PutObjectInput,
    stage: PutStage,
}

impl Scripted for PutObject {
    type Output = PutObjectOutput;

    closed spec fn script(&self) -> Script<Seq<char>> {
        match self.stage {
            PutStage::Bucket => steps::in_bucket(
                self.base@,
                self.input.bucket@,
                put_from_lock(self.base@, self.input),
            ),
            PutStage::Lock => put_from_lock(self.base@, self.input),
            PutStage::Path => put_from_path(self.base@, self.input),
            PutStage::Exists => put_from_exists(self.base@, self.input),
            PutStage::Sidecar => put_from_sidecar(self.base@, self.input),
            PutStage::Clock => put_from_clock(self.base@, self.input),
        }
    }
}

impl Operation for PutObject {
    open spec fn takes(&self, a: AnswerView) -> bool {
        true
    }

    fn can_take(&self, a: &Answer) -> (r: bool) {
        true
    }

    fn resume(self, a: Answer) -> (step: Step<Self, PutObjectOutput>) {
        match self.stage {
            PutStage::Bucket => match take_bucket(self.input.bucket.as_str(), a) {
                Err(e) => Step::Fail(e),
                Ok(_) => Step::Ask(
                    Query::LockExclusive { bucket: self.input.bucket.clone() },
                    PutObject { stage: PutStage::Lock, ..self },
                ),
            },
            PutStage::Lock => match take_done(a) {
                Err(e) => Step::Fail(e),
                Ok(_) => Step::Ask(
                    Query::Resolve {
                        path: object_path(
                            self.base.as_str(),
                            self.input.bucket.as_str(),
                            self.input.key.as_str(),
                        ),
                    },
                    PutObject { stage: PutStage::Path, ..self },
                ),
            },
            PutStage::Path => {
                let path: String = object_path(
                    self.base.as_str(),
                    self.input.bucket.as_str(),
                    self.input.key.as_str(),
                );
                match take_resolved(self.base.as_str(), path.as_str(), a) {
                    Err(e) => Step::Fail(e),
                    Ok(_) => if self.input.conditions.is_empty() {
                        Step::Ask(Query::Now, PutObject { stage: PutStage::Clock, ..self })
                    } else {
                        Step::Ask(
                            Query::IsFile { path },
                            PutObject { stage: PutStage::Exists, ..self },
                        )
                    },
                }
            },
            PutStage::Exists => match take_flag(a) {
                Err(e) => Step::Fail(e),
                Ok(true) => {
                    let sidecar: String = meta_path(
                        self.base.as_str(),
                        self.input.bucket.as_str(),
                        self.input.key.as_str(),
                    );
                    Step::Ask(
                        ObjectMeta::read(sidecar.as_str()),
                        PutObject { stage: PutStage::Sidecar, ..self },
                    )
                },
                Ok(false) => match check_write_preconditions(None, &self.input.conditions) {
                    Err(e) => Step::Fail(e),
                    Ok(_) => Step::Ask(Query::Now, PutObject { stage: PutStage::Clock, ..self }),
                },
            },
            PutStage::Sidecar => match take_meta(a) {
                Err(e) => Step::Fail(e),
                Ok(m) => match check_write_preconditions(Some(&m), &self.input.conditions) {
                    Err(e) => Step::Fail(e),
                    Ok(_) => Step::Ask(Query::Now, PutObject { stage: PutStage::Clock, ..self }),
                },
            },
            PutStage::Clock => match take_time(a) {
                Err(e) => Step::Fail(e),
                Ok(now) => {
                    let PutObject { base, input, stage: _ } = self;
                    let m: ObjectMeta = ObjectMeta::new_at(
                        input.body.as_slice(),
                        input.content_type,
                        input.metadata,
                        input.content_encoding,
                        now,
                    );
                    let etag: String = m.etag.clone();
                    let fx: Vec<Effect> = object_effects(
                        base.as_str(),
                        input.bucket.as_str(),
                        input.key.as_str(),
                        input.body,
                        m,
                    );
                    Step::Finish(fx, PutObjectOutput { etag })
                },
            },
        }
    }
}

// ---- get ----

/// The range selects bytes of a body of this length, once its end is clamped: it
/// begins at most one past its end.
pub open spec fn range_fits(range: Option<(u64, u64)>, len: nat) -> bool {
    match range {
        Some((start, end)) => start <= range_end(end, len),
        None => true,
    }
}

/// The end of a range, one past its last byte, clamped to the length of a body.
pub open spec fn range_end(end: u64, len: nat) -> int {
    if end + 1 <= len {
        end + 1
    } else {
        len as int
    }
}

/// The bytes of a body that a range selects.
pub open spec fn ranged(body: Seq<u8>, range: Option<(u64, u64)>) -> Seq<u8> {
    match range {
        Some((start, end)) => body.subrange(start as int, range_end(end, body.len())),
        None => body,
    }
}

/// Whether the range selects bytes of a body of this length.
pub fn fits_range(range: Option<(u64, u64)>, len: usize) -> (r: bool)
    ensures
        r == range_fits(range, len as nat),
{
    match range {
        Some((start, end)) => if end < len as u64 {
            start <= end || start - 1 == end
        } else {
            start <= len as u64
        },
        None => true,
    }
}

/// The bytes of a body that a range selects.
pub fn range_of(body: Vec<u8>, range: Option<(u64, u64)>) -> (r: Vec<u8>)
    requires
        range_fits(range, body@.len()),
    ensures
        r@ == ranged(body@, range),
{
    match range {
        Some((start, end)) => {
            let hi: usize = if end < body.len() as u64 {
                end as usize + 1
            } else {
                body.len()
            };
            let mut r: Vec<u8> = Vec::new();
            let mut i: usize = start as usize;
            while i < hi
                invariant
                    start <= i <= hi <= body@.len(),
                    r@ == body@.subrange(start as int, i as int),
                decreases hi - i,
            {
                r.push(body[i]);
                i = i + 1;
            }
            r
        },
        None => body,
    }
}

/// Getting an object: the names are checked, then the bucket, then whether the
/// object lies under the base and is there, then the conditions.
pub open spec fn get_object_script(base: Seq<char>, i: GetObjectInput) -> Script<ObjectView> {
    steps::unless(
        name_fault(i.bucket@, i.key@),
        steps::in_bucket(base, i.bucket@, get_from_lock(base, i)),
    )
}

pub open spec fn get_from_lock(base: Seq<char>, i: GetObjectInput) -> Script<ObjectView> {
    steps::once_done(QueryView::LockShared { bucket: i.bucket@ }, get_from_path(base, i))
}

pub open spec fn get_from_path(base: Seq<char>, i: GetObjectInput) -> Script<ObjectView> {
    steps::under_base(
        base,
        paths::object_file(base, i.bucket@, i.key@),
        get_from_exists(base, i),
    )
}

pub open spec fn get_from_exists(base: Seq<char>, i: GetObjectInput) -> Script<ObjectView> {
    steps::where_found(base, i.bucket@, i.key@, get_from_sidecar(base, i))
}

pub open spec fn get_from_sidecar(base: Seq<char>, i: GetObjectInput) -> Script<ObjectView> {
    steps::where_admitted(
        base,
        i.bucket@,
        i.key@,
        i.conditions@,
        |m: MetaView| get_from_body(base, i, m),
    )
}

pub open spec fn get_from_body(base: Seq<char>, i: GetObjectInput, m: MetaView) -> Script<
    ObjectView,
> {
    steps::ask_bytes(
        paths::object_file(base, i.bucket@, i.key@),
        |body: Seq<u8>|
            Script::Finish(
                Seq::empty(),
                ObjectView { body: ranged(body, i.range), meta: m },
            ),
    )
}

enum GetStage {
    Bucket,
    Lock,
    Path,
    Exists,
    Sidecar,
    Body(ObjectMeta),
}

/// `get_object` under way.
pub struct GetObject {
    base: String,
    input: GetObjectInput,
    stage: GetStage,
}

impl Scripted for GetObject {
    type Output = GetObjectOutput;

    closed spec fn script(&self) -> Script<ObjectView> {
        match self.stage {
            GetStage::Bucket => steps::in_bucket(
                self.base@,
                self.input.bucket@,
                get_from_lock(self.base@, self.input),
            ),
            GetStage::Lock => get_from_lock(self.base@, self.input),
            GetStage::Path => get_from_path(self.base@, self.input),
            GetStage::Exists => get_from_exists(self.base@, self.input),
            GetStage::Sidecar => get_from_sidecar(self.base@, self.input),
            GetStage::Body(m) => get_from_body(self.base@, self.input, m@),
        }
    }
}

impl GetObject {
    /// The operation waits for the body of the object.
    pub closed spec fn waits_for_body(&self) -> bool {
        self.stage is Body
    }

    /// The range that was asked for.
    pub closed spec fn range(&self) -> Option<(u64, u64)> {
        self.input.range
    }
}

impl Operation for GetObject {
    /// A body must hold the range that was asked for.
    open spec fn takes(&self, a: AnswerView) -> bool {
        self.waits_for_body() && a is Bytes ==> range_fits(self.range(), a->Bytes_0.len())
    }

    fn can_take(&self, a: &Answer) -> (r: bool) {
        match (&self.stage, a) {
            (GetStage::Body(_), Answer::Bytes(b)) => fits_range(self.input.range, b.len()),
            _ => true,
        }
    }

    /// The range stays, and the body is waited for when it was asked for.
    fn resume(self, a: Answer) -> (step: Step<Self, GetObjectOutput>)
        ensures
            step matches Step::Ask(q, m) ==> m.range() == self.range() && (m.waits_for_body()
                <==> q@ is ReadBytes),
    {
        match self.stage {
            GetStage::Bucket => match take_bucket(self.input.bucket.as_str(), a) {
                Err(e) => Step::Fail(e),
                Ok(_) => Step::Ask(
                    Query::LockShared { bucket: self.input.bucket.clone() },
                    GetObject { stage: GetStage::Lock, ..self },
                ),
            },
            GetStage::Lock => match take_done(a) {
                Err(e) => Step::Fail(e),
                Ok(_) => Step::Ask(
                    Query::Resolve {
                        path: object_path(
                            self.base.as_str(),
                            self.input.bucket.as_str(),
                            self.input.key.as_str(),
                        ),
                    },
                    GetObject { stage: GetStage::Path, ..self },
                ),
            },
            GetStage::Path => {
                let path: String = object_path(
                    self.base.as_str(),
                    self.input.bucket.as_str(),
                    self.input.key.as_str(),
                );
                match take_resolved(self.base.as_str(), path.as_str(), a) {
                    Err(e) => Step::Fail(e),
                    Ok(_) => Step::Ask(
                        Query::IsFile { path },
                        GetObject { stage: GetStage::Exists, ..self },
                    ),
                }
            },
            GetStage::Exists => match take_found(
                self.input.bucket.as_str(),
                self.input.key.as_str(),
                a,
            ) {
                Err(e) => Step::Fail(e),
                Ok(_) => {
                    let sidecar: String = meta_path(
                        self.base.as_str(),
                        self.input.bucket.as_str(),
                        self.input.key.as_str(),
                    );
                    Step::Ask(
                        ObjectMeta::read(sidecar.as_str()),
                        GetObject { stage: GetStage::Sidecar, ..self },
                    )
                },
            },
            GetStage::Sidecar => match take_admitted(&self.input.conditions, a) {
                Err(e) => Step::Fail(e),
                Ok(m) => Step::Ask(
                    Query::ReadBytes {
                        path: object_path(
                            self.base.as_str(),
                            self.input.bucket.as_str(),
                            self.input.key.as_str(),
                        ),
                    },
                    GetObject { stage: GetStage::Body(m), ..self },
                ),
            },
            GetStage::Body(m) => match take_bytes(a) {
                Err(e) => Step::Fail(e),
                Ok(full) => {
                    let body: Vec<u8> = range_of(full, self.input.range);
                    let fx: Vec<Effect> = Vec::new();
                    proof {
                        assert(exchange::effects(fx@) =~= Seq::<EffectView>::empty());
                    }
                    Step::Finish(fx, GetObjectOutput { body, meta: m })
                },
            },
        }
    }
}

// ---- head ----

/// The metadata of an object, under the conditions of getting it.
pub open spec fn head_object_script(base: Seq<char>, i: HeadObjectInput) -> Script<MetaView> {
    steps::unless(
        name_fault(i.bucket@, i.key@),
        steps::in_bucket(base, i.bucket@, head_from_lock(base, i)),
    )
}

pub open spec fn head_from_lock(base: Seq<char>, i: HeadObjectInput) -> Script<MetaView> {
    steps::once_done(QueryView::LockShared { bucket: i.bucket@ }, head_from_path(base, i))
}

pub open spec fn head_from_path(base: Seq<char>, i: HeadObjectInput) -> Script<MetaView> {
    steps::under_base(
        base,
        paths::object_file(base, i.bucket@, i.key@),
        head_from_exists(base, i),
    )
}

pub open spec fn head_from_exists(base: Seq<char>, i: HeadObjectInput) -> Script<MetaView> {
    steps::where_found(base, i.bucket@, i.key@, head_from_sidecar(base, i))
}

pub open spec fn head_from_sidecar(base: Seq<char>, i: HeadObjectInput) -> Script<MetaView> {
    steps::where_admitted(
        base,
        i.bucket@,
        i.key@,
        i.conditions@,
        |m: MetaView| Script::Finish(Seq::empty(), m),
    )
}

enum HeadStage {
    Bucket,
    Lock,
    Path,
    Exists,
    Sidecar,
}

/// `head_object` under way.
pub struct HeadObject {
    base: String,
    input: HeadObjectInput,
    stage: HeadStage,
}

impl Scripted for HeadObject {
    type Output = ObjectMeta;

    closed spec fn script(&self) -> Script<MetaView> {
        match self.stage {
            HeadStage::Bucket => steps::in_bucket(
                self.base@,
                self.input.bucket@,
                head_from_lock(self.base@, self.input),
            ),
            HeadStage::Lock => head_from_lock(self.base@, self.input),
            HeadStage::Path => head_from_path(self.base@, self.input),
            HeadStage::Exists => head_from_exists(self.base@, self.input),
            HeadStage::Sidecar => head_from_sidecar(self.base@, self.input),
        }
    }
}

impl Operation for HeadObject {
    open spec fn takes(&self, a: AnswerView) -> bool {
        true
    }

    fn can_take(&self, a: &Answer) -> (r: bool) {
        true
    }

    fn resume(self, a: Answer) -> (step: Step<Self, ObjectMeta>) {
        match self.stage {
            HeadStage::Bucket => match take_bucket(self.input.bucket.as_str(), a) {
                Err(e) => Step::Fail(e),
                Ok(_) => Step::Ask(
                    Query::LockShared { bucket: self.input.bucket.clone() },
                    HeadObject { stage: HeadStage::Lock, ..self },
                ),
            },
            HeadStage::Lock => match take_done(a) {
                Err(e) => Step::Fail(e),
                Ok(_) => Step::Ask(
                    Query::Resolve {
                        path: object_path(
                            self.base.as_str(),
                            self.input.bucket.as_str(),
                            self.input.key.as_str(),
                        ),
                    },
                    HeadObject { stage: HeadStage::Path, ..self },
                ),
            },
            HeadStage::Path => {
                let path: String = object_path(
                    self.base.as_str(),
                    self.input.bucket.as_str(),
                    self.input.key.as_str(),
                );
                match take_resolved(self.base.as_str(), path.as_str(), a) {
                    Err(e) => Step::Fail(e),
                    Ok(_) => Step::Ask(
                        Query::IsFile { path },
                        HeadObject { stage: HeadStage::Exists, ..self },
                    ),
                }
            },
            HeadStage::Exists => match take_found(
                self.input.bucket.as_str(),
                self.input.key.as_str(),
                a,
            ) {
                Err(e) => Step::Fail(e),
                Ok(_) => {
                    let sidecar: String = meta_path(
                        self.base.as_str(),
                        self.input.bucket.as_str(),
                        self.input.key.as_str(),
                    );
                    Step::Ask(
                        ObjectMeta::read(sidecar.as_str()),
                        HeadObject { stage: HeadStage::Sidecar, ..self },
                    )
                },
            },
            HeadStage::Sidecar => match take_admitted(&self.input.conditions, a) {
                Err(e) => Step::Fail(e),
                Ok(m) => {
                    let fx: Vec<Effect> = Vec::new();
                    proof {
                        assert(exchange::effects(fx@) =~= Seq::<EffectView>::empty());
                    }
                    Step::Finish(fx, m)
                },
            },
        }
    }
}

// ---- delete ----

/// Deleting an object: what is there of its body and its sidecar goes; that
/// nothing is there is no error.
pub open spec fn delete_object_script(base: Seq<char>, bucket: Seq<char>, key: Seq<char>) -> Script<
    (),
> {
    steps::unless(
        name_fault(bucket, key),
        steps::in_bucket(base, bucket, delete_from_lock(base, bucket, key)),
    )
}

pub open spec fn delete_from_lock(base: Seq<char>, bucket: Seq<char>, key: Seq<char>) -> Script<
    (),
> {
    steps::once_done(
        QueryView::LockExclusive { bucket },
        delete_from_path(base, bucket, key),
    )
}

pub open spec fn delete_from_path(base: Seq<char>, bucket: Seq<char>, key: Seq<char>) -> Script<
    (),
> {
    steps::under_base(
        base,
        paths::object_file(base, bucket, key),
        delete_from_body(base, bucket, key),
    )
}

pub open spec fn delete_from_body(base: Seq<char>, bucket: Seq<char>, key: Seq<char>) -> Script<
    (),
> {
    steps::ask_flag(
        QueryView::IsFile { path: paths::object_file(base, bucket, key) },
        |body: bool| delete_from_sidecar(base, bucket, key, body),
    )
}

pub open spec fn delete_from_sidecar(
    base: Seq<char>,
    bucket: Seq<char>,
    key: Seq<char>,
    body: bool,
) -> Script<()> {
    steps::ask_flag(
        QueryView::IsFile { path: paths::meta_file(base, bucket, key) },
        |sidecar: bool| Script::Finish(object_removal(base, bucket, key, body, sidecar), ()),
    )
}

/// Removes what is there of an object.
pub open spec fn object_removal(
    base: Seq<char>,
    bucket: Seq<char>,
    key: Seq<char>,
    body: bool,
    sidecar: bool,
) -> Seq<EffectView> {
    removal_if(body, paths::object_file(base, bucket, key)) + removal_if(
        sidecar,
        paths::meta_file(base, bucket, key),
    )
}

pub open spec fn removal_if(there: bool, path: Seq<char>) -> Seq<EffectView> {
    if there {
        seq![EffectView::RemoveFile { path }]
    } else {
        Seq::empty()
    }
}

enum DeleteStage {
    Bucket,
    Lock,
    Path,
    Body,
    Sidecar(bool),
}

/// `delete_object` under way.
pub struct DeleteObject {
    base: String,
    bucket: String,
    key: String,
    stage: DeleteStage,
}

impl Scripted for DeleteObject {
    type Output = ();

    closed spec fn script(&self) -> Script<()> {
        let (base, bucket, key) = (self.base@, self.bucket@, self.key@);
        match self.stage {
            DeleteStage::Bucket => steps::in_bucket(
                base,
                bucket,
                delete_from_lock(base, bucket, key),
            ),
            DeleteStage::Lock => delete_from_lock(base, bucket, key),
            DeleteStage::Path => delete_from_path(base, bucket, key),
            DeleteStage::Body => delete_from_body(base, bucket, key),
            DeleteStage::Sidecar(body) => delete_from_sidecar(base, bucket, key, body),
        }
    }
}

impl Operation for DeleteObject {
    open spec fn takes(&self, a: AnswerView) -> bool {
        true
    }

    fn can_take(&self, a: &Answer) -> (r: bool) {
        true
    }

    fn resume(self, a: Answer) -> (step: Step<Self, ()>) {
        let body_path: String = object_path(
            self.base.as_str(),
            self.bucket.as_str(),
            self.key.as_str(),
        );
        match self.stage {
            DeleteStage::Bucket => match take_bucket(self.bucket.as_str(), a) {
                Err(e) => Step::Fail(e),
                Ok(_) => Step::Ask(
                    Query::LockExclusive { bucket: self.bucket.clone() },
                    DeleteObject { stage: DeleteStage::Lock, ..self },
                ),
            },
            DeleteStage::Lock => match take_done(a) {
                Err(e) => Step::Fail(e),
                Ok(_) => Step::Ask(
                    Query::Resolve { path: body_path },
                    DeleteObject { stage: DeleteStage::Path, ..self },
                ),
            },
            DeleteStage::Path => match take_resolved(self.base.as_str(), body_path.as_str(), a) {
                Err(e) => Step::Fail(e),
                Ok(_) => Step::Ask(
                    Query::IsFile { path: body_path },
                    DeleteObject { stage: DeleteStage::Body, ..self },
                ),
            },
            DeleteStage::Body => match take_flag(a) {
                Err(e) => Step::Fail(e),
                Ok(body) => Step::Ask(
                    Query::IsFile {
                        path: meta_path(
                            self.base.as_str(),
                            self.bucket.as_str(),
                            self.key.as_str(),
                        ),
                    },
                    DeleteObject { stage: DeleteStage::Sidecar(body), ..self },
                ),
            },
            DeleteStage::Sidecar(body) => match take_flag(a) {
                Err(e) => Step::Fail(e),
                Ok(sidecar) => {
                    let mut fx: Vec<Effect> = Vec::new();
                    if body {
                        fx.push(Effect::RemoveFile { path: body_path });
                    }
                    if sidecar {
                        fx.push(
                            Effect::RemoveFile {
                                path: meta_path(
                                    self.base.as_str(),
                                    self.bucket.as_str(),
                                    self.key.as_str(),
                                ),
                            },
                        );
                    }
                    proof {
                        assert(exchange::effects(fx@) =~= object_removal(
                            self.base@,
                            self.bucket@,
                            self.key@,
                            body,
                            sidecar,
                        ));
                    }
                    Step::Finish(fx, ())
                },
            },
        }
    }
}

impl Store {
    /// Write an object body and its sidecar metadata.
    ///
    /// Creates parent directories as needed. Errors: `NoSuchBucket`,
    /// `InvalidBucketName`, `InvalidObjectKey`, `PreconditionFailed`.
    pub fn put_object(&self, input: PutObjectInput) -> (step: Step<PutObject, PutObjectOutput>)
        ensures
            exchange::follows(step, put_object_script(self.base(), input)),
    {
        match validate_names(input.bucket.as_str(), input.key.as_str()) {
            Err(e) => Step::Fail(e),
            Ok(_) => Step::Ask(
                Query::IsDir { path: bucket_path(self.base_dir(), input.bucket.as_str()) },
                PutObject { base: self.base_dir().to_owned(), input, stage: PutStage::Bucket },
            ),
        }
    }

    /// Read an object body and metadata.
    ///
    /// Supports an optional byte range (inclusive). Errors: `NoSuchBucket`,
    /// `NoSuchKey`, `InvalidBucketName`, `InvalidObjectKey`, `PreconditionFailed`,
    /// `NotModified`.
    pub fn get_object(&self, input: GetObjectInput) -> (step: Step<GetObject, GetObjectOutput>)
        ensures
            exchange::follows(step, get_object_script(self.base(), input)),
            step matches Step::Ask(_, m) ==> m.range() == input.range && !m.waits_for_body(),
    {
        match validate_names(input.bucket.as_str(), input.key.as_str()) {
            Err(e) => Step::Fail(e),
            Ok(_) => Step::Ask(
                Query::IsDir { path: bucket_path(self.base_dir(), input.bucket.as_str()) },
                GetObject { base: self.base_dir().to_owned(), input, stage: GetStage::Bucket },
            ),
        }
    }

    /// Return metadata only (no body).
    ///
    /// Errors: as for `get_object`.
    pub fn head_object(&self, input: HeadObjectInput) -> (step: Step<HeadObject, ObjectMeta>)
        ensures
            exchange::follows(step, head_object_script(self.base(), input)),
    {
        match validate_names(input.bucket.as_str(), input.key.as_str()) {
            Err(e) => Step::Fail(e),
            Ok(_) => Step::Ask(
                Query::IsDir { path: bucket_path(self.base_dir(), input.bucket.as_str()) },
                HeadObject { base: self.base_dir().to_owned(), input, stage: HeadStage::Bucket },
            ),
        }
    }

    /// Delete an object. Deleting a key that does not exist is a no-op.
    ///
    /// Errors: `NoSuchBucket`, `InvalidBucketName`, `InvalidObjectKey`.
    pub fn delete_object(&self, input: DeleteObjectInput) -> (step: Step<DeleteObject, ()>)
        ensures
            exchange::follows(
                step,
                delete_object_script(self.base(), input.bucket@, input.key@),
            ),
    {
        match validate_names(input.bucket.as_str(), input.key.as_str()) {
            Err(e) => Step::Fail(e),
            Ok(_) => Step::Ask(
                Query::IsDir { path: bucket_path(self.base_dir(), input.bucket.as_str()) },
                DeleteObject {
                    base: self.base_dir().to_owned(),
                    bucket: input.bucket,
                    key: input.key,
                    stage: DeleteStage::Bucket,
                },
            ),
        }
    }
}

} // verus!
