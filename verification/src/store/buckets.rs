//! Creating, deleting and finding buckets.

use crate::error::Fals3Error;
use crate::error::ErrorView;
use crate::exchange;
use crate::exchange::{Answer, Effect, Operation, Query, Scripted, Step, Tree};
use crate::exchange::{AnswerView, EffectView, QueryView, Script, TreeView};
use crate::paths;
use crate::paths::{bucket_path, validate_bucket_name};
use crate::store::listing;
use crate::store::listing::collect_keys;
use crate::store::steps;
use crate::store::steps::{take_bucket, take_done, take_flag, take_tree};
use crate::store::Store;
use crate::text;
use vstd::prelude::*;

verus! {

pub struct CreateBucketInput {
    pub bucket: String,
}

pub struct DeleteBucketInput {
    pub bucket: String,
    /// If true, delete the bucket even if it contains objects.
    pub force: bool,
}

pub struct HeadBucketInput {
    pub bucket: String,
}

// ---- create ----

/// Creating a bucket: `InvalidBucketName` for a bad name, `BucketAlreadyExists`
/// where something is at its path, and a new directory otherwise.
pub open spec fn create_bucket_script(base: Seq<char>, bucket: Seq<char>) -> Script<()> {
    steps::unless(
        paths::bucket_fault(bucket),
        steps::once_done(QueryView::LockExclusive { bucket }, create_from_exists(base, bucket)),
    )
}

pub open spec fn create_from_exists(base: Seq<char>, bucket: Seq<char>) -> Script<()> {
    let path = paths::bucket_dir(base, bucket);
    steps::ask_flag(
        QueryView::Exists { path },
        |there: bool|
            if there {
                Script::Fail(ErrorView::BucketAlreadyExists { bucket })
            } else {
                Script::Finish(seq![EffectView::CreateDirAll { path }], ())
            },
    )
}

enum CreateStage {
    Lock,
    Exists,
}

/// `create_bucket` under way.
pub struct CreateBucket {
    base: String,
    bucket: String,
    stage: CreateStage,
}

impl Scripted for CreateBucket {
    type Output = ();

    closed spec fn script(&self) -> Script<()> {
        match self.stage {
            CreateStage::Lock => steps::once_done(
                QueryView::LockExclusive { bucket: self.bucket@ },
                create_from_exists(self.base@, self.bucket@),
            ),
            CreateStage::Exists => create_from_exists(self.base@, self.bucket@),
        }
    }
}

impl Operation for CreateBucket {
    open spec fn takes(&self, a: AnswerView) -> bool {
        true
    }

    fn can_take(&self, a: &Answer) -> (r: bool) {
        true
    }

    fn resume(self, a: Answer) -> (step: Step<Self, ()>) {
        match self.stage {
            CreateStage::Lock => match take_done(a) {
                Err(e) => Step::Fail(e),
                Ok(_) => {
                    let path: String = bucket_path(self.base.as_str(), self.bucket.as_str());
                    Step::Ask(
                        Query::Exists { path },
                        CreateBucket { stage: CreateStage::Exists, ..self },
                    )
                },
            },
            CreateStage::Exists => match take_flag(a) {
                Err(e) => Step::Fail(e),
                Ok(true) => Step::Fail(Fals3Error::BucketAlreadyExists { bucket: self.bucket }),
                Ok(false) => {
                    let path: String = bucket_path(self.base.as_str(), self.bucket.as_str());
                    let mut fx: Vec<Effect> = Vec::new();
                    fx.push(Effect::CreateDirAll { path });
                    proof {
                        assert(exchange::effects(fx@) =~= seq![fx@[0]@]);
                    }
                    Step::Finish(fx, ())
                },
            },
        }
    }
}

// ---- delete ----

/// A bucket with this under its directory holds objects: there is a file that is no
/// sidecar, however deep it lies.
pub open spec fn holds_objects(trees: Seq<TreeView>) -> bool {
    listing::keys_under(Seq::empty(), trees).len() > 0
}

/// Deleting a bucket: `InvalidBucketName` for a bad name, `NoSuchBucket` where no
/// directory is at its path, `BucketNotEmpty` where it holds objects and `force`
/// is not set; otherwise the directory goes with all that is in it.
pub open spec fn delete_bucket_script(base: Seq<char>, bucket: Seq<char>, force: bool) -> Script<
    (),
> {
    steps::unless(
        paths::bucket_fault(bucket),
        steps::once_done(
            QueryView::LockExclusive { bucket },
            delete_from_dir(base, bucket, force),
        ),
    )
}

pub open spec fn delete_from_dir(base: Seq<char>, bucket: Seq<char>, force: bool) -> Script<()> {
    steps::ask_flag(
        QueryView::IsDir { path: paths::bucket_dir(base, bucket) },
        |there: bool|
            if !there {
                Script::Fail(ErrorView::NoSuchBucket { bucket })
            } else if force {
                bucket_removal(base, bucket)
            } else {
                delete_from_listing(base, bucket)
            },
    )
}

pub open spec fn delete_from_listing(base: Seq<char>, bucket: Seq<char>) -> Script<()> {
    steps::ask_tree(
        paths::bucket_dir(base, bucket),
        |trees: Seq<TreeView>|
            if holds_objects(trees) {
                Script::Fail(ErrorView::BucketNotEmpty { bucket })
            } else {
                bucket_removal(base, bucket)
            },
    )
}

pub open spec fn bucket_removal(base: Seq<char>, bucket: Seq<char>) -> Script<()> {
    Script::Finish(
        seq![EffectView::RemoveDirAll { path: paths::bucket_dir(base, bucket) }],
        (),
    )
}

/// Whether a bucket with this under its directory holds at least one object.
pub fn bucket_has_objects(trees: &Vec<Tree>) -> (r: bool)
    ensures
        r == holds_objects(exchange::forest(trees@)),
{
    let keys: Vec<String> = collect_keys(trees);
    proof {
        assert(text::views(keys@).len() == keys@.len());
    }
    keys.len() > 0
}

enum DeleteStage {
    Lock,
    Dir,
    Listing,
}

/// `delete_bucket` under way.
pub struct DeleteBucket {
    base: String,
    bucket: String,
    force: bool,
    stage: DeleteStage,
}

impl DeleteBucket {
    fn remove(self) -> (step: Step<DeleteBucket, ()>)
        ensures
            exchange::follows(step, bucket_removal(self.base@, self.bucket@)),
    {
        let path: String = bucket_path(self.base.as_str(), self.bucket.as_str());
        let mut fx: Vec<Effect> = Vec::new();
        fx.push(Effect::RemoveDirAll { path });
        proof {
            assert(exchange::effects(fx@) =~= seq![fx@[0]@]);
        }
        Step::Finish(fx, ())
    }
}

impl Scripted for DeleteBucket {
    type Output = ();

    closed spec fn script(&self) -> Script<()> {
        match self.stage {
            DeleteStage::Lock => steps::once_done(
                QueryView::LockExclusive { bucket: self.bucket@ },
                delete_from_dir(self.base@, self.bucket@, self.force),
            ),
            DeleteStage::Dir => delete_from_dir(self.base@, self.bucket@, self.force),
            DeleteStage::Listing => delete_from_listing(self.base@, self.bucket@),
        }
    }
}

impl Operation for DeleteBucket {
    open spec fn takes(&self, a: AnswerView) -> bool {
        true
    }

    fn can_take(&self, a: &Answer) -> (r: bool) {
        true
    }

    fn resume(self, a: Answer) -> (step: Step<Self, ()>) {
        match self.stage {
            DeleteStage::Lock => match take_done(a) {
                Err(e) => Step::Fail(e),
                Ok(_) => {
                    let path: String = bucket_path(self.base.as_str(), self.bucket.as_str());
                    Step::Ask(
                        Query::IsDir { path },
                        DeleteBucket { stage: DeleteStage::Dir, ..self },
                    )
                },
            },
            DeleteStage::Dir => match take_flag(a) {
                Err(e) => Step::Fail(e),
                Ok(false) => Step::Fail(Fals3Error::NoSuchBucket { bucket: self.bucket }),
                Ok(true) => if self.force {
                    self.remove()
                } else {
                    let path: String = bucket_path(self.base.as_str(), self.bucket.as_str());
                    Step::Ask(
                        Query::ReadTree { path },
                        DeleteBucket { stage: DeleteStage::Listing, ..self },
                    )
                },
            },
            DeleteStage::Listing => match take_tree(a) {
                Err(e) => Step::Fail(e),
                Ok(trees) => if bucket_has_objects(&trees) {
                    Step::Fail(Fals3Error::BucketNotEmpty { bucket: self.bucket })
                } else {
                    self.remove()
                },
            },
        }
    }
}

// ---- head ----

/// Finding a bucket: `InvalidBucketName` for a bad name, `NoSuchBucket` where
/// there is no directory.
pub open spec fn head_bucket_script(base: Seq<char>, bucket: Seq<char>) -> Script<()> {
    steps::unless(
        paths::bucket_fault(bucket),
        steps::in_bucket(base, bucket, Script::Finish(Seq::empty(), ())),
    )
}

/// `head_bucket` under way.
pub struct HeadBucket {
    base: String,
    bucket: String,
}

impl Scripted for HeadBucket {
    type Output = ();

    closed spec fn script(&self) -> Script<()> {
        steps::in_bucket(self.base@, self.bucket@, Script::Finish(Seq::empty(), ()))
    }
}

impl Operation for HeadBucket {
    open spec fn takes(&self, a: AnswerView) -> bool {
        true
    }

    fn can_take(&self, a: &Answer) -> (r: bool) {
        true
    }

    fn resume(self, a: Answer) -> (step: Step<Self, ()>) {
        match take_bucket(self.bucket.as_str(), a) {
            Err(e) => Step::Fail(e),
            Ok(_) => {
                let fx: Vec<Effect> = Vec::new();
                proof {
                    assert(exchange::effects(fx@) =~= Seq::<EffectView>::empty());
                }
                Step::Finish(fx, ())
            },
        }
    }
}

impl Store {
    /// Create a bucket.
    ///
    /// Errors: `InvalidBucketName`, `BucketAlreadyExists`.
    pub fn create_bucket(&self, input: CreateBucketInput) -> (step: Step<CreateBucket, ()>)
        ensures
            exchange::follows(step, create_bucket_script(self.base(), input.bucket@)),
    {
        match validate_bucket_name(input.bucket.as_str()) {
            Err(e) => Step::Fail(e),
            Ok(_) => Step::Ask(
                Query::LockExclusive { bucket: input.bucket.clone() },
                CreateBucket {
                    base: self.base_dir().to_owned(),
                    bucket: input.bucket,
                    stage: CreateStage::Lock,
                },
            ),
        }
    }

    /// Delete a bucket.
    ///
    /// If `force` is false, gives `BucketNotEmpty` when the bucket contains
    /// objects. Errors: `InvalidBucketName`, `NoSuchBucket`, `BucketNotEmpty`.
    pub fn delete_bucket(&self, input: DeleteBucketInput) -> (step: Step<DeleteBucket, ()>)
        ensures
            exchange::follows(
                step,
                delete_bucket_script(self.base(), input.bucket@, input.force),
            ),
    {
        match validate_bucket_name(input.bucket.as_str()) {
            Err(e) => Step::Fail(e),
            Ok(_) => Step::Ask(
                Query::LockExclusive { bucket: input.bucket.clone() },
                DeleteBucket {
                    base: self.base_dir().to_owned(),
                    bucket: input.bucket,
                    force: input.force,
                    stage: DeleteStage::Lock,
                },
            ),
        }
    }

    /// Check that a bucket exists.
    ///
    /// Errors: `InvalidBucketName`, `NoSuchBucket`.
    pub fn head_bucket(&self, input: HeadBucketInput) -> (step: Step<HeadBucket, ()>)
        ensures
            exchange::follows(step, head_bucket_script(self.base(), input.bucket@)),
    {
        match validate_bucket_name(input.bucket.as_str()) {
            Err(e) => Step::Fail(e),
            Ok(_) => {
                let path: String = bucket_path(self.base_dir(), input.bucket.as_str());
                Step::Ask(
                    Query::IsDir { path },
                    HeadBucket { base: self.base_dir().to_owned(), bucket: input.bucket },
                )
            },
        }
    }
}

} // verus!
