//! What the store and the disk say to each other.
//!
//! An operation of the store does no I/O of its own. It asks the disk one
//! question at a time, decides by the answers, and ends with an error or with a
//! list of effects for the disk to carry out. The mathematical model of an
//! operation is its script.

use crate::error::Fals3Error;
use crate::error::ErrorView;
use crate::meta::ObjectMeta;
use crate::meta::MetaView;
use crate::upload::UploadMeta;
use crate::upload::UploadView;
use vstd::prelude::*;

verus! {

/// A question for the disk. None of them changes what the disk holds.
#[derive(Debug)]
pub enum Query {
    /// Take the lock of a bucket for reading. Answer: `Done`.
    LockShared { bucket: String },
    /// Take the lock of a bucket for writing. Answer: `Done`.
    LockExclusive { bucket: String },
    /// Let go of the lock that is held. Answer: `Done`.
    Unlock,
    /// Is there a directory? Answer: `Flag`.
    IsDir { path: String },
    /// Is there a regular file? Answer: `Flag`.
    IsFile { path: String },
    /// Is there anything? Answer: `Flag`.
    Exists { path: String },
    /// The path with its symlinks followed. Answer: `Path`, or `Failed` where
    /// there is nothing.
    Resolve { path: String },
    /// The bytes of a file. Answer: `Bytes`.
    ReadBytes { path: String },
    /// A file as UTF-8 text. Answer: `Text`.
    ReadText { path: String },
    /// The metadata in a sidecar. Answer: `Meta`.
    ReadMeta { path: String },
    /// The record of a multipart upload. Answer: `Upload`.
    ReadUpload { path: String },
    /// The names in a directory. Answer: `Entries`.
    ReadDir { path: String },
    /// All that lies under a directory. Answer: `Tree`.
    ReadTree { path: String },
    /// Size and time of change of a file. Answer: `Stat`.
    Stat { path: String },
    /// Seconds since the Unix epoch. Answer: `Time`.
    Now,
    /// Nanoseconds since the Unix epoch, and a number that grows with each
    /// question. Answer: `Seed`.
    Seed,
}

/// What an entry of a directory is.
#[derive(Debug, Clone, Copy, PartialEq, Eq, Structural)]
pub enum EntryKind {
    File,
    Dir,
    Other,
}

/// One name in a directory.
#[derive(Debug)]
pub struct DirEntry {
    pub name: String,
    pub kind: EntryKind,
}

/// One name in a directory, with all that lies under it.
#[derive(Debug)]
pub enum Tree {
    File { name: String },
    Dir { name: String, entries: Vec<Tree> },
    Other { name: String },
}

/// What the disk answers.
#[derive(Debug)]
pub enum Answer {
    Done,
    Flag(bool),
    Path(String),
    Bytes(Vec<u8>),
    Text(String),
    Meta(ObjectMeta),
    Upload(UploadMeta),
    Entries(Vec<DirEntry>),
    Tree(Vec<Tree>),
    /// `modified` in seconds since the Unix epoch, where the disk knows it.
    Stat { size: u64, modified: Option<u64> },
    Time(u64),
    Seed { nanos: u128, count: u64 },
    Failed(Fals3Error),
}

/// A change of what the disk holds.
#[derive(Debug)]
pub enum Effect {
    CreateDirAll { path: String },
    Write { path: String, bytes: Vec<u8> },
    /// Write the metadata as JSON.
    WriteMeta { path: String, meta: ObjectMeta },
    /// Write the record of a multipart upload as JSON.
    WriteUpload { path: String, upload: UploadMeta },
    Rename { from: String, to: String },
    RemoveFile { path: String },
    RemoveDirAll { path: String },
    /// Remove a directory if that can be done; a failure is no error.
    DiscardDirAll { path: String },
}

/// Where an operation stands.
///
/// `Ask`: the disk answers the query and the operation resumes with the answer.
/// `Finish`: the disk carries out the effects in order; the operation succeeds
/// with the output if all of them do, and fails with the first error otherwise.
/// `Fail`: the operation fails and changes nothing.
#[derive(Debug)]
pub enum Step<M, O> {
    Ask(Query, M),
    Finish(Vec<Effect>, O),
    Fail(Fals3Error),
}

// ---- mathematical values ----

#[verifier::ext_equal]
pub enum QueryView {
    LockShared { bucket: Seq<char> },
    LockExclusive { bucket: Seq<char> },
    Unlock,
    IsDir { path: Seq<char> },
    IsFile { path: Seq<char> },
    Exists { path: Seq<char> },
    Resolve { path: Seq<char> },
    ReadBytes { path: Seq<char> },
    ReadText { path: Seq<char> },
    ReadMeta { path: Seq<char> },
    ReadUpload { path: Seq<char> },
    ReadDir { path: Seq<char> },
    ReadTree { path: Seq<char> },
    Stat { path: Seq<char> },
    Now,
    Seed,
}

impl View for Query {
    type V = QueryView;

    open spec fn view(&self) -> QueryView {
        match *self {
            Query::LockShared { bucket } => QueryView::LockShared { bucket: bucket@ },
            Query::LockExclusive { bucket } => QueryView::LockExclusive { bucket: bucket@ },
            Query::Unlock => QueryView::Unlock,
            Query::IsDir { path } => QueryView::IsDir { path: path@ },
            Query::IsFile { path } => QueryView::IsFile { path: path@ },
            Query::Exists { path } => QueryView::Exists { path: path@ },
            Query::Resolve { path } => QueryView::Resolve { path: path@ },
            Query::ReadBytes { path } => QueryView::ReadBytes { path: path@ },
            Query::ReadText { path } => QueryView::ReadText { path: path@ },
            Query::ReadMeta { path } => QueryView::ReadMeta { path: path@ },
            Query::ReadUpload { path } => QueryView::ReadUpload { path: path@ },
            Query::ReadDir { path } => QueryView::ReadDir { path: path@ },
            Query::ReadTree { path } => QueryView::ReadTree { path: path@ },
            Query::Stat { path } => QueryView::Stat { path: path@ },
            Query::Now => QueryView::Now,
            Query::Seed => QueryView::Seed,
        }
    }
}

#[verifier::ext_equal]
pub struct EntryView {
    pub name: Seq<char>,
    pub kind: EntryKind,
}

impl View for DirEntry {
    type V = EntryView;

    open spec fn view(&self) -> EntryView {
        EntryView { name: self.name@, kind: self.kind }
    }
}

pub enum TreeView {
    File { name: Seq<char> },
    Dir { name: Seq<char>, entries: Seq<TreeView> },
    Other { name: Seq<char> },
}

impl TreeView {
    pub open spec fn name(self) -> Seq<char> {
        match self {
            TreeView::File { name } => name,
            TreeView::Dir { name, .. } => name,
            TreeView::Other { name } => name,
        }
    }
}

/// The entries of a directory with all that lies under them.
pub open spec fn forest(entries: Seq<Tree>) -> Seq<TreeView>
    decreases entries,
{
    Seq::new(
        entries.len(),
        |i: int|
            if 0 <= i < entries.len() {
                tree_view(entries[i])
            } else {
                arbitrary()
            },
    )
}

pub open spec fn tree_view(tree: Tree) -> TreeView
    decreases tree,
{
    match tree {
        Tree::File { name } => TreeView::File { name: name@ },
        Tree::Dir { name, entries } => TreeView::Dir { name: name@, entries: forest(entries@) },
        Tree::Other { name } => TreeView::Other { name: name@ },
    }
}

impl View for Tree {
    type V = TreeView;

    open spec fn view(&self) -> TreeView {
        tree_view(*self)
    }
}

#[verifier::ext_equal]
pub enum AnswerView {
    Done,
    Flag(bool),
    Path(Seq<char>),
    Bytes(Seq<u8>),
    Text(Seq<char>),
    Meta(MetaView),
    Upload(UploadView),
    Entries(Seq<EntryView>),
    Tree(Seq<TreeView>),
    Stat { size: u64, modified: Option<u64> },
    Time(u64),
    Seed { nanos: u128, count: u64 },
    Failed(ErrorView),
}

impl View for Answer {
    type V = AnswerView;

    open spec fn view(&self) -> AnswerView {
        match *self {
            Answer::Done => AnswerView::Done,
            Answer::Flag(b) => AnswerView::Flag(b),
            Answer::Path(p) => AnswerView::Path(p@),
            Answer::Bytes(b) => AnswerView::Bytes(b@),
            Answer::Text(s) => AnswerView::Text(s@),
            Answer::Meta(m) => AnswerView::Meta(m@),
            Answer::Upload(u) => AnswerView::Upload(u@),
            Answer::Entries(es) => AnswerView::Entries(es@.map_values(|e: DirEntry| e@)),
            Answer::Tree(ts) => AnswerView::Tree(forest(ts@)),
            Answer::Stat { size, modified } => AnswerView::Stat { size, modified },
            Answer::Time(t) => AnswerView::Time(t),
            Answer::Seed { nanos, count } => AnswerView::Seed { nanos, count },
            Answer::Failed(e) => AnswerView::Failed(e@),
        }
    }
}

#[verifier::ext_equal]
pub enum EffectView {
    CreateDirAll { path: Seq<char> },
    Write { path: Seq<char>, bytes: Seq<u8> },
    WriteMeta { path: Seq<char>, meta: MetaView },
    WriteUpload { path: Seq<char>, upload: UploadView },
    Rename { from: Seq<char>, to: Seq<char> },
    RemoveFile { path: Seq<char> },
    RemoveDirAll { path: Seq<char> },
    DiscardDirAll { path: Seq<char> },
}

impl View for Effect {
    type V = EffectView;

    open spec fn view(&self) -> EffectView {
        match *self {
            Effect::CreateDirAll { path } => EffectView::CreateDirAll { path: path@ },
            Effect::Write { path, bytes } => EffectView::Write { path: path@, bytes: bytes@ },
            Effect::WriteMeta { path, meta } => EffectView::WriteMeta { path: path@, meta: meta@ },
            Effect::WriteUpload { path, upload } => EffectView::WriteUpload {
                path: path@,
                upload: upload@,
            },
            Effect::Rename { from, to } => EffectView::Rename { from: from@, to: to@ },
            Effect::RemoveFile { path } => EffectView::RemoveFile { path: path@ },
            Effect::RemoveDirAll { path } => EffectView::RemoveDirAll { path: path@ },
            Effect::DiscardDirAll { path } => EffectView::DiscardDirAll { path: path@ },
        }
    }
}

/// The effects that a list holds.
pub open spec fn effects(list: Seq<Effect>) -> Seq<EffectView> {
    list.map_values(|e: Effect| e@)
}

// ---- scripts ----

/// All that an operation may still do: what it asks next and how it goes on with
/// each answer, or how it ends.
#[verifier::reject_recursive_types(T)]
pub enum Script<T> {
    Ask(QueryView, spec_fn(AnswerView) -> Script<T>),
    Finish(Seq<EffectView>, T),
    Fail(ErrorView),
}

/// How a script goes on with an answer.
pub open spec fn after<T>(s: Script<T>, a: AnswerView) -> Script<T> {
    match s {
        Script::Ask(_, k) => k(a),
        _ => s,
    }
}

/// The error for an answer that tells nothing: that of the disk, or an internal
/// error where the answer is not one to the question.
pub open spec fn refusal(a: AnswerView) -> ErrorView {
    match a {
        AnswerView::Failed(e) => e,
        _ => ErrorView::Internal("the answer does not fit the question"@),
    }
}

/// The error for an answer that tells nothing.
pub fn refusal_of(a: Answer) -> (r: Fals3Error)
    ensures
        r@ == refusal(a@),
{
    match a {
        Answer::Failed(e) => e,
        _ => Fals3Error::Internal("the answer does not fit the question".to_owned()),
    }
}

/// An operation under way, with the script that it is to follow.
pub trait Scripted: Sized {
    type Output: View;

    /// What the operation may still do.
    spec fn script(&self) -> Script<<Self::Output as View>::V>;
}

/// The step does what the script says.
pub open spec fn follows<M: Scripted>(
    step: Step<M, M::Output>,
    s: Script<<M::Output as View>::V>,
) -> bool {
    match step {
        Step::Ask(q, m) => s == m.script() && (match s {
            Script::Ask(qv, _) => qv == q@,
            _ => false,
        }),
        Step::Finish(fx, out) => s == Script::<<M::Output as View>::V>::Finish(effects(fx@), out@),
        Step::Fail(e) => s == Script::<<M::Output as View>::V>::Fail(e@),
    }
}

/// An operation under way that goes on when the disk has answered.
pub trait Operation: Scripted {
    /// The operation can go on with this answer.
    spec fn takes(&self, a: AnswerView) -> bool;

    /// Whether the operation can go on with this answer.
    fn can_take(&self, a: &Answer) -> (r: bool)
        ensures
            r == self.takes(a@),
    ;

    /// Goes on with the answer.
    fn resume(self, a: Answer) -> (step: Step<Self, Self::Output>)
        requires
            self.takes(a@),
        ensures
            follows(step, after(self.script(), a@)),
    ;
}

} // verus!
