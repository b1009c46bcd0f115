//! The building blocks of the store's scripts, and what the operations make of
//! each answer.

use crate::conditions;
use crate::conditions::{check_read_preconditions, IfConditions};
use crate::conditions::ConditionsView;
use crate::error::Fals3Error;
use crate::error::ErrorView;
use crate::exchange;
use crate::exchange::{refusal_of, Answer, DirEntry, Effect, Tree};
use crate::exchange::{AnswerView, EffectView, EntryView, QueryView, Script, TreeView};
use crate::meta;
use crate::meta::ObjectMeta;
use crate::meta::MetaView;
use crate::paths;
use crate::paths::{assert_within_base, meta_path, object_path, parent_of};
use crate::upload::UploadMeta;
use crate::upload::UploadView;
use vstd::prelude::*;

verus! {

/// Goes on with `rest` unless there is a fault.
pub open spec fn unless<T>(fault: Option<ErrorView>, rest: Script<T>) -> Script<T> {
    match fault {
        Some(e) => Script::Fail(e),
        None => rest,
    }
}

/// Goes on with `rest` if the bucket is there.
pub open spec fn in_bucket<T>(base: Seq<char>, bucket: Seq<char>, rest: Script<T>) -> Script<T> {
    Script::Ask(
        QueryView::IsDir { path: paths::bucket_dir(base, bucket) },
        |a: AnswerView| unless(bucket_refusal(bucket, a), rest),
    )
}

/// Why an operation cannot go on when asked whether the bucket is there, if so.
pub open spec fn bucket_refusal(bucket: Seq<char>, a: AnswerView) -> Option<ErrorView> {
    match a {
        AnswerView::Flag(true) => None,
        AnswerView::Flag(false) => Some(ErrorView::NoSuchBucket { bucket }),
        _ => Some(exchange::refusal(a)),
    }
}

pub fn take_bucket(bucket: &str, a: Answer) -> (r: Result<(), Fals3Error>)
    ensures
        match r {
            Ok(_) => bucket_refusal(bucket@, a@) is None,
            Err(e) => bucket_refusal(bucket@, a@) == Some(e@),
        },
{
    match a {
        Answer::Flag(true) => Ok(()),
        Answer::Flag(false) => Err(Fals3Error::NoSuchBucket { bucket: bucket.to_owned() }),
        _ => Err(refusal_of(a)),
    }
}

/// Asks for something that is only done, and goes on with `rest`.
pub open spec fn once_done<T>(q: QueryView, rest: Script<T>) -> Script<T> {
    Script::Ask(
        q,
        |a: AnswerView|
            match a {
                AnswerView::Done => rest,
                _ => Script::Fail(exchange::refusal(a)),
            },
    )
}

pub fn take_done(a: Answer) -> (r: Result<(), Fals3Error>)
    ensures
        match r {
            Ok(_) => a@ is Done,
            Err(e) => a@ !is Done && e@ == exchange::refusal(a@),
        },
{
    match a {
        Answer::Done => Ok(()),
        _ => Err(refusal_of(a)),
    }
}

/// Goes on with `rest` if `path` lies under `base` once its symlinks are
/// followed; where there is nothing at `path`, if `path` itself does.
pub open spec fn under_base<T>(base: Seq<char>, path: Seq<char>, rest: Script<T>) -> Script<T> {
    Script::Ask(
        QueryView::Resolve { path },
        |a: AnswerView| unless(escape_refusal(base, path, a), rest),
    )
}

/// Why an operation cannot go on when told where `path` leads, if so.
pub open spec fn escape_refusal(base: Seq<char>, path: Seq<char>, a: AnswerView) -> Option<
    ErrorView,
> {
    let escape = ErrorView::PathEscape { path, base };
    match a {
        AnswerView::Path(p) => if paths::lies_under(base, p) {
            None
        } else {
            Some(escape)
        },
        AnswerView::Failed(_) => if paths::lies_under(base, path) {
            None
        } else {
            Some(escape)
        },
        _ => Some(exchange::refusal(a)),
    }
}

pub fn take_resolved(base: &str, path: &str, a: Answer) -> (r: Result<(), Fals3Error>)
    ensures
        match r {
            Ok(_) => escape_refusal(base@, path@, a@) is None,
            Err(e) => escape_refusal(base@, path@, a@) == Some(e@),
        },
{
    match a {
        Answer::Path(p) => assert_within_base(base, path, p.as_str()),
        Answer::Failed(_) => assert_within_base(base, path, path),
        _ => Err(refusal_of(a)),
    }
}

/// Asks a yes-or-no question.
pub open spec fn ask_flag<T>(q: QueryView, k: spec_fn(bool) -> Script<T>) -> Script<T> {
    Script::Ask(
        q,
        |a: AnswerView|
            match a {
                AnswerView::Flag(b) => k(b),
                _ => Script::Fail(exchange::refusal(a)),
            },
    )
}

pub fn take_flag(a: Answer) -> (r: Result<bool, Fals3Error>)
    ensures
        match r {
            Ok(b) => a@ == AnswerView::Flag(b),
            Err(e) => a@ !is Flag && e@ == exchange::refusal(a@),
        },
{
    match a {
        Answer::Flag(b) => Ok(b),
        _ => Err(refusal_of(a)),
    }
}

/// Reads a file.
pub open spec fn ask_bytes<T>(path: Seq<char>, k: spec_fn(Seq<u8>) -> Script<T>) -> Script<T> {
    Script::Ask(
        QueryView::ReadBytes { path },
        |a: AnswerView|
            match a {
                AnswerView::Bytes(b) => k(b),
                _ => Script::Fail(exchange::refusal(a)),
            },
    )
}

pub fn take_bytes(a: Answer) -> (r: Result<Vec<u8>, Fals3Error>)
    ensures
        match r {
            Ok(b) => a@ == AnswerView::Bytes(b@),
            Err(e) => a@ !is Bytes && e@ == exchange::refusal(a@),
        },
{
    match a {
        Answer::Bytes(b) => Ok(b),
        _ => Err(refusal_of(a)),
    }
}

/// Reads a text file.
pub open spec fn ask_text<T>(path: Seq<char>, k: spec_fn(Seq<char>) -> Script<T>) -> Script<T> {
    Script::Ask(
        QueryView::ReadText { path },
        |a: AnswerView|
            match a {
                AnswerView::Text(t) => k(t),
                _ => Script::Fail(exchange::refusal(a)),
            },
    )
}

pub fn take_text(a: Answer) -> (r: Result<String, Fals3Error>)
    ensures
        match r {
            Ok(t) => a@ == AnswerView::Text(t@),
            Err(e) => a@ !is Text && e@ == exchange::refusal(a@),
        },
{
    match a {
        Answer::Text(t) => Ok(t),
        _ => Err(refusal_of(a)),
    }
}

/// Reads a sidecar.
pub open spec fn ask_meta<T>(path: Seq<char>, k: spec_fn(MetaView) -> Script<T>) -> Script<T> {
    Script::Ask(
        QueryView::ReadMeta { path },
        |a: AnswerView|
            match a {
                AnswerView::Meta(m) => k(m),
                _ => Script::Fail(exchange::refusal(a)),
            },
    )
}

pub fn take_meta(a: Answer) -> (r: Result<ObjectMeta, Fals3Error>)
    ensures
        match r {
            Ok(m) => a@ == AnswerView::Meta(m@),
            Err(e) => a@ !is Meta && e@ == exchange::refusal(a@),
        },
{
    match a {
        Answer::Meta(m) => Ok(m),
        _ => Err(refusal_of(a)),
    }
}

/// Reads the record of an upload.
pub open spec fn ask_upload<T>(path: Seq<char>, k: spec_fn(UploadView) -> Script<T>) -> Script<T> {
    Script::Ask(
        QueryView::ReadUpload { path },
        |a: AnswerView|
            match a {
                AnswerView::Upload(u) => k(u),
                _ => Script::Fail(exchange::refusal(a)),
            },
    )
}

pub fn take_upload(a: Answer) -> (r: Result<UploadMeta, Fals3Error>)
    ensures
        match r {
            Ok(u) => a@ == AnswerView::Upload(u@),
            Err(e) => a@ !is Upload && e@ == exchange::refusal(a@),
        },
{
    match a {
        Answer::Upload(u) => Ok(u),
        _ => Err(refusal_of(a)),
    }
}

/// Lists a directory.
pub open spec fn ask_entries<T>(path: Seq<char>, k: spec_fn(Seq<EntryView>) -> Script<T>) -> Script<
    T,
> {
    Script::Ask(
        QueryView::ReadDir { path },
        |a: AnswerView|
            match a {
                AnswerView::Entries(es) => k(es),
                _ => Script::Fail(exchange::refusal(a)),
            },
    )
}

/// What a listing of a directory holds.
pub open spec fn entries(list: Seq<DirEntry>) -> Seq<EntryView> {
    list.map_values(|e: DirEntry| e@)
}

pub fn take_entries(a: Answer) -> (r: Result<Vec<DirEntry>, Fals3Error>)
    ensures
        match r {
            Ok(es) => a@ == AnswerView::Entries(entries(es@)),
            Err(e) => a@ !is Entries && e@ == exchange::refusal(a@),
        },
{
    match a {
        Answer::Entries(es) => Ok(es),
        _ => Err(refusal_of(a)),
    }
}

/// Asks what lies under a directory.
pub open spec fn ask_tree<T>(path: Seq<char>, k: spec_fn(Seq<TreeView>) -> Script<T>) -> Script<T> {
    Script::Ask(
        QueryView::ReadTree { path },
        |a: AnswerView|
            match a {
                AnswerView::Tree(ts) => k(ts),
                _ => Script::Fail(exchange::refusal(a)),
            },
    )
}

pub fn take_tree(a: Answer) -> (r: Result<Vec<Tree>, Fals3Error>)
    ensures
        match r {
            Ok(ts) => a@ == AnswerView::Tree(exchange::forest(ts@)),
            Err(e) => a@ !is Tree && e@ == exchange::refusal(a@),
        },
{
    match a {
        Answer::Tree(ts) => Ok(ts),
        _ => Err(refusal_of(a)),
    }
}

/// Asks for the time.
pub open spec fn ask_time<T>(k: spec_fn(u64) -> Script<T>) -> Script<T> {
    Script::Ask(
        QueryView::Now,
        |a: AnswerView|
            match a {
                AnswerView::Time(t) => k(t),
                _ => Script::Fail(exchange::refusal(a)),
            },
    )
}

pub fn take_time(a: Answer) -> (r: Result<u64, Fals3Error>)
    ensures
        match r {
            Ok(t) => a@ == AnswerView::Time(t),
            Err(e) => a@ !is Time && e@ == exchange::refusal(a@),
        },
{
    match a {
        Answer::Time(t) => Ok(t),
        _ => Err(refusal_of(a)),
    }
}

/// Asks for the size and the time of change of a file.
pub open spec fn ask_stat<T>(
    path: Seq<char>,
    k: spec_fn(u64, Option<u64>) -> Script<T>,
) -> Script<T> {
    Script::Ask(
        QueryView::Stat { path },
        |a: AnswerView|
            match a {
                AnswerView::Stat { size, modified } => k(size, modified),
                _ => Script::Fail(exchange::refusal(a)),
            },
    )
}

pub fn take_stat(a: Answer) -> (r: Result<(u64, Option<u64>), Fals3Error>)
    ensures
        match r {
            Ok((size, modified)) => a@ == (AnswerView::Stat { size, modified }),
            Err(e) => a@ !is Stat && e@ == exchange::refusal(a@),
        },
{
    match a {
        Answer::Stat { size, modified } => Ok((size, modified)),
        _ => Err(refusal_of(a)),
    }
}

/// Asks for what makes an upload id new.
pub open spec fn ask_seed<T>(k: spec_fn(u128, u64) -> Script<T>) -> Script<T> {
    Script::Ask(
        QueryView::Seed,
        |a: AnswerView|
            match a {
                AnswerView::Seed { nanos, count } => k(nanos, count),
                _ => Script::Fail(exchange::refusal(a)),
            },
    )
}

pub fn take_seed(a: Answer) -> (r: Result<(u128, u64), Fals3Error>)
    ensures
        match r {
            Ok((nanos, count)) => a@ == (AnswerView::Seed { nanos, count }),
            Err(e) => a@ !is Seed && e@ == exchange::refusal(a@),
        },
{
    match a {
        Answer::Seed { nanos, count } => Ok((nanos, count)),
        _ => Err(refusal_of(a)),
    }
}

/// Goes on with `rest` if the object is there.
pub open spec fn where_found<T>(
    base: Seq<char>,
    bucket: Seq<char>,
    key: Seq<char>,
    rest: Script<T>,
) -> Script<T> {
    Script::Ask(
        QueryView::IsFile { path: paths::object_file(base, bucket, key) },
        |a: AnswerView| unless(found_refusal(bucket, key, a), rest),
    )
}

/// Why an operation cannot go on when told whether the object is there, if so.
pub open spec fn found_refusal(bucket: Seq<char>, key: Seq<char>, a: AnswerView) -> Option<
    ErrorView,
> {
    match a {
        AnswerView::Flag(true) => None,
        AnswerView::Flag(false) => Some(ErrorView::NoSuchKey { bucket, key }),
        _ => Some(exchange::refusal(a)),
    }
}

pub fn take_found(bucket: &str, key: &str, a: Answer) -> (r: Result<(), Fals3Error>)
    ensures
        match r {
            Ok(_) => found_refusal(bucket@, key@, a@) is None,
            Err(e) => found_refusal(bucket@, key@, a@) == Some(e@),
        },
{
    match a {
        Answer::Flag(true) => Ok(()),
        Answer::Flag(false) => Err(
            Fals3Error::NoSuchKey { bucket: bucket.to_owned(), key: key.to_owned() },
        ),
        _ => Err(refusal_of(a)),
    }
}

/// Reads the sidecar of an object and goes on if the conditions on reading hold.
pub open spec fn where_admitted<T>(
    base: Seq<char>,
    bucket: Seq<char>,
    key: Seq<char>,
    c: ConditionsView,
    k: spec_fn(MetaView) -> Script<T>,
) -> Script<T> {
    ask_meta(
        paths::meta_file(base, bucket, key),
        |m: MetaView| unless(conditions::read_fault(m, c), k(m)),
    )
}

pub fn take_admitted(c: &IfConditions, a: Answer) -> (r: Result<ObjectMeta, Fals3Error>)
    ensures
        match r {
            Ok(m) => a@ == AnswerView::Meta(m@) && conditions::read_fault(m@, c@) is None,
            Err(e) => if a@ is Meta {
                conditions::read_fault(a@->Meta_0, c@) == Some(e@)
            } else {
                e@ == exchange::refusal(a@)
            },
        },
{
    match take_meta(a) {
        Err(e) => Err(e),
        Ok(m) => match check_read_preconditions(&m, c) {
            Err(e) => Err(e),
            Ok(_) => Ok(m),
        },
    }
}

/// Makes the directory that the file at `path` goes into.
pub open spec fn parent_making(path: Seq<char>) -> Seq<EffectView> {
    match paths::parent(path) {
        Some(dir) => seq![EffectView::CreateDirAll { path: dir }],
        None => Seq::empty(),
    }
}

/// Writes an object: its directory, its body, then its sidecar.
pub open spec fn object_writing(
    base: Seq<char>,
    bucket: Seq<char>,
    key: Seq<char>,
    body: Seq<u8>,
    meta: MetaView,
) -> Seq<EffectView> {
    let path = paths::object_file(base, bucket, key);
    parent_making(path) + seq![EffectView::Write { path, bytes: body }] + meta::sidecar_writing(
        paths::meta_file(base, bucket, key),
        meta,
    )
}

/// What writes an object: its directory, its body, then its sidecar, so that no
/// sidecar stands beside a body that is missing.
pub fn object_effects(base: &str, bucket: &str, key: &str, body: Vec<u8>, meta: ObjectMeta) -> (r:
    Vec<Effect>)
    ensures
        exchange::effects(r@) == object_writing(base@, bucket@, key@, body@, meta@),
{
    let path: String = object_path(base, bucket, key);
    let sidecar: String = meta_path(base, bucket, key);
    let ghost bytes = body@;
    let ghost m = meta@;
    let ghost p = path@;
    let mut r: Vec<Effect> = Vec::new();
    if let Some(dir) = parent_of(path.as_str()) {
        r.push(Effect::CreateDirAll { path: dir });
    }
    proof {
        assert(exchange::effects(r@) =~= parent_making(p));
    }
    let ghost front = r@;
    r.push(Effect::Write { path, bytes: body });
    let mut tail: Vec<Effect> = meta.write(sidecar.as_str());
    let ghost back = tail@;
    r.append(&mut tail);
    proof {
        assert(r@ =~= front.push(r@[front.len() as int]) + back);
        assert(exchange::effects(r@) =~= parent_making(p) + seq![
            EffectView::Write { path: p, bytes },
        ] + exchange::effects(back));
    }
    r
}

} // verus!
