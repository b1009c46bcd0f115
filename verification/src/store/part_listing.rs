//! Listing the parts of a multipart upload.

use crate::exchange;
use crate::exchange::{Answer, DirEntry, Effect, Operation, Query, Scripted, Step};
use crate::exchange::{AnswerView, EffectView, EntryView, QueryView, Script};
use crate::paths;
use crate::paths::join;
use crate::store::multipart;
use crate::store::multipart::take_upload_dir;
use crate::store::parts;
use crate::store::parts::{parse_part_body_filename, part_etag_path, upload_dir};
use crate::store::parts::{upload_meta_path, validate_upload_id};
use crate::store::steps;
use crate::store::steps::{take_entries, take_flag, take_stat, take_text, take_upload};
use crate::store::Store;
use crate::upload::UploadMeta;
use crate::upload::UploadView;
use vstd::prelude::*;

verus! {

pub struct ListPartsInput {
    pub upload_id: String,
}

#[derive(Debug, Clone)]
pub struct PartEntry {
    pub part_number: u32,
    pub etag: String,
    pub size: u64,
    pub last_modified: u64,
}

#[derive(Debug)]
pub struct ListPartsOutput {
    pub bucket: String,
    pub key: String,
    pub parts: Vec<PartEntry>,
}

/// A part of an upload, as mathematical values.
#[verifier::ext_equal]
pub struct PartView {
    pub part_number: u32,
    pub etag: Seq<char>,
    pub size: u64,
    pub last_modified: u64,
}

impl View for PartEntry {
    type V = PartView;

    open spec fn view(&self) -> PartView {
        PartView {
            part_number: self.part_number,
            etag: self.etag@,
            size: self.size,
            last_modified: self.last_modified,
        }
    }
}

/// The parts of an upload, as mathematical values.
#[verifier::ext_equal]
pub struct PartsView {
    pub bucket: Seq<char>,
    pub key: Seq<char>,
    pub parts: Seq<PartView>,
}

/// What a list of parts says.
pub open spec fn part_views(list: Seq<PartEntry>) -> Seq<PartView> {
    list.map_values(|p: PartEntry| p@)
}

impl View for ListPartsOutput {
    type V = PartsView;

    open spec fn view(&self) -> PartsView {
        PartsView { bucket: self.bucket@, key: self.key@, parts: part_views(self.parts@) }
    }
}

// ---- the order of parts ----

/// The parts stand by their numbers.
pub open spec fn by_number(s: Seq<PartView>) -> bool {
    forall|i: int, j: int|
        0 <= i < j < s.len() ==> (#[trigger] s[i]).part_number <= (#[trigger] s[j]).part_number
}

/// `s` with `p` behind the last part whose number is not greater.
pub open spec fn with_part(s: Seq<PartView>, p: PartView) -> Seq<PartView>
    decreases s.len(),
{
    if s.len() == 0 || s.last().part_number <= p.part_number {
        s.push(p)
    } else {
        with_part(s.drop_last(), p).push(s.last())
    }
}

/// Adding a part keeps the parts by their numbers, and adds that part alone.
pub proof fn parts_stay_by_number(s: Seq<PartView>, p: PartView)
    requires
        by_number(s),
    ensures
        by_number(with_part(s, p)),
        with_part(s, p).to_multiset() == s.to_multiset().insert(p),
    decreases s.len(),
{
    broadcast use vstd::seq_lib::group_to_multiset_ensures;

    let t = with_part(s, p);
    if s.len() > 0 && s.last().part_number > p.part_number {
        let r = s.drop_last();
        parts_stay_by_number(r, p);
        let inner = with_part(r, p);
        assert forall|i: int, j: int| 0 <= i < j < t.len() implies (#[trigger] t[i]).part_number <= (
        #[trigger] t[j]).part_number by {
            if j == t.len() - 1 {
                assert(inner.to_multiset().count(inner[i]) > 0) by {
                    assert(inner.contains(inner[i]));
                }
                if inner[i] != p {
                    assert(r.to_multiset().count(inner[i]) > 0);
                    assert(r.contains(inner[i]));
                    let k = choose|k: int| 0 <= k < r.len() && r[k] == inner[i];
                    assert(s[k] == r[k]);
                }
            }
        }
        assert(s =~= r.push(s.last()));
        assert(t.to_multiset() =~= s.to_multiset().insert(p));
    }
}

/// Puts a part behind the last one whose number is not greater.
fn add_part(list: &mut Vec<PartEntry>, p: PartEntry)
    ensures
        part_views(final(list)@) == with_part(part_views(old(list)@), p@),
{
    let mut at: usize = list.len();
    let ghost s = part_views(list@);
    let ghost n = list@.len();
    proof {
        assert(s.take(n as int) =~= s);
        assert(s.skip(n as int) =~= Seq::<PartView>::empty());
        assert(with_part(s, p@) =~= with_part(s.take(n as int), p@) + s.skip(n as int));
    }
    while at > 0 && list[at - 1].part_number > p.part_number
        invariant
            at <= n,
            n == list@.len(),
            s == part_views(list@),
            with_part(s, p@) == with_part(s.take(at as int), p@) + s.skip(at as int),
        decreases at,
    {
        proof {
            let front = s.take(at as int);
            assert(front.drop_last() =~= s.take(at - 1));
            assert(front.last() == list@[at - 1]@);
            assert(s.skip(at - 1) =~= seq![front.last()] + s.skip(at as int));
            assert(with_part(front, p@) + s.skip(at as int) =~= with_part(s.take(at - 1), p@)
                + s.skip(at - 1));
        }
        at = at - 1;
    }
    proof {
        if at > 0 {
            assert(s.take(at as int).last() == list@[at - 1]@);
        }
    }
    list.insert(at, p);
    proof {
        assert(part_views(list@) =~= s.take(at as int).push(p@) + s.skip(at as int));
    }
}

// ---- the script ----

/// Listing parts: `NoSuchUpload` where there is no upload; otherwise each file of
/// the upload that is the body of a part and has an ETag beside it is listed.
pub open spec fn list_parts_script(base: Seq<char>, upload_id: Seq<char>) -> Script<PartsView> {
    steps::unless(parts::id_fault(upload_id), list_from_dir(base, upload_id))
}

pub open spec fn list_from_dir(base: Seq<char>, upload_id: Seq<char>) -> Script<PartsView> {
    let dir = parts::upload_home(base, upload_id);
    multipart::in_upload(base, upload_id, list_from_record(dir))
}

pub open spec fn list_from_record(dir: Seq<char>) -> Script<PartsView> {
    steps::ask_upload(parts::record_file(dir), |u: UploadView| list_from_entries(dir, u))
}

pub open spec fn list_from_entries(dir: Seq<char>, u: UploadView) -> Script<PartsView> {
    steps::ask_entries(
        dir,
        |es: Seq<EntryView>| list_from_entry(dir, u, es, 0, Seq::empty()),
    )
}

/// Going through the entries from the `n`th one on, with the parts found before.
pub open spec fn list_from_entry(
    dir: Seq<char>,
    u: UploadView,
    es: Seq<EntryView>,
    n: int,
    found: Seq<PartView>,
) -> Script<PartsView>
    decreases es.len() - n, 1int,
{
    if 0 <= n < es.len() {
        match parts::part_number_of(es[n].name) {
            Some(p) => list_from_flag(
                dir,
                es[n].name,
                p,
                u.started_at,
                list_with_entry(dir, u, es, n, found),
            ),
            None => list_from_entry(dir, u, es, n + 1, found),
        }
    } else {
        Script::Finish(Seq::empty(), PartsView { bucket: u.bucket, key: u.key, parts: found })
    }
}

/// How listing goes on with the part that the `n`th entry holds, if any.
pub open spec fn list_with_entry(
    dir: Seq<char>,
    u: UploadView,
    es: Seq<EntryView>,
    n: int,
    found: Seq<PartView>,
) -> spec_fn(Option<PartView>) -> Script<PartsView>
    decreases es.len() - n, 0int,
{
    |part: Option<PartView>|
        if 0 <= n < es.len() {
            list_from_entry(
                dir,
                u,
                es,
                n + 1,
                match part {
                    Some(p) => with_part(found, p),
                    None => found,
                },
            )
        } else {
            Script::Finish(Seq::empty(), PartsView { bucket: u.bucket, key: u.key, parts: found })
        }
}

/// A body without an ETag beside it is not listed.
pub open spec fn list_from_flag(
    dir: Seq<char>,
    name: Seq<char>,
    p: u32,
    started_at: u64,
    k: spec_fn(Option<PartView>) -> Script<PartsView>,
) -> Script<PartsView> {
    steps::ask_flag(
        QueryView::IsFile { path: parts::etag_file(dir, p) },
        |there: bool|
            if there {
                list_from_text(dir, name, p, started_at, k)
            } else {
                k(None)
            },
    )
}

pub open spec fn list_from_text(
    dir: Seq<char>,
    name: Seq<char>,
    p: u32,
    started_at: u64,
    k: spec_fn(Option<PartView>) -> Script<PartsView>,
) -> Script<PartsView> {
    steps::ask_text(
        parts::etag_file(dir, p),
        |etag: Seq<char>| list_from_stat(dir, name, p, started_at, etag, k),
    )
}

/// Where the disk does not know when a body was changed, the start of the upload
/// stands in.
pub open spec fn list_from_stat(
    dir: Seq<char>,
    name: Seq<char>,
    p: u32,
    started_at: u64,
    etag: Seq<char>,
    k: spec_fn(Option<PartView>) -> Script<PartsView>,
) -> Script<PartsView> {
    steps::ask_stat(
        paths::path_join(dir, name),
        |size: u64, modified: Option<u64>|
            k(
                Some(
                    PartView {
                        part_number: p,
                        etag,
                        size,
                        last_modified: match modified {
                            Some(t) => t,
                            None => started_at,
                        },
                    },
                ),
            ),
    )
}

// ---- the operation ----

/// How far the listing has come; the next entry is the body of the part `number`
/// where one is looked at.
struct Progress {
    upload: UploadMeta,
    entries: Vec<DirEntry>,
    next: usize,
    number: u32,
    found: Vec<PartEntry>,
}

enum ListStage {
    Dir,
    Record,
    Entries(UploadMeta),
    Flag(Progress),
    Text(Progress),
    Stat(Progress, String),
}

/// `list_parts` under way.
pub struct ListParts {
    base: String,
    upload_id: String,
    stage: ListStage,
}

impl Progress {
    spec fn names(self) -> Seq<EntryView> {
        steps::entries(self.entries@)
    }

    spec fn script(self, dir: Seq<char>) -> Script<PartsView> {
        list_from_entry(
            dir,
            self.upload@,
            self.names(),
            self.next as int,
            part_views(self.found@),
        )
    }

    spec fn with_entry(self, dir: Seq<char>) -> spec_fn(Option<PartView>) -> Script<PartsView> {
        list_with_entry(
            dir,
            self.upload@,
            self.names(),
            self.next as int,
            part_views(self.found@),
        )
    }
}

impl ListParts {
    /// While an entry is looked at, there is one.
    #[verifier::type_invariant]
    spec fn is_valid(self) -> bool {
        match self.stage {
            ListStage::Flag(p) => p.next < p.entries.len(),
            ListStage::Text(p) => p.next < p.entries.len(),
            ListStage::Stat(p, _) => p.next < p.entries.len(),
            _ => true,
        }
    }

    /// Goes on to the next entry that is the body of a part, or ends.
    fn go_on(base: String, upload_id: String, progress: Progress) -> (step: Step<
        ListParts,
        ListPartsOutput,
    >)
        ensures
            exchange::follows(step, progress.script(parts::upload_home(base@, upload_id@))),
    {
        let dir: String = upload_dir(base.as_str(), upload_id.as_str());
        let Progress { upload, entries, next: start, number: _, found } = progress;
        let mut next: usize = start;
        let ghost names = steps::entries(entries@);
        while next < entries.len()
            invariant
                dir@ == parts::upload_home(base@, upload_id@),
                names == steps::entries(entries@),
                progress.script(dir@) == list_from_entry(
                    dir@,
                    upload@,
                    names,
                    next as int,
                    part_views(found@),
                ),
            decreases entries@.len() - next,
        {
            proof {
                assert(names[next as int] == entries@[next as int]@);
            }
            match parse_part_body_filename(entries[next].name.as_str()) {
                Some(number) => {
                    let p: Progress = Progress { upload, entries, next, number, found };
                    return Step::Ask(
                        Query::IsFile { path: part_etag_path(dir.as_str(), number) },
                        ListParts { base, upload_id, stage: ListStage::Flag(p) },
                    );
                },
                None => {
                    next = next + 1;
                },
            }
        }
        let fx: Vec<Effect> = Vec::new();
        proof {
            assert(exchange::effects(fx@) =~= Seq::<EffectView>::empty());
        }
        Step::Finish(
            fx,
            ListPartsOutput { bucket: upload.bucket, key: upload.key, parts: found },
        )
    }
}

impl Scripted for ListParts {
    type Output = ListPartsOutput;

    closed spec fn script(&self) -> Script<PartsView> {
        let dir = parts::upload_home(self.base@, self.upload_id@);
        match self.stage {
            ListStage::Dir => list_from_dir(self.base@, self.upload_id@),
            ListStage::Record => list_from_record(dir),
            ListStage::Entries(u) => list_from_entries(dir, u@),
            ListStage::Flag(p) => list_from_flag(
                dir,
                p.entries@[p.next as int].name@,
                p.number,
                p.upload.started_at,
                p.with_entry(dir),
            ),
            ListStage::Text(p) => list_from_text(
                dir,
                p.entries@[p.next as int].name@,
                p.number,
                p.upload.started_at,
                p.with_entry(dir),
            ),
            ListStage::Stat(p, etag) => list_from_stat(
                dir,
                p.entries@[p.next as int].name@,
                p.number,
                p.upload.started_at,
                etag@,
                p.with_entry(dir),
            ),
        }
    }
}

impl Operation for ListParts {
    open spec fn takes(&self, a: AnswerView) -> bool {
        true
    }

    fn can_take(&self, a: &Answer) -> (r: bool) {
        true
    }

    fn resume(self, a: Answer) -> (step: Step<Self, ListPartsOutput>) {
        proof {
            use_type_invariant(&self);
        }
        let ListParts { base, upload_id, stage } = self;
        let dir: String = upload_dir(base.as_str(), upload_id.as_str());
        match stage {
            ListStage::Dir => match take_upload_dir(upload_id.as_str(), a) {
                Err(e) => Step::Fail(e),
                Ok(_) => Step::Ask(
                    Query::ReadUpload { path: upload_meta_path(dir.as_str()) },
                    ListParts { base, upload_id, stage: ListStage::Record },
                ),
            },
            ListStage::Record => match take_upload(a) {
                Err(e) => Step::Fail(e),
                Ok(upload) => Step::Ask(
                    Query::ReadDir { path: dir },
                    ListParts { base, upload_id, stage: ListStage::Entries(upload) },
                ),
            },
            ListStage::Entries(upload) => match take_entries(a) {
                Err(e) => Step::Fail(e),
                Ok(entries) => {
                    let p: Progress = Progress {
                        upload,
                        entries,
                        next: 0,
                        number: 0,
                        found: Vec::new(),
                    };
                    proof {
                        assert(part_views(p.found@) =~= Seq::<PartView>::empty());
                    }
                    ListParts::go_on(base, upload_id, p)
                },
            },
            ListStage::Flag(p) => match take_flag(a) {
                Err(e) => Step::Fail(e),
                Ok(true) => Step::Ask(
                    Query::ReadText { path: part_etag_path(dir.as_str(), p.number) },
                    ListParts { base, upload_id, stage: ListStage::Text(p) },
                ),
                Ok(false) => {
                    let q: Progress = Progress { next: p.next + 1, ..p };
                    ListParts::go_on(base, upload_id, q)
                },
            },
            ListStage::Text(p) => match take_text(a) {
                Err(e) => Step::Fail(e),
                Ok(etag) => Step::Ask(
                    Query::Stat { path: join(dir.as_str(), p.entries[p.next].name.as_str()) },
                    ListParts { base, upload_id, stage: ListStage::Stat(p, etag) },
                ),
            },
            ListStage::Stat(p, etag) => match take_stat(a) {
                Err(e) => Step::Fail(e),
                Ok((size, modified)) => {
                    let Progress { upload, entries, next, number, mut found } = p;
                    let last_modified: u64 = match modified {
                        Some(t) => t,
                        None => upload.started_at,
                    };
                    add_part(
                        &mut found,
                        PartEntry { part_number: number, etag, size, last_modified },
                    );
                    let q: Progress = Progress { upload, entries, next: next + 1, number, found };
                    ListParts::go_on(base, upload_id, q)
                },
            },
        }
    }
}

impl Store {
    /// List the parts already uploaded for an in-flight multipart upload, by their
    /// numbers.
    ///
    /// Errors: `NoSuchUpload`.
    pub fn list_parts(&self, input: ListPartsInput) -> (step: Step<ListParts, ListPartsOutput>)
        ensures
            exchange::follows(step, list_parts_script(self.base(), input.upload_id@)),
    {
        match validate_upload_id(input.upload_id.as_str()) {
            Err(e) => Step::Fail(e),
            Ok(_) => Step::Ask(
                Query::IsDir { path: upload_dir(self.base_dir(), input.upload_id.as_str()) },
                ListParts {
                    base: self.base_dir().to_owned(),
                    upload_id: input.upload_id,
                    stage: ListStage::Dir,
                },
            ),
        }
    }
}

} // verus!
