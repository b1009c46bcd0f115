//! Listing the objects of a bucket.

use crate::exchange;
use crate::exchange::{Answer, Effect, Operation, Query, Scripted, Step, Tree};
use crate::exchange::{AnswerView, EffectView, QueryView, Script, TreeView};
use crate::meta::ObjectMeta;
use crate::meta::MetaView;
use crate::order;
use crate::order::{add_member, has_member, is_before, sorted};
use crate::paths;
use crate::paths::{bucket_path, is_sidecar, meta_path, validate_bucket_name};
use crate::store::steps;
use crate::store::steps::{take_bucket, take_done, take_meta, take_tree};
use crate::store::tokens;
use crate::store::tokens::is_readable;
use crate::store::Store;
use crate::text;
use crate::text::{begins_with, chars_of, joined, position_from, text_of};
use vstd::prelude::*;

verus! {

pub struct ListObjectsV2Input {
    pub bucket: String,
    /// Only return keys that begin with this string.
    pub prefix: Option<String>,
    /// Group keys that share a common prefix up to this delimiter into
    /// `common_prefixes`.
    pub delimiter: Option<String>,
    /// Maximum number of keys to return (default and maximum: 1000).
    pub max_keys: Option<u32>,
    /// Resume from a previous truncated response.
    pub continuation_token: Option<String>,
}

/// A single object entry in a `ListObjectsV2` response.
#[derive(Debug, Clone)]
pub struct ObjectEntry {
    pub key: String,
    pub etag: String,
    pub size: u64,
    pub last_modified: u64,
    pub storage_class: String,
}

#[derive(Debug)]
pub struct ListObjectsV2Output {
    pub contents: Vec<ObjectEntry>,
    /// Key prefixes collapsed by the delimiter (like S3 `CommonPrefixes`).
    pub common_prefixes: Vec<String>,
    pub is_truncated: bool,
    /// Present when `is_truncated` is true; pass as `continuation_token` to get
    /// the next page.
    pub next_continuation_token: Option<String>,
    pub key_count: u32,
}

/// An entry of a listing, as mathematical values.
#[verifier::ext_equal]
pub struct ListedView {
    pub key: Seq<char>,
    pub etag: Seq<char>,
    pub size: u64,
    pub last_modified: u64,
    pub storage_class: Seq<char>,
}

impl View for ObjectEntry {
    type V = ListedView;

    open spec fn view(&self) -> ListedView {
        ListedView {
            key: self.key@,
            etag: self.etag@,
            size: self.size,
            last_modified: self.last_modified,
            storage_class: self.storage_class@,
        }
    }
}

/// A page of a listing, as mathematical values.
#[verifier::ext_equal]
pub struct PageView {
    pub contents: Seq<ListedView>,
    pub common_prefixes: Seq<Seq<char>>,
    pub is_truncated: bool,
    pub next_continuation_token: Option<Seq<char>>,
    pub key_count: u32,
}

/// What a list of entries says.
pub open spec fn listed_views(list: Seq<ObjectEntry>) -> Seq<ListedView> {
    list.map_values(|e: ObjectEntry| e@)
}

impl View for ListObjectsV2Output {
    type V = PageView;

    open spec fn view(&self) -> PageView {
        PageView {
            contents: listed_views(self.contents@),
            common_prefixes: text::views(self.common_prefixes@),
            is_truncated: self.is_truncated,
            next_continuation_token: self.next_continuation_token.deep_view(),
            key_count: self.key_count,
        }
    }
}

// ---- the keys of a bucket ----

/// The keys of the objects among `trees`, which lie in the directory `at` of the
/// bucket. A file is an object unless its name is that of a sidecar.
pub open spec fn keys_under(at: Seq<char>, trees: Seq<TreeView>) -> Seq<Seq<char>>
    decreases trees,
{
    if trees.len() == 0 {
        Seq::empty()
    } else {
        keys_under(at, trees.drop_last()) + keys_in(at, trees.last())
    }
}

pub open spec fn keys_in(at: Seq<char>, tree: TreeView) -> Seq<Seq<char>>
    decreases tree,
{
    match tree {
        TreeView::File { name } => if paths::sidecar_suffix().is_suffix_of(name) {
            Seq::empty()
        } else {
            seq![at + name]
        },
        TreeView::Dir { name, entries } => keys_under(at + name + seq!['/'], entries),
        TreeView::Other { .. } => Seq::empty(),
    }
}

/// Collects all object keys (files that are no sidecars) under a directory of a
/// bucket, as relative paths.
pub fn collect_keys_recursive(at: &str, trees: &Vec<Tree>, keys: &mut Vec<String>)
    ensures
        text::views(final(keys)@) == text::views(old(keys)@) + keys_under(
            at@,
            exchange::forest(trees@),
        ),
    decreases trees,
{
    let ghost before = text::views(keys@);
    let ghost ts = exchange::forest(trees@);
    let mut i: usize = 0;
    proof {
        assert(ts.take(0) =~= Seq::<TreeView>::empty());
        assert(before + Seq::<Seq<char>>::empty() =~= before);
    }
    while i < trees.len()
        invariant
            i <= trees@.len(),
            ts == exchange::forest(trees@),
            text::views(keys@) == before + keys_under(at@, ts.take(i as int)),
        decreases trees@.len() - i,
    {
        let ghost was = text::views(keys@);
        let ghost t = exchange::tree_view(trees@[i as int]);
        proof {
            assert(ts.take(i + 1).drop_last() =~= ts.take(i as int));
            assert(ts.take(i + 1).last() == t);
        }
        match &trees[i] {
            Tree::File { name } => if !is_sidecar(name.as_str()) {
                keys.push(joined(at, name.as_str()));
                proof {
                    assert(text::views(keys@) =~= was + seq![at@ + name@]);
                }
            },
            Tree::Dir { name, entries } => {
                let mut below: String = joined(at, name.as_str());
                below.push('/');
                proof {
                    assert(below@ =~= at@ + name@ + seq!['/']);
                    assert(decreases_to!(trees => trees@));
                    assert(decreases_to!(trees@ => trees@[i as int]));
                }
                collect_keys_recursive(below.as_str(), entries, keys);
            },
            Tree::Other { .. } => {},
        }
        proof {
            assert(text::views(keys@) =~= was + keys_in(at@, t));
            assert(keys_under(at@, ts.take(i + 1)) == keys_under(at@, ts.take(i as int)) + keys_in(
                at@,
                t,
            ));
            assert(text::views(keys@) =~= before + keys_under(at@, ts.take(i + 1)));
        }
        i = i + 1;
    }
    proof {
        assert(ts.take(ts.len() as int) =~= ts);
    }
}

/// All object keys of a bucket.
pub fn collect_keys(trees: &Vec<Tree>) -> (r: Vec<String>)
    ensures
        text::views(r@) == keys_under(Seq::empty(), exchange::forest(trees@)),
{
    let mut keys: Vec<String> = Vec::new();
    let at: String = String::new();
    collect_keys_recursive(at.as_str(), trees, &mut keys);
    proof {
        assert(at@ =~= Seq::<char>::empty());
        assert(text::views(keys@) =~= keys_under(Seq::empty(), exchange::forest(trees@)));
    }
    keys
}

// ---- which keys are wanted ----

/// The prefix that was asked for; the empty one where there is none.
pub open spec fn prefix_of(i: ListObjectsV2Input) -> Seq<char> {
    match i.prefix {
        Some(p) => p@,
        None => Seq::empty(),
    }
}

/// How many keys and common prefixes a page holds at most.
pub open spec fn page_size(i: ListObjectsV2Input) -> nat {
    match i.max_keys {
        Some(n) => if n < 1000 {
            n as nat
        } else {
            1000
        },
        None => 1000,
    }
}

/// The key is asked for: it has the prefix and comes after the key of the token.
pub open spec fn is_wanted(i: ListObjectsV2Input, key: Seq<char>) -> bool {
    prefix_of(i).is_prefix_of(key) && (match i.continuation_token {
        Some(t) => order::before(tokens::decoded(t@), key),
        None => true,
    })
}

/// The keys that are asked for, in order.
pub open spec fn wanted(i: ListObjectsV2Input, all: Seq<Seq<char>>) -> Seq<Seq<char>> {
    order::in_order(all).filter(|key: Seq<char>| is_wanted(i, key))
}

/// The token, if there is one, can be read.
pub open spec fn token_fits(i: ListObjectsV2Input) -> bool {
    match i.continuation_token {
        Some(t) => tokens::readable(t@),
        None => true,
    }
}

fn select_keys(input: &ListObjectsV2Input, all: Vec<String>) -> (r: Vec<String>)
    requires
        token_fits(*input),
    ensures
        text::views(r@) == wanted(*input, text::views(all@)),
{
    let keys: Vec<String> = sorted(all);
    let start: Option<String> = match &input.continuation_token {
        Some(t) => Some(Store::decode_token(t.as_str())),
        None => None,
    };
    let ghost ks = text::views(keys@);
    let ghost p = |key: Seq<char>| is_wanted(*input, key);
    let mut r: Vec<String> = Vec::new();
    let mut n: usize = 0;
    proof {
        assert(ks.take(0) =~= Seq::<Seq<char>>::empty());
        reveal(Seq::filter);
        assert(text::views(r@) =~= ks.take(0).filter(p));
    }
    while n < keys.len()
        invariant
            n <= keys@.len(),
            ks == text::views(keys@),
            p == (|key: Seq<char>| is_wanted(*input, key)),
            match start {
                Some(s) => input.continuation_token is Some && s@ == tokens::decoded(
                    input.continuation_token->0@,
                ),
                None => input.continuation_token is None,
            },
            text::views(r@) == ks.take(n as int).filter(p),
        decreases keys@.len() - n,
    {
        let key: &String = &keys[n];
        let ghost was = r@;
        let has_prefix: bool = match &input.prefix {
            Some(q) => begins_with(key.as_str(), q.as_str()),
            None => true,
        };
        let is_after: bool = match &start {
            Some(s) => is_before(s.as_str(), key.as_str()),
            None => true,
        };
        proof {
            assert(ks.take(n + 1).drop_last() =~= ks.take(n as int));
            assert(ks.take(n + 1).last() == key@);
            reveal(Seq::filter);
        }
        if has_prefix && is_after {
            r.push(key.clone());
            proof {
                assert(text::views(r@) =~= text::views(was).push(key@));
            }
        }
        n = n + 1;
    }
    proof {
        assert(ks.take(ks.len() as int) =~= ks);
    }
    r
}

// ---- pages ----

/// The common prefix that stands for a key, if the delimiter occurs in the key
/// after the prefix: all up to and with its first occurrence there.
pub open spec fn grouped(i: ListObjectsV2Input, key: Seq<char>) -> Option<Seq<char>> {
    match i.delimiter {
        Some(d) => match text::find_from(key, d@, prefix_of(i).len() as int) {
            Some(at) => Some(key.take(at) + d@),
            None => None,
        },
        None => None,
    }
}

fn group_of(input: &ListObjectsV2Input, key: &str) -> (r: Option<String>)
    requires
        prefix_of(*input).is_prefix_of(key@),
    ensures
        r.deep_view() == grouped(*input, key@),
{
    match &input.delimiter {
        Some(d) => {
            let cs: Vec<char> = chars_of(key);
            let lo: usize = match &input.prefix {
                Some(p) => chars_of(p.as_str()).len(),
                None => 0,
            };
            match position_from(&cs, &chars_of(d.as_str()), lo) {
                Some(at) => {
                    proof {
                        text::lemma_found(cs@, d@, lo as int);
                        assert(cs@.subrange(0, at as int) =~= key@.take(at as int));
                    }
                    Some(joined(text_of(&cs, 0, at).as_str(), d.as_str()))
                },
                None => None,
            }
        },
        None => None,
    }
}

/// The entry of a listing for an object.
pub open spec fn entry_of(key: Seq<char>, m: MetaView) -> ListedView {
    ListedView {
        key,
        etag: m.etag,
        size: m.size,
        last_modified: m.last_modified,
        storage_class: m.storage_class,
    }
}

/// The page with these contents and common prefixes, which cover the first `n` of the
/// wanted keys. The token names the last key that is covered.
pub open spec fn page_of(
    keys: Seq<Seq<char>>,
    n: int,
    contents: Seq<ListedView>,
    prefixes: Seq<Seq<char>>,
) -> PageView {
    let truncated = 0 < n < keys.len();
    PageView {
        contents,
        common_prefixes: prefixes,
        is_truncated: truncated,
        next_continuation_token: if truncated {
            Some(tokens::encoded(keys[n - 1]))
        } else {
            None
        },
        key_count: (contents.len() + prefixes.len()) as u32,
    }
}

fn page(
    keys: &Vec<String>,
    n: usize,
    contents: Vec<ObjectEntry>,
    prefixes: Vec<String>,
) -> (r: ListObjectsV2Output)
    requires
        n <= keys@.len(),
        contents@.len() + prefixes@.len() <= 1000,
    ensures
        r@ == page_of(
            text::views(keys@),
            n as int,
            listed_views(contents@),
            text::views(prefixes@),
        ),
{
    let total: usize = contents.len() + prefixes.len();
    let is_truncated: bool = 0 < n && n < keys.len();
    let token: Option<String> = if is_truncated {
        proof {
            assert(text::views(keys@)[n - 1] == keys@[n - 1]@);
        }
        Some(Store::encode_token(keys[n - 1].as_str()))
    } else {
        None
    };
    ListObjectsV2Output {
        contents,
        common_prefixes: prefixes,
        is_truncated,
        next_continuation_token: token,
        key_count: total as u32,
    }
}

/// The key takes up room on a page with these common prefixes: none of them stands
/// for it.
pub open spec fn needs_room(i: ListObjectsV2Input, key: Seq<char>, prefixes: Seq<Seq<char>>) -> bool {
    match grouped(i, key) {
        Some(p) => !prefixes.contains(p),
        None => true,
    }
}

/// The page ends in front of the `n`th key: there is none, or the page is full and
/// has no place for it.
pub open spec fn ends_before(
    i: ListObjectsV2Input,
    keys: Seq<Seq<char>>,
    n: int,
    contents: Seq<ListedView>,
    prefixes: Seq<Seq<char>>,
) -> bool {
    n < 0 || n >= keys.len() || (contents.len() + prefixes.len() >= page_size(i) && needs_room(
        i,
        keys[n],
        prefixes,
    ))
}

/// Listing a bucket: `InvalidBucketName` for a bad name, `NoSuchBucket` where it
/// is not there; otherwise the wanted keys are gone through in order until one comes
/// that finds no place on the page.
pub open spec fn list_objects_v2_script(base: Seq<char>, i: ListObjectsV2Input) -> Script<
    PageView,
> {
    steps::unless(
        paths::bucket_fault(i.bucket@),
        steps::in_bucket(base, i.bucket@, list_from_lock(base, i)),
    )
}

pub open spec fn list_from_lock(base: Seq<char>, i: ListObjectsV2Input) -> Script<PageView> {
    steps::once_done(QueryView::LockShared { bucket: i.bucket@ }, list_from_tree(base, i))
}

pub open spec fn list_from_tree(base: Seq<char>, i: ListObjectsV2Input) -> Script<PageView> {
    steps::ask_tree(
        paths::bucket_dir(base, i.bucket@),
        |trees: Seq<TreeView>|
            list_from_key(
                base,
                i,
                wanted(i, keys_under(Seq::empty(), trees)),
                0,
                Seq::empty(),
                Seq::empty(),
            ),
    )
}

/// Going through the keys from the `n`th one on: a key with a common prefix adds
/// that, unless it is there, and any other key adds its entry.
pub open spec fn list_from_key(
    base: Seq<char>,
    i: ListObjectsV2Input,
    keys: Seq<Seq<char>>,
    n: int,
    contents: Seq<ListedView>,
    prefixes: Seq<Seq<char>>,
) -> Script<PageView>
    decreases keys.len() - n,
{
    if ends_before(i, keys, n, contents, prefixes) {
        Script::Finish(Seq::empty(), page_of(keys, n, contents, prefixes))
    } else {
        match grouped(i, keys[n]) {
            Some(p) => list_from_key(
                base,
                i,
                keys,
                n + 1,
                contents,
                order::with_member(prefixes, p),
            ),
            None => steps::ask_meta(
                paths::meta_file(base, i.bucket@, keys[n]),
                |m: MetaView|
                    list_from_key(
                        base,
                        i,
                        keys,
                        n + 1,
                        contents.push(entry_of(keys[n], m)),
                        prefixes,
                    ),
            ),
        }
    }
}

/// How far the listing has come.
struct Progress {
    keys: Vec<String>,
    next: usize,
    contents: Vec<ObjectEntry>,
    prefixes: Vec<String>,
}

enum ListStage {
    Bucket,
    Lock,
    Tree,
    Sidecar(Progress),
}

/// `list_objects_v2` under way.
pub struct ListObjectsV2 {
    base: String,
    input: ListObjectsV2Input,
    stage: ListStage,
}

impl Progress {
    spec fn script(self, base: Seq<char>, i: ListObjectsV2Input) -> Script<PageView> {
        list_from_key(
            base,
            i,
            text::views(self.keys@),
            self.next as int,
            listed_views(self.contents@),
            text::views(self.prefixes@),
        )
    }

    /// The keys all have the prefix, and the page is not over full.
    spec fn is_valid(self, i: ListObjectsV2Input) -> bool {
        &&& self.next <= self.keys@.len()
        &&& self.contents@.len() + self.prefixes@.len() <= page_size(i)
        &&& forall|k: int|
            0 <= k < self.keys@.len() ==> prefix_of(i).is_prefix_of(#[trigger] self.keys@[k]@)
    }
}

impl ListObjectsV2 {
    /// While a sidecar is read, there is a key to read it for, which no common
    /// prefix stands for, and room for it on the page.
    #[verifier::type_invariant]
    spec fn is_valid(self) -> bool {
        match self.stage {
            ListStage::Sidecar(p) => {
                &&& p.is_valid(self.input)
                &&& p.next < p.keys.len()
                &&& p.contents@.len() + p.prefixes@.len() < page_size(self.input)
                &&& grouped(self.input, p.keys@[p.next as int]@) is None
            },
            _ => true,
        }
    }

    /// The operation waits for what lies under the bucket.
    pub closed spec fn waits_for_tree(&self) -> bool {
        self.stage is Tree
    }

    /// The token, if there is one, can be read.
    pub closed spec fn token_fits(&self) -> bool {
        token_fits(self.input)
    }

    /// Goes through the keys until a sidecar is to be read or the page is full.
    fn go_on(base: String, input: ListObjectsV2Input, progress: Progress) -> (step: Step<
        ListObjectsV2,
        ListObjectsV2Output,
    >)
        requires
            progress.is_valid(input),
        ensures
            exchange::follows(step, progress.script(base@, input)),
            step matches Step::Ask(q, m) ==> m.token_fits() == token_fits(input)
                && !m.waits_for_tree() && q@ is ReadMeta,
    {
        let ghost target = progress.script(base@, input);
        let max_keys: usize = match input.max_keys {
            Some(n) => if n < 1000 {
                n as usize
            } else {
                1000
            },
            None => 1000,
        };
        let Progress { keys, next: start, contents, mut prefixes } = progress;
        let mut next: usize = start;
        while next < keys.len()
            invariant_except_break
                next <= keys@.len(),
                max_keys == page_size(input),
                contents@.len() + prefixes@.len() <= max_keys <= 1000,
                forall|k: int|
                    0 <= k < keys@.len() ==> prefix_of(input).is_prefix_of(#[trigger] keys@[k]@),
                target == progress.script(base@, input),
                target == list_from_key(
                    base@,
                    input,
                    text::views(keys@),
                    next as int,
                    listed_views(contents@),
                    text::views(prefixes@),
                ),
            ensures
                target == progress.script(base@, input),
                next <= keys@.len(),
                contents@.len() + prefixes@.len() <= 1000,
                target == Script::Finish(
                    Seq::empty(),
                    page_of(
                        text::views(keys@),
                        next as int,
                        listed_views(contents@),
                        text::views(prefixes@),
                    ),
                ),
            decreases keys@.len() - next,
        {
            proof {
                assert(text::views(keys@)[next as int] == keys@[next as int]@);
                assert(listed_views(contents@).len() == contents@.len());
                assert(text::views(prefixes@).len() == prefixes@.len());
            }
            let is_full: bool = contents.len() + prefixes.len() >= max_keys;
            match group_of(&input, keys[next].as_str()) {
                Some(p) => {
                    if is_full && !has_member(&prefixes, p.as_str()) {
                        break;
                    }
                    let ghost was = text::views(prefixes@);
                    add_member(&mut prefixes, p);
                    proof {
                        order::lemma_member_len(was, p@);
                        assert(text::views(prefixes@).len() == prefixes@.len());
                    }
                    next = next + 1;
                },
                None => {
                    if is_full {
                        break;
                    }
                    let sidecar: String = meta_path(
                        base.as_str(),
                        input.bucket.as_str(),
                        keys[next].as_str(),
                    );
                    let p: Progress = Progress { keys, next, contents, prefixes };
                    return Step::Ask(
                        ObjectMeta::read(sidecar.as_str()),
                        ListObjectsV2 { base, input, stage: ListStage::Sidecar(p) },
                    );
                },
            }
        }
        let out: ListObjectsV2Output = page(&keys, next, contents, prefixes);
        let fx: Vec<Effect> = Vec::new();
        proof {
            assert(exchange::effects(fx@) =~= Seq::<EffectView>::empty());
        }
        Step::Finish(fx, out)
    }
}

impl Scripted for ListObjectsV2 {
    type Output = ListObjectsV2Output;

    closed spec fn script(&self) -> Script<PageView> {
        match self.stage {
            ListStage::Bucket => steps::in_bucket(
                self.base@,
                self.input.bucket@,
                list_from_lock(self.base@, self.input),
            ),
            ListStage::Lock => list_from_lock(self.base@, self.input),
            ListStage::Tree => list_from_tree(self.base@, self.input),
            ListStage::Sidecar(p) => p.script(self.base@, self.input),
        }
    }
}

impl Operation for ListObjectsV2 {
    /// The token must be readable by the time that the keys are known.
    open spec fn takes(&self, a: AnswerView) -> bool {
        self.waits_for_tree() && a is Tree ==> self.token_fits()
    }

    fn can_take(&self, a: &Answer) -> (r: bool) {
        match (&self.stage, a) {
            (ListStage::Tree, Answer::Tree(_)) => match &self.input.continuation_token {
                Some(t) => is_readable(t.as_str()),
                None => true,
            },
            _ => true,
        }
    }

    /// The token stays, and what lies under the bucket is waited for when it was asked
    /// for.
    fn resume(self, a: Answer) -> (step: Step<Self, ListObjectsV2Output>)
        ensures
            step matches Step::Ask(q, m) ==> m.token_fits() == self.token_fits() && (
            m.waits_for_tree() <==> q@ is ReadTree),
    {
        proof {
            use_type_invariant(&self);
        }
        match self.stage {
            ListStage::Bucket => match take_bucket(self.input.bucket.as_str(), a) {
                Err(e) => Step::Fail(e),
                Ok(_) => Step::Ask(
                    Query::LockShared { bucket: self.input.bucket.clone() },
                    ListObjectsV2 { stage: ListStage::Lock, ..self },
                ),
            },
            ListStage::Lock => match take_done(a) {
                Err(e) => Step::Fail(e),
                Ok(_) => Step::Ask(
                    Query::ReadTree {
                        path: bucket_path(self.base.as_str(), self.input.bucket.as_str()),
                    },
                    ListObjectsV2 { stage: ListStage::Tree, ..self },
                ),
            },
            ListStage::Tree => match take_tree(a) {
                Err(e) => Step::Fail(e),
                Ok(trees) => {
                    let all: Vec<String> = collect_keys(&trees);
                    let keys: Vec<String> = select_keys(&self.input, all);
                    let p: Progress = Progress {
                        keys,
                        next: 0,
                        contents: Vec::new(),
                        prefixes: Vec::new(),
                    };
                    proof {
                        assert(text::views(p.prefixes@) =~= Seq::<Seq<char>>::empty());
                        assert(listed_views(p.contents@) =~= Seq::<ListedView>::empty());
                        lemma_wanted(self.input, text::views(all@));
                        assert forall|k: int| 0 <= k < keys@.len() implies prefix_of(
                            self.input,
                        ).is_prefix_of(#[trigger] keys@[k]@) by {
                            assert(text::views(keys@)[k] == keys@[k]@);
                        }
                    }
                    ListObjectsV2::go_on(self.base, self.input, p)
                },
            },
            ListStage::Sidecar(p) => match take_meta(a) {
                Err(e) => Step::Fail(e),
                Ok(m) => {
                    let Progress { keys, next, mut contents, prefixes } = p;
                    let ghost was = contents@;
                    let entry: ObjectEntry = ObjectEntry {
                        key: keys[next].clone(),
                        etag: m.etag,
                        size: m.size,
                        last_modified: m.last_modified,
                        storage_class: m.storage_class,
                    };
                    contents.push(entry);
                    proof {
                        assert(text::views(keys@)[next as int] == keys@[next as int]@);
                        assert(listed_views(contents@) =~= listed_views(was).push(entry@));
                    }
                    let q: Progress = Progress { keys, next: next + 1, contents, prefixes };
                    ListObjectsV2::go_on(self.base, self.input, q)
                },
            },
        }
    }
}

/// What is wanted is among all keys, and is wanted.
pub proof fn lemma_wanted(i: ListObjectsV2Input, all: Seq<Seq<char>>)
    ensures
        forall|n: int|
            0 <= n < wanted(i, all).len() ==> is_wanted(i, #[trigger] wanted(i, all)[n]),
{
    broadcast use Seq::lemma_filter_pred;

}

impl Store {
    /// List objects in a bucket, S3 ListObjectsV2 semantics.
    ///
    /// - `prefix`: only keys starting with this string are returned.
    /// - `delimiter`: keys that contain the delimiter after the prefix are
    ///   collapsed into `common_prefixes` (like S3 "virtual directories").
    /// - `max_keys`: page size (default and maximum 1000).
    /// - `continuation_token`: opaque token from a previous truncated response.
    ///
    /// Errors: `NoSuchBucket`, `InvalidBucketName`.
    pub fn list_objects_v2(&self, input: ListObjectsV2Input) -> (step: Step<
        ListObjectsV2,
        ListObjectsV2Output,
    >)
        ensures
            exchange::follows(step, list_objects_v2_script(self.base(), input)),
            step matches Step::Ask(_, m) ==> m.token_fits() == token_fits(input)
                && !m.waits_for_tree(),
    {
        match validate_bucket_name(input.bucket.as_str()) {
            Err(e) => Step::Fail(e),
            Ok(_) => Step::Ask(
                Query::IsDir { path: bucket_path(self.base_dir(), input.bucket.as_str()) },
                ListObjectsV2 {
                    base: self.base_dir().to_owned(),
                    input,
                    stage: ListStage::Bucket,
                },
            ),
        }
    }
}

} // verus!
