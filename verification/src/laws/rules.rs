//! Which names, part numbers and lists of parts pass, and where things lie, character by
//! character.

use crate::error::ErrorView;
use crate::exchange::{AnswerView, QueryView, Script};
use crate::laws;
use crate::meta::MetaView;
use crate::paths;
use crate::store::buckets;
use crate::store::copying;
use crate::store::copying::CopyObjectInput;
use crate::store::listing;
use crate::store::listing::ListObjectsV2Input;
use crate::store::multipart;
use crate::store::multipart::{CompleteMultipartUploadInput, CompletedPart};
use crate::store::objects;
use crate::store::objects::{GetObjectInput, HeadObjectInput, PutObjectInput};
use crate::store::parts;
use crate::store::steps;
use crate::upload::UploadView;
use vstd::prelude::*;
use vstd::utf8;

verus! {

// ---- bucket names ----

/// A lower-case letter, a digit or a hyphen.
pub open spec fn is_label_char(c: char) -> bool {
    ('a' <= c && c <= 'z') || ('0' <= c && c <= '9') || c == '-'
}

/// A bucket name passes if and only if it is 3 to 63 lower-case letters, digits and
/// hyphens, begins and ends with none, and has no two of them side by side.
pub proof fn bucket_names_pass_by_their_characters(name: Seq<char>)
    ensures
        paths::bucket_fault(name) is None <==> {
            &&& 3 <= name.len() <= 63
            &&& forall|i: int| 0 <= i < name.len() ==> is_label_char(#[trigger] name[i])
            &&& name[0] != '-' && name[name.len() - 1] != '-'
            &&& forall|i: int|
                0 <= i < name.len() - 1 && #[trigger] name[i] == '-' ==> name[i + 1] != '-'
        },
{
    laws::names::bucket_names_that_pass(name);
    if forall|i: int| 0 <= i < name.len() ==> is_label_char(#[trigger] name[i]) {
        assert forall|i: int| 0 <= i < name.len() implies paths::bucket_char(#[trigger] name[i]) by {
            assert(is_label_char(name[i]));
        }
    }
    if forall|i: int| 0 <= i < name.len() ==> paths::bucket_char(#[trigger] name[i]) {
        assert forall|i: int| 0 <= i < name.len() implies is_label_char(#[trigger] name[i]) by {
            assert(paths::bucket_char(name[i]));
        }
    }
}

/// A bucket name that does not pass is refused with `InvalidBucketName` and the first of
/// these reasons that holds: its length, counted in UTF-8 bytes; a hyphen at an end; the
/// first character that may not stand there; two hyphens side by side.
pub proof fn bucket_names_fail_for_a_reason(name: Seq<char>)
    requires
        paths::bucket_fault(name) is Some,
    ensures
        ({
            let size = utf8::encode_utf8(name).len();
            let fault = paths::bucket_fault(name)->0;
            &&& fault is InvalidBucketName && fault->name == name
            &&& size < 3 || size > 63 <==> fault->InvalidBucketName_reason
                == "bucket name must be between 3 and 63 characters"@
            &&& 3 <= size <= 63 && (name[0] == '-' || name[name.len() - 1] == '-')
                <==> fault->InvalidBucketName_reason
                == "bucket name must not start or end with a hyphen"@
            &&& forall|i: int|
                3 <= size <= 63 && name[0] != '-' && name[name.len() - 1] != '-' && 0 <= i
                    < name.len() && !is_label_char(#[trigger] name[i]) && (forall|k: int|
                    0 <= k < i ==> is_label_char(#[trigger] name[k]))
                    ==> fault->InvalidBucketName_reason
                    == "bucket name must contain only lowercase letters, digits, and hyphens; got '"@.push(
                name[i]).push('\'')
            &&& 3 <= size <= 63 && name[0] != '-' && name[name.len() - 1] != '-' && (forall|i: int|
                0 <= i < name.len() ==> is_label_char(#[trigger] name[i]))
                ==> fault->InvalidBucketName_reason
                == "bucket name must not contain consecutive hyphens"@
        }),
{
    reveal_strlit("bucket name must be between 3 and 63 characters");
    reveal_strlit("bucket name must not start or end with a hyphen");
    reveal_strlit("bucket name must contain only lowercase letters, digits, and hyphens; got '");
    reveal_strlit("bucket name must not contain consecutive hyphens");
    let size = utf8::encode_utf8(name).len();
    let a = "bucket name must be between 3 and 63 characters"@;
    let b = "bucket name must not start or end with a hyphen"@;
    let c = "bucket name must contain only lowercase letters, digits, and hyphens; got '"@;
    let d = "bucket name must not contain consecutive hyphens"@;
    assert(a[12] == 'm' && a[17] == 'b' && b[17] == 'n' && d[17] == 'n');
    assert(b[21] == 's' && d[21] == 'c' && a.len() < c.len() && b.len() < c.len());
    assert forall|i: int|
        3 <= size <= 63 && name[0] != '-' && name[name.len() - 1] != '-' && 0 <= i < name.len()
            && !is_label_char(#[trigger] name[i]) && (forall|k: int|
            0 <= k < i ==> is_label_char(
                #[trigger] name[k],
            )) implies paths::bucket_fault(name)->0->InvalidBucketName_reason == c.push(
        name[i],
    ).push('\'') by {
        lemma_first_stray(name, 0, i);
    }
    if forall|i: int| 0 <= i < name.len() ==> is_label_char(#[trigger] name[i]) {
        lemma_no_stray(name, 0);
    }
}

proof fn lemma_first_stray(name: Seq<char>, from: int, i: int)
    requires
        0 <= from <= i < name.len(),
        !is_label_char(name[i]),
        forall|k: int| 0 <= k < i ==> is_label_char(#[trigger] name[k]),
    ensures
        paths::stray_from(name, from) == Some(name[i]),
    decreases i - from,
{
    if from < i {
        assert(is_label_char(name[from]));
        lemma_first_stray(name, from + 1, i);
    }
}

proof fn lemma_no_stray(name: Seq<char>, from: int)
    requires
        0 <= from,
        forall|k: int| 0 <= k < name.len() ==> is_label_char(#[trigger] name[k]),
    ensures
        paths::stray_from(name, from) is None,
    decreases name.len() - from,
{
    if from < name.len() {
        assert(is_label_char(name[from]));
        lemma_no_stray(name, from + 1);
    }
}

// ---- keys ----

/// `s` stands in `p` from `i` on, between slashes or the ends of `p`.
pub open spec fn is_piece(p: Seq<char>, i: int, s: Seq<char>) -> bool {
    &&& 0 <= i && i + s.len() <= p.len()
    &&& i == 0 || p[i - 1] == '/'
    &&& i + s.len() == p.len() || p[i + s.len()] == '/'
    &&& forall|j: int| 0 <= j < s.len() ==> #[trigger] s[j] == p[i + j]
}

proof fn lemma_pieces(p: Seq<char>, s: Seq<char>)
    requires
        !s.contains('/'),
    ensures
        paths::segments(p).len() > 0,
        ({
            let l = paths::segments(p).last();
            let lo = p.len() - l.len();
            &&& 0 <= lo
            &&& !l.contains('/')
            &&& l == p.skip(lo)
            &&& lo == 0 || p[lo - 1] == '/'
        }),
        paths::segments(p).drop_last().contains(s) <==> exists|i: int| #[trigger]
            is_piece(p, i, s) && i + s.len() < p.len(),
        paths::segments(p).contains(s) <==> exists|i: int| #[trigger] is_piece(p, i, s),
    decreases p.len(),
{
    let t = paths::segments(p);
    let l = t.last();
    if p.len() == 0 {
        assert(l =~= p.skip(0));
        assert(t.drop_last() =~= Seq::<Seq<char>>::empty());
    } else {
        let q = p.drop_last();
        lemma_pieces(q, s);
        let u = paths::segments(q);
        let m = u.last();
        if p.last() == '/' {
            assert(t.drop_last() =~= u);
            assert(l =~= p.skip(p.len() as int));
            if exists|i: int| #[trigger] is_piece(q, i, s) {
                let i = choose|i: int| #[trigger] is_piece(q, i, s);
                assert(is_piece(p, i, s));
            }
            if exists|i: int| #[trigger] is_piece(p, i, s) && i + s.len() < p.len() {
                let i = choose|i: int| #[trigger] is_piece(p, i, s) && i + s.len() < p.len();
                assert(is_piece(q, i, s));
            }
        } else {
            assert(t.drop_last() =~= u.drop_last());
            let lo = q.len() - m.len();
            assert(l =~= p.skip(lo));
            assert forall|k: int| 0 <= k < l.len() implies l[k] != '/' by {
                if k < m.len() {
                    assert(m.contains(m[k]));
                }
            }
            if exists|i: int| #[trigger] is_piece(q, i, s) && i + s.len() < q.len() {
                let i = choose|i: int| #[trigger] is_piece(q, i, s) && i + s.len() < q.len();
                assert(is_piece(p, i, s));
            }
            if exists|i: int| #[trigger] is_piece(p, i, s) && i + s.len() < p.len() {
                let i = choose|i: int| #[trigger] is_piece(p, i, s) && i + s.len() < p.len();
                assert(is_piece(q, i, s));
            }
        }
    }
    let lo = p.len() - l.len();
    if t.contains(s) {
        let k = choose|k: int| 0 <= k < t.len() && t[k] == s;
        if k < t.len() - 1 {
            assert(t.drop_last()[k] == s);
            assert(t.drop_last().contains(s));
        } else {
            assert(is_piece(p, lo, s));
        }
    }
    if exists|i: int| #[trigger] is_piece(p, i, s) {
        let i = choose|i: int| #[trigger] is_piece(p, i, s);
        if i + s.len() < p.len() {
            let k = choose|k: int| 0 <= k < t.drop_last().len() && t.drop_last()[k] == s;
            assert(t[k] == s);
        } else {
            if i < lo {
                assert(s[lo - 1 - i] == p[lo - 1]);
                assert(s.contains('/'));
            } else if i > lo {
                assert(l[i - 1 - lo] == p[i - 1]);
                assert(l.contains('/'));
            }
            assert(s =~= l);
            assert(t[t.len() - 1] == s);
        }
    }
}

/// The names that lead to a place are what stands between the slashes of its path, but for
/// what is empty or a single dot.
pub proof fn names_stand_between_slashes(p: Seq<char>, s: Seq<char>)
    requires
        !s.contains('/'),
    ensures
        paths::names(p).contains(s) <==> {
            &&& exists|i: int| #[trigger] is_piece(p, i, s)
            &&& s.len() > 0
            &&& !(s.len() == 1 && s[0] == '.')
        },
{
    reveal_strlit(".");
    assert("."@.len() == 1 && "."@[0] == '.');
    if s.len() == 1 && s[0] == '.' {
        assert(s =~= "."@);
    }
    lemma_pieces(p, s);
    let t = paths::segments(p);
    let test = |x: Seq<char>| paths::is_name(x);
    if paths::names(p).contains(s) {
        t.lemma_filter_contains_rev(test, s);
        let k = choose|k: int| 0 <= k < paths::names(p).len() && paths::names(p)[k] == s;
        t.lemma_filter_pred(test, k);
    }
    if t.contains(s) && paths::is_name(s) {
        let k = choose|k: int| 0 <= k < t.len() && t[k] == s;
        t.lemma_filter_contains(test, k);
    }
}

/// A key passes if and only if it is not empty, holds no NUL, does not begin with a slash,
/// and no two dots stand alone between its slashes or ends. It is refused with
/// `InvalidObjectKey` and the first of these that it fails.
pub proof fn keys_pass_by_their_characters(key: Seq<char>)
    ensures
        paths::key_fault(key) == (if key.len() == 0 {
            Some(ErrorView::InvalidObjectKey { key, reason: "key must not be empty"@ })
        } else if exists|i: int| 0 <= i < key.len() && #[trigger] key[i] == '\0' {
            Some(ErrorView::InvalidObjectKey { key, reason: "key must not contain NUL bytes"@ })
        } else if key[0] == '/' {
            Some(ErrorView::InvalidObjectKey { key, reason: "key must be a relative path"@ })
        } else if exists|i: int| climbs_at(key, i) {
            Some(ErrorView::InvalidObjectKey { key, reason: "key must not contain '..' segments"@ })
        } else {
            None
        }),
{
    reveal_strlit("..");
    let dots = ".."@;
    assert(dots.len() == 2 && dots[0] == '.' && dots[1] == '.');
    assert(!dots.contains('/'));
    lemma_pieces(key, dots);
    if exists|i: int| #[trigger] is_piece(key, i, dots) {
        let i = choose|i: int| #[trigger] is_piece(key, i, dots);
        assert(dots[0] == key[i + 0] && dots[1] == key[i + 1]);
        assert(climbs_at(key, i));
    }
    if exists|i: int| climbs_at(key, i) {
        let i = choose|i: int| climbs_at(key, i);
        assert(is_piece(key, i, dots));
    }
    if key.contains('\0') {
        let i = choose|i: int| 0 <= i < key.len() && key[i] == '\0';
        assert(key[i] == '\0');
    }
}

/// Two dots stand in `key` at `i`, between slashes or the ends of the key.
pub open spec fn climbs_at(key: Seq<char>, i: int) -> bool {
    &&& 0 <= i && i + 2 <= key.len()
    &&& key[i] == '.' && key[i + 1] == '.'
    &&& i == 0 || key[i - 1] == '/'
    &&& i + 2 == key.len() || key[i + 2] == '/'
}

// ---- paths ----

/// The body of an object lies at its base directory, its bucket and its key with slashes
/// between them, and its sidecar beside it with `.fals3-meta.json` behind the key. An
/// upload lies in `.fals3-uploads` under the base directory.
pub proof fn objects_lie_at_their_keys(
    base: Seq<char>,
    bucket: Seq<char>,
    key: Seq<char>,
    id: Seq<char>,
)
    requires
        base.len() > 0,
        base[base.len() - 1] != '/',
        objects::name_fault(bucket, key) is None,
        parts::is_id(id),
    ensures
        paths::bucket_dir(base, bucket) == base + seq!['/'] + bucket,
        paths::object_file(base, bucket, key) == base + seq!['/'] + bucket + seq!['/'] + key,
        paths::meta_file(base, bucket, key) == base + seq!['/'] + bucket + seq!['/'] + key
            + ".fals3-meta.json"@,
        parts::upload_home(base, id) == base + "/.fals3-uploads/"@ + id,
        parts::record_file(parts::upload_home(base, id)) == base + "/.fals3-uploads/"@ + id
            + "/meta.json"@,
{
    laws::ground::lemma_bucket_name(bucket);
    bucket_names_pass_by_their_characters(bucket);
    reveal_strlit(".fals3-meta.json");
    reveal_strlit(".fals3-uploads");
    reveal_strlit("/.fals3-uploads/");
    reveal_strlit("meta.json");
    reveal_strlit("/meta.json");
    assert(bucket[bucket.len() - 1] != '/') by {
        assert(is_label_char(bucket[bucket.len() - 1]));
    }
    let dir = base.push('/') + bucket;
    assert(dir =~= base + seq!['/'] + bucket);
    assert(dir.last() == bucket[bucket.len() - 1]);
    assert((key + ".fals3-meta.json"@)[0] == key[0]);
    assert(dir.push('/') + key =~= base + seq!['/'] + bucket + seq!['/'] + key);
    assert(dir.push('/') + (key + ".fals3-meta.json"@) =~= base + seq!['/'] + bucket + seq!['/']
        + key + ".fals3-meta.json"@);
    let up = base.push('/') + ".fals3-uploads"@;
    assert(up.last() == 's');
    assert(id.contains(id[0]));
    let home = up.push('/') + id;
    assert(home =~= base + "/.fals3-uploads/"@ + id);
    assert(home.last() == id[id.len() - 1]);
    assert(id.contains(id[id.len() - 1]));
    assert(home.push('/') + "meta.json"@ =~= base + "/.fals3-uploads/"@ + id + "/meta.json"@);
}

/// How a script goes on with an answer.
pub open spec fn and_then_told<T>(s: Script<T>, a: AnswerView) -> Script<T> {
    match s {
        Script::Ask(_, k) => k(a),
        _ => s,
    }
}

/// The script asks where `path` leads, and is refused with `PathEscape` when told that it
/// leads to a place that is not under `base`.
pub open spec fn guards<T>(s: Script<T>, base: Seq<char>, path: Seq<char>) -> bool {
    &&& s matches Script::Ask(q, _) && q == (QueryView::Resolve { path })
    &&& forall|p: Seq<char>|
        !is_below(base, p) ==> #[trigger] and_then_told(s, AnswerView::Path(p)) == Script::<
            T,
        >::Fail(ErrorView::PathEscape { path, base })
}

/// The components of `base` are the first components of `p`.
pub open spec fn is_below(base: Seq<char>, p: Seq<char>) -> bool {
    let (b, c) = (paths::components(base), paths::components(p));
    b.len() <= c.len() && forall|j: int| 0 <= j < b.len() ==> #[trigger] c[j] == b[j]
}

proof fn lemma_below(base: Seq<char>, p: Seq<char>)
    ensures
        is_below(base, p) <==> paths::lies_under(base, p),
{
    let (b, c) = (paths::components(base), paths::components(p));
    if is_below(base, p) {
        assert(c.subrange(0, b.len() as int) =~= b);
    }
    if b.is_prefix_of(c) {
        assert forall|j: int| 0 <= j < b.len() implies #[trigger] c[j] == b[j] by {
            assert(c.subrange(0, b.len() as int)[j] == b[j]);
        }
    }
}

/// Before an object is looked at or written, its path is followed, under the lock of its
/// bucket; where it leads out of the base directory the operation is refused.
pub proof fn objects_that_lead_elsewhere_are_refused(
    base: Seq<char>,
    p: PutObjectInput,
    g: GetObjectInput,
    h: HeadObjectInput,
    c: CopyObjectInput,
)
    requires
        objects::name_fault(p.bucket@, p.key@) is None,
        g.bucket@ == p.bucket@ && h.bucket@ == p.bucket@ && c.src_bucket@ == p.bucket@,
        g.key@ == p.key@ && h.key@ == p.key@ && c.src_key@ == p.key@,
        objects::name_fault(c.dst_bucket@, c.dst_key@) is None,
    ensures
        ({
            let (yes, done) = (AnswerView::Flag(true), AnswerView::Done);
            let (bucket, key) = (p.bucket@, p.key@);
            let path = paths::object_file(base, bucket, key);
            let put = and_then_told(objects::put_object_script(base, p), yes);
            let get = and_then_told(objects::get_object_script(base, g), yes);
            let head = and_then_told(objects::head_object_script(base, h), yes);
            let delete = and_then_told(objects::delete_object_script(base, bucket, key), yes);
            let copy = and_then_told(and_then_told(copying::copy_object_script(base, c), yes), yes);
            &&& guards(and_then_told(put, done), base, path)
            &&& guards(and_then_told(get, done), base, path)
            &&& guards(and_then_told(head, done), base, path)
            &&& guards(and_then_told(delete, done), base, path)
            &&& guards(and_then_told(copy, done), base, path)
        }),
{
    assert forall|q: Seq<char>| is_below(base, q) == #[trigger] paths::lies_under(base, q) by {
        lemma_below(base, q);
    }
    let (yes, done) = (AnswerView::Flag(true), AnswerView::Done);
    let (bucket, key) = (p.bucket@, p.key@);
    let path = paths::object_file(base, bucket, key);
    lemma_guards(base, path, objects::put_from_path(base, p), if p.conditions@.is_empty() {
        objects::put_from_clock(base, p)
    } else {
        objects::put_from_exists(base, p)
    });
    lemma_guards(base, path, objects::get_from_path(base, g), objects::get_from_exists(base, g));
    lemma_guards(base, path, objects::head_from_path(base, h), objects::head_from_exists(base, h));
    lemma_guards(
        base,
        path,
        objects::delete_from_path(base, bucket, key),
        objects::delete_from_body(base, bucket, key),
    );
    lemma_guards(base, path, copying::copy_from_src_path(base, c), copying::copy_from_exists(base, c));
}

proof fn lemma_guards<T>(base: Seq<char>, path: Seq<char>, s: Script<T>, rest: Script<T>)
    requires
        s == steps::under_base(base, path, rest),
    ensures
        guards(s, base, path),
{
    assert forall|p: Seq<char>| !is_below(base, p) implies #[trigger] and_then_told(
        s,
        AnswerView::Path(p),
    ) == Script::<T>::Fail(ErrorView::PathEscape { path, base }) by {
        lemma_below(base, p);
    }
}

/// The script asks this question next.
pub open spec fn asks<T>(s: Script<T>, q: QueryView) -> bool {
    s matches Script::Ask(asked, _) && asked == q
}

/// The destination of a copy is guarded like the source, under the lock of its own bucket,
/// which is taken when that of the source has been given back.
pub proof fn destinations_that_lead_elsewhere_are_refused(
    base: Seq<char>,
    c: CopyObjectInput,
    p: Seq<char>,
    m: MetaView,
    body: Seq<u8>,
)
    requires
        objects::name_fault(c.src_bucket@, c.src_key@) is None,
        objects::name_fault(c.dst_bucket@, c.dst_key@) is None,
        is_below(base, p),
        c.source_conditions@.if_match is None,
        c.source_conditions@.if_none_match is None,
        c.source_conditions@.if_modified_since is None,
        c.source_conditions@.if_unmodified_since is None,
    ensures
        ({
            let (yes, done) = (AnswerView::Flag(true), AnswerView::Done);
            let path = paths::object_file(base, c.dst_bucket@, c.dst_key@);
            let src = and_then_told(and_then_told(copying::copy_object_script(base, c), yes), yes);
            let found = and_then_told(and_then_told(src, done), AnswerView::Path(p));
            let read = and_then_told(and_then_told(found, yes), AnswerView::Meta(m));
            let free = and_then_told(read, AnswerView::Bytes(body));
            let dst = and_then_told(free, done);
            &&& asks(src, QueryView::LockExclusive { bucket: c.src_bucket@ })
            &&& asks(free, QueryView::Unlock)
            &&& asks(dst, QueryView::LockExclusive { bucket: c.dst_bucket@ })
            &&& guards(and_then_told(dst, done), base, path)
        }),
{
    lemma_below(base, p);
    let path = paths::object_file(base, c.dst_bucket@, c.dst_key@);
    lemma_guards(
        base,
        path,
        copying::copy_from_dst_path(base, c, m, body),
        copying::copy_from_clock(base, c, m, body),
    );
}

/// Where all parts of an upload have been read, the object that they make is guarded like
/// one that is put, under the lock of its bucket.
pub proof fn completions_that_lead_elsewhere_are_refused(
    base: Seq<char>,
    i: CompleteMultipartUploadInput,
    u: UploadView,
    body: Seq<u8>,
    digests: Seq<Seq<u8>>,
)
    ensures
        ({
            let s = multipart::complete_from_part(
                base,
                i,
                u,
                i.parts@.len() as int,
                body,
                digests,
            );
            let there = and_then_told(s, AnswerView::Flag(true));
            &&& asks(there, QueryView::LockExclusive { bucket: u.bucket })
            &&& guards(
                and_then_told(there, AnswerView::Done),
                base,
                paths::object_file(base, u.bucket, u.key),
            )
        }),
{
    lemma_guards(
        base,
        paths::object_file(base, u.bucket, u.key),
        multipart::complete_from_path(base, i.upload_id@, u, body, digests),
        multipart::complete_from_clock(base, i.upload_id@, u, body, digests),
    );
}

/// Before they look into a bucket the writers ask for its lock alone, and the readers for
/// a share in it.
pub proof fn buckets_are_locked_before_they_are_looked_into(
    base: Seq<char>,
    p: PutObjectInput,
    g: GetObjectInput,
    h: HeadObjectInput,
    l: ListObjectsV2Input,
    force: bool,
)
    requires
        objects::name_fault(p.bucket@, p.key@) is None,
        g.bucket@ == p.bucket@ && h.bucket@ == p.bucket@ && l.bucket@ == p.bucket@,
        g.key@ == p.key@ && h.key@ == p.key@,
    ensures
        ({
            let (bucket, yes) = (p.bucket@, AnswerView::Flag(true));
            let (alone, shared) = (
                QueryView::LockExclusive { bucket },
                QueryView::LockShared { bucket },
            );
            &&& asks(buckets::create_bucket_script(base, bucket), alone)
            &&& asks(buckets::delete_bucket_script(base, bucket, force), alone)
            &&& asks(and_then_told(objects::put_object_script(base, p), yes), alone)
            &&& asks(
                and_then_told(objects::delete_object_script(base, bucket, p.key@), yes),
                alone,
            )
            &&& asks(and_then_told(objects::get_object_script(base, g), yes), shared)
            &&& asks(and_then_told(objects::head_object_script(base, h), yes), shared)
            &&& asks(and_then_told(listing::list_objects_v2_script(base, l), yes), shared)
        }),
{
}

// ---- parts ----

/// A part number passes if and only if it is one of 1 to 10,000, and is refused with
/// `InvalidPart` otherwise.
pub proof fn part_numbers_pass_up_to_ten_thousand(n: u32)
    ensures
        parts::part_number_fault(n) == (if 1 <= n <= 10_000 {
            None
        } else {
            Some(ErrorView::InvalidPart)
        }),
{
}

/// A list of parts passes if and only if it is not empty and every part has a greater
/// number than all before it. An empty one is refused with `InvalidPart`, one out of order
/// with `InvalidPartOrder`.
pub proof fn lists_of_parts_must_ascend(ps: Seq<CompletedPart>)
    ensures
        multipart::parts_fault(ps) == (if ps.len() == 0 {
            Some(ErrorView::InvalidPart)
        } else if forall|j: int, k: int|
            0 <= j < k < ps.len() ==> (#[trigger] ps[j]).part_number < (
            #[trigger] ps[k]).part_number {
            None
        } else {
            Some(ErrorView::InvalidPartOrder)
        }),
{
    if multipart::numbers_ascend(ps) {
        assert forall|j: int, k: int| 0 <= j < k < ps.len() implies (#[trigger] ps[j]).part_number
            < (#[trigger] ps[k]).part_number by {
            lemma_ascend(ps, j, k);
        }
    }
}

proof fn lemma_ascend(ps: Seq<CompletedPart>, j: int, k: int)
    requires
        multipart::numbers_ascend(ps),
        0 <= j < k < ps.len(),
    ensures
        ps[j].part_number < ps[k].part_number,
    decreases k - j,
{
    assert(ps[k - 1].part_number < ps[k - 1 + 1].part_number);
    if j < k - 1 {
        lemma_ascend(ps, j, k - 1);
    }
}

/// An upload id passes if and only if it is a name: not empty, no dot or two dots alone,
/// and without a slash.
pub proof fn upload_ids_are_single_names(id: Seq<char>)
    ensures
        parts::is_id(id) <==> {
            &&& id.len() > 0
            &&& forall|i: int| 0 <= i < id.len() ==> #[trigger] id[i] != '/'
            &&& !(id.len() == 1 && id[0] == '.')
            &&& !(id.len() == 2 && id[0] == '.' && id[1] == '.')
        },
{
    reveal_strlit(".");
    reveal_strlit("..");
    if id.len() == 1 && id[0] == '.' {
        assert(id =~= "."@);
    }
    if id.len() == 2 && id[0] == '.' && id[1] == '.' {
        assert(id =~= ".."@);
    }
    assert("."@.len() == 1 && "."@[0] == '.');
    assert(".."@.len() == 2 && ".."@[0] == '.' && ".."@[1] == '.');
    if !id.contains('/') {
        assert forall|i: int| 0 <= i < id.len() implies #[trigger] id[i] != '/' by {
            assert(id.contains(id[i]));
        }
    }
}

} // verus!
