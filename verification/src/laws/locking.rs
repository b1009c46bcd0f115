//! What holds of locks, and of operations that only read.

use crate::disk;
use crate::disk::{End, World};
use crate::exchange::{AnswerView, EntryView, QueryView, Script};
use crate::meta;
use crate::order;
use crate::paths;
use crate::store::buckets;
use crate::store::copying;
use crate::store::copying::CopyObjectInput;
use crate::store::listing;
use crate::store::listing::ListObjectsV2Input;
use crate::store::listing::ListedView;
use crate::store::multipart;
use crate::store::multipart::{CompleteMultipartUploadInput, CreateMultipartUploadInput};
use crate::store::multipart::UploadPartInput;
use crate::store::objects;
use crate::store::objects::{GetObjectInput, HeadObjectInput, PutObjectInput};
use crate::store::part_listing;
use crate::store::part_listing::PartView;
use crate::store::parts;
use crate::upload::UploadView;
use vstd::prelude::*;

verus! {

/// The lock that an operation holds.
#[verifier::ext_equal]
pub enum Lock {
    Free,
    Shared(Seq<char>),
    Exclusive(Seq<char>),
}

/// The lock that is held once a question is answered.
pub open spec fn lock_after(held: Lock, q: QueryView) -> Lock {
    match q {
        QueryView::LockShared { bucket } => Lock::Shared(bucket),
        QueryView::LockExclusive { bucket } => Lock::Exclusive(bucket),
        QueryView::Unlock => Lock::Free,
        _ => held,
    }
}

/// The lock that is held when a script ends.
pub open spec fn lock_at_end<T>(w: World, s: Script<T>, held: Lock) -> Lock
    decreases s,
{
    match s {
        Script::Ask(q, k) => lock_at_end(w, k(w.answer(q)), lock_after(held, q)),
        _ => held,
    }
}

/// A lock is only taken when none is held.
pub open spec fn locks_once<T>(w: World, s: Script<T>, held: Lock) -> bool
    decreases s,
{
    match s {
        Script::Ask(q, k) => {
            &&& (q is LockShared || q is LockExclusive) ==> held is Free
            &&& locks_once(w, k(w.answer(q)), lock_after(held, q))
        },
        _ => true,
    }
}

/// What changes a bucket does so under the exclusive lock of that bucket.
pub proof fn writers_hold_the_lock(
    w: World,
    base: Seq<char>,
    bucket: Seq<char>,
    force: bool,
    p: PutObjectInput,
    c: CopyObjectInput,
)
    ensures
        w.run(buckets::create_bucket_script(base, bucket)) is Done ==> lock_at_end(
            w,
            buckets::create_bucket_script(base, bucket),
            Lock::Free,
        ) == Lock::Exclusive(bucket),
        w.run(buckets::delete_bucket_script(base, bucket, force)) is Done ==> lock_at_end(
            w,
            buckets::delete_bucket_script(base, bucket, force),
            Lock::Free,
        ) == Lock::Exclusive(bucket),
        w.run(objects::put_object_script(base, p)) is Done ==> lock_at_end(
            w,
            objects::put_object_script(base, p),
            Lock::Free,
        ) == Lock::Exclusive(p.bucket@),
        w.run(objects::delete_object_script(base, p.bucket@, p.key@)) is Done ==> lock_at_end(
            w,
            objects::delete_object_script(base, p.bucket@, p.key@),
            Lock::Free,
        ) == Lock::Exclusive(p.bucket@),
        w.run(copying::copy_object_script(base, c)) is Done ==> lock_at_end(
            w,
            copying::copy_object_script(base, c),
            Lock::Free,
        ) == Lock::Exclusive(c.dst_bucket@),
{
    lemma_bucket_writers(w, base, bucket, force);
    lemma_object_writers(w, base, p);
    lemma_copy_writers(w, base, c);
}

proof fn lemma_bucket_writers(w: World, base: Seq<char>, bucket: Seq<char>, force: bool)
    ensures
        w.run(buckets::create_bucket_script(base, bucket)) is Done ==> lock_at_end(
            w,
            buckets::create_bucket_script(base, bucket),
            Lock::Free,
        ) == Lock::Exclusive(bucket),
        w.run(buckets::delete_bucket_script(base, bucket, force)) is Done ==> lock_at_end(
            w,
            buckets::delete_bucket_script(base, bucket, force),
            Lock::Free,
        ) == Lock::Exclusive(bucket),
        locks_once(w, buckets::create_bucket_script(base, bucket), Lock::Free),
        locks_once(w, buckets::delete_bucket_script(base, bucket, force), Lock::Free),
{
    reveal_with_fuel(World::run, 5);
    reveal_with_fuel(lock_at_end, 5);
    reveal_with_fuel(locks_once, 5);
}

proof fn lemma_object_writers(w: World, base: Seq<char>, p: PutObjectInput)
    ensures
        w.run(objects::put_object_script(base, p)) is Done ==> lock_at_end(
            w,
            objects::put_object_script(base, p),
            Lock::Free,
        ) == Lock::Exclusive(p.bucket@),
        w.run(objects::delete_object_script(base, p.bucket@, p.key@)) is Done ==> lock_at_end(
            w,
            objects::delete_object_script(base, p.bucket@, p.key@),
            Lock::Free,
        ) == Lock::Exclusive(p.bucket@),
        locks_once(w, objects::put_object_script(base, p), Lock::Free),
        locks_once(w, objects::delete_object_script(base, p.bucket@, p.key@), Lock::Free),
{
    reveal_with_fuel(World::run, 8);
    reveal_with_fuel(lock_at_end, 8);
    reveal_with_fuel(locks_once, 8);
}

proof fn lemma_copy_writers(w: World, base: Seq<char>, c: CopyObjectInput)
    ensures
        w.run(copying::copy_object_script(base, c)) is Done ==> lock_at_end(
            w,
            copying::copy_object_script(base, c),
            Lock::Free,
        ) == Lock::Exclusive(c.dst_bucket@),
        locks_once(w, copying::copy_object_script(base, c), Lock::Free),
{
    reveal_with_fuel(World::run, 13);
    reveal_with_fuel(lock_at_end, 13);
    reveal_with_fuel(locks_once, 13);
}

proof fn lemma_completing(
    w: World,
    base: Seq<char>,
    i: CompleteMultipartUploadInput,
    u: UploadView,
    n: int,
    body: Seq<u8>,
    digests: Seq<Seq<u8>>,
)
    requires
        0 <= n <= i.parts@.len(),
    ensures
        ({
            let s = multipart::complete_from_part(base, i, u, n, body, digests);
            &&& w.run(s) is Done ==> lock_at_end(w, s, Lock::Free) == Lock::Exclusive(u.bucket)
            &&& locks_once(w, s, Lock::Free)
        }),
    decreases i.parts@.len() - n,
{
    if n < i.parts@.len() {
        let dir = parts::upload_home(base, i.upload_id@);
        let path = parts::body_file(dir, i.parts@[n].part_number);
        if let Some(bytes) = disk::file_at(w.nodes, path) {
            lemma_completing(
                w,
                base,
                i,
                u,
                n + 1,
                body + bytes,
                digests.push(meta::md5_digest(bytes)),
            );
        }
        reveal_with_fuel(World::run, 5);
        reveal_with_fuel(lock_at_end, 5);
        reveal_with_fuel(locks_once, 5);
        reveal_with_fuel(multipart::complete_from_part, 2);
        reveal_with_fuel(multipart::complete_with_part, 2);
    } else {
        reveal_with_fuel(World::run, 5);
        reveal_with_fuel(lock_at_end, 5);
        reveal_with_fuel(locks_once, 5);
    }
}

/// An upload is completed under the exclusive lock of its bucket.
pub proof fn completing_holds_the_lock(
    w: World,
    base: Seq<char>,
    i: CompleteMultipartUploadInput,
    u: UploadView,
)
    requires
        ({
            let dir = parts::upload_home(base, i.upload_id@);
            let record = disk::file_at(w.nodes, parts::record_file(dir));
            record is Some && (w.codec.upload_in)(record->0) == Some(u)
        }),
    ensures
        ({
            let s = multipart::complete_multipart_upload_script(base, i);
            &&& w.run(s) is Done ==> lock_at_end(w, s, Lock::Free) == Lock::Exclusive(u.bucket)
            &&& locks_once(w, s, Lock::Free)
        }),
{
    lemma_completing(w, base, i, u, 0, Seq::empty(), Seq::empty());
    reveal_with_fuel(World::run, 3);
    reveal_with_fuel(lock_at_end, 3);
    reveal_with_fuel(locks_once, 3);
}

/// An operation takes at most one lock at a time, so that none waits for another
/// while it holds a lock.
pub proof fn one_lock_at_a_time(
    w: World,
    base: Seq<char>,
    bucket: Seq<char>,
    force: bool,
    p: PutObjectInput,
    g: GetObjectInput,
    h: HeadObjectInput,
    c: CopyObjectInput,
)
    ensures
        locks_once(w, buckets::create_bucket_script(base, bucket), Lock::Free),
        locks_once(w, buckets::delete_bucket_script(base, bucket, force), Lock::Free),
        locks_once(w, objects::put_object_script(base, p), Lock::Free),
        locks_once(w, objects::get_object_script(base, g), Lock::Free),
        locks_once(w, objects::head_object_script(base, h), Lock::Free),
        locks_once(w, objects::delete_object_script(base, p.bucket@, p.key@), Lock::Free),
        locks_once(w, copying::copy_object_script(base, c), Lock::Free),
{
    lemma_bucket_writers(w, base, bucket, force);
    lemma_object_writers(w, base, p);
    lemma_copy_writers(w, base, c);
    reveal_with_fuel(locks_once, 8);
}

proof fn lemma_listing_parts(
    w: World,
    dir: Seq<char>,
    u: UploadView,
    es: Seq<EntryView>,
    n: int,
    found: Seq<PartView>,
)
    ensures
        locks_once(w, part_listing::list_from_entry(dir, u, es, n, found), Lock::Free),
    decreases es.len() - n,
{
    if 0 <= n < es.len() {
        let k = part_listing::list_with_entry(dir, u, es, n, found);
        assert forall|part: Option<PartView>| locks_once(w, #[trigger] k(part), Lock::Free) by {
            let next = match part {
                Some(p) => part_listing::with_part(found, p),
                None => found,
            };
            lemma_listing_parts(w, dir, u, es, n + 1, next);
            reveal_with_fuel(part_listing::list_with_entry, 2);
        }
        lemma_listing_parts(w, dir, u, es, n + 1, found);
        reveal_with_fuel(locks_once, 4);
    }
}

/// Finding a bucket and the operations on uploads take at most one lock at a time too,
/// whether or not the upload is there.
pub proof fn uploads_lock_once(
    w: World,
    base: Seq<char>,
    bucket: Seq<char>,
    i: CreateMultipartUploadInput,
    p: UploadPartInput,
    c: CompleteMultipartUploadInput,
    id: Seq<char>,
)
    ensures
        locks_once(w, buckets::head_bucket_script(base, bucket), Lock::Free),
        locks_once(w, multipart::create_multipart_upload_script(base, i), Lock::Free),
        locks_once(w, multipart::upload_part_script(base, p), Lock::Free),
        locks_once(w, multipart::complete_multipart_upload_script(base, c), Lock::Free),
        locks_once(w, multipart::abort_multipart_upload_script(base, id), Lock::Free),
        locks_once(w, part_listing::list_parts_script(base, id), Lock::Free),
{
    let path = parts::record_file(parts::upload_home(base, c.upload_id@));
    if let AnswerView::Upload(u) = w.answer(QueryView::ReadUpload { path }) {
        completing_holds_the_lock(w, base, c, u);
    }
    let dir = parts::upload_home(base, id);
    let q = QueryView::ReadUpload { path: parts::record_file(dir) };
    if let AnswerView::Upload(u) = w.answer(q) {
        lemma_listing_parts(w, dir, u, (w.entries)(dir), 0, Seq::empty());
    }
    reveal_with_fuel(locks_once, 5);
}

/// Objects are read under the shared lock of their bucket, and reading changes
/// nothing.
pub proof fn readers_share_the_lock(
    w: World,
    base: Seq<char>,
    g: GetObjectInput,
    h: HeadObjectInput,
)
    ensures
        match w.run(objects::get_object_script(base, g)) {
            End::Done(n, _) => n == w.nodes && lock_at_end(
                w,
                objects::get_object_script(base, g),
                Lock::Free,
            ) == Lock::Shared(g.bucket@),
            End::Refused(_) => true,
            End::Broken => false,
        },
        match w.run(objects::head_object_script(base, h)) {
            End::Done(n, _) => n == w.nodes && lock_at_end(
                w,
                objects::head_object_script(base, h),
                Lock::Free,
            ) == Lock::Shared(h.bucket@),
            End::Refused(_) => true,
            End::Broken => false,
        },
{
    reveal_with_fuel(World::run, 8);
    reveal_with_fuel(lock_at_end, 8);
}

proof fn lemma_listing(
    w: World,
    base: Seq<char>,
    i: ListObjectsV2Input,
    keys: Seq<Seq<char>>,
    n: int,
    contents: Seq<ListedView>,
    prefixes: Seq<Seq<char>>,
    held: Lock,
)
    ensures
        ({
            let s = listing::list_from_key(base, i, keys, n, contents, prefixes);
            &&& match w.run(s) {
                End::Done(nodes, _) => nodes == w.nodes && lock_at_end(w, s, held) == held,
                End::Refused(_) => true,
                End::Broken => false,
            }
            &&& locks_once(w, s, held)
        }),
    decreases keys.len() - n,
{
    if !listing::ends_before(i, keys, n, contents, prefixes) {
        match listing::grouped(i, keys[n]) {
            Some(p) => {
                lemma_listing(
                    w,
                    base,
                    i,
                    keys,
                    n + 1,
                    contents,
                    order::with_member(prefixes, p),
                    held,
                );
            },
            None => {
                let path = paths::meta_file(base, i.bucket@, keys[n]);
                if let AnswerView::Meta(m) = w.answer(
                    QueryView::ReadMeta { path },
                ) {
                    lemma_listing(
                        w,
                        base,
                        i,
                        keys,
                        n + 1,
                        contents.push(listing::entry_of(keys[n], m)),
                        prefixes,
                        held,
                    );
                }
                reveal_with_fuel(World::run, 2);
                reveal_with_fuel(lock_at_end, 2);
                reveal_with_fuel(locks_once, 2);
            },
        }
    }
}

/// A bucket is listed under its shared lock, which is the only one that is taken, and
/// listing changes nothing.
pub proof fn listing_shares_the_lock(w: World, base: Seq<char>, i: ListObjectsV2Input)
    ensures
        match w.run(listing::list_objects_v2_script(base, i)) {
            End::Done(n, _) => n == w.nodes && lock_at_end(
                w,
                listing::list_objects_v2_script(base, i),
                Lock::Free,
            ) == Lock::Shared(i.bucket@),
            End::Refused(_) => true,
            End::Broken => false,
        },
        locks_once(w, listing::list_objects_v2_script(base, i), Lock::Free),
{
    let dir = paths::bucket_dir(base, i.bucket@);
    let keys = listing::wanted(i, listing::keys_under(Seq::empty(), (w.trees)(dir)));
    lemma_listing(
        w,
        base,
        i,
        keys,
        0,
        Seq::empty(),
        Seq::empty(),
        Lock::Shared(i.bucket@),
    );
    reveal_with_fuel(World::run, 4);
    reveal_with_fuel(lock_at_end, 4);
    reveal_with_fuel(locks_once, 4);
}

} // verus!
