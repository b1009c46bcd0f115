//! What operations leave as it is.

use crate::disk;
use crate::disk::{End, Node, World};
use crate::laws;
use crate::laws::buckets::{bucket_place, is_named};
use crate::laws::copies;
use crate::laws::ground;
use crate::laws::uploads;
use crate::meta;
use crate::order;
use crate::paths;
use crate::places;
use crate::store::buckets;
use crate::store::copying;
use crate::store::copying::{CopyObjectInput, CopyView};
use crate::store::listing;
use crate::store::listing::{ListObjectsV2Input, ListedView};
use crate::store::multipart;
use crate::store::multipart::{CompleteMultipartUploadInput, CreateMultipartUploadInput};
use crate::store::multipart::{CompletedView, CreatedView, UploadPartInput, UploadedView};
use crate::store::objects;
use crate::store::objects::{ObjectView, PutObjectInput};
use crate::store::parts;
use crate::upload::UploadView;
use vstd::prelude::*;

verus! {

/// The disk holds the same object, or none, before and after.
pub open spec fn keeps_object(
    w: World,
    after: World,
    base: Seq<char>,
    bucket: Seq<char>,
    key: Seq<char>,
) -> bool {
    &&& forall|object: ObjectView|
        #![trigger laws::objects::holds(after, base, bucket, key, object)]
        laws::objects::holds(after, base, bucket, key, object) == laws::objects::holds(
            w,
            base,
            bucket,
            key,
            object,
        )
    &&& laws::objects::is_absent(after, base, bucket, key) == laws::objects::is_absent(
        w,
        base,
        bucket,
        key,
    )
}

/// The upload is under way before and after, or neither, with the same record and
/// the same parts.
pub open spec fn keeps_upload(w: World, after: World, base: Seq<char>, id: Seq<char>) -> bool {
    &&& forall|u: UploadView|
        #![trigger uploads::has_upload(after, base, id, u)]
        uploads::has_upload(after, base, id, u) == uploads::has_upload(w, base, id, u)
    &&& forall|n: u32, body: Seq<u8>, etag: Seq<char>|
        #![trigger uploads::has_part(after, base, id, n, body, etag)]
        uploads::has_part(after, base, id, n, body, etag) == uploads::has_part(
            w,
            base,
            id,
            n,
            body,
            etag,
        )
}

/// The same is at a place of both disks.
spec fn agree(
    a: Map<Seq<Seq<char>>, Node>,
    b: Map<Seq<Seq<char>>, Node>,
    ns: Seq<Seq<char>>,
) -> bool {
    &&& a.contains_key(ns) == b.contains_key(ns)
    &&& a.contains_key(ns) ==> a[ns] == b[ns]
}

/// The same is at the place of an upload and right below it.
spec fn agree_on_upload(
    a: Map<Seq<Seq<char>>, Node>,
    b: Map<Seq<Seq<char>>, Node>,
    base: Seq<char>,
    id: Seq<char>,
) -> bool {
    let home = uploads::home_place(base, id);
    &&& agree(a, b, home)
    &&& forall|x: Seq<char>| agree(a, b, #[trigger] home.push(x))
}

proof fn lemma_keeps_upload(w: World, after: World, base: Seq<char>, id: Seq<char>)
    requires
        parts::is_id(id),
        after.codec == w.codec,
        agree_on_upload(w.nodes, after.nodes, base, id),
    ensures
        keeps_upload(w, after, base, id),
{
    let dir = parts::upload_home(base, id);
    let home = uploads::home_place(base, id);
    uploads::lemma_home(base, id);
    uploads::lemma_files(dir, 1);
    assert(agree(w.nodes, after.nodes, home.push("meta.json"@)));
    assert forall|n: u32, body: Seq<u8>, etag: Seq<char>|
        #![trigger uploads::has_part(after, base, id, n, body, etag)]
        uploads::has_part(after, base, id, n, body, etag) == uploads::has_part(
            w,
            base,
            id,
            n,
            body,
            etag,
        ) by {
        uploads::lemma_files(dir, n);
        assert(agree(w.nodes, after.nodes, home.push(parts::body_name(n))));
        assert(agree(w.nodes, after.nodes, home.push(parts::etag_name(n))));
    }
}

/// Two uploads lie apart.
proof fn lemma_homes_apart(base: Seq<char>, id: Seq<char>, id2: Seq<char>)
    requires
        id != id2,
    ensures
        ({
            let home = uploads::home_place(base, id);
            let home2 = uploads::home_place(base, id2);
            &&& !home.is_prefix_of(home2)
            &&& !home2.is_prefix_of(home)
            &&& forall|x: Seq<char>| !home.is_prefix_of(#[trigger] home2.push(x))
            &&& forall|x: Seq<char>| !(#[trigger] home2.push(x)).is_prefix_of(home)
            &&& forall|x: Seq<char>, y: Seq<char>| #[trigger] home.push(x) != #[trigger] home2.push(y)
            &&& forall|x: Seq<char>| #[trigger] home.push(x) != home2
        }),
{
    let home = uploads::home_place(base, id);
    let home2 = uploads::home_place(base, id2);
    let k = paths::names(base).len() as int + 1;
    assert(home.len() == k + 1 && home2.len() == k + 1);
    assert(home[k] == id && home2[k] == id2);
    assert(!home.is_prefix_of(home2)) by {
        if home.is_prefix_of(home2) {
            assert(home2.subrange(0, home.len() as int)[k] == home2[k]);
        }
    }
    assert(!home2.is_prefix_of(home)) by {
        if home2.is_prefix_of(home) {
            assert(home.subrange(0, home2.len() as int)[k] == home[k]);
        }
    }
    assert forall|x: Seq<char>| !home.is_prefix_of(#[trigger] home2.push(x)) by {
        if home.is_prefix_of(home2.push(x)) {
            assert(home2.push(x).subrange(0, home.len() as int)[k] == home2.push(x)[k]);
        }
    }
    assert forall|x: Seq<char>, y: Seq<char>| #[trigger] home.push(x) != #[trigger] home2.push(
        y,
    ) by {
        assert(home.push(x)[k] == id && home2.push(y)[k] == id2);
    }
    assert forall|x: Seq<char>| #[trigger] home.push(x) != home2 by {
        assert(home.push(x).len() == home2.len() + 1);
    }
}

/// An object that is put on the disk lies apart from the uploads.
proof fn lemma_object_leaves_uploads(
    w: World,
    after: World,
    base: Seq<char>,
    bucket: Seq<char>,
    key: Seq<char>,
    object: ObjectView,
    id: Seq<char>,
)
    requires
        paths::is_absolute(base),
        objects::name_fault(bucket, key) is None,
        !places::directory_form(key),
        parts::is_id(id),
        after.nodes == ground::with_object(
            w.codec,
            w.nodes,
            base,
            bucket,
            key,
            object.body,
            object.meta,
        ),
    ensures
        agree_on_upload(w.nodes, after.nodes, base, id),
{
    uploads::lemma_object_elsewhere(base, bucket, key, id);
    ground::lemma_places(base, bucket, key);
    let home = uploads::home_place(base, id);
    let body = ground::body_place(base, bucket, key);
    let way = body.drop_last();
    assert forall|q: Seq<Seq<char>>| home.is_prefix_of(q) implies !q.is_prefix_of(way) by {
        if q.is_prefix_of(way) {
            assert(body.subrange(0, home.len() as int) =~= q.subrange(0, home.len() as int));
            assert(home.is_prefix_of(body));
        }
    }
    assert(home.is_prefix_of(home));
    assert forall|x: Seq<char>| agree(w.nodes, after.nodes, #[trigger] home.push(x)) by {
        assert(home.is_prefix_of(home.push(x)));
    }
}

/// Putting or deleting an object leaves the uploads as they are.
pub proof fn writing_objects_leaves_uploads(
    w: World,
    base: Seq<char>,
    p: PutObjectInput,
    etag: Seq<char>,
    after: World,
    id: Seq<char>,
)
    requires
        laws::objects::is_addressed(w, base, p.bucket@, p.key@),
        w.run(objects::put_object_script(base, p)) == End::Done(after.nodes, etag) || w.run(
            objects::delete_object_script(base, p.bucket@, p.key@),
        ) == End::Done(after.nodes, ()),
        after.codec == w.codec,
        parts::is_id(id),
    ensures
        keeps_upload(w, after, base, id),
{
    if w.run(objects::put_object_script(base, p)) == End::Done(after.nodes, etag) {
        laws::objects::put_adds_the_object(w, base, p);
        let object = ObjectView { body: p.body@, meta: objects::put_meta(p, w.now) };
        lemma_object_leaves_uploads(w, after, base, p.bucket@, p.key@, object, id);
    } else {
        laws::objects::delete_removes_the_object(w, base, p.bucket@, p.key@);
        let (bucket, key) = (p.bucket@, p.key@);
        ground::lemma_places(base, bucket, key);
        ground::lemma_sidecar_name(base, bucket, key);
        let k = paths::names(base).len() as int;
        let body = ground::body_place(base, bucket, key);
        let side = ground::sidecar_place(base, bucket, key);
        assert(body[k] == bucket && side[k] == bucket);
        uploads::lemma_elsewhere(base, bucket, id, body);
        uploads::lemma_elsewhere(base, bucket, id, side);
        let home = uploads::home_place(base, id);
        assert(home.is_prefix_of(home));
        assert(agree(w.nodes, after.nodes, home));
        assert forall|x: Seq<char>| agree(w.nodes, after.nodes, #[trigger] home.push(x)) by {}
    }
    lemma_keeps_upload(w, after, base, id);
}

/// A copy leaves the objects that it is not written over as they are, and the
/// uploads, and every directory.
pub proof fn copying_leaves_the_rest(
    w: World,
    base: Seq<char>,
    i: CopyObjectInput,
    source: ObjectView,
    out: CopyView,
    after: World,
    bucket: Seq<char>,
    key: Seq<char>,
    id: Seq<char>,
)
    requires
        copies::is_addressed(w, base, i),
        laws::objects::holds(w, base, i.src_bucket@, i.src_key@, source),
        w.run(copying::copy_object_script(base, i)) == End::Done(after.nodes, out),
        after.codec == w.codec,
        laws::objects::are_apart(base, i.dst_bucket@, i.dst_key@, bucket, key),
        parts::is_id(id),
    ensures
        keeps_object(w, after, base, bucket, key),
        keeps_upload(w, after, base, id),
        laws::objects::keeps_directories(w.nodes, after.nodes),
{
    copies::copy_adds_the_copy(w, base, i, source);
    let m = copying::copy_meta(i, source.meta, source.body, w.now);
    let object = ObjectView { body: source.body, meta: m };
    lemma_object_leaves_uploads(w, after, base, i.dst_bucket@, i.dst_key@, object, id);
    lemma_keeps_upload(w, after, base, id);
}

/// Creating or deleting a bucket leaves the uploads as they are.
pub proof fn buckets_leave_uploads(
    w: World,
    base: Seq<char>,
    bucket: Seq<char>,
    force: bool,
    after: World,
    id: Seq<char>,
)
    requires
        is_named(w, base, bucket),
        w.run(buckets::create_bucket_script(base, bucket)) == End::Done(after.nodes, ()) || w.run(
            buckets::delete_bucket_script(base, bucket, force),
        ) == End::Done(after.nodes, ()),
        after.codec == w.codec,
        parts::is_id(id),
    ensures
        keeps_upload(w, after, base, id),
{
    let at = bucket_place(base, bucket);
    let home = uploads::home_place(base, id);
    let k = paths::names(base).len() as int;
    uploads::lemma_elsewhere(base, bucket, id, at);
    assert(at.len() == k + 1);
    assert(!at.is_prefix_of(home));
    assert forall|x: Seq<char>| !at.is_prefix_of(#[trigger] home.push(x)) by {
        if at.is_prefix_of(home.push(x)) {
            assert(home.push(x).subrange(0, at.len() as int) =~= home.subrange(
                0,
                at.len() as int,
            ));
        }
    }
    assert(at.is_prefix_of(at));
    if w.run(buckets::create_bucket_script(base, bucket)) == End::Done(after.nodes, ()) {
        laws::buckets::create_adds_the_bucket(w, base, bucket);
    } else {
        laws::buckets::delete_removes_the_bucket(w, base, bucket, force);
    }
    assert(agree(w.nodes, after.nodes, home));
    assert forall|x: Seq<char>| agree(w.nodes, after.nodes, #[trigger] home.push(x)) by {}
    lemma_keeps_upload(w, after, base, id);
}

/// Beginning an upload leaves the other uploads as they are.
pub proof fn beginning_leaves_other_uploads(
    w: World,
    base: Seq<char>,
    i: CreateMultipartUploadInput,
    out: CreatedView,
    after: World,
    id: Seq<char>,
)
    requires
        laws::objects::is_addressed(w, base, i.bucket@, i.key@),
        w.run(multipart::create_multipart_upload_script(base, i)) == End::Done(after.nodes, out),
        after.codec == w.codec,
        parts::is_id(id),
        id != out.upload_id,
    ensures
        keeps_upload(w, after, base, id),
{
    uploads::create_adds_the_upload(w, base, i);
    lemma_homes_apart(base, out.upload_id, id);
    let home = uploads::home_place(base, id);
    assert(agree(w.nodes, after.nodes, home));
    assert forall|x: Seq<char>| agree(w.nodes, after.nodes, #[trigger] home.push(x)) by {}
    lemma_keeps_upload(w, after, base, id);
}

/// Keys in order are known by what they are.
proof fn lemma_same_keys(a: Seq<Seq<char>>, b: Seq<Seq<char>>)
    requires
        order::ascending(a),
        order::ascending(b),
        forall|x: Seq<char>| #[trigger] a.contains(x) <==> b.contains(x),
    ensures
        a == b,
    decreases a.len(),
{
    if a.len() == 0 || b.len() == 0 {
        if a.len() > 0 {
            assert(a.contains(a[0]));
        }
        if b.len() > 0 {
            assert(b.contains(b[0]));
            assert(a.contains(b[0]));
        }
        assert(a =~= b);
    } else {
        let (x, y) = (a.last(), b.last());
        assert(a.contains(x) && b.contains(y));
        assert(a.contains(y));
        let k = choose|k: int| 0 <= k < b.len() && b[k] == x;
        let j = choose|j: int| 0 <= j < a.len() && a[j] == y;
        if x != y {
            assert(order::before(b[k], b[b.len() - 1]));
            assert(order::before(a[j], a[a.len() - 1]));
            order::key_order_is_total(x, y, x);
        }
        let (f, g) = (a.drop_last(), b.drop_last());
        assert forall|z: Seq<char>| #[trigger] f.contains(z) <==> g.contains(z) by {
            lemma_all_but_last(a, z);
            lemma_all_but_last(b, z);
            assert(a.contains(z) <==> b.contains(z));
        }
        lemma_same_keys(f, g);
        assert(a =~= f.push(x));
        assert(b =~= g.push(y));
    }
}

proof fn lemma_all_but_last(s: Seq<Seq<char>>, z: Seq<char>)
    requires
        order::ascending(s),
        s.len() > 0,
    ensures
        s.drop_last().contains(z) <==> s.contains(z) && z != s.last(),
{
    let f = s.drop_last();
    if f.contains(z) {
        let k = choose|k: int| 0 <= k < f.len() && f[k] == z;
        assert(s[k] == z);
        assert(order::before(s[k], s[s.len() - 1]));
        order::key_order_is_total(z, s.last(), z);
    }
    if s.contains(z) && z != s.last() {
        let k = choose|k: int| 0 <= k < s.len() && s[k] == z;
        assert(f[k] == z);
    }
}

proof fn lemma_same_walk(
    w: World,
    after: World,
    base: Seq<char>,
    i: ListObjectsV2Input,
    keys: Seq<Seq<char>>,
    n: int,
    contents: Seq<ListedView>,
    prefixes: Seq<Seq<char>>,
)
    requires
        forall|k: int|
            0 <= k < keys.len() ==> laws::listing::entry_at(w, base, i.bucket@, #[trigger] keys[k])
                == laws::listing::entry_at(after, base, i.bucket@, keys[k]),
    ensures
        laws::listing::walked(w, base, i, keys, n, contents, prefixes) == laws::listing::walked(
            after,
            base,
            i,
            keys,
            n,
            contents,
            prefixes,
        ),
    decreases keys.len() - n,
{
    if !listing::ends_before(i, keys, n, contents, prefixes) {
        match listing::grouped(i, keys[n]) {
            Some(p) => {
                lemma_same_walk(
                    w,
                    after,
                    base,
                    i,
                    keys,
                    n + 1,
                    contents,
                    order::with_member(prefixes, p),
                );
            },
            None => {
                let c = contents.push(laws::listing::entry_at(w, base, i.bucket@, keys[n]));
                lemma_same_walk(w, after, base, i, keys, n + 1, c, prefixes);
            },
        }
    }
}

/// Where nothing changes in a bucket, its listings stay.
proof fn lemma_same_listing(w: World, after: World, base: Seq<char>, i: ListObjectsV2Input)
    requires
        laws::listing::is_listable(w, base, i),
        is_named(after, base, i.bucket@),
        laws::buckets::has_bucket(after, base, i.bucket@),
        after.codec == w.codec,
        forall|q: Seq<Seq<char>>|
            bucket_place(base, i.bucket@).is_prefix_of(q) ==> #[trigger] agree(
                w.nodes,
                after.nodes,
                q,
            ),
    ensures
        laws::listing::is_listable(after, base, i),
        laws::listing::page_at(after, base, i) == laws::listing::page_at(w, base, i),
{
    let bucket = i.bucket@;
    let at = bucket_place(base, bucket);
    let (all, all2) = (
        laws::listing::stored_keys(w, base, bucket),
        laws::listing::stored_keys(after, base, bucket),
    );
    let (keys, keys2) = (
        laws::listing::wanted_keys(w, base, i),
        laws::listing::wanted_keys(after, base, i),
    );
    laws::keys::listings_find_the_files(w, base, bucket);
    laws::keys::listings_find_the_files(after, base, bucket);
    laws::listing::wanted_keys_ascend(i, all);
    laws::listing::wanted_keys_ascend(i, all2);
    assert forall|x: Seq<char>| #[trigger] all.contains(x) <==> all2.contains(x) by {
        let q = at + paths::names(x);
        assert(q.subrange(0, at.len() as int) =~= at);
        assert(agree(w.nodes, after.nodes, q));
    }
    assert forall|x: Seq<char>| #[trigger] keys.contains(x) <==> keys2.contains(x) by {
        assert(all.contains(x) <==> all2.contains(x));
    }
    lemma_same_keys(keys, keys2);
    assert forall|k: int| 0 <= k < keys.len() implies disk::file_at(
        w.nodes,
        paths::meta_file(base, bucket, #[trigger] keys[k]),
    ) == disk::file_at(after.nodes, paths::meta_file(base, bucket, keys[k])) by {
        let key = keys[k];
        assert(keys.contains(key));
        assert(all.contains(key));
        assert(laws::keys::is_shown(w, base, bucket, key));
        places::lemma_nameable(key);
        laws::keys::lemma_slashed_relative(paths::names(key));
        ground::lemma_sidecar_name(base, bucket, key);
        let side = ground::sidecar_place(base, bucket, key);
        assert(side.subrange(0, at.len() as int) =~= at);
        assert(agree(w.nodes, after.nodes, side));
    }
    assert forall|k: int| 0 <= k < keys.len() implies laws::listing::entry_at(
        w,
        base,
        bucket,
        #[trigger] keys[k],
    ) == laws::listing::entry_at(after, base, bucket, keys[k]) by {}
    lemma_same_walk(w, after, base, i, keys, 0, Seq::empty(), Seq::empty());
    assert(laws::listing::are_readable(after, base, i, keys2)) by {
        assert forall|k: int|
            0 <= k < keys2.len() && listing::grouped(
                i,
                #[trigger] keys2[k],
            ) is None implies laws::listing::is_readable(after, base, bucket, keys2[k]) by {
            assert(laws::listing::is_readable(w, base, bucket, keys[k]));
        }
    }
}

/// Beginning an upload leaves every listing of every bucket as it is.
pub proof fn beginning_leaves_listings(
    w: World,
    base: Seq<char>,
    i: CreateMultipartUploadInput,
    out: CreatedView,
    after: World,
    l: ListObjectsV2Input,
)
    requires
        laws::objects::is_addressed(w, base, i.bucket@, i.key@),
        w.run(multipart::create_multipart_upload_script(base, i)) == End::Done(after.nodes, out),
        after.is_valid(),
        after.codec == w.codec,
        laws::listing::is_listable(w, base, l),
    ensures
        w.run(listing::list_objects_v2_script(base, l)) == End::Done(
            w.nodes,
            laws::listing::page_at(w, base, l),
        ),
        after.run(listing::list_objects_v2_script(base, l)) == End::Done(
            after.nodes,
            laws::listing::page_at(w, base, l),
        ),
{
    let id = out.upload_id;
    let bucket = l.bucket@;
    let at = bucket_place(base, bucket);
    let k = paths::names(base).len() as int;
    uploads::create_adds_the_upload(w, base, i);
    laws::buckets::lemma_bucket_place(base, bucket);
    assert forall|q: Seq<Seq<char>>| at.is_prefix_of(q) implies #[trigger] agree(
        w.nodes,
        after.nodes,
        q,
    ) by {
        assert(q.subrange(0, at.len() as int)[k] == q[k]);
        uploads::lemma_elsewhere(base, bucket, id, q);
    }
    assert(at.is_prefix_of(at));
    assert(agree(w.nodes, after.nodes, at));
    let b = paths::names(base);
    let home = uploads::home_place(base, id);
    assert(after.nodes.contains_key(b) && after.nodes[b] is Dir) by {
        assert(home.push("meta.json"@).len() > b.len());
        assert(home.push("meta.tmp"@).len() > b.len());
    }
    lemma_same_listing(w, after, base, l);
    laws::listing::list_gives_a_page(w, base, l);
    laws::listing::list_gives_a_page(after, base, l);
}

/// Uploading a part leaves the objects and the other uploads as they are.
pub proof fn uploading_leaves_the_rest(
    w: World,
    base: Seq<char>,
    i: UploadPartInput,
    out: UploadedView,
    after: World,
    bucket: Seq<char>,
    key: Seq<char>,
    id: Seq<char>,
)
    requires
        w.is_valid(),
        paths::is_absolute(base),
        parts::is_id(i.upload_id@),
        parts::part_number_fault(i.part_number) is None,
        disk::dir_at(w.nodes, parts::upload_home(base, i.upload_id@)),
        w.run(multipart::upload_part_script(base, i)) == End::Done(after.nodes, out),
        after.codec == w.codec,
        objects::name_fault(bucket, key) is None,
        parts::is_id(id),
        id != i.upload_id@,
    ensures
        keeps_object(w, after, base, bucket, key),
        keeps_upload(w, after, base, id),
{
    uploads::upload_adds_the_part(w, base, i);
    if !places::directory_form(key) {
        uploads::lemma_object_elsewhere(base, bucket, key, i.upload_id@);
    } else {
        ground::lemma_places(base, bucket, key);
    }
    lemma_homes_apart(base, i.upload_id@, id);
    let home = uploads::home_place(base, id);
    assert(agree(w.nodes, after.nodes, home));
    assert forall|x: Seq<char>| agree(w.nodes, after.nodes, #[trigger] home.push(x)) by {}
    lemma_keeps_upload(w, after, base, id);
}

/// Completing an upload leaves the objects that are not written over and the other
/// uploads as they are.
pub proof fn completing_leaves_the_rest(
    w: World,
    base: Seq<char>,
    i: CompleteMultipartUploadInput,
    u: UploadView,
    bodies: Seq<Seq<u8>>,
    out: CompletedView,
    after: World,
    bucket: Seq<char>,
    key: Seq<char>,
    id: Seq<char>,
)
    requires
        uploads::is_completable(w, base, i.upload_id@, u),
        multipart::parts_fault(i.parts@) is None,
        bodies.len() == i.parts@.len(),
        uploads::are_there(w, base, i, bodies, bodies.len() as int),
        w.run(multipart::complete_multipart_upload_script(base, i)) == End::Done(
            after.nodes,
            out,
        ),
        after.codec == w.codec,
        objects::name_fault(bucket, key) is None,
        laws::objects::are_apart(base, u.bucket, u.key, bucket, key),
        parts::is_id(id),
        id != i.upload_id@,
    ensures
        keeps_object(w, after, base, bucket, key),
        keeps_upload(w, after, base, id),
{
    uploads::complete_joins_the_parts(w, base, i, u, bodies);
    let body = meta::strung(bodies);
    let m = multipart::completed_meta(u, body, uploads::digests_of(bodies), w.now);
    let object = ObjectView { body, meta: m };
    let mid = World {
        nodes: ground::with_object(w.codec, w.nodes, base, u.bucket, u.key, body, m),
        ..w
    };
    if !places::directory_form(key) {
        uploads::lemma_object_elsewhere(base, bucket, key, i.upload_id@);
    } else {
        ground::lemma_places(base, bucket, key);
    }
    assert(keeps_object(w, mid, base, bucket, key));
    assert(keeps_object(mid, after, base, bucket, key));
    lemma_object_leaves_uploads(w, mid, base, u.bucket, u.key, object, id);
    lemma_homes_apart(base, i.upload_id@, id);
    let home = uploads::home_place(base, id);
    assert(agree(w.nodes, after.nodes, home));
    assert forall|x: Seq<char>| agree(w.nodes, after.nodes, #[trigger] home.push(x)) by {
        assert(agree(w.nodes, mid.nodes, home.push(x)));
    }
    lemma_keeps_upload(w, after, base, id);
}

} // verus!
