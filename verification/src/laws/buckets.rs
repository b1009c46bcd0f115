//! What holds of buckets.

use crate::disk;
use crate::disk::{End, Node, World};
use crate::error::ErrorView;
use crate::exchange::EffectView;
use crate::laws;
use crate::laws::ground;
use crate::laws::keys;
use crate::paths;
use crate::places;
use crate::store::buckets;
use crate::store::objects;
use crate::store::objects::ObjectView;
use crate::store::parts;
use vstd::prelude::*;

verus! {

/// The name of a bucket passes, and the base directory is there.
pub open spec fn is_named(w: World, base: Seq<char>, bucket: Seq<char>) -> bool {
    &&& w.is_valid()
    &&& w.has_base(base)
    &&& paths::bucket_fault(bucket) is None
}

/// The bucket is there.
pub open spec fn has_bucket(w: World, base: Seq<char>, bucket: Seq<char>) -> bool {
    disk::dir_at(w.nodes, paths::bucket_dir(base, bucket))
}

/// The place of a bucket.
pub open spec fn bucket_place(base: Seq<char>, bucket: Seq<char>) -> Seq<Seq<char>> {
    paths::names(base).push(bucket)
}

pub proof fn lemma_bucket_place(base: Seq<char>, bucket: Seq<char>)
    requires
        paths::bucket_fault(bucket) is None,
    ensures
        paths::names(paths::bucket_dir(base, bucket)) == bucket_place(base, bucket),
        paths::segments(paths::bucket_dir(base, bucket)).last() == bucket,
        !places::directory_form(paths::bucket_dir(base, bucket)),
{
    ground::lemma_bucket_name(bucket);
    places::lemma_single(bucket);
    places::lemma_names_join(base, bucket);
    assert(paths::names(base) + seq![bucket] =~= bucket_place(base, bucket));
}

/// A name that does not pass is refused by every operation on buckets, with what
/// is wrong with it.
pub proof fn bad_names_are_refused(w: World, base: Seq<char>, bucket: Seq<char>, force: bool)
    requires
        paths::bucket_fault(bucket) is Some,
    ensures
        w.run(buckets::create_bucket_script(base, bucket)) == End::<()>::Refused(
            paths::bucket_fault(bucket)->0,
        ),
        w.run(buckets::head_bucket_script(base, bucket)) == End::<()>::Refused(
            paths::bucket_fault(bucket)->0,
        ),
        w.run(buckets::delete_bucket_script(base, bucket, force)) == End::<()>::Refused(
            paths::bucket_fault(bucket)->0,
        ),
{
}

/// A bucket is found if and only if it is there. Nothing changes.
pub proof fn head_finds_buckets(w: World, base: Seq<char>, bucket: Seq<char>)
    requires
        is_named(w, base, bucket),
    ensures
        w.run(buckets::head_bucket_script(base, bucket)) == (if has_bucket(w, base, bucket) {
            End::Done(w.nodes, ())
        } else {
            End::Refused(ErrorView::NoSuchBucket { bucket })
        }),
{
    reveal_with_fuel(World::run, 3);
}

/// Creating a bucket adds an empty directory to the disk, unless something is there
/// already.
pub proof fn create_adds_the_bucket(w: World, base: Seq<char>, bucket: Seq<char>)
    requires
        is_named(w, base, bucket),
    ensures
        w.run(buckets::create_bucket_script(base, bucket)) == (if w.nodes.contains_key(
            bucket_place(base, bucket),
        ) {
            End::Refused(ErrorView::BucketAlreadyExists { bucket })
        } else {
            End::Done(w.nodes.insert(bucket_place(base, bucket), Node::Dir), ())
        }),
{
    lemma_bucket_place(base, bucket);
    reveal_with_fuel(World::run, 4);
    let path = paths::bucket_dir(base, bucket);
    let at = bucket_place(base, bucket);
    let fx = seq![EffectView::CreateDirAll { path }];
    let b = paths::names(base);
    if !w.nodes.contains_key(at) {
        assert(disk::is_clear(w.nodes, at)) by {
            assert forall|q: Seq<Seq<char>>|
                q.is_prefix_of(at) && #[trigger] w.nodes.contains_key(q) implies w.nodes[q] is Dir by {
                lemma_on_the_way(w.nodes, b, bucket, q);
            }
        }
        ground::lemma_bucket_name(bucket);
        assert(places::plain(b));
        assert(places::plain(at)) by {
            if at.contains(".."@) {
                let k = choose|k: int| 0 <= k < at.len() && at[k] == ".."@;
                if k < b.len() {
                    assert(b[k] == ".."@);
                }
            }
        }
        let n = w.nodes.insert(at, Node::Dir);
        assert(disk::with_dirs(w.nodes, at) =~= n) by {
            assert forall|q: Seq<Seq<char>>| q.is_prefix_of(at) implies n.contains_key(q) by {
                lemma_on_the_way(w.nodes, b, bucket, q);
            }
            assert(at.is_prefix_of(at));
        }
        assert(fx.drop_first() =~= Seq::<EffectView>::empty());
        reveal_with_fuel(disk::carried_out, 2);
    }
}

/// A place on the way to a bucket is the bucket or a directory.
proof fn lemma_on_the_way(
    nodes: Map<Seq<Seq<char>>, Node>,
    b: Seq<Seq<char>>,
    bucket: Seq<char>,
    q: Seq<Seq<char>>,
)
    requires
        disk::is_tree(nodes),
        ground::is_dir(nodes, b),
        q.is_prefix_of(b.push(bucket)),
    ensures
        q == b.push(bucket) || ground::is_dir(nodes, q),
{
    let at = b.push(bucket);
    if q.len() == at.len() {
        assert(q =~= at);
    } else if q.len() == b.len() {
        assert(q =~= b);
    } else {
        ground::lemma_above(nodes, b, q.len() as int);
        assert(b.take(q.len() as int) =~= q);
    }
}

/// A bucket that was created is found, and cannot be created once more.
pub proof fn created_buckets_are_there(w: World, base: Seq<char>, bucket: Seq<char>, after: World)
    requires
        is_named(w, base, bucket),
        w.run(buckets::create_bucket_script(base, bucket)) == End::Done(after.nodes, ()),
        after.is_valid(),
    ensures
        after.run(buckets::head_bucket_script(base, bucket)) == End::Done(after.nodes, ()),
        after.run(buckets::create_bucket_script(base, bucket)) == End::<()>::Refused(
            ErrorView::BucketAlreadyExists { bucket },
        ),
{
    create_adds_the_bucket(w, base, bucket);
    lemma_bucket_place(base, bucket);
    assert(paths::names(base) != bucket_place(base, bucket));
    create_adds_the_bucket(after, base, bucket);
    head_finds_buckets(after, base, bucket);
}

/// Deleting a bucket that is there takes it off the disk with all that lies in it,
/// unless it holds objects and is not forced. Deleting one that is not there is
/// refused with `NoSuchBucket`.
pub proof fn delete_removes_the_bucket(w: World, base: Seq<char>, bucket: Seq<char>, force: bool)
    requires
        is_named(w, base, bucket),
    ensures
        w.run(buckets::delete_bucket_script(base, bucket, force)) == (if !has_bucket(
            w,
            base,
            bucket,
        ) {
            End::Refused(ErrorView::NoSuchBucket { bucket })
        } else if !force && buckets::holds_objects(
            (w.trees)(paths::bucket_dir(base, bucket)),
        ) {
            End::Refused(ErrorView::BucketNotEmpty { bucket })
        } else {
            End::Done(disk::without(w.nodes, bucket_place(base, bucket)), ())
        }),
{
    lemma_bucket_place(base, bucket);
    reveal_with_fuel(World::run, 5);
    reveal_with_fuel(disk::carried_out, 2);
    let fx = seq![EffectView::RemoveDirAll { path: paths::bucket_dir(base, bucket) }];
    assert(fx.drop_first() =~= Seq::<EffectView>::empty());
}

/// A bucket that was deleted is gone, with its objects.
pub proof fn deleted_buckets_are_gone(
    w: World,
    base: Seq<char>,
    bucket: Seq<char>,
    force: bool,
    after: World,
    key: Seq<char>,
)
    requires
        is_named(w, base, bucket),
        w.run(buckets::delete_bucket_script(base, bucket, force)) == End::Done(after.nodes, ()),
        after.is_valid(),
        paths::key_fault(key) is None,
    ensures
        after.run(buckets::head_bucket_script(base, bucket)) == End::<()>::Refused(
            ErrorView::NoSuchBucket { bucket },
        ),
        after.run(buckets::delete_bucket_script(base, bucket, force)) == End::<()>::Refused(
            ErrorView::NoSuchBucket { bucket },
        ),
        laws::objects::is_absent(after, base, bucket, key),
{
    delete_removes_the_bucket(w, base, bucket, force);
    lemma_bucket_place(base, bucket);
    ground::lemma_places(base, bucket, key);
    let at = bucket_place(base, bucket);
    let b = paths::names(base);
    assert(!at.is_prefix_of(b));
    assert(at.is_prefix_of(at));
    let body = ground::body_place(base, bucket, key);
    assert(body.subrange(0, at.len() as int) =~= at);
    assert(at.is_prefix_of(body));
    assert(after.has_base(base));
    head_finds_buckets(after, base, bucket);
    delete_removes_the_bucket(after, base, bucket, force);
}

/// A bucket can be deleted without force if and only if there is no file in it, at
/// any depth, that is no sidecar. Directories that objects have left behind do not
/// count.
pub proof fn buckets_are_kept_for_their_objects(w: World, base: Seq<char>, bucket: Seq<char>)
    requires
        is_named(w, base, bucket),
        has_bucket(w, base, bucket),
    ensures
        w.run(buckets::delete_bucket_script(base, bucket, false)) == (if exists|
            rel: Seq<Seq<char>>,
        | #[trigger] keys::is_file_below(w.nodes, bucket_place(base, bucket), rel) {
            End::<()>::Refused(ErrorView::BucketNotEmpty { bucket })
        } else {
            End::Done(disk::without(w.nodes, bucket_place(base, bucket)), ())
        }),
{
    delete_removes_the_bucket(w, base, bucket, false);
    keys::lemma_some_key(w, base, bucket);
}

/// A bucket that holds an object is deleted only by force.
pub proof fn buckets_with_objects_are_kept(
    w: World,
    base: Seq<char>,
    bucket: Seq<char>,
    key: Seq<char>,
    object: ObjectView,
)
    requires
        laws::objects::is_addressed(w, base, bucket, key),
        laws::objects::holds(w, base, bucket, key, object),
        !paths::sidecar_suffix().is_suffix_of(paths::names(key).last()),
    ensures
        w.run(buckets::delete_bucket_script(base, bucket, false)) == End::<()>::Refused(
            ErrorView::BucketNotEmpty { bucket },
        ),
{
    lemma_bucket_place(base, bucket);
    ground::lemma_places(base, bucket, key);
    let at = bucket_place(base, bucket);
    let body = ground::body_place(base, bucket, key);
    assert(paths::names(key).len() > 0) by {
        if paths::names(key).len() == 0 {
            assert(body =~= at);
        }
    }
    assert(keys::is_file_below(w.nodes, at, paths::names(key)));
    buckets_are_kept_for_their_objects(w, base, bucket);
}

/// The directory of the uploads is never that of a bucket.
pub proof fn uploads_are_no_bucket(base: Seq<char>, bucket: Seq<char>)
    requires
        paths::bucket_fault(bucket) is None,
    ensures
        bucket_place(base, bucket) != paths::names(parts::uploads_dir(base)),
{
    ground::lemma_bucket_name(bucket);
    reveal_strlit(".fals3-uploads");
    reveal_strlit(".");
    let home = ".fals3-uploads"@;
    assert(home[0] == '.');
    assert(home.contains('.'));
    assert(!home.contains('/')) by {
        assert forall|i: int| 0 <= i < home.len() implies home[i] != '/' by {}
    }
    assert(home.len() != "."@.len());
    places::lemma_single(home);
    places::lemma_names_join(base, home);
    assert((paths::names(base) + seq![home]).last() == home);
    assert(bucket_place(base, bucket).last() == bucket);
}

/// A place in another bucket is not in this one, nor on the way to it.
proof fn lemma_other_bucket(
    base: Seq<char>,
    bucket: Seq<char>,
    bucket2: Seq<char>,
    ns: Seq<Seq<char>>,
)
    requires
        bucket != bucket2,
        ns.len() > paths::names(base).len(),
        ns[paths::names(base).len() as int] == bucket2,
    ensures
        !bucket_place(base, bucket).is_prefix_of(ns),
        ns != bucket_place(base, bucket),
{
    let at = bucket_place(base, bucket);
    let k = paths::names(base).len() as int;
    assert(at[k] == bucket);
    if at.is_prefix_of(ns) {
        assert(ns.subrange(0, at.len() as int)[k] == ns[k]);
    }
}

/// Creating or deleting a bucket leaves the objects of the other buckets as they
/// are.
pub proof fn other_buckets_are_left_alone(
    w: World,
    base: Seq<char>,
    bucket: Seq<char>,
    force: bool,
    after: World,
    bucket2: Seq<char>,
    key: Seq<char>,
    object: ObjectView,
)
    requires
        is_named(w, base, bucket),
        w.run(buckets::create_bucket_script(base, bucket)) == End::Done(after.nodes, ()) || w.run(
            buckets::delete_bucket_script(base, bucket, force),
        ) == End::Done(after.nodes, ()),
        after.codec == w.codec,
        bucket2 != bucket,
        objects::name_fault(bucket2, key) is None,
    ensures
        has_bucket(after, base, bucket2) == has_bucket(w, base, bucket2),
        laws::objects::holds(after, base, bucket2, key, object) == laws::objects::holds(
            w,
            base,
            bucket2,
            key,
            object,
        ),
{
    create_adds_the_bucket(w, base, bucket);
    delete_removes_the_bucket(w, base, bucket, force);
    lemma_bucket_place(base, bucket2);
    ground::lemma_places(base, bucket2, key);
    let k = paths::names(base).len() as int;
    lemma_other_bucket(base, bucket, bucket2, bucket_place(base, bucket2));
    let body = ground::body_place(base, bucket2, key);
    assert(body[k] == bucket2);
    lemma_other_bucket(base, bucket, bucket2, body);
    if !places::directory_form(key) {
        ground::lemma_sidecar_places(base, bucket2, key);
        let side = ground::sidecar_place(base, bucket2, key);
        assert(side[k] == bucket2);
        lemma_other_bucket(base, bucket, bucket2, side);
    }
}

} // verus!
