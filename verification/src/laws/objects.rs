//! What holds of objects: a read gives back what was written, a deleted object is
//! gone, and the conditions decide as they should.

use crate::conditions;
use crate::disk;
use crate::disk::{End, Node, World};
use crate::error::ErrorView;
use crate::exchange::{EffectView, QueryView};
use crate::laws::ground;
use crate::meta;
use crate::meta::MetaView;
use crate::paths;
use crate::places;
use crate::store::objects;
use crate::store::objects::{GetObjectInput, HeadObjectInput, PutObjectInput};
use crate::store::objects::ObjectView;
use vstd::prelude::*;

verus! {

/// The names of an object pass, and its bucket is there.
pub open spec fn is_addressed(w: World, base: Seq<char>, bucket: Seq<char>, key: Seq<char>) -> bool {
    &&& w.is_valid()
    &&& w.has_base(base)
    &&& objects::name_fault(bucket, key) is None
    &&& disk::dir_at(w.nodes, paths::bucket_dir(base, bucket))
}

/// The disk holds the object with this body and this metadata.
pub open spec fn holds(
    w: World,
    base: Seq<char>,
    bucket: Seq<char>,
    key: Seq<char>,
    object: ObjectView,
) -> bool {
    &&& disk::file_at(w.nodes, paths::object_file(base, bucket, key)) == Some(object.body)
    &&& disk::file_at(w.nodes, paths::meta_file(base, bucket, key)) is Some
    &&& (w.codec.meta_in)(
        disk::file_at(w.nodes, paths::meta_file(base, bucket, key))->0,
    ) == Some(object.meta)
}

/// No file is at the place of the object.
pub open spec fn is_absent(w: World, base: Seq<char>, bucket: Seq<char>, key: Seq<char>) -> bool {
    disk::file_at(w.nodes, paths::object_file(base, bucket, key)) is None
}

// ---- reading ----

/// Getting an object that the disk holds gives the object, as far as the range
/// goes, unless the conditions forbid it. Nothing changes.
pub proof fn get_gives_what_is_held(
    w: World,
    base: Seq<char>,
    i: GetObjectInput,
    object: ObjectView,
)
    requires
        is_addressed(w, base, i.bucket@, i.key@),
        holds(w, base, i.bucket@, i.key@, object),
        objects::range_fits(i.range, object.body.len()),
    ensures
        w.run(objects::get_object_script(base, i)) == (match conditions::read_fault(
            object.meta,
            i.conditions@,
        ) {
            Some(e) => End::Refused(e),
            None => End::Done(
                w.nodes,
                ObjectView { body: objects::ranged(object.body, i.range), meta: object.meta },
            ),
        }),
{
    ground::lemma_stays_under(w, base, i.bucket@, i.key@);
    reveal_with_fuel(World::run, 8);
}

/// The metadata of an object is what getting the object gives beside the body.
pub proof fn head_gives_what_is_held(
    w: World,
    base: Seq<char>,
    i: HeadObjectInput,
    object: ObjectView,
)
    requires
        is_addressed(w, base, i.bucket@, i.key@),
        holds(w, base, i.bucket@, i.key@, object),
    ensures
        w.run(objects::head_object_script(base, i)) == (match conditions::read_fault(
            object.meta,
            i.conditions@,
        ) {
            Some(e) => End::Refused(e),
            None => End::Done(w.nodes, object.meta),
        }),
{
    ground::lemma_stays_under(w, base, i.bucket@, i.key@);
    reveal_with_fuel(World::run, 7);
}

/// Getting an object and getting its metadata are refused with `NoSuchKey` if and only
/// if no file is there, whatever the range and the conditions.
pub proof fn absent_objects_are_refused(
    w: World,
    base: Seq<char>,
    g: GetObjectInput,
    h: HeadObjectInput,
)
    requires
        is_addressed(w, base, g.bucket@, g.key@),
        h.bucket@ == g.bucket@,
        h.key@ == g.key@,
    ensures
        is_absent(w, base, g.bucket@, g.key@) <==> w.run(objects::get_object_script(base, g))
            == End::<ObjectView>::Refused(
            ErrorView::NoSuchKey { bucket: g.bucket@, key: g.key@ },
        ),
        is_absent(w, base, g.bucket@, g.key@) <==> w.run(objects::head_object_script(base, h))
            == End::<MetaView>::Refused(ErrorView::NoSuchKey { bucket: g.bucket@, key: g.key@ }),
{
    ground::lemma_stays_under(w, base, g.bucket@, g.key@);
    reveal_with_fuel(World::run, 8);
}

// ---- writing ----

/// Why the conditions forbid putting an object, if so. Only where there are
/// conditions does it matter what is there.
pub open spec fn put_refusal(w: World, base: Seq<char>, i: PutObjectInput) -> Option<ErrorView> {
    let path = paths::meta_file(base, i.bucket@, i.key@);
    if i.conditions@.is_empty() {
        None
    } else if is_absent(w, base, i.bucket@, i.key@) {
        conditions::write_fault(None, i.conditions@)
    } else {
        match disk::file_at(w.nodes, path) {
            Some(bytes) => match (w.codec.meta_in)(bytes) {
                Some(m) => conditions::write_fault(Some(m), i.conditions@),
                None => Some((w.fault)(QueryView::ReadMeta { path })),
            },
            None => Some((w.fault)(QueryView::ReadMeta { path })),
        }
    }
}

/// Putting an object succeeds where the conditions allow it and the disk has room,
/// gives the ETag of the body, and adds the object to the disk.
pub proof fn put_adds_the_object(w: World, base: Seq<char>, i: PutObjectInput)
    requires
        is_addressed(w, base, i.bucket@, i.key@),
    ensures
        w.run(objects::put_object_script(base, i)) == (match put_refusal(w, base, i) {
            Some(e) => End::Refused(e),
            None => if ground::has_room(w.nodes, base, i.bucket@, i.key@) {
                End::Done(
                    ground::with_object(
                        w.codec,
                        w.nodes,
                        base,
                        i.bucket@,
                        i.key@,
                        i.body@,
                        objects::put_meta(i, w.now),
                    ),
                    meta::etag_of(i.body@),
                )
            } else {
                End::Broken
            },
        }),
{
    ground::lemma_stays_under(w, base, i.bucket@, i.key@);
    ground::lemma_object_written(
        w.codec,
        w.nodes,
        base,
        i.bucket@,
        i.key@,
        i.body@,
        objects::put_meta(i, w.now),
    );
    reveal_with_fuel(World::run, 8);
}

/// An operation on an object whose names do not pass is refused for them, and one
/// in a bucket that is not there is refused with `NoSuchBucket`.
pub proof fn bad_addresses_are_refused(
    w: World,
    base: Seq<char>,
    p: PutObjectInput,
    g: GetObjectInput,
    h: HeadObjectInput,
)
    requires
        p.bucket@ == g.bucket@ && g.bucket@ == h.bucket@,
        p.key@ == g.key@ && g.key@ == h.key@,
    ensures
        ({
            let refusal = match objects::name_fault(p.bucket@, p.key@) {
                Some(e) => Some(e),
                None => if disk::dir_at(w.nodes, paths::bucket_dir(base, p.bucket@)) {
                    None
                } else {
                    Some(ErrorView::NoSuchBucket { bucket: p.bucket@ })
                },
            };
            refusal is Some ==> {
                &&& w.run(objects::put_object_script(base, p)) == End::<Seq<char>>::Refused(
                    refusal->0,
                )
                &&& w.run(objects::get_object_script(base, g)) == End::<ObjectView>::Refused(
                    refusal->0,
                )
                &&& w.run(objects::head_object_script(base, h)) == End::<MetaView>::Refused(
                    refusal->0,
                )
                &&& w.run(objects::delete_object_script(base, p.bucket@, p.key@)) == End::<
                    (),
                >::Refused(refusal->0)
            }
        }),
{
    reveal_with_fuel(World::run, 3);
}

/// An object that was added is held, and its bucket is still there.
pub proof fn lemma_added(
    w: World,
    after: World,
    base: Seq<char>,
    bucket: Seq<char>,
    key: Seq<char>,
    object: ObjectView,
)
    requires
        is_addressed(w, base, bucket, key),
        ground::has_room(w.nodes, base, bucket, key),
        object.meta.user_metadata.dom().finite(),
        after.is_valid(),
        after.codec == w.codec,
        after.nodes == ground::with_object(
            w.codec,
            w.nodes,
            base,
            bucket,
            key,
            object.body,
            object.meta,
        ),
    ensures
        is_addressed(after, base, bucket, key),
        holds(after, base, bucket, key, object),
{
    ground::lemma_places(base, bucket, key);
    ground::lemma_sidecar_places(base, bucket, key);
    let at = ground::body_place(base, bucket, key);
    let b = paths::names(base);
    assert(b.len() < at.len());
    assert(b.push(bucket).len() < at.len());
    assert(ground::sidecar_place(base, bucket, key).len() == at.len());
    assert(ground::temporary_place(base, bucket, key).len() == at.len());
}

/// What is put is what getting it gives: the body as far as the range goes, and the
/// metadata with the ETag that putting gave.
pub proof fn get_gives_what_was_put(
    w: World,
    base: Seq<char>,
    p: PutObjectInput,
    etag: Seq<char>,
    after: World,
    g: GetObjectInput,
)
    requires
        is_addressed(w, base, p.bucket@, p.key@),
        w.run(objects::put_object_script(base, p)) == End::Done(after.nodes, etag),
        after.is_valid(),
        after.codec == w.codec,
        g.bucket@ == p.bucket@,
        g.key@ == p.key@,
        objects::range_fits(g.range, p.body@.len()),
    ensures
        objects::put_meta(p, w.now).etag == etag,
        after.run(objects::get_object_script(base, g)) == (match conditions::read_fault(
            objects::put_meta(p, w.now),
            g.conditions@,
        ) {
            Some(e) => End::Refused(e),
            None => End::Done(
                after.nodes,
                ObjectView {
                    body: objects::ranged(p.body@, g.range),
                    meta: objects::put_meta(p, w.now),
                },
            ),
        }),
{
    put_adds_the_object(w, base, p);
    let object = ObjectView { body: p.body@, meta: objects::put_meta(p, w.now) };
    meta::lemma_finite_metadata(p.metadata);
    lemma_added(w, after, base, p.bucket@, p.key@, object);
    get_gives_what_is_held(after, base, g, object);
}

/// The metadata of what was put is that which it was put with.
pub proof fn head_gives_what_was_put(
    w: World,
    base: Seq<char>,
    p: PutObjectInput,
    etag: Seq<char>,
    after: World,
    h: HeadObjectInput,
)
    requires
        is_addressed(w, base, p.bucket@, p.key@),
        w.run(objects::put_object_script(base, p)) == End::Done(after.nodes, etag),
        after.is_valid(),
        after.codec == w.codec,
        h.bucket@ == p.bucket@,
        h.key@ == p.key@,
    ensures
        after.run(objects::head_object_script(base, h)) == (match conditions::read_fault(
            objects::put_meta(p, w.now),
            h.conditions@,
        ) {
            Some(e) => End::Refused(e),
            None => End::Done(after.nodes, objects::put_meta(p, w.now)),
        }),
{
    put_adds_the_object(w, base, p);
    let object = ObjectView { body: p.body@, meta: objects::put_meta(p, w.now) };
    meta::lemma_finite_metadata(p.metadata);
    lemma_added(w, after, base, p.bucket@, p.key@, object);
    head_gives_what_is_held(after, base, h, object);
}

// ---- other objects ----

/// The files of the second object are not among those that writing the first one
/// touches.
pub open spec fn are_apart(
    base: Seq<char>,
    bucket: Seq<char>,
    key: Seq<char>,
    bucket2: Seq<char>,
    key2: Seq<char>,
) -> bool {
    &&& !touches(base, bucket, key, ground::body_place(base, bucket2, key2))
    &&& !touches(base, bucket, key, ground::sidecar_place(base, bucket2, key2))
}

/// Writing an object touches the place `ns`.
pub open spec fn touches(
    base: Seq<char>,
    bucket: Seq<char>,
    key: Seq<char>,
    ns: Seq<Seq<char>>,
) -> bool {
    ||| ns == ground::body_place(base, bucket, key)
    ||| ns == ground::sidecar_place(base, bucket, key)
    ||| ns == ground::temporary_place(base, bucket, key)
}

/// The key names a file, and that file is no sidecar nor one on its way to be one.
pub open spec fn is_ordinary(key: Seq<char>) -> bool {
    &&& !places::directory_form(key)
    &&& !paths::sidecar_suffix().is_suffix_of(paths::names(key).last())
    &&& !ground::temporary_suffix().is_suffix_of(paths::names(key).last())
}

/// Ordinary keys with different names are apart, and so are objects of different
/// buckets.
pub proof fn different_objects_are_apart(
    base: Seq<char>,
    bucket: Seq<char>,
    key: Seq<char>,
    bucket2: Seq<char>,
    key2: Seq<char>,
)
    requires
        paths::is_absolute(base),
        objects::name_fault(bucket, key) is None,
        objects::name_fault(bucket2, key2) is None,
        !places::directory_form(key),
        !places::directory_form(key2),
        bucket != bucket2 || (paths::names(key) != paths::names(key2) && is_ordinary(key)
            && is_ordinary(key2)),
    ensures
        are_apart(base, bucket, key, bucket2, key2),
{
    ground::lemma_places(base, bucket, key);
    ground::lemma_places(base, bucket2, key2);
    ground::lemma_sidecar_places(base, bucket, key);
    ground::lemma_sidecar_places(base, bucket2, key2);
    let b = paths::names(base);
    let at = ground::body_place(base, bucket, key);
    let at2 = ground::body_place(base, bucket2, key2);
    let side = ground::sidecar_place(base, bucket, key);
    let side2 = ground::sidecar_place(base, bucket2, key2);
    let temp = ground::temporary_place(base, bucket, key);
    let n = b.len() as int;
    assert(at[n] == bucket && at2[n] == bucket2);
    if bucket != bucket2 {
        assert(at.len() >= n + 2 && at2.len() >= n + 2);
        assert(side[n] == bucket && temp[n] == bucket && side2[n] == bucket2);
    } else {
        let name = paths::names(key).last();
        let name2 = paths::names(key2).last();
        let js = paths::sidecar_suffix();
        let tmp = ground::temporary_suffix();
        assert(at.skip(n + 1) =~= paths::names(key));
        assert(at2.skip(n + 1) =~= paths::names(key2));
        assert(at != at2);
        assert(side.last() == name + js && side2.last() == name2 + js && temp.last() == name + tmp);
        assert(js.is_suffix_of(name + js)) by {
            assert((name + js).subrange(name.len() as int, (name + js).len() as int) =~= js);
        }
        assert(js.is_suffix_of(name2 + js)) by {
            assert((name2 + js).subrange(name2.len() as int, (name2 + js).len() as int) =~= js);
        }
        assert(tmp.is_suffix_of(name + tmp)) by {
            assert((name + tmp).subrange(name.len() as int, (name + tmp).len() as int) =~= tmp);
        }
        if side == side2 {
            assert((name + js).take(name.len() as int) =~= name);
            assert((name2 + js).take(name2.len() as int) =~= name2);
            assert(at =~= at.drop_last().push(name));
            assert(at2 =~= at2.drop_last().push(name2));
            assert(side.drop_last() =~= at.drop_last());
            assert(side2.drop_last() =~= at2.drop_last());
        }
        if side2 == temp {
            reveal_strlit(".fals3-meta.json");
            reveal_strlit(".fals3-meta.tmp");
            assert((name2 + js).last() == 'n');
            assert((name + tmp).last() == 'p');
        }
    }
}

/// All directories of one disk are directories of the other.
pub open spec fn keeps_directories(
    before: Map<Seq<Seq<char>>, Node>,
    after: Map<Seq<Seq<char>>, Node>,
) -> bool {
    forall|ns: Seq<Seq<char>>| #[trigger] ground::is_dir(before, ns) ==> ground::is_dir(after, ns)
}

/// Putting an object leaves every other object as it is, and every directory, so
/// that all buckets stay.
pub proof fn put_leaves_other_objects(
    w: World,
    base: Seq<char>,
    p: PutObjectInput,
    etag: Seq<char>,
    after: World,
    bucket: Seq<char>,
    key: Seq<char>,
    object: ObjectView,
)
    requires
        is_addressed(w, base, p.bucket@, p.key@),
        w.run(objects::put_object_script(base, p)) == End::Done(after.nodes, etag),
        after.codec == w.codec,
        are_apart(base, p.bucket@, p.key@, bucket, key),
    ensures
        holds(after, base, bucket, key, object) == holds(w, base, bucket, key, object),
        keeps_directories(w.nodes, after.nodes),
{
    put_adds_the_object(w, base, p);
}

// ---- deleting ----

/// The disk without the file at `p`, if there is one.
pub open spec fn without_file(nodes: Map<Seq<Seq<char>>, Node>, p: Seq<char>) -> Map<
    Seq<Seq<char>>,
    Node,
> {
    if disk::file_at(nodes, p) is Some {
        nodes.remove(paths::names(p))
    } else {
        nodes
    }
}

/// Deleting an object succeeds. It takes the body and the sidecar off the disk, as
/// far as they are there, and nothing else.
pub proof fn delete_removes_the_object(
    w: World,
    base: Seq<char>,
    bucket: Seq<char>,
    key: Seq<char>,
)
    requires
        is_addressed(w, base, bucket, key),
    ensures
        w.run(objects::delete_object_script(base, bucket, key)) == End::Done(
            without_file(
                without_file(w.nodes, paths::object_file(base, bucket, key)),
                paths::meta_file(base, bucket, key),
            ),
            (),
        ),
{
    ground::lemma_stays_under(w, base, bucket, key);
    let p = paths::object_file(base, bucket, key);
    let q = paths::meta_file(base, bucket, key);
    lemma_files_differ(base, bucket, key);
    let body = disk::file_at(w.nodes, p) is Some;
    let sidecar = disk::file_at(w.nodes, q) is Some;
    let none = Seq::<EffectView>::empty();
    let fx = objects::object_removal(base, bucket, key, body, sidecar);
    reveal_with_fuel(World::run, 7);
    reveal_with_fuel(disk::carried_out, 3);
    if body && sidecar {
        assert(fx.drop_first() =~= objects::removal_if(true, q));
        assert(fx.drop_first().drop_first() =~= none);
    } else if body {
        assert(fx.drop_first() =~= none);
    } else if sidecar {
        assert(fx =~= objects::removal_if(true, q));
        assert(fx.drop_first() =~= none);
    } else {
        assert(fx =~= none);
    }
}

/// The body and the sidecar of an object are not one file.
proof fn lemma_files_differ(base: Seq<char>, bucket: Seq<char>, key: Seq<char>)
    requires
        paths::is_absolute(base),
        objects::name_fault(bucket, key) is None,
    ensures
        places::directory_form(paths::object_file(base, bucket, key)) || ground::body_place(
            base,
            bucket,
            key,
        ) != ground::sidecar_place(base, bucket, key),
{
    ground::lemma_places(base, bucket, key);
    if !places::directory_form(key) {
        ground::lemma_sidecar_places(base, bucket, key);
    }
}

/// An object that was deleted is gone: getting it gives `NoSuchKey`, and deleting
/// it once more succeeds and changes nothing.
pub proof fn deleted_objects_are_gone(
    w: World,
    base: Seq<char>,
    after: World,
    g: GetObjectInput,
)
    requires
        is_addressed(w, base, g.bucket@, g.key@),
        w.run(objects::delete_object_script(base, g.bucket@, g.key@)) == End::Done(
            after.nodes,
            (),
        ),
        after.is_valid(),
    ensures
        after.run(objects::get_object_script(base, g)) == End::<ObjectView>::Refused(
            ErrorView::NoSuchKey { bucket: g.bucket@, key: g.key@ },
        ),
        after.run(objects::delete_object_script(base, g.bucket@, g.key@)) == End::Done(
            after.nodes,
            (),
        ),
{
    let (bucket, key) = (g.bucket@, g.key@);
    delete_removes_the_object(w, base, bucket, key);
    assert(is_addressed(after, base, bucket, key));
    delete_removes_the_object(after, base, bucket, key);
    ground::lemma_stays_under(after, base, bucket, key);
    reveal_with_fuel(World::run, 6);
}

/// Deleting what is not there succeeds and changes nothing: neither where nothing is
/// at the place of the object nor where a directory is.
pub proof fn deleting_nothing_is_no_error(
    w: World,
    base: Seq<char>,
    bucket: Seq<char>,
    key: Seq<char>,
)
    requires
        is_addressed(w, base, bucket, key),
        is_absent(w, base, bucket, key),
        disk::file_at(w.nodes, paths::meta_file(base, bucket, key)) is None,
    ensures
        w.run(objects::delete_object_script(base, bucket, key)) == End::Done(w.nodes, ()),
{
    delete_removes_the_object(w, base, bucket, key);
}

/// Deleting an object leaves every other object as it is, and every directory.
pub proof fn delete_leaves_other_objects(
    w: World,
    base: Seq<char>,
    bucket: Seq<char>,
    key: Seq<char>,
    after: World,
    bucket2: Seq<char>,
    key2: Seq<char>,
    object: ObjectView,
)
    requires
        is_addressed(w, base, bucket, key),
        w.run(objects::delete_object_script(base, bucket, key)) == End::Done(after.nodes, ()),
        after.codec == w.codec,
        are_apart(base, bucket, key, bucket2, key2),
    ensures
        holds(after, base, bucket2, key2, object) == holds(w, base, bucket2, key2, object),
        keeps_directories(w.nodes, after.nodes),
{
    delete_removes_the_object(w, base, bucket, key);
}

} // verus!
