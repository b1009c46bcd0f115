//! What holds of copies.

use crate::conditions;
use crate::disk;
use crate::disk::{End, World};
use crate::error::ErrorView;
use crate::laws;
use crate::laws::ground;
use crate::meta;
use crate::meta::MetaView;
use crate::paths;
use crate::store::copying;
use crate::store::copying::{CopyObjectInput, MetadataDirective};
use crate::store::copying::CopyView;
use crate::store::objects;
use crate::store::objects::GetObjectInput;
use crate::store::objects::ObjectView;
use vstd::prelude::*;

verus! {

/// All names of a copy pass, and both buckets are there.
pub open spec fn is_addressed(w: World, base: Seq<char>, i: CopyObjectInput) -> bool {
    &&& laws::objects::is_addressed(w, base, i.src_bucket@, i.src_key@)
    &&& laws::objects::is_addressed(w, base, i.dst_bucket@, i.dst_key@)
}

/// Copying an object that the disk holds adds an object with the same body at the
/// destination, where the conditions on the source allow it and the disk has room.
pub proof fn copy_adds_the_copy(w: World, base: Seq<char>, i: CopyObjectInput, source: ObjectView)
    requires
        is_addressed(w, base, i),
        laws::objects::holds(w, base, i.src_bucket@, i.src_key@, source),
    ensures
        w.run(copying::copy_object_script(base, i)) == (match conditions::read_fault(
            source.meta,
            i.source_conditions@,
        ) {
            Some(e) => End::Refused(e),
            None => if ground::has_room(w.nodes, base, i.dst_bucket@, i.dst_key@) {
                End::Done(
                    ground::with_object(
                        w.codec,
                        w.nodes,
                        base,
                        i.dst_bucket@,
                        i.dst_key@,
                        source.body,
                        copying::copy_meta(i, source.meta, source.body, w.now),
                    ),
                    CopyView { etag: meta::etag_of(source.body), last_modified: w.now },
                )
            } else {
                End::Broken
            },
        }),
{
    ground::lemma_stays_under(w, base, i.src_bucket@, i.src_key@);
    ground::lemma_stays_under(w, base, i.dst_bucket@, i.dst_key@);
    ground::lemma_object_written(
        w.codec,
        w.nodes,
        base,
        i.dst_bucket@,
        i.dst_key@,
        source.body,
        copying::copy_meta(i, source.meta, source.body, w.now),
    );
    reveal_with_fuel(World::run, 13);
}

/// Copying what is not there is refused with `NoSuchKey`.
pub proof fn absent_sources_are_refused(w: World, base: Seq<char>, i: CopyObjectInput)
    requires
        is_addressed(w, base, i),
        laws::objects::is_absent(w, base, i.src_bucket@, i.src_key@),
    ensures
        w.run(copying::copy_object_script(base, i)) == End::<CopyView>::Refused(
            ErrorView::NoSuchKey { bucket: i.src_bucket@, key: i.src_key@ },
        ),
{
    ground::lemma_stays_under(w, base, i.src_bucket@, i.src_key@);
    reveal_with_fuel(World::run, 7);
}

/// A copy is refused for its names, in the order source bucket, destination
/// bucket, source key, destination key, and for a bucket that is not there.
pub proof fn bad_addresses_are_refused(w: World, base: Seq<char>, i: CopyObjectInput)
    ensures
        copying::copy_fault(i) is Some ==> w.run(copying::copy_object_script(base, i)) == End::<
            CopyView,
        >::Refused(copying::copy_fault(i)->0),
        copying::copy_fault(i) is None && !disk::dir_at(
            w.nodes,
            paths::bucket_dir(base, i.src_bucket@),
        ) ==> w.run(copying::copy_object_script(base, i)) == End::<CopyView>::Refused(
            ErrorView::NoSuchBucket { bucket: i.src_bucket@ },
        ),
        copying::copy_fault(i) is None && disk::dir_at(
            w.nodes,
            paths::bucket_dir(base, i.src_bucket@),
        ) && !disk::dir_at(w.nodes, paths::bucket_dir(base, i.dst_bucket@)) ==> w.run(
            copying::copy_object_script(base, i),
        ) == End::<CopyView>::Refused(ErrorView::NoSuchBucket { bucket: i.dst_bucket@ }),
{
    reveal_with_fuel(World::run, 4);
}

/// Getting the copy gives the body of the source, and the metadata that the copy
/// was made with. Another source stays as it was.
pub proof fn get_gives_the_copy(
    w: World,
    base: Seq<char>,
    i: CopyObjectInput,
    source: ObjectView,
    out: CopyView,
    after: World,
    g: GetObjectInput,
)
    requires
        is_addressed(w, base, i),
        laws::objects::holds(w, base, i.src_bucket@, i.src_key@, source),
        w.run(copying::copy_object_script(base, i)) == End::Done(after.nodes, out),
        after.is_valid(),
        after.codec == w.codec,
        g.bucket@ == i.dst_bucket@,
        g.key@ == i.dst_key@,
        objects::range_fits(g.range, source.body.len()),
    ensures
        ({
            let m = copying::copy_meta(i, source.meta, source.body, w.now);
            &&& out.etag == m.etag && out.last_modified == m.last_modified
            &&& after.run(objects::get_object_script(base, g)) == (match conditions::read_fault(
                m,
                g.conditions@,
            ) {
                Some(e) => End::Refused(e),
                None => End::Done(
                    after.nodes,
                    ObjectView { body: objects::ranged(source.body, g.range), meta: m },
                ),
            })
        }),
        laws::objects::are_apart(
            base,
            i.dst_bucket@,
            i.dst_key@,
            i.src_bucket@,
            i.src_key@,
        ) ==> laws::objects::holds(after, base, i.src_bucket@, i.src_key@, source),
{
    copy_adds_the_copy(w, base, i, source);
    let m = copying::copy_meta(i, source.meta, source.body, w.now);
    let object = ObjectView { body: source.body, meta: m };
    if let Some(MetadataDirective::Replace { content_type, metadata }) = i.metadata_directive {
        meta::lemma_finite_metadata(metadata);
    }
    laws::objects::lemma_added(w, after, base, i.dst_bucket@, i.dst_key@, object);
    laws::objects::get_gives_what_is_held(after, base, g, object);
}

/// Without a directive a copy keeps the metadata of its source that is not about
/// the body itself.
pub proof fn copies_keep_metadata(i: CopyObjectInput, src: MetaView, body: Seq<u8>, now: u64)
    requires
        i.metadata_directive is None,
    ensures
        ({
            let m = copying::copy_meta(i, src, body, now);
            &&& m.content_type == src.content_type
            &&& m.user_metadata == src.user_metadata
            &&& m.content_encoding == src.content_encoding
        }),
{
}

} // verus!
