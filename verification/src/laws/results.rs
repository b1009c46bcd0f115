//! What the operations on objects give, in terms of what they are given.

use crate::conditions;
use crate::conditions::ConditionsView;
use crate::digits;
use crate::disk::{End, World};
use crate::error::ErrorView;
use crate::exchange::QueryView;
use crate::laws;
use crate::laws::etags;
use crate::laws::ground;
use crate::meta;
use crate::meta::MetaView;
use crate::paths;
use crate::store::copying;
use crate::store::copying::{CopyObjectInput, MetadataDirective};
use crate::store::copying::CopyView;
use crate::store::multipart;
use crate::store::multipart::CompleteMultipartUploadInput;
use crate::store::multipart::CompletedView;
use crate::store::objects;
use crate::store::objects::{GetObjectInput, HeadObjectInput, PutObjectInput};
use crate::store::objects::ObjectView;
use crate::upload::UploadView;
use vstd::prelude::*;

verus! {

// ---- conditions ----

/// None of the four conditions is set.
pub open spec fn sets_nothing(c: ConditionsView) -> bool {
    &&& c.if_match is None
    &&& c.if_none_match is None
    &&& c.if_modified_since is None
    &&& c.if_unmodified_since is None
}

/// The ETag `given` in a condition means an object with the ETag `etag`: space and quotes
/// taken off, it is `*`, or the two are the same text.
pub open spec fn means(given: Seq<char>, etag: Seq<char>) -> bool {
    etags::is_stripped(given, "*"@) || exists|t: Seq<char>| #[trigger]
        etags::is_stripped(given, t) && etags::is_stripped(etag, t)
}

/// `if_match` or `if_unmodified_since` fails for an object.
pub open spec fn is_lost(m: MetaView, c: ConditionsView) -> bool {
    ||| c.if_match is Some && !means(c.if_match->0, m.etag)
    ||| c.if_unmodified_since is Some && m.last_modified > c.if_unmodified_since->0
}

/// `if_none_match` or `if_modified_since` fails for an object.
pub open spec fn is_known(m: MetaView, c: ConditionsView) -> bool {
    ||| c.if_none_match is Some && means(c.if_none_match->0, m.etag)
    ||| c.if_modified_since is Some && m.last_modified <= c.if_modified_since->0
}

proof fn lemma_means(m: MetaView, c: ConditionsView)
    ensures
        conditions::read_fault(m, c) == (if is_lost(m, c) {
            Some(ErrorView::PreconditionFailed)
        } else if is_known(m, c) {
            Some(ErrorView::NotModified)
        } else {
            None
        }),
        c.if_match is Some ==> conditions::matches_etag(c.if_match->0, m.etag) == means(
            c.if_match->0,
            m.etag,
        ),
        c.if_none_match is Some ==> conditions::matches_etag(c.if_none_match->0, m.etag) == means(
            c.if_none_match->0,
            m.etag,
        ),
{
    if c.if_match is Some {
        etags::matching_etags_are_the_same(c.if_match->0, m.etag);
    }
    if c.if_none_match is Some {
        etags::matching_etags_are_the_same(c.if_none_match->0, m.etag);
    }
}

/// The range can be cut out of a body of this length: it does not begin behind the body,
/// nor more than one place behind its own end.
pub open spec fn is_cuttable(range: Option<(u64, u64)>, len: nat) -> bool {
    match range {
        Some((start, end)) => start <= len && start <= end + 1,
        None => true,
    }
}

/// Getting an object, or its metadata, is refused with `PreconditionFailed` if and only if
/// the object has another ETag than `if_match` asks for or was changed after
/// `if_unmodified_since`; if not, with `NotModified` if and only if it has the ETag of
/// `if_none_match` or was not changed after `if_modified_since`; and given otherwise.
pub proof fn reads_obey_their_conditions(
    w: World,
    base: Seq<char>,
    g: GetObjectInput,
    h: HeadObjectInput,
    object: ObjectView,
)
    requires
        laws::objects::is_addressed(w, base, g.bucket@, g.key@),
        laws::objects::holds(w, base, g.bucket@, g.key@, object),
        h.bucket@ == g.bucket@,
        h.key@ == g.key@,
        h.conditions@ == g.conditions@,
        is_cuttable(g.range, object.body.len()),
    ensures
        ({
            let got = w.run(objects::get_object_script(base, g));
            let head = w.run(objects::head_object_script(base, h));
            if is_lost(object.meta, g.conditions@) {
                &&& got == End::<ObjectView>::Refused(ErrorView::PreconditionFailed)
                &&& head == End::<MetaView>::Refused(ErrorView::PreconditionFailed)
            } else if is_known(object.meta, g.conditions@) {
                &&& got == End::<ObjectView>::Refused(ErrorView::NotModified)
                &&& head == End::<MetaView>::Refused(ErrorView::NotModified)
            } else {
                &&& got is Done
                &&& head == End::Done(w.nodes, object.meta)
            }
        }),
{
    lemma_means(object.meta, g.conditions@);
    laws::objects::get_gives_what_is_held(w, base, g, object);
    laws::objects::head_gives_what_is_held(w, base, h, object);
}

/// A copy is made under the conditions on its source as the source would be read.
pub proof fn copies_obey_their_conditions(
    w: World,
    base: Seq<char>,
    i: CopyObjectInput,
    source: ObjectView,
)
    requires
        laws::copies::is_addressed(w, base, i),
        laws::objects::holds(w, base, i.src_bucket@, i.src_key@, source),
    ensures
        ({
            let end = w.run(copying::copy_object_script(base, i));
            if is_lost(source.meta, i.source_conditions@) {
                end == End::<CopyView>::Refused(ErrorView::PreconditionFailed)
            } else if is_known(source.meta, i.source_conditions@) {
                end == End::<CopyView>::Refused(ErrorView::NotModified)
            } else if ground::has_room(w.nodes, base, i.dst_bucket@, i.dst_key@) {
                end is Done
            } else {
                end is Broken
            }
        }),
{
    lemma_means(source.meta, i.source_conditions@);
    laws::copies::copy_adds_the_copy(w, base, i, source);
}

/// Over an object that the disk holds, a put under conditions is refused with
/// `PreconditionFailed` if and only if the object has the ETag of `if_none_match`, has
/// another one than `if_match` asks for, or was changed after `if_unmodified_since`. Where
/// nothing is there, if and only if `if_match` is set. Otherwise it does what a put without
/// conditions does, which succeeds where the disk has room.
pub proof fn puts_obey_their_conditions(
    w: World,
    base: Seq<char>,
    p: PutObjectInput,
    plain: PutObjectInput,
    object: ObjectView,
)
    requires
        laws::objects::is_addressed(w, base, p.bucket@, p.key@),
        plain == (PutObjectInput { conditions: plain.conditions, ..p }),
        sets_nothing(plain.conditions@),
    ensures
        ({
            let (m, c) = (object.meta, p.conditions@);
            let end = w.run(objects::put_object_script(base, p));
            let free = w.run(objects::put_object_script(base, plain));
            &&& laws::objects::holds(w, base, p.bucket@, p.key@, object) ==> end == (
            if is_lost(m, c) || (c.if_none_match is Some && means(c.if_none_match->0, m.etag)) {
                End::Refused(ErrorView::PreconditionFailed)
            } else {
                free
            })
            &&& laws::objects::is_absent(w, base, p.bucket@, p.key@) ==> end == (
            if c.if_match is Some {
                End::Refused(ErrorView::PreconditionFailed)
            } else {
                free
            })
            &&& free is Done <==> ground::has_room(w.nodes, base, p.bucket@, p.key@)
        }),
{
    lemma_means(object.meta, p.conditions@);
    laws::objects::put_adds_the_object(w, base, p);
    laws::objects::put_adds_the_object(w, base, plain);
}

/// Where an object has the ETag `y` in quotes, a put under `if_match` with another ETag
/// `x`, in quotes or not, is refused with `PreconditionFailed`, whatever else is asked for,
/// and so is a get. With `y` itself or `*` neither is refused on that account.
pub proof fn other_etags_are_refused(
    w: World,
    base: Seq<char>,
    p: PutObjectInput,
    plain: PutObjectInput,
    g: GetObjectInput,
    object: ObjectView,
    x: Seq<char>,
    x_quoted: bool,
    y: Seq<char>,
)
    requires
        laws::objects::is_addressed(w, base, p.bucket@, p.key@),
        laws::objects::holds(w, base, p.bucket@, p.key@, object),
        plain == (PutObjectInput { conditions: plain.conditions, ..p }),
        sets_nothing(plain.conditions@),
        g.bucket@ == p.bucket@,
        g.key@ == p.key@,
        is_cuttable(g.range, object.body.len()),
        etags::is_visible(x),
        etags::is_visible(y),
        object.meta.etag == seq!['"'] + y + seq!['"'],
        p.conditions@.if_match == Some(etags::dressed(x, x_quoted)),
        g.conditions@.if_match == Some(etags::dressed(x, x_quoted)),
    ensures
        x != y && x != "*"@ ==> {
            &&& w.run(objects::put_object_script(base, p)) == End::<Seq<char>>::Refused(
                ErrorView::PreconditionFailed,
            )
            &&& w.run(objects::get_object_script(base, g)) == End::<ObjectView>::Refused(
                ErrorView::PreconditionFailed,
            )
        },
        (x == y || x == "*"@) && p.conditions@.if_none_match is None
            && p.conditions@.if_unmodified_since is None ==> w.run(
            objects::put_object_script(base, p),
        ) == w.run(objects::put_object_script(base, plain)),
        (x == y || x == "*"@) && g.conditions@.if_none_match is None
            && g.conditions@.if_modified_since is None && g.conditions@.if_unmodified_since is None
            ==> w.run(objects::get_object_script(base, g)) is Done,
{
    etags::plain_etags_match_when_equal(x, x_quoted, y, true);
    laws::objects::put_adds_the_object(w, base, p);
    laws::objects::put_adds_the_object(w, base, plain);
    laws::objects::get_gives_what_is_held(w, base, g, object);
}

/// Where an object has the ETag `y` in quotes, a get under `if_none_match` with `y`, in
/// quotes or not, or with `*` is refused with `NotModified`, and a put with
/// `PreconditionFailed`. With another ETag neither is refused on that account.
pub proof fn known_etags_are_refused(
    w: World,
    base: Seq<char>,
    p: PutObjectInput,
    plain: PutObjectInput,
    g: GetObjectInput,
    object: ObjectView,
    x: Seq<char>,
    x_quoted: bool,
    y: Seq<char>,
)
    requires
        laws::objects::is_addressed(w, base, p.bucket@, p.key@),
        laws::objects::holds(w, base, p.bucket@, p.key@, object),
        plain == (PutObjectInput { conditions: plain.conditions, ..p }),
        sets_nothing(plain.conditions@),
        g.bucket@ == p.bucket@,
        g.key@ == p.key@,
        is_cuttable(g.range, object.body.len()),
        etags::is_visible(x),
        etags::is_visible(y),
        object.meta.etag == seq!['"'] + y + seq!['"'],
        p.conditions@.if_none_match == Some(etags::dressed(x, x_quoted)),
        p.conditions@.if_match is None,
        p.conditions@.if_unmodified_since is None,
        g.conditions@.if_none_match == Some(etags::dressed(x, x_quoted)),
        g.conditions@.if_match is None,
        g.conditions@.if_modified_since is None,
        g.conditions@.if_unmodified_since is None,
    ensures
        w.run(objects::put_object_script(base, p)) == (if x == y || x == "*"@ {
            End::Refused(ErrorView::PreconditionFailed)
        } else {
            w.run(objects::put_object_script(base, plain))
        }),
        if x == y || x == "*"@ {
            w.run(objects::get_object_script(base, g)) == End::<ObjectView>::Refused(
                ErrorView::NotModified,
            )
        } else {
            w.run(objects::get_object_script(base, g)) is Done
        },
{
    etags::plain_etags_match_when_equal(x, x_quoted, y, true);
    laws::objects::put_adds_the_object(w, base, p);
    laws::objects::put_adds_the_object(w, base, plain);
    laws::objects::get_gives_what_is_held(w, base, g, object);
}

/// Optimistic concurrency: where the object has meanwhile got the ETag of another body, a
/// put under the old ETag is refused, and a get for all but the old ETag is given.
pub proof fn stale_etags_are_refused(
    w: World,
    base: Seq<char>,
    p: PutObjectInput,
    g: GetObjectInput,
    object: ObjectView,
    old_body: Seq<u8>,
    body: Seq<u8>,
)
    requires
        laws::objects::is_addressed(w, base, p.bucket@, p.key@),
        laws::objects::holds(w, base, p.bucket@, p.key@, object),
        object.meta.etag == meta::etag_of(body),
        p.conditions@.if_match == Some(meta::etag_of(old_body)),
        g.bucket@ == p.bucket@,
        g.key@ == p.key@,
        is_cuttable(g.range, object.body.len()),
        g.conditions@.if_none_match == Some(meta::etag_of(old_body)),
        g.conditions@.if_match is None,
        g.conditions@.if_modified_since is None,
        g.conditions@.if_unmodified_since is None,
    ensures
        meta::etag_of(old_body) != meta::etag_of(body) ==> {
            &&& w.run(objects::put_object_script(base, p)) == End::<Seq<char>>::Refused(
                ErrorView::PreconditionFailed,
            )
            &&& w.run(objects::get_object_script(base, g)) is Done
        },
{
    let x = digits::hex(meta::md5_digest(old_body));
    let y = digits::hex(meta::md5_digest(body));
    etags::lemma_hex_visible(meta::md5_digest(old_body));
    etags::lemma_hex_visible(meta::md5_digest(body));
    etags::plain_etags_match_when_equal(x, true, y, true);
    if x == "*"@ {
        etags::hex_spells_the_bytes(meta::md5_digest(old_body));
        reveal_strlit("*");
    }
    laws::objects::put_adds_the_object(w, base, p);
    laws::objects::get_gives_what_is_held(w, base, g, object);
}

// ---- reading ----

/// A range fits a body if and only if it can be cut out of it.
pub proof fn ranges_fit_when_they_can_be_cut_out(range: Option<(u64, u64)>, len: nat)
    ensures
        objects::range_fits(range, len) <==> is_cuttable(range, len),
{
}

/// Where a body has no sidecar that can be read, getting the object, its metadata or a copy
/// of it is refused with the failure of the disk to read one.
pub proof fn failures_of_the_disk_are_handed_on(
    w: World,
    base: Seq<char>,
    g: GetObjectInput,
    h: HeadObjectInput,
    c: CopyObjectInput,
)
    requires
        laws::copies::is_addressed(w, base, c),
        g.bucket@ == c.src_bucket@ && h.bucket@ == c.src_bucket@,
        g.key@ == c.src_key@ && h.key@ == c.src_key@,
        !laws::objects::is_absent(w, base, g.bucket@, g.key@),
        !laws::listing::is_readable(w, base, g.bucket@, g.key@),
    ensures
        ({
            let path = paths::meta_file(base, g.bucket@, g.key@);
            let fault = (w.fault)(QueryView::ReadMeta { path });
            &&& w.run(objects::get_object_script(base, g)) == End::<ObjectView>::Refused(fault)
            &&& w.run(objects::head_object_script(base, h)) == End::<MetaView>::Refused(fault)
            &&& w.run(copying::copy_object_script(base, c)) == End::<CopyView>::Refused(fault)
        }),
{
    ground::lemma_stays_under(w, base, g.bucket@, g.key@);
    reveal_with_fuel(World::run, 8);
}

/// A get gives the metadata of the object and, without a range, its body; with a range
/// `(start, end)` the bytes from `start` up to and with `end`, or up to the end of the
/// body where that comes first. Nothing changes.
pub proof fn gets_give_the_bytes_asked_for(
    w: World,
    base: Seq<char>,
    i: GetObjectInput,
    object: ObjectView,
)
    requires
        laws::objects::is_addressed(w, base, i.bucket@, i.key@),
        laws::objects::holds(w, base, i.bucket@, i.key@, object),
        is_cuttable(i.range, object.body.len()),
    ensures
        match w.run(objects::get_object_script(base, i)) {
            End::Done(nodes, out) => {
                &&& nodes == w.nodes
                &&& out.meta == object.meta
                &&& match i.range {
                    Some((start, end)) => {
                        let stop: int = if end + 1 < object.body.len() {
                            end + 1
                        } else {
                            object.body.len() as int
                        };
                        &&& out.body.len() == stop - start
                        &&& forall|k: int|
                            0 <= k < stop - start ==> #[trigger] out.body[k] == object.body[start
                                + k]
                    },
                    None => out.body == object.body,
                }
            },
            End::Refused(_) => !sets_nothing(i.conditions@),
            End::Broken => false,
        },
{
    lemma_means(object.meta, i.conditions@);
    laws::objects::get_gives_what_is_held(w, base, i, object);
}

// ---- writing ----

/// The metadata is that of an object of `size` bytes, written at the time `at`.
pub open spec fn describes(
    m: MetaView,
    size: nat,
    etag: Seq<char>,
    at: u64,
    content_type: Option<Seq<char>>,
    user_metadata: Map<Seq<char>, Seq<char>>,
    content_encoding: Option<Seq<char>>,
) -> bool {
    &&& size <= u64::MAX ==> m.size == size
    &&& m.etag == etag
    &&& m.last_modified == at
    &&& m.content_type == content_type
    &&& m.user_metadata == user_metadata
    &&& m.content_encoding == content_encoding
    &&& m.storage_class == "STANDARD"@
}

/// After a put that succeeds, getting the object gives the body that was put, and the
/// metadata, with a get and with a head, has its size, the ETag that the put gave, the time
/// of the put, and what the put was given. The ETag is that of the body.
pub proof fn puts_store_what_they_are_given(
    w: World,
    base: Seq<char>,
    p: PutObjectInput,
    etag: Seq<char>,
    after: World,
    g: GetObjectInput,
    h: HeadObjectInput,
)
    requires
        laws::objects::is_addressed(w, base, p.bucket@, p.key@),
        w.run(objects::put_object_script(base, p)) == End::Done(after.nodes, etag),
        after.is_valid(),
        after.codec == w.codec,
        g.bucket@ == p.bucket@ && h.bucket@ == p.bucket@,
        g.key@ == p.key@ && h.key@ == p.key@,
        g.range is None,
        sets_nothing(g.conditions@),
        sets_nothing(h.conditions@),
    ensures
        etag == meta::etag_of(p.body@),
        match (
            after.run(objects::get_object_script(base, g)),
            after.run(objects::head_object_script(base, h)),
        ) {
            (End::Done(n, out), End::Done(n2, m)) => {
                &&& n == after.nodes && n2 == after.nodes
                &&& out.body == p.body@
                &&& out.meta == m
                &&& describes(
                    m,
                    p.body@.len(),
                    etag,
                    w.now,
                    p.content_type.deep_view(),
                    p.metadata.deep_view(),
                    p.content_encoding.deep_view(),
                )
            },
            _ => false,
        },
{
    laws::objects::put_adds_the_object(w, base, p);
    laws::objects::get_gives_what_was_put(w, base, p, etag, after, g);
    laws::objects::head_gives_what_was_put(w, base, p, etag, after, h);
}

/// After a copy that succeeds, getting the destination gives the body of the source, and
/// the metadata, with a get and with a head, has the size and the ETag of that body and the
/// time of the copy. The content type and the user metadata are those of the directive,
/// with no content encoding; without a directive all three are those of the source. The
/// copy gives that ETag and that time.
pub proof fn copies_store_the_source(
    w: World,
    base: Seq<char>,
    i: CopyObjectInput,
    source: ObjectView,
    out: CopyView,
    after: World,
    g: GetObjectInput,
    h: HeadObjectInput,
)
    requires
        laws::copies::is_addressed(w, base, i),
        laws::objects::holds(w, base, i.src_bucket@, i.src_key@, source),
        w.run(copying::copy_object_script(base, i)) == End::Done(after.nodes, out),
        after.is_valid(),
        after.codec == w.codec,
        g.bucket@ == i.dst_bucket@ && h.bucket@ == i.dst_bucket@,
        g.key@ == i.dst_key@ && h.key@ == i.dst_key@,
        g.range is None,
        sets_nothing(g.conditions@),
        sets_nothing(h.conditions@),
    ensures
        out.etag == meta::etag_of(source.body),
        out.last_modified == w.now,
        match (
            after.run(objects::get_object_script(base, g)),
            after.run(objects::head_object_script(base, h)),
        ) {
            (End::Done(n, got), End::Done(n2, m)) => {
                &&& n == after.nodes && n2 == after.nodes
                &&& got.body == source.body
                &&& got.meta == m
                &&& match i.metadata_directive {
                    Some(MetadataDirective::Replace { content_type, metadata }) => describes(
                        m,
                        source.body.len(),
                        out.etag,
                        w.now,
                        content_type.deep_view(),
                        metadata.deep_view(),
                        None,
                    ),
                    None => describes(
                        m,
                        source.body.len(),
                        out.etag,
                        w.now,
                        source.meta.content_type,
                        source.meta.user_metadata,
                        source.meta.content_encoding,
                    ),
                }
            },
            _ => false,
        },
{
    laws::copies::copy_adds_the_copy(w, base, i, source);
    laws::copies::get_gives_the_copy(w, base, i, source, out, after, g);
    let m = copying::copy_meta(i, source.meta, source.body, w.now);
    let object = ObjectView { body: source.body, meta: m };
    if let Some(MetadataDirective::Replace { content_type, metadata }) = i.metadata_directive {
        meta::lemma_finite_metadata(metadata);
    }
    laws::objects::lemma_added(w, after, base, i.dst_bucket@, i.dst_key@, object);
    laws::objects::head_gives_what_is_held(after, base, h, object);
}

/// After an upload is completed, getting the object gives the bodies of the listed parts,
/// one after the other in the order of the list, and the metadata, with a get and with a
/// head, has their size together, the ETag that the completion gave, the time of the
/// completion, and what the upload was begun with. That ETag is the multipart ETag of the
/// digests of the bodies in that order.
pub proof fn completions_store_the_parts_in_order(
    w: World,
    base: Seq<char>,
    i: CompleteMultipartUploadInput,
    u: UploadView,
    bodies: Seq<Seq<u8>>,
    out: CompletedView,
    after: World,
    g: GetObjectInput,
    h: HeadObjectInput,
)
    requires
        laws::uploads::is_completable(w, base, i.upload_id@, u),
        multipart::parts_fault(i.parts@) is None,
        bodies.len() == i.parts@.len(),
        laws::uploads::are_there(w, base, i, bodies, bodies.len() as int),
        w.run(multipart::complete_multipart_upload_script(base, i)) == End::Done(
            after.nodes,
            out,
        ),
        after.is_valid(),
        after.codec == w.codec,
        g.bucket@ == u.bucket && h.bucket@ == u.bucket,
        g.key@ == u.key && h.key@ == u.key,
        g.range is None,
        sets_nothing(g.conditions@),
        sets_nothing(h.conditions@),
    ensures
        out.bucket == u.bucket,
        out.key == u.key,
        is_multipart_etag(out.etag, bodies),
        match (
            after.run(objects::get_object_script(base, g)),
            after.run(objects::head_object_script(base, h)),
        ) {
            (End::Done(n, got), End::Done(n2, m)) => {
                let total = etags::offset(bodies, bodies.len() as int);
                &&& n == after.nodes && n2 == after.nodes
                &&& got.body.len() == total
                &&& forall|k: int, j: int|
                    #![trigger bodies[k][j]]
                    0 <= k < bodies.len() && 0 <= j < bodies[k].len() ==> got.body[etags::offset(
                        bodies,
                        k,
                    ) + j] == bodies[k][j]
                &&& got.meta == m
                &&& describes(
                    m,
                    total as nat,
                    out.etag,
                    w.now,
                    u.content_type,
                    u.user_metadata,
                    u.content_encoding,
                )
            },
            _ => false,
        },
{
    laws::uploads::get_gives_the_joined_parts(w, base, i, u, bodies, out, after, g);
    etags::strung_texts_keep_their_order(bodies);
    multipart_etags_of_bodies(bodies);
    let m = multipart::completed_meta(
        u,
        meta::strung(bodies),
        laws::uploads::digests_of(bodies),
        w.now,
    );
    let object = ObjectView { body: meta::strung(bodies), meta: m };
    laws::uploads::lemma_completed(w, base, i, u, bodies, out, after);
    laws::objects::head_gives_what_is_held(after, base, h, object);
}

/// `etag` is that of an object made of parts with these bodies: between double quotes the
/// MD5 of a text in lower-case hexadecimal, a hyphen, and the number of parts in decimal,
/// where the text is the MD5s of the bodies one after the other, from the first to the
/// last.
pub open spec fn is_multipart_etag(etag: Seq<char>, bodies: Seq<Seq<u8>>) -> bool {
    exists|s: Seq<u8>| #[trigger]
        is_digest_row(s, bodies) && etag == seq!['"'] + digits::hex(meta::md5_digest(s)) + seq!['-']
            + digits::decimal(bodies.len()) + seq!['"']
}

/// `s` is the MD5s of the bodies one after the other: byte `j` of the MD5 of body `k`
/// stands behind all bytes of the MD5s before it, which is at `16 * k + j` where each has
/// sixteen bytes.
pub open spec fn is_digest_row(s: Seq<u8>, bodies: Seq<Seq<u8>>) -> bool {
    let ds = bodies.map_values(|b: Seq<u8>| meta::md5_digest(b));
    let sixteen = forall|k: int|
        0 <= k < bodies.len() ==> meta::md5_digest(#[trigger] bodies[k]).len() == 16;
    &&& s.len() == etags::offset(ds, bodies.len() as int)
    &&& sixteen ==> s.len() == 16 * bodies.len()
    &&& forall|k: int, j: int|
        0 <= k < bodies.len() && 0 <= j < meta::md5_digest(bodies[k]).len() ==> {
            &&& s[etags::offset(ds, k) + j] == #[trigger] meta::md5_digest(bodies[k])[j]
            &&& sixteen ==> s[16 * k + j] == meta::md5_digest(bodies[k])[j]
        }
}

/// The multipart ETag of the digests of some bodies is that of an object made of them.
pub proof fn multipart_etags_of_bodies(bodies: Seq<Seq<u8>>)
    ensures
        is_multipart_etag(
            meta::multipart_etag_of(bodies.map_values(|b: Seq<u8>| meta::md5_digest(b))),
            bodies,
        ),
{
    let ds = bodies.map_values(|b: Seq<u8>| meta::md5_digest(b));
    let s = etags::multipart_etags_digest_the_parts_in_order(ds);
    let e = meta::multipart_etag_of(ds);
    let d = meta::md5_digest(s);
    let h = digits::hex(d);
    let n = digits::decimal(bodies.len());
    let sixteen = forall|k: int|
        0 <= k < bodies.len() ==> meta::md5_digest(#[trigger] bodies[k]).len() == 16;
    if sixteen {
        assert forall|k: int| 0 <= k < ds.len() implies (#[trigger] ds[k]).len() == 16 by {
            assert(ds[k] == meta::md5_digest(bodies[k]));
        }
    }
    assert forall|k: int, j: int|
        0 <= k < bodies.len() && 0 <= j < meta::md5_digest(bodies[k]).len() implies {
        &&& s[etags::offset(ds, k) + j] == #[trigger] meta::md5_digest(bodies[k])[j]
        &&& sixteen ==> s[16 * k + j] == meta::md5_digest(bodies[k])[j]
    } by {
        assert(ds[k][j] == meta::md5_digest(bodies[k])[j]);
        if sixteen {
            assert(meta::md5_digest(bodies[k]).len() == 16);
        }
    }
    assert(is_digest_row(s, bodies));
    let t = seq!['"'] + h + seq!['-'] + n + seq!['"'];
    assert(e =~= t);
}

} // verus!
