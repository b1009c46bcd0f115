//! What holds of multipart uploads.

use crate::conditions;
use crate::digits;
use crate::disk;
use crate::disk::{Codec, End, Node, World};
use crate::error::ErrorView;
use crate::exchange::{EffectView, EntryView};
use crate::laws;
use crate::laws::ground;
use crate::meta;
use crate::paths;
use crate::places;
use crate::store::multipart;
use crate::store::multipart::{CompleteMultipartUploadInput, CreateMultipartUploadInput};
use crate::store::multipart::{CompletedPart, UploadPartInput};
use crate::store::multipart::{CompletedView, CreatedView, UploadedView};
use crate::store::objects;
use crate::store::objects::GetObjectInput;
use crate::store::objects::ObjectView;
use crate::store::part_listing;
use crate::store::part_listing::{PartView, PartsView};
use crate::store::parts;
use crate::store::steps;
use crate::upload::UploadView;
use vstd::arithmetic::power;
use vstd::prelude::*;
use vstd::utf8;

verus! {

// ---- where uploads lie ----

/// The place of an upload.
pub open spec fn home_place(base: Seq<char>, id: Seq<char>) -> Seq<Seq<char>> {
    paths::names(base).push(".fals3-uploads"@).push(id)
}

proof fn lemma_hex_number(n: nat, width: nat)
    ensures
        digits::hex_number(n, width).len() == width,
        forall|i: int|
            0 <= i < width ==> (#[trigger] digits::hex_number(n, width)[i]) != '/'
                && digits::hex_number(n, width)[i] != '.',
    decreases width,
{
    if width > 0 {
        lemma_hex_number(n / 16, (width - 1) as nat);
    }
}

/// The ids that the store hands out are single names.
pub proof fn new_ids_are_names(nanos: u128, count: u64)
    ensures
        parts::is_id(parts::upload_id_of(nanos, count)),
{
    let t = (nanos % 0x1_0000_0000_0000_0000) as nat;
    lemma_hex_number(t, 16);
    lemma_hex_number(count as nat, 16);
    let id = parts::upload_id_of(nanos, count);
    reveal_strlit(".");
    reveal_strlit("..");
    assert(id.len() == 32);
    assert forall|i: int| 0 <= i < id.len() implies id[i] != '/' by {
        if i < 16 {
            assert(id[i] == digits::hex_number(t, 16)[i]);
        } else {
            assert(id[i] == digits::hex_number(count as nat, 16)[i - 16]);
        }
    }
}

proof fn lemma_hex_differs(n: nat, m: nat, width: nat)
    requires
        digits::hex_number(n, width) == digits::hex_number(m, width),
        n < power::pow(16, width),
        m < power::pow(16, width),
    ensures
        n == m,
    decreases width,
{
    reveal(power::pow);
    if width > 0 {
        let w = (width - 1) as nat;
        let (a, b) = (digits::hex_number(n, width), digits::hex_number(m, width));
        assert(a.last() == digits::hex_digit((n % 16) as int));
        assert(b.last() == digits::hex_digit((m % 16) as int));
        assert(a.drop_last() =~= digits::hex_number(n / 16, w));
        assert(b.drop_last() =~= digits::hex_number(m / 16, w));
        assert(power::pow(16, width) == 16 * power::pow(16, w));
        lemma_hex_differs(n / 16, m / 16, w);
    }
}

/// Ids made at different counts, or at different times, are different.
pub proof fn new_ids_differ(nanos: u128, count: u64, nanos2: u128, count2: u64)
    requires
        count != count2 || nanos % 0x1_0000_0000_0000_0000 != nanos2 % 0x1_0000_0000_0000_0000,
    ensures
        parts::upload_id_of(nanos, count) != parts::upload_id_of(nanos2, count2),
{
    let (t, t2) = (
        (nanos % 0x1_0000_0000_0000_0000) as nat,
        (nanos2 % 0x1_0000_0000_0000_0000) as nat,
    );
    let (a, b) = (parts::upload_id_of(nanos, count), parts::upload_id_of(nanos2, count2));
    lemma_hex_number(t, 16);
    lemma_hex_number(t2, 16);
    assert(power::pow(16, 16) == 0x1_0000_0000_0000_0000) by {
        reveal(power::pow);
        reveal_with_fuel(power::pow, 17);
    }
    if a == b {
        assert(a.take(16) =~= digits::hex_number(t, 16));
        assert(b.take(16) =~= digits::hex_number(t2, 16));
        assert(a.skip(16) =~= digits::hex_number(count as nat, 16));
        assert(b.skip(16) =~= digits::hex_number(count2 as nat, 16));
        lemma_hex_differs(t, t2, 16);
        lemma_hex_differs(count as nat, count2 as nat, 16);
    }
}

/// Each world hands out a number of its own, greater than those handed out before.
pub open spec fn counts_grow(ws: Seq<World>) -> bool {
    forall|j: int, k: int| 0 <= j < k < ws.len() ==> (#[trigger] ws[j]).count < (#[trigger] ws[k]).count
}

/// No two uploads that are begun get the same id, whatever the clock says: of any
/// number of calls each one gives an id that no earlier one gave. (The number that goes
/// into an id grows with each call.)
pub proof fn begun_uploads_have_their_own_ids(
    base: Seq<char>,
    ws: Seq<World>,
    inputs: Seq<CreateMultipartUploadInput>,
    outs: Seq<CreatedView>,
)
    requires
        counts_grow(ws),
        inputs.len() == ws.len(),
        outs.len() == ws.len(),
        forall|k: int|
            0 <= k < ws.len() ==> laws::objects::is_addressed(
                #[trigger] ws[k],
                base,
                inputs[k].bucket@,
                inputs[k].key@,
            ),
        forall|k: int|
            0 <= k < ws.len() ==> ((#[trigger] ws[k]).run(
                multipart::create_multipart_upload_script(base, inputs[k]),
            ) matches End::Done(_, out) && out == outs[k]),
    ensures
        forall|k: int| 0 <= k < outs.len() ==> (#[trigger] outs[k]).upload_id.len() > 0,
        forall|j: int, k: int|
            0 <= j < k < outs.len() ==> (#[trigger] outs[j]).upload_id != (
            #[trigger] outs[k]).upload_id,
{
    assert forall|k: int| 0 <= k < outs.len() implies (#[trigger] outs[k]).upload_id
        == parts::upload_id_of(ws[k].nanos, ws[k].count) && outs[k].upload_id.len() > 0 by {
        create_adds_the_upload(ws[k], base, inputs[k]);
        new_ids_are_names(ws[k].nanos, ws[k].count);
    }
    assert forall|j: int, k: int| 0 <= j < k < outs.len() implies (#[trigger] outs[j]).upload_id
        != (#[trigger] outs[k]).upload_id by {
        assert(ws[j].count < ws[k].count);
        new_ids_differ(ws[j].nanos, ws[j].count, ws[k].nanos, ws[k].count);
    }
}

/// A name without slashes under a directory.
pub proof fn lemma_child(dir: Seq<char>, name: Seq<char>)
    requires
        paths::is_name(name),
        !name.contains('/'),
    ensures
        paths::names(paths::path_join(dir, name)) == paths::names(dir).push(name),
        paths::segments(paths::path_join(dir, name)).last() == name,
        !places::directory_form(paths::path_join(dir, name)),
{
    places::lemma_single(name);
    places::lemma_names_join(dir, name);
    assert(paths::names(dir) + seq![name] =~= paths::names(dir).push(name));
}

pub proof fn lemma_home(base: Seq<char>, id: Seq<char>)
    requires
        parts::is_id(id),
    ensures
        paths::names(parts::upload_home(base, id)) == home_place(base, id),
{
    reveal_strlit(".fals3-uploads");
    reveal_strlit(".");
    let u = ".fals3-uploads"@;
    assert(u.len() == 14);
    assert forall|i: int| 0 <= i < u.len() implies u[i] != '/' by {}
    lemma_child(base, u);
    lemma_child(parts::uploads_dir(base), id);
}

proof fn lemma_decimal(n: nat)
    ensures
        digits::decimal(n).len() > 0,
        forall|i: int|
            0 <= i < digits::decimal(n).len() ==> (#[trigger] digits::decimal(n)[i]) != '/',
    decreases n,
{
    if n >= 10 {
        lemma_decimal(n / 10);
    }
}

/// The files of an upload, and that they are different files.
pub proof fn lemma_files(dir: Seq<char>, n: u32)
    ensures
        ({
            let at = paths::names(dir);
            let record = parts::record_file(dir);
            let temp = paths::temporary(record);
            &&& paths::names(record) == at.push("meta.json"@)
            &&& paths::names(temp) == at.push("meta.tmp"@)
            &&& paths::names(parts::body_file(dir, n)) == at.push(parts::body_name(n))
            &&& paths::names(parts::etag_file(dir, n)) == at.push(parts::etag_name(n))
            &&& !places::directory_form(record)
            &&& !places::directory_form(temp)
            &&& !places::directory_form(parts::body_file(dir, n))
            &&& !places::directory_form(parts::etag_file(dir, n))
            &&& "meta.json"@ != "meta.tmp"@
            &&& parts::body_name(n) != "meta.json"@
            &&& parts::etag_name(n) != "meta.json"@
        }),
{
    reveal_strlit("meta.json");
    reveal_strlit("meta.tmp");
    reveal_strlit(".tmp");
    reveal_strlit("part-");
    reveal_strlit(".bin");
    reveal_strlit(".etag");
    reveal_strlit(".");
    let record = "meta.json"@;
    assert forall|i: int| 0 <= i < record.len() implies record[i] != '/' by {}
    assert(record.len() == 9 && "."@.len() == 1);
    lemma_child(dir, record);
    let stem = seq!['m', 'e', 't', 'a'];
    let ext = seq!['j', 's', 'o', 'n'];
    assert(record =~= stem.push('.') + ext);
    assert(!ext.contains('.')) by {
        assert forall|i: int| 0 <= i < ext.len() implies ext[i] != '.' by {}
    }
    places::lemma_temporary(parts::record_file(dir), stem, ext);
    assert(stem + ".tmp"@ =~= "meta.tmp"@);
    assert(paths::names(dir).push(record).drop_last() =~= paths::names(dir));
    assert("meta.tmp"@.len() == 8);
    lemma_padded(n as nat);
    let body = parts::body_name(n);
    let etag = parts::etag_name(n);
    let p = digits::padded(n as nat);
    assert forall|i: int| 0 <= i < body.len() implies body[i] != '/' by {
        if 5 <= i < 5 + p.len() {
            assert(body[i] == p[i - 5]);
        }
    }
    assert forall|i: int| 0 <= i < etag.len() implies etag[i] != '/' by {
        if 5 <= i < 5 + p.len() {
            assert(etag[i] == p[i - 5]);
        }
    }
    assert(body[0] == 'p' && etag[0] == 'p' && record[0] == 'm');
    lemma_child(dir, body);
    lemma_child(dir, etag);
}

proof fn lemma_padded(n: nat)
    ensures
        forall|i: int|
            0 <= i < digits::padded(n).len() ==> (#[trigger] digits::padded(n)[i]) != '/',
{
    lemma_decimal(n);
    let d = digits::decimal(n);
    let p = digits::padded(n);
    let gap = p.len() - d.len();
    assert forall|i: int| 0 <= i < p.len() implies (#[trigger] p[i]) != '/' by {
        if i >= gap {
            assert(p[i] == d[i - gap]);
        }
    }
}

/// The files of two parts are different files.
pub proof fn lemma_parts_apart(n: u32, m: u32)
    ensures
        parts::body_name(n) != parts::etag_name(m),
        n != m ==> parts::body_name(n) != parts::body_name(m),
        n != m ==> parts::etag_name(n) != parts::etag_name(m),
{
    reveal_strlit("part-");
    reveal_strlit(".bin");
    reveal_strlit(".etag");
    digits::padded_reads_back(n);
    digits::padded_reads_back(m);
    let (p, q) = (digits::padded(n as nat), digits::padded(m as nat));
    assert(parts::body_name(n).last() == 'n');
    assert(parts::etag_name(m).last() == 'g');
    if parts::body_name(n) == parts::body_name(m) {
        assert(parts::body_name(n).subrange(5, parts::body_name(n).len() - 4) =~= p);
        assert(parts::body_name(m).subrange(5, parts::body_name(m).len() - 4) =~= q);
    }
    if parts::etag_name(n) == parts::etag_name(m) {
        assert(parts::etag_name(n).subrange(5, parts::etag_name(n).len() - 5) =~= p);
        assert(parts::etag_name(m).subrange(5, parts::etag_name(m).len() - 5) =~= q);
    }
}

// ---- what is on the disk ----

/// The upload is under way, with this record.
pub open spec fn has_upload(w: World, base: Seq<char>, id: Seq<char>, u: UploadView) -> bool {
    let dir = parts::upload_home(base, id);
    &&& disk::dir_at(w.nodes, dir)
    &&& disk::file_at(w.nodes, parts::record_file(dir)) is Some
    &&& (w.codec.upload_in)(disk::file_at(w.nodes, parts::record_file(dir))->0) == Some(u)
}

/// The upload holds a part with this body and this ETag.
pub open spec fn has_part(
    w: World,
    base: Seq<char>,
    id: Seq<char>,
    n: u32,
    body: Seq<u8>,
    etag: Seq<char>,
) -> bool {
    let dir = parts::upload_home(base, id);
    let text = disk::file_at(w.nodes, parts::etag_file(dir, n));
    &&& disk::file_at(w.nodes, parts::body_file(dir, n)) == Some(body)
    &&& text is Some && utf8::valid_utf8(text->0) && utf8::decode_utf8(text->0) == etag
}

// ---- beginning ----

/// The disk has room for a new upload.
pub open spec fn has_upload_room(
    nodes: Map<Seq<Seq<char>>, Node>,
    base: Seq<char>,
    id: Seq<char>,
) -> bool {
    let home = home_place(base, id);
    &&& disk::is_clear(nodes, home)
    &&& !ground::is_dir(nodes, home.push("meta.json"@))
    &&& !ground::is_dir(nodes, home.push("meta.tmp"@))
}

/// The disk with a new upload.
pub open spec fn with_upload(
    codec: Codec,
    nodes: Map<Seq<Seq<char>>, Node>,
    base: Seq<char>,
    id: Seq<char>,
    u: UploadView,
) -> Map<Seq<Seq<char>>, Node> {
    let home = home_place(base, id);
    disk::with_dirs(nodes, home).insert(
        home.push("meta.json"@),
        Node::File((codec.upload_bytes)(u)),
    ).remove(home.push("meta.tmp"@))
}

/// Beginning an upload hands out an id and puts the record of the upload on the
/// disk.
pub proof fn create_adds_the_upload(w: World, base: Seq<char>, i: CreateMultipartUploadInput)
    requires
        laws::objects::is_addressed(w, base, i.bucket@, i.key@),
    ensures
        ({
            let id = parts::upload_id_of(w.nanos, w.count);
            w.run(multipart::create_multipart_upload_script(base, i)) == (if has_upload_room(
                w.nodes,
                base,
                id,
            ) {
                End::Done(
                    with_upload(w.codec, w.nodes, base, id, multipart::new_record(i, w.now)),
                    CreatedView { bucket: i.bucket@, key: i.key@, upload_id: id },
                )
            } else {
                End::Broken
            })
        }),
{
    let id = parts::upload_id_of(w.nanos, w.count);
    let u = multipart::new_record(i, w.now);
    let dir = parts::upload_home(base, id);
    new_ids_are_names(w.nanos, w.count);
    lemma_home(base, id);
    lemma_files(dir, 1);
    reveal_with_fuel(World::run, 5);
    let home = home_place(base, id);
    let record = parts::record_file(dir);
    let temp = paths::temporary(record);
    let none = Seq::<EffectView>::empty();
    let e0 = EffectView::CreateDirAll { path: dir };
    let e1 = EffectView::WriteUpload { path: temp, upload: u };
    let e2 = EffectView::Rename { from: temp, to: record };
    assert(multipart::record_writing(dir, u) =~= none.push(e0).push(e1).push(e2));
    ground::lemma_in_turn(w.codec, w.nodes, none.push(e0).push(e1), e2);
    ground::lemma_in_turn(w.codec, w.nodes, none.push(e0), e1);
    ground::lemma_in_turn(w.codec, w.nodes, none, e0);
    assert(disk::carried_out(w.codec, w.nodes, none) == Some(w.nodes));
    lemma_plain_home(w.nodes, base, id);
    lemma_record_steps(w.codec, w.nodes, base, id, u);
}

proof fn lemma_plain_home(nodes: Map<Seq<Seq<char>>, Node>, base: Seq<char>, id: Seq<char>)
    requires
        disk::is_tree(nodes),
        disk::dir_at(nodes, base),
        parts::is_id(id),
    ensures
        places::plain(home_place(base, id)),
        places::plain(home_place(base, id).push("meta.json"@)),
        places::plain(home_place(base, id).push("meta.tmp"@)),
{
    reveal_strlit(".fals3-uploads");
    reveal_strlit("..");
    reveal_strlit("meta.json");
    reveal_strlit("meta.tmp");
    let b = paths::names(base);
    assert(places::plain(b));
    assert(".fals3-uploads"@.len() == 14 && "meta.json"@.len() == 9 && "meta.tmp"@.len() == 8
        && ".."@.len() == 2);
    ground::lemma_plain_push(b, ".fals3-uploads"@);
    ground::lemma_plain_push(b.push(".fals3-uploads"@), id);
    ground::lemma_plain_push(home_place(base, id), "meta.json"@);
    ground::lemma_plain_push(home_place(base, id), "meta.tmp"@);
}

proof fn lemma_record_steps(
    codec: Codec,
    nodes: Map<Seq<Seq<char>>, Node>,
    base: Seq<char>,
    id: Seq<char>,
    u: UploadView,
)
    requires
        parts::is_id(id),
        places::plain(home_place(base, id)),
        places::plain(home_place(base, id).push("meta.json"@)),
        places::plain(home_place(base, id).push("meta.tmp"@)),
    ensures
        ({
            let dir = parts::upload_home(base, id);
            let record = parts::record_file(dir);
            let temp = paths::temporary(record);
            let e0 = EffectView::CreateDirAll { path: dir };
            let e1 = EffectView::WriteUpload { path: temp, upload: u };
            let e2 = EffectView::Rename { from: temp, to: record };
            ground::and_after(
                codec,
                ground::and_after(codec, disk::affected(codec, nodes, e0), e1),
                e2,
            ) == (if has_upload_room(nodes, base, id) {
                Some(with_upload(codec, nodes, base, id, u))
            } else {
                None
            })
        }),
{
    let dir = parts::upload_home(base, id);
    lemma_home(base, id);
    lemma_files(dir, 1);
    let home = home_place(base, id);
    let record = parts::record_file(dir);
    let temp = paths::temporary(record);
    let r = home.push("meta.json"@);
    let t = home.push("meta.tmp"@);
    let bytes = (codec.upload_bytes)(u);
    assert(home.is_prefix_of(home));
    assert(r.drop_last() =~= home);
    assert(t.drop_last() =~= home);
    assert(r.last() != t.last());
    if disk::is_clear(nodes, home) {
        let n0 = disk::with_dirs(nodes, home);
        let n1 = n0.insert(t, Node::File(bytes));
        assert(n0.contains_key(home) && n0[home] is Dir);
        assert(ground::is_dir(n0, t) == ground::is_dir(nodes, t));
        assert(ground::is_dir(n0, r) == ground::is_dir(nodes, r));
        assert(disk::written(n0, temp, bytes) == (if ground::is_dir(nodes, t) {
            None
        } else {
            Some(n1)
        }));
        assert(disk::file_at(n1, temp) == Some(bytes));
        assert(disk::written(n1, record, bytes) == (if ground::is_dir(nodes, r) {
            None
        } else {
            Some(n1.insert(r, Node::File(bytes)))
        }));
        assert(n1.insert(r, Node::File(bytes)).remove(t) =~= with_upload(
            codec,
            nodes,
            base,
            id,
            u,
        ));
    }
}

/// An upload that was begun is under way, with the record that it was begun with.
/// No object changes, and all directories stay.
pub proof fn begun_uploads_are_under_way(
    w: World,
    base: Seq<char>,
    i: CreateMultipartUploadInput,
    out: CreatedView,
    after: World,
    bucket: Seq<char>,
    key: Seq<char>,
    object: ObjectView,
)
    requires
        laws::objects::is_addressed(w, base, i.bucket@, i.key@),
        w.run(multipart::create_multipart_upload_script(base, i)) == End::Done(after.nodes, out),
        after.is_valid(),
        after.codec == w.codec,
        objects::name_fault(bucket, key) is None,
    ensures
        parts::is_id(out.upload_id),
        has_upload(after, base, out.upload_id, multipart::new_record(i, w.now)),
        laws::objects::holds(after, base, bucket, key, object) == laws::objects::holds(
            w,
            base,
            bucket,
            key,
            object,
        ),
        laws::objects::is_absent(after, base, bucket, key) == laws::objects::is_absent(
            w,
            base,
            bucket,
            key,
        ),
        laws::objects::keeps_directories(w.nodes, after.nodes),
{
    create_adds_the_upload(w, base, i);
    meta::lemma_finite_metadata(i.metadata);
    let id = out.upload_id;
    new_ids_are_names(w.nanos, w.count);
    lemma_home(base, id);
    lemma_files(parts::upload_home(base, id), 1);
    let home = home_place(base, id);
    assert(home.is_prefix_of(home));
    assert(home.push("meta.json"@).last() != home.push("meta.tmp"@).last());
    assert(home.push("meta.tmp"@).len() != home.len());
    if !places::directory_form(key) {
        lemma_object_elsewhere(base, bucket, key, id);
    } else {
        ground::lemma_places(base, bucket, key);
    }
}

/// A place in a bucket is not on the way to an upload, nor in one.
pub proof fn lemma_elsewhere(base: Seq<char>, bucket: Seq<char>, id: Seq<char>, ns: Seq<Seq<char>>)
    requires
        paths::bucket_fault(bucket) is None,
        ns.len() > paths::names(base).len(),
        ns[paths::names(base).len() as int] == bucket,
    ensures
        !home_place(base, id).is_prefix_of(ns),
        !ns.is_prefix_of(home_place(base, id)),
        forall|n: Seq<char>| ns != #[trigger] home_place(base, id).push(n),
{
    ground::lemma_bucket_name(bucket);
    reveal_strlit(".fals3-uploads");
    let u = ".fals3-uploads"@;
    assert(u[0] == '.');
    assert(u.contains('.'));
    let home = home_place(base, id);
    let k = paths::names(base).len() as int;
    assert(home[k] == u);
    if home.is_prefix_of(ns) {
        assert(ns.subrange(0, home.len() as int)[k] == ns[k]);
    }
    if ns.is_prefix_of(home) {
        assert(home.subrange(0, ns.len() as int)[k] == home[k]);
    }
    assert forall|n: Seq<char>| ns != #[trigger] home.push(n) by {
        assert(home.push(n)[k] == u);
    }
}

pub proof fn lemma_object_elsewhere(
    base: Seq<char>,
    bucket: Seq<char>,
    key: Seq<char>,
    id: Seq<char>,
)
    requires
        paths::is_absolute(base),
        objects::name_fault(bucket, key) is None,
        !places::directory_form(key),
    ensures
        ({
            let home = home_place(base, id);
            let body = ground::body_place(base, bucket, key);
            let side = ground::sidecar_place(base, bucket, key);
            let temp = ground::temporary_place(base, bucket, key);
            &&& !home.is_prefix_of(body) && !body.is_prefix_of(home)
            &&& !home.is_prefix_of(side) && !side.is_prefix_of(home)
            &&& !home.is_prefix_of(temp) && !temp.is_prefix_of(home)
            &&& forall|n: Seq<char>|
                #![trigger home.push(n)]
                body != home.push(n) && side != home.push(n) && temp != home.push(n)
        }),
{
    ground::lemma_places(base, bucket, key);
    ground::lemma_sidecar_places(base, bucket, key);
    let k = paths::names(base).len() as int;
    let body = ground::body_place(base, bucket, key);
    assert(body.len() >= k + 2 && body[k] == bucket);
    let side = ground::sidecar_place(base, bucket, key);
    let temp = ground::temporary_place(base, bucket, key);
    assert(side[k] == bucket && temp[k] == bucket);
    lemma_elsewhere(base, bucket, id, body);
    lemma_elsewhere(base, bucket, id, side);
    lemma_elsewhere(base, bucket, id, temp);
}

// ---- parts ----

/// Uploading a part puts its body and its ETag on the disk, unless a directory
/// stands in their place.
pub proof fn upload_adds_the_part(w: World, base: Seq<char>, i: UploadPartInput)
    requires
        w.is_valid(),
        parts::is_id(i.upload_id@),
        parts::part_number_fault(i.part_number) is None,
        disk::dir_at(w.nodes, parts::upload_home(base, i.upload_id@)),
    ensures
        ({
            let home = home_place(base, i.upload_id@);
            let b = home.push(parts::body_name(i.part_number));
            let e = home.push(parts::etag_name(i.part_number));
            let etag = meta::etag_of(i.body@);
            w.run(multipart::upload_part_script(base, i)) == (if ground::is_dir(w.nodes, b)
                || ground::is_dir(w.nodes, e) {
                End::Broken
            } else {
                End::Done(
                    w.nodes.insert(b, Node::File(i.body@)).insert(
                        e,
                        Node::File(utf8::encode_utf8(etag)),
                    ),
                    UploadedView { part_number: i.part_number, etag },
                )
            })
        }),
{
    let n = i.part_number;
    let dir = parts::upload_home(base, i.upload_id@);
    lemma_home(base, i.upload_id@);
    lemma_files(dir, n);
    lemma_parts_apart(n, n);
    reveal_with_fuel(World::run, 3);
    let home = home_place(base, i.upload_id@);
    let b = home.push(parts::body_name(n));
    let e = home.push(parts::etag_name(n));
    let etag = utf8::encode_utf8(meta::etag_of(i.body@));
    let none = Seq::<EffectView>::empty();
    let e0 = EffectView::Write { path: parts::body_file(dir, n), bytes: i.body@ };
    let e1 = EffectView::Write { path: parts::etag_file(dir, n), bytes: etag };
    assert(multipart::part_writing(dir, n, i.body@) =~= none.push(e0).push(e1));
    ground::lemma_in_turn(w.codec, w.nodes, none.push(e0), e1);
    ground::lemma_in_turn(w.codec, w.nodes, none, e0);
    assert(disk::carried_out(w.codec, w.nodes, none) == Some(w.nodes));
    assert(places::plain(home));
    lemma_part_names(n);
    ground::lemma_plain_push(home, parts::body_name(n));
    ground::lemma_plain_push(home, parts::etag_name(n));
    assert(b.drop_last() =~= home);
    assert(e.drop_last() =~= home);
    assert(b.last() != e.last());
    let n1 = w.nodes.insert(b, Node::File(i.body@));
    assert(disk::written(w.nodes, parts::body_file(dir, n), i.body@) == (if ground::is_dir(
        w.nodes,
        b,
    ) {
        None
    } else {
        Some(n1)
    }));
    assert(home != b);
    assert(disk::written(n1, parts::etag_file(dir, n), etag) == (if ground::is_dir(w.nodes, e) {
        None
    } else {
        Some(n1.insert(e, Node::File(etag)))
    }));
}

proof fn lemma_part_names(n: u32)
    ensures
        parts::body_name(n) != ".."@,
        parts::etag_name(n) != ".."@,
{
    reveal_strlit("part-");
    reveal_strlit("..");
    assert(parts::body_name(n)[0] == 'p');
    assert(parts::etag_name(n)[0] == 'p');
    assert(".."@[0] == '.');
}

/// A part that was uploaded is held, with the ETag that was given for it; one that
/// was there before under its number is replaced. The other parts, the record of
/// the upload and all directories stay as they are.
pub proof fn uploaded_parts_are_held(
    w: World,
    base: Seq<char>,
    i: UploadPartInput,
    out: UploadedView,
    after: World,
    u: UploadView,
    m: u32,
    body: Seq<u8>,
    etag: Seq<char>,
)
    requires
        w.is_valid(),
        parts::is_id(i.upload_id@),
        parts::part_number_fault(i.part_number) is None,
        disk::dir_at(w.nodes, parts::upload_home(base, i.upload_id@)),
        w.run(multipart::upload_part_script(base, i)) == End::Done(after.nodes, out),
        after.codec == w.codec,
    ensures
        out.part_number == i.part_number,
        out.etag == meta::etag_of(i.body@),
        has_part(after, base, i.upload_id@, i.part_number, i.body@, out.etag),
        m != i.part_number ==> has_part(after, base, i.upload_id@, m, body, etag) == has_part(
            w,
            base,
            i.upload_id@,
            m,
            body,
            etag,
        ),
        has_upload(after, base, i.upload_id@, u) == has_upload(w, base, i.upload_id@, u),
        laws::objects::keeps_directories(w.nodes, after.nodes),
{
    upload_adds_the_part(w, base, i);
    let n = i.part_number;
    let dir = parts::upload_home(base, i.upload_id@);
    lemma_home(base, i.upload_id@);
    lemma_files(dir, n);
    lemma_files(dir, m);
    lemma_parts_apart(n, n);
    lemma_parts_apart(n, m);
    lemma_parts_apart(m, n);
    let home = home_place(base, i.upload_id@);
    assert forall|x: Seq<char>, y: Seq<char>| x != y implies #[trigger] home.push(x)
        != #[trigger] home.push(y) by {
        assert(home.push(x).last() == x && home.push(y).last() == y);
    }
    assert forall|x: Seq<char>| home != #[trigger] home.push(x) by {
        assert(home.push(x).len() == home.len() + 1);
    }
    let e = meta::etag_of(i.body@);
    utf8::encode_utf8_valid_utf8(e);
    utf8::encode_utf8_decode_utf8(e);
}

/// An operation on an upload that is not there, or on an id that no upload can have,
/// is refused with `NoSuchUpload`; only aborting it is no error. A bad part number is
/// refused first.
pub proof fn unknown_uploads_are_refused(
    w: World,
    base: Seq<char>,
    p: UploadPartInput,
    c: CompleteMultipartUploadInput,
)
    requires
        !parts::is_id(p.upload_id@) || !disk::dir_at(
            w.nodes,
            parts::upload_home(base, p.upload_id@),
        ),
        c.upload_id@ == p.upload_id@,
    ensures
        w.run(multipart::upload_part_script(base, p)) == End::<UploadedView>::Refused(
            if parts::part_number_fault(p.part_number) is Some {
                ErrorView::InvalidPart
            } else {
                ErrorView::NoSuchUpload { upload_id: p.upload_id@ }
            },
        ),
        w.run(multipart::complete_multipart_upload_script(base, c)) == End::<
            CompletedView,
        >::Refused(ErrorView::NoSuchUpload { upload_id: p.upload_id@ }),
        w.run(part_listing::list_parts_script(base, p.upload_id@)) == End::<PartsView>::Refused(
            ErrorView::NoSuchUpload { upload_id: p.upload_id@ },
        ),
        w.run(multipart::abort_multipart_upload_script(base, p.upload_id@)) == End::Done(
            w.nodes,
            (),
        ),
{
    reveal_with_fuel(World::run, 3);
}

/// Aborting an upload takes it off the disk, with its parts; after that the upload
/// is not there.
pub proof fn aborted_uploads_are_gone(w: World, base: Seq<char>, id: Seq<char>, after: World)
    requires
        w.is_valid(),
        parts::is_id(id),
        disk::dir_at(w.nodes, parts::upload_home(base, id)),
        w.run(multipart::abort_multipart_upload_script(base, id)) == End::Done(
            after.nodes,
            (),
        ),
    ensures
        after.nodes == disk::without(w.nodes, home_place(base, id)),
        !disk::dir_at(after.nodes, parts::upload_home(base, id)),
{
    lemma_home(base, id);
    let home = home_place(base, id);
    reveal_with_fuel(World::run, 3);
    reveal_with_fuel(disk::carried_out, 2);
    let fx = seq![EffectView::RemoveDirAll { path: parts::upload_home(base, id) }];
    assert(fx.drop_first() =~= Seq::<EffectView>::empty());
    assert(home.is_prefix_of(home));
}

/// Aborting an upload leaves the objects and the other uploads as they are.
pub proof fn aborting_leaves_the_rest(
    w: World,
    base: Seq<char>,
    id: Seq<char>,
    after: World,
    bucket: Seq<char>,
    key: Seq<char>,
    object: ObjectView,
    id2: Seq<char>,
    u: UploadView,
    n: u32,
    body: Seq<u8>,
    etag: Seq<char>,
)
    requires
        w.is_valid(),
        paths::is_absolute(base),
        parts::is_id(id),
        disk::dir_at(w.nodes, parts::upload_home(base, id)),
        w.run(multipart::abort_multipart_upload_script(base, id)) == End::Done(
            after.nodes,
            (),
        ),
        after.codec == w.codec,
        objects::name_fault(bucket, key) is None,
        parts::is_id(id2),
        id2 != id,
    ensures
        laws::objects::holds(after, base, bucket, key, object) == laws::objects::holds(
            w,
            base,
            bucket,
            key,
            object,
        ),
        has_upload(after, base, id2, u) == has_upload(w, base, id2, u),
        has_part(after, base, id2, n, body, etag) == has_part(w, base, id2, n, body, etag),
{
    aborted_uploads_are_gone(w, base, id, after);
    if !places::directory_form(key) {
        lemma_object_elsewhere(base, bucket, key, id);
    } else {
        ground::lemma_places(base, bucket, key);
    }
    lemma_home(base, id2);
    lemma_files(parts::upload_home(base, id2), n);
    let home = home_place(base, id);
    let home2 = home_place(base, id2);
    let k = paths::names(base).len() as int + 1;
    assert(home[k] == id && home2[k] == id2);
    assert(!home.is_prefix_of(home2)) by {
        if home.is_prefix_of(home2) {
            assert(home2.subrange(0, home.len() as int)[k] == home2[k]);
        }
    }
    assert forall|x: Seq<char>| !home.is_prefix_of(#[trigger] home2.push(x)) by {
        if home.is_prefix_of(home2.push(x)) {
            assert(home2.push(x).subrange(0, home.len() as int)[k] == home2.push(x)[k]);
        }
    }
}

/// An upload that is there can always be aborted.
pub proof fn uploads_can_be_aborted(w: World, base: Seq<char>, id: Seq<char>)
    requires
        parts::is_id(id),
        disk::dir_at(w.nodes, parts::upload_home(base, id)),
    ensures
        w.run(multipart::abort_multipart_upload_script(base, id)) is Done,
{
    lemma_home(base, id);
    reveal_with_fuel(World::run, 3);
    reveal_with_fuel(disk::carried_out, 2);
    let fx = seq![EffectView::RemoveDirAll { path: parts::upload_home(base, id) }];
    assert(fx.drop_first() =~= Seq::<EffectView>::empty());
}

// ---- completing ----

/// The digests of some bodies.
pub open spec fn digests_of(bodies: Seq<Seq<u8>>) -> Seq<Seq<u8>> {
    bodies.map_values(|b: Seq<u8>| meta::md5_digest(b))
}

/// A listed part is there: the upload holds it, under an ETag that is the listed one
/// but for quotes and space around it.
pub open spec fn is_there(
    w: World,
    base: Seq<char>,
    id: Seq<char>,
    p: CompletedPart,
    body: Seq<u8>,
) -> bool {
    let text = disk::file_at(w.nodes, parts::etag_file(parts::upload_home(base, id), p.part_number));
    &&& parts::part_number_fault(p.part_number) is None
    &&& has_part(w, base, id, p.part_number, body, utf8::decode_utf8(text->0))
    &&& conditions::bare(p.etag@) == conditions::bare(utf8::decode_utf8(text->0))
}

/// The first `n` listed parts are there, with these bodies.
pub open spec fn are_there(
    w: World,
    base: Seq<char>,
    i: CompleteMultipartUploadInput,
    bodies: Seq<Seq<u8>>,
    n: int,
) -> bool {
    forall|k: int|
        0 <= k < n ==> is_there(w, base, i.upload_id@, #[trigger] i.parts@[k], bodies[k])
}

/// Reading the parts comes as far as they are there.
pub proof fn lemma_reading(
    w: World,
    base: Seq<char>,
    i: CompleteMultipartUploadInput,
    u: UploadView,
    bodies: Seq<Seq<u8>>,
    n: int,
)
    requires
        0 <= n <= i.parts@.len(),
        n <= bodies.len(),
        are_there(w, base, i, bodies, n),
    ensures
        w.run(
            multipart::complete_from_part(base, i, u, 0, Seq::empty(), Seq::empty()),
        ) == w.run(
            multipart::complete_from_part(
                base,
                i,
                u,
                n,
                meta::strung(bodies.take(n)),
                digests_of(bodies.take(n)),
            ),
        ),
    decreases n,
{
    if n == 0 {
        assert(bodies.take(0) =~= Seq::<Seq<u8>>::empty());
        assert(digests_of(bodies.take(0)) =~= Seq::<Seq<u8>>::empty());
    } else {
        lemma_reading(w, base, i, u, bodies, n - 1);
        let part = i.parts@[n - 1];
        let body = bodies[n - 1];
        assert(is_there(w, base, i.upload_id@, part, body));
        let front = bodies.take(n - 1);
        let all = bodies.take(n);
        assert(all.drop_last() =~= front);
        assert(all.last() == body);
        assert(digests_of(all) =~= digests_of(front).push(meta::md5_digest(body)));
        reveal_with_fuel(World::run, 6);
        reveal_with_fuel(multipart::complete_from_part, 2);
        reveal_with_fuel(multipart::complete_with_part, 2);
    }
}

/// All names of an upload pass, its bucket is there, and it is under way.
pub open spec fn is_completable(w: World, base: Seq<char>, id: Seq<char>, u: UploadView) -> bool {
    &&& parts::is_id(id)
    &&& laws::objects::is_addressed(w, base, u.bucket, u.key)
    &&& has_upload(w, base, id, u)
}

/// Completing an upload whose listed parts are all there puts their bodies, one
/// after the other, on the disk as one object, and takes the upload off it.
pub proof fn complete_joins_the_parts(
    w: World,
    base: Seq<char>,
    i: CompleteMultipartUploadInput,
    u: UploadView,
    bodies: Seq<Seq<u8>>,
)
    requires
        is_completable(w, base, i.upload_id@, u),
        multipart::parts_fault(i.parts@) is None,
        bodies.len() == i.parts@.len(),
        are_there(w, base, i, bodies, bodies.len() as int),
    ensures
        ({
            let body = meta::strung(bodies);
            let m = multipart::completed_meta(u, body, digests_of(bodies), w.now);
            w.run(multipart::complete_multipart_upload_script(base, i)) == (if ground::has_room(
                w.nodes,
                base,
                u.bucket,
                u.key,
            ) {
                End::Done(
                    disk::without(
                        ground::with_object(w.codec, w.nodes, base, u.bucket, u.key, body, m),
                        home_place(base, i.upload_id@),
                    ),
                    CompletedView {
                        bucket: u.bucket,
                        key: u.key,
                        etag: meta::multipart_etag_of(digests_of(bodies)),
                    },
                )
            } else {
                End::Broken
            })
        }),
{
    let n = bodies.len() as int;
    let id = i.upload_id@;
    let body = meta::strung(bodies);
    let digests = digests_of(bodies);
    let m = multipart::completed_meta(u, body, digests, w.now);
    lemma_reading(w, base, i, u, bodies, n);
    assert(bodies.take(n) =~= bodies);
    ground::lemma_stays_under(w, base, u.bucket, u.key);
    lemma_home(base, id);
    ground::lemma_object_written(w.codec, w.nodes, base, u.bucket, u.key, body, m);
    let fx = steps::object_writing(base, u.bucket, u.key, body, m);
    let e = EffectView::DiscardDirAll { path: parts::upload_home(base, id) };
    ground::lemma_in_turn(w.codec, w.nodes, fx, e);
    assert(w.run(multipart::complete_multipart_upload_script(base, i)) == w.run(
        multipart::complete_from_part(base, i, u, 0, Seq::empty(), Seq::empty()),
    )) by {
        reveal_with_fuel(World::run, 3);
    }
    assert(w.run(multipart::complete_from_part(base, i, u, n, body, digests)) == w.run(
        multipart::complete_from_bucket(base, id, u, body, digests),
    ));
    if ground::has_room(w.nodes, base, u.bucket, u.key) {
        let nodes = ground::with_object(w.codec, w.nodes, base, u.bucket, u.key, body, m);
        let home = home_place(base, id);
        lemma_object_elsewhere(base, u.bucket, u.key, id);
        assert(home.is_prefix_of(home));
        assert(nodes.contains_key(home) && nodes[home] is Dir);
    }
    reveal_with_fuel(World::run, 5);
}

/// A completed object is held, and its upload is gone.
pub proof fn lemma_completed(
    w: World,
    base: Seq<char>,
    i: CompleteMultipartUploadInput,
    u: UploadView,
    bodies: Seq<Seq<u8>>,
    out: CompletedView,
    after: World,
)
    requires
        is_completable(w, base, i.upload_id@, u),
        multipart::parts_fault(i.parts@) is None,
        bodies.len() == i.parts@.len(),
        are_there(w, base, i, bodies, bodies.len() as int),
        w.run(multipart::complete_multipart_upload_script(base, i)) == End::Done(
            after.nodes,
            out,
        ),
        after.is_valid(),
        after.codec == w.codec,
    ensures
        ({
            let m = multipart::completed_meta(
                u,
                meta::strung(bodies),
                digests_of(bodies),
                w.now,
            );
            &&& laws::objects::is_addressed(after, base, u.bucket, u.key)
            &&& laws::objects::holds(
                after,
                base,
                u.bucket,
                u.key,
                ObjectView { body: meta::strung(bodies), meta: m },
            )
        }),
        !disk::dir_at(after.nodes, parts::upload_home(base, i.upload_id@)),
{
    complete_joins_the_parts(w, base, i, u, bodies);
    let id = i.upload_id@;
    let home = home_place(base, id);
    lemma_home(base, id);
    lemma_object_elsewhere(base, u.bucket, u.key, id);
    ground::lemma_places(base, u.bucket, u.key);
    ground::lemma_sidecar_places(base, u.bucket, u.key);
    assert(home.is_prefix_of(home));
    let b = paths::names(base);
    let at = ground::body_place(base, u.bucket, u.key);
    assert(!home.is_prefix_of(b));
    lemma_elsewhere(base, u.bucket, id, b.push(u.bucket));
    assert(b.len() < at.len());
    assert(b.push(u.bucket).len() < at.len());
}

/// Getting a completed object gives the bodies of its parts, one after the other,
/// with a multipart ETag and what is on record of the upload. The upload is gone.
pub proof fn get_gives_the_joined_parts(
    w: World,
    base: Seq<char>,
    i: CompleteMultipartUploadInput,
    u: UploadView,
    bodies: Seq<Seq<u8>>,
    out: CompletedView,
    after: World,
    g: GetObjectInput,
)
    requires
        is_completable(w, base, i.upload_id@, u),
        multipart::parts_fault(i.parts@) is None,
        bodies.len() == i.parts@.len(),
        are_there(w, base, i, bodies, bodies.len() as int),
        w.run(multipart::complete_multipart_upload_script(base, i)) == End::Done(
            after.nodes,
            out,
        ),
        after.is_valid(),
        after.codec == w.codec,
        g.bucket@ == u.bucket,
        g.key@ == u.key,
        objects::range_fits(g.range, meta::strung(bodies).len()),
    ensures
        ({
            let m = multipart::completed_meta(
                u,
                meta::strung(bodies),
                digests_of(bodies),
                w.now,
            );
            &&& out == (CompletedView { bucket: u.bucket, key: u.key, etag: m.etag })
            &&& after.run(objects::get_object_script(base, g)) == (match conditions::read_fault(
                m,
                g.conditions@,
            ) {
                Some(e) => End::Refused(e),
                None => End::Done(
                    after.nodes,
                    ObjectView { body: objects::ranged(meta::strung(bodies), g.range), meta: m },
                ),
            })
        }),
        !disk::dir_at(after.nodes, parts::upload_home(base, i.upload_id@)),
{
    complete_joins_the_parts(w, base, i, u, bodies);
    let m = multipart::completed_meta(u, meta::strung(bodies), digests_of(bodies), w.now);
    let object = ObjectView { body: meta::strung(bodies), meta: m };
    lemma_completed(w, base, i, u, bodies, out, after);
    laws::objects::get_gives_what_is_held(after, base, g, object);
}

/// A listed part is wrong: its number is out of range, it was not uploaded, or it
/// was uploaded with another ETag.
pub open spec fn is_wrong(w: World, base: Seq<char>, id: Seq<char>, p: CompletedPart) -> bool {
    let dir = parts::upload_home(base, id);
    let text = disk::file_at(w.nodes, parts::etag_file(dir, p.part_number));
    ||| parts::part_number_fault(p.part_number) is Some
    ||| disk::file_at(w.nodes, parts::body_file(dir, p.part_number)) is None
    ||| text is None
    ||| utf8::valid_utf8(text->0) && conditions::bare(p.etag@) != conditions::bare(
        utf8::decode_utf8(text->0),
    )
}

/// Completing an upload is refused for its list of parts alone, and then with
/// `InvalidPart` for the first part that is wrong. Nothing changes.
pub proof fn wrong_parts_are_refused(
    w: World,
    base: Seq<char>,
    i: CompleteMultipartUploadInput,
    u: UploadView,
    bodies: Seq<Seq<u8>>,
    n: int,
)
    requires
        parts::is_id(i.upload_id@),
        has_upload(w, base, i.upload_id@, u),
        multipart::parts_fault(i.parts@) is None ==> {
            &&& 0 <= n < i.parts@.len()
            &&& n <= bodies.len()
            &&& are_there(w, base, i, bodies, n)
            &&& is_wrong(w, base, i.upload_id@, i.parts@[n])
        },
    ensures
        w.run(multipart::complete_multipart_upload_script(base, i)) == End::<
            CompletedView,
        >::Refused(
            match multipart::parts_fault(i.parts@) {
                Some(e) => e,
                None => ErrorView::InvalidPart,
            },
        ),
{
    if multipart::parts_fault(i.parts@) is None {
        lemma_reading(w, base, i, u, bodies, n);
        assert(w.run(multipart::complete_multipart_upload_script(base, i)) == w.run(
            multipart::complete_from_part(base, i, u, 0, Seq::empty(), Seq::empty()),
        )) by {
            reveal_with_fuel(World::run, 3);
        }
        reveal_with_fuel(World::run, 5);
    } else {
        reveal_with_fuel(World::run, 3);
    }
}

// ---- listing ----

/// What a listing says of an entry of an upload: a part, if the entry is named like
/// the body of one and there is an ETag beside it.
pub open spec fn listed_entry(
    w: World,
    dir: Seq<char>,
    started_at: u64,
    e: EntryView,
) -> Option<PartView> {
    match parts::part_number_of(e.name) {
        Some(n) => match disk::file_at(w.nodes, parts::etag_file(dir, n)) {
            Some(text) => Some(
                PartView {
                    part_number: n,
                    etag: utf8::decode_utf8(text),
                    size: match disk::file_at(w.nodes, paths::path_join(dir, e.name)) {
                        Some(bytes) => bytes.len() as u64,
                        None => (w.dir_size)(paths::path_join(dir, e.name)),
                    },
                    last_modified: match (w.modified)(paths::path_join(dir, e.name)) {
                        Some(t) => t,
                        None => started_at,
                    },
                },
            ),
            None => None,
        },
        None => None,
    }
}

/// The parts that the entries from the `n`th one on add to those found before.
pub open spec fn listed_from(
    w: World,
    dir: Seq<char>,
    started_at: u64,
    es: Seq<EntryView>,
    n: int,
    found: Seq<PartView>,
) -> Seq<PartView>
    decreases es.len() - n,
{
    if 0 <= n < es.len() {
        listed_from(
            w,
            dir,
            started_at,
            es,
            n + 1,
            match listed_entry(w, dir, started_at, es[n]) {
                Some(p) => part_listing::with_part(found, p),
                None => found,
            },
        )
    } else {
        found
    }
}

/// The parts of an upload that a listing gives.
pub open spec fn listed_parts(
    w: World,
    base: Seq<char>,
    id: Seq<char>,
    started_at: u64,
) -> Seq<PartView> {
    let dir = parts::upload_home(base, id);
    listed_from(w, dir, started_at, (w.entries)(dir), 0, Seq::empty())
}

/// The ETags of the parts are texts.
pub open spec fn has_readable_etags(w: World, dir: Seq<char>) -> bool {
    forall|n: u32|
        match disk::file_at(w.nodes, #[trigger] parts::etag_file(dir, n)) {
            Some(text) => utf8::valid_utf8(text),
            None => true,
        }
}

proof fn lemma_part_listing(
    w: World,
    base: Seq<char>,
    id: Seq<char>,
    u: UploadView,
    n: int,
    found: Seq<PartView>,
)
    requires
        w.is_valid(),
        parts::is_id(id),
        disk::dir_at(w.nodes, parts::upload_home(base, id)),
        has_readable_etags(w, parts::upload_home(base, id)),
        0 <= n <= (w.entries)(parts::upload_home(base, id)).len(),
        part_listing::by_number(found),
    ensures
        ({
            let dir = parts::upload_home(base, id);
            let es = (w.entries)(dir);
            let all = listed_from(w, dir, u.started_at, es, n, found);
            &&& w.run(part_listing::list_from_entry(dir, u, es, n, found)) == End::Done(
                w.nodes,
                PartsView { bucket: u.bucket, key: u.key, parts: all },
            )
            &&& part_listing::by_number(all)
            &&& forall|p: PartView| #[trigger]
                all.contains(p) <==> found.contains(p) || exists|k: int|
                    n <= k < es.len() && #[trigger] listed_entry(w, dir, u.started_at, es[k])
                        == Some(p)
        }),
    decreases (w.entries)(parts::upload_home(base, id)).len() - n,
{
    broadcast use vstd::seq_lib::group_to_multiset_ensures;

    let dir = parts::upload_home(base, id);
    let es = (w.entries)(dir);
    let all = listed_from(w, dir, u.started_at, es, n, found);
    if n < es.len() {
        let e = es[n];
        let entry = listed_entry(w, dir, u.started_at, e);
        let path = paths::path_join(dir, e.name);
        let next = match entry {
            Some(p) => part_listing::with_part(found, p),
            None => found,
        };
        lemma_home(base, id);
        let at = home_place(base, id).push(e.name);
        assert(disk::lists(w.nodes, home_place(base, id), es));
        assert(w.nodes.contains_key(at));
        assert(at[at.len() - 1] == e.name);
        lemma_child(dir, e.name);
        assert(disk::there(w.nodes, path));
        if let Some(p) = entry {
            part_listing::parts_stay_by_number(found, p);
            assert forall|x: PartView| #[trigger] next.contains(x) <==> found.contains(x) || x == p by {
                assert(next.contains(x) <==> next.to_multiset().count(x) > 0);
                assert(found.contains(x) <==> found.to_multiset().count(x) > 0);
            }
        }
        lemma_part_listing(w, base, id, u, n + 1, next);
        if let Some(m) = parts::part_number_of(e.name) {
            let f = disk::file_at(w.nodes, parts::etag_file(dir, m));
            assert(f is Some ==> utf8::valid_utf8(f->0));
        }
        assert(w.run(part_listing::list_from_entry(dir, u, es, n, found)) == w.run(
            part_listing::list_from_entry(dir, u, es, n + 1, next),
        )) by {
            reveal_with_fuel(World::run, 4);
            reveal_with_fuel(part_listing::list_from_entry, 2);
            reveal_with_fuel(part_listing::list_with_entry, 2);
        }
        assert forall|p: PartView| #[trigger] all.contains(p) <==> found.contains(p) || exists|k: int|
            n <= k < es.len() && #[trigger] listed_entry(w, dir, u.started_at, es[k]) == Some(
                p,
            ) by {
            let later = exists|k: int|
                n + 1 <= k < es.len() && #[trigger] listed_entry(w, dir, u.started_at, es[k])
                    == Some(p);
            assert(all.contains(p) <==> next.contains(p) || later);
            assert(next.contains(p) <==> found.contains(p) || entry == Some(p));
        }
    }
}

/// Listing the parts of an upload gives each part that has a body and an ETag, by
/// their numbers. Nothing changes.
pub proof fn list_gives_the_parts(w: World, base: Seq<char>, id: Seq<char>, u: UploadView)
    requires
        w.is_valid(),
        parts::is_id(id),
        has_upload(w, base, id, u),
        has_readable_etags(w, parts::upload_home(base, id)),
    ensures
        ({
            let dir = parts::upload_home(base, id);
            let es = (w.entries)(dir);
            let all = listed_parts(w, base, id, u.started_at);
            &&& w.run(part_listing::list_parts_script(base, id)) == End::Done(
                w.nodes,
                PartsView { bucket: u.bucket, key: u.key, parts: all },
            )
            &&& part_listing::by_number(all)
            &&& forall|p: PartView| #[trigger]
                all.contains(p) <==> exists|k: int|
                    0 <= k < es.len() && #[trigger] listed_entry(w, dir, u.started_at, es[k])
                        == Some(p)
        }),
{
    let dir = parts::upload_home(base, id);
    let none = Seq::<PartView>::empty();
    lemma_part_listing(w, base, id, u, 0, none);
    assert(w.run(part_listing::list_parts_script(base, id)) == w.run(
        part_listing::list_from_entry(dir, u, (w.entries)(dir), 0, none),
    )) by {
        reveal_with_fuel(World::run, 4);
    }
}

/// A part that an upload holds is in its listing, with its ETag and its size.
pub proof fn held_parts_are_listed(
    w: World,
    base: Seq<char>,
    id: Seq<char>,
    u: UploadView,
    n: u32,
    body: Seq<u8>,
    etag: Seq<char>,
)
    requires
        w.is_valid(),
        parts::is_id(id),
        has_upload(w, base, id, u),
        has_readable_etags(w, parts::upload_home(base, id)),
        has_part(w, base, id, n, body, etag),
    ensures
        exists|p: PartView| #[trigger]
            listed_parts(w, base, id, u.started_at).contains(p) && p.part_number == n && p.etag
                == etag && p.size == body.len() as u64,
{
    let dir = parts::upload_home(base, id);
    let es = (w.entries)(dir);
    let home = home_place(base, id);
    list_gives_the_parts(w, base, id, u);
    lemma_home(base, id);
    lemma_files(dir, n);
    parts::part_name_reads_back(n);
    assert(disk::lists(w.nodes, home, es));
    assert(w.nodes.contains_key(home.push(parts::body_name(n))));
    let k = choose|k: int| 0 <= k < es.len() && (#[trigger] es[k]).name == parts::body_name(n);
    let p = listed_entry(w, dir, u.started_at, es[k])->0;
    assert(listed_entry(w, dir, u.started_at, es[k]) == Some(p));
    assert(listed_parts(w, base, id, u.started_at).contains(p));
}

/// An upload that was begun holds no parts yet, where its id is new.
pub proof fn new_uploads_hold_no_parts(
    w: World,
    base: Seq<char>,
    i: CreateMultipartUploadInput,
    out: CreatedView,
    after: World,
)
    requires
        laws::objects::is_addressed(w, base, i.bucket@, i.key@),
        w.run(multipart::create_multipart_upload_script(base, i)) == End::Done(after.nodes, out),
        !w.nodes.contains_key(home_place(base, out.upload_id)),
        after.is_valid(),
        after.codec == w.codec,
    ensures
        after.run(part_listing::list_parts_script(base, out.upload_id)) == End::Done(
            after.nodes,
            PartsView { bucket: i.bucket@, key: i.key@, parts: Seq::empty() },
        ),
{
    let id = out.upload_id;
    let u = multipart::new_record(i, w.now);
    let dir = parts::upload_home(base, id);
    let home = home_place(base, id);
    create_adds_the_upload(w, base, i);
    begun_uploads_are_under_way(w, base, i, out, after, i.bucket@, i.key@, arbitrary());
    lemma_home(base, id);
    assert forall|x: Seq<char>| #[trigger] after.nodes.contains_key(home.push(x)) implies x
        == "meta.json"@ by {
        if w.nodes.contains_key(home.push(x)) {
            assert(home.push(x).drop_last() =~= home);
        }
        assert(home.push(x).len() > home.len());
        assert(home.push(x).last() == x);
        assert(home.push("meta.json"@).last() == "meta.json"@);
    }
    assert(has_readable_etags(after, dir)) by {
        assert forall|n: u32|
            match disk::file_at(after.nodes, #[trigger] parts::etag_file(dir, n)) {
                Some(text) => utf8::valid_utf8(text),
                None => true,
            } by {
            lemma_files(dir, n);
            assert(!after.nodes.contains_key(home.push(parts::etag_name(n))));
        }
    }
    list_gives_the_parts(after, base, id, u);
    let all = listed_parts(after, base, id, u.started_at);
    let es = (after.entries)(dir);
    if all.len() > 0 {
        assert(all.contains(all[0]));
        let k = choose|k: int|
            0 <= k < es.len() && #[trigger] listed_entry(after, dir, u.started_at, es[k]) == Some(
                all[0],
            );
        assert(disk::lists(after.nodes, home, es));
        assert(after.nodes.contains_key(home.push(es[k].name)));
        reveal_strlit("meta.json");
        reveal_strlit(".bin");
        assert("meta.json"@.last() == 'n' && ".bin"@.last() == 'n');
        assert("meta.json"@[7] == 'o' && ".bin"@[2] == 'i');
        assert(!".bin"@.is_suffix_of("meta.json"@)) by {
            if ".bin"@.is_suffix_of("meta.json"@) {
                assert("meta.json"@.subrange(5, 9)[2] == ".bin"@[2]);
            }
        }
    }
    assert(all =~= Seq::<PartView>::empty());
}

/// A refused completion can be mended: the upload is still under way with its parts,
/// every object is as it was, and completing the upload with the right parts then does
/// what it would have done before.
pub proof fn refused_completions_can_be_mended(
    w: World,
    base: Seq<char>,
    bad: CompleteMultipartUploadInput,
    good: CompleteMultipartUploadInput,
    u: UploadView,
    bodies: Seq<Seq<u8>>,
    after: World,
)
    requires
        is_completable(w, base, good.upload_id@, u),
        w.run(multipart::complete_multipart_upload_script(base, bad)) is Refused,
        w.left_by(multipart::complete_multipart_upload_script(base, bad)) == Some(after.nodes),
        after.is_valid(),
        after.codec == w.codec,
        multipart::parts_fault(good.parts@) is None,
        bodies.len() == good.parts@.len(),
        are_there(w, base, good, bodies, bodies.len() as int),
    ensures
        has_upload(after, base, good.upload_id@, u),
        are_there(after, base, good, bodies, bodies.len() as int),
        forall|bucket: Seq<char>, key: Seq<char>, object: ObjectView|
            #![trigger laws::objects::holds(after, base, bucket, key, object)]
            laws::objects::holds(after, base, bucket, key, object) == laws::objects::holds(
                w,
                base,
                bucket,
                key,
                object,
            ),
        ground::has_room(w.nodes, base, u.bucket, u.key) ==> after.run(
            multipart::complete_multipart_upload_script(base, good),
        ) is Done,
{
    assert forall|k: int| 0 <= k < bodies.len() implies is_there(
        after,
        base,
        good.upload_id@,
        #[trigger] good.parts@[k],
        bodies[k],
    ) by {
        assert(is_there(w, base, good.upload_id@, good.parts@[k], bodies[k]));
    }
    complete_joins_the_parts(after, base, good, u, bodies);
}

} // verus!
