//! What holds of writes: of those that break off halfway, and of what was written.

use crate::disk;
use crate::disk::{Codec, Node, World};
use crate::exchange::{AnswerView, EffectView, QueryView, Script};
use crate::laws::ground;
use crate::laws::rules;
use crate::laws::uploads;
use crate::meta;
use crate::meta::MetaView;
use crate::paths;
use crate::places;
use crate::store::multipart;
use crate::store::objects;
use crate::store::parts;
use crate::store::steps;
use crate::upload::UploadView;
use vstd::prelude::*;
use vstd::utf8;

verus! {

/// However far the writing of an object has come, its sidecar is the one that was
/// there before, or it is the new one as a whole and the new body stands beside it.
pub proof fn sidecars_follow_bodies(
    codec: Codec,
    nodes: Map<Seq<Seq<char>>, Node>,
    base: Seq<char>,
    bucket: Seq<char>,
    key: Seq<char>,
    body: Seq<u8>,
    m: MetaView,
    k: int,
)
    requires
        paths::is_absolute(base),
        objects::name_fault(bucket, key) is None,
        !places::directory_form(key),
        0 <= k <= steps::object_writing(base, bucket, key, body, m).len(),
    ensures
        ({
            let fx = steps::object_writing(base, bucket, key, body, m);
            let path = paths::object_file(base, bucket, key);
            let side = paths::meta_file(base, bucket, key);
            match disk::carried_out(codec, nodes, fx.take(k)) {
                Some(n) => {
                    ||| disk::file_at(n, side) == disk::file_at(nodes, side)
                    ||| disk::file_at(n, side) == Some((codec.meta_bytes)(m)) && disk::file_at(
                        n,
                        path,
                    ) == Some(body)
                },
                None => true,
            }
        }),
{
    ground::lemma_places(base, bucket, key);
    ground::lemma_sidecar_places(base, bucket, key);
    let fx = steps::object_writing(base, bucket, key, body, m);
    let p = paths::object_file(base, bucket, key);
    let side = paths::meta_file(base, bucket, key);
    let temp = paths::temporary(side);
    let none = Seq::<EffectView>::empty();
    let e0 = EffectView::CreateDirAll { path: paths::parent(p)->0 };
    let e1 = EffectView::Write { path: p, bytes: body };
    let e2 = EffectView::WriteMeta { path: temp, meta: m };
    let e3 = EffectView::Rename { from: temp, to: side };
    assert(fx =~= none.push(e0).push(e1).push(e2).push(e3));
    assert(fx.take(0) =~= none);
    assert(fx.take(1) =~= none.push(e0));
    assert(fx.take(2) =~= none.push(e0).push(e1));
    assert(fx.take(3) =~= none.push(e0).push(e1).push(e2));
    assert(fx.take(4) =~= fx);
    ground::lemma_in_turn(codec, nodes, none, e0);
    ground::lemma_in_turn(codec, nodes, fx.take(1), e1);
    ground::lemma_in_turn(codec, nodes, fx.take(2), e2);
    ground::lemma_in_turn(codec, nodes, fx.take(3), e3);
    let r0 = disk::carried_out(codec, nodes, fx.take(1));
    let way = ground::body_place(base, bucket, key).drop_last();
    let sp = ground::sidecar_place(base, bucket, key);
    if let Some(n0) = r0 {
        assert(n0 == disk::with_dirs(nodes, way));
        assert(!sp.is_prefix_of(way)) by {
            assert(sp.len() == way.len() + 1);
        }
        assert(disk::file_at(n0, side) == disk::file_at(nodes, side));
    }
}

/// However far the upload of a part has come, its ETag is the one that was there
/// before, or it is the new one and the new body stands beside it.
pub proof fn etags_follow_bodies(
    codec: Codec,
    nodes: Map<Seq<Seq<char>>, Node>,
    base: Seq<char>,
    id: Seq<char>,
    n: u32,
    body: Seq<u8>,
    k: int,
)
    requires
        parts::is_id(id),
        0 <= k <= 2,
    ensures
        ({
            let dir = parts::upload_home(base, id);
            let fx = multipart::part_writing(dir, n, body);
            let etag = parts::etag_file(dir, n);
            match disk::carried_out(codec, nodes, fx.take(k)) {
                Some(after) => {
                    ||| disk::file_at(after, etag) == disk::file_at(nodes, etag)
                    ||| disk::file_at(after, etag) == Some(utf8::encode_utf8(meta::etag_of(body)))
                        && disk::file_at(after, parts::body_file(dir, n)) == Some(body)
                },
                None => true,
            }
        }),
{
    let dir = parts::upload_home(base, id);
    let fx = multipart::part_writing(dir, n, body);
    let none = Seq::<EffectView>::empty();
    uploads::lemma_files(dir, n);
    uploads::lemma_parts_apart(n, n);
    assert(fx.take(0) =~= none);
    assert(fx.take(1) =~= none.push(fx[0]));
    assert(fx.take(2) =~= fx.take(1).push(fx[1]));
    ground::lemma_in_turn(codec, nodes, none, fx[0]);
    ground::lemma_in_turn(codec, nodes, fx.take(1), fx[1]);
    let at = paths::names(dir);
    assert(at.push(parts::body_name(n)).last() != at.push(parts::etag_name(n)).last());
}

/// Metadata that was written reads back: where `ObjectMeta::write` has been carried
/// out, what `ObjectMeta::read` asks for is that metadata.
pub proof fn metadata_reads_back(w: World, after: World, path: Seq<char>, m: MetaView)
    requires
        w.codec.is_faithful(),
        m.user_metadata.dom().finite(),
        disk::carried_out(w.codec, w.nodes, meta::sidecar_writing(path, m)) == Some(after.nodes),
        after.codec == w.codec,
    ensures
        after.answer(QueryView::ReadMeta { path }) == AnswerView::Meta(m),
{
    let fx = meta::sidecar_writing(path, m);
    assert(fx.drop_first().drop_first() =~= Seq::<EffectView>::empty());
    reveal_with_fuel(disk::carried_out, 3);
}

/// A sidecar comes into its place by renaming: what writes an object writes its body at
/// its own path and its metadata at another place than either, from which it is renamed to
/// the path of the sidecar.
pub proof fn sidecars_come_by_renaming(
    base: Seq<char>,
    bucket: Seq<char>,
    key: Seq<char>,
    body: Seq<u8>,
    m: MetaView,
)
    requires
        paths::is_absolute(base),
        objects::name_fault(bucket, key) is None,
        !places::directory_form(key),
    ensures
        ({
            let fx = steps::object_writing(base, bucket, key, body, m);
            let path = paths::object_file(base, bucket, key);
            let side = paths::meta_file(base, bucket, key);
            exists|j: int, temp: Seq<char>| #[trigger]
                is_renamed(fx, j, temp, path, side, body, m)
        }),
{
    ground::lemma_places(base, bucket, key);
    ground::lemma_sidecar_places(base, bucket, key);
    let fx = steps::object_writing(base, bucket, key, body, m);
    let path = paths::object_file(base, bucket, key);
    let side = paths::meta_file(base, bucket, key);
    let temp = paths::temporary(side);
    assert(fx.len() == 4);
    assert(is_renamed(fx, 2, temp, path, side, body, m));
}

/// The metadata is written at `temp` by the `j`th effect and renamed by the next one; the
/// others make directories or write the body.
pub open spec fn is_renamed(
    fx: Seq<EffectView>,
    j: int,
    temp: Seq<char>,
    path: Seq<char>,
    side: Seq<char>,
    body: Seq<u8>,
    m: MetaView,
) -> bool {
    &&& 0 <= j < fx.len() - 1
    &&& fx[j] == (EffectView::WriteMeta { path: temp, meta: m })
    &&& fx[j + 1] == (EffectView::Rename { from: temp, to: side })
    &&& paths::names(temp) != paths::names(side)
    &&& paths::names(temp) != paths::names(path)
    &&& forall|k: int|
        0 <= k < fx.len() && k != j && k != j + 1 ==> (#[trigger] fx[k]) is CreateDirAll || fx[k]
            == (EffectView::Write { path, bytes: body })
}

/// The record of an upload comes into its place by renaming too.
pub proof fn records_come_by_renaming(dir: Seq<char>, u: UploadView)
    ensures
        ({
            let fx = multipart::record_writing(dir, u);
            let path = parts::record_file(dir);
            &&& fx.len() == 3
            &&& fx[0] == (EffectView::CreateDirAll { path: dir })
            &&& fx[1] is WriteUpload && fx[1]->upload == u
            &&& paths::names(fx[1]->WriteUpload_path) != paths::names(path)
            &&& fx[2] == (EffectView::Rename { from: fx[1]->WriteUpload_path, to: path })
        }),
{
    uploads::lemma_files(dir, 1);
    let at = paths::names(dir);
    assert(at.push("meta.json"@).last() != at.push("meta.tmp"@).last());
}

/// An upload that is completed goes last: all that comes before writes the object, and
/// takes nothing off the disk.
pub proof fn completed_uploads_go_last(
    base: Seq<char>,
    id: Seq<char>,
    u: UploadView,
    body: Seq<u8>,
    digests: Seq<Seq<u8>>,
    now: u64,
)
    ensures
        match rules::and_then_told(
            multipart::complete_from_clock(base, id, u, body, digests),
            AnswerView::Time(now),
        ) {
            Script::Finish(fx, _) => {
                &&& fx.len() > 0
                &&& fx[fx.len() - 1] == (EffectView::DiscardDirAll {
                    path: parts::upload_home(base, id),
                })
                &&& forall|k: int|
                    0 <= k < fx.len() - 1 ==> (#[trigger] fx[k]) !is DiscardDirAll
                        && fx[k] !is RemoveDirAll && fx[k] !is RemoveFile
            },
            _ => false,
        },
{
}

} // verus!
