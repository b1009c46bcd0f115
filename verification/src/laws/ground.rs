//! Where buckets and objects lie, and what writing an object does to the disk.

use crate::disk;
use crate::disk::{Codec, End, Node, World};
use crate::exchange::{EffectView, QueryView, Script};
use crate::meta::MetaView;
use crate::paths;
use crate::places;
use crate::store::steps;
use vstd::prelude::*;

verus! {

/// The place of an object's body.
pub open spec fn body_place(base: Seq<char>, bucket: Seq<char>, key: Seq<char>) -> Seq<Seq<char>> {
    paths::names(paths::object_file(base, bucket, key))
}

/// The place of an object's sidecar.
pub open spec fn sidecar_place(base: Seq<char>, bucket: Seq<char>, key: Seq<char>) -> Seq<
    Seq<char>,
> {
    paths::names(paths::meta_file(base, bucket, key))
}

/// The place of the file that becomes the sidecar.
pub open spec fn temporary_place(base: Seq<char>, bucket: Seq<char>, key: Seq<char>) -> Seq<
    Seq<char>,
> {
    paths::names(paths::temporary(paths::meta_file(base, bucket, key)))
}

/// A bucket name that passes is a name, and holds no slash.
pub proof fn lemma_bucket_name(bucket: Seq<char>)
    requires
        paths::bucket_fault(bucket) is None,
    ensures
        !bucket.contains('/'),
        !bucket.contains('.'),
        paths::is_name(bucket),
        bucket != ".."@,
        paths::names(bucket) == seq![bucket],
        !paths::is_absolute(bucket),
{
    lemma_no_stray(bucket, 0);
    reveal_strlit(".");
    reveal_strlit("..");
    assert(bucket.len() > 0) by {
        if bucket.len() == 0 {
            assert(vstd::utf8::encode_utf8(bucket).len() == 0);
        }
    }
    assert forall|i: int| 0 <= i < bucket.len() implies bucket[i] != '/' && bucket[i] != '.' by {
        assert(paths::bucket_char(bucket[i]));
    }
    assert("."@[0] == '.');
    assert(".."@[0] == '.');
    places::lemma_single(bucket);
}

/// Where no character strays, all may stand in a bucket name.
pub proof fn lemma_no_stray(name: Seq<char>, i: int)
    requires
        paths::stray_from(name, i) is None,
        0 <= i,
    ensures
        forall|k: int| i <= k < name.len() ==> paths::bucket_char(#[trigger] name[k]),
    decreases name.len() - i,
{
    if i < name.len() {
        lemma_no_stray(name, i + 1);
    }
}

/// Where a bucket and its objects lie.
pub proof fn lemma_places(base: Seq<char>, bucket: Seq<char>, key: Seq<char>)
    requires
        paths::is_absolute(base),
        paths::bucket_fault(bucket) is None,
        paths::key_fault(key) is None,
    ensures
        paths::names(paths::bucket_dir(base, bucket)) == paths::names(base).push(bucket),
        body_place(base, bucket, key) == paths::names(base).push(bucket) + paths::names(key),
        paths::segments(paths::object_file(base, bucket, key)).last() == paths::segments(
            key,
        ).last(),
        paths::is_absolute(paths::object_file(base, bucket, key)),
        paths::lies_under(base, paths::object_file(base, bucket, key)),
        places::plain(paths::names(key)),
{
    lemma_bucket_name(bucket);
    places::lemma_names_join(base, bucket);
    let dir = paths::bucket_dir(base, bucket);
    assert(paths::names(base) + seq![bucket] =~= paths::names(base).push(bucket));
    places::lemma_names_join(dir, key);
    let p = paths::object_file(base, bucket, key);
    let b = paths::components(base);
    let c = paths::components(p);
    assert(b =~= seq!["/"@] + paths::names(base));
    assert(c =~= seq!["/"@] + (paths::names(base).push(bucket) + paths::names(key)));
    assert(c.subrange(0, b.len() as int) =~= b);
    lemma_plain_key(key);
}

/// A key that passes has no `..` among its names.
proof fn lemma_plain_key(key: Seq<char>)
    requires
        !paths::segments(key).contains(".."@),
    ensures
        places::plain(paths::names(key)),
{
    let s = paths::segments(key);
    if paths::names(key).contains(".."@) {
        s.lemma_filter_contains_rev(places::name_test(), ".."@);
    }
}

/// The operations find that an object lies under the base directory.
pub proof fn lemma_stays_under(w: World, base: Seq<char>, bucket: Seq<char>, key: Seq<char>)
    requires
        w.is_valid(),
        paths::is_absolute(base),
        paths::bucket_fault(bucket) is None,
        paths::key_fault(key) is None,
    ensures
        ({
            let path = paths::object_file(base, bucket, key);
            steps::escape_refusal(base, path, w.answer(QueryView::Resolve { path })) is None
        }),
{
    lemma_places(base, bucket, key);
    let p = paths::object_file(base, bucket, key);
    if disk::there(w.nodes, p) {
        let r = (w.resolved)(p);
        assert(paths::components(r) == seq!["/"@] + paths::names(p));
        assert(paths::components(p) == seq!["/"@] + paths::names(p));
    }
}

/// What the name of a sidecar's temporary file ends with.
pub open spec fn temporary_suffix() -> Seq<char> {
    ".fals3-meta.tmp"@
}

/// The names that lead to a sidecar.
pub proof fn lemma_sidecar_name(base: Seq<char>, bucket: Seq<char>, key: Seq<char>)
    requires
        paths::bucket_fault(bucket) is None,
        !paths::is_absolute(key),
    ensures
        ({
            let name = paths::segments(key).last() + paths::sidecar_suffix();
            let q = paths::meta_file(base, bucket, key);
            &&& sidecar_place(base, bucket, key) == paths::names(base).push(bucket)
                + paths::segments(key).drop_last().filter(places::name_test()).push(name)
            &&& !places::directory_form(key) ==> sidecar_place(base, bucket, key) == paths::names(
                base,
            ).push(bucket) + paths::names(key).drop_last().push(name)
            &&& paths::segments(q).last() == name
            &&& !places::directory_form(q)
            &&& name.len() > 2
        }),
{
    reveal_strlit(".fals3-meta.json");
    reveal_strlit(".");
    let s = paths::sidecar_suffix();
    assert forall|i: int| 0 <= i < s.len() implies s[i] != '/' by {}
    let name = paths::segments(key).last() + s;
    assert(name.len() > 2);
    places::lemma_names_add(key, s);
    lemma_bucket_name(bucket);
    places::lemma_names_join(base, bucket);
    let dir = paths::bucket_dir(base, bucket);
    assert(paths::names(base) + seq![bucket] =~= paths::names(base).push(bucket));
    assert(!paths::is_absolute(key + s)) by {
        if key.len() > 0 {
            assert((key + s)[0] == key[0]);
        } else {
            assert((key + s)[0] == s[0]);
        }
    }
    places::lemma_names_join(dir, key + s);
}

/// Where the sidecar of an object lies, if the object can be a file.
pub proof fn lemma_sidecar_places(base: Seq<char>, bucket: Seq<char>, key: Seq<char>)
    requires
        paths::is_absolute(base),
        paths::bucket_fault(bucket) is None,
        paths::key_fault(key) is None,
        !places::directory_form(key),
    ensures
        ({
            let body = body_place(base, bucket, key);
            let p = paths::object_file(base, bucket, key);
            let name = paths::names(key).last();
            &&& paths::names(key).len() > 0
            &&& body.last() == name
            &&& paths::parent(p) is Some
            &&& paths::names(paths::parent(p)->0) == body.drop_last()
            &&& sidecar_place(base, bucket, key) == body.drop_last().push(
                name + paths::sidecar_suffix(),
            )
            &&& temporary_place(base, bucket, key) == body.drop_last().push(
                name + temporary_suffix(),
            )
            &&& !places::directory_form(p)
            &&& !places::directory_form(paths::meta_file(base, bucket, key))
            &&& !places::directory_form(paths::temporary(paths::meta_file(base, bucket, key)))
            &&& places::plain(sidecar_place(base, bucket, key)) == places::plain(body.drop_last())
            &&& places::plain(temporary_place(base, bucket, key)) == places::plain(body.drop_last())
            &&& body != sidecar_place(base, bucket, key)
            &&& body != temporary_place(base, bucket, key)
            &&& sidecar_place(base, bucket, key) != temporary_place(base, bucket, key)
        }),
{
    lemma_places(base, bucket, key);
    let p = paths::object_file(base, bucket, key);
    let body = paths::names(p);
    let name = paths::segments(key).last();
    assert(name != ".."@) by {
        assert(paths::segments(key).len() > 0) by {
            places::lemma_pieces(key);
        }
        assert(paths::segments(key).contains(name));
    }
    places::lemma_file_form(key);
    places::lemma_file_form(p);
    places::lemma_file_name(p);
    let dir = paths::names(paths::parent(p)->0);
    assert(body.drop_last() =~= dir);
    reveal_strlit(".fals3-meta.json");
    reveal_strlit(".fals3-meta.tmp");
    reveal_strlit(".tmp");
    reveal_strlit(".");
    reveal_strlit("..");
    let side = name + paths::sidecar_suffix();
    assert forall|i: int| 0 <= i < side.len() implies side[i] != '/' by {
        if i < name.len() {
            assert(name.contains(name[i]));
        }
    }
    assert(side.len() > 2);
    let q = paths::meta_file(base, bucket, key);
    lemma_sidecar_name(base, bucket, key);
    assert((paths::names(base).push(bucket) + paths::names(key)).drop_last() =~= paths::names(
        base,
    ).push(bucket) + paths::names(key).drop_last());
    assert(paths::names(q) =~= body.drop_last().push(side));
    let ext = seq!['j', 's', 'o', 'n'];
    let stem = name + seq!['.', 'f', 'a', 'l', 's', '3', '-', 'm', 'e', 't', 'a'];
    assert(side =~= stem.push('.') + ext);
    assert(!ext.contains('.')) by {
        assert forall|i: int| 0 <= i < ext.len() implies ext[i] != '.' by {}
    }
    places::lemma_temporary(q, stem, ext);
    let temp = stem + ".tmp"@;
    assert(temp =~= name + temporary_suffix());
    let a = body.drop_last().push(side);
    let b = body.drop_last().push(temp);
    assert(paths::names(q).drop_last() =~= body.drop_last());
    assert(a.last() == side && b.last() == temp && body.last() == name);
    assert(side.len() == name.len() + 16 && temp.len() == name.len() + 15);
    lemma_plain_push(body.drop_last(), side);
    lemma_plain_push(body.drop_last(), temp);
}

/// One more name that is not `..`.
pub proof fn lemma_plain_push(ns: Seq<Seq<char>>, n: Seq<char>)
    requires
        n != ".."@,
    ensures
        places::plain(ns.push(n)) == places::plain(ns),
{
    let t = ns.push(n);
    if ns.contains(".."@) {
        let k = choose|k: int| 0 <= k < ns.len() && ns[k] == ".."@;
        assert(t[k] == ".."@);
    }
    if t.contains(".."@) {
        let k = choose|k: int| 0 <= k < t.len() && t[k] == ".."@;
        assert(ns[k] == ".."@);
    }
}

/// The disk has room for an object: its key can name a file, and neither a file
/// stands in its way nor a directory in its place or that of its sidecar.
pub open spec fn has_room(
    nodes: Map<Seq<Seq<char>>, Node>,
    base: Seq<char>,
    bucket: Seq<char>,
    key: Seq<char>,
) -> bool {
    &&& !places::directory_form(key)
    &&& disk::is_clear(nodes, body_place(base, bucket, key).drop_last())
    &&& !is_dir(nodes, body_place(base, bucket, key))
    &&& !is_dir(nodes, sidecar_place(base, bucket, key))
    &&& !is_dir(nodes, temporary_place(base, bucket, key))
}

/// There is a directory at the place `ns`.
pub open spec fn is_dir(nodes: Map<Seq<Seq<char>>, Node>, ns: Seq<Seq<char>>) -> bool {
    nodes.contains_key(ns) && nodes[ns] is Dir
}

/// The disk with an object on it: its directories, its body and its sidecar, and
/// no temporary file.
pub open spec fn with_object(
    codec: Codec,
    nodes: Map<Seq<Seq<char>>, Node>,
    base: Seq<char>,
    bucket: Seq<char>,
    key: Seq<char>,
    body: Seq<u8>,
    m: MetaView,
) -> Map<Seq<Seq<char>>, Node> {
    disk::with_dirs(nodes, body_place(base, bucket, key).drop_last()).insert(
        body_place(base, bucket, key),
        Node::File(body),
    ).insert(sidecar_place(base, bucket, key), Node::File((codec.meta_bytes)(m))).remove(
        temporary_place(base, bucket, key),
    )
}

/// The disk after one more effect.
pub open spec fn and_after(
    codec: Codec,
    nodes: Option<Map<Seq<Seq<char>>, Node>>,
    e: EffectView,
) -> Option<Map<Seq<Seq<char>>, Node>> {
    match nodes {
        Some(n) => disk::affected(codec, n, e),
        None => None,
    }
}

/// A list of effects is carried out one by one.
pub proof fn lemma_in_turn(
    codec: Codec,
    nodes: Map<Seq<Seq<char>>, Node>,
    fx: Seq<EffectView>,
    e: EffectView,
)
    ensures
        disk::carried_out(codec, nodes, fx.push(e)) == and_after(
            codec,
            disk::carried_out(codec, nodes, fx),
            e,
        ),
    decreases fx.len(),
{
    let all = fx.push(e);
    if fx.len() == 0 {
        assert(all.drop_first() =~= Seq::<EffectView>::empty());
        assert(disk::carried_out(codec, nodes, all) == (match disk::affected(codec, nodes, e) {
            Some(n) => disk::carried_out(codec, n, all.drop_first()),
            None => None,
        }));
    } else {
        assert(all.drop_first() =~= fx.drop_first().push(e));
        if let Some(n) = disk::affected(codec, nodes, fx[0]) {
            lemma_in_turn(codec, n, fx.drop_first(), e);
        }
    }
}

/// Writing an object succeeds where there is room for it, and leaves the object on
/// the disk.
pub proof fn lemma_object_written(
    codec: Codec,
    nodes: Map<Seq<Seq<char>>, Node>,
    base: Seq<char>,
    bucket: Seq<char>,
    key: Seq<char>,
    body: Seq<u8>,
    m: MetaView,
)
    requires
        disk::is_tree(nodes),
        paths::is_absolute(base),
        paths::bucket_fault(bucket) is None,
        paths::key_fault(key) is None,
        disk::dir_at(nodes, paths::bucket_dir(base, bucket)),
    ensures
        disk::carried_out(codec, nodes, steps::object_writing(base, bucket, key, body, m)) == (
        if has_room(nodes, base, bucket, key) {
            Some(with_object(codec, nodes, base, bucket, key, body, m))
        } else {
            None
        }),
{
    lemma_places(base, bucket, key);
    let p = paths::object_file(base, bucket, key);
    let fx = steps::object_writing(base, bucket, key, body, m);
    let write = EffectView::Write { path: p, bytes: body };
    let side = paths::meta_file(base, bucket, key);
    let temp = paths::temporary(side);
    let making = steps::parent_making(p);
    let e2 = EffectView::WriteMeta { path: temp, meta: m };
    let e3 = EffectView::Rename { from: temp, to: side };
    assert(fx =~= making.push(write).push(e2).push(e3));
    lemma_in_turn(codec, nodes, making.push(write).push(e2), e3);
    lemma_in_turn(codec, nodes, making.push(write), e2);
    lemma_in_turn(codec, nodes, making, write);
    let r = disk::carried_out(codec, nodes, making);
    if places::directory_form(key) {
        assert(and_after(codec, r, write) is None);
    } else {
        lemma_sidecar_places(base, bucket, key);
        let none = Seq::<EffectView>::empty();
        let e0 = EffectView::CreateDirAll { path: paths::parent(p)->0 };
        lemma_in_turn(codec, nodes, none, e0);
        assert(making =~= none.push(e0));
        assert(disk::carried_out(codec, nodes, none) == Some(nodes));
        assert(r == disk::affected(codec, nodes, e0));
        lemma_plain_body(nodes, base, bucket, key);
        lemma_object_steps(codec, nodes, base, bucket, key, body, m);
    }
}

proof fn lemma_object_steps(
    codec: Codec,
    nodes: Map<Seq<Seq<char>>, Node>,
    base: Seq<char>,
    bucket: Seq<char>,
    key: Seq<char>,
    body: Seq<u8>,
    m: MetaView,
)
    requires
        disk::is_tree(nodes),
        paths::is_absolute(base),
        paths::bucket_fault(bucket) is None,
        paths::key_fault(key) is None,
        !places::directory_form(key),
        places::plain(body_place(base, bucket, key)),
        places::plain(body_place(base, bucket, key).drop_last()),
    ensures
        ({
            let p = paths::object_file(base, bucket, key);
            let side = paths::meta_file(base, bucket, key);
            let temp = paths::temporary(side);
            let e0 = EffectView::CreateDirAll { path: paths::parent(p)->0 };
            let e1 = EffectView::Write { path: p, bytes: body };
            let e2 = EffectView::WriteMeta { path: temp, meta: m };
            let e3 = EffectView::Rename { from: temp, to: side };
            let r = disk::affected(codec, nodes, e0);
            and_after(codec, and_after(codec, and_after(codec, r, e1), e2), e3) == (if has_room(
                nodes,
                base,
                bucket,
                key,
            ) {
                Some(with_object(codec, nodes, base, bucket, key, body, m))
            } else {
                None
            })
        }),
{
    lemma_places(base, bucket, key);
    lemma_sidecar_places(base, bucket, key);
    let p = paths::object_file(base, bucket, key);
    let side = paths::meta_file(base, bucket, key);
    let temp = paths::temporary(side);
    let at = body_place(base, bucket, key);
    let sp = sidecar_place(base, bucket, key);
    let tp = temporary_place(base, bucket, key);
    let way = at.drop_last();
    let bytes = (codec.meta_bytes)(m);
    assert(way.is_prefix_of(way));
    assert(sp.drop_last() =~= way);
    assert(tp.drop_last() =~= way);
    assert(at.len() > way.len() && sp.len() > way.len() && tp.len() > way.len());
    if disk::is_clear(nodes, way) {
        let n0 = disk::with_dirs(nodes, way);
        let n1 = n0.insert(at, Node::File(body));
        let n2 = n1.insert(tp, Node::File(bytes));
        assert(n0.contains_key(way) && n0[way] is Dir);
        assert(is_dir(n0, at) == is_dir(nodes, at));
        assert(is_dir(n0, tp) == is_dir(nodes, tp));
        assert(is_dir(n0, sp) == is_dir(nodes, sp));
        assert(disk::written(n0, p, body) == (if is_dir(nodes, at) {
            None
        } else {
            Some(n1)
        }));
        assert(disk::written(n1, temp, bytes) == (if is_dir(nodes, tp) {
            None
        } else {
            Some(n2)
        }));
        assert(disk::file_at(n2, temp) == Some(bytes));
        assert(disk::written(n2, side, bytes) == (if is_dir(nodes, sp) {
            None
        } else {
            Some(n2.insert(sp, Node::File(bytes)))
        }));
        assert(n2.insert(sp, Node::File(bytes)).remove(tp) =~= with_object(
            codec,
            nodes,
            base,
            bucket,
            key,
            body,
            m,
        ));
    }
}

/// The way to an object goes through no `..`.
proof fn lemma_plain_body(
    nodes: Map<Seq<Seq<char>>, Node>,
    base: Seq<char>,
    bucket: Seq<char>,
    key: Seq<char>,
)
    requires
        disk::is_tree(nodes),
        paths::is_absolute(base),
        paths::bucket_fault(bucket) is None,
        paths::key_fault(key) is None,
        disk::dir_at(nodes, paths::bucket_dir(base, bucket)),
        paths::names(key).len() > 0,
    ensures
        places::plain(body_place(base, bucket, key)),
        places::plain(body_place(base, bucket, key).drop_last()),
{
    lemma_places(base, bucket, key);
    let at = body_place(base, bucket, key);
    let front = paths::names(base).push(bucket);
    assert(places::plain(front));
    if at.contains(".."@) {
        let k = choose|k: int| 0 <= k < at.len() && at[k] == ".."@;
        if k < front.len() {
            assert(front[k] == ".."@);
        } else {
            assert(paths::names(key)[k - front.len()] == ".."@);
        }
    }
    let way = at.drop_last();
    if way.contains(".."@) {
        let k = choose|k: int| 0 <= k < way.len() && way[k] == ".."@;
        assert(at[k] == ".."@);
    }
}

// ---- the disk stays a tree ----

proof fn lemma_prefix(q: Seq<Seq<char>>, ns: Seq<Seq<char>>)
    requires
        q.is_prefix_of(ns),
    ensures
        places::plain(ns) ==> places::plain(q),
        places::nameable(ns) ==> places::nameable(q),
        q.len() > 0 ==> q.drop_last().is_prefix_of(ns),
{
    assert forall|i: int| 0 <= i < q.len() implies q[i] == ns[i] by {
        assert(ns.subrange(0, q.len() as int)[i] == ns[i]);
    }
    if q.contains(".."@) {
        let k = choose|k: int| 0 <= k < q.len() && q[k] == ".."@;
        assert(ns[k] == ".."@);
    }
    if q.len() > 0 {
        assert(ns.subrange(0, q.len() - 1) =~= q.drop_last());
    }
}

proof fn lemma_effect_keeps_tree(codec: Codec, nodes: Map<Seq<Seq<char>>, Node>, e: EffectView)
    requires
        disk::is_tree(nodes),
    ensures
        match disk::affected(codec, nodes, e) {
            Some(n) => disk::is_tree(n),
            None => true,
        },
{
    match e {
        EffectView::CreateDirAll { path } => {
            let ns = paths::names(path);
            places::lemma_nameable(path);
            if places::plain(ns) && disk::is_clear(nodes, ns) {
                let n = disk::with_dirs(nodes, ns);
                assert forall|q: Seq<Seq<char>>| #[trigger] n.contains_key(q) implies places::plain(
                    q,
                ) && places::nameable(q) && (q.len() > 0 ==> n.contains_key(q.drop_last())
                    && n[q.drop_last()] is Dir) by {
                    if !nodes.contains_key(q) {
                        lemma_prefix(q, ns);
                        if q.len() > 0 && nodes.contains_key(q.drop_last()) {
                            assert(nodes[q.drop_last()] is Dir);
                        }
                    }
                }
            }
        },
        EffectView::Write { path, bytes } => {
            lemma_write_keeps_tree(nodes, path, bytes);
        },
        EffectView::WriteMeta { path, meta } => {
            lemma_write_keeps_tree(nodes, path, (codec.meta_bytes)(meta));
        },
        EffectView::WriteUpload { path, upload } => {
            lemma_write_keeps_tree(nodes, path, (codec.upload_bytes)(upload));
        },
        EffectView::Rename { from, to } => {
            if let Some(bytes) = disk::file_at(nodes, from) {
                lemma_write_keeps_tree(nodes, to, bytes);
                if let Some(n) = disk::written(nodes, to, bytes) {
                    assert(disk::is_tree(n));
                    lemma_removal_keeps_tree(n, paths::names(from));
                }
            }
        },
        EffectView::RemoveFile { path } => {
            if disk::file_at(nodes, path) is Some {
                lemma_removal_keeps_tree(nodes, paths::names(path));
            }
        },
        EffectView::RemoveDirAll { path } => {
            lemma_clearing_keeps_tree(nodes, paths::names(path));
        },
        EffectView::DiscardDirAll { path } => {
            lemma_clearing_keeps_tree(nodes, paths::names(path));
        },
    }
}

proof fn lemma_write_keeps_tree(
    nodes: Map<Seq<Seq<char>>, Node>,
    path: Seq<char>,
    bytes: Seq<u8>,
)
    requires
        disk::is_tree(nodes),
    ensures
        match disk::written(nodes, path, bytes) {
            Some(n) => disk::is_tree(n),
            None => true,
        },
{
    places::lemma_nameable(path);
    let ns = paths::names(path);
    if disk::is_writable(nodes, path) {
        let n = nodes.insert(ns, Node::File(bytes));
        assert forall|q: Seq<Seq<char>>| #[trigger] n.contains_key(q) implies places::plain(q)
            && places::nameable(q) && (q.len() > 0 ==> n.contains_key(q.drop_last())
            && n[q.drop_last()] is Dir) by {
            if q != ns {
                assert(nodes.contains_key(q));
            }
        }
    }
}

proof fn lemma_removal_keeps_tree(nodes: Map<Seq<Seq<char>>, Node>, ns: Seq<Seq<char>>)
    requires
        disk::is_tree(nodes),
        nodes.contains_key(ns) ==> nodes[ns] is File,
    ensures
        disk::is_tree(nodes.remove(ns)),
{
    let n = nodes.remove(ns);
    assert forall|q: Seq<Seq<char>>| #[trigger] n.contains_key(q) implies places::plain(q)
        && places::nameable(q) && (q.len() > 0 ==> n.contains_key(q.drop_last())
        && n[q.drop_last()] is Dir) by {
        assert(nodes.contains_key(q));
    }
}

proof fn lemma_clearing_keeps_tree(nodes: Map<Seq<Seq<char>>, Node>, ns: Seq<Seq<char>>)
    requires
        disk::is_tree(nodes),
    ensures
        ns.len() > 0 ==> disk::is_tree(disk::without(nodes, ns)),
{
    if ns.len() > 0 {
        let n = disk::without(nodes, ns);
        assert forall|q: Seq<Seq<char>>| #[trigger] n.contains_key(q) implies places::plain(q)
            && places::nameable(q) && (q.len() > 0 ==> n.contains_key(q.drop_last())
            && n[q.drop_last()] is Dir) by {
            assert(nodes.contains_key(q));
            if q.len() > 0 && ns.is_prefix_of(q.drop_last()) {
                assert(q.subrange(0, ns.len() as int) =~= q.drop_last().subrange(
                    0,
                    ns.len() as int,
                ));
            }
        }
    }
}

proof fn lemma_effects_keep_tree(
    codec: Codec,
    nodes: Map<Seq<Seq<char>>, Node>,
    fx: Seq<EffectView>,
)
    requires
        disk::is_tree(nodes),
    ensures
        match disk::carried_out(codec, nodes, fx) {
            Some(n) => disk::is_tree(n),
            None => true,
        },
    decreases fx.len(),
{
    if fx.len() > 0 {
        lemma_effect_keeps_tree(codec, nodes, fx[0]);
        if let Some(n) = disk::affected(codec, nodes, fx[0]) {
            lemma_effects_keep_tree(codec, n, fx.drop_first());
        }
    }
}

/// Whatever an operation does, the disk stays a tree.
pub proof fn disk_stays_a_tree<T>(w: World, s: Script<T>)
    requires
        w.is_valid(),
    ensures
        match w.run(s) {
            End::Done(n, _) => disk::is_tree(n),
            _ => true,
        },
    decreases s,
{
    match s {
        Script::Ask(q, k) => {
            disk_stays_a_tree(w, k(w.answer(q)));
        },
        Script::Finish(fx, _) => {
            lemma_effects_keep_tree(w.codec, w.nodes, fx);
        },
        Script::Fail(_) => {},
    }
}

/// All that lies above a place of the disk is a directory.
pub proof fn lemma_above(nodes: Map<Seq<Seq<char>>, Node>, ns: Seq<Seq<char>>, k: int)
    requires
        disk::is_tree(nodes),
        nodes.contains_key(ns),
        0 <= k < ns.len(),
    ensures
        is_dir(nodes, ns.take(k)),
    decreases ns.len() - k,
{
    if k == ns.len() - 1 {
        assert(ns.take(k) =~= ns.drop_last());
    } else {
        lemma_above(nodes, ns, k + 1);
        assert(ns.take(k + 1).drop_last() =~= ns.take(k));
    }
}

} // verus!
