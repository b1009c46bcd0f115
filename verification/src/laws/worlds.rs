//! That there are worlds for the laws to speak of.

use crate::disk;
use crate::disk::{Codec, End, Node, World};
use crate::error::ErrorView;
use crate::exchange::EntryKind;
use crate::exchange::{EffectView, EntryView, QueryView, Script, TreeView};
use crate::laws::ground;
use crate::meta::MetaView;
use crate::paths;
use crate::places;
use crate::upload::UploadView;
use vstd::prelude::*;
use vstd::utf8;

verus! {

// ---- a way to write metadata and records ----

/// Bytes with a 1 in front of each and a 0 behind all.
spec fn block(a: Seq<u8>) -> Seq<u8> {
    Seq::new(
        2 * a.len() + 1,
        |i: int|
            if i == 2 * a.len() {
                0u8
            } else if i % 2 == 0 {
                1u8
            } else {
                a[i / 2]
            },
    )
}

/// Some texts as bytes.
spec fn packed(ts: Seq<Seq<char>>) -> Seq<u8>
    decreases ts.len(),
{
    if ts.len() == 0 {
        Seq::empty()
    } else {
        block(utf8::encode_utf8(ts[0])) + packed(ts.drop_first())
    }
}

proof fn lemma_block(a: Seq<u8>, b: Seq<u8>, r: Seq<u8>, s: Seq<u8>)
    requires
        block(a) + r == block(b) + s,
    ensures
        a == b,
        r == s,
{
    let x = block(a) + r;
    let y = block(b) + s;
    let (n, m) = (a.len() as int, b.len() as int);
    if n < m {
        assert(x[2 * n] == 0u8);
        assert((2 * n) % 2 == 0);
        assert(y[2 * n] == 1u8);
    }
    if m < n {
        assert(y[2 * m] == 0u8);
        assert((2 * m) % 2 == 0);
        assert(x[2 * m] == 1u8);
    }
    assert forall|k: int| 0 <= k < n implies a[k] == b[k] by {
        assert((2 * k + 1) / 2 == k && (2 * k + 1) % 2 == 1);
        assert(x[2 * k + 1] == a[k]);
        assert(y[2 * k + 1] == b[k]);
    }
    assert(a =~= b);
    assert(r =~= x.skip(2 * n + 1));
    assert(s =~= y.skip(2 * n + 1));
}

/// Different texts are packed differently.
proof fn lemma_packed(a: Seq<Seq<char>>, b: Seq<Seq<char>>)
    requires
        packed(a) == packed(b),
    ensures
        a == b,
    decreases a.len(),
{
    if a.len() > 0 && b.len() > 0 {
        lemma_block(
            utf8::encode_utf8(a[0]),
            utf8::encode_utf8(b[0]),
            packed(a.drop_first()),
            packed(b.drop_first()),
        );
        utf8::encode_utf8_decode_utf8(a[0]);
        utf8::encode_utf8_decode_utf8(b[0]);
        lemma_packed(a.drop_first(), b.drop_first());
        assert(a =~= seq![a[0]] + a.drop_first());
        assert(b =~= seq![b[0]] + b.drop_first());
    } else {
        if a.len() > 0 {
            assert(packed(a).len() > 0);
        }
        if b.len() > 0 {
            assert(packed(b).len() > 0);
        }
        assert(a =~= b);
    }
}

/// A number as a text.
spec fn tally(n: u64) -> Seq<char> {
    Seq::new(n as nat, |i: int| 'x')
}

/// A text that may be missing.
spec fn maybe(s: Option<Seq<char>>) -> Seq<char> {
    match s {
        Some(t) => t.push('x'),
        None => Seq::empty(),
    }
}

proof fn lemma_maybe(a: Option<Seq<char>>, b: Option<Seq<char>>)
    requires
        maybe(a) == maybe(b),
    ensures
        a == b,
{
    assert(a is Some ==> maybe(a).len() > 0 && maybe(a).drop_last() =~= a->0);
    assert(b is Some ==> maybe(b).len() > 0 && maybe(b).drop_last() =~= b->0);
    assert(a is None ==> maybe(a).len() == 0);
    assert(b is None ==> maybe(b).len() == 0);
}

proof fn lemma_tally(a: u64, b: u64)
    requires
        tally(a) == tally(b),
    ensures
        a == b,
{
    assert(tally(a).len() == a && tally(b).len() == b);
}

/// Keys and values in turn.
spec fn pairs(m: Map<Seq<char>, Seq<char>>) -> Seq<Seq<char>> {
    let ks = m.dom().to_seq();
    Seq::new(
        2 * ks.len(),
        |i: int|
            if i % 2 == 0 {
                ks[i / 2]
            } else {
                m[ks[i / 2]]
            },
    )
}

proof fn lemma_pairs(a: Map<Seq<char>, Seq<char>>, b: Map<Seq<char>, Seq<char>>)
    requires
        a.dom().finite(),
        b.dom().finite(),
        pairs(a) == pairs(b),
    ensures
        a == b,
{
    let (ks, ls) = (a.dom().to_seq(), b.dom().to_seq());
    assert(pairs(a).len() == 2 * ks.len() && pairs(b).len() == 2 * ls.len());
    assert forall|k: int| 0 <= k < ks.len() implies ks[k] == ls[k] && a[ks[k]] == b[ls[k]] by {
        assert((2 * k) % 2 == 0 && (2 * k) / 2 == k);
        assert((2 * k + 1) % 2 == 1 && (2 * k + 1) / 2 == k);
        assert(pairs(a)[2 * k] == ks[k]);
        assert(pairs(b)[2 * k] == ls[k]);
        assert(pairs(a)[2 * k + 1] == a[ks[k]]);
        assert(pairs(b)[2 * k + 1] == b[ls[k]]);
    }
    assert(ks =~= ls);
    a.dom().lemma_to_seq_to_set_id();
    b.dom().lemma_to_seq_to_set_id();
    assert forall|x: Seq<char>| a.contains_key(x) implies #[trigger] a[x] == b[x] by {
        assert(ks.to_set().contains(x));
        let k = choose|k: int| 0 <= k < ks.len() && ks[k] == x;
        assert(a[ks[k]] == b[ls[k]]);
    }
    assert(a =~= b);
}

spec fn meta_texts(m: MetaView) -> Seq<Seq<char>> {
    seq![
        m.etag,
        tally(m.last_modified),
        maybe(m.content_type),
        maybe(m.content_encoding),
        m.storage_class,
        tally(m.size),
    ] + pairs(m.user_metadata)
}

spec fn upload_texts(u: UploadView) -> Seq<Seq<char>> {
    seq![
        u.bucket,
        u.key,
        maybe(u.content_type),
        maybe(u.content_encoding),
        tally(u.started_at),
    ] + pairs(u.user_metadata)
}

spec fn is_meta(m: MetaView, b: Seq<u8>) -> bool {
    m.user_metadata.dom().finite() && packed(meta_texts(m)) == b
}

spec fn is_upload(u: UploadView, b: Seq<u8>) -> bool {
    u.user_metadata.dom().finite() && packed(upload_texts(u)) == b
}

proof fn lemma_meta_once(a: MetaView, b: MetaView, bytes: Seq<u8>)
    requires
        is_meta(a, bytes),
        is_meta(b, bytes),
    ensures
        a == b,
{
    let (x, y) = (meta_texts(a), meta_texts(b));
    lemma_packed(x, y);
    assert(x[0] == y[0] && x[1] == y[1] && x[2] == y[2] && x[3] == y[3] && x[4] == y[4] && x[5]
        == y[5]);
    lemma_tally(a.last_modified, b.last_modified);
    lemma_tally(a.size, b.size);
    lemma_maybe(a.content_type, b.content_type);
    lemma_maybe(a.content_encoding, b.content_encoding);
    assert(x.skip(6) =~= pairs(a.user_metadata));
    assert(y.skip(6) =~= pairs(b.user_metadata));
    lemma_pairs(a.user_metadata, b.user_metadata);
}

proof fn lemma_upload_once(a: UploadView, b: UploadView, bytes: Seq<u8>)
    requires
        is_upload(a, bytes),
        is_upload(b, bytes),
    ensures
        a == b,
{
    let (x, y) = (upload_texts(a), upload_texts(b));
    lemma_packed(x, y);
    assert(x[0] == y[0] && x[1] == y[1] && x[2] == y[2] && x[3] == y[3] && x[4] == y[4]);
    lemma_tally(a.started_at, b.started_at);
    lemma_maybe(a.content_type, b.content_type);
    lemma_maybe(a.content_encoding, b.content_encoding);
    assert(x.skip(5) =~= pairs(a.user_metadata));
    assert(y.skip(5) =~= pairs(b.user_metadata));
    lemma_pairs(a.user_metadata, b.user_metadata);
}

/// One way to write metadata and records.
spec fn some_codec() -> Codec {
    Codec {
        meta_bytes: |m: MetaView| packed(meta_texts(m)),
        meta_in: |b: Seq<u8>|
            if exists|m: MetaView| is_meta(m, b) {
                Some(choose|m: MetaView| is_meta(m, b))
            } else {
                None
            },
        upload_bytes: |u: UploadView| packed(upload_texts(u)),
        upload_in: |b: Seq<u8>|
            if exists|u: UploadView| is_upload(u, b) {
                Some(choose|u: UploadView| is_upload(u, b))
            } else {
                None
            },
    }
}

/// Metadata and records can be written so that they read back.
pub proof fn codecs_exist()
    ensures
        exists|c: Codec| #[trigger] c.is_faithful(),
{
    let c = some_codec();
    assert forall|m: MetaView| m.user_metadata.dom().finite() implies (c.meta_in)(
        #[trigger] (c.meta_bytes)(m),
    ) == Some(m) by {
        let b = (c.meta_bytes)(m);
        assert(is_meta(m, b));
        lemma_meta_once(m, choose|x: MetaView| is_meta(x, b), b);
    }
    assert forall|u: UploadView| u.user_metadata.dom().finite() implies (c.upload_in)(
        #[trigger] (c.upload_bytes)(u),
    ) == Some(u) by {
        let b = (c.upload_bytes)(u);
        assert(is_upload(u, b));
        lemma_upload_once(u, choose|x: UploadView| is_upload(x, b), b);
    }
    assert(c.is_faithful());
}

// ---- a world for every disk ----

/// The names in a directory.
spec fn children(nodes: Map<Seq<Seq<char>>, Node>, ns: Seq<Seq<char>>) -> Set<Seq<char>> {
    Set::new(|n: Seq<char>| nodes.contains_key(ns.push(n)))
}

proof fn lemma_children(nodes: Map<Seq<Seq<char>>, Node>, ns: Seq<Seq<char>>)
    requires
        nodes.dom().finite(),
    ensures
        children(nodes, ns).finite(),
        children(nodes, ns).to_seq().no_duplicates(),
        forall|n: Seq<char>| #[trigger]
            children(nodes, ns).to_seq().contains(n) <==> nodes.contains_key(ns.push(n)),
{
    let last = |q: Seq<Seq<char>>| q.last();
    nodes.dom().lemma_map_finite(last);
    let all = nodes.dom().map(last);
    let some = children(nodes, ns);
    assert forall|n: Seq<char>| some.contains(n) implies all.contains(n) by {
        assert(nodes.dom().contains(ns.push(n)));
        assert(last(ns.push(n)) == n);
    }
    vstd::set_lib::lemma_len_subset(some, all);
    lemma_to_seq(some);
    some.lemma_to_seq_to_set_id();
    assert forall|n: Seq<char>| #[trigger] some.to_seq().contains(n) <==> nodes.contains_key(
        ns.push(n),
    ) by {
        assert(some.to_seq().to_set().contains(n) <==> some.contains(n));
    }
}

proof fn lemma_to_seq(s: Set<Seq<char>>)
    requires
        s.finite(),
    ensures
        s.to_seq().no_duplicates(),
    decreases s.len(),
{
    if s.len() > 0 {
        let x = s.choose();
        let rest = s.remove(x);
        lemma_to_seq(rest);
        rest.lemma_to_seq_to_set_id();
        let t = rest.to_seq();
        assert(!t.contains(x)) by {
            if t.contains(x) {
                assert(t.to_set().contains(x));
            }
        }
        let all = s.to_seq();
        assert(all == Seq::<Seq<char>>::empty().push(x) + t);
        assert forall|i: int, j: int| 0 <= i < all.len() && 0 <= j < all.len() && i != j implies all[i]
            != all[j] by {
            if i == 0 {
                assert(all[j] == t[j - 1]);
            } else if j == 0 {
                assert(all[i] == t[i - 1]);
            } else {
                assert(all[i] == t[i - 1] && all[j] == t[j - 1]);
            }
        }
    }
}

spec fn kind_of(n: Node) -> EntryKind {
    if n is Dir {
        EntryKind::Dir
    } else {
        EntryKind::File
    }
}

spec fn some_entries(nodes: Map<Seq<Seq<char>>, Node>, ns: Seq<Seq<char>>) -> Seq<EntryView> {
    let names = children(nodes, ns).to_seq();
    Seq::new(
        names.len(),
        |i: int| EntryView { name: names[i], kind: kind_of(nodes[ns.push(names[i])]) },
    )
}

proof fn lemma_some_entries(nodes: Map<Seq<Seq<char>>, Node>, ns: Seq<Seq<char>>)
    requires
        nodes.dom().finite(),
    ensures
        disk::lists(nodes, ns, some_entries(nodes, ns)),
{
    lemma_children(nodes, ns);
    let names = children(nodes, ns).to_seq();
    let es = some_entries(nodes, ns);
    assert forall|i: int| 0 <= i < es.len() implies nodes.contains_key(
        ns.push((#[trigger] es[i]).name),
    ) && es[i].kind == (if nodes[ns.push(es[i].name)] is Dir {
        EntryKind::Dir
    } else {
        EntryKind::File
    }) by {
        assert(names.contains(names[i]));
    }
    assert forall|n: Seq<char>| #[trigger] nodes.contains_key(ns.push(n)) implies exists|i: int|
        0 <= i < es.len() && (#[trigger] es[i]).name == n by {
        assert(names.contains(n));
        let i = choose|i: int| 0 <= i < names.len() && names[i] == n;
        assert(es[i].name == n);
    }
}

/// What lies under a directory, `depth` levels deep.
spec fn some_trees(nodes: Map<Seq<Seq<char>>, Node>, ns: Seq<Seq<char>>, depth: nat) -> Seq<
    TreeView,
>
    decreases depth,
{
    let names = children(nodes, ns).to_seq();
    Seq::new(
        names.len(),
        |i: int|
            if nodes[ns.push(names[i])] is Dir {
                TreeView::Dir {
                    name: names[i],
                    entries: if depth > 0 {
                        some_trees(nodes, ns.push(names[i]), (depth - 1) as nat)
                    } else {
                        Seq::empty()
                    },
                }
            } else {
                TreeView::File { name: names[i] }
            },
    )
}

/// No place is deeper than `depth`.
spec fn is_shallow(nodes: Map<Seq<Seq<char>>, Node>, depth: nat) -> bool {
    forall|q: Seq<Seq<char>>| #[trigger] nodes.contains_key(q) ==> q.len() <= depth
}

proof fn lemma_some_trees(
    nodes: Map<Seq<Seq<char>>, Node>,
    ns: Seq<Seq<char>>,
    depth: nat,
    most: nat,
)
    requires
        nodes.dom().finite(),
        is_shallow(nodes, most),
        ns.len() + depth >= most,
    ensures
        disk::depicts(nodes, ns, some_trees(nodes, ns, depth)),
    decreases depth,
{
    lemma_children(nodes, ns);
    let names = children(nodes, ns).to_seq();
    let ts = some_trees(nodes, ns, depth);
    assert forall|i: int, j: int| 0 <= i < j < ts.len() implies (#[trigger] ts[i]).name() != (
    #[trigger] ts[j]).name() by {
        assert(names[i] != names[j]);
    }
    assert forall|i: int| 0 <= i < ts.len() implies disk::depicts_one(nodes, ns, #[trigger] ts[i]) by {
        assert(names.contains(names[i]));
        let q = ns.push(names[i]);
        assert(nodes.contains_key(q));
        assert(q.len() <= most);
        if nodes[q] is Dir {
            lemma_some_trees(nodes, q, (depth - 1) as nat, most);
        }
    }
    assert forall|n: Seq<char>| #[trigger] nodes.contains_key(ns.push(n)) implies exists|i: int|
        0 <= i < ts.len() && (#[trigger] ts[i]).name() == n by {
        assert(names.contains(n));
        let i = choose|i: int| 0 <= i < names.len() && names[i] == n;
        assert(ts[i].name() == n);
    }
}

proof fn lemma_shallow(s: Set<Seq<Seq<char>>>) -> (depth: nat)
    requires
        s.finite(),
    ensures
        forall|q: Seq<Seq<char>>| #[trigger] s.contains(q) ==> q.len() <= depth,
    decreases s.len(),
{
    if s.len() == 0 {
        assert forall|q: Seq<Seq<char>>| #[trigger] s.contains(q) implies q.len() <= 0 by {
            assert(s.remove(q).len() < s.len());
        }
        0
    } else {
        let x = s.choose();
        let d = lemma_shallow(s.remove(x));
        assert forall|q: Seq<Seq<char>>| #[trigger] s.contains(q) implies q.len() <= d + x.len() by {
            if q != x {
                assert(s.remove(x).contains(q));
            }
        }
        d + x.len()
    }
}

/// A disk that is a tree of finitely many nodes is that of some world, whatever the
/// codec.
pub proof fn disks_have_worlds(nodes: Map<Seq<Seq<char>>, Node>, codec: Codec)
    requires
        disk::is_tree(nodes),
        nodes.dom().finite(),
        codec.is_faithful(),
    ensures
        exists|w: World| #[trigger] w.is_valid() && w.nodes == nodes && w.codec == codec,
{
    let most = lemma_shallow(nodes.dom());
    assert(is_shallow(nodes, most)) by {
        assert forall|q: Seq<Seq<char>>| #[trigger] nodes.contains_key(q) implies q.len() <= most by {
            assert(nodes.dom().contains(q));
        }
    }
    let e = vstd::pervasive::arbitrary::<std::io::Error>();
    let w = World {
        nodes,
        codec,
        now: 0,
        nanos: 0,
        count: 0,
        resolved: |p: Seq<char>| seq!['/'] + p,
        modified: |p: Seq<char>| None,
        dir_size: |p: Seq<char>| 0u64,
        entries: |p: Seq<char>| some_entries(nodes, paths::names(p)),
        trees: |p: Seq<char>| some_trees(nodes, paths::names(p), most),
        fault: |q: QueryView| ErrorView::Io(e),
    };
    assert forall|p: Seq<char>| disk::there(nodes, p) implies paths::components(
        #[trigger] (w.resolved)(p),
    ) == seq!["/"@] + paths::names(p) by {
        let none = Seq::<char>::empty();
        let r = (w.resolved)(p);
        assert(r =~= none.push('/') + p);
        places::lemma_names_slash(none, p);
        places::lemma_names_join(none, none);
        assert(paths::path_join(none, none) =~= none);
        assert(paths::names(none) =~= Seq::<Seq<char>>::empty()) by {
            let a = paths::names(none);
            assert(a == a + a);
            assert(a.len() == a.len() + a.len());
        }
        assert(paths::names(r) =~= paths::names(p));
        assert(paths::is_absolute(r));
    }
    assert forall|p: Seq<char>| disk::dir_at(nodes, p) implies disk::lists(
        nodes,
        paths::names(p),
        #[trigger] (w.entries)(p),
    ) by {
        lemma_some_entries(nodes, paths::names(p));
    }
    assert forall|p: Seq<char>| disk::dir_at(nodes, p) implies disk::depicts(
        nodes,
        paths::names(p),
        #[trigger] (w.trees)(p),
    ) by {
        lemma_some_trees(nodes, paths::names(p), most, most);
    }
    assert(w.is_valid());
}

/// The disk with nothing but the way to one directory.
spec fn bare_disk(ns: Seq<Seq<char>>) -> Map<Seq<Seq<char>>, Node> {
    disk::with_dirs(Map::empty(), ns)
}

proof fn lemma_prefixes_finite(ns: Seq<Seq<char>>)
    ensures
        Set::new(|q: Seq<Seq<char>>| q.is_prefix_of(ns)).finite(),
    decreases ns.len(),
{
    let all = Set::new(|q: Seq<Seq<char>>| q.is_prefix_of(ns));
    if ns.len() == 0 {
        assert(all =~= Set::empty().insert(ns)) by {
            assert(ns.is_prefix_of(ns));
            assert forall|q: Seq<Seq<char>>| all.contains(q) implies q == ns by {
                assert(q =~= ns);
            }
        }
    } else {
        let front = ns.drop_last();
        lemma_prefixes_finite(front);
        let some = Set::new(|q: Seq<Seq<char>>| q.is_prefix_of(front));
        assert(all =~= some.insert(ns)) by {
            assert(ns.is_prefix_of(ns));
            assert forall|q: Seq<Seq<char>>| all.contains(q) <==> some.insert(ns).contains(q) by {
                if all.contains(q) {
                    if q.len() == ns.len() {
                        assert(q =~= ns);
                    } else {
                        assert(front.subrange(0, q.len() as int) =~= ns.subrange(0, q.len() as int));
                    }
                }
                if some.contains(q) {
                    assert(front.subrange(0, q.len() as int) =~= ns.subrange(0, q.len() as int));
                }
            }
        }
    }
}

proof fn lemma_with_dirs_finite(nodes: Map<Seq<Seq<char>>, Node>, ns: Seq<Seq<char>>)
    requires
        nodes.dom().finite(),
    ensures
        disk::with_dirs(nodes, ns).dom().finite(),
{
    lemma_prefixes_finite(ns);
    let way = Set::new(|q: Seq<Seq<char>>| q.is_prefix_of(ns));
    assert(disk::with_dirs(nodes, ns).dom() =~= nodes.dom().union(way));
}

/// There is a world with a directory at the base, and finitely many nodes: the path need
/// only begin at the root, and not go through `..`.
pub proof fn worlds_exist(base: Seq<char>)
    requires
        paths::is_absolute(base),
        places::plain(paths::names(base)),
    ensures
        exists|w: World| #[trigger] w.is_valid() && w.has_base(base) && w.nodes.dom().finite(),
{
    codecs_exist();
    let codec = choose|c: Codec| #[trigger] c.is_faithful();
    let ns = paths::names(base);
    let nodes = bare_disk(ns);
    places::lemma_nameable(base);
    lemma_with_dirs_finite(Map::empty(), ns);
    let root = Seq::<Seq<char>>::empty();
    assert(ns.subrange(0, 0) =~= root);
    assert(ns.is_prefix_of(ns));
    assert forall|q: Seq<Seq<char>>| #[trigger] nodes.contains_key(q) implies places::plain(q)
        && places::nameable(q) && (q.len() > 0 ==> nodes.contains_key(q.drop_last())
        && nodes[q.drop_last()] is Dir) by {
        assert(q.is_prefix_of(ns));
        assert forall|k: int| 0 <= k < q.len() implies q[k] == ns[k] by {
            assert(ns.subrange(0, q.len() as int)[k] == ns[k]);
        }
        if q.contains(".."@) {
            let k = choose|k: int| 0 <= k < q.len() && q[k] == ".."@;
            assert(ns[k] == ".."@);
        }
        assert forall|k: int| 0 <= k < q.len() implies paths::is_name(#[trigger] q[k])
            && !q[k].contains('/') by {
            assert(paths::is_name(ns[k]));
        }
        if q.len() > 0 {
            let f = q.drop_last();
            assert(ns.subrange(0, f.len() as int) =~= f);
        }
    }
    disks_have_worlds(nodes, codec);
    let w = choose|w: World| #[trigger] w.is_valid() && w.nodes == nodes && w.codec == codec;
    assert(w.is_valid() && w.has_base(base) && w.nodes.dom().finite());
}

// ---- a world after every operation ----

proof fn lemma_effect_keeps_finite(
    codec: Codec,
    nodes: Map<Seq<Seq<char>>, Node>,
    e: EffectView,
)
    requires
        nodes.dom().finite(),
    ensures
        disk::affected(codec, nodes, e) matches Some(n) ==> n.dom().finite(),
{
    if let EffectView::CreateDirAll { path } = e {
        lemma_with_dirs_finite(nodes, paths::names(path));
    }
    match e {
        EffectView::RemoveDirAll { path } => lemma_without_finite(nodes, paths::names(path)),
        EffectView::DiscardDirAll { path } => lemma_without_finite(nodes, paths::names(path)),
        _ => {},
    }
}

proof fn lemma_without_finite(nodes: Map<Seq<Seq<char>>, Node>, ns: Seq<Seq<char>>)
    requires
        nodes.dom().finite(),
    ensures
        disk::without(nodes, ns).dom().finite(),
{
    let less = disk::without(nodes, ns).dom();
    assert(less.subset_of(nodes.dom()));
    vstd::set_lib::lemma_len_subset(less, nodes.dom());
}

proof fn lemma_effects_keep_finite(
    codec: Codec,
    nodes: Map<Seq<Seq<char>>, Node>,
    fx: Seq<EffectView>,
)
    requires
        nodes.dom().finite(),
    ensures
        disk::carried_out(codec, nodes, fx) matches Some(n) ==> n.dom().finite(),
    decreases fx.len(),
{
    if fx.len() > 0 {
        lemma_effect_keeps_finite(codec, nodes, fx[0]);
        if let Some(n) = disk::affected(codec, nodes, fx[0]) {
            lemma_effects_keep_finite(codec, n, fx.drop_first());
        }
    }
}

/// After every operation that succeeds there is a world with the disk that it left.
pub proof fn worlds_go_on<T>(w: World, s: Script<T>)
    requires
        w.is_valid(),
        w.nodes.dom().finite(),
    ensures
        w.run(s) matches End::Done(n, _) ==> n.dom().finite() && exists|after: World| #[trigger]
            after.is_valid() && after.nodes == n && after.codec == w.codec,
    decreases s,
{
    match s {
        Script::Ask(q, k) => {
            worlds_go_on(w, k(w.answer(q)));
        },
        Script::Finish(fx, _) => {
            lemma_effects_keep_finite(w.codec, w.nodes, fx);
            ground::disk_stays_a_tree(w, s);
            if let End::Done(n, _) = w.run(s) {
                disks_have_worlds(n, w.codec);
            }
        },
        Script::Fail(_) => {},
    }
}

} // verus!
