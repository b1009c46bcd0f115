//! Which keys a listing finds in a bucket.

use crate::disk;
use crate::disk::{End, Node, World};
use crate::exchange::TreeView;
use crate::laws;
use crate::laws::buckets;
use crate::laws::ground;
use crate::meta;
use crate::paths;
use crate::places;
use crate::store::listing;
use crate::store::objects;
use crate::store::objects::ObjectView;
use crate::store::objects::PutObjectInput;
use vstd::prelude::*;

verus! {

/// Names with slashes between them.
pub open spec fn slashed(ns: Seq<Seq<char>>) -> Seq<char>
    decreases ns.len(),
{
    if ns.len() == 0 {
        Seq::empty()
    } else if ns.len() == 1 {
        ns[0]
    } else {
        slashed(ns.drop_last()).push('/') + ns.last()
    }
}

proof fn lemma_slashed_front(n: Seq<char>, rest: Seq<Seq<char>>)
    requires
        rest.len() > 0,
    ensures
        slashed(seq![n] + rest) == n + seq!['/'] + slashed(rest),
    decreases rest.len(),
{
    let all = seq![n] + rest;
    assert(all.last() == rest.last());
    if rest.len() == 1 {
        assert(all.drop_last() =~= seq![n]);
        assert(slashed(all.drop_last()) == n);
        assert(slashed(all) =~= n + seq!['/'] + slashed(rest));
    } else {
        lemma_slashed_front(n, rest.drop_last());
        assert(all.drop_last() =~= seq![n] + rest.drop_last());
        assert(slashed(all) =~= n + seq!['/'] + slashed(rest));
    }
}

/// Names with slashes between them name what they are.
proof fn lemma_slashed_names(ns: Seq<Seq<char>>)
    requires
        places::nameable(ns),
        ns.len() > 0,
    ensures
        paths::names(slashed(ns)) == ns,
        paths::segments(slashed(ns)).last() == ns.last(),
    decreases ns.len(),
{
    if ns.len() == 1 {
        assert(paths::is_name(ns[0]));
        places::lemma_single(ns[0]);
        assert(seq![ns[0]] =~= ns);
    } else {
        let front = ns.drop_last();
        assert(places::nameable(front)) by {
            assert forall|i: int| 0 <= i < front.len() implies paths::is_name(#[trigger] front[i])
                && !front[i].contains('/') by {
                assert(front[i] == ns[i]);
            }
        }
        lemma_slashed_names(front);
        assert(paths::is_name(ns[ns.len() - 1]));
        places::lemma_single(ns.last());
        places::lemma_names_slash(slashed(front), ns.last());
        assert(front + seq![ns.last()] =~= ns);
    }
}

/// Names with slashes between them do not begin at the root.
pub proof fn lemma_slashed_relative(ns: Seq<Seq<char>>)
    requires
        places::nameable(ns),
        ns.len() > 0,
    ensures
        slashed(ns).len() > 0,
        !paths::is_absolute(slashed(ns)),
    decreases ns.len(),
{
    assert(paths::is_name(ns[0]));
    assert(ns[0].contains(ns[0][0]));
    if ns.len() > 1 {
        let front = ns.drop_last();
        assert forall|i: int| 0 <= i < front.len() implies paths::is_name(#[trigger] front[i])
            && !front[i].contains('/') by {
            assert(front[i] == ns[i]);
        }
        lemma_slashed_relative(front);
        assert(slashed(ns)[0] == slashed(front)[0]);
    }
}

/// The pieces of a text with slashes between them are that text.
proof fn lemma_slashed_segments(p: Seq<char>)
    ensures
        slashed(paths::segments(p)) == p,
    decreases p.len(),
{
    let t = paths::segments(p);
    if p.len() == 0 {
        assert(t[0] =~= p);
    } else {
        let q = p.drop_last();
        let s = paths::segments(q);
        places::lemma_pieces(q);
        lemma_slashed_segments(q);
        if p.last() == '/' {
            assert(t.drop_last() =~= s);
            assert(slashed(t) =~= q.push('/'));
        } else if s.len() == 1 {
            assert(t =~= seq![s[0].push(p.last())]);
            assert(slashed(t) =~= q.push(p.last()));
        } else {
            assert(t.drop_last() =~= s.drop_last());
            assert(slashed(t) =~= slashed(s).push(p.last()));
        }
        assert(q.push(p.last()) =~= p);
    }
}

// ---- the keys of a tree ----

/// Below `ns` the names `rel` lead to a file that is no sidecar.
pub open spec fn is_file_below(
    nodes: Map<Seq<Seq<char>>, Node>,
    ns: Seq<Seq<char>>,
    rel: Seq<Seq<char>>,
) -> bool {
    &&& rel.len() > 0
    &&& nodes.contains_key(ns + rel)
    &&& nodes[ns + rel] is File
    &&& !paths::sidecar_suffix().is_suffix_of(rel.last())
}

/// `key` is how a listing spells the file at `rel`.
pub open spec fn is_spelled(
    nodes: Map<Seq<Seq<char>>, Node>,
    ns: Seq<Seq<char>>,
    at: Seq<char>,
    rel: Seq<Seq<char>>,
    key: Seq<char>,
) -> bool {
    is_file_below(nodes, ns, rel) && key == at + slashed(rel)
}

/// One of the trees has this name.
pub open spec fn has_tree(ts: Seq<TreeView>, name: Seq<char>) -> bool {
    exists|i: int| 0 <= i < ts.len() && (#[trigger] ts[i]).name() == name
}

proof fn lemma_keys(
    nodes: Map<Seq<Seq<char>>, Node>,
    ns: Seq<Seq<char>>,
    at: Seq<char>,
    ts: Seq<TreeView>,
)
    requires
        disk::is_tree(nodes),
        disk::depicts(nodes, ns, ts),
    ensures
        forall|key: Seq<char>| #[trigger]
            listing::keys_under(at, ts).contains(key) <==> exists|rel: Seq<Seq<char>>| #[trigger]
                is_spelled(nodes, ns, at, rel, key),
    decreases ts, 1int,
{
    lemma_keys_some(nodes, ns, at, ts);
    assert forall|key: Seq<char>| #[trigger] listing::keys_under(at, ts).contains(key)
        <==> exists|rel: Seq<Seq<char>>| #[trigger] is_spelled(nodes, ns, at, rel, key) by {
        if exists|rel: Seq<Seq<char>>| #[trigger] is_spelled(nodes, ns, at, rel, key) {
            let rel = choose|rel: Seq<Seq<char>>| #[trigger] is_spelled(nodes, ns, at, rel, key);
            let all = ns + rel;
            assert(all.take(ns.len() as int + 1) =~= ns.push(rel[0]));
            if rel.len() > 1 {
                ground::lemma_above(nodes, all, ns.len() as int + 1);
            } else {
                assert(all =~= ns.push(rel[0]));
            }
            assert(nodes.contains_key(ns.push(rel[0])));
            assert(has_tree(ts, rel[0]));
        }
    }
}

proof fn lemma_keys_some(
    nodes: Map<Seq<Seq<char>>, Node>,
    ns: Seq<Seq<char>>,
    at: Seq<char>,
    ts: Seq<TreeView>,
)
    requires
        disk::is_tree(nodes),
        forall|i: int| 0 <= i < ts.len() ==> disk::depicts_one(nodes, ns, #[trigger] ts[i]),
    ensures
        forall|key: Seq<char>| #[trigger]
            listing::keys_under(at, ts).contains(key) <==> exists|rel: Seq<Seq<char>>| #[trigger]
                is_spelled(nodes, ns, at, rel, key) && has_tree(ts, rel[0]),
    decreases ts, 0int,
{
    let keys = listing::keys_under(at, ts);
    if ts.len() > 0 {
        let front = ts.drop_last();
        let last = ts.last();
        assert forall|i: int| 0 <= i < front.len() implies disk::depicts_one(
            nodes,
            ns,
            #[trigger] front[i],
        ) by {
            assert(front[i] == ts[i]);
        }
        lemma_keys_some(nodes, ns, at, front);
        assert(disk::depicts_one(nodes, ns, ts[ts.len() - 1]));
        assert(decreases_to!(ts => ts[ts.len() - 1]));
        lemma_keys_one(nodes, ns, at, ts[ts.len() - 1]);
        let a = listing::keys_under(at, front);
        let b = listing::keys_in(at, last);
        assert forall|key: Seq<char>| #[trigger] keys.contains(key) <==> exists|
            rel: Seq<Seq<char>>,
        | #[trigger]
            is_spelled(nodes, ns, at, rel, key) && has_tree(ts, rel[0]) by {
            lemma_concat_contains(a, b, key);
            assert(keys.contains(key) <==> a.contains(key) || b.contains(key));
            if a.contains(key) {
                let rel = choose|rel: Seq<Seq<char>>| #[trigger]
                    is_spelled(nodes, ns, at, rel, key) && has_tree(front, rel[0]);
                let k = choose|k: int| 0 <= k < front.len() && (#[trigger] front[k]).name() == rel[0];
                assert(ts[k].name() == rel[0]);
                assert(has_tree(ts, rel[0]));
            }
            if b.contains(key) {
                let rel = choose|rel: Seq<Seq<char>>| #[trigger]
                    is_spelled(nodes, ns, at, rel, key) && rel[0] == last.name();
                assert(ts[ts.len() - 1].name() == rel[0]);
                assert(has_tree(ts, rel[0]));
            }
            if exists|rel: Seq<Seq<char>>| #[trigger]
                is_spelled(nodes, ns, at, rel, key) && has_tree(ts, rel[0]) {
                let rel = choose|rel: Seq<Seq<char>>| #[trigger]
                    is_spelled(nodes, ns, at, rel, key) && has_tree(ts, rel[0]);
                let k = choose|k: int| 0 <= k < ts.len() && (#[trigger] ts[k]).name() == rel[0];
                if k < front.len() {
                    assert(front[k].name() == rel[0]);
                    assert(has_tree(front, rel[0]));
                }
            }
        }
    } else {
        assert forall|key: Seq<char>| #[trigger] keys.contains(key) <==> exists|
            rel: Seq<Seq<char>>,
        | #[trigger]
            is_spelled(nodes, ns, at, rel, key) && has_tree(ts, rel[0]) by {
            assert(!keys.contains(key));
        }
    }
}

proof fn lemma_concat_contains(a: Seq<Seq<char>>, b: Seq<Seq<char>>, x: Seq<char>)
    ensures
        (a + b).contains(x) <==> a.contains(x) || b.contains(x),
{
    let c = a + b;
    if a.contains(x) {
        let k = choose|k: int| 0 <= k < a.len() && a[k] == x;
        assert(c[k] == x);
    }
    if b.contains(x) {
        let k = choose|k: int| 0 <= k < b.len() && b[k] == x;
        assert(c[a.len() + k] == x);
    }
    if c.contains(x) {
        let k = choose|k: int| 0 <= k < c.len() && c[k] == x;
        if k < a.len() {
            assert(a[k] == x);
        } else {
            assert(b[k - a.len()] == x);
        }
    }
}

#[verifier::rlimit(40)]
proof fn lemma_keys_one(
    nodes: Map<Seq<Seq<char>>, Node>,
    ns: Seq<Seq<char>>,
    at: Seq<char>,
    t: TreeView,
)
    requires
        disk::is_tree(nodes),
        disk::depicts_one(nodes, ns, t),
    ensures
        forall|key: Seq<char>| #[trigger]
            listing::keys_in(at, t).contains(key) <==> exists|rel: Seq<Seq<char>>| #[trigger]
                is_spelled(nodes, ns, at, rel, key) && rel[0] == t.name(),
    decreases t, 2int,
{
    let keys = listing::keys_in(at, t);
    let name = t.name();
    let below = ns.push(name);
    match t {
        TreeView::File { .. } => {
            let one = seq![name];
            assert(ns + one =~= below);
            assert(one.last() == name && one[0] == name);
            let spelling = at + name;
            assert forall|key: Seq<char>| #[trigger] keys.contains(key) <==> exists|
                rel: Seq<Seq<char>>,
            | #[trigger]
                is_spelled(nodes, ns, at, rel, key) && rel[0] == name by {
                if keys.contains(key) {
                    assert(key == spelling);
                    assert(is_spelled(nodes, ns, at, one, key));
                }
                if exists|rel: Seq<Seq<char>>| #[trigger]
                    is_spelled(nodes, ns, at, rel, key) && rel[0] == name {
                    let rel = choose|rel: Seq<Seq<char>>| #[trigger]
                        is_spelled(nodes, ns, at, rel, key) && rel[0] == name;
                    let all = ns + rel;
                    assert(all.take(ns.len() as int + 1) =~= below);
                    if rel.len() > 1 {
                        ground::lemma_above(nodes, all, ns.len() as int + 1);
                    }
                    assert(rel =~= one);
                    assert(keys[0] == key);
                }
            }
        },
        TreeView::Dir { name: n, entries } => {
            let deeper = at + name + seq!['/'];
            lemma_keys(nodes, below, deeper, entries);
            assert(keys == listing::keys_under(deeper, entries));
            assert forall|key: Seq<char>| #[trigger] keys.contains(key) <==> exists|
                rel: Seq<Seq<char>>,
            | #[trigger]
                is_spelled(nodes, ns, at, rel, key) && rel[0] == name by {
                if keys.contains(key) {
                    assert(listing::keys_under(deeper, entries).contains(key));
                    let rest = choose|rest: Seq<Seq<char>>| #[trigger]
                        is_spelled(nodes, below, deeper, rest, key);
                    let rel = seq![name] + rest;
                    assert(below + rest =~= ns + rel);
                    assert(rel.last() == rest.last());
                    lemma_slashed_front(name, rest);
                    assert(deeper + slashed(rest) =~= at + slashed(rel));
                    assert(is_spelled(nodes, ns, at, rel, key));
                }
                if exists|rel: Seq<Seq<char>>| #[trigger]
                    is_spelled(nodes, ns, at, rel, key) && rel[0] == name {
                    let rel = choose|rel: Seq<Seq<char>>| #[trigger]
                        is_spelled(nodes, ns, at, rel, key) && rel[0] == name;
                    if rel.len() == 1 {
                        assert(ns + rel =~= below);
                    } else {
                        let rest = rel.drop_first();
                        assert(rel =~= seq![name] + rest);
                        assert(below + rest =~= ns + rel);
                        assert(rel.last() == rest.last());
                        lemma_slashed_front(name, rest);
                        assert(deeper + slashed(rest) =~= at + slashed(rel));
                        assert(is_spelled(nodes, below, deeper, rest, key));
                    }
                }
            }
        },
        TreeView::Other { .. } => {},
    }
}

// ---- each key once ----

/// A file below `ns` is spelled as its names, and by nothing else.
proof fn lemma_spelling(
    nodes: Map<Seq<Seq<char>>, Node>,
    ns: Seq<Seq<char>>,
    at: Seq<char>,
    rel: Seq<Seq<char>>,
    key: Seq<char>,
)
    requires
        disk::is_tree(nodes),
        is_spelled(nodes, ns, at, rel, key),
    ensures
        key == at + slashed(rel),
        paths::names(slashed(rel)) == rel,
        places::nameable(rel),
{
    let all = ns + rel;
    assert(all.subrange(0, ns.len() as int) =~= ns);
    assert(places::nameable(all));
    assert forall|i: int| 0 <= i < rel.len() implies paths::is_name(#[trigger] rel[i])
        && !rel[i].contains('/') by {
        assert(all[ns.len() + i] == rel[i]);
    }
    lemma_slashed_names(rel);
}

/// One key is how at most one file is spelled.
proof fn lemma_spelled_once(
    nodes: Map<Seq<Seq<char>>, Node>,
    ns: Seq<Seq<char>>,
    at: Seq<char>,
    a: Seq<Seq<char>>,
    b: Seq<Seq<char>>,
    key: Seq<char>,
)
    requires
        disk::is_tree(nodes),
        is_spelled(nodes, ns, at, a, key),
        is_spelled(nodes, ns, at, b, key),
    ensures
        a == b,
{
    lemma_spelling(nodes, ns, at, a, key);
    lemma_spelling(nodes, ns, at, b, key);
    assert((at + slashed(a)).skip(at.len() as int) =~= slashed(a));
    assert((at + slashed(b)).skip(at.len() as int) =~= slashed(b));
}

proof fn lemma_keys_differ(
    nodes: Map<Seq<Seq<char>>, Node>,
    ns: Seq<Seq<char>>,
    at: Seq<char>,
    ts: Seq<TreeView>,
)
    requires
        disk::is_tree(nodes),
        forall|i: int, j: int|
            0 <= i < j < ts.len() ==> (#[trigger] ts[i]).name() != (#[trigger] ts[j]).name(),
        forall|i: int| 0 <= i < ts.len() ==> disk::depicts_one(nodes, ns, #[trigger] ts[i]),
    ensures
        listing::keys_under(at, ts).no_duplicates(),
    decreases ts,
{
    if ts.len() > 0 {
        let front = ts.drop_last();
        let last = ts[ts.len() - 1];
        assert forall|i: int| 0 <= i < front.len() implies disk::depicts_one(
            nodes,
            ns,
            #[trigger] front[i],
        ) by {
            assert(front[i] == ts[i]);
        }
        assert forall|i: int, j: int| 0 <= i < j < front.len() implies (#[trigger] front[i]).name()
            != (#[trigger] front[j]).name() by {
            assert(ts[i].name() != ts[j].name());
        }
        lemma_keys_differ(nodes, ns, at, front);
        lemma_keys_some(nodes, ns, at, front);
        assert(disk::depicts_one(nodes, ns, last));
        lemma_keys_one(nodes, ns, at, last);
        let a = listing::keys_under(at, front);
        let b = listing::keys_in(at, last);
        assert(b.no_duplicates()) by {
            if let TreeView::Dir { name, entries } = last {
                assert(decreases_to!(ts => last));
                assert(decreases_to!(last => entries));
                lemma_keys_differ(nodes, ns.push(name), at + name + seq!['/'], entries);
            }
        }
        let keys = listing::keys_under(at, ts);
        assert(keys == a + b);
        assert forall|i: int, j: int| 0 <= i < keys.len() && 0 <= j < keys.len() && i != j implies keys[i]
            != keys[j] by {
            if i < a.len() && j >= a.len() {
                lemma_no_overlap(nodes, ns, at, front, last, i, j - a.len());
            } else if j < a.len() && i >= a.len() {
                lemma_no_overlap(nodes, ns, at, front, last, j, i - a.len());
            } else if i >= a.len() && j >= a.len() {
                assert(b[i - a.len()] != b[j - a.len()]);
            }
        }
    }
}

proof fn lemma_no_overlap(
    nodes: Map<Seq<Seq<char>>, Node>,
    ns: Seq<Seq<char>>,
    at: Seq<char>,
    front: Seq<TreeView>,
    last: TreeView,
    i: int,
    j: int,
)
    requires
        disk::is_tree(nodes),
        forall|k: int| 0 <= k < front.len() ==> disk::depicts_one(nodes, ns, #[trigger] front[k]),
        forall|k: int| 0 <= k < front.len() ==> (#[trigger] front[k]).name() != last.name(),
        disk::depicts_one(nodes, ns, last),
        0 <= i < listing::keys_under(at, front).len(),
        0 <= j < listing::keys_in(at, last).len(),
    ensures
        listing::keys_under(at, front)[i] != listing::keys_in(at, last)[j],
{
    let key = listing::keys_in(at, last)[j];
    assert(listing::keys_in(at, last).contains(key));
    lemma_apart(nodes, ns, at, front, last, key);
    assert(listing::keys_under(at, front).contains(listing::keys_under(at, front)[i]));
}

/// No key is that of a file under two of the trees.
proof fn lemma_apart(
    nodes: Map<Seq<Seq<char>>, Node>,
    ns: Seq<Seq<char>>,
    at: Seq<char>,
    front: Seq<TreeView>,
    last: TreeView,
    key: Seq<char>,
)
    requires
        disk::is_tree(nodes),
        forall|k: int| 0 <= k < front.len() ==> disk::depicts_one(nodes, ns, #[trigger] front[k]),
        forall|k: int| 0 <= k < front.len() ==> (#[trigger] front[k]).name() != last.name(),
        disk::depicts_one(nodes, ns, last),
        listing::keys_in(at, last).contains(key),
    ensures
        !listing::keys_under(at, front).contains(key),
{
    lemma_keys_some(nodes, ns, at, front);
    lemma_keys_one(nodes, ns, at, last);
    if listing::keys_under(at, front).contains(key) {
        let a = choose|rel: Seq<Seq<char>>| #[trigger]
            is_spelled(nodes, ns, at, rel, key) && has_tree(front, rel[0]);
        let b = choose|rel: Seq<Seq<char>>| #[trigger]
            is_spelled(nodes, ns, at, rel, key) && rel[0] == last.name();
        lemma_spelled_once(nodes, ns, at, a, b, key);
        let k = choose|k: int| 0 <= k < front.len() && (#[trigger] front[k]).name() == a[0];
        assert(front[k].name() != last.name());
    }
}

// ---- the keys of a bucket ----

/// A file in the bucket has this key: it is no sidecar, and the key is its names
/// with slashes between them.
pub open spec fn is_shown(w: World, base: Seq<char>, bucket: Seq<char>, key: Seq<char>) -> bool {
    &&& is_file_below(w.nodes, buckets::bucket_place(base, bucket), paths::names(key))
    &&& key == slashed(paths::names(key))
}

/// A listing finds exactly the files of the bucket that are no sidecars, each once.
pub proof fn listings_find_the_files(w: World, base: Seq<char>, bucket: Seq<char>)
    requires
        buckets::is_named(w, base, bucket),
        buckets::has_bucket(w, base, bucket),
    ensures
        laws::listing::stored_keys(w, base, bucket).no_duplicates(),
        forall|key: Seq<char>| #[trigger]
            laws::listing::stored_keys(w, base, bucket).contains(key) <==> is_shown(
                w,
                base,
                bucket,
                key,
            ),
{
    let dir = paths::bucket_dir(base, bucket);
    let ns = buckets::bucket_place(base, bucket);
    let ts = (w.trees)(dir);
    let none = Seq::<char>::empty();
    buckets::lemma_bucket_place(base, bucket);
    assert(disk::depicts(w.nodes, ns, ts));
    lemma_keys(w.nodes, ns, none, ts);
    lemma_keys_differ(w.nodes, ns, none, ts);
    let keys = laws::listing::stored_keys(w, base, bucket);
    assert forall|key: Seq<char>| #[trigger] keys.contains(key) <==> is_shown(
        w,
        base,
        bucket,
        key,
    ) by {
        if keys.contains(key) {
            let rel = choose|rel: Seq<Seq<char>>| #[trigger]
                is_spelled(w.nodes, ns, none, rel, key);
            lemma_spelling(w.nodes, ns, none, rel, key);
            assert(none + slashed(rel) =~= slashed(rel));
        }
        if is_shown(w, base, bucket, key) {
            let rel = paths::names(key);
            assert(none + slashed(rel) =~= key);
            assert(is_spelled(w.nodes, ns, none, rel, key));
        }
    }
}

/// A bucket has keys just where it has a file that is no sidecar.
pub proof fn lemma_some_key(w: World, base: Seq<char>, bucket: Seq<char>)
    requires
        buckets::is_named(w, base, bucket),
        buckets::has_bucket(w, base, bucket),
    ensures
        laws::listing::stored_keys(w, base, bucket).len() > 0 <==> exists|rel: Seq<Seq<char>>|
            #[trigger]
            is_file_below(w.nodes, buckets::bucket_place(base, bucket), rel),
{
    let ns = buckets::bucket_place(base, bucket);
    let none = Seq::<char>::empty();
    let ts = (w.trees)(paths::bucket_dir(base, bucket));
    let keys = laws::listing::stored_keys(w, base, bucket);
    buckets::lemma_bucket_place(base, bucket);
    assert(disk::depicts(w.nodes, ns, ts));
    lemma_keys(w.nodes, ns, none, ts);
    if keys.len() > 0 {
        assert(keys.contains(keys[0]));
        let rel = choose|rel: Seq<Seq<char>>| #[trigger]
            is_spelled(w.nodes, ns, none, rel, keys[0]);
        assert(is_file_below(w.nodes, ns, rel));
    }
    if exists|rel: Seq<Seq<char>>| #[trigger] is_file_below(w.nodes, ns, rel) {
        let rel = choose|rel: Seq<Seq<char>>| #[trigger] is_file_below(w.nodes, ns, rel);
        assert(is_spelled(w.nodes, ns, none, rel, none + slashed(rel)));
        assert(keys.contains(none + slashed(rel)));
    }
}

/// The key is spelled as a listing spells it: no piece of it is empty or a single
/// dot.
pub open spec fn is_canonical(key: Seq<char>) -> bool {
    paths::names(key) == paths::segments(key)
}

/// An object that the disk holds is found under its key.
pub proof fn held_objects_are_found(
    w: World,
    base: Seq<char>,
    bucket: Seq<char>,
    key: Seq<char>,
    object: ObjectView,
)
    requires
        laws::objects::is_addressed(w, base, bucket, key),
        laws::objects::holds(w, base, bucket, key, object),
        is_canonical(key),
        !paths::sidecar_suffix().is_suffix_of(paths::names(key).last()),
    ensures
        laws::listing::stored_keys(w, base, bucket).contains(key),
{
    ground::lemma_places(base, bucket, key);
    lemma_slashed_segments(key);
    places::lemma_pieces(key);
    listings_find_the_files(w, base, bucket);
    assert(is_shown(w, base, bucket, key));
}

/// An object that was put is found under its key.
pub proof fn put_objects_are_found(
    w: World,
    base: Seq<char>,
    p: PutObjectInput,
    etag: Seq<char>,
    after: World,
)
    requires
        laws::objects::is_addressed(w, base, p.bucket@, p.key@),
        w.run(objects::put_object_script(base, p)) == End::Done(after.nodes, etag),
        after.is_valid(),
        after.codec == w.codec,
        is_canonical(p.key@),
        !paths::sidecar_suffix().is_suffix_of(paths::names(p.key@).last()),
    ensures
        laws::listing::stored_keys(after, base, p.bucket@).contains(p.key@),
{
    laws::objects::put_adds_the_object(w, base, p);
    let object = ObjectView { body: p.body@, meta: objects::put_meta(p, w.now) };
    meta::lemma_finite_metadata(p.metadata);
    laws::objects::lemma_added(w, after, base, p.bucket@, p.key@, object);
    held_objects_are_found(after, base, p.bucket@, p.key@, object);
}

/// An object that was deleted is not found any more.
pub proof fn deleted_objects_are_not_found(
    w: World,
    base: Seq<char>,
    bucket: Seq<char>,
    key: Seq<char>,
    after: World,
)
    requires
        laws::objects::is_addressed(w, base, bucket, key),
        w.run(objects::delete_object_script(base, bucket, key)) == End::Done(after.nodes, ()),
        after.is_valid(),
    ensures
        !laws::listing::stored_keys(after, base, bucket).contains(key),
{
    laws::objects::delete_removes_the_object(w, base, bucket, key);
    ground::lemma_places(base, bucket, key);
    let at = ground::body_place(base, bucket, key);
    buckets::lemma_bucket_place(base, bucket);
    listings_find_the_files(after, base, bucket);
    assert(buckets::bucket_place(base, bucket) + paths::names(key) == at);
    if is_shown(after, base, bucket, key) {
        let rel = paths::names(key);
        places::lemma_nameable(key);
        lemma_slashed_names(rel);
        assert(paths::is_name(rel[rel.len() - 1]));
        assert(!places::directory_form(paths::object_file(base, bucket, key)));
        assert(disk::file_at(after.nodes, paths::object_file(base, bucket, key)) is Some);
    }
}

} // verus!
