//! Where the paths of the store lead: facts about the names in a path.

use crate::paths;
use vstd::prelude::*;

verus! {

/// Only a directory can be at `p`: it ends with a slash or a single dot.
pub open spec fn directory_form(p: Seq<char>) -> bool {
    !paths::is_name(paths::segments(p).last())
}

/// No name is `..`.
pub open spec fn plain(ns: Seq<Seq<char>>) -> bool {
    !ns.contains(".."@)
}

/// Each name counts for something and holds no slash.
pub open spec fn nameable(ns: Seq<Seq<char>>) -> bool {
    forall|i: int| 0 <= i < ns.len() ==> paths::is_name(#[trigger] ns[i]) && !ns[i].contains('/')
}

pub open spec fn name_test() -> spec_fn(Seq<char>) -> bool {
    |s: Seq<char>| paths::is_name(s)
}

/// A path has at least one piece.
pub proof fn lemma_pieces(p: Seq<char>)
    ensures
        paths::segments(p).len() > 0,
    decreases p.len(),
{
    if p.len() > 0 {
        lemma_pieces(p.drop_last());
    }
}

/// The pieces of `a/b` are those of `a` and those of `b`.
proof fn lemma_segments_join(a: Seq<char>, b: Seq<char>)
    ensures
        paths::segments(a.push('/') + b) == paths::segments(a) + paths::segments(b),
    decreases b.len(),
{
    let p = a.push('/') + b;
    lemma_pieces(a);
    lemma_pieces(b);
    if b.len() == 0 {
        assert(p =~= a.push('/'));
        assert(p.drop_last() =~= a);
        assert(paths::segments(p) =~= paths::segments(a) + paths::segments(b));
    } else {
        lemma_segments_join(a, b.drop_last());
        lemma_pieces(b.drop_last());
        assert(p.drop_last() =~= a.push('/') + b.drop_last());
        let s = paths::segments(p.drop_last());
        let t = paths::segments(b.drop_last());
        assert(s.last() == t.last());
        assert(s.drop_last() =~= paths::segments(a) + t.drop_last());
        assert(paths::segments(p) =~= paths::segments(a) + paths::segments(b));
    }
}

proof fn lemma_filter_concat(a: Seq<Seq<char>>, b: Seq<Seq<char>>)
    ensures
        (a + b).filter(name_test()) == a.filter(name_test()) + b.filter(name_test()),
    decreases b.len(),
{
    reveal(Seq::filter);
    if b.len() == 0 {
        assert(a + b =~= a);
        assert(a.filter(name_test()) + b.filter(name_test()) =~= a.filter(name_test()));
    } else {
        lemma_filter_concat(a, b.drop_last());
        assert((a + b).drop_last() =~= a + b.drop_last());
        assert((a + b).filter(name_test()) =~= a.filter(name_test()) + b.filter(name_test()));
    }
}

proof fn lemma_filter_one(s: Seq<char>)
    ensures
        seq![s].filter(name_test()) == (if paths::is_name(s) {
            seq![s]
        } else {
            Seq::<Seq<char>>::empty()
        }),
{
    reveal(Seq::filter);
    let one = seq![s];
    assert(one.drop_last() =~= Seq::<Seq<char>>::empty());
    assert(one.last() == s);
    assert(Seq::<Seq<char>>::empty().filter(name_test()) =~= Seq::<Seq<char>>::empty());
    assert(one.filter(name_test()) =~= if paths::is_name(s) {
        seq![s]
    } else {
        Seq::<Seq<char>>::empty()
    });
}

/// The names of `a/b`.
pub proof fn lemma_names_slash(a: Seq<char>, b: Seq<char>)
    ensures
        paths::names(a.push('/') + b) == paths::names(a) + paths::names(b),
        paths::segments(a.push('/') + b).last() == paths::segments(b).last(),
{
    lemma_segments_join(a, b);
    lemma_pieces(b);
    lemma_filter_concat(paths::segments(a), paths::segments(b));
}

/// A text without slashes is one piece.
proof fn lemma_segments_single(s: Seq<char>)
    requires
        !s.contains('/'),
    ensures
        paths::segments(s) == seq![s],
    decreases s.len(),
{
    if s.len() > 0 {
        assert forall|i: int| 0 <= i < s.drop_last().len() implies s.drop_last()[i] != '/' by {
            assert(s.contains(s[i]));
        }
        lemma_segments_single(s.drop_last());
        assert(s.contains(s.last()));
        assert(paths::segments(s) =~= seq![s.drop_last().push(s.last())]);
        assert(s.drop_last().push(s.last()) =~= s);
    } else {
        assert(s =~= Seq::<char>::empty());
    }
}

proof fn lemma_no_slash(p: Seq<char>)
    ensures
        forall|i: int|
            0 <= i < paths::segments(p).len() ==> !(#[trigger] paths::segments(p)[i]).contains('/'),
    decreases p.len(),
{
    if p.len() > 0 {
        lemma_pieces(p.drop_last());
        lemma_no_slash(p.drop_last());
        let s = paths::segments(p.drop_last());
        let t = paths::segments(p);
        if p.last() != '/' {
            let last = s.last().push(p.last());
            assert forall|k: int| 0 <= k < last.len() implies last[k] != '/' by {
                if k < s.last().len() {
                    assert(s.last().contains(s.last()[k]));
                }
            }
        }
    }
}

/// The names of a path are such names.
pub proof fn lemma_nameable(p: Seq<char>)
    ensures
        nameable(paths::names(p)),
{
    lemma_no_slash(p);
    let s = paths::segments(p);
    let t = paths::names(p);
    assert forall|i: int| 0 <= i < t.len() implies paths::is_name(#[trigger] t[i]) && !t[i].contains(
        '/',
    ) by {
        s.lemma_filter_pred(name_test(), i);
        assert(t.contains(t[i]));
        s.lemma_filter_contains_rev(name_test(), t[i]);
        let k = choose|k: int| 0 <= k < s.len() && s[k] == t[i];
        assert(!s[k].contains('/'));
    }
}

/// A name without slashes names itself.
pub proof fn lemma_single(s: Seq<char>)
    requires
        !s.contains('/'),
        paths::is_name(s),
    ensures
        paths::names(s) == seq![s],
        paths::segments(s).last() == s,
        !paths::is_absolute(s),
{
    lemma_segments_single(s);
    lemma_filter_one(s);
    if s.len() > 0 {
        assert(s.contains(s[0]));
    }
}

proof fn lemma_names_trailing(a: Seq<char>)
    ensures
        paths::names(a.push('/')) == paths::names(a),
{
    let none = Seq::<char>::empty();
    lemma_names_slash(a, none);
    assert(a.push('/') + none =~= a.push('/'));
    lemma_segments_single(none);
    lemma_filter_one(none);
    assert(paths::names(a) + Seq::<Seq<char>>::empty() =~= paths::names(a));
}

/// The names of a joined path are those of its parts.
pub proof fn lemma_names_join(a: Seq<char>, b: Seq<char>)
    requires
        !paths::is_absolute(b),
    ensures
        paths::names(paths::path_join(a, b)) == paths::names(a) + paths::names(b),
        paths::segments(paths::path_join(a, b)).last() == paths::segments(b).last(),
        a.len() > 0 ==> paths::is_absolute(paths::path_join(a, b)) == paths::is_absolute(a),
{
    if a.len() == 0 {
        assert(a + b =~= b);
        lemma_segments_single(a);
        lemma_filter_one(a);
        assert(a =~= Seq::<char>::empty());
        assert(Seq::<Seq<char>>::empty() + paths::names(b) =~= paths::names(b));
    } else if a.last() == '/' {
        let front = a.drop_last();
        assert(a =~= front.push('/'));
        assert(a + b =~= front.push('/') + b);
        lemma_names_slash(front, b);
        lemma_names_trailing(front);
    } else {
        lemma_names_slash(a, b);
    }
}

/// Slashes and single dots at the end do not change the names.
proof fn lemma_names_end(p: Seq<char>, n: int)
    requires
        0 <= n <= p.len(),
    ensures
        0 <= paths::end_of(p, n) <= n,
        paths::names(p.take(paths::end_of(p, n))) == paths::names(p.take(n)),
    decreases n,
{
    if n > 0 && p[n - 1] == '/' {
        lemma_names_end(p, n - 1);
        assert(p.take(n) =~= p.take(n - 1).push('/'));
        lemma_names_trailing(p.take(n - 1));
    } else if n > 1 && p[n - 1] == '.' && p[n - 2] == '/' {
        lemma_names_end(p, n - 1);
        reveal_strlit(".");
        let dot = "."@;
        let front = p.take(n - 2);
        assert(dot =~= seq!['.']);
        assert(p.take(n) =~= front.push('/') + dot);
        assert(p.take(n - 1) =~= front.push('/'));
        lemma_names_slash(front, dot);
        lemma_segments_single(dot);
        lemma_filter_one(dot);
        lemma_names_trailing(front);
        assert(paths::names(front) + Seq::<Seq<char>>::empty() =~= paths::names(front));
    }
}

proof fn lemma_start(p: Seq<char>, n: int)
    requires
        0 <= n <= p.len(),
    ensures
        0 <= paths::start_of(p, n) <= n,
        !p.subrange(paths::start_of(p, n), n).contains('/'),
        paths::start_of(p, n) > 0 ==> p[paths::start_of(p, n) - 1] == '/',
    decreases n,
{
    if n > 0 && p[n - 1] != '/' {
        lemma_start(p, n - 1);
        let s = paths::start_of(p, n);
        let whole = p.subrange(s, n);
        let front = p.subrange(s, n - 1);
        assert forall|i: int| 0 <= i < whole.len() implies whole[i] != '/' by {
            if i < front.len() {
                assert(front.contains(front[i]));
            }
        }
    }
}

/// The names of a path are those of its parent and its file name.
pub proof fn lemma_file_name(p: Seq<char>)
    requires
        paths::file_name(p) is Some,
    ensures
        paths::parent(p) is Some,
        paths::names(p) == paths::names(paths::parent(p)->0).push(paths::file_name(p)->0),
        !paths::file_name(p)->0.contains('/'),
        paths::is_name(paths::file_name(p)->0),
        paths::file_name(p)->0 != ".."@,
{
    let hi = paths::last_end(p);
    let lo = paths::last_start(p);
    let name = p.subrange(lo, hi);
    paths::lemma_last(p);
    lemma_names_end(p, p.len() as int);
    assert(p.take(p.len() as int) =~= p);
    lemma_start(p, hi);
    lemma_names_end(p, lo);
    lemma_segments_single(name);
    lemma_filter_one(name);
    if lo == 0 {
        assert(p.take(hi) =~= name);
        assert(p.take(0) =~= Seq::<char>::empty());
        lemma_segments_single(p.take(0));
        lemma_filter_one(p.take(0));
        assert(paths::end_of(p, 0) == 0);
        assert(!paths::is_absolute(p)) by {
            if paths::is_absolute(p) {
                assert(name[0] == '/');
                assert(name.contains(name[0]));
            }
        }
        assert(paths::parent(p)->0 =~= p.take(0));
        assert(paths::names(p) =~= Seq::<Seq<char>>::empty().push(name));
    } else {
        let front = p.take(lo - 1);
        assert(p.take(lo) =~= front.push('/'));
        assert(p.take(hi) =~= front.push('/') + name);
        lemma_names_slash(front, name);
        lemma_names_trailing(front);
        let e = paths::end_of(p, lo);
        if e == 0 && paths::is_absolute(p) {
            assert(p.take(1) =~= p.take(0).push('/'));
            lemma_names_trailing(p.take(0));
        }
        assert(paths::names(paths::parent(p)->0) == paths::names(front));
        assert(paths::names(p) =~= paths::names(front).push(name));
    }
}

/// A path that may lead to a file has that file's name as its last name.
pub proof fn lemma_file_form(p: Seq<char>)
    requires
        !directory_form(p),
        paths::segments(p).last() != ".."@,
    ensures
        paths::file_name(p) == Some(paths::segments(p).last()),
        paths::last_end(p) == p.len(),
        paths::names(p).len() > 0,
        paths::names(p).last() == paths::segments(p).last(),
{
    let lo = paths::start_of(p, p.len() as int);
    let name = p.subrange(lo, p.len() as int);
    lemma_start(p, p.len() as int);
    lemma_segments_single(name);
    if lo == 0 {
        assert(p =~= name);
    } else {
        let front = p.take(lo - 1);
        assert(p =~= front.push('/') + name);
        lemma_names_slash(front, name);
    }
    assert(paths::segments(p).last() == name);
    assert(name.len() > 0);
    assert(name.contains(name.last()));
    assert(p.last() == name.last());
    if p.last() == '.' && p.len() > 1 && p[p.len() - 2] == '/' {
        if name.len() > 1 {
            assert(name[name.len() - 2] == p[p.len() - 2]);
            assert(name.contains(name[name.len() - 2]));
        }
        reveal_strlit(".");
        assert(name =~= "."@);
    }
    assert(paths::last_end(p) == p.len());
    assert(paths::file_name(p) == Some(name));
    lemma_file_name(p);
}

/// What is added to a path without a slash is added to its last piece.
pub proof fn lemma_segments_add(p: Seq<char>, s: Seq<char>)
    requires
        !s.contains('/'),
    ensures
        paths::segments(p + s) == paths::segments(p).drop_last().push(paths::segments(p).last() + s),
    decreases s.len(),
{
    lemma_pieces(p);
    let t = paths::segments(p);
    if s.len() == 0 {
        assert(p + s =~= p);
        assert(t.last() + s =~= t.last());
        assert(t =~= t.drop_last().push(t.last()));
    } else {
        let front = s.drop_last();
        assert forall|i: int| 0 <= i < front.len() implies front[i] != '/' by {
            assert(s.contains(s[i]));
        }
        lemma_segments_add(p, front);
        assert((p + s).drop_last() =~= p + front);
        assert(s.contains(s.last()));
        assert((t.last() + front).push(s.last()) =~= t.last() + s);
        assert(paths::segments(p + s) =~= t.drop_last().push(t.last() + s));
    }
}

/// The names of a path whose last piece goes on, if that piece counts.
pub proof fn lemma_names_add(p: Seq<char>, s: Seq<char>)
    requires
        !s.contains('/'),
        paths::is_name(paths::segments(p).last() + s),
    ensures
        paths::names(p + s) == paths::segments(p).drop_last().filter(name_test()).push(
            paths::segments(p).last() + s,
        ),
        !directory_form(p) ==> paths::names(p + s) == paths::names(p).drop_last().push(
            paths::segments(p).last() + s,
        ),
        paths::segments(p + s).last() == paths::segments(p).last() + s,
{
    lemma_segments_add(p, s);
    lemma_pieces(p);
    let t = paths::segments(p);
    let front = t.drop_last();
    let last = t.last() + s;
    assert(front.push(last) =~= front + seq![last]);
    lemma_filter_concat(front, seq![last]);
    lemma_filter_one(last);
    let ns = front.filter(name_test());
    assert(ns + seq![last] =~= ns.push(last));
    if !directory_form(p) {
        assert(t =~= front + seq![t.last()]);
        lemma_filter_concat(front, seq![t.last()]);
        lemma_filter_one(t.last());
        assert(paths::names(p) =~= ns.push(t.last()));
        assert(paths::names(p).drop_last() =~= ns);
    }
}

/// The temporary file stands beside the file that it is to replace.
pub proof fn lemma_temporary(p: Seq<char>, stem: Seq<char>, ext: Seq<char>)
    requires
        paths::segments(p).last() == stem.push('.') + ext,
        stem.len() > 0,
        !ext.contains('.'),
        stem.len() + ext.len() > 1,
    ensures
        paths::names(paths::temporary(p)) == paths::names(p).drop_last().push(stem + ".tmp"@),
        paths::segments(paths::temporary(p)).last() == stem + ".tmp"@,
{
    let name = stem.push('.') + ext;
    reveal_strlit(".");
    reveal_strlit("..");
    reveal_strlit(".tmp");
    assert(name.len() > 2);
    lemma_file_form(p);
    lemma_file_name(p);
    paths::lemma_last(p);
    lemma_start(p, p.len() as int);
    lemma_stem(name, stem, ext, name.len() as int);
    let lo = paths::last_start(p);
    let t = stem + ".tmp"@;
    assert(p.subrange(lo, p.len() as int) == name);
    assert forall|i: int| 0 <= i < stem.len() implies p[lo + i] == stem[i] by {
        assert(p.subrange(lo, p.len() as int)[i] == name[i]);
    }
    assert(p.take(lo + stem.len()) =~= p.take(lo) + stem);
    assert(paths::temporary(p) =~= p.take(lo) + t);
    assert forall|i: int| 0 <= i < t.len() implies t[i] != '/' by {
        if i < stem.len() {
            assert(name[i] == t[i]);
            assert(name.contains(name[i]));
        }
    }
    assert(paths::is_name(t));
    lemma_single(t);
    lemma_single(name);
    if lo == 0 {
        assert(p.take(lo) + t =~= t);
        assert(p =~= name);
        assert(paths::names(p).drop_last() =~= Seq::<Seq<char>>::empty());
        assert(Seq::<Seq<char>>::empty().push(t) =~= seq![t]);
    } else {
        let front = p.take(lo - 1);
        assert(p.take(lo) =~= front.push('/'));
        assert(p =~= front.push('/') + name);
        lemma_names_slash(front, name);
        lemma_names_slash(front, t);
        assert(paths::names(p).drop_last() =~= paths::names(front));
        assert(paths::names(front) + seq![t] =~= paths::names(front).push(t));
    }
}

proof fn lemma_stem(name: Seq<char>, stem: Seq<char>, ext: Seq<char>, n: int)
    requires
        name == stem.push('.') + ext,
        stem.len() > 0,
        !ext.contains('.'),
        stem.len() < n <= name.len(),
    ensures
        paths::stem_len(name, n) == stem.len(),
    decreases n,
{
    if n - 1 > stem.len() {
        assert(name[n - 1] == ext[n - 2 - stem.len()]);
        assert(ext.contains(ext[n - 2 - stem.len()]));
        lemma_stem(name, stem, ext, n - 1);
    }
}

} // verus!
