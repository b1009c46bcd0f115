//! What holds of listings: what a page shows, and that the pages together show
//! everything once.

use crate::disk;
use crate::disk::{End, World};
use crate::error::ErrorView;
use crate::laws::buckets;
use crate::laws::keys;
use crate::order;
use crate::paths;
use crate::store::listing;
use crate::store::listing::ListObjectsV2Input;
use crate::store::listing::{ListedView, PageView};
use crate::store::tokens;
use crate::text;
use vstd::prelude::*;

verus! {

// ---- the order of the keys ----

pub proof fn lemma_filter_ascending(s: Seq<Seq<char>>, p: spec_fn(Seq<char>) -> bool)
    requires
        order::ascending(s),
    ensures
        order::ascending(s.filter(p)),
        forall|x: Seq<char>| #[trigger] s.filter(p).contains(x) <==> s.contains(x) && p(x),
    decreases s.len(),
{
    reveal(Seq::filter);
    let t = s.filter(p);
    if s.len() > 0 {
        let front = s.drop_last();
        lemma_filter_ascending(front, p);
        let f = front.filter(p);
        assert forall|i: int, j: int| 0 <= i < j < t.len() implies order::before(
            #[trigger] t[i],
            #[trigger] t[j],
        ) by {
            if j == f.len() {
                assert(f.contains(f[i]));
                let k = choose|k: int| 0 <= k < front.len() && front[k] == f[i];
                assert(order::before(s[k], s[s.len() - 1]));
            }
        }
        assert forall|x: Seq<char>| #[trigger] t.contains(x) <==> s.contains(x) && p(x) by {
            if s.contains(x) && p(x) {
                let k = choose|k: int| 0 <= k < s.len() && s[k] == x;
                if k < front.len() {
                    assert(front[k] == x);
                    assert(f.contains(x));
                    let j = choose|j: int| 0 <= j < f.len() && f[j] == x;
                    assert(t[j] == x);
                } else {
                    assert(t[t.len() - 1] == x);
                }
            }
            if t.contains(x) {
                let j = choose|j: int| 0 <= j < t.len() && t[j] == x;
                if j < f.len() {
                    assert(f.contains(x));
                    assert(front.contains(x));
                    let k = choose|k: int| 0 <= k < front.len() && front[k] == x;
                    assert(s[k] == x);
                } else {
                    assert(s[s.len() - 1] == x);
                }
            }
        }
    }
}

/// Different keys in order ascend, and are the same keys.
proof fn lemma_in_order(all: Seq<Seq<char>>)
    requires
        all.no_duplicates(),
    ensures
        order::ascending(order::in_order(all)),
        forall|x: Seq<char>| #[trigger] order::in_order(all).contains(x) <==> all.contains(x),
{
    broadcast use vstd::seq_lib::group_to_multiset_ensures;

    order::lemma_key_order();
    all.lemma_sort_by_ensures(order::key_order());
    let s = order::in_order(all);
    all.lemma_multiset_has_no_duplicates();
    s.lemma_multiset_has_no_duplicates_conv();
    assert forall|i: int, j: int| 0 <= i < j < s.len() implies order::before(
        #[trigger] s[i],
        #[trigger] s[j],
    ) by {
        assert((order::key_order())(s[i], s[j]));
        order::key_order_is_total(s[i], s[j], s[i]);
    }
    assert forall|x: Seq<char>| #[trigger] s.contains(x) <==> all.contains(x) by {
        assert(s.contains(x) <==> s.to_multiset().count(x) > 0);
        assert(all.contains(x) <==> all.to_multiset().count(x) > 0);
    }
}

/// The keys that are gone through ascend, and they are the keys that are wanted.
pub proof fn wanted_keys_ascend(i: ListObjectsV2Input, all: Seq<Seq<char>>)
    requires
        all.no_duplicates(),
    ensures
        order::ascending(listing::wanted(i, all)),
        forall|key: Seq<char>| #[trigger]
            listing::wanted(i, all).contains(key) <==> all.contains(key) && listing::is_wanted(
                i,
                key,
            ),
{
    lemma_in_order(all);
    lemma_filter_ascending(
        order::in_order(all),
        |key: Seq<char>| listing::is_wanted(i, key),
    );
}

// ---- going through the keys ----

/// The sidecars of those keys can be read that no common prefix stands for.
pub open spec fn are_readable(
    w: World,
    base: Seq<char>,
    i: ListObjectsV2Input,
    keys: Seq<Seq<char>>,
) -> bool {
    forall|n: int|
        0 <= n < keys.len() && listing::grouped(i, #[trigger] keys[n]) is None ==> is_readable(
            w,
            base,
            i.bucket@,
            keys[n],
        )
}

pub open spec fn is_readable(w: World, base: Seq<char>, bucket: Seq<char>, key: Seq<char>) -> bool {
    let bytes = disk::file_at(w.nodes, paths::meta_file(base, bucket, key));
    bytes is Some && (w.codec.meta_in)(bytes->0) is Some
}

/// The entry of a listing for an object on the disk.
pub open spec fn entry_at(w: World, base: Seq<char>, bucket: Seq<char>, key: Seq<char>) -> ListedView {
    let bytes = disk::file_at(w.nodes, paths::meta_file(base, bucket, key));
    listing::entry_of(key, (w.codec.meta_in)(bytes->0)->0)
}

/// How many keys a page covers, and what is on it, when the keys from the `n`th one on
/// have been gone through.
pub open spec fn walked(
    w: World,
    base: Seq<char>,
    i: ListObjectsV2Input,
    keys: Seq<Seq<char>>,
    n: int,
    contents: Seq<ListedView>,
    prefixes: Seq<Seq<char>>,
) -> (int, Seq<ListedView>, Seq<Seq<char>>)
    decreases keys.len() - n,
{
    if listing::ends_before(i, keys, n, contents, prefixes) {
        (n, contents, prefixes)
    } else {
        match listing::grouped(i, keys[n]) {
            Some(p) => walked(
                w,
                base,
                i,
                keys,
                n + 1,
                contents,
                order::with_member(prefixes, p),
            ),
            None => walked(
                w,
                base,
                i,
                keys,
                n + 1,
                contents.push(entry_at(w, base, i.bucket@, keys[n])),
                prefixes,
            ),
        }
    }
}

proof fn lemma_walk(
    w: World,
    base: Seq<char>,
    i: ListObjectsV2Input,
    keys: Seq<Seq<char>>,
    n: int,
    contents: Seq<ListedView>,
    prefixes: Seq<Seq<char>>,
)
    requires
        are_readable(w, base, i, keys),
        n >= 0,
    ensures
        ({
            let (m, c, p) = walked(w, base, i, keys, n, contents, prefixes);
            w.run(listing::list_from_key(base, i, keys, n, contents, prefixes)) == End::Done(
                w.nodes,
                listing::page_of(keys, m, c, p),
            )
        }),
    decreases keys.len() - n,
{
    if !listing::ends_before(i, keys, n, contents, prefixes) {
        match listing::grouped(i, keys[n]) {
            Some(p) => {
                lemma_walk(
                    w,
                    base,
                    i,
                    keys,
                    n + 1,
                    contents,
                    order::with_member(prefixes, p),
                );
            },
            None => {
                let c = contents.push(entry_at(w, base, i.bucket@, keys[n]));
                lemma_walk(w, base, i, keys, n + 1, c, prefixes);
                assert(is_readable(w, base, i.bucket@, keys[n]));
                reveal_with_fuel(World::run, 2);
            },
        }
    }
}

/// What lies in a bucket, as keys.
pub open spec fn stored_keys(w: World, base: Seq<char>, bucket: Seq<char>) -> Seq<Seq<char>> {
    listing::keys_under(Seq::empty(), (w.trees)(paths::bucket_dir(base, bucket)))
}

/// The keys that a listing goes through.
pub open spec fn wanted_keys(w: World, base: Seq<char>, i: ListObjectsV2Input) -> Seq<Seq<char>> {
    listing::wanted(i, stored_keys(w, base, i.bucket@))
}

/// A listing is asked for that can be given: the bucket is there, the token can be
/// read, and so can the sidecars.
pub open spec fn is_listable(w: World, base: Seq<char>, i: ListObjectsV2Input) -> bool {
    &&& buckets::is_named(w, base, i.bucket@)
    &&& buckets::has_bucket(w, base, i.bucket@)
    &&& listing::token_fits(i)
    &&& are_readable(w, base, i, wanted_keys(w, base, i))
}

/// The first page of a listing of these keys.
pub open spec fn first_page(
    w: World,
    base: Seq<char>,
    i: ListObjectsV2Input,
    keys: Seq<Seq<char>>,
) -> PageView {
    let (n, c, p) = walked(w, base, i, keys, 0, Seq::empty(), Seq::empty());
    listing::page_of(keys, n, c, p)
}

/// How many of these keys the first page covers.
pub open spec fn covered(
    w: World,
    base: Seq<char>,
    i: ListObjectsV2Input,
    keys: Seq<Seq<char>>,
) -> int {
    walked(w, base, i, keys, 0, Seq::empty(), Seq::empty()).0
}

/// The page that a listing gives.
pub open spec fn page_at(w: World, base: Seq<char>, i: ListObjectsV2Input) -> PageView {
    first_page(w, base, i, wanted_keys(w, base, i))
}

/// Listing a bucket gives a page and changes nothing. The page holds no more than
/// was asked for, counts what it holds, and has a token if and only if it is
/// truncated.
pub proof fn list_gives_a_page(w: World, base: Seq<char>, i: ListObjectsV2Input)
    requires
        is_listable(w, base, i),
    ensures
        w.run(listing::list_objects_v2_script(base, i)) == End::Done(
            w.nodes,
            page_at(w, base, i),
        ),
        ({
            let page = page_at(w, base, i);
            &&& page.key_count == page.contents.len() + page.common_prefixes.len()
            &&& page.key_count <= listing::page_size(i)
            &&& page.next_continuation_token is Some <==> page.is_truncated
            &&& order::ascending(page.common_prefixes)
        }),
{
    let keys = wanted_keys(w, base, i);
    let none = Seq::<ListedView>::empty();
    let nothing = Seq::<Seq<char>>::empty();
    lemma_walk(w, base, i, keys, 0, none, nothing);
    lemma_first_page(w, base, i, keys);
    assert(w.run(listing::list_objects_v2_script(base, i)) == w.run(
        listing::list_from_key(base, i, keys, 0, none, nothing),
    )) by {
        reveal_with_fuel(World::run, 4);
    }
}

/// Without a bucket there is no listing.
pub proof fn unknown_buckets_are_refused(w: World, base: Seq<char>, i: ListObjectsV2Input)
    ensures
        paths::bucket_fault(i.bucket@) is Some ==> w.run(
            listing::list_objects_v2_script(base, i),
        ) == End::<PageView>::Refused(paths::bucket_fault(i.bucket@)->0),
        paths::bucket_fault(i.bucket@) is None && !buckets::has_bucket(w, base, i.bucket@)
            ==> w.run(listing::list_objects_v2_script(base, i)) == End::<PageView>::Refused(
            ErrorView::NoSuchBucket { bucket: i.bucket@ },
        ),
{
    reveal_with_fuel(World::run, 3);
}

// ---- what a page shows ----

/// The entries for some keys.
pub open spec fn entries_at(
    w: World,
    base: Seq<char>,
    bucket: Seq<char>,
    keys: Seq<Seq<char>>,
) -> Seq<ListedView> {
    keys.map_values(|key: Seq<char>| entry_at(w, base, bucket, key))
}

/// The keys among the first `n` that no common prefix stands for.
pub open spec fn ungrouped(i: ListObjectsV2Input, keys: Seq<Seq<char>>, n: int) -> Seq<Seq<char>> {
    keys.take(n).filter(|key: Seq<char>| listing::grouped(i, key) is None)
}

/// `p` stands for one of the first `n` keys.
pub open spec fn groups_one(
    i: ListObjectsV2Input,
    keys: Seq<Seq<char>>,
    n: int,
    p: Seq<char>,
) -> bool {
    exists|k: int| 0 <= k < n && listing::grouped(i, #[trigger] keys[k]) == Some(p)
}

/// A page is what the first `n` keys make: the entries of those that no common
/// prefix stands for, and the common prefixes of the others.
pub open spec fn shows(
    w: World,
    base: Seq<char>,
    i: ListObjectsV2Input,
    keys: Seq<Seq<char>>,
    n: int,
    contents: Seq<ListedView>,
    prefixes: Seq<Seq<char>>,
) -> bool {
    &&& contents == entries_at(w, base, i.bucket@, ungrouped(i, keys, n))
    &&& order::ascending(prefixes)
    &&& forall|p: Seq<char>| #[trigger] prefixes.contains(p) <==> groups_one(i, keys, n, p)
}

proof fn lemma_shows_next(
    w: World,
    base: Seq<char>,
    i: ListObjectsV2Input,
    keys: Seq<Seq<char>>,
    n: int,
    contents: Seq<ListedView>,
    prefixes: Seq<Seq<char>>,
)
    requires
        0 <= n < keys.len(),
        shows(w, base, i, keys, n, contents, prefixes),
    ensures
        match listing::grouped(i, keys[n]) {
            Some(g) => shows(
                w,
                base,
                i,
                keys,
                n + 1,
                contents,
                order::with_member(prefixes, g),
            ),
            None => shows(
                w,
                base,
                i,
                keys,
                n + 1,
                contents.push(entry_at(w, base, i.bucket@, keys[n])),
                prefixes,
            ),
        },
{
    reveal(Seq::filter);
    assert(keys.take(n + 1).drop_last() =~= keys.take(n));
    assert(keys.take(n + 1).last() == keys[n]);
    let g = listing::grouped(i, keys[n]);
    let ps = match g {
        Some(g) => order::with_member(prefixes, g),
        None => prefixes,
    };
    if let Some(g) = g {
        order::members_stay_ascending(prefixes, g);
        assert(ungrouped(i, keys, n + 1) =~= ungrouped(i, keys, n));
    } else {
        let c = contents.push(entry_at(w, base, i.bucket@, keys[n]));
        assert(ungrouped(i, keys, n + 1) =~= ungrouped(i, keys, n).push(keys[n]));
        assert(c =~= entries_at(w, base, i.bucket@, ungrouped(i, keys, n + 1)));
    }
    assert forall|p: Seq<char>| #[trigger] ps.contains(p) <==> groups_one(i, keys, n + 1, p) by {
        assert(ps.contains(p) <==> prefixes.contains(p) || g == Some(p));
        assert(prefixes.contains(p) <==> groups_one(i, keys, n, p));
        if groups_one(i, keys, n + 1, p) {
            let k = choose|k: int|
                0 <= k < n + 1 && listing::grouped(i, #[trigger] keys[k]) == Some(p);
            if k < n {
                assert(groups_one(i, keys, n, p));
            }
        }
        if groups_one(i, keys, n, p) {
            let k = choose|k: int| 0 <= k < n && listing::grouped(i, #[trigger] keys[k]) == Some(p);
            assert(0 <= k < n + 1 && listing::grouped(i, keys[k]) == Some(p));
        }
        if g == Some(p) {
            assert(0 <= n < n + 1 && listing::grouped(i, keys[n]) == Some(p));
        }
    }
}

proof fn lemma_walked(
    w: World,
    base: Seq<char>,
    i: ListObjectsV2Input,
    keys: Seq<Seq<char>>,
    n: int,
    contents: Seq<ListedView>,
    prefixes: Seq<Seq<char>>,
)
    requires
        0 <= n <= keys.len(),
        contents.len() + prefixes.len() <= listing::page_size(i),
        shows(w, base, i, keys, n, contents, prefixes),
    ensures
        ({
            let (m, c, p) = walked(w, base, i, keys, n, contents, prefixes);
            &&& n <= m <= keys.len()
            &&& c.len() + p.len() <= listing::page_size(i)
            &&& shows(w, base, i, keys, m, c, p)
            &&& listing::ends_before(i, keys, m, c, p)
            &&& n < keys.len() && contents.len() + prefixes.len() < listing::page_size(i) ==> n < m
        }),
    decreases keys.len() - n,
{
    if !listing::ends_before(i, keys, n, contents, prefixes) {
        lemma_shows_next(w, base, i, keys, n, contents, prefixes);
        match listing::grouped(i, keys[n]) {
            Some(p) => {
                order::lemma_member_len(prefixes, p);
                lemma_walked(
                    w,
                    base,
                    i,
                    keys,
                    n + 1,
                    contents,
                    order::with_member(prefixes, p),
                );
            },
            None => {
                let c = contents.push(entry_at(w, base, i.bucket@, keys[n]));
                lemma_walked(w, base, i, keys, n + 1, c, prefixes);
            },
        }
    }
}

/// What the first page shows, and where it ends.
pub proof fn lemma_first_page(
    w: World,
    base: Seq<char>,
    i: ListObjectsV2Input,
    keys: Seq<Seq<char>>,
)
    ensures
        ({
            let n = covered(w, base, i, keys);
            let page = first_page(w, base, i, keys);
            &&& 0 <= n <= keys.len()
            &&& page.contents.len() + page.common_prefixes.len() <= listing::page_size(i)
            &&& page.key_count == page.contents.len() + page.common_prefixes.len()
            &&& shows(w, base, i, keys, n, page.contents, page.common_prefixes)
            &&& listing::ends_before(i, keys, n, page.contents, page.common_prefixes)
            &&& 0 < keys.len() && 0 < listing::page_size(i) ==> 0 < n
        }),
{
    let none = Seq::<ListedView>::empty();
    let nothing = Seq::<Seq<char>>::empty();
    reveal(Seq::filter);
    assert(keys.take(0) =~= nothing);
    assert(ungrouped(i, keys, 0) =~= nothing);
    assert(none =~= entries_at(w, base, i.bucket@, ungrouped(i, keys, 0)));
    assert(shows(w, base, i, keys, 0, none, nothing));
    lemma_walked(w, base, i, keys, 0, none, nothing);
}

/// A page shows what the first of the wanted keys make: each key has its entry, or,
/// where the delimiter occurs in it after the prefix, the common prefix that stands
/// for it. Each common prefix is there once, and stands for a key. Where not all keys
/// are covered the page is full, and the next key finds no place on it.
pub proof fn pages_group_keys(w: World, base: Seq<char>, i: ListObjectsV2Input)
    requires
        is_listable(w, base, i),
    ensures
        ({
            let keys = wanted_keys(w, base, i);
            let n = covered(w, base, i, keys);
            let page = page_at(w, base, i);
            &&& 0 <= n <= keys.len()
            &&& shows(w, base, i, keys, n, page.contents, page.common_prefixes)
            &&& n < keys.len() ==> page.key_count == listing::page_size(i) && listing::needs_room(
                i,
                keys[n],
                page.common_prefixes,
            )
            &&& page.is_truncated <==> 0 < n < keys.len()
            &&& page.is_truncated ==> page.next_continuation_token == Some(
                tokens::encoded(keys[n - 1]),
            )
        }),
{
    lemma_first_page(w, base, i, wanted_keys(w, base, i));
}

/// Without a delimiter no common prefix stands for a key.
proof fn lemma_ungrouped(i: ListObjectsV2Input, keys: Seq<Seq<char>>, n: int)
    requires
        i.delimiter is None,
        0 <= n <= keys.len(),
    ensures
        ungrouped(i, keys, n) == keys.take(n),
    decreases n,
{
    reveal(Seq::filter);
    if n > 0 {
        lemma_ungrouped(i, keys, n - 1);
        assert(keys.take(n).drop_last() =~= keys.take(n - 1));
        assert(keys.take(n) =~= keys.take(n - 1).push(keys[n - 1]));
    } else {
        assert(keys.take(0) =~= Seq::<Seq<char>>::empty());
        assert(ungrouped(i, keys, 0) =~= keys.take(0));
    }
}

/// Without a delimiter a page shows the first of the wanted keys, as many as fit,
/// and is truncated if and only if some do not fit.
pub proof fn pages_show_the_first_keys(w: World, base: Seq<char>, i: ListObjectsV2Input)
    requires
        is_listable(w, base, i),
        i.delimiter is None,
    ensures
        ({
            let keys = wanted_keys(w, base, i);
            let size = listing::page_size(i) as int;
            let page = page_at(w, base, i);
            let shown = if keys.len() <= size {
                keys
            } else {
                keys.take(size)
            };
            &&& page.contents == entries_at(w, base, i.bucket@, shown)
            &&& page.common_prefixes == Seq::<Seq<char>>::empty()
            &&& page.is_truncated <==> 0 < size < keys.len()
            &&& page.is_truncated ==> page.next_continuation_token == Some(
                tokens::encoded(keys[size - 1]),
            )
        }),
{
    let keys = wanted_keys(w, base, i);
    let n = covered(w, base, i, keys);
    let page = page_at(w, base, i);
    lemma_first_page(w, base, i, keys);
    lemma_ungrouped(i, keys, n);
    assert(page.common_prefixes =~= Seq::<Seq<char>>::empty()) by {
        if page.common_prefixes.len() > 0 {
            assert(page.common_prefixes.contains(page.common_prefixes[0]));
            assert(groups_one(i, keys, n, page.common_prefixes[0]));
        }
    }
    assert(page.contents.len() == n);
    assert(keys.take(keys.len() as int) =~= keys);
}

// ---- the next page ----

/// Of ascending keys, those after the `n`th one are the ones behind it.
proof fn lemma_after(s: Seq<Seq<char>>, n: int)
    requires
        order::ascending(s),
        0 <= n < s.len(),
    ensures
        s.filter(|key: Seq<char>| order::before(s[n], key)) == s.skip(n + 1),
{
    let p = |key: Seq<char>| order::before(s[n], key);
    assert forall|k: int| 0 <= k < n + 1 implies !p(#[trigger] s[k]) by {
        order::key_order_is_total(s[k], s[n], s[k]);
    }
    lemma_filter_split(s, p, n + 1);
}

proof fn lemma_filter_split(s: Seq<Seq<char>>, p: spec_fn(Seq<char>) -> bool, n: int)
    requires
        0 <= n <= s.len(),
        forall|k: int| 0 <= k < n ==> !p(#[trigger] s[k]),
        forall|k: int| n <= k < s.len() ==> p(#[trigger] s[k]),
    ensures
        s.filter(p) == s.skip(n),
    decreases s.len(),
{
    reveal(Seq::filter);
    if s.len() > 0 {
        let front = s.drop_last();
        if n < s.len() {
            lemma_filter_split(front, p, n);
            assert(front.skip(n).push(s.last()) =~= s.skip(n));
        } else {
            lemma_filter_split(front, p, n - 1);
            assert(front.skip(n - 1) =~= s.skip(n));
        }
    } else {
        assert(s.filter(p) =~= s.skip(n));
    }
}

proof fn lemma_filter_twice(
    s: Seq<Seq<char>>,
    p: spec_fn(Seq<char>) -> bool,
    q: spec_fn(Seq<char>) -> bool,
    r: spec_fn(Seq<char>) -> bool,
)
    requires
        forall|k: int| 0 <= k < s.len() ==> (#[trigger] r(s[k])) == (p(s[k]) && q(s[k])),
    ensures
        s.filter(r) == s.filter(p).filter(q),
    decreases s.len(),
{
    reveal(Seq::filter);
    if s.len() > 0 {
        let front = s.drop_last();
        assert forall|k: int| 0 <= k < front.len() implies (#[trigger] r(front[k])) == (p(front[k])
            && q(front[k])) by {
            assert(front[k] == s[k]);
            assert(r(s[k]) == (p(s[k]) && q(s[k])));
        }
        lemma_filter_twice(front, p, q, r);
        let f = front.filter(p);
        assert(r(s[s.len() - 1]) == (p(s[s.len() - 1]) && q(s[s.len() - 1])));
        if p(s.last()) {
            assert(f.push(s.last()).drop_last() =~= f);
        }
    }
}

/// The second listing asks for the same as the first, whatever their tokens.
pub open spec fn asks_the_same(i: ListObjectsV2Input, next: ListObjectsV2Input) -> bool {
    &&& next.bucket@ == i.bucket@
    &&& listing::prefix_of(next) == listing::prefix_of(i)
    &&& next.delimiter.deep_view() == i.delimiter.deep_view()
    &&& listing::page_size(next) == listing::page_size(i)
}

proof fn lemma_same_walk(
    w: World,
    base: Seq<char>,
    i: ListObjectsV2Input,
    next: ListObjectsV2Input,
    keys: Seq<Seq<char>>,
    n: int,
    contents: Seq<ListedView>,
    prefixes: Seq<Seq<char>>,
)
    requires
        asks_the_same(i, next),
    ensures
        walked(w, base, i, keys, n, contents, prefixes) == walked(
            w,
            base,
            next,
            keys,
            n,
            contents,
            prefixes,
        ),
    decreases keys.len() - n,
{
    if !listing::ends_before(i, keys, n, contents, prefixes) {
        assert(listing::grouped(i, keys[n]) == listing::grouped(next, keys[n]));
        match listing::grouped(i, keys[n]) {
            Some(p) => {
                lemma_same_walk(
                    w,
                    base,
                    i,
                    next,
                    keys,
                    n + 1,
                    contents,
                    order::with_member(prefixes, p),
                );
            },
            None => {
                let c = contents.push(entry_at(w, base, i.bucket@, keys[n]));
                lemma_same_walk(w, base, i, next, keys, n + 1, c, prefixes);
            },
        }
    }
}

/// The next page goes on right behind this one, with a delimiter or without: what it
/// wants is what this one wanted without the keys that this one covers. It can be
/// given too.
pub proof fn next_page_goes_on(
    w: World,
    base: Seq<char>,
    i: ListObjectsV2Input,
    next: ListObjectsV2Input,
)
    requires
        is_listable(w, base, i),
        page_at(w, base, i).is_truncated,
        asks_the_same(i, next),
        next.continuation_token is Some,
        Some(next.continuation_token->0@) == page_at(w, base, i).next_continuation_token,
    ensures
        is_listable(w, base, next),
        wanted_keys(w, base, next) == wanted_keys(w, base, i).skip(
            covered(w, base, i, wanted_keys(w, base, i)),
        ),
{
    let all = stored_keys(w, base, i.bucket@);
    let keys = wanted_keys(w, base, i);
    let n = covered(w, base, i, keys);
    lemma_first_page(w, base, i, keys);
    keys::listings_find_the_files(w, base, i.bucket@);
    wanted_keys_ascend(i, all);
    let last = keys[n - 1];
    tokens::token_reads_back(last);
    let sorted = order::in_order(all);
    let p = |key: Seq<char>| listing::is_wanted(i, key);
    let q = |key: Seq<char>| order::before(last, key);
    let r = |key: Seq<char>| listing::is_wanted(next, key);
    assert(keys.contains(last));
    assert(listing::is_wanted(i, last));
    assert forall|k: int| 0 <= k < sorted.len() implies (#[trigger] r(sorted[k])) == (p(sorted[k])
        && q(sorted[k])) by {
        if let Some(t) = i.continuation_token {
            order::key_order_is_total(tokens::decoded(t@), last, sorted[k]);
        }
    }
    lemma_filter_twice(sorted, p, q, r);
    lemma_after(keys, n - 1);
    let rest = wanted_keys(w, base, next);
    assert(rest == keys.skip(n));
    assert forall|k: int|
        0 <= k < rest.len() && listing::grouped(next, #[trigger] rest[k]) is None implies is_readable(
        w,
        base,
        next.bucket@,
        rest[k],
    ) by {
        assert(rest[k] == keys[n + k]);
        assert(listing::grouped(i, keys[n + k]) is None);
    }
}

// ---- all pages ----

/// The pages of a listing of these keys, from the first to the last.
pub open spec fn pages(
    w: World,
    base: Seq<char>,
    i: ListObjectsV2Input,
    keys: Seq<Seq<char>>,
) -> Seq<PageView>
    decreases keys.len(),
{
    let n = covered(w, base, i, keys);
    let page = first_page(w, base, i, keys);
    if 0 < n < keys.len() {
        seq![page] + pages(w, base, i, keys.skip(n))
    } else {
        seq![page]
    }
}

/// The pages that a listing gives, one after the other, when each one is asked for with
/// the token of the one before.
pub open spec fn all_pages(w: World, base: Seq<char>, i: ListObjectsV2Input) -> Seq<PageView> {
    pages(w, base, i, wanted_keys(w, base, i))
}

proof fn lemma_same_pages(
    w: World,
    base: Seq<char>,
    i: ListObjectsV2Input,
    next: ListObjectsV2Input,
    keys: Seq<Seq<char>>,
)
    requires
        asks_the_same(i, next),
    ensures
        pages(w, base, i, keys) == pages(w, base, next, keys),
    decreases keys.len(),
{
    lemma_same_walk(w, base, i, next, keys, 0, Seq::empty(), Seq::empty());
    let n = covered(w, base, i, keys);
    if 0 < n < keys.len() {
        lemma_same_pages(w, base, i, next, keys.skip(n));
    }
}

/// Following the tokens leads through all pages: a listing gives the first of them, and
/// the listing with its token gives the others.
pub proof fn tokens_lead_through_all_pages(
    w: World,
    base: Seq<char>,
    i: ListObjectsV2Input,
    next: ListObjectsV2Input,
)
    requires
        is_listable(w, base, i),
        asks_the_same(i, next),
        next.continuation_token.deep_view() == page_at(w, base, i).next_continuation_token,
    ensures
        all_pages(w, base, i) == (if page_at(w, base, i).is_truncated {
            seq![page_at(w, base, i)] + all_pages(w, base, next)
        } else {
            seq![page_at(w, base, i)]
        }),
        page_at(w, base, i).is_truncated ==> is_listable(w, base, next),
{
    let keys = wanted_keys(w, base, i);
    if page_at(w, base, i).is_truncated {
        next_page_goes_on(w, base, i, next);
        lemma_same_pages(w, base, i, next, keys.skip(covered(w, base, i, keys)));
    }
}

/// The contents of some pages, one after the other.
pub open spec fn joined_contents(ps: Seq<PageView>) -> Seq<ListedView>
    decreases ps.len(),
{
    if ps.len() == 0 {
        Seq::empty()
    } else {
        ps[0].contents + joined_contents(ps.drop_first())
    }
}

/// The common prefixes of some pages, one after the other.
pub open spec fn joined_prefixes(ps: Seq<PageView>) -> Seq<Seq<char>>
    decreases ps.len(),
{
    if ps.len() == 0 {
        Seq::empty()
    } else {
        ps[0].common_prefixes + joined_prefixes(ps.drop_first())
    }
}

/// Every key that begins with the common prefix of a key has that common prefix.
proof fn lemma_group_shared(i: ListObjectsV2Input, key: Seq<char>, other: Seq<char>)
    requires
        listing::prefix_of(i).is_prefix_of(key),
        listing::grouped(i, key) is Some,
        listing::grouped(i, key)->0.is_prefix_of(other),
    ensures
        listing::grouped(i, other) == listing::grouped(i, key),
{
    let d = i.delimiter->0@;
    let lo = listing::prefix_of(i).len() as int;
    common_prefixes_open_their_keys(i, key);
    text::lemma_found(key, d, lo);
    text::lemma_found(other, d, lo);
    let at = text::find_from(key, d, lo)->0;
    let g = listing::grouped(i, key)->0;
    assert(g == key.take(at) + d);
    assert(other.subrange(0, g.len() as int) == g);
    assert forall|j: int| 0 <= j < g.len() implies other[j] == key[j] by {
        assert(other.subrange(0, g.len() as int)[j] == g[j]);
        assert(key.subrange(0, g.len() as int)[j] == g[j]);
    }
    assert(other.subrange(at, at + d.len()) =~= key.subrange(at, at + d.len()));
    assert(text::occurs_at(other, d, at));
    match text::find_from(other, d, lo) {
        Some(b) => {
            if b < at {
                assert(key.subrange(b, b + d.len()) =~= other.subrange(b, b + d.len()));
                assert(text::occurs_at(key, d, b));
            }
            assert(b == at);
            assert(other.take(at) =~= key.take(at));
        },
        None => {},
    }
}

/// Of two keys in order with different common prefixes, these come in the same order.
proof fn lemma_groups_in_order(i: ListObjectsV2Input, a: Seq<char>, b: Seq<char>)
    requires
        order::before(a, b),
        listing::prefix_of(i).is_prefix_of(a),
        listing::prefix_of(i).is_prefix_of(b),
        listing::grouped(i, a) is Some,
        listing::grouped(i, b) is Some,
        listing::grouped(i, a) != listing::grouped(i, b),
    ensures
        order::before(listing::grouped(i, a)->0, listing::grouped(i, b)->0),
{
    let p = listing::grouped(i, a)->0;
    let q = listing::grouped(i, b)->0;
    common_prefixes_open_their_keys(i, a);
    common_prefixes_open_their_keys(i, b);
    if p.is_prefix_of(q) {
        assert(b.subrange(0, p.len() as int) =~= b.subrange(0, q.len() as int).subrange(
            0,
            p.len() as int,
        ));
        lemma_group_shared(i, a, b);
    }
    if q.is_prefix_of(p) {
        assert(a.subrange(0, q.len() as int) =~= a.subrange(0, p.len() as int).subrange(
            0,
            q.len() as int,
        ));
        lemma_group_shared(i, b, a);
    }
    order::beginnings_come_in_order(a, b, p, q);
}

/// Keys in order that all begin with the prefix of a listing.
pub open spec fn is_orderly(i: ListObjectsV2Input, keys: Seq<Seq<char>>) -> bool {
    &&& order::ascending(keys)
    &&& forall|k: int| 0 <= k < keys.len() ==> listing::prefix_of(i).is_prefix_of(#[trigger] keys[k])
}

/// Where a page ends, no common prefix of a key behind it stands for a key on it.
pub proof fn lemma_groups_apart(
    i: ListObjectsV2Input,
    keys: Seq<Seq<char>>,
    n: int,
    prefixes: Seq<Seq<char>>,
    a: int,
    b: int,
)
    requires
        is_orderly(i, keys),
        0 <= a < n <= b < keys.len(),
        listing::needs_room(i, keys[n], prefixes),
        forall|p: Seq<char>| #[trigger] prefixes.contains(p) <==> groups_one(i, keys, n, p),
        listing::grouped(i, keys[a]) is Some,
    ensures
        listing::grouped(i, keys[a]) != listing::grouped(i, keys[b]),
{
    let g = listing::grouped(i, keys[a]);
    let p = g->0;
    assert(groups_one(i, keys, n, p));
    assert(prefixes.contains(p));
    if listing::grouped(i, keys[b]) == g && b > n {
        common_prefixes_open_their_keys(i, keys[a]);
        common_prefixes_open_their_keys(i, keys[b]);
        assert(order::before(keys[a], keys[n]));
        assert(order::before(keys[n], keys[b]));
        order::beginnings_lie_together(p, keys[a], keys[n], keys[b]);
        lemma_group_shared(i, keys[a], keys[n]);
    }
}

proof fn lemma_ungrouped_split(i: ListObjectsV2Input, keys: Seq<Seq<char>>, n: int, m: int)
    requires
        0 <= n <= m <= keys.len(),
    ensures
        ungrouped(i, keys, m) == ungrouped(i, keys, n) + ungrouped(i, keys.skip(n), m - n),
    decreases m - n,
{
    reveal(Seq::filter);
    let rest = keys.skip(n);
    if m == n {
        assert(rest.take(0) =~= Seq::<Seq<char>>::empty());
        assert(ungrouped(i, keys, m) =~= ungrouped(i, keys, n) + ungrouped(i, rest, 0));
    } else {
        lemma_ungrouped_split(i, keys, n, m - 1);
        assert(keys.take(m).drop_last() =~= keys.take(m - 1));
        assert(rest.take(m - n).drop_last() =~= rest.take(m - 1 - n));
        assert(keys.take(m).last() == rest.take(m - n).last());
        assert(ungrouped(i, keys, m) =~= ungrouped(i, keys, n) + ungrouped(i, rest, m - n));
    }
}

/// What a page shows and what the keys behind it make is, joined, what all keys make.
proof fn lemma_shows_join(
    w: World,
    base: Seq<char>,
    i: ListObjectsV2Input,
    keys: Seq<Seq<char>>,
    n: int,
    c: Seq<ListedView>,
    ps: Seq<Seq<char>>,
    c2: Seq<ListedView>,
    ps2: Seq<Seq<char>>,
)
    requires
        is_orderly(i, keys),
        0 <= n < keys.len(),
        shows(w, base, i, keys, n, c, ps),
        listing::needs_room(i, keys[n], ps),
        shows(w, base, i, keys.skip(n), keys.len() - n, c2, ps2),
    ensures
        shows(w, base, i, keys, keys.len() as int, c + c2, ps + ps2),
{
    let rest = keys.skip(n);
    let len = keys.len() as int;
    lemma_ungrouped_split(i, keys, n, len);
    assert(c + c2 =~= entries_at(w, base, i.bucket@, ungrouped(i, keys, len)));
    let all = ps + ps2;
    assert forall|p: Seq<char>| #[trigger] all.contains(p) <==> groups_one(i, keys, len, p) by {
        if all.contains(p) {
            let k = choose|k: int| 0 <= k < all.len() && all[k] == p;
            if k < ps.len() {
                assert(ps.contains(p));
                let a = choose|a: int| 0 <= a < n && listing::grouped(i, #[trigger] keys[a]) == Some(p);
                assert(0 <= a < len && listing::grouped(i, keys[a]) == Some(p));
            } else {
                assert(ps2[k - ps.len()] == p);
                assert(ps2.contains(p));
                let b = choose|b: int|
                    0 <= b < len - n && listing::grouped(i, #[trigger] rest[b]) == Some(p);
                assert(0 <= n + b < len && listing::grouped(i, keys[n + b]) == Some(p));
            }
        }
        if groups_one(i, keys, len, p) {
            let a = choose|a: int| 0 <= a < len && listing::grouped(i, #[trigger] keys[a]) == Some(p);
            if a < n {
                assert(groups_one(i, keys, n, p));
                assert(ps.contains(p));
                let k = choose|k: int| 0 <= k < ps.len() && ps[k] == p;
                assert(all[k] == p);
            } else {
                assert(rest[a - n] == keys[a]);
                assert(groups_one(i, rest, len - n, p));
                assert(ps2.contains(p));
                let k = choose|k: int| 0 <= k < ps2.len() && ps2[k] == p;
                assert(all[ps.len() + k] == p);
            }
        }
    }
    assert forall|x: int, y: int| 0 <= x < y < all.len() implies order::before(
        #[trigger] all[x],
        #[trigger] all[y],
    ) by {
        if x < ps.len() && y >= ps.len() {
            let (p, q) = (all[x], all[y]);
            assert(ps[x] == p && ps2[y - ps.len()] == q);
            assert(ps.contains(p) && ps2.contains(q));
            let a = choose|a: int| 0 <= a < n && listing::grouped(i, #[trigger] keys[a]) == Some(p);
            let b = choose|b: int|
                0 <= b < len - n && listing::grouped(i, #[trigger] rest[b]) == Some(q);
            assert(keys[n + b] == rest[b]);
            lemma_groups_apart(i, keys, n, ps, a, n + b);
            assert(order::before(keys[a], keys[n + b]));
            lemma_groups_in_order(i, keys[a], keys[n + b]);
        } else if x >= ps.len() {
            assert(ps2[x - ps.len()] == all[x] && ps2[y - ps.len()] == all[y]);
        }
    }
}

proof fn lemma_pages_join(
    w: World,
    base: Seq<char>,
    i: ListObjectsV2Input,
    keys: Seq<Seq<char>>,
)
    requires
        is_orderly(i, keys),
        listing::page_size(i) > 0,
    ensures
        ({
            let ps = pages(w, base, i, keys);
            let contents = joined_contents(ps);
            let prefixes = joined_prefixes(ps);
            let total = contents.len() + prefixes.len();
            let size = listing::page_size(i);
            &&& ps.len() > 0
            &&& shows(w, base, i, keys, keys.len() as int, contents, prefixes)
            &&& total <= ps.len() * size
            &&& total > 0 ==> (ps.len() - 1) * size < total
            &&& total == 0 ==> ps.len() == 1
            &&& keys.len() > 0 ==> total > 0
        }),
    decreases keys.len(),
{
    let n = covered(w, base, i, keys);
    let page = first_page(w, base, i, keys);
    let ps = pages(w, base, i, keys);
    let size = listing::page_size(i);
    lemma_first_page(w, base, i, keys);
    if 0 < n < keys.len() {
        let rest = keys.skip(n);
        assert forall|k: int| 0 <= k < rest.len() implies listing::prefix_of(i).is_prefix_of(
            #[trigger] rest[k],
        ) by {
            assert(rest[k] == keys[n + k]);
        }
        lemma_pages_join(w, base, i, rest);
        let more = pages(w, base, i, rest);
        assert(ps.drop_first() =~= more);
        lemma_shows_join(
            w,
            base,
            i,
            keys,
            n,
            page.contents,
            page.common_prefixes,
            joined_contents(more),
            joined_prefixes(more),
        );
        assert(page.contents.len() + page.common_prefixes.len() == size);
        assert(ps.len() == more.len() + 1);
        assert((more.len() + 1) * size == more.len() * size + size) by (nonlinear_arith);
        assert((more.len() - 1 + 1) * size == (more.len() - 1) * size + size) by (nonlinear_arith);
    } else {
        assert(n == keys.len());
        assert(ps.drop_first() =~= Seq::<PageView>::empty());
        reveal_with_fuel(joined_contents, 2);
        reveal_with_fuel(joined_prefixes, 2);
        assert(joined_contents(ps) =~= page.contents);
        assert(joined_prefixes(ps) =~= page.common_prefixes);
        if keys.len() > 0 {
            lemma_something_shown(w, base, i, keys, page.contents, page.common_prefixes);
        }
    }
}

/// Where there are keys, there is something to show.
proof fn lemma_something_shown(
    w: World,
    base: Seq<char>,
    i: ListObjectsV2Input,
    keys: Seq<Seq<char>>,
    c: Seq<ListedView>,
    ps: Seq<Seq<char>>,
)
    requires
        keys.len() > 0,
        shows(w, base, i, keys, keys.len() as int, c, ps),
    ensures
        c.len() + ps.len() > 0,
{
    let len = keys.len() as int;
    match listing::grouped(i, keys[0]) {
        Some(p) => {
            assert(0 <= 0 < len && listing::grouped(i, keys[0]) == Some(p));
            assert(groups_one(i, keys, len, p));
            assert(ps.contains(p));
        },
        None => {
            reveal(Seq::filter);
            let f = |key: Seq<char>| listing::grouped(i, key) is None;
            assert(keys.take(len) =~= keys);
            keys.lemma_filter_contains(f, 0);
            assert(ungrouped(i, keys, len).contains(keys[0]));
        },
    }
}

/// The pages of a listing end. Joined, they show the entry of every wanted key that no
/// common prefix stands for, in order and once, and every common prefix, in order and
/// once; and there are as few of them as can hold all that, but at least one.
pub proof fn pages_together_show_everything_once(w: World, base: Seq<char>, i: ListObjectsV2Input)
    requires
        is_listable(w, base, i),
        listing::page_size(i) > 0,
    ensures
        ({
            let keys = wanted_keys(w, base, i);
            let ps = all_pages(w, base, i);
            let contents = joined_contents(ps);
            let prefixes = joined_prefixes(ps);
            let total = contents.len() + prefixes.len();
            let size = listing::page_size(i);
            &&& order::ascending(keys)
            &&& shows(w, base, i, keys, keys.len() as int, contents, prefixes)
            &&& total <= ps.len() * size
            &&& total > 0 ==> (ps.len() - 1) * size < total
            &&& total == 0 ==> ps.len() == 1
            &&& !ps.last().is_truncated
        }),
{
    let all = stored_keys(w, base, i.bucket@);
    let keys = wanted_keys(w, base, i);
    keys::listings_find_the_files(w, base, i.bucket@);
    wanted_keys_ascend(i, all);
    listing::lemma_wanted(i, all);
    lemma_pages_join(w, base, i, keys);
    lemma_last_page(w, base, i, keys);
}

proof fn lemma_last_page(w: World, base: Seq<char>, i: ListObjectsV2Input, keys: Seq<Seq<char>>)
    ensures
        pages(w, base, i, keys).len() > 0,
        !pages(w, base, i, keys).last().is_truncated,
    decreases keys.len(),
{
    let n = covered(w, base, i, keys);
    if 0 < n < keys.len() {
        lemma_last_page(w, base, i, keys.skip(n));
        assert(pages(w, base, i, keys).last() == pages(w, base, i, keys.skip(n)).last());
    }
}

/// A common prefix goes up to the first delimiter after the prefix, and ends with
/// it; every key that it stands for begins with it.
pub proof fn common_prefixes_open_their_keys(i: ListObjectsV2Input, key: Seq<char>)
    requires
        listing::prefix_of(i).is_prefix_of(key),
        listing::grouped(i, key) is Some,
    ensures
        listing::grouped(i, key)->0.is_prefix_of(key),
        listing::prefix_of(i).is_prefix_of(listing::grouped(i, key)->0),
        i.delimiter->0@.is_suffix_of(listing::grouped(i, key)->0),
{
    let d = i.delimiter->0@;
    let lo = listing::prefix_of(i).len() as int;
    text::lemma_found(key, d, lo);
    let at = text::find_from(key, d, lo)->0;
    let g = key.take(at) + d;
    assert(key.subrange(at, at + d.len()) == d);
    assert(key.subrange(0, g.len() as int) =~= g);
    assert(g.subrange(0, lo) =~= key.subrange(0, lo));
    assert(g.subrange(at, g.len() as int) =~= d);
}

} // verus!
