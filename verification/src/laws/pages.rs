//! What a page of a listing shows, in terms of what is in the bucket and of what was
//! asked for, character by character.

use crate::disk;
use crate::disk::{End, World};
use crate::laws;
use crate::laws::buckets;
use crate::laws::keys;
use crate::laws::listing::{covered, entry_at, groups_one, is_listable};
use crate::laws::listing::{is_orderly, is_readable, lemma_filter_ascending, lemma_first_page};
use crate::laws::listing::{lemma_groups_apart, list_gives_a_page, page_at, stored_keys, ungrouped};
use crate::laws::listing::{wanted_keys, wanted_keys_ascend};
use crate::meta;
use crate::order;
use crate::paths;
use crate::store::listing;
use crate::store::listing::ListObjectsV2Input;
use crate::store::listing::{ListedView, PageView};
use crate::store::objects;
use crate::store::objects::PutObjectInput;
use crate::store::objects::ObjectView;
use crate::store::tokens;
use crate::text;
use vstd::prelude::*;

verus! {

// ---- which keys are asked for ----

/// The characters of `p` are the first characters of `key`.
pub open spec fn opens(p: Seq<char>, key: Seq<char>) -> bool {
    p.len() <= key.len() && forall|j: int| 0 <= j < p.len() ==> #[trigger] key[j] == p[j]
}

proof fn lemma_opens(p: Seq<char>, key: Seq<char>)
    ensures
        opens(p, key) <==> p.is_prefix_of(key),
{
    if opens(p, key) {
        assert(key.subrange(0, p.len() as int) =~= p);
    }
    if p.is_prefix_of(key) {
        assert forall|j: int| 0 <= j < p.len() implies #[trigger] key[j] == p[j] by {
            assert(key.subrange(0, p.len() as int)[j] == p[j]);
        }
    }
}

/// The token of a listing, if it has one, is that of the key `last`, or reads as that key.
pub open spec fn resumes_after(i: ListObjectsV2Input, last: Seq<char>) -> bool {
    i.continuation_token is Some ==> i.continuation_token->0@ == tokens::encoded(last)
        || tokens::decoded(i.continuation_token->0@) == last
}

/// The key is that of a file in the bucket, it begins with the prefix, if there is one, and
/// it comes after `last`, if there is a token.
pub open spec fn is_asked_for(
    w: World,
    base: Seq<char>,
    i: ListObjectsV2Input,
    last: Seq<char>,
    key: Seq<char>,
) -> bool {
    &&& keys::is_shown(w, base, i.bucket@, key)
    &&& i.prefix is Some ==> opens(i.prefix->0@, key)
    &&& i.continuation_token is Some ==> order::before(last, key)
}

/// A listing goes through a key if and only if it is a key of the bucket, the characters
/// of the prefix are its first characters, whatever the last of them is, and it comes after
/// the key that the token stands for.
pub proof fn listings_go_through_the_keys_asked_for(
    w: World,
    base: Seq<char>,
    i: ListObjectsV2Input,
    last: Seq<char>,
    key: Seq<char>,
)
    requires
        buckets::is_named(w, base, i.bucket@),
        buckets::has_bucket(w, base, i.bucket@),
        resumes_after(i, last),
    ensures
        wanted_keys(w, base, i).contains(key) <==> is_asked_for(w, base, i, last, key),
        wanted_keys(w, base, i).contains(key) <==> stored_keys(w, base, i.bucket@).contains(key) && (
        i.prefix is Some ==> opens(i.prefix->0@, key)) && (i.continuation_token is Some
            ==> order::before(last, key)),
{
    keys::listings_find_the_files(w, base, i.bucket@);
    wanted_keys_ascend(i, stored_keys(w, base, i.bucket@));
    tokens::token_reads_back(last);
    match i.prefix {
        Some(p) => {
            lemma_opens(p@, key);
        },
        None => {
            lemma_opens(Seq::empty(), key);
        },
    }
}

// ---- common prefixes ----

/// The characters of `d` stand in `key` from `at` on.
pub open spec fn stands(d: Seq<char>, key: Seq<char>, at: int) -> bool {
    &&& 0 <= at
    &&& at + d.len() <= key.len()
    &&& forall|j: int| 0 <= j < d.len() ==> #[trigger] d[j] == key[at + j]
}

proof fn lemma_stands(d: Seq<char>, key: Seq<char>, at: int)
    ensures
        stands(d, key, at) <==> text::occurs_at(key, d, at),
{
    if stands(d, key, at) {
        assert(key.subrange(at, at + d.len()) =~= d);
    }
    if text::occurs_at(key, d, at) {
        assert forall|j: int| 0 <= j < d.len() implies #[trigger] d[j] == key[at + j] by {
            assert(key.subrange(at, at + d.len())[j] == d[j]);
        }
    }
}

/// How many characters the prefix of a listing has.
pub open spec fn prefix_len(i: ListObjectsV2Input) -> int {
    match i.prefix {
        Some(p) => p@.len() as int,
        None => 0,
    }
}

/// The delimiter stands in the key behind the prefix.
pub open spec fn is_delimited(i: ListObjectsV2Input, key: Seq<char>) -> bool {
    i.delimiter is Some && exists|at: int|
        prefix_len(i) <= at && #[trigger] stands(i.delimiter->0@, key, at)
}

/// `g` is the beginning of the key up to and with the first delimiter behind the prefix.
pub open spec fn is_group(i: ListObjectsV2Input, key: Seq<char>, g: Seq<char>) -> bool {
    i.delimiter is Some && exists|at: int| #[trigger]
        ends_group(i.delimiter->0@, key, g, prefix_len(i), at)
}

/// The first delimiter from `lo` on stands at `at`, and `g` ends with it.
pub open spec fn ends_group(
    d: Seq<char>,
    key: Seq<char>,
    g: Seq<char>,
    lo: int,
    at: int,
) -> bool {
    &&& lo <= at
    &&& stands(d, key, at)
    &&& forall|b: int| lo <= b < at ==> !#[trigger] stands(d, key, b)
    &&& g.len() == at + d.len()
    &&& opens(g, key)
}

/// The common prefix that stands for a key is its beginning up to and with the first
/// delimiter behind the prefix; there is one if and only if there is such a delimiter.
pub proof fn keys_are_grouped_by_their_first_delimiter(
    i: ListObjectsV2Input,
    key: Seq<char>,
    g: Seq<char>,
)
    ensures
        listing::grouped(i, key) == Some(g) <==> is_group(i, key, g),
        listing::grouped(i, key) is Some <==> is_delimited(i, key),
{
    if let Some(delim) = i.delimiter {
        let d = delim@;
        let lo = prefix_len(i);
        text::lemma_found(key, d, lo);
        match text::find_from(key, d, lo) {
            Some(at) => {
                lemma_stands(d, key, at);
                assert forall|b: int| lo <= b < at implies !#[trigger] stands(d, key, b) by {
                    lemma_stands(d, key, b);
                }
                let h = key.take(at) + d;
                assert forall|j: int| 0 <= j < h.len() implies #[trigger] key[j] == h[j] by {
                    if j >= at {
                        assert(d[j - at] == key[at + (j - at)]);
                    }
                }
                assert(ends_group(d, key, h, lo, at));
                if is_group(i, key, g) {
                    let b = choose|b: int| #[trigger] ends_group(d, key, g, lo, b);
                    assert(b == at);
                    assert(g =~= h);
                }
            },
            None => {
                if is_delimited(i, key) {
                    let at = choose|at: int| lo <= at && #[trigger] stands(d, key, at);
                    lemma_stands(d, key, at);
                }
                if is_group(i, key, g) {
                    let b = choose|b: int| #[trigger] ends_group(d, key, g, lo, b);
                    lemma_stands(d, key, b);
                }
            },
        }
    }
}

// ---- pages ----

/// How many keys and common prefixes a page has room for: as many as were asked for, but
/// at most a thousand.
pub open spec fn room(i: ListObjectsV2Input) -> int {
    match i.max_keys {
        Some(n) => if n < 1000 {
            n as int
        } else {
            1000
        },
        None => 1000,
    }
}

/// The entry says what the sidecar of the object says.
pub open spec fn tells_of(w: World, base: Seq<char>, bucket: Seq<char>, e: ListedView) -> bool {
    let bytes = disk::file_at(w.nodes, paths::meta_file(base, bucket, e.key));
    bytes is Some && match (w.codec.meta_in)(bytes->0) {
        Some(m) => {
            &&& e.etag == m.etag
            &&& e.size == m.size
            &&& e.last_modified == m.last_modified
            &&& e.storage_class == m.storage_class
        },
        None => false,
    }
}

/// The page has an entry with this key.
pub open spec fn has_entry(page: PageView, key: Seq<char>) -> bool {
    exists|k: int| 0 <= k < page.contents.len() && (#[trigger] page.contents[k]).key == key
}

/// The page shows a key: by an entry, or by its common prefix where the delimiter stands
/// in it behind the prefix.
pub open spec fn is_on(page: PageView, i: ListObjectsV2Input, key: Seq<char>) -> bool {
    if is_delimited(i, key) {
        exists|g: Seq<char>| #[trigger] is_group(i, key, g) && page.common_prefixes.contains(g)
    } else {
        has_entry(page, key)
    }
}

/// What is on a page is there for a key that was asked for: each entry tells of such a key
/// without a delimiter behind the prefix, and each common prefix is that of such a key.
pub open spec fn is_sound(
    w: World,
    base: Seq<char>,
    i: ListObjectsV2Input,
    last: Seq<char>,
    page: PageView,
) -> bool {
    &&& forall|k: int|
        0 <= k < page.contents.len() ==> {
            let e = #[trigger] page.contents[k];
            &&& is_asked_for(w, base, i, last, e.key)
            &&& !is_delimited(i, e.key)
            &&& tells_of(w, base, i.bucket@, e)
        }
    &&& forall|k: int|
        0 <= k < page.common_prefixes.len() ==> stands_for_some(
            w,
            base,
            i,
            last,
            #[trigger] page.common_prefixes[k],
        )
}

/// `g` is the common prefix of a key that was asked for.
pub open spec fn stands_for_some(
    w: World,
    base: Seq<char>,
    i: ListObjectsV2Input,
    last: Seq<char>,
    g: Seq<char>,
) -> bool {
    exists|key: Seq<char>| #[trigger] is_asked_for(w, base, i, last, key) && is_group(i, key, g)
}

/// Entries and common prefixes each stand in the order of the keys, none of them twice.
pub open spec fn is_ordered(page: PageView) -> bool {
    &&& forall|j: int, k: int|
        0 <= j < k < page.contents.len() ==> order::before(
            (#[trigger] page.contents[j]).key,
            (#[trigger] page.contents[k]).key,
        )
    &&& forall|j: int, k: int|
        0 <= j < k < page.common_prefixes.len() ==> order::before(
            #[trigger] page.common_prefixes[j],
            #[trigger] page.common_prefixes[k],
        )
}

proof fn lemma_page_sound(
    w: World,
    base: Seq<char>,
    i: ListObjectsV2Input,
    last: Seq<char>,
)
    requires
        is_listable(w, base, i),
        resumes_after(i, last),
    ensures
        is_sound(w, base, i, last, page_at(w, base, i)),
        is_ordered(page_at(w, base, i)),
{
    let all = wanted_keys(w, base, i);
    let n = covered(w, base, i, all);
    let page = page_at(w, base, i);
    let bucket = i.bucket@;
    let some = ungrouped(i, all, n);
    let p = |key: Seq<char>| listing::grouped(i, key) is None;
    lemma_first_page(w, base, i, all);
    keys::listings_find_the_files(w, base, bucket);
    wanted_keys_ascend(i, stored_keys(w, base, bucket));
    lemma_filter_ascending(all.take(n), p);
    assert forall|k: int| 0 <= k < page.contents.len() implies {
        let e = #[trigger] page.contents[k];
        &&& is_asked_for(w, base, i, last, e.key)
        &&& !is_delimited(i, e.key)
        &&& tells_of(w, base, bucket, e)
    } by {
        let key = some[k];
        assert(page.contents[k] == entry_at(w, base, bucket, key));
        assert(some.contains(key));
        assert(all.take(n).contains(key));
        let x = choose|x: int| 0 <= x < n && all.take(n)[x] == key;
        assert(all[x] == key);
        assert(all.contains(key));
        listings_go_through_the_keys_asked_for(w, base, i, last, key);
        keys_are_grouped_by_their_first_delimiter(i, key, key);
        assert(is_readable(w, base, bucket, all[x]));
    }
    assert forall|k: int| 0 <= k < page.common_prefixes.len() implies stands_for_some(
        w,
        base,
        i,
        last,
        #[trigger] page.common_prefixes[k],
    ) by {
        let g = page.common_prefixes[k];
        assert(page.common_prefixes.contains(g));
        assert(groups_one(i, all, n, g));
        let x = choose|x: int| 0 <= x < n && listing::grouped(i, #[trigger] all[x]) == Some(g);
        assert(all.contains(all[x]));
        listings_go_through_the_keys_asked_for(w, base, i, last, all[x]);
        keys_are_grouped_by_their_first_delimiter(i, all[x], g);
    }
    assert forall|j: int, k: int| 0 <= j < k < page.contents.len() implies order::before(
        (#[trigger] page.contents[j]).key,
        (#[trigger] page.contents[k]).key,
    ) by {
        assert(page.contents[j] == entry_at(w, base, bucket, some[j]));
        assert(page.contents[k] == entry_at(w, base, bucket, some[k]));
    }
}

/// The first of the wanted keys are on the page, and the others are not.
proof fn lemma_on_page(
    w: World,
    base: Seq<char>,
    i: ListObjectsV2Input,
    x: int,
)
    requires
        is_listable(w, base, i),
        0 <= x < wanted_keys(w, base, i).len(),
    ensures
        is_on(page_at(w, base, i), i, wanted_keys(w, base, i)[x]) <==> x < covered(
            w,
            base,
            i,
            wanted_keys(w, base, i),
        ),
{
    let all = wanted_keys(w, base, i);
    let n = covered(w, base, i, all);
    let page = page_at(w, base, i);
    let bucket = i.bucket@;
    let key = all[x];
    let some = ungrouped(i, all, n);
    let p = |key: Seq<char>| listing::grouped(i, key) is None;
    lemma_first_page(w, base, i, all);
    keys::listings_find_the_files(w, base, bucket);
    wanted_keys_ascend(i, stored_keys(w, base, bucket));
    listing::lemma_wanted(i, stored_keys(w, base, bucket));
    lemma_filter_ascending(all.take(n), p);
    assert(is_orderly(i, all)) by {
        assert forall|k: int| 0 <= k < all.len() implies listing::prefix_of(i).is_prefix_of(
            #[trigger] all[k],
        ) by {
            assert(listing::is_wanted(i, all[k]));
        }
    }
    keys_are_grouped_by_their_first_delimiter(i, key, key);
    match listing::grouped(i, key) {
        Some(g) => {
            keys_are_grouped_by_their_first_delimiter(i, key, g);
            assert(page.common_prefixes.contains(g) <==> groups_one(i, all, n, g));
            if x < n {
                assert(listing::grouped(i, all[x]) == Some(g));
                assert(is_group(i, key, g) && page.common_prefixes.contains(g));
            } else if groups_one(i, all, n, g) {
                let a = choose|a: int|
                    0 <= a < n && listing::grouped(i, #[trigger] all[a]) == Some(g);
                lemma_groups_apart(i, all, n, page.common_prefixes, a, x);
            }
            if is_on(page, i, key) {
                let h = choose|h: Seq<char>| #[trigger]
                    is_group(i, key, h) && page.common_prefixes.contains(h);
                keys_are_grouped_by_their_first_delimiter(i, key, h);
                assert(h == g);
            }
        },
        None => {
            if x < n {
                assert(all.take(n)[x] == key);
                assert(all.take(n).contains(key));
                assert(some.contains(key));
                let k = choose|k: int| 0 <= k < some.len() && some[k] == key;
                assert(page.contents[k] == entry_at(w, base, bucket, some[k]));
                assert(has_entry(page, key));
            }
            if has_entry(page, key) {
                let k = choose|k: int|
                    0 <= k < page.contents.len() && (#[trigger] page.contents[k]).key == key;
                assert(page.contents[k] == entry_at(w, base, bucket, some[k]));
                assert(some.contains(key));
                assert(all.take(n).contains(key));
                let y = choose|y: int| 0 <= y < n && all.take(n)[y] == key;
                assert(all[y] == all[x]);
                if x != y {
                    order::key_order_is_total(all[x], all[y], all[x]);
                }
            }
        },
    }
}

/// A listing gives a page and changes nothing. What is on the page was asked for and is
/// told as the disk has it; it stands in order, is counted, and fits. If the page is not
/// truncated, all keys that were asked for are on it, as far as it has any room. If it is
/// truncated it is full, and its token is that of a key on it behind which the next page
/// goes on: of the keys that were asked for, those up to that key are on the page and
/// those after it, of which there are some, are not.
pub proof fn pages_show_what_is_asked_for(
    w: World,
    base: Seq<char>,
    i: ListObjectsV2Input,
    last: Seq<char>,
)
    requires
        is_listable(w, base, i),
        resumes_after(i, last),
    ensures
        match w.run(listing::list_objects_v2_script(base, i)) {
            End::Done(nodes, page) => {
                &&& nodes == w.nodes
                &&& is_sound(w, base, i, last, page)
                &&& is_ordered(page)
                &&& page.key_count == page.contents.len() + page.common_prefixes.len()
                &&& page.key_count <= room(i)
                &&& !page.is_truncated && room(i) > 0 ==> forall|key: Seq<char>| #[trigger]
                    is_asked_for(w, base, i, last, key) ==> is_on(page, i, key)
                &&& page.next_continuation_token is Some <==> page.is_truncated
                &&& page.is_truncated ==> page.key_count == room(i) && exists|z: Seq<char>|
                    #[trigger]
                    breaks_off(w, base, i, last, page, z)
            },
            _ => false,
        },
{
    let all = wanted_keys(w, base, i);
    let n = covered(w, base, i, all);
    let page = page_at(w, base, i);
    list_gives_a_page(w, base, i);
    lemma_first_page(w, base, i, all);
    lemma_page_sound(w, base, i, last);
    keys::listings_find_the_files(w, base, i.bucket@);
    wanted_keys_ascend(i, stored_keys(w, base, i.bucket@));
    assert(listing::page_size(i) == room(i));
    if !page.is_truncated && room(i) > 0 {
        assert forall|key: Seq<char>| #[trigger] is_asked_for(w, base, i, last, key) implies is_on(
            page,
            i,
            key,
        ) by {
            listings_go_through_the_keys_asked_for(w, base, i, last, key);
            let x = choose|x: int| 0 <= x < all.len() && all[x] == key;
            lemma_on_page(w, base, i, x);
        }
    }
    if page.is_truncated {
        let z = all[n - 1];
        assert(all.contains(z));
        listings_go_through_the_keys_asked_for(w, base, i, last, z);
        lemma_on_page(w, base, i, n - 1);
        assert forall|key: Seq<char>| #[trigger] is_asked_for(w, base, i, last, key) implies (is_on(
            page,
            i,
            key,
        ) <==> !order::before(z, key)) by {
            listings_go_through_the_keys_asked_for(w, base, i, last, key);
            let x = choose|x: int| 0 <= x < all.len() && all[x] == key;
            lemma_on_page(w, base, i, x);
            order::key_order_is_total(all[x], z, all[x]);
            if x < n - 1 {
                assert(order::before(all[x], all[n - 1]));
            } else if x > n - 1 {
                assert(order::before(all[n - 1], all[x]));
            }
        }
        assert(all.contains(all[n]));
        listings_go_through_the_keys_asked_for(w, base, i, last, all[n]);
        assert(order::before(all[n - 1], all[n]));
        assert(is_asked_for(w, base, i, last, all[n]) && order::before(z, all[n]));
        assert(breaks_off(w, base, i, last, page, z));
    }
}

/// The page breaks off behind the key `z`: its token is that of `z`, the keys up to `z`
/// are on it, and those after `z`, of which there are some, are not.
pub open spec fn breaks_off(
    w: World,
    base: Seq<char>,
    i: ListObjectsV2Input,
    last: Seq<char>,
    page: PageView,
    z: Seq<char>,
) -> bool {
    &&& page.next_continuation_token == Some(tokens::encoded(z))
    &&& is_asked_for(w, base, i, last, z)
    &&& forall|key: Seq<char>| #[trigger]
        is_asked_for(w, base, i, last, key) ==> (is_on(page, i, key) <==> !order::before(z, key))
    &&& exists|key: Seq<char>| #[trigger]
        is_asked_for(w, base, i, last, key) && order::before(z, key)
}

/// An object that was put is on the page of a listing that asks for its key, with the size
/// of its body, the ETag that the put gave and the time of the put: where the page is not
/// truncated, the prefix is the beginning of the key, and no delimiter stands behind it.
pub proof fn put_objects_are_listed(
    w: World,
    base: Seq<char>,
    p: PutObjectInput,
    etag: Seq<char>,
    after: World,
    i: ListObjectsV2Input,
)
    requires
        laws::objects::is_addressed(w, base, p.bucket@, p.key@),
        w.run(objects::put_object_script(base, p)) == End::Done(after.nodes, etag),
        after.is_valid(),
        after.codec == w.codec,
        keys::is_canonical(p.key@),
        !".fals3-meta.json"@.is_suffix_of(paths::names(p.key@).last()),
        is_listable(after, base, i),
        i.bucket@ == p.bucket@,
        i.prefix is Some ==> opens(i.prefix->0@, p.key@),
        !is_delimited(i, p.key@),
        i.continuation_token is None,
        room(i) > 0,
    ensures
        match after.run(listing::list_objects_v2_script(base, i)) {
            End::Done(_, page) => page.is_truncated || exists|k: int|
                0 <= k < page.contents.len() && #[trigger] page.contents[k] == (ListedView {
                    key: p.key@,
                    etag,
                    size: p.body@.len() as u64,
                    last_modified: w.now,
                    storage_class: "STANDARD"@,
                }),
            _ => false,
        },
{
    let none = Seq::<char>::empty();
    keys::put_objects_are_found(w, base, p, etag, after);
    pages_show_what_is_asked_for(after, base, i, none);
    listings_go_through_the_keys_asked_for(after, base, i, none, p.key@);
    let page = page_at(after, base, i);
    list_gives_a_page(after, base, i);
    if !page.is_truncated {
        assert(is_asked_for(after, base, i, none, p.key@));
        assert(is_on(page, i, p.key@));
        let k = choose|k: int|
            0 <= k < page.contents.len() && (#[trigger] page.contents[k]).key == p.key@;
        laws::objects::put_adds_the_object(w, base, p);
        let m = objects::put_meta(p, w.now);
        meta::lemma_finite_metadata(p.metadata);
        laws::objects::lemma_added(
            w,
            after,
            base,
            p.bucket@,
            p.key@,
            ObjectView { body: p.body@, meta: m },
        );
        assert(tells_of(after, base, i.bucket@, page.contents[k]));
    }
}

} // verus!
