//! What the operations on multipart uploads give, in terms of what they are given.

use crate::digits;
use crate::disk;
use crate::disk::{End, World};
use crate::error::ErrorView;
use crate::exchange::{EntryView, QueryView};
use crate::laws;
use crate::laws::etags;
use crate::laws::uploads;
use crate::laws::uploads::{are_there, has_part, has_readable_etags, has_upload, home_place};
use crate::laws::uploads::{is_there, listed_entry, listed_from, listed_parts};
use crate::meta;
use crate::paths;
use crate::store::multipart;
use crate::store::multipart::{CompleteMultipartUploadInput, CreateMultipartUploadInput};
use crate::store::multipart::{CompletedPart, UploadPartInput};
use crate::store::multipart::{CompletedView, CreatedView, UploadedView};
use crate::store::part_listing;
use crate::store::part_listing::{PartView, PartsView};
use crate::store::parts;
use crate::upload::UploadView;
use vstd::arithmetic::power;
use vstd::prelude::*;
use vstd::utf8;

verus! {

// ---- beginning ----

proof fn lemma_hex_number_at(n: nat, width: nat)
    ensures
        digits::hex_number(n, width).len() == width,
        forall|k: int|
            #![trigger digits::hex_number(n, width)[width - 1 - k]]
            0 <= k < width ==> digits::hex_number(n, width)[width - 1 - k] == "0123456789abcdef"@[(n as int
                / power::pow(16, k as nat)) % 16],
    decreases width,
{
    if width > 0 {
        let (m, v) = (n / 16, (width - 1) as nat);
        let (h, g) = (digits::hex_number(n, width), digits::hex_number(m, v));
        lemma_hex_number_at(m, v);
        etags::hex_digits_by_value(n as int % 16);
        assert forall|k: int|
            #![trigger h[width - 1 - k]]
            0 <= k < width implies h[width - 1 - k] == "0123456789abcdef"@[(n as int / power::pow(
            16,
            k as nat,
        )) % 16] by {
            reveal(power::pow);
            if k > 0 {
                assert(h[width - 1 - k] == g[v - 1 - (k - 1)]);
                let p = power::pow(16, (k - 1) as nat);
                power::lemma_pow_positive(16, (k - 1) as nat);
                assert(power::pow(16, k as nat) == 16 * p);
                vstd::arithmetic::div_mod::lemma_div_denominator(n as int, 16, p);
            } else {
                power::lemma_pow0(16);
                assert(n as int / 1 == n as int);
            }
        }
    }
}

/// An upload id is 32 lower-case hexadecimal digits: first the low 64 bits of the time in
/// nanoseconds, then the count, the greatest digit first.
pub proof fn upload_ids_spell_the_time_and_the_count(nanos: u128, count: u64)
    ensures
        ({
            let id = parts::upload_id_of(nanos, count);
            let time = nanos as int % 0x1_0000_0000_0000_0000;
            &&& id.len() == 32
            &&& forall|k: int|
                0 <= k < 16 ==> #[trigger] id[15 - k] == "0123456789abcdef"@[(time / power::pow(
                    16,
                    k as nat,
                )) % 16]
            &&& forall|k: int|
                0 <= k < 16 ==> #[trigger] id[31 - k] == "0123456789abcdef"@[(count as int
                    / power::pow(16, k as nat)) % 16]
        }),
{
    let t = (nanos % 0x1_0000_0000_0000_0000) as nat;
    let (g, h) = (digits::hex_number(t, 16), digits::hex_number(count as nat, 16));
    lemma_hex_number_at(t, 16);
    lemma_hex_number_at(count as nat, 16);
    let id = parts::upload_id_of(nanos, count);
    assert forall|k: int| 0 <= k < 16 implies #[trigger] id[15 - k] == g[16 - 1 - k] by {}
    assert forall|k: int| 0 <= k < 16 implies #[trigger] id[31 - k] == h[16 - 1 - k] by {}
}

/// The record says that the upload was begun with this, at the time `at`.
pub open spec fn records(u: UploadView, i: CreateMultipartUploadInput, at: u64) -> bool {
    &&& u.bucket == i.bucket@
    &&& u.key == i.key@
    &&& u.content_type == i.content_type.deep_view()
    &&& u.user_metadata == i.metadata.deep_view()
    &&& u.content_encoding == i.content_encoding.deep_view()
    &&& u.started_at == at
}

/// Beginning an upload gives the bucket and the key back with the id, and puts on record
/// under that id what the upload was begun with.
pub proof fn begun_uploads_are_recorded(
    w: World,
    base: Seq<char>,
    i: CreateMultipartUploadInput,
    out: CreatedView,
    after: World,
)
    requires
        laws::objects::is_addressed(w, base, i.bucket@, i.key@),
        w.run(multipart::create_multipart_upload_script(base, i)) == End::Done(after.nodes, out),
        after.is_valid(),
        after.codec == w.codec,
    ensures
        out.bucket == i.bucket@,
        out.key == i.key@,
        exists|u: UploadView| #[trigger]
            has_upload(after, base, out.upload_id, u) && records(u, i, w.now),
{
    uploads::create_adds_the_upload(w, base, i);
    uploads::begun_uploads_are_under_way(
        w,
        base,
        i,
        out,
        after,
        i.bucket@,
        i.key@,
        arbitrary(),
    );
    let u = multipart::new_record(i, w.now);
    assert(has_upload(after, base, out.upload_id, u) && records(u, i, w.now));
}

/// Beginning an upload is refused for the names of the object as putting it would be, and
/// with `NoSuchBucket` where the bucket is not there.
pub proof fn beginnings_need_a_name_and_a_bucket(
    w: World,
    base: Seq<char>,
    i: CreateMultipartUploadInput,
)
    ensures
        match paths::bucket_fault(i.bucket@) {
            Some(e) => w.run(multipart::create_multipart_upload_script(base, i)) == End::<
                CreatedView,
            >::Refused(e),
            None => match paths::key_fault(i.key@) {
                Some(e) => w.run(multipart::create_multipart_upload_script(base, i)) == End::<
                    CreatedView,
                >::Refused(e),
                None => !disk::dir_at(w.nodes, paths::bucket_dir(base, i.bucket@)) ==> w.run(
                    multipart::create_multipart_upload_script(base, i),
                ) == End::<CreatedView>::Refused(ErrorView::NoSuchBucket { bucket: i.bucket@ }),
            },
        },
{
    reveal_with_fuel(World::run, 3);
}

// ---- parts ----

/// Uploading a part is refused with `InvalidPart` for a number that is not one of 1 to
/// 10,000, whatever else there is. Otherwise, in an upload that is there, it gives the
/// number and the ETag of the body, and then the upload holds the part: a completion that
/// lists its number with that ETag, with quotes or without, finds it.
pub proof fn uploaded_parts_are_found_again(
    w: World,
    base: Seq<char>,
    i: UploadPartInput,
    out: UploadedView,
    after: World,
    p: CompletedPart,
)
    requires
        w.is_valid(),
        parts::is_id(i.upload_id@),
        disk::dir_at(w.nodes, parts::upload_home(base, i.upload_id@)),
        after.codec == w.codec,
    ensures
        i.part_number < 1 || i.part_number > 10_000 ==> w.run(
            multipart::upload_part_script(base, i),
        ) == End::<UploadedView>::Refused(ErrorView::InvalidPart),
        w.run(multipart::upload_part_script(base, i)) == End::Done(after.nodes, out) ==> {
            &&& out.part_number == i.part_number
            &&& out.etag == meta::etag_of(i.body@)
            &&& p.part_number == i.part_number && (exists|t: Seq<char>| #[trigger]
                etags::is_stripped(p.etag@, t) && etags::is_stripped(out.etag, t)) ==> is_there(
                after,
                base,
                i.upload_id@,
                p,
                i.body@,
            )
        },
{
    reveal_with_fuel(World::run, 3);
    if w.run(multipart::upload_part_script(base, i)) == End::Done(after.nodes, out) {
        uploads::uploaded_parts_are_held(
            w,
            base,
            i,
            out,
            after,
            arbitrary(),
            i.part_number,
            i.body@,
            out.etag,
        );
        if exists|t: Seq<char>| #[trigger]
            etags::is_stripped(p.etag@, t) && etags::is_stripped(out.etag, t) {
            let t = choose|t: Seq<char>| #[trigger]
                etags::is_stripped(p.etag@, t) && etags::is_stripped(out.etag, t);
            etags::stripping_gives_the_bare_etag(p.etag@, t);
            etags::stripping_gives_the_bare_etag(out.etag, t);
        }
    }
}

/// Completing an upload whose parts are all there is refused with `NoSuchBucket` where the
/// bucket on record is not there.
pub proof fn completions_need_the_bucket(
    w: World,
    base: Seq<char>,
    i: CompleteMultipartUploadInput,
    u: UploadView,
    bodies: Seq<Seq<u8>>,
)
    requires
        parts::is_id(i.upload_id@),
        has_upload(w, base, i.upload_id@, u),
        multipart::parts_fault(i.parts@) is None,
        bodies.len() == i.parts@.len(),
        are_there(w, base, i, bodies, bodies.len() as int),
        !disk::dir_at(w.nodes, paths::bucket_dir(base, u.bucket)),
    ensures
        w.run(multipart::complete_multipart_upload_script(base, i)) == End::<
            CompletedView,
        >::Refused(ErrorView::NoSuchBucket { bucket: u.bucket }),
{
    let n = bodies.len() as int;
    uploads::lemma_reading(w, base, i, u, bodies, n);
    assert(w.run(multipart::complete_multipart_upload_script(base, i)) == w.run(
        multipart::complete_from_part(base, i, u, 0, Seq::empty(), Seq::empty()),
    )) by {
        reveal_with_fuel(World::run, 3);
    }
    reveal_with_fuel(World::run, 2);
}

/// Where an upload has no record that can be read, completing it, with a list of parts that
/// passes, and listing its parts are refused with the failure of the disk to read one.
pub proof fn unreadable_records_are_handed_on(
    w: World,
    base: Seq<char>,
    i: CompleteMultipartUploadInput,
)
    requires
        parts::is_id(i.upload_id@),
        disk::dir_at(w.nodes, parts::upload_home(base, i.upload_id@)),
        forall|u: UploadView| !#[trigger] has_upload(w, base, i.upload_id@, u),
        multipart::parts_fault(i.parts@) is None,
    ensures
        ({
            let path = parts::record_file(parts::upload_home(base, i.upload_id@));
            let fault = (w.fault)(QueryView::ReadUpload { path });
            &&& w.run(multipart::complete_multipart_upload_script(base, i)) == End::<
                CompletedView,
            >::Refused(fault)
            &&& w.run(part_listing::list_parts_script(base, i.upload_id@)) == End::<
                PartsView,
            >::Refused(fault)
        }),
{
    let path = parts::record_file(parts::upload_home(base, i.upload_id@));
    if let Some(bytes) = disk::file_at(w.nodes, path) {
        if let Some(u) = (w.codec.upload_in)(bytes) {
            assert(has_upload(w, base, i.upload_id@, u));
        }
    }
    reveal_with_fuel(World::run, 3);
}

/// The files of a part are named `part-`, its number in five digits, and `.bin` for the
/// body or `.etag` for the ETag.
pub proof fn parts_are_named_by_their_numbers(n: u32)
    requires
        n <= 99_999,
    ensures
        ({
            let (b, e) = (parts::body_name(n), parts::etag_name(n));
            &&& b.len() == 14 && b.take(5) == "part-"@ && b.skip(10) == ".bin"@
            &&& e.len() == 15 && e.take(5) == "part-"@ && e.skip(10) == ".etag"@
            &&& forall|k: int|
                0 <= k < 5 ==> #[trigger] b[9 - k] == "0123456789abcdef"@[(n as int / power::pow(
                    10,
                    k as nat,
                )) % 10] && e[9 - k] == b[9 - k]
        }),
{
    reveal_strlit("part-");
    reveal_strlit(".bin");
    reveal_strlit(".etag");
    let d = digits::decimal(n as nat);
    let p = digits::padded(n as nat);
    etags::decimal_spells_the_number(n as nat);
    assert(d.len() <= 5) by {
        reveal_with_fuel(digits::decimal, 6);
    }
    let (b, e) = (parts::body_name(n), parts::etag_name(n));
    assert(p.len() == 5);
    assert(b.take(5) =~= "part-"@ && b.skip(10) =~= ".bin"@);
    assert(e.take(5) =~= "part-"@ && e.skip(10) =~= ".etag"@);
    assert forall|k: int| 0 <= k < 5 implies #[trigger] b[9 - k] == "0123456789abcdef"@[(n as int
        / power::pow(10, k as nat)) % 10] && e[9 - k] == b[9 - k] by {
        assert(b[9 - k] == p[4 - k] && e[9 - k] == p[4 - k]);
        if k < d.len() {
            assert(p[4 - k] == d[d.len() - 1 - k]);
        } else {
            power::lemma_pow_increases(10, d.len(), k as nat);
            vstd::arithmetic::div_mod::lemma_basic_div(n as int, power::pow(10, k as nat));
            etags::hex_digits_by_value(0);
        }
    }
}

// ---- listing parts ----

/// No two parts have one number.
pub open spec fn are_distinct(s: Seq<PartView>) -> bool {
    forall|j: int, k: int|
        0 <= j < k < s.len() ==> (#[trigger] s[j]).part_number != (#[trigger] s[k]).part_number
}

proof fn lemma_with_part(s: Seq<PartView>, p: PartView)
    requires
        are_distinct(s),
        forall|k: int| 0 <= k < s.len() ==> (#[trigger] s[k]).part_number != p.part_number,
    ensures
        are_distinct(part_listing::with_part(s, p)),
        forall|k: int|
            0 <= k < part_listing::with_part(s, p).len() ==> (#[trigger] part_listing::with_part(
                s,
                p,
            )[k]) == p || s.contains(part_listing::with_part(s, p)[k]),
    decreases s.len(),
{
    let t = part_listing::with_part(s, p);
    if s.len() == 0 || s.last().part_number <= p.part_number {
        assert forall|k: int| 0 <= k < t.len() implies (#[trigger] t[k]) == p || s.contains(
            t[k],
        ) by {
            if k < s.len() {
                assert(t[k] == s[k]);
            }
        }
    } else {
        let front = s.drop_last();
        assert forall|k: int| 0 <= k < front.len() implies (#[trigger] front[k]).part_number
            != p.part_number by {
            assert(front[k] == s[k]);
        }
        assert(are_distinct(front)) by {
            assert forall|j: int, k: int| 0 <= j < k < front.len() implies (
            #[trigger] front[j]).part_number != (#[trigger] front[k]).part_number by {
                assert(front[j] == s[j] && front[k] == s[k]);
            }
        }
        lemma_with_part(front, p);
        let u = part_listing::with_part(front, p);
        assert forall|k: int| 0 <= k < t.len() implies (#[trigger] t[k]) == p || s.contains(
            t[k],
        ) by {
            if k < u.len() {
                assert(t[k] == u[k]);
                if u[k] != p {
                    let y = choose|y: int| 0 <= y < front.len() && front[y] == u[k];
                    assert(s[y] == t[k]);
                }
            } else {
                assert(s[s.len() - 1] == t[k]);
            }
        }
        assert forall|j: int, k: int| 0 <= j < k < t.len() implies (#[trigger] t[j]).part_number
            != (#[trigger] t[k]).part_number by {
            assert(t[j] == u[j]);
            if k < u.len() {
                assert(t[k] == u[k]);
            } else if u[j] != p {
                let y = choose|y: int| 0 <= y < front.len() && front[y] == u[j];
                assert(s[y] == u[j]);
                assert(s[y].part_number != s[s.len() - 1].part_number);
            }
        }
    }
}

/// The entries from the `n`th one on are those of different parts, none of which was found
/// before.
pub open spec fn are_new(
    w: World,
    dir: Seq<char>,
    started_at: u64,
    es: Seq<EntryView>,
    n: int,
    found: Seq<PartView>,
) -> bool {
    &&& forall|j: int, k: int|
        n <= j < k < es.len() && (#[trigger] listed_entry(w, dir, started_at, es[j])) is Some && (
        #[trigger] listed_entry(w, dir, started_at, es[k])) is Some ==> listed_entry(
            w,
            dir,
            started_at,
            es[j],
        )->0.part_number != listed_entry(w, dir, started_at, es[k])->0.part_number
    &&& forall|x: int, k: int|
        0 <= x < found.len() && n <= k < es.len() && (#[trigger] listed_entry(
            w,
            dir,
            started_at,
            es[k],
        )) is Some ==> (#[trigger] found[x]).part_number != listed_entry(
            w,
            dir,
            started_at,
            es[k],
        )->0.part_number
}

proof fn lemma_listed_distinct(
    w: World,
    dir: Seq<char>,
    started_at: u64,
    es: Seq<EntryView>,
    n: int,
    found: Seq<PartView>,
)
    requires
        0 <= n <= es.len(),
        are_distinct(found),
        are_new(w, dir, started_at, es, n, found),
    ensures
        are_distinct(listed_from(w, dir, started_at, es, n, found)),
    decreases es.len() - n,
{
    if n < es.len() {
        match listed_entry(w, dir, started_at, es[n]) {
            Some(p) => {
                assert forall|k: int| 0 <= k < found.len() implies (
                #[trigger] found[k]).part_number != p.part_number by {
                    assert(listed_entry(w, dir, started_at, es[n]) is Some);
                }
                lemma_with_part(found, p);
                let next = part_listing::with_part(found, p);
                assert forall|x: int, k: int|
                    0 <= x < next.len() && n + 1 <= k < es.len() && (#[trigger] listed_entry(
                        w,
                        dir,
                        started_at,
                        es[k],
                    )) is Some implies (#[trigger] next[x]).part_number != listed_entry(
                    w,
                    dir,
                    started_at,
                    es[k],
                )->0.part_number by {
                    if next[x] == p {
                        assert(listed_entry(w, dir, started_at, es[n]) is Some);
                    } else {
                        let y = choose|y: int| 0 <= y < found.len() && found[y] == next[x];
                        assert(found[y].part_number == next[x].part_number);
                    }
                }
                lemma_listed_distinct(w, dir, started_at, es, n + 1, next);
            },
            None => {
                lemma_listed_distinct(w, dir, started_at, es, n + 1, found);
            },
        }
    }
}

/// Besides its record the upload holds nothing but bodies and ETags of parts.
pub open spec fn holds_only_parts(w: World, base: Seq<char>, id: Seq<char>) -> bool {
    forall|name: Seq<char>| #[trigger]
        w.nodes.contains_key(home_place(base, id).push(name)) ==> {
            ||| name == "meta.json"@
            ||| name == "meta.tmp"@
            ||| exists|n: u32|
                name == #[trigger] parts::body_name(n) && w.nodes[home_place(base, id).push(
                    name,
                )] is File
            ||| exists|n: u32| name == #[trigger] parts::etag_name(n)
        }
}

proof fn lemma_other_names(n: u32)
    ensures
        parts::part_number_of("meta.json"@) is None,
        parts::part_number_of("meta.tmp"@) is None,
        parts::part_number_of(parts::etag_name(n)) is None,
{
    reveal_strlit("meta.json");
    reveal_strlit("meta.tmp");
    reveal_strlit(".bin");
    reveal_strlit(".etag");
    reveal_strlit("part-");
    let bin = ".bin"@;
    let (a, b, c) = ("meta.json"@, "meta.tmp"@, parts::etag_name(n));
    assert(bin.len() == 4 && bin[3] == 'n' && bin[2] == 'i');
    assert(a[7] == 'o' && b.last() == 'p' && c.last() == 'g');
    if bin.is_suffix_of(a) {
        assert(a.subrange(5, 9)[2] == bin[2]);
    }
    if bin.is_suffix_of(b) {
        assert(b.subrange(b.len() - 4, b.len() as int)[3] == bin[3]);
    }
    if bin.is_suffix_of(c) {
        assert(c.subrange(c.len() - 4, c.len() as int)[3] == bin[3]);
    }
}

/// The entry of a listing tells of a part that the upload holds: its ETag, how many bytes
/// it has, and when its body was changed, or else when the upload was begun.
pub open spec fn tells_of_part(
    w: World,
    base: Seq<char>,
    id: Seq<char>,
    u: UploadView,
    p: PartView,
    body: Seq<u8>,
) -> bool {
    let path = parts::body_file(parts::upload_home(base, id), p.part_number);
    &&& has_part(w, base, id, p.part_number, body, p.etag)
    &&& body.len() <= u64::MAX ==> p.size == body.len()
    &&& p.last_modified == (match (w.modified)(path) {
        Some(t) => t,
        None => u.started_at,
    })
}

/// The entry tells of a part that the upload holds.
pub open spec fn is_told(
    w: World,
    base: Seq<char>,
    id: Seq<char>,
    u: UploadView,
    p: PartView,
) -> bool {
    exists|body: Seq<u8>| #[trigger] tells_of_part(w, base, id, u, p, body)
}

/// The part with this number and this ETag is among the listed ones.
pub open spec fn lists(ps: Seq<PartView>, n: u32, etag: Seq<char>) -> bool {
    exists|k: int| 0 <= k < ps.len() && (#[trigger] ps[k]).part_number == n && ps[k].etag == etag
}

/// A listing of parts gives the bucket and the key on record, and the parts that the
/// upload holds: each of them once, by their numbers, with their ETags and sizes. Nothing
/// changes.
pub proof fn listings_show_the_parts_that_are_held(
    w: World,
    base: Seq<char>,
    id: Seq<char>,
    u: UploadView,
)
    requires
        w.is_valid(),
        parts::is_id(id),
        has_upload(w, base, id, u),
        has_readable_etags(w, parts::upload_home(base, id)),
        holds_only_parts(w, base, id),
    ensures
        match w.run(part_listing::list_parts_script(base, id)) {
            End::Done(nodes, out) => {
                &&& nodes == w.nodes
                &&& out.bucket == u.bucket
                &&& out.key == u.key
                &&& forall|j: int, k: int|
                    0 <= j < k < out.parts.len() ==> (#[trigger] out.parts[j]).part_number < (
                    #[trigger] out.parts[k]).part_number
                &&& forall|k: int|
                    0 <= k < out.parts.len() ==> is_told(w, base, id, u, #[trigger] out.parts[k])
                &&& forall|n: u32, body: Seq<u8>, etag: Seq<char>| #[trigger]
                    has_part(w, base, id, n, body, etag) ==> lists(out.parts, n, etag)
            },
            _ => false,
        },
{
    let dir = parts::upload_home(base, id);
    let home = home_place(base, id);
    let es = (w.entries)(dir);
    let all = listed_parts(w, base, id, u.started_at);
    uploads::list_gives_the_parts(w, base, id, u);
    uploads::lemma_home(base, id);
    assert(disk::lists(w.nodes, home, es));
    assert forall|k: int|
        0 <= k < es.len() && (#[trigger] listed_entry(
            w,
            dir,
            u.started_at,
            es[k],
        )) is Some implies is_body_entry(w, base, id, u, es[k]) by {
        assert(w.nodes.contains_key(home.push(es[k].name)));
        lemma_entry(w, base, id, u, es[k]);
    }
    assert(are_new(w, dir, u.started_at, es, 0, Seq::empty())) by {
        assert forall|j: int, k: int|
            0 <= j < k < es.len() && (#[trigger] listed_entry(
                w,
                dir,
                u.started_at,
                es[j],
            )) is Some && (#[trigger] listed_entry(
                w,
                dir,
                u.started_at,
                es[k],
            )) is Some implies listed_entry(w, dir, u.started_at, es[j])->0.part_number
            != listed_entry(w, dir, u.started_at, es[k])->0.part_number by {
            assert(is_body_entry(w, base, id, u, es[j]));
            assert(is_body_entry(w, base, id, u, es[k]));
            assert(es[j].name != es[k].name);
        }
    }
    lemma_listed_distinct(w, dir, u.started_at, es, 0, Seq::empty());
    assert forall|j: int, k: int| 0 <= j < k < all.len() implies (#[trigger] all[j]).part_number < (
    #[trigger] all[k]).part_number by {
        assert(all[j].part_number <= all[k].part_number);
        assert(all[j].part_number != all[k].part_number);
    }
    assert forall|k: int| 0 <= k < all.len() implies is_told(
        w,
        base,
        id,
        u,
        #[trigger] all[k],
    ) by {
        assert(all.contains(all[k]));
        let x = choose|x: int|
            0 <= x < es.len() && #[trigger] listed_entry(w, dir, u.started_at, es[x]) == Some(
                all[k],
            );
        assert(is_body_entry(w, base, id, u, es[x]));
        let body = disk::file_at(w.nodes, parts::body_file(dir, all[k].part_number))->0;
        assert(tells_of_part(w, base, id, u, all[k], body));
    }
    assert forall|n: u32, body: Seq<u8>, etag: Seq<char>| #[trigger]
        has_part(w, base, id, n, body, etag) implies lists(all, n, etag) by {
        uploads::held_parts_are_listed(w, base, id, u, n, body, etag);
        let p = choose|p: PartView| #[trigger]
            all.contains(p) && p.part_number == n && p.etag == etag && p.size == body.len() as u64;
        let k = choose|k: int| 0 <= k < all.len() && all[k] == p;
        assert(all[k].part_number == n);
    }
}

/// An entry that is listed is the body of the part that is listed.
spec fn is_body_entry(w: World, base: Seq<char>, id: Seq<char>, u: UploadView, e: EntryView) -> bool {
    let dir = parts::upload_home(base, id);
    let p = listed_entry(w, dir, u.started_at, e)->0;
    let body = disk::file_at(w.nodes, parts::body_file(dir, p.part_number));
    &&& e.name == parts::body_name(p.part_number)
    &&& body is Some
    &&& tells_of_part(w, base, id, u, p, body->0)
}

proof fn lemma_entry(w: World, base: Seq<char>, id: Seq<char>, u: UploadView, e: EntryView)
    requires
        w.is_valid(),
        parts::is_id(id),
        has_readable_etags(w, parts::upload_home(base, id)),
        holds_only_parts(w, base, id),
        w.nodes.contains_key(home_place(base, id).push(e.name)),
        listed_entry(w, parts::upload_home(base, id), u.started_at, e) is Some,
    ensures
        is_body_entry(w, base, id, u, e),
{
    let dir = parts::upload_home(base, id);
    let home = home_place(base, id);
    let n = parts::part_number_of(e.name)->0;
    uploads::lemma_home(base, id);
    lemma_other_names(n);
    if exists|m: u32| e.name == #[trigger] parts::etag_name(m) {
        let m = choose|m: u32| e.name == #[trigger] parts::etag_name(m);
        lemma_other_names(m);
    }
    let m = choose|m: u32|
        e.name == #[trigger] parts::body_name(m) && w.nodes[home.push(e.name)] is File;
    parts::part_name_reads_back(m);
    uploads::lemma_files(dir, n);
    let text = disk::file_at(w.nodes, parts::etag_file(dir, n));
    assert(text is Some ==> utf8::valid_utf8(text->0));
}

} // verus!
