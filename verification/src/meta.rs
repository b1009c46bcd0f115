//! Object metadata and ETags.

use crate::digits;
use crate::digits::{decimal_of, hex_of};
use crate::exchange::{Effect, Query};
use crate::exchange::EffectView;
use crate::exchange::QueryView;
use crate::paths;
use crate::paths::temporary_of;
use std::collections::HashMap;
use std::time::{Duration, SystemTime, SystemTimeError};
use vstd::prelude::*;

verus! {

// ---- the clock ----

/// `std::time::SystemTime`, a reading of the system clock.
#[verifier::external_type_specification]
#[verifier::external_body]
pub struct ExSystemTime(SystemTime);

/// `std::time::SystemTimeError`, the error of a clock set before its reference.
#[verifier::external_type_specification]
#[verifier::external_body]
pub struct ExSystemTimeError(SystemTimeError);

/// `SystemTime::now`: reads the system clock. Nothing is claimed of the reading.
pub assume_specification[ SystemTime::now ]() -> (r: SystemTime)
;

/// `SystemTime::duration_since` with the Unix epoch. Nothing is claimed of the
/// span; the error means that the clock stands before 1970.
#[verifier::external_body]
fn since_epoch(t: SystemTime) -> (r: Result<Duration, SystemTimeError>) {
    t.duration_since(std::time::UNIX_EPOCH)
}

/// `Duration::as_secs`: the whole seconds of a span. A span shows nothing of
/// itself here, so nothing is claimed of the number.
pub assume_specification[ Duration::as_secs ](d: &Duration) -> (r: u64)
;

/// The time of the system clock, as `stamp_of` has it. A reading may be any number.
fn unix_now() -> (r: u64) {
    match since_epoch(SystemTime::now()) {
        Ok(d) => stamp_of(Some(d.as_secs())),
        Err(_) => stamp_of(None),
    }
}

/// The stamp that a reading of the clock gives: its seconds since the Unix epoch, or
/// 0 where the clock stands before the epoch (`None`).
pub fn stamp_of(seconds: Option<u64>) -> (r: u64)
    ensures
        r == (match seconds {
            Some(s) => s,
            None => 0,
        }),
{
    match seconds {
        Some(s) => s,
        None => 0,
    }
}

// ---- ETags ----

/// What `md5::compute` returns: the 16 bytes of the MD5 digest.
pub uninterp spec fn md5_digest(data: Seq<u8>) -> Seq<u8>;

/// `md5::compute`: the MD5 digest of `data`, named `md5_digest`.
#[verifier::external_body]
fn md5_of(data: &[u8]) -> (r: [u8; 16])
    ensures
        r@ == md5_digest(data@),
{
    md5::compute(data).0
}

/// `s` between double quotes.
pub open spec fn quoted(s: Seq<char>) -> Seq<char> {
    seq!['"'] + s + seq!['"']
}

/// The ETag of a body: its MD5 in lower-case hexadecimal, in double quotes.
pub open spec fn etag_of(body: Seq<u8>) -> Seq<char> {
    quoted(digits::hex(md5_digest(body)))
}

/// The digests one after the other.
pub open spec fn strung(digests: Seq<Seq<u8>>) -> Seq<u8>
    decreases digests.len(),
{
    if digests.len() == 0 {
        Seq::empty()
    } else {
        strung(digests.drop_last()) + digests.last()
    }
}

/// The ETag of an object made of parts with the given digests: the MD5 of the
/// digests one after the other, a hyphen, and how many there are.
pub open spec fn multipart_etag_of(digests: Seq<Seq<u8>>) -> Seq<char> {
    quoted(
        digits::hex(md5_digest(strung(digests))) + seq!['-'] + digits::decimal(digests.len()),
    )
}

fn in_quotes(s: &str) -> (r: String)
    ensures
        r@ == quoted(s@),
{
    let mut r: String = String::new();
    r.push('"');
    r.append(s);
    r.push('"');
    proof {
        assert(r@ =~= quoted(s@));
    }
    r
}

/// Compute the `"<md5-hex>"` ETag from body bytes (matches AWS S3 single-part
/// uploads).
pub fn compute_etag(body: &[u8]) -> (r: String)
    ensures
        r@ == etag_of(body@),
        r@.len() == 34,
{
    let d: [u8; 16] = md5_of(body);
    proof {
        lemma_hex_len(d@);
    }
    in_quotes(hex_of(d.as_slice()).as_str())
}

/// Raw 16-byte MD5 digest of `body`, used to build multipart ETags.
pub fn compute_md5_bytes(body: &[u8]) -> (r: [u8; 16])
    ensures
        r@ == md5_digest(body@),
{
    md5_of(body)
}

/// AWS-compatible multipart ETag: the MD5 of the concatenated raw MD5 digests of
/// each part, formatted as `"<hex>-<part-count>"`.
pub fn compute_multipart_etag(part_md5s: &[[u8; 16]]) -> (r: String)
    ensures
        r@ == multipart_etag_of(part_md5s@.map_values(|d: [u8; 16]| d@)),
{
    let ghost ds = part_md5s@.map_values(|d: [u8; 16]| d@);
    let mut concat: Vec<u8> = Vec::new();
    let mut i: usize = 0;
    proof {
        assert(ds.take(0) =~= Seq::<Seq<u8>>::empty());
    }
    while i < part_md5s.len()
        invariant
            i <= part_md5s@.len(),
            ds == part_md5s@.map_values(|d: [u8; 16]| d@),
            concat@ == strung(ds.take(i as int)),
        decreases part_md5s@.len() - i,
    {
        let d: [u8; 16] = part_md5s[i];
        let ghost was = concat@;
        proof {
            assert(ds.take(i + 1).drop_last() =~= ds.take(i as int));
            assert(ds.take(i + 1).last() == d@);
        }
        concat.extend_from_slice(d.as_slice());
        proof {
            assert(concat@ =~= was + d@);
        }
        i = i + 1;
    }
    proof {
        assert(ds.take(ds.len() as int) =~= ds);
    }
    let total: [u8; 16] = md5_of(concat.as_slice());
    let mut s: String = hex_of(total.as_slice());
    s.push('-');
    s.append(decimal_of(part_md5s.len() as u64).as_str());
    proof {
        assert(s@ =~= digits::hex(total@) + seq!['-'] + digits::decimal(ds.len()));
    }
    in_quotes(s.as_str())
}

proof fn lemma_hex_len(bytes: Seq<u8>)
    ensures
        digits::hex(bytes).len() == 2 * bytes.len(),
    decreases bytes.len(),
{
    if bytes.len() > 0 {
        lemma_hex_len(bytes.drop_last());
    }
}

proof fn lemma_hex_plain(bytes: Seq<u8>)
    ensures
        !digits::hex(bytes).contains('-'),
        !digits::hex(bytes).contains('"'),
    decreases bytes.len(),
{
    if bytes.len() > 0 {
        lemma_hex_plain(bytes.drop_last());
        let h = digits::hex(bytes);
        let g = digits::hex(bytes.drop_last());
        assert forall|i: int| 0 <= i < h.len() implies h[i] != '-' && h[i] != '"' by {
            if i < g.len() {
                assert(g.contains(g[i]));
            }
        }
    }
}

/// A multipart ETag is never the ETag of a body put in one piece.
pub proof fn multipart_etag_is_distinct(digests: Seq<Seq<u8>>, body: Seq<u8>)
    ensures
        multipart_etag_of(digests) != etag_of(body),
{
    let m = multipart_etag_of(digests);
    let h = digits::hex(md5_digest(strung(digests)));
    lemma_hex_plain(md5_digest(body));
    assert(m[(1 + h.len()) as int] == '-');
    if m == etag_of(body) {
        let g = digits::hex(md5_digest(body));
        let d = digits::decimal(digests.len());
        assert(m.len() == h.len() + d.len() + 3);
        assert(etag_of(body).len() == g.len() + 2);
        assert(etag_of(body)[(1 + h.len()) as int] == g[h.len() as int]);
        assert(g.contains('-'));
    }
}

// ---- metadata ----

/// Metadata stored alongside every object as a `.fals3-meta.json` sidecar.
#[derive(Debug, Clone)]
pub struct ObjectMeta {
    /// Strong ETag, e.g. `"d41d8cd98f00b204e9800998ecf8427e"` with its quotes.
    pub etag: String,
    /// Unix timestamp (seconds) when the object was last written.
    pub last_modified: u64,
    /// MIME type supplied by the caller (e.g. `image/png`).
    pub content_type: Option<String>,
    /// User-defined metadata (`x-amz-meta-*` equivalent).
    pub user_metadata: HashMap<String, String>,
    /// Content-Encoding header value, if any.
    pub content_encoding: Option<String>,
    /// Storage class, always `"STANDARD"` on objects written here.
    pub storage_class: String,
    /// Object size in bytes.
    pub size: u64,
}

/// What the metadata of an object says, as mathematical values.
#[verifier::ext_equal]
pub struct MetaView {
    pub etag: Seq<char>,
    pub last_modified: u64,
    pub content_type: Option<Seq<char>>,
    pub user_metadata: Map<Seq<char>, Seq<char>>,
    pub content_encoding: Option<Seq<char>>,
    pub storage_class: Seq<char>,
    pub size: u64,
}

impl View for ObjectMeta {
    type V = MetaView;

    open spec fn view(&self) -> MetaView {
        MetaView {
            etag: self.etag@,
            last_modified: self.last_modified,
            content_type: self.content_type.deep_view(),
            user_metadata: self.user_metadata.deep_view(),
            content_encoding: self.content_encoding.deep_view(),
            storage_class: self.storage_class@,
            size: self.size,
        }
    }
}

/// There are finitely many entries in a map of metadata.
pub proof fn lemma_finite_metadata(m: HashMap<String, String>)
    ensures
        m.deep_view().dom().finite(),
{
    broadcast use vstd::std_specs::hash::axiom_hashmap_view_finite_dom;
    vstd::std_specs::hash::lemma_hashmap_deepview_dom(m);
    m@.dom().lemma_map_finite(|k: String| k.deep_view());
}

/// The storage class of every object.
pub fn default_storage_class() -> (r: String)
    ensures
        r@ == "STANDARD"@,
{
    "STANDARD".to_owned()
}

impl ObjectMeta {
    /// Metadata with the given ETag, for an object written at `now`.
    pub fn with_etag_at(
        size: u64,
        etag: String,
        content_type: Option<String>,
        user_metadata: HashMap<String, String>,
        content_encoding: Option<String>,
        now: u64,
    ) -> (r: ObjectMeta)
        ensures
            r@ == (MetaView {
                etag: etag@,
                last_modified: now,
                content_type: content_type.deep_view(),
                user_metadata: user_metadata.deep_view(),
                content_encoding: content_encoding.deep_view(),
                storage_class: "STANDARD"@,
                size,
            }),
    {
        ObjectMeta {
            etag,
            last_modified: now,
            content_type,
            user_metadata,
            content_encoding,
            storage_class: default_storage_class(),
            size,
        }
    }

    /// Metadata of `body`, written at `now`.
    pub fn new_at(
        body: &[u8],
        content_type: Option<String>,
        user_metadata: HashMap<String, String>,
        content_encoding: Option<String>,
        now: u64,
    ) -> (r: ObjectMeta)
        ensures
            r@ == (MetaView {
                etag: etag_of(body@),
                last_modified: now,
                content_type: content_type.deep_view(),
                user_metadata: user_metadata.deep_view(),
                content_encoding: content_encoding.deep_view(),
                storage_class: "STANDARD"@,
                size: body@.len() as u64,
            }),
    {
        let etag: String = compute_etag(body);
        ObjectMeta::with_etag_at(
            body.len() as u64,
            etag,
            content_type,
            user_metadata,
            content_encoding,
            now,
        )
    }

    /// Compute the ETag for `body` and build a new `ObjectMeta`, stamped with the
    /// time of the system clock, of which nothing is claimed.
    pub fn new(
        body: &[u8],
        content_type: Option<String>,
        user_metadata: HashMap<String, String>,
        content_encoding: Option<String>,
    ) -> (r: ObjectMeta)
        ensures
            r@ == (MetaView {
                etag: etag_of(body@),
                last_modified: r@.last_modified,
                content_type: content_type.deep_view(),
                user_metadata: user_metadata.deep_view(),
                content_encoding: content_encoding.deep_view(),
                storage_class: "STANDARD"@,
                size: body@.len() as u64,
            }),
    {
        let now: u64 = unix_now();
        ObjectMeta::new_at(body, content_type, user_metadata, content_encoding, now)
    }

    /// Build an `ObjectMeta` with a caller-supplied ETag, stamped with the time of
    /// the system clock, of which nothing is claimed.
    pub fn with_explicit_etag(
        size: u64,
        etag: String,
        content_type: Option<String>,
        user_metadata: HashMap<String, String>,
        content_encoding: Option<String>,
    ) -> (r: ObjectMeta)
        ensures
            r@ == (MetaView {
                etag: etag@,
                last_modified: r@.last_modified,
                content_type: content_type.deep_view(),
                user_metadata: user_metadata.deep_view(),
                content_encoding: content_encoding.deep_view(),
                storage_class: "STANDARD"@,
                size,
            }),
    {
        let now: u64 = unix_now();
        ObjectMeta::with_etag_at(size, etag, content_type, user_metadata, content_encoding, now)
    }

    /// What reads the sidecar at `sidecar_path` from disk.
    pub fn read(sidecar_path: &str) -> (r: Query)
        ensures
            r@ == (QueryView::ReadMeta { path: sidecar_path@ }),
    {
        Query::ReadMeta { path: sidecar_path.to_owned() }
    }

    /// What writes the sidecar atomically: a temporary file beside it, which then
    /// takes its place.
    pub fn write(self, sidecar_path: &str) -> (r: Vec<Effect>)
        ensures
            r@.map_values(|e: Effect| e@) == sidecar_writing(sidecar_path@, self@),
    {
        let tmp: String = temporary_of(sidecar_path);
        let mut r: Vec<Effect> = Vec::new();
        r.push(Effect::WriteMeta { path: tmp.clone(), meta: self });
        r.push(Effect::Rename { from: tmp, to: sidecar_path.to_owned() });
        proof {
            assert(r@.map_values(|e: Effect| e@) =~= sidecar_writing(sidecar_path@, self@));
        }
        r
    }
}

/// What writes the sidecar at `path`: a temporary file, which then takes its
/// place.
pub open spec fn sidecar_writing(path: Seq<char>, meta: MetaView) -> Seq<EffectView> {
    seq![
        EffectView::WriteMeta { path: paths::temporary(path), meta },
        EffectView::Rename { from: paths::temporary(path), to: path },
    ]
}

} // verus!
