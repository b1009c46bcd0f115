//! Bucket names, object keys, and the paths that they stand for.
//!
//! Paths are POSIX paths held as text: `/` parts the components, an empty
//! component and a `.` that does not open the path count for nothing.

use crate::error::Fals3Error;
use crate::error::ErrorView;
use crate::text;
use crate::text::{chars_of, finishes_with, has_char, joined, same_text, text_of};
use vstd::prelude::*;
use vstd::utf8;

verus! {

// ---- bucket names ----

/// `c` may stand in a bucket name.
pub open spec fn bucket_char(c: char) -> bool {
    'a' <= c <= 'z' || '0' <= c <= '9' || c == '-'
}

/// The first character of `name` from position `i` on that may not stand in a
/// bucket name.
pub open spec fn stray_from(name: Seq<char>, i: int) -> Option<char>
    decreases name.len() - i,
{
    if i < 0 || i >= name.len() {
        None
    } else if !bucket_char(name[i]) {
        Some(name[i])
    } else {
        stray_from(name, i + 1)
    }
}

/// Two hyphens stand side by side in `name`.
pub open spec fn doubles_hyphen(name: Seq<char>) -> bool {
    exists|i: int| 0 <= i < name.len() - 1 && #[trigger] name[i] == '-' && name[i + 1] == '-'
}

/// What is wrong with `name` as a bucket name, if anything.
pub open spec fn bucket_fault(name: Seq<char>) -> Option<ErrorView> {
    let size = utf8::encode_utf8(name).len();
    if size < 3 || size > 63 {
        Some(
            ErrorView::InvalidBucketName {
                name,
                reason: "bucket name must be between 3 and 63 characters"@,
            },
        )
    } else if name[0] == '-' || name.last() == '-' {
        Some(
            ErrorView::InvalidBucketName {
                name,
                reason: "bucket name must not start or end with a hyphen"@,
            },
        )
    } else {
        match stray_from(name, 0) {
            Some(c) => Some(
                ErrorView::InvalidBucketName {
                    name,
                    reason:
                        "bucket name must contain only lowercase letters, digits, and hyphens; got '"@.push(
                    c,
                ).push('\''),
                },
            ),
            None => if doubles_hyphen(name) {
                Some(
                    ErrorView::InvalidBucketName {
                        name,
                        reason: "bucket name must not contain consecutive hyphens"@,
                    },
                )
            } else {
                None
            },
        }
    }
}

/// Validate a bucket name against S3 DNS-compatible naming rules.
///
/// - 3 to 63 characters
/// - Lowercase letters, digits, and hyphens only
/// - Must start and end with a letter or digit
/// - No consecutive hyphens
pub fn validate_bucket_name(name: &str) -> (r: Result<(), Fals3Error>)
    ensures
        match r {
            Ok(_) => bucket_fault(name@) is None,
            Err(e) => bucket_fault(name@) == Some(e@),
        },
{
    let size: usize = name.as_bytes().len();
    if size < 3 || size > 63 {
        return Err(
            Fals3Error::InvalidBucketName {
                name: name.to_owned(),
                reason: "bucket name must be between 3 and 63 characters".to_owned(),
            },
        );
    }
    let cs: Vec<char> = chars_of(name);
    proof {
        if cs@.len() == 0 {
            assert(utf8::encode_utf8(name@).len() == 0);
        }
    }
    if cs[0] == '-' || cs[cs.len() - 1] == '-' {
        return Err(
            Fals3Error::InvalidBucketName {
                name: name.to_owned(),
                reason: "bucket name must not start or end with a hyphen".to_owned(),
            },
        );
    }
    let mut i: usize = 0;
    while i < cs.len()
        invariant
            i <= cs@.len(),
            cs@ == name@,
            3 <= utf8::encode_utf8(name@).len() <= 63,
            name@[0] != '-',
            name@.last() != '-',
            stray_from(name@, 0) == stray_from(name@, i as int),
        decreases cs@.len() - i,
    {
        let c: char = cs[i];
        if !(('a' <= c && c <= 'z') || ('0' <= c && c <= '9') || c == '-') {
            let mut reason: String =
                "bucket name must contain only lowercase letters, digits, and hyphens; got '".to_owned();
            reason.push(c);
            reason.push('\'');
            return Err(Fals3Error::InvalidBucketName { name: name.to_owned(), reason });
        }
        i = i + 1;
    }
    let mut j: usize = 1;
    while j < cs.len()
        invariant
            1 <= j,
            j <= cs@.len() || cs@.len() == 0,
            cs@ == name@,
            3 <= utf8::encode_utf8(name@).len() <= 63,
            name@[0] != '-',
            name@.last() != '-',
            stray_from(name@, 0) is None,
            forall|k: int| 0 <= k < j - 1 ==> !(#[trigger] name@[k] == '-' && name@[k + 1] == '-'),
        decreases cs@.len() - j,
    {
        if cs[j - 1] == '-' && cs[j] == '-' {
            proof {
                assert(name@[j - 1] == '-' && name@[j - 1 + 1] == '-');
            }
            return Err(
                Fals3Error::InvalidBucketName {
                    name: name.to_owned(),
                    reason: "bucket name must not contain consecutive hyphens".to_owned(),
                },
            );
        }
        j = j + 1;
    }
    Ok(())
}

// ---- components ----

/// The pieces of `p` between its slashes.
pub open spec fn segments(p: Seq<char>) -> Seq<Seq<char>>
    decreases p.len(),
{
    if p.len() == 0 {
        seq![Seq::<char>::empty()]
    } else {
        let s = segments(p.drop_last());
        if p.last() == '/' {
            s.push(Seq::empty())
        } else {
            s.drop_last().push(s.last().push(p.last()))
        }
    }
}

/// `p` begins at the root.
pub open spec fn is_absolute(p: Seq<char>) -> bool {
    p.len() > 0 && p[0] == '/'
}

/// A piece that counts for something.
pub open spec fn is_name(s: Seq<char>) -> bool {
    s.len() > 0 && s != "."@
}

/// The pieces of `p` that count for something.
pub open spec fn names(p: Seq<char>) -> Seq<Seq<char>> {
    segments(p).filter(|s: Seq<char>| is_name(s))
}

/// What opens the components of `p`: `/` for the root, `.` for a leading dot.
pub open spec fn opening(p: Seq<char>) -> Seq<Seq<char>> {
    if is_absolute(p) {
        seq!["/"@]
    } else if segments(p)[0] == "."@ {
        seq!["."@]
    } else {
        Seq::empty()
    }
}

/// The components of `p`.
pub open spec fn components(p: Seq<char>) -> Seq<Seq<char>> {
    opening(p) + names(p)
}

/// The pieces of `p` between its slashes.
fn segments_of(p: &str) -> (r: Vec<String>)
    ensures
        text::views(r@) == segments(p@),
        r@.len() > 0,
{
    let cs: Vec<char> = chars_of(p);
    let mut done: Vec<String> = Vec::new();
    let mut piece: String = String::new();
    let mut i: usize = 0;
    proof {
        assert(p@.take(0) =~= Seq::<char>::empty());
        assert(text::views(done@).push(piece@) =~= segments(p@.take(0)));
    }
    while i < cs.len()
        invariant
            i <= cs@.len(),
            cs@ == p@,
            text::views(done@).push(piece@) == segments(p@.take(i as int)),
        decreases cs@.len() - i,
    {
        proof {
            assert(p@.take(i + 1).drop_last() =~= p@.take(i as int));
            assert(p@.take(i + 1).last() == cs@[i as int]);
        }
        let ghost was = text::views(done@);
        let ghost last = piece@;
        if cs[i] == '/' {
            done.push(piece);
            piece = String::new();
            proof {
                assert(text::views(done@).push(piece@) =~= was.push(last).push(Seq::empty()));
            }
        } else {
            piece.push(cs[i]);
            proof {
                assert(was.push(last).drop_last() =~= was);
                assert(text::views(done@).push(piece@) =~= was.push(last.push(cs@[i as int])));
            }
        }
        i = i + 1;
    }
    proof {
        assert(p@.take(p@.len() as int) =~= p@);
    }
    let ghost was = text::views(done@);
    let ghost last = piece@;
    done.push(piece);
    proof {
        assert(text::views(done@) =~= was.push(last));
    }
    done
}

/// The components of `p`.
pub fn components_of(p: &str) -> (r: Vec<String>)
    ensures
        text::views(r@) == components(p@),
{
    let cs: Vec<char> = chars_of(p);
    let segs: Vec<String> = segments_of(p);
    let ghost ss = segments(p@);
    let mut r: Vec<String> = Vec::new();
    proof {
        assert(ss[0] == segs@[0]@);
    }
    if cs.len() > 0 && cs[0] == '/' {
        r.push("/".to_owned());
    } else if same_text(segs[0].as_str(), ".") {
        r.push(".".to_owned());
    }
    let mut i: usize = 0;
    let ghost keep = |s: Seq<char>| is_name(s);
    proof {
        reveal(Seq::filter);
        assert(ss.take(0) =~= Seq::<Seq<char>>::empty());
        assert(text::views(r@) =~= opening(p@) + ss.take(0).filter(keep));
    }
    while i < segs.len()
        invariant
            i <= segs@.len(),
            ss == text::views(segs@),
            keep == (|s: Seq<char>| is_name(s)),
            text::views(r@) == opening(p@) + ss.take(i as int).filter(keep),
        decreases segs@.len() - i,
    {
        let ghost was = text::views(r@);
        proof {
            assert(ss.take(i + 1) =~= ss.take(i as int).push(segs@[i as int]@));
            ss.take(i as int).lemma_filter_push(segs@[i as int]@, keep);
        }
        if !segs[i].as_str().is_empty() && !same_text(segs[i].as_str(), ".") {
            r.push(segs[i].clone());
            proof {
                assert(text::views(r@) =~= was.push(segs@[i as int]@));
                assert(opening(p@) + ss.take(i as int).filter(keep).push(segs@[i as int]@)
                    =~= was.push(segs@[i as int]@));
            }
        }
        i = i + 1;
    }
    proof {
        assert(ss.take(ss.len() as int) =~= ss);
    }
    r
}

// ---- object keys ----

/// What is wrong with `key` as an object key, if anything.
pub open spec fn key_fault(key: Seq<char>) -> Option<ErrorView> {
    if key.len() == 0 {
        Some(ErrorView::InvalidObjectKey { key, reason: "key must not be empty"@ })
    } else if key.contains('\0') {
        Some(ErrorView::InvalidObjectKey { key, reason: "key must not contain NUL bytes"@ })
    } else if is_absolute(key) {
        Some(ErrorView::InvalidObjectKey { key, reason: "key must be a relative path"@ })
    } else if segments(key).contains(".."@) {
        Some(ErrorView::InvalidObjectKey { key, reason: "key must not contain '..' segments"@ })
    } else {
        None
    }
}

/// Validate an object key.
///
/// Rejects empty keys, keys that contain NUL, absolute paths and keys with a
/// `..` component.
pub fn validate_key(key: &str) -> (r: Result<(), Fals3Error>)
    ensures
        match r {
            Ok(_) => key_fault(key@) is None,
            Err(e) => key_fault(key@) == Some(e@),
        },
{
    if key.is_empty() {
        return Err(
            Fals3Error::InvalidObjectKey {
                key: key.to_owned(),
                reason: "key must not be empty".to_owned(),
            },
        );
    }
    if has_char(key, '\0') {
        return Err(
            Fals3Error::InvalidObjectKey {
                key: key.to_owned(),
                reason: "key must not contain NUL bytes".to_owned(),
            },
        );
    }
    if key.get_char(0) == '/' {
        return Err(
            Fals3Error::InvalidObjectKey {
                key: key.to_owned(),
                reason: "key must be a relative path".to_owned(),
            },
        );
    }
    let segs: Vec<String> = segments_of(key);
    let mut i: usize = 0;
    while i < segs.len()
        invariant
            i <= segs@.len(),
            text::views(segs@) == segments(key@),
            key@.len() > 0,
            !key@.contains('\0'),
            !is_absolute(key@),
            forall|k: int| 0 <= k < i ==> segments(key@)[k] != ".."@,
        decreases segs@.len() - i,
    {
        proof {
            assert(segments(key@)[i as int] == segs@[i as int]@);
        }
        if same_text(segs[i].as_str(), "..") {
            return Err(
                Fals3Error::InvalidObjectKey {
                    key: key.to_owned(),
                    reason: "key must not contain '..' segments".to_owned(),
                },
            );
        }
        i = i + 1;
    }
    Ok(())
}

// ---- building paths ----

/// `a/b`; `b` alone where it begins at the root.
pub open spec fn path_join(a: Seq<char>, b: Seq<char>) -> Seq<char> {
    if is_absolute(b) {
        b
    } else if a.len() == 0 || a.last() == '/' {
        a + b
    } else {
        a.push('/') + b
    }
}

/// `a/b`; `b` alone where it begins at the root.
pub fn join(a: &str, b: &str) -> (r: String)
    ensures
        r@ == path_join(a@, b@),
{
    if !b.is_empty() && b.get_char(0) == '/' {
        return b.to_owned();
    }
    let mut r: String = a.to_owned();
    if !a.is_empty() && a.get_char(a.unicode_len() - 1) != '/' {
        r.push('/');
    }
    r.append(b);
    r
}

/// Where `p[..n]` ends without the slashes and single dots at its end.
pub open spec fn end_of(p: Seq<char>, n: int) -> int
    decreases n,
{
    if n > 0 && p[n - 1] == '/' {
        end_of(p, n - 1)
    } else if n > 1 && p[n - 1] == '.' && p[n - 2] == '/' {
        end_of(p, n - 1)
    } else {
        n
    }
}

/// Where the last piece of `p[..n]` starts.
pub open spec fn start_of(p: Seq<char>, n: int) -> int
    decreases n,
{
    if n <= 0 || p[n - 1] == '/' {
        n
    } else {
        start_of(p, n - 1)
    }
}

/// Where the last component of `p` ends.
pub open spec fn last_end(p: Seq<char>) -> int {
    end_of(p, p.len() as int)
}

/// Where the last component of `p` starts.
pub open spec fn last_start(p: Seq<char>) -> int {
    start_of(p, last_end(p))
}

/// The name of the file that `p` names: its last component, unless that is the
/// root, `.` or `..`.
pub open spec fn file_name(p: Seq<char>) -> Option<Seq<char>> {
    let name = p.subrange(last_start(p), last_end(p));
    if name.len() == 0 || name == "."@ || name == ".."@ {
        None
    } else {
        Some(name)
    }
}

/// `p` without its last component, if it has one.
pub open spec fn parent(p: Seq<char>) -> Option<Seq<char>> {
    if last_end(p) <= 0 {
        None
    } else {
        let e = end_of(p, last_start(p));
        Some(
            p.take(
                if e == 0 && is_absolute(p) {
                    1
                } else {
                    e
                },
            ),
        )
    }
}

proof fn lemma_ends(p: Seq<char>, n: int)
    requires
        0 <= n <= p.len(),
    ensures
        0 <= end_of(p, n) <= n,
        0 <= start_of(p, n) <= n,
        end_of(p, n) > 0 ==> p[end_of(p, n) - 1] != '/',
        start_of(p, n) == n <==> n == 0 || p[n - 1] == '/',
    decreases n,
{
    if n > 0 {
        lemma_ends(p, n - 1);
    }
}

pub proof fn lemma_last(p: Seq<char>)
    ensures
        0 <= last_start(p) <= last_end(p) <= p.len(),
        last_end(p) > 0 ==> last_start(p) < last_end(p),
        0 <= end_of(p, last_start(p)) <= last_start(p),
{
    lemma_ends(p, p.len() as int);
    lemma_ends(p, last_end(p));
    lemma_ends(p, last_start(p));
}

fn find_end(cs: &Vec<char>, n: usize) -> (r: usize)
    requires
        n <= cs@.len(),
    ensures
        r == end_of(cs@, n as int),
        r <= n,
{
    let mut i: usize = n;
    while i > 0 && (cs[i - 1] == '/' || (i > 1 && cs[i - 1] == '.' && cs[i - 2] == '/'))
        invariant
            i <= n <= cs@.len(),
            end_of(cs@, n as int) == end_of(cs@, i as int),
        decreases i,
    {
        i = i - 1;
    }
    i
}

fn find_start(cs: &Vec<char>, n: usize) -> (r: usize)
    requires
        n <= cs@.len(),
    ensures
        r == start_of(cs@, n as int),
        r <= n,
{
    let mut i: usize = n;
    while i > 0 && cs[i - 1] != '/'
        invariant
            i <= n <= cs@.len(),
            start_of(cs@, n as int) == start_of(cs@, i as int),
        decreases i,
    {
        i = i - 1;
    }
    i
}

/// The name of the file that `p` names.
pub fn file_name_of(p: &str) -> (r: Option<String>)
    ensures
        match r {
            Some(n) => file_name(p@) == Some(n@),
            None => file_name(p@) is None,
        },
{
    let cs: Vec<char> = chars_of(p);
    let hi: usize = find_end(&cs, cs.len());
    let lo: usize = find_start(&cs, hi);
    let name: String = text_of(&cs, lo, hi);
    if name.as_str().is_empty() || same_text(name.as_str(), ".") || same_text(
        name.as_str(),
        "..",
    ) {
        None
    } else {
        Some(name)
    }
}

/// `p` without its last component.
pub fn parent_of(p: &str) -> (r: Option<String>)
    ensures
        match r {
            Some(q) => parent(p@) == Some(q@),
            None => parent(p@) is None,
        },
{
    let cs: Vec<char> = chars_of(p);
    let hi: usize = find_end(&cs, cs.len());
    if hi == 0 {
        return None;
    }
    let lo: usize = find_start(&cs, hi);
    let e: usize = find_end(&cs, lo);
    let n: usize = if e == 0 && cs[0] == '/' {
        1
    } else {
        e
    };
    proof {
        assert(p@.take(n as int) =~= cs@.subrange(0, n as int));
    }
    Some(text_of(&cs, 0, n))
}

/// How long the part of a file name before its extension is: up to the last dot,
/// unless that opens the name.
pub open spec fn stem_len(name: Seq<char>, n: int) -> int
    decreases n,
{
    if n <= 1 {
        name.len() as int
    } else if name[n - 1] == '.' {
        n - 1
    } else {
        stem_len(name, n - 1)
    }
}

/// `p` with the extension of its file name turned into `tmp`.
pub open spec fn temporary(p: Seq<char>) -> Seq<char> {
    match file_name(p) {
        Some(name) => p.take(last_start(p) + stem_len(name, name.len() as int)) + ".tmp"@,
        None => p,
    }
}

/// `p` with the extension of its file name turned into `tmp`: the file that is
/// written before it takes the place of `p`.
pub fn temporary_of(p: &str) -> (r: String)
    ensures
        r@ == temporary(p@),
{
    let cs: Vec<char> = chars_of(p);
    let hi: usize = find_end(&cs, cs.len());
    let lo: usize = find_start(&cs, hi);
    match file_name_of(p) {
        None => p.to_owned(),
        Some(name) => {
            let ghost nv = name@;
            proof {
                assert(nv == cs@.subrange(lo as int, hi as int));
            }
            let mut n: usize = hi - lo;
            while n > 1 && cs[lo + n - 1] != '.'
                invariant
                    lo <= hi <= cs@.len(),
                    cs@.len() == cs.len(),
                    nv == cs@.subrange(lo as int, hi as int),
                    n <= hi - lo,
                    stem_len(nv, nv.len() as int) == stem_len(nv, n as int),
                decreases n,
            {
                n = n - 1;
            }
            let keep: usize = if n <= 1 {
                hi
            } else {
                lo + n - 1
            };
            let head: String = text_of(&cs, 0, keep);
            proof {
                assert(p@.take(keep as int) =~= cs@.subrange(0, keep as int));
            }
            joined(head.as_str(), ".tmp")
        },
    }
}

/// The directory of a bucket.
pub open spec fn bucket_dir(base: Seq<char>, bucket: Seq<char>) -> Seq<char> {
    path_join(base, bucket)
}

/// The file of an object's body.
pub open spec fn object_file(base: Seq<char>, bucket: Seq<char>, key: Seq<char>) -> Seq<char> {
    path_join(path_join(base, bucket), key)
}

/// What the name of every sidecar ends with.
pub open spec fn sidecar_suffix() -> Seq<char> {
    ".fals3-meta.json"@
}

/// The sidecar of an object.
pub open spec fn meta_file(base: Seq<char>, bucket: Seq<char>, key: Seq<char>) -> Seq<char> {
    path_join(path_join(base, bucket), key + sidecar_suffix())
}

/// Resolve the filesystem path for a bucket directory: `{base_dir}/{bucket}`.
pub fn bucket_path(base_dir: &str, bucket: &str) -> (r: String)
    ensures
        r@ == bucket_dir(base_dir@, bucket@),
{
    join(base_dir, bucket)
}

/// Resolve the filesystem path for an object body file:
/// `{base_dir}/{bucket}/{key}`.
pub fn object_path(base_dir: &str, bucket: &str, key: &str) -> (r: String)
    ensures
        r@ == object_file(base_dir@, bucket@, key@),
{
    let dir: String = join(base_dir, bucket);
    join(dir.as_str(), key)
}

/// Resolve the filesystem path for an object's sidecar metadata file:
/// `{base_dir}/{bucket}/{key}.fals3-meta.json`.
pub fn meta_path(base_dir: &str, bucket: &str, key: &str) -> (r: String)
    ensures
        r@ == meta_file(base_dir@, bucket@, key@),
{
    let dir: String = join(base_dir, bucket);
    let name: String = joined(key, ".fals3-meta.json");
    join(dir.as_str(), name.as_str())
}

/// Whether a file name is that of a sidecar.
pub fn is_sidecar(name: &str) -> (r: bool)
    ensures
        r == sidecar_suffix().is_suffix_of(name@),
{
    finishes_with(name, ".fals3-meta.json")
}

// ---- staying under the base directory ----

/// `p` lies under `base`, component by component.
pub open spec fn lies_under(base: Seq<char>, p: Seq<char>) -> bool {
    components(base).is_prefix_of(components(p))
}

/// Whether `p` lies under `base`, component by component.
pub fn is_under(base: &str, p: &str) -> (r: bool)
    ensures
        r == lies_under(base@, p@),
{
    let b: Vec<String> = components_of(base);
    let q: Vec<String> = components_of(p);
    if b.len() > q.len() {
        return false;
    }
    let mut i: usize = 0;
    while i < b.len()
        invariant
            i <= b@.len() <= q@.len(),
            text::views(b@) == components(base@),
            text::views(q@) == components(p@),
            forall|k: int| 0 <= k < i ==> components(base@)[k] == components(p@)[k],
        decreases b@.len() - i,
    {
        proof {
            assert(components(base@)[i as int] == b@[i as int]@);
            assert(components(p@)[i as int] == q@[i as int]@);
        }
        if b[i] != q[i] {
            return false;
        }
        i = i + 1;
    }
    proof {
        assert(components(p@).subrange(0, components(base@).len() as int) =~= components(base@));
    }
    true
}

/// Verify that `path` is under `canonical_base`.
///
/// `resolved` is what the disk makes of `path` once symlinks are followed; where
/// there is nothing at `path` yet it is `path` itself.
pub fn assert_within_base(canonical_base: &str, path: &str, resolved: &str) -> (r: Result<
    (),
    Fals3Error,
>)
    ensures
        match r {
            Ok(_) => lies_under(canonical_base@, resolved@),
            Err(e) => !lies_under(canonical_base@, resolved@) && e@ == (ErrorView::PathEscape {
                path: path@,
                base: canonical_base@,
            }),
        },
{
    if is_under(canonical_base, resolved) {
        Ok(())
    } else {
        Err(Fals3Error::PathEscape { path: path.to_owned(), base: canonical_base.to_owned() })
    }
}

} // verus!
