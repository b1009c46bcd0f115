//! Where a multipart upload keeps its record and its parts.

use crate::digits;
use crate::digits::{hex_of_u64, padded_of, parse_u32};
use crate::error::Fals3Error;
use crate::error::ErrorView;
use crate::paths;
use crate::paths::join;
use crate::text::{begins_with, chars_of, finishes_with, has_char, joined, same_text, text_of};
use vstd::prelude::*;

verus! {

/// Maximum part number S3 allows.
pub const MAX_PART_NUMBER: u32 = 10_000;

/// The directory that holds the uploads under way. Its leading `.` keeps it apart
/// from every bucket.
pub open spec fn uploads_dir(base: Seq<char>) -> Seq<char> {
    paths::path_join(base, ".fals3-uploads"@)
}

/// The directory of an upload.
pub open spec fn upload_home(base: Seq<char>, upload_id: Seq<char>) -> Seq<char> {
    paths::path_join(uploads_dir(base), upload_id)
}

/// The id is one name, so that the directory of the upload is one of those that lie
/// in the directory of the uploads.
pub open spec fn is_id(upload_id: Seq<char>) -> bool {
    paths::is_name(upload_id) && !upload_id.contains('/') && upload_id != ".."@
}

/// Why an upload id is refused by itself, if so: no upload has it.
pub open spec fn id_fault(upload_id: Seq<char>) -> Option<ErrorView> {
    if is_id(upload_id) {
        None
    } else {
        Some(ErrorView::NoSuchUpload { upload_id })
    }
}

/// Whether an upload can have this id.
pub fn is_upload_id(upload_id: &str) -> (r: bool)
    ensures
        r == is_id(upload_id@),
{
    !upload_id.is_empty() && !same_text(upload_id, ".") && !same_text(upload_id, "..") && !has_char(
        upload_id,
        '/',
    )
}

/// Refuses an id that no upload can have.
pub fn validate_upload_id(upload_id: &str) -> (r: Result<(), Fals3Error>)
    ensures
        match r {
            Ok(_) => id_fault(upload_id@) is None,
            Err(e) => id_fault(upload_id@) == Some(e@),
        },
{
    if is_upload_id(upload_id) {
        Ok(())
    } else {
        Err(Fals3Error::NoSuchUpload { upload_id: upload_id.to_owned() })
    }
}

/// The record of the upload in the directory `dir`.
pub open spec fn record_file(dir: Seq<char>) -> Seq<char> {
    paths::path_join(dir, "meta.json"@)
}

/// The name of the file with the body of a part.
pub open spec fn body_name(n: u32) -> Seq<char> {
    "part-"@ + digits::padded(n as nat) + ".bin"@
}

/// The file with the body of a part.
pub open spec fn body_file(dir: Seq<char>, n: u32) -> Seq<char> {
    paths::path_join(dir, body_name(n))
}

/// The name of the file with the ETag of a part.
pub open spec fn etag_name(n: u32) -> Seq<char> {
    "part-"@ + digits::padded(n as nat) + ".etag"@
}

/// The file with the ETag of a part.
pub open spec fn etag_file(dir: Seq<char>, n: u32) -> Seq<char> {
    paths::path_join(dir, etag_name(n))
}

/// The part that a file is the body of, by the name of the file.
pub open spec fn part_number_of(name: Seq<char>) -> Option<u32> {
    if ".bin"@.is_suffix_of(name) {
        let stem = name.take(name.len() - ".bin"@.len());
        if "part-"@.is_prefix_of(stem) {
            digits::parsed(stem.skip("part-"@.len() as int))
        } else {
            None
        }
    } else {
        None
    }
}

pub fn upload_dir(base: &str, upload_id: &str) -> (r: String)
    ensures
        r@ == upload_home(base@, upload_id@),
{
    let uploads: String = join(base, ".fals3-uploads");
    join(uploads.as_str(), upload_id)
}

pub fn upload_meta_path(dir: &str) -> (r: String)
    ensures
        r@ == record_file(dir@),
{
    join(dir, "meta.json")
}

pub fn part_body_path(dir: &str, part_number: u32) -> (r: String)
    ensures
        r@ == body_file(dir@, part_number),
{
    let stem: String = joined("part-", padded_of(part_number).as_str());
    let name: String = joined(stem.as_str(), ".bin");
    join(dir, name.as_str())
}

pub fn part_etag_path(dir: &str, part_number: u32) -> (r: String)
    ensures
        r@ == etag_file(dir@, part_number),
{
    let stem: String = joined("part-", padded_of(part_number).as_str());
    let name: String = joined(stem.as_str(), ".etag");
    join(dir, name.as_str())
}

pub fn parse_part_body_filename(name: &str) -> (r: Option<u32>)
    ensures
        r == part_number_of(name@),
{
    proof {
        reveal_strlit(".bin");
        reveal_strlit("part-");
    }
    if !finishes_with(name, ".bin") {
        return None;
    }
    let cs: Vec<char> = chars_of(name);
    let stem: String = text_of(&cs, 0, cs.len() - 4);
    proof {
        assert(stem@ =~= name@.take(name@.len() - 4));
    }
    if !begins_with(stem.as_str(), "part-") {
        return None;
    }
    let digits: String = text_of(&cs, 5, cs.len() - 4);
    proof {
        assert(digits@ =~= stem@.skip(5));
    }
    parse_u32(digits.as_str())
}

/// The body of a part is found again under its number.
pub proof fn part_name_reads_back(n: u32)
    ensures
        part_number_of(body_name(n)) == Some(n),
{
    reveal_strlit(".bin");
    reveal_strlit("part-");
    digits::padded_reads_back(n);
    let name = body_name(n);
    let stem = name.take(name.len() - 4);
    assert(name.skip(name.len() - 4) =~= ".bin"@);
    assert(stem =~= "part-"@ + digits::padded(n as nat));
    assert(stem.skip(5) =~= digits::padded(n as nat));
    assert(stem.take(5) =~= "part-"@);
}

/// Why a part number is refused, if so.
pub open spec fn part_number_fault(n: u32) -> Option<ErrorView> {
    if 1 <= n <= MAX_PART_NUMBER {
        None
    } else {
        Some(ErrorView::InvalidPart)
    }
}

pub fn validate_part_number(n: u32) -> (r: Result<(), Fals3Error>)
    ensures
        match r {
            Ok(_) => part_number_fault(n) is None,
            Err(e) => part_number_fault(n) == Some(e@),
        },
{
    if 1 <= n && n <= MAX_PART_NUMBER {
        Ok(())
    } else {
        Err(Fals3Error::InvalidPart)
    }
}

/// An upload id: the low 64 bits of the time in nanoseconds and a count, each as
/// 16 hexadecimal digits.
pub open spec fn upload_id_of(nanos: u128, count: u64) -> Seq<char> {
    digits::hex_number((nanos % 0x1_0000_0000_0000_0000) as nat, 16) + digits::hex_number(
        count as nat,
        16,
    )
}

pub fn new_upload_id(nanos: u128, count: u64) -> (r: String)
    ensures
        r@ == upload_id_of(nanos, count),
{
    let t: u64 = (nanos % 0x1_0000_0000_0000_0000) as u64;
    joined(hex_of_u64(t).as_str(), hex_of_u64(count).as_str())
}

} // verus!
