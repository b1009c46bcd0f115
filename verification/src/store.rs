//! The operations of the store.
//!
//! Each operation has a script, which says what it asks and how it ends. A script is
//! put together from its rests: `put_from_lock`, say, is what is left of putting an
//! object when the lock of the bucket is to be taken, and `put_from_clock` what is
//! left when the time is to be asked for. An operation under way holds what it needs
//! for one of these rests, and its contract is that it does what that rest says.

pub mod buckets;
pub mod copying;
pub mod listing;
pub mod multipart;
pub mod objects;
pub mod part_listing;
pub mod parts;
pub mod steps;
pub mod tokens;

pub use crate::conditions::IfConditions;
pub use crate::store::buckets::{CreateBucketInput, DeleteBucketInput, HeadBucketInput};
pub use crate::store::copying::{CopyObjectInput, CopyObjectOutput, MetadataDirective};
pub use crate::store::listing::{ListObjectsV2Input, ListObjectsV2Output, ObjectEntry};
pub use crate::store::multipart::{AbortMultipartUploadInput, CompletedPart};
pub use crate::store::multipart::{CompleteMultipartUploadInput, CompleteMultipartUploadOutput};
pub use crate::store::multipart::{CreateMultipartUploadInput, CreateMultipartUploadOutput};
pub use crate::store::multipart::{UploadPartInput, UploadPartOutput};
pub use crate::store::objects::{DeleteObjectInput, GetObjectInput, GetObjectOutput};
pub use crate::store::objects::{HeadObjectInput, PutObjectInput, PutObjectOutput};
pub use crate::store::part_listing::{ListPartsInput, ListPartsOutput, PartEntry};
pub use crate::store::parts::MAX_PART_NUMBER;

use vstd::prelude::*;

verus! {

/// The core S3 simulator: buckets and objects under one base directory.
///
/// Each operation starts here and then goes on with the answers of the disk.
pub struct Store {
    base_dir: String,
}

impl Store {
    /// The base directory.
    pub closed spec fn base(&self) -> Seq<char> {
        self.base_dir@
    }

    /// A store rooted at `base_dir`, a directory that exists and is canonical (all
    /// symlinks resolved).
    pub fn open(base_dir: String) -> (r: Store)
        ensures
            r.base() == base_dir@,
    {
        Store { base_dir }
    }

    pub fn base_dir(&self) -> (r: &str)
        ensures
            r@ == self.base(),
    {
        self.base_dir.as_str()
    }
}

} // verus!
